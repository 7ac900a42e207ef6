//! The jumbler engine: a streaming finite-state transducer that keeps
//! each word's first and last byte in place, passes non-alphabetic
//! bytes through unchanged, and emits each word's interior bytes in a
//! randomly permuted order.
//!
//! The engine runs one step behind the stream: each consumed byte first
//! triggers the action of the current state on the previously consumed
//! byte, and only then the transition on the new byte. This way a word's
//! end is detected by the byte that follows it, and at end of stream a
//! sentinel (`None`) forces the final word boundary.

use vstd::prelude::*;

use crate::alpha::{classify, is_alpha};
use crate::rng::random_usize;
use crate::words::{
    all_alpha, emitted_ok, jumbled, word_start, lemma_emit_first, lemma_emit_nonalpha,
    lemma_extend_input, lemma_flush_word, lemma_swap_to_multiset,
};

verus! {

/// A state of the engine.
#[derive(Debug)]
enum State {
    /// Before the first byte is processed.
    Start,
    /// The first byte of a word was just consumed.
    FirstChar,
    /// A later byte of a word was just consumed.
    NthChar,
    /// A word just ended; its buffered bytes await the flush.
    Jumble,
    /// A non-alphabetic byte was just consumed.
    NonAlpha,
}

/// The end-of-stream sentinel counts as non-alphabetic.
spec fn opt_alpha(c: Option<u8>) -> bool {
    match c {
        Some(b) => is_alpha(b),
        None => false,
    }
}

/// The transition table, over the binary classification of the consumed
/// byte.
spec fn next_spec(s: State, alpha: bool) -> State {
    match s {
        State::Start => if alpha {
            State::FirstChar
        } else {
            State::NonAlpha
        },
        State::FirstChar => if alpha {
            State::NthChar
        } else {
            State::NonAlpha
        },
        State::NthChar => if alpha {
            State::NthChar
        } else {
            State::Jumble
        },
        State::Jumble => if alpha {
            State::FirstChar
        } else {
            State::NonAlpha
        },
        State::NonAlpha => if alpha {
            State::FirstChar
        } else {
            State::NonAlpha
        },
    }
}

impl State {
    /// Return the next state for the consumed byte (`None` at end of
    /// stream).
    fn next(&self, c: Option<u8>) -> (s: State)
        ensures
            s == next_spec(*self, opt_alpha(c)),
    {
        let alpha = match c {
            Some(b) => classify(b),
            None => false,
        };
        match self {
            State::Start => if alpha {
                State::FirstChar
            } else {
                State::NonAlpha
            },
            State::FirstChar => if alpha {
                State::NthChar
            } else {
                State::NonAlpha
            },
            State::NthChar => if alpha {
                State::NthChar
            } else {
                State::Jumble
            },
            State::Jumble => if alpha {
                State::FirstChar
            } else {
                State::NonAlpha
            },
            State::NonAlpha => if alpha {
                State::FirstChar
            } else {
                State::NonAlpha
            },
        }
    }
}

/// The engine. It consumes a byte stream one byte at a time through
/// [`JumblerFSM::step`], holding at most the current word's buffered
/// bytes, and appends to its output as soon as each byte's fate is
/// decided. [`JumblerFSM::finish`] flushes a word that ends at end of
/// stream and hands the output back.
pub struct JumblerFSM {
    /// Current state of the engine.
    state: State,
    /// Last consumed byte; `None` before the first byte and at end of
    /// stream.
    lastchar: Option<u8>,
    /// The current word's bytes after its first, in input order until
    /// the flush shuffles them.
    chars: Vec<u8>,
    /// Output emitted so far.
    output: Vec<u8>,
    /// The bytes consumed so far.
    hist: Ghost<Seq<u8>>,
    /// Start position of the word currently being consumed.
    ws: Ghost<int>,
}

/// What `execute` does, per state: the action of the current state on
/// the last consumed byte. The state itself, the last byte and the
/// consumed history never change.
spec fn execute_post(pre: JumblerFSM, post: JumblerFSM) -> bool {
    &&& post.state == pre.state
    &&& post.lastchar == pre.lastchar
    &&& post.hist == pre.hist
    &&& post.ws == pre.ws
    &&& match pre.state {
        State::Start => {
            &&& post.output == pre.output
            &&& post.chars == pre.chars
        },
        State::FirstChar | State::NonAlpha => {
            &&& post.chars == pre.chars
            &&& match pre.lastchar {
                Some(c) => post.output@ == pre.output@.push(c),
                None => post.output == pre.output,
            }
        },
        State::NthChar => {
            &&& post.output == pre.output
            &&& match pre.lastchar {
                Some(c) => post.chars@ == pre.chars@.push(c),
                None => post.chars == pre.chars,
            }
        },
        State::Jumble => {
            let o = pre.output@;
            let b = pre.chars@;
            let l = b.len() as int;
            &&& post.chars@.len() == 0
            &&& post.output@.subrange(0, o.len() as int) == o
            &&& post.output@.subrange(o.len() as int, o.len() + l).to_multiset() == b.to_multiset()
            &&& post.output@[o.len() + l - 1] == b.last()
            &&& match pre.lastchar {
                Some(c) => {
                    &&& post.output@.len() == o.len() + l + 1
                    &&& post.output@[o.len() + l] == c
                },
                None => post.output@.len() == o.len() + l,
            }
        },
    }
}

impl JumblerFSM {
    /// The bytes fed to the engine since it was created or last
    /// finished.
    pub closed spec fn consumed(self) -> Seq<u8> {
        self.hist@
    }

    /// The output emitted so far.
    pub closed spec fn out_seq(self) -> Seq<u8> {
        self.output@
    }

    /// The engine's invariant between steps: the output is a correct
    /// transform of the decided prefix of the consumed bytes, and the
    /// state describes exactly how far behind the output runs.
    pub closed spec fn inv(self) -> bool {
        let inp = self.hist@;
        let n = inp.len() as int;
        let out = self.output@;
        let w = self.ws@;
        &&& emitted_ok(inp, out)
        &&& match self.state {
            State::Start => {
                &&& n == 0
                &&& out.len() == 0
                &&& self.chars@.len() == 0
                &&& self.lastchar is None
            },
            State::FirstChar => {
                &&& n >= 1
                &&& self.lastchar == Some(inp[n - 1])
                &&& word_start(inp, n - 1)
                &&& out.len() == n - 1
                &&& self.chars@.len() == 0
            },
            State::NthChar => {
                &&& n >= 2
                &&& self.lastchar == Some(inp[n - 1])
                &&& 0 <= w <= n - 2
                &&& word_start(inp, w)
                &&& all_alpha(inp, w, n)
                &&& out.len() == w + 1
                &&& self.chars@ == inp.subrange(w + 1, n - 1)
            },
            State::Jumble => {
                &&& n >= 3
                &&& self.lastchar == Some(inp[n - 1])
                &&& !is_alpha(inp[n - 1])
                &&& 0 <= w <= n - 3
                &&& word_start(inp, w)
                &&& all_alpha(inp, w, n - 1)
                &&& out.len() == w + 1
                &&& self.chars@ == inp.subrange(w + 1, n - 1)
            },
            State::NonAlpha => {
                &&& n >= 1
                &&& self.lastchar == Some(inp[n - 1])
                &&& !is_alpha(inp[n - 1])
                &&& out.len() == n - 1
                &&& self.chars@.len() == 0
            },
        }
    }

    /// Create an engine that has consumed nothing and emitted nothing.
    pub fn new() -> (r: JumblerFSM)
        ensures
            r.inv(),
            r.consumed() == Seq::<u8>::empty(),
            r.out_seq() == Seq::<u8>::empty(),
    {
        JumblerFSM {
            state: State::Start,
            lastchar: None,
            chars: Vec::new(),
            output: Vec::new(),
            hist: Ghost(Seq::empty()),
            ws: Ghost(0),
        }
    }

    /// Move to the next state based on the last consumed byte.
    fn next_state(&mut self)
        ensures
            final(self).state == next_spec(old(self).state, opt_alpha(old(self).lastchar)),
            final(self).lastchar == old(self).lastchar,
            final(self).chars == old(self).chars,
            final(self).output == old(self).output,
            final(self).hist == old(self).hist,
            final(self).ws == old(self).ws,
    {
        self.state = self.state.next(self.lastchar);
    }

    /// Shuffle the buffered bytes in place, leaving the last one (the
    /// word's final byte) where it is: a partial Fisher-Yates pass over
    /// the word's interior.
    fn jumble(&mut self)
        requires
            old(self).chars@.len() >= 1,
        ensures
            final(self).state == old(self).state,
            final(self).lastchar == old(self).lastchar,
            final(self).output == old(self).output,
            final(self).hist == old(self).hist,
            final(self).ws == old(self).ws,
            final(self).chars@.len() == old(self).chars@.len(),
            final(self).chars@.last() == old(self).chars@.last(),
            final(self).chars@.to_multiset() == old(self).chars@.to_multiset(),
    {
        let n = self.chars.len() - 1;
        if n <= 1 {
            return;
        }
        let ghost orig = self.chars@;
        let ghost snap = *self;
        let mut i: usize = 0;
        while i < n - 1
            invariant
                2 <= n,
                n + 1 == orig.len(),
                0 <= i <= n - 1,
                self.state == snap.state,
                self.lastchar == snap.lastchar,
                self.output == snap.output,
                self.hist == snap.hist,
                self.ws == snap.ws,
                self.chars@.len() == orig.len(),
                self.chars@.last() == orig.last(),
                self.chars@.to_multiset() == orig.to_multiset(),
            decreases n - 1 - i,
        {
            let j = random_usize() % (n - i) + i;
            let a = self.chars[i];
            let b = self.chars[j];
            let ghost before = self.chars@;
            self.chars[i] = b;
            self.chars[j] = a;
            proof {
                assert(self.chars@ =~= before.update(i as int, before[j as int]).update(
                    j as int,
                    before[i as int],
                ));
                lemma_swap_to_multiset(before, i as int, j as int);
            }
            i += 1;
        }
    }

    /// Perform the action of the current state on the last consumed
    /// byte: pass it through, buffer it, or flush the buffered word.
    fn execute(&mut self)
        requires
            old(self).state is Jumble ==> old(self).chars@.len() >= 1,
        ensures
            execute_post(*old(self), *final(self)),
    {
        match self.state {
            State::Start => {},
            State::NonAlpha | State::FirstChar => {
                if let Some(c) = self.lastchar {
                    self.output.push(c);
                }
            },
            State::NthChar => {
                if let Some(c) = self.lastchar {
                    self.chars.push(c);
                }
            },
            State::Jumble => {
                self.jumble();
                let ghost snap = *self;
                let mut k: usize = 0;
                while k < self.chars.len()
                    invariant
                        0 <= k <= snap.chars@.len(),
                        self.state == snap.state,
                        self.lastchar == snap.lastchar,
                        self.chars == snap.chars,
                        self.hist == snap.hist,
                        self.ws == snap.ws,
                        self.output@ == snap.output@ + snap.chars@.subrange(0, k as int),
                    decreases snap.chars@.len() - k,
                {
                    let c = self.chars[k];
                    self.output.push(c);
                    k += 1;
                    proof {
                        assert(snap.output@ + snap.chars@.subrange(0, k as int) =~= (snap.output@
                            + snap.chars@.subrange(0, k - 1)).push(snap.chars@[k - 1]));
                    }
                }
                proof {
                    assert(snap.chars@.subrange(0, snap.chars@.len() as int) =~= snap.chars@);
                }
                if let Some(c) = self.lastchar {
                    self.output.push(c);
                }
                self.chars.clear();
                proof {
                    let o = old(self).output@;
                    let b = old(self).chars@;
                    let l = b.len() as int;
                    assert(self.output@.subrange(0, o.len() as int) =~= o);
                    assert(self.output@.subrange(o.len() as int, o.len() + l) =~= snap.chars@);
                }
            },
        }
    }

    /// Feed one byte to the engine: act on the previous byte, then
    /// transition on this one. The output grows by whatever the action
    /// emitted, never shrinking or rewriting what was already emitted.
    pub fn step(&mut self, c: u8)
        requires
            old(self).inv(),
        ensures
            final(self).inv(),
            final(self).consumed() == old(self).consumed().push(c),
            old(self).out_seq().is_prefix_of(final(self).out_seq()),
    {
        let ghost pre = *self;
        proof {
            if self.state is Jumble {
                assert(self.chars@.len() >= 1);
            }
        }
        self.execute();
        if let State::FirstChar = self.state {
            self.ws = Ghost(self.hist@.len() - 1);
        }
        self.lastchar = Some(c);
        self.hist = Ghost(self.hist@.push(c));
        self.next_state();
        proof {
            let inp = pre.hist@;
            let n = inp.len() as int;
            let inp2 = self.hist@;
            let out2 = self.output@;
            assert(inp2 == inp.push(c));
            match pre.state {
                State::Start => {
                    lemma_extend_input(inp, out2, c);
                    assert(pre.output@.is_prefix_of(out2));
                },
                State::FirstChar => {
                    lemma_emit_first(inp, pre.output@);
                    assert(out2 == pre.output@.push(inp[n - 1]));
                    lemma_extend_input(inp, out2, c);
                    assert(pre.output@.is_prefix_of(out2)) by {
                        assert(pre.output@ =~= out2.subrange(0, pre.output@.len() as int));
                    }
                    if is_alpha(c) {
                        assert(self.ws@ == n - 1);
                        assert(word_start(inp2, n - 1));
                        assert(all_alpha(inp2, n - 1, n + 1)) by {
                            assert(inp2[n - 1] == inp[n - 1]);
                            assert(inp2[n] == c);
                        }
                        assert(self.chars@ =~= inp2.subrange(n, n));
                    }
                },
                State::NthChar => {
                    let w = pre.ws@;
                    assert(self.chars@ =~= inp2.subrange(w + 1, n)) by {
                        assert(pre.chars@ == inp.subrange(w + 1, n - 1));
                        assert(self.chars@ == pre.chars@.push(inp[n - 1]));
                        assert(inp.subrange(w + 1, n - 1).push(inp[n - 1]) =~= inp2.subrange(
                            w + 1,
                            n,
                        ));
                    }
                    lemma_extend_input(inp, out2, c);
                    assert(pre.output@.is_prefix_of(out2));
                    assert(word_start(inp2, w)) by {
                        assert(inp2[w] == inp[w]);
                        if w > 0 {
                            assert(inp2[w - 1] == inp[w - 1]);
                        }
                    }
                    if is_alpha(c) {
                        assert(all_alpha(inp2, w, n + 1)) by {
                            assert forall|j: int| w <= j < n + 1 implies is_alpha(
                                #[trigger] inp2[j],
                            ) by {
                                if j < n {
                                    assert(inp2[j] == inp[j]);
                                    assert(is_alpha(inp[j]));
                                } else {
                                    assert(inp2[j] == c);
                                }
                            }
                        }
                    } else {
                        assert(all_alpha(inp2, w, n)) by {
                            assert forall|j: int| w <= j < n implies is_alpha(
                                #[trigger] inp2[j],
                            ) by {
                                assert(inp2[j] == inp[j]);
                                assert(is_alpha(inp[j]));
                            }
                        }
                    }
                },
                State::Jumble => {
                    let w = pre.ws@;
                    let o = pre.output@;
                    let l = pre.chars@.len() as int;
                    let mid = out2.subrange(o.len() as int, o.len() + l);
                    assert(l == n - w - 2);
                    assert(mid.last() == inp[n - 2]) by {
                        assert(out2[o.len() + l - 1] == pre.chars@.last());
                        assert(pre.chars@ == inp.subrange(w + 1, n - 1));
                        assert(pre.chars@.last() == inp[n - 2]);
                    }
                    assert(mid.to_multiset() == inp.subrange(w + 1, n - 1).to_multiset());
                    lemma_flush_word(inp, o, mid, w, n - 1);
                    assert((o + mid).push(inp[n - 1]) =~= out2) by {
                        assert(out2.subrange(0, o.len() as int) == o);
                        assert(out2.len() == o.len() + l + 1);
                        assert(out2[o.len() + l] == inp[n - 1]);
                    }
                    lemma_emit_nonalpha(inp, o + mid);
                    lemma_extend_input(inp, out2, c);
                    assert(pre.output@.is_prefix_of(out2)) by {
                        assert(pre.output@ =~= out2.subrange(0, o.len() as int));
                    }
                    if is_alpha(c) {
                        assert(word_start(inp2, n));
                    }
                },
                State::NonAlpha => {
                    lemma_emit_nonalpha(inp, pre.output@);
                    assert(out2 == pre.output@.push(inp[n - 1]));
                    lemma_extend_input(inp, out2, c);
                    assert(pre.output@.is_prefix_of(out2)) by {
                        assert(pre.output@ =~= out2.subrange(0, pre.output@.len() as int));
                    }
                    if is_alpha(c) {
                        assert(word_start(inp2, n));
                    }
                },
            }
        }
    }

    /// End the stream: act on the last byte, force the final word
    /// boundary with the sentinel, flush, and hand back the whole
    /// output. The engine is left fresh, as [`JumblerFSM::new`] made
    /// it.
    pub fn finish(&mut self) -> (out: Vec<u8>)
        requires
            old(self).inv(),
        ensures
            jumbled(old(self).consumed(), out@),
            old(self).out_seq().is_prefix_of(out@),
            final(self).inv(),
            final(self).consumed() == Seq::<u8>::empty(),
            final(self).out_seq() == Seq::<u8>::empty(),
    {
        let ghost pre = *self;
        let ghost inp = pre.hist@;
        let ghost n = inp.len() as int;
        proof {
            if self.state is Jumble {
                assert(self.chars@.len() >= 1);
            }
        }
        self.execute();
        self.lastchar = None;
        self.next_state();
        proof {
            if self.state is Jumble {
                assert(pre.state is NthChar);
                assert(self.chars@.len() >= 1);
            }
        }
        self.execute();
        proof {
            match pre.state {
                State::Start => {
                    assert(self.output@ =~= Seq::<u8>::empty());
                    assert(jumbled(inp, self.output@));
                },
                State::FirstChar => {
                    lemma_emit_first(inp, pre.output@);
                    assert(self.output@ == pre.output@.push(inp[n - 1]));
                    assert(pre.output@.is_prefix_of(self.output@)) by {
                        assert(pre.output@ =~= self.output@.subrange(
                            0,
                            pre.output@.len() as int,
                        ));
                    }
                },
                State::NonAlpha => {
                    lemma_emit_nonalpha(inp, pre.output@);
                    assert(self.output@ == pre.output@.push(inp[n - 1]));
                    assert(pre.output@.is_prefix_of(self.output@)) by {
                        assert(pre.output@ =~= self.output@.subrange(
                            0,
                            pre.output@.len() as int,
                        ));
                    }
                },
                State::NthChar => {
                    let w = pre.ws@;
                    let o = pre.output@;
                    let l = n - w - 1;
                    let flushed = pre.chars@.push(inp[n - 1]);
                    let mid = self.output@.subrange(o.len() as int, o.len() + l);
                    assert(flushed =~= inp.subrange(w + 1, n)) by {
                        assert(pre.chars@ == inp.subrange(w + 1, n - 1));
                        assert(inp.subrange(w + 1, n - 1).push(inp[n - 1]) =~= inp.subrange(
                            w + 1,
                            n,
                        ));
                    }
                    assert(mid.last() == inp[n - 1]) by {
                        assert(self.output@[o.len() + l - 1] == flushed.last());
                    }
                    assert(mid.to_multiset() == inp.subrange(w + 1, n).to_multiset());
                    lemma_flush_word(inp, o, mid, w, n);
                    assert(o + mid =~= self.output@) by {
                        assert(self.output@.subrange(0, o.len() as int) == o);
                        assert(self.output@.len() == o.len() + l);
                    }
                    assert(pre.output@.is_prefix_of(self.output@)) by {
                        assert(pre.output@ =~= self.output@.subrange(0, o.len() as int));
                    }
                },
                State::Jumble => {
                    let w = pre.ws@;
                    let o = pre.output@;
                    let l = n - w - 2;
                    let mid = self.output@.subrange(o.len() as int, o.len() + l);
                    assert(mid.last() == inp[n - 2]) by {
                        assert(self.output@[o.len() + l - 1] == pre.chars@.last());
                        assert(pre.chars@ == inp.subrange(w + 1, n - 1));
                        assert(pre.chars@.last() == inp[n - 2]);
                    }
                    assert(mid.to_multiset() == inp.subrange(w + 1, n - 1).to_multiset());
                    lemma_flush_word(inp, o, mid, w, n - 1);
                    assert((o + mid).push(inp[n - 1]) =~= self.output@) by {
                        assert(self.output@.subrange(0, o.len() as int) == o);
                        assert(self.output@.len() == o.len() + l + 1);
                        assert(self.output@[o.len() + l] == inp[n - 1]);
                    }
                    lemma_emit_nonalpha(inp, o + mid);
                    assert(pre.output@.is_prefix_of(self.output@)) by {
                        assert(pre.output@ =~= self.output@.subrange(0, o.len() as int));
                    }
                },
            }
            assert(jumbled(inp, self.output@));
        }
        let ghost full = self.output@;
        let out = self.output.split_off(0);
        proof {
            assert(out@ =~= full);
        }
        self.state = State::Start;
        self.hist = Ghost(Seq::empty());
        self.ws = Ghost(0);
        proof {
            assert(self.output@ =~= Seq::<u8>::empty());
            assert(self.chars@.len() == 0);
            assert(self.inv());
        }
        out
    }

    /// Consume the whole source stream and return the transformed
    /// stream: a correct jumbling of the source.
    pub fn run(&mut self, source: &Vec<u8>) -> (out: Vec<u8>)
        requires
            old(self).inv(),
            old(self).consumed() == Seq::<u8>::empty(),
        ensures
            jumbled(source@, out@),
            final(self).inv(),
            final(self).consumed() == Seq::<u8>::empty(),
    {
        proof {
            assert(self.consumed() =~= source@.subrange(0, 0));
        }
        let mut k: usize = 0;
        while k < source.len()
            invariant
                self.inv(),
                0 <= k <= source.len(),
                self.consumed() == source@.subrange(0, k as int),
            decreases source.len() - k,
        {
            self.step(source[k]);
            k += 1;
            proof {
                assert(source@.subrange(0, k as int) =~= source@.subrange(0, k - 1).push(
                    source@[k - 1],
                ));
            }
        }
        proof {
            assert(self.consumed() =~= source@);
        }
        self.finish()
    }
}

} // verus!
