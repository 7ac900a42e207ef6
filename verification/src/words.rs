//! Word structure of a byte stream, and the relation between an input
//! stream and a correctly jumbled output stream.
//!
//! A word is a maximal run of alphabetic bytes. A correct output keeps
//! every non-alphabetic byte, every word's first byte and every word's
//! last byte at its input position, and permutes each word's interior
//! bytes (everything strictly between the first and the last byte).

use vstd::prelude::*;

use crate::alpha::is_alpha;

verus! {

/// Position `i` begins a word: it is alphabetic and either starts the
/// stream or follows a non-alphabetic byte.
pub open spec fn word_start(inp: Seq<u8>, i: int) -> bool {
    &&& 0 <= i < inp.len()
    &&& is_alpha(inp[i])
    &&& (i == 0 || !is_alpha(inp[i - 1]))
}

/// Position `i` ends a word: it is alphabetic and either ends the
/// stream or is followed by a non-alphabetic byte.
pub open spec fn word_end(inp: Seq<u8>, i: int) -> bool {
    &&& 0 <= i < inp.len()
    &&& is_alpha(inp[i])
    &&& (i == inp.len() - 1 || !is_alpha(inp[i + 1]))
}

/// Every byte of `inp[s .. e)` is alphabetic.
pub open spec fn all_alpha(inp: Seq<u8>, s: int, e: int) -> bool {
    forall|j: int| s <= j < e ==> is_alpha(#[trigger] inp[j])
}

/// `inp[s .. e)` is a word: a maximal alphabetic run.
pub open spec fn is_word(inp: Seq<u8>, s: int, e: int) -> bool {
    &&& 0 <= s < e <= inp.len()
    &&& word_start(inp, s)
    &&& word_end(inp, e - 1)
    &&& all_alpha(inp, s, e)
}

/// The interior of the word `inp[s .. e)` (everything strictly between
/// its first and last byte) reaches the output as a permutation: the
/// multisets of bytes agree.
pub open spec fn interior_permuted(inp: Seq<u8>, out: Seq<u8>, s: int, e: int) -> bool {
    out.subrange(s + 1, e - 1).to_multiset() == inp.subrange(s + 1, e - 1).to_multiset()
}

/// `out` is a correct transform of the prefix `inp[0 .. out.len())`:
/// non-alphabetic bytes, word-starting bytes and word-ending bytes are
/// fixed in place, and each complete word's interior is permuted.
pub open spec fn emitted_ok(inp: Seq<u8>, out: Seq<u8>) -> bool {
    &&& out.len() <= inp.len()
    &&& forall|i: int|
        #![trigger out[i]]
        0 <= i < out.len() && !is_alpha(inp[i]) ==> out[i] == inp[i]
    &&& forall|i: int|
        #![trigger out[i]]
        0 <= i < out.len() && word_start(inp, i) ==> out[i] == inp[i]
    &&& forall|i: int|
        #![trigger out[i]]
        0 <= i < out.len() && word_end(inp, i) ==> out[i] == inp[i]
    &&& forall|s: int, e: int|
        #![trigger is_word(inp, s, e)]
        is_word(inp, s, e) && s + 2 <= e && e <= out.len() ==> interior_permuted(inp, out, s, e)
}

/// `out` is a correct transform of the whole stream `inp`.
pub open spec fn jumbled(inp: Seq<u8>, out: Seq<u8>) -> bool {
    &&& out.len() == inp.len()
    &&& emitted_ok(inp, out)
}

/// Extending the input stream cannot invalidate an already emitted
/// prefix: word starts look backwards only, and a word end or a word
/// within the emitted prefix is unaffected by later bytes.
pub proof fn lemma_extend_input(inp: Seq<u8>, out: Seq<u8>, c: u8)
    requires
        emitted_ok(inp, out),
    ensures
        emitted_ok(inp.push(c), out),
{
    let inp2 = inp.push(c);
    assert forall|i: int|
        #![trigger out[i]]
        0 <= i < out.len() && !is_alpha(inp2[i]) implies out[i] == inp2[i] by {
        assert(inp2[i] == inp[i]);
    }
    assert forall|i: int|
        #![trigger out[i]]
        0 <= i < out.len() && word_start(inp2, i) implies out[i] == inp2[i] by {
        assert(inp2[i] == inp[i]);
        if i > 0 {
            assert(inp2[i - 1] == inp[i - 1]);
        }
        assert(word_start(inp, i));
    }
    assert forall|i: int|
        #![trigger out[i]]
        0 <= i < out.len() && word_end(inp2, i) implies out[i] == inp2[i] by {
        assert(inp2[i] == inp[i]);
        if i + 1 < inp.len() {
            assert(inp2[i + 1] == inp[i + 1]);
        }
        assert(word_end(inp, i));
    }
    assert forall|s: int, e: int|
        #![trigger is_word(inp2, s, e)]
        is_word(inp2, s, e) && s + 2 <= e && e <= out.len() implies interior_permuted(
        inp2,
        out,
        s,
        e,
    ) by {
        assert(word_start(inp, s)) by {
            assert(inp2[s] == inp[s]);
            if s > 0 {
                assert(inp2[s - 1] == inp[s - 1]);
            }
        }
        assert(word_end(inp, e - 1)) by {
            assert(inp2[e - 1] == inp[e - 1]);
            if e < inp.len() {
                assert(inp2[e] == inp[e]);
            }
        }
        assert(all_alpha(inp, s, e)) by {
            assert forall|j: int| s <= j < e implies is_alpha(#[trigger] inp[j]) by {
                assert(is_alpha(inp2[j]));
            }
        }
        assert(is_word(inp, s, e));
        assert(interior_permuted(inp, out, s, e));
        assert(inp2.subrange(s + 1, e - 1) =~= inp.subrange(s + 1, e - 1));
        assert(interior_permuted(inp2, out, s, e));
    }
}

/// Emitting the next byte unchanged, when it is non-alphabetic, keeps
/// the emitted prefix correct.
pub proof fn lemma_emit_nonalpha(inp: Seq<u8>, out: Seq<u8>)
    requires
        emitted_ok(inp, out),
        out.len() < inp.len(),
        !is_alpha(inp[out.len() as int]),
    ensures
        emitted_ok(inp, out.push(inp[out.len() as int])),
{
    let m = out.len() as int;
    let out2 = out.push(inp[m]);
    assert forall|i: int|
        #![trigger out2[i]]
        0 <= i < out2.len() && !is_alpha(inp[i]) implies out2[i] == inp[i] by {
        if i < m {
            assert(out2[i] == out[i]);
        }
    }
    assert forall|i: int|
        #![trigger out2[i]]
        0 <= i < out2.len() && word_start(inp, i) implies out2[i] == inp[i] by {
        if i < m {
            assert(out2[i] == out[i]);
        }
    }
    assert forall|i: int|
        #![trigger out2[i]]
        0 <= i < out2.len() && word_end(inp, i) implies out2[i] == inp[i] by {
        if i < m {
            assert(out2[i] == out[i]);
        }
    }
    assert forall|s: int, e: int|
        #![trigger is_word(inp, s, e)]
        is_word(inp, s, e) && s + 2 <= e && e <= out2.len() implies interior_permuted(
        inp,
        out2,
        s,
        e,
    ) by {
        if e == m + 1 {
            assert(is_alpha(inp[e - 1]));
            assert(false);
        } else {
            assert(interior_permuted(inp, out, s, e));
            assert(out2.subrange(s + 1, e - 1) =~= out.subrange(s + 1, e - 1));
        }
    }
}

/// Emitting the next byte unchanged, when it begins a word, keeps the
/// emitted prefix correct.
pub proof fn lemma_emit_first(inp: Seq<u8>, out: Seq<u8>)
    requires
        emitted_ok(inp, out),
        out.len() < inp.len(),
        word_start(inp, out.len() as int),
    ensures
        emitted_ok(inp, out.push(inp[out.len() as int])),
{
    let m = out.len() as int;
    let out2 = out.push(inp[m]);
    assert forall|i: int|
        #![trigger out2[i]]
        0 <= i < out2.len() && !is_alpha(inp[i]) implies out2[i] == inp[i] by {
        if i < m {
            assert(out2[i] == out[i]);
        }
    }
    assert forall|i: int|
        #![trigger out2[i]]
        0 <= i < out2.len() && word_start(inp, i) implies out2[i] == inp[i] by {
        if i < m {
            assert(out2[i] == out[i]);
        }
    }
    assert forall|i: int|
        #![trigger out2[i]]
        0 <= i < out2.len() && word_end(inp, i) implies out2[i] == inp[i] by {
        if i < m {
            assert(out2[i] == out[i]);
        }
    }
    assert forall|s: int, e: int|
        #![trigger is_word(inp, s, e)]
        is_word(inp, s, e) && s + 2 <= e && e <= out2.len() implies interior_permuted(
        inp,
        out2,
        s,
        e,
    ) by {
        if e == m + 1 {
            // A word ending at the newly emitted position would have to
            // run through position m - 1, which word_start(inp, m) rules out.
            assert(s <= m - 1 < e);
            assert(is_alpha(inp[m - 1]));
            assert(false);
        } else {
            assert(interior_permuted(inp, out, s, e));
            assert(out2.subrange(s + 1, e - 1) =~= out.subrange(s + 1, e - 1));
        }
    }
}

/// The multiset of a sequence without its last element is the multiset
/// of the whole sequence with one occurrence of that element removed.
pub proof fn lemma_to_multiset_drop_last(s: Seq<u8>)
    requires
        s.len() >= 1,
    ensures
        s.subrange(0, s.len() - 1).to_multiset() == s.to_multiset().remove(s.last()),
{
    broadcast use vstd::seq_lib::group_to_multiset_ensures;
    broadcast use vstd::multiset::group_multiset_axioms;

    let t = s.subrange(0, s.len() - 1);
    assert(t.push(s.last()) =~= s);
    assert(s.to_multiset() =~= t.to_multiset().insert(s.last()));
    assert(t.to_multiset().insert(s.last()).remove(s.last()) =~= t.to_multiset());
}

/// Flushing a completed word keeps the emitted prefix correct. The word
/// occupies `inp[w .. e)` with `e - w >= 2`; its first byte was already
/// emitted at position `w`, and `mid` holds the rest of the word: some
/// permutation of the interior followed by the word's last byte.
pub proof fn lemma_flush_word(inp: Seq<u8>, out: Seq<u8>, mid: Seq<u8>, w: int, e: int)
    requires
        emitted_ok(inp, out),
        word_start(inp, w),
        out.len() == w + 1,
        w + 2 <= e <= inp.len(),
        all_alpha(inp, w, e),
        e == inp.len() || !is_alpha(inp[e]),
        mid.len() == e - w - 1,
        mid.last() == inp[e - 1],
        mid.to_multiset() == inp.subrange(w + 1, e).to_multiset(),
    ensures
        emitted_ok(inp, out + mid),
{
    broadcast use vstd::seq_lib::group_to_multiset_ensures;
    broadcast use vstd::multiset::group_multiset_axioms;

    let out2 = out + mid;
    assert(out2.len() == e);
    assert(word_end(inp, e - 1));
    assert forall|i: int|
        #![trigger out2[i]]
        0 <= i < out2.len() && !is_alpha(inp[i]) implies out2[i] == inp[i] by {
        if i < out.len() {
            assert(out2[i] == out[i]);
        } else {
            assert(is_alpha(inp[i]));
        }
    }
    assert forall|i: int|
        #![trigger out2[i]]
        0 <= i < out2.len() && word_start(inp, i) implies out2[i] == inp[i] by {
        if i < out.len() {
            assert(out2[i] == out[i]);
        } else {
            // Inside the word: the previous byte is alphabetic, so no
            // word can start here.
            assert(is_alpha(inp[i - 1]));
            assert(false);
        }
    }
    assert forall|i: int|
        #![trigger out2[i]]
        0 <= i < out2.len() && word_end(inp, i) implies out2[i] == inp[i] by {
        if i < out.len() {
            assert(out2[i] == out[i]);
        } else if i < e - 1 {
            // Inside the word: the next byte is alphabetic, so no word
            // can end here.
            assert(is_alpha(inp[i + 1]));
            assert(false);
        } else {
            assert(i == e - 1);
            assert(out2[i] == mid[mid.len() - 1]);
        }
    }
    assert forall|s: int, e2: int|
        #![trigger is_word(inp, s, e2)]
        is_word(inp, s, e2) && s + 2 <= e2 && e2 <= out2.len() implies interior_permuted(
        inp,
        out2,
        s,
        e2,
    ) by {
        if e2 <= out.len() {
            assert(interior_permuted(inp, out, s, e2));
            assert(out2.subrange(s + 1, e2 - 1) =~= out.subrange(s + 1, e2 - 1));
        } else if e2 < e {
            // A word cannot end strictly inside the flushed word.
            assert(w + 1 <= e2 - 1 < e - 1);
            assert(is_alpha(inp[e2]));
            assert(false);
        } else {
            assert(e2 == e);
            // The word ending at e - 1 must start exactly at w.
            if s > w {
                assert(is_alpha(inp[s - 1]));
                assert(false);
            }
            if s < w {
                assert(is_alpha(inp[w - 1]));
                assert(false);
            }
            assert(s == w);
            // The emitted interior is mid without its last byte.
            assert(out2.subrange(w + 1, e - 1) =~= mid.subrange(0, mid.len() - 1));
            lemma_to_multiset_drop_last(mid);
            lemma_to_multiset_drop_last(inp.subrange(w + 1, e));
            assert(inp.subrange(w + 1, e).subrange(0, inp.subrange(w + 1, e).len() - 1)
                =~= inp.subrange(w + 1, e - 1));
            assert(inp.subrange(w + 1, e).last() == inp[e - 1]);
            assert(out2.subrange(w + 1, e - 1).to_multiset() == inp.subrange(
                w + 1,
                e - 1,
            ).to_multiset());
        }
    }
}

/// Swapping two positions of a sequence leaves its multiset unchanged.
pub proof fn lemma_swap_to_multiset(s: Seq<u8>, i: int, j: int)
    requires
        0 <= i < s.len(),
        0 <= j < s.len(),
    ensures
        s.update(i, s[j]).update(j, s[i]).to_multiset() == s.to_multiset(),
{
    broadcast use vstd::seq_lib::group_to_multiset_ensures;
    broadcast use vstd::multiset::group_multiset_axioms;

    let s2 = s.update(i, s[j]).update(j, s[i]);
    if i == j || s[i] == s[j] {
        assert(s2 =~= s);
    } else {
        let s1 = s.update(i, s[j]);
        assert(s.contains(s[i]));
        assert(s.to_multiset().count(s[i]) > 0);
        assert(s1.to_multiset() == s.to_multiset().insert(s[j]).remove(s[i]));
        assert(s1[j] == s[j]);
        assert(s2.to_multiset() == s1.to_multiset().insert(s[i]).remove(s[j]));
        assert(s2.to_multiset() =~= s.to_multiset());
    }
}

} // verus!
