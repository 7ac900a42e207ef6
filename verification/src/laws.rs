//! Consequences of the jumbling relation that hold of every run of the
//! engine: they are proved from [`crate::words::jumbled`] alone, which
//! [`crate::jumbler::JumblerFSM::run`] and
//! [`crate::jumbler::JumblerFSM::finish`] ensure of their output.

use vstd::prelude::*;

use crate::alpha::is_alpha;
use crate::words::{interior_permuted, is_word, jumbled, word_end, word_start};

verus! {

/// A word of length one, two or three is emitted byte-identical: its
/// first and last bytes are fixed in place, and an interior of at most
/// one byte admits only the identity permutation.
pub proof fn lemma_small_word_fixed(inp: Seq<u8>, out: Seq<u8>, s: int, e: int)
    requires
        jumbled(inp, out),
        is_word(inp, s, e),
        e - s <= 3,
    ensures
        forall|i: int| s <= i < e ==> out[i] == inp[i],
{
    broadcast use vstd::seq_lib::group_to_multiset_ensures;

    assert forall|i: int| s <= i < e implies out[i] == inp[i] by {
        if i == s {
            assert(word_start(inp, s));
        } else if i == e - 1 {
            assert(word_end(inp, e - 1));
        } else {
            assert(i == s + 1 && e == s + 3);
            assert(interior_permuted(inp, out, s, e));
            let a = out[s + 1];
            let b = inp[s + 1];
            assert(out.subrange(s + 1, s + 2) =~= seq![a]);
            assert(inp.subrange(s + 1, s + 2) =~= seq![b]);
            assert(seq![a][0] == a);
            assert(seq![a].contains(a));
            assert(seq![b].to_multiset().count(a) > 0);
            assert(seq![b].contains(a));
            assert(b == a);
        }
    }
}

/// A stream holding no alphabetic byte is emitted unchanged: every
/// position is a pass-through position.
pub proof fn lemma_no_alpha_identity(inp: Seq<u8>, out: Seq<u8>)
    requires
        jumbled(inp, out),
        forall|i: int| 0 <= i < inp.len() ==> !is_alpha(#[trigger] inp[i]),
    ensures
        out == inp,
{
    assert forall|i: int| 0 <= i < out.len() implies out[i] == inp[i] by {
        assert(!is_alpha(inp[i]));
    }
    assert(out =~= inp);
}

/// A word ending exactly at end of stream is still flushed in full: the
/// output has the input's length and ends with the word's last byte in
/// its place.
pub proof fn lemma_stream_end_word(inp: Seq<u8>, out: Seq<u8>)
    requires
        jumbled(inp, out),
        inp.len() > 0,
        is_alpha(inp[inp.len() - 1]),
    ensures
        out.len() == inp.len(),
        out[inp.len() - 1] == inp[inp.len() - 1],
{
    assert(word_end(inp, inp.len() - 1));
}

} // verus!
