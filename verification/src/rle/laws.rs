//! What holds of the run-length codec for every input: the decoder undoes
//! the encoder, every pair stands for a maximal run, and a run is split only
//! at the cap.

use super::model::{
    decode, encode, encode_from, is_run, lemma_run_length_fits, lemma_run_length_unique, repeat,
    run_length, run_length_from, MAX_RUN_LENGTH,
};
use vstd::prelude::*;

verus! {

proof fn lemma_run_length_from_exact(s: Seq<u8>, start: int, k: int)
    requires
        0 <= start,
        0 <= k <= MAX_RUN_LENGTH,
    ensures
        forall|i: int|
            start + k <= i < start + run_length_from(s, start, k) ==> #[trigger] s[i] == s[start],
        ({
            let n = run_length_from(s, start, k);
            n == MAX_RUN_LENGTH || start + n >= s.len() || s[start + n] != s[start]
        }),
    decreases MAX_RUN_LENGTH - k,
{
    if k < MAX_RUN_LENGTH && start + k < s.len() && s[start + k] == s[start] {
        lemma_run_length_from_exact(s, start, k + 1);
    }
}

/// The count that the encoder writes for the run at `start` is that of a
/// maximal run: `run_length` bytes from `start` on are equal, and the run
/// ends at the cap, at the end of the input or before a different byte.
pub proof fn lemma_run_length_is_run(s: Seq<u8>, start: int)
    requires
        0 <= start < s.len(),
    ensures
        is_run(s, start, run_length(s, start)),
{
    lemma_run_length_from_exact(s, start, 0);
    lemma_run_length_fits(s, start, 0);
}

proof fn lemma_round_trip_from(s: Seq<u8>, start: int)
    requires
        0 <= start <= s.len(),
    ensures
        decode(encode_from(s, start)) == s.skip(start),
    decreases s.len() - start,
{
    if start == s.len() {
        assert(s.skip(start) =~= Seq::<u8>::empty());
    } else {
        let count = run_length(s, start);
        let stream = encode_from(s, start);
        lemma_run_length_is_run(s, start);
        lemma_round_trip_from(s, start + count);
        assert(stream.skip(2) =~= encode_from(s, start + count));
        assert(stream[0] == count);
        assert(repeat(s[start], count as nat) + s.skip(start + count) =~= s.skip(start));
    }
}

/// Round trip: decoding the encoding of any byte sequence gives that
/// sequence back.
pub proof fn lemma_round_trip(s: Seq<u8>)
    ensures
        decode(encode(s)) == s,
{
    lemma_round_trip_from(s, 0);
    assert(s.skip(0) =~= s);
}

/// Empty input encodes to the empty stream, and the empty stream decodes to
/// no bytes.
pub proof fn lemma_empty()
    ensures
        encode(Seq::<u8>::empty()) == Seq::<u8>::empty(),
        decode(Seq::<u8>::empty()) == Seq::<u8>::empty(),
{
}

proof fn lemma_uniform_tail(byte: u8, total: nat, start: int)
    requires
        0 <= start < total,
        total - start <= MAX_RUN_LENGTH,
    ensures
        encode_from(repeat(byte, total), start) == seq![(total - start) as u8, byte],
{
    let s = repeat(byte, total);
    assert(is_run(s, start, total - start));
    lemma_run_length_unique(s, start, total - start);
    assert(encode_from(s, total as int) =~= Seq::<u8>::empty());
    assert(encode_from(s, start) =~= seq![(total - start) as u8, byte]);
}

/// A run of `count` equal bytes, with `count` from one up to the cap,
/// encodes to the single pair `(count, byte)`. With `count` one: a single
/// byte encodes to `(1, byte)`.
pub proof fn lemma_run_is_one_pair(byte: u8, count: nat)
    requires
        1 <= count <= MAX_RUN_LENGTH,
    ensures
        encode(repeat(byte, count)) == seq![count as u8, byte],
{
    lemma_uniform_tail(byte, count, 0);
}

/// A run one byte longer than the cap is split in two pairs: a full one and
/// one for the byte left over.
pub proof fn lemma_run_past_cap_splits(byte: u8)
    ensures
        encode(repeat(byte, (MAX_RUN_LENGTH + 1) as nat)) == seq![MAX_RUN_LENGTH, byte, 1u8, byte],
{
    let total = (MAX_RUN_LENGTH + 1) as nat;
    let s = repeat(byte, total);
    assert(is_run(s, 0, MAX_RUN_LENGTH as int));
    lemma_run_length_unique(s, 0, MAX_RUN_LENGTH as int);
    lemma_uniform_tail(byte, total, MAX_RUN_LENGTH as int);
    assert(encode(s) =~= seq![MAX_RUN_LENGTH, byte, 1u8, byte]);
}

} // verus!
