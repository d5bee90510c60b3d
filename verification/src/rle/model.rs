//! Mathematical model of the run-length wire format.
//!
//! A stream is a concatenation of `(count, byte)` pairs with no header and
//! no terminator. A pair stands for `count` copies of `byte`.

use vstd::prelude::*;

verus! {

/// Longest run a single pair can carry: the count field is one byte.
pub const MAX_RUN_LENGTH: u8 = 255;

/// `count` copies of `byte`.
pub open spec fn repeat(byte: u8, count: nat) -> Seq<u8> {
    Seq::new(count, |i: int| byte)
}

/// Counts on from `k` while the byte at `start + k` equals the byte at
/// `start`, up to the end of `s` and up to `MAX_RUN_LENGTH`.
pub open spec fn run_length_from(s: Seq<u8>, start: int, k: int) -> int
    decreases MAX_RUN_LENGTH - k,
{
    if 0 <= k < MAX_RUN_LENGTH && 0 <= start && start + k < s.len() && s[start + k] == s[start] {
        run_length_from(s, start, k + 1)
    } else {
        k
    }
}

/// Number of consecutive bytes from `start` on that equal the byte at
/// `start`, capped at `MAX_RUN_LENGTH`.
pub open spec fn run_length(s: Seq<u8>, start: int) -> int {
    run_length_from(s, start, 0)
}

/// A run never reaches past the end of the input nor past the cap, and
/// inside the input it holds at least the byte it starts with.
pub proof fn lemma_run_length_fits(s: Seq<u8>, start: int, k: int)
    requires
        0 <= start,
        0 <= k <= MAX_RUN_LENGTH,
        start + k <= s.len(),
    ensures
        k <= run_length_from(s, start, k) <= MAX_RUN_LENGTH,
        start + run_length_from(s, start, k) <= s.len(),
        k == 0 && start < s.len() ==> 1 <= run_length_from(s, start, k),
    decreases MAX_RUN_LENGTH - k,
{
    if k < MAX_RUN_LENGTH && start + k < s.len() && s[start + k] == s[start] {
        lemma_run_length_fits(s, start, k + 1);
    }
}

/// What makes `count` the run length at `start`: the `count` bytes from
/// `start` on are equal, and the run ends there, at the cap, at the end of
/// the input or before a different byte.
pub open spec fn is_run(s: Seq<u8>, start: int, count: int) -> bool {
    &&& 0 <= start
    &&& 1 <= count <= MAX_RUN_LENGTH
    &&& start + count <= s.len()
    &&& forall|j: int| start <= j < start + count ==> s[j] == s[start]
    &&& (count == MAX_RUN_LENGTH || start + count == s.len() || s[start + count] != s[start])
}

/// `run_length` is the one count that `is_run` admits.
pub proof fn lemma_run_length_unique(s: Seq<u8>, start: int, count: int)
    requires
        is_run(s, start, count),
    ensures
        run_length(s, start) == count,
{
    lemma_run_length_counts_on(s, start, count, 0);
}

proof fn lemma_run_length_counts_on(s: Seq<u8>, start: int, count: int, k: int)
    requires
        is_run(s, start, count),
        0 <= k <= count,
    ensures
        run_length_from(s, start, k) == count,
    decreases count - k,
{
    if k < count {
        lemma_run_length_counts_on(s, start, count, k + 1);
    }
}

/// The pairs for `s` from `start` on: one pair for the run at `start`, then
/// the pairs for what follows that run. A run longer than the cap is split.
pub open spec fn encode_from(s: Seq<u8>, start: int) -> Seq<u8>
    decreases s.len() - start,
    via encode_from_terminates
{
    if start < 0 || start >= s.len() {
        Seq::empty()
    } else {
        let count = run_length(s, start);
        seq![count as u8, s[start]] + encode_from(s, start + count)
    }
}

#[via_fn]
proof fn encode_from_terminates(s: Seq<u8>, start: int) {
    if 0 <= start < s.len() {
        lemma_run_length_fits(s, start, 0);
    }
}

/// The stream of pairs for `s`.
pub open spec fn encode(s: Seq<u8>) -> Seq<u8> {
    encode_from(s, 0)
}

/// The bytes that a stream of pairs stands for. A pair with count zero
/// stands for nothing, and fewer than two remaining bytes end the stream.
pub open spec fn decode(stream: Seq<u8>) -> Seq<u8>
    decreases stream.len(),
{
    if stream.len() < 2 {
        Seq::empty()
    } else {
        repeat(stream[1], stream[0] as nat) + decode(stream.skip(2))
    }
}

} // verus!
