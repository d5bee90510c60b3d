//! Mathematical model of the dictionary codec: the token stream that the
//! encoder produces for a byte sequence, and what a decoder makes of any
//! byte stream.
//!
//! A stream is a concatenation of tokens with no header and no terminator.
//! A literal token is the tag `0x00` and one raw byte. A match token is the
//! tag `0x01`, an offset byte and a length byte: it stands for `length`
//! bytes, each a copy of the byte `offset` places before it in the decoded
//! data.
//!
//! The encoder keeps a window of the bytes it has emitted as literals; the
//! bytes that a match token covers are not added to it. The window's
//! length, up to `WINDOW_SIZE`, is how many offsets the encoder tries at a
//! position. The bytes it compares are those of the input itself, before and
//! after the position, so a match may run on into the bytes it stands for.

use super::DecodeError;
use vstd::prelude::*;

verus! {

/// Tag byte of a literal token.
pub const TAG_LITERAL: u8 = 0x00;

/// Tag byte of a match token.
pub const TAG_MATCH: u8 = 0x01;

/// How far back, in bytes, the encoder looks for a match.
pub const WINDOW_SIZE: usize = 20;

/// Longest match a single token can carry: the length field is one byte.
pub const MAX_MATCH_LENGTH: u8 = 255;

/// Shortest match the encoder emits as a match token.
pub const MIN_MATCH_LENGTH: usize = 3;

/// Outcome of decoding a stream: the bytes decoded before the stream ended
/// or the first error, and whether the stream ended without one.
pub struct Decoded {
    /// The bytes decoded, in order.
    pub bytes: Seq<u8>,
    /// `Ok` where the whole stream was read, else the error that ended
    /// decoding.
    pub status: Result<(), DecodeError>,
}

/// Counts on from `k` while the byte at `pos + k` equals the byte `offset`
/// places before it, up to the end of `s` and up to `MAX_MATCH_LENGTH`.
pub open spec fn match_length_from(s: Seq<u8>, pos: int, offset: int, k: int) -> int
    decreases MAX_MATCH_LENGTH - k,
{
    if 0 <= k < MAX_MATCH_LENGTH && 0 <= pos - offset + k && pos + k < s.len()
        && s[pos + k] == s[pos - offset + k] {
        match_length_from(s, pos, offset, k + 1)
    } else {
        k
    }
}

/// Number of bytes from `pos` on that repeat the bytes `offset` places
/// earlier, capped at `MAX_MATCH_LENGTH`. The two ranges may overlap: with
/// `offset` below the length, later bytes are compared with earlier bytes of
/// the same match.
pub open spec fn match_length(s: Seq<u8>, pos: int, offset: int) -> int {
    match_length_from(s, pos, offset, 0)
}

/// The best match at `pos` among the offsets `1..=limit`, as `(offset,
/// length)`: the longest one that is at least `MIN_MATCH_LENGTH` long and,
/// among equally long ones, the nearest. `(0, 0)` where no offset
/// qualifies.
pub open spec fn longest_match(s: Seq<u8>, pos: int, limit: int) -> (int, int)
    decreases limit,
{
    if limit <= 0 {
        (0, 0)
    } else {
        let nearer = longest_match(s, pos, limit - 1);
        let length = match_length(s, pos, limit);
        if length >= MIN_MATCH_LENGTH && length > nearer.1 {
            (limit, length)
        } else {
            nearer
        }
    }
}

/// Number of offsets the encoder tries with a window of `window_len` bytes:
/// the window's length, but no more than `WINDOW_SIZE`. The offsets tried
/// are `1..=search_limit(window_len)`.
pub open spec fn search_limit(window_len: int) -> int {
    if window_len < WINDOW_SIZE {
        window_len
    } else {
        WINDOW_SIZE as int
    }
}

/// The tokens for `s` from `pos` on, with a window of `window_len` bytes at
/// `pos`. At each position the encoder is greedy: if a match qualifies
/// there, it emits the `longest_match` and moves past the matched bytes,
/// leaving the window as it is; else it emits the byte as a literal, which
/// adds it to the window.
pub open spec fn encode_from(s: Seq<u8>, pos: int, window_len: int) -> Seq<u8>
    decreases s.len() - pos,
    via encode_from_terminates
{
    if pos < 0 || pos >= s.len() {
        Seq::empty()
    } else {
        let best = longest_match(s, pos, search_limit(window_len));
        if best.1 >= MIN_MATCH_LENGTH {
            seq![TAG_MATCH, best.0 as u8, best.1 as u8] + encode_from(s, pos + best.1, window_len)
        } else {
            seq![TAG_LITERAL, s[pos]] + encode_from(s, pos + 1, window_len + 1)
        }
    }
}

#[via_fn]
proof fn encode_from_terminates(s: Seq<u8>, pos: int, window_len: int) {
    if 0 <= pos < s.len() {
        lemma_longest_match_fits(s, pos, search_limit(window_len));
    }
}

/// A match never runs past the end of the input, nor past the cap.
pub proof fn lemma_match_length_fits(s: Seq<u8>, pos: int, offset: int, k: int)
    requires
        0 <= k <= MAX_MATCH_LENGTH,
        pos + k <= s.len(),
    ensures
        k <= match_length_from(s, pos, offset, k) <= MAX_MATCH_LENGTH,
        pos + match_length_from(s, pos, offset, k) <= s.len(),
    decreases MAX_MATCH_LENGTH - k,
{
    if 0 <= k < MAX_MATCH_LENGTH && 0 <= pos - offset + k && pos + k < s.len()
        && s[pos + k] == s[pos - offset + k] {
        lemma_match_length_fits(s, pos, offset, k + 1);
    }
}

/// The best match is either absent, `(0, 0)`, or a qualifying match at one
/// of the offsets searched, and it never runs past the end of the input.
pub proof fn lemma_longest_match_fits(s: Seq<u8>, pos: int, limit: int)
    requires
        0 <= pos <= s.len(),
    ensures
        ({
            let (offset, length) = longest_match(s, pos, limit);
            ||| offset == 0 && length == 0
            ||| {
                &&& 1 <= offset <= limit
                &&& length == match_length(s, pos, offset)
                &&& MIN_MATCH_LENGTH <= length <= MAX_MATCH_LENGTH
                &&& pos + length <= s.len()
            }
        }),
    decreases limit,
{
    if limit > 0 {
        lemma_longest_match_fits(s, pos, limit - 1);
        lemma_match_length_fits(s, pos, limit, 0);
    }
}

/// The token stream for `s`.
pub open spec fn encode(s: Seq<u8>) -> Seq<u8> {
    encode_from(s, 0, 0)
}

/// `window` after a match token: `length` times, the byte `offset` places
/// before the end is appended. Each appended byte is a source for the next,
/// so a match may be longer than its offset.
pub open spec fn copy_back(window: Seq<u8>, offset: int, length: nat) -> Seq<u8>
    decreases length,
{
    if length == 0 {
        window
    } else {
        copy_back(window.push(window[window.len() - offset]), offset, (length - 1) as nat)
    }
}

/// Decodes `stream` given that `window` has been decoded before it.
///
/// A token cut short by the end of the stream is dropped without error. An
/// unknown tag, or a match whose offset lies outside `1..=window.len()`,
/// ends decoding with an error; the bytes decoded up to there remain.
pub open spec fn decode_with(stream: Seq<u8>, window: Seq<u8>) -> Decoded
    decreases stream.len(),
{
    if stream.len() == 0 {
        Decoded { bytes: window, status: Ok(()) }
    } else if stream[0] == TAG_LITERAL {
        if stream.len() < 2 {
            Decoded { bytes: window, status: Ok(()) }
        } else {
            decode_with(stream.skip(2), window.push(stream[1]))
        }
    } else if stream[0] == TAG_MATCH {
        if stream.len() < 3 {
            Decoded { bytes: window, status: Ok(()) }
        } else if 1 <= stream[1] <= window.len() {
            decode_with(stream.skip(3), copy_back(window, stream[1] as int, stream[2] as nat))
        } else {
            Decoded { bytes: window, status: Err(DecodeError::InvalidOffset) }
        }
    } else {
        Decoded { bytes: window, status: Err(DecodeError::InvalidTag) }
    }
}

/// What a decoder makes of `stream`.
pub open spec fn decode(stream: Seq<u8>) -> Decoded {
    decode_with(stream, Seq::empty())
}

} // verus!
