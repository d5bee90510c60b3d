//! Windowed dictionary codec: literal tokens and back-references into the
//! bytes already produced.
//!
//! The encoder walks the input once. At each position it looks back over at
//! most `WINDOW_SIZE` offsets, and over no more offsets than it has emitted
//! literals, for the longest run of bytes that repeats there. It emits a
//! match token where that run is at least `MIN_MATCH_LENGTH` long, a literal
//! token otherwise. The decoder replays the tokens against the bytes it has
//! produced so far.

use vstd::prelude::*;

pub mod laws;
pub mod model;

use self::model::{
    copy_back, decode, decode_with, encode, encode_from, lemma_longest_match_fits, longest_match,
    match_length, match_length_from, MAX_MATCH_LENGTH, MIN_MATCH_LENGTH, TAG_LITERAL, TAG_MATCH,
    WINDOW_SIZE,
};

verus! {

/// Why a stream could not be decoded to its end.
#[derive(Clone, Copy, Debug, PartialEq, Eq, Structural)]
pub enum DecodeError {
    /// A token starts with a byte that is neither `TAG_LITERAL` nor
    /// `TAG_MATCH`.
    InvalidTag,
    /// A match token's offset is zero or reaches back past the first decoded
    /// byte.
    InvalidOffset,
}

impl DecodeError {
    /// The text that `message` returns.
    pub open spec fn message_text(self) -> Seq<char> {
        match self {
            DecodeError::InvalidTag => "Invalid compression format"@,
            DecodeError::InvalidOffset => "Invalid back-reference offset"@,
        }
    }

    /// A short description of the error, to show to the user.
    pub fn message(&self) -> (text: &'static str)
        ensures
            text@ == self.message_text(),
    {
        match self {
            DecodeError::InvalidTag => "Invalid compression format",
            DecodeError::InvalidOffset => "Invalid back-reference offset",
        }
    }
}

/// Length of the match at `pos` with the bytes `offset` places back.
fn match_length_at(input: &[u8], pos: usize, offset: usize) -> (length: usize)
    requires
        1 <= offset <= pos <= input@.len(),
    ensures
        length == match_length(input@, pos as int, offset as int),
{
    let remaining: usize = input.len() - pos;
    let mut k: usize = 0;
    while k < MAX_MATCH_LENGTH as usize && k < remaining
        && input[pos + k] == input[pos - offset + k]
        invariant
            1 <= offset <= pos,
            pos + remaining == input@.len() <= usize::MAX,
            k <= MAX_MATCH_LENGTH,
            k <= remaining,
            match_length_from(input@, pos as int, offset as int, k as int) == match_length(
                input@,
                pos as int,
                offset as int,
            ),
        decreases MAX_MATCH_LENGTH - k,
    {
        k += 1;
    }
    k
}

/// Searches the offsets `1..=limit` for the best match at `pos`.
fn find_longest_match(input: &[u8], pos: usize, limit: usize) -> (best: (usize, usize))
    requires
        limit <= pos <= input@.len(),
    ensures
        (best.0 as int, best.1 as int) == longest_match(input@, pos as int, limit as int),
{
    let mut best_offset: usize = 0;
    let mut best_length: usize = 0;
    let mut offset: usize = 0;
    while offset < limit
        invariant
            offset <= limit <= pos <= input@.len(),
            (best_offset as int, best_length as int) == longest_match(
                input@,
                pos as int,
                offset as int,
            ),
        decreases limit - offset,
    {
        offset += 1;
        let length: usize = match_length_at(input, pos, offset);
        if length >= MIN_MATCH_LENGTH && length > best_length {
            best_offset = offset;
            best_length = length;
        }
    }
    (best_offset, best_length)
}

/// Encodes `input` as a token stream and appends it to `output`. Empty input
/// adds nothing, and no token marks the end of the stream.
pub fn compress(input: &[u8], output: &mut Vec<u8>)
    ensures
        final(output)@ == old(output)@ + encode(input@),
{
    let mut pos: usize = 0;
    let mut window_len: usize = 0;
    while pos < input.len()
        invariant
            window_len <= pos <= input@.len(),
            output@ + encode_from(input@, pos as int, window_len as int) == old(output)@ + encode(
                input@,
            ),
        decreases input@.len() - pos,
    {
        let limit: usize = if window_len < WINDOW_SIZE {
            window_len
        } else {
            WINDOW_SIZE
        };
        let (offset, length) = find_longest_match(input, pos, limit);
        let ghost before = output@;
        let ghost rest = encode_from(input@, pos as int, window_len as int);
        proof {
            lemma_longest_match_fits(input@, pos as int, limit as int);
        }
        if length >= MIN_MATCH_LENGTH {
            output.push(TAG_MATCH);
            output.push(offset as u8);
            output.push(length as u8);
            pos += length;
            proof {
                let token = seq![TAG_MATCH, offset as u8, length as u8];
                let tail = encode_from(input@, pos as int, window_len as int);
                assert(output@ =~= before + token);
                assert(before + rest =~= before + token + tail);
            }
        } else {
            let byte: u8 = input[pos];
            output.push(TAG_LITERAL);
            output.push(byte);
            window_len += 1;
            pos += 1;
            proof {
                let token = seq![TAG_LITERAL, byte];
                let tail = encode_from(input@, pos as int, window_len as int);
                assert(output@ =~= before + token);
                assert(before + rest =~= before + token + tail);
            }
        }
    }
}

/// Decodes the token stream `input` and appends the decoded bytes to
/// `output`.
///
/// A token cut short by the end of the stream is dropped without error. On
/// an error, decoding stops: the bytes decoded before it have been appended
/// and nothing after them.
pub fn decompress(input: &[u8], output: &mut Vec<u8>) -> (result: Result<(), DecodeError>)
    ensures
        final(output)@ == old(output)@ + decode(input@).bytes,
        result == decode(input@).status,
{
    let base: usize = output.len();
    let ghost mut window: Seq<u8> = Seq::empty();
    let mut i: usize = 0;
    assert(input@.skip(0) =~= input@);
    assert(output@ =~= old(output)@ + window);
    while i < input.len()
        invariant
            i <= input@.len(),
            base == old(output)@.len(),
            output@ == old(output)@ + window,
            decode_with(input@.skip(i as int), window) == decode(input@),
        decreases input@.len() - i,
    {
        let remaining: usize = input.len() - i;
        let tag: u8 = input[i];
        if tag == TAG_LITERAL {
            if remaining < 2 {
                return Ok(());
            }
            let byte: u8 = input[i + 1];
            output.push(byte);
            proof {
                assert(input@.skip(i as int).skip(2) =~= input@.skip(i + 2));
                window = window.push(byte);
                assert(output@ =~= old(output)@ + window);
            }
            i += 2;
        } else if tag == TAG_MATCH {
            if remaining < 3 {
                return Ok(());
            }
            let offset: usize = input[i + 1] as usize;
            let length: u8 = input[i + 2];
            if offset == 0 || offset > output.len() - base {
                return Err(DecodeError::InvalidOffset);
            }
            let ghost start = window;
            let mut copied: u8 = 0;
            while copied < length
                invariant
                    copied <= length,
                    1 <= offset <= window.len(),
                    output@ == old(output)@ + window,
                    copy_back(window, offset as int, (length - copied) as nat) == copy_back(
                        start,
                        offset as int,
                        length as nat,
                    ),
                decreases length - copied,
            {
                let byte: u8 = output[output.len() - offset];
                output.push(byte);
                proof {
                    window = window.push(byte);
                    assert(output@ =~= old(output)@ + window);
                }
                copied += 1;
            }
            proof {
                assert(input@.skip(i as int).skip(3) =~= input@.skip(i + 3));
            }
            i += 3;
        } else {
            return Err(DecodeError::InvalidTag);
        }
    }
    Ok(())
}

} // verus!
