//! What holds of the dictionary codec for every input: the decoder undoes the
//! encoder, the encoder's search finds the best match there is, and
//! malformed streams are rejected.

use super::model::{
    copy_back, decode, decode_with, encode, encode_from, lemma_longest_match_fits,
    lemma_match_length_fits, longest_match, match_length, match_length_from, search_limit,
    Decoded, MAX_MATCH_LENGTH, MIN_MATCH_LENGTH, TAG_LITERAL, TAG_MATCH, WINDOW_SIZE,
};
use super::DecodeError;
use vstd::prelude::*;

verus! {

proof fn lemma_match_length_from_exact(s: Seq<u8>, pos: int, offset: int, k: int)
    requires
        0 <= k <= MAX_MATCH_LENGTH,
    ensures
        k <= match_length_from(s, pos, offset, k) <= MAX_MATCH_LENGTH,
        forall|i: int|
            pos + k <= i < pos + match_length_from(s, pos, offset, k)
                ==> #[trigger] s[i] == s[i - offset],
        ({
            let n = match_length_from(s, pos, offset, k);
            ||| n == MAX_MATCH_LENGTH
            ||| pos - offset + n < 0
            ||| pos + n >= s.len()
            ||| s[pos + n] != s[pos - offset + n]
        }),
    decreases MAX_MATCH_LENGTH - k,
{
    if k < MAX_MATCH_LENGTH && 0 <= pos - offset + k && pos + k < s.len()
        && s[pos + k] == s[pos - offset + k] {
        lemma_match_length_from_exact(s, pos, offset, k + 1);
    }
}

/// The match at `pos` with offset `offset` is a true repetition, and it is
/// as long as the cap and the input allow: `match_length` bytes from `pos`
/// on equal the bytes `offset` places earlier, and the next byte, if the
/// match stops short of the cap and of the end of the input, differs.
pub proof fn lemma_match_length_exact(s: Seq<u8>, pos: int, offset: int)
    requires
        1 <= offset <= pos <= s.len(),
    ensures
        0 <= match_length(s, pos, offset) <= MAX_MATCH_LENGTH,
        pos + match_length(s, pos, offset) <= s.len(),
        forall|i: int|
            pos <= i < pos + match_length(s, pos, offset) ==> #[trigger] s[i] == s[i - offset],
        ({
            let n = match_length(s, pos, offset);
            n == MAX_MATCH_LENGTH || pos + n == s.len() || s[pos + n] != s[pos - offset + n]
        }),
{
    lemma_match_length_from_exact(s, pos, offset, 0);
    lemma_match_length_fits(s, pos, offset, 0);
}

proof fn lemma_match_length_counts_on(s: Seq<u8>, pos: int, offset: int, length: int, k: int)
    requires
        1 <= offset <= pos,
        0 <= k <= length <= MAX_MATCH_LENGTH,
        pos + length <= s.len(),
        forall|i: int| pos <= i < pos + length ==> #[trigger] s[i] == s[i - offset],
        length == MAX_MATCH_LENGTH || pos + length == s.len()
            || s[pos + length] != s[pos + length - offset],
    ensures
        match_length_from(s, pos, offset, k) == length,
    decreases length - k,
{
    if k < length {
        assert(s[pos + k] == s[pos + k - offset]);
        lemma_match_length_counts_on(s, pos, offset, length, k + 1);
    }
}

/// `match_length` is the one length that is a true repetition and cannot be
/// extended: if `length` bytes from `pos` on equal the bytes `offset` places
/// earlier, and the match ends at the cap, at the end of the input or before
/// a byte that differs, then `match_length` is `length`.
pub proof fn lemma_match_length_unique(s: Seq<u8>, pos: int, offset: int, length: int)
    requires
        1 <= offset <= pos,
        0 <= length <= MAX_MATCH_LENGTH,
        pos + length <= s.len(),
        forall|i: int| pos <= i < pos + length ==> #[trigger] s[i] == s[i - offset],
        length == MAX_MATCH_LENGTH || pos + length == s.len()
            || s[pos + length] != s[pos + length - offset],
    ensures
        match_length(s, pos, offset) == length,
{
    lemma_match_length_counts_on(s, pos, offset, length, 0);
}

/// The search returns the best match among the offsets `1..=limit`: no
/// offset there has a qualifying match that is longer, and no nearer offset
/// has one as long. It returns `(0, 0)` only if no offset there has a match
/// of `MIN_MATCH_LENGTH` or more.
pub proof fn lemma_longest_match_is_best(s: Seq<u8>, pos: int, limit: int)
    requires
        0 <= pos <= s.len(),
    ensures
        ({
            let (offset, length) = longest_match(s, pos, limit);
            &&& forall|other: int|
                1 <= other <= limit && #[trigger] match_length(s, pos, other) >= MIN_MATCH_LENGTH
                    ==> match_length(s, pos, other) <= length
            &&& forall|other: int|
                1 <= other < offset ==> #[trigger] match_length(s, pos, other) < length
            &&& length >= MIN_MATCH_LENGTH ==> 1 <= offset <= limit && length == match_length(
                s,
                pos,
                offset,
            )
            &&& length < MIN_MATCH_LENGTH ==> offset == 0 && length == 0
        }),
    decreases limit,
{
    if limit > 0 {
        lemma_longest_match_is_best(s, pos, limit - 1);
        lemma_longest_match_fits(s, pos, limit - 1);
    }
}

/// What a match token does to the decoder's window: the window grows by
/// `length` bytes, what was there stays, and each new byte equals the byte
/// `offset` places before it, which may itself be one of the new bytes.
pub proof fn lemma_copy_back_exact(window: Seq<u8>, offset: int, length: nat)
    requires
        1 <= offset <= window.len(),
    ensures
        copy_back(window, offset, length).len() == window.len() + length,
        forall|i: int|
            0 <= i < window.len() ==> #[trigger] copy_back(window, offset, length)[i] == window[i],
        forall|i: int|
            window.len() <= i < window.len() + length ==> #[trigger] copy_back(
                window,
                offset,
                length,
            )[i] == copy_back(window, offset, length)[i - offset],
    decreases length,
{
    if length > 0 {
        let grown = window.push(window[window.len() - offset]);
        lemma_copy_back_exact(grown, offset, (length - 1) as nat);
        let copied = copy_back(window, offset, length);
        assert(copied[window.len() as int] == grown[window.len() as int]);
        assert(copied[window.len() - offset] == grown[window.len() - offset]);
    }
}

/// A match token whose bytes repeat what lies `offset` places back brings
/// the decoder's window from the first `pos` bytes of `s` to the first
/// `pos + length` bytes, also where the token is longer than its offset.
pub proof fn lemma_copy_back_replays(s: Seq<u8>, pos: int, offset: int, length: nat)
    requires
        1 <= offset <= pos,
        pos + length <= s.len(),
        forall|i: int| pos <= i < pos + length ==> #[trigger] s[i] == s[i - offset],
    ensures
        copy_back(s.take(pos), offset, length) == s.take(pos + length),
    decreases length,
{
    if length > 0 {
        let window = s.take(pos);
        assert(window.push(window[window.len() - offset]) =~= s.take(pos + 1));
        lemma_copy_back_replays(s, pos + 1, offset, (length - 1) as nat);
    }
}

proof fn lemma_round_trip_from(s: Seq<u8>, pos: int, window_len: int)
    requires
        0 <= window_len <= pos <= s.len(),
    ensures
        decode_with(encode_from(s, pos, window_len), s.take(pos)) == (Decoded {
            bytes: s,
            status: Ok(()),
        }),
    decreases s.len() - pos,
{
    let stream = encode_from(s, pos, window_len);
    let window = s.take(pos);
    if pos == s.len() {
        assert(window =~= s);
    } else {
        let limit = search_limit(window_len);
        let (offset, length) = longest_match(s, pos, limit);
        lemma_longest_match_fits(s, pos, limit);
        if length >= MIN_MATCH_LENGTH {
            let rest = encode_from(s, pos + length, window_len);
            lemma_match_length_exact(s, pos, offset);
            lemma_copy_back_replays(s, pos, offset, length as nat);
            assert(stream.skip(3) =~= rest);
            assert(stream[0] == TAG_MATCH);
            assert(stream[1] == offset);
            assert(stream[2] == length);
            lemma_round_trip_from(s, pos + length, window_len);
        } else {
            let rest = encode_from(s, pos + 1, window_len + 1);
            assert(stream.skip(2) =~= rest);
            assert(stream[0] == TAG_LITERAL);
            assert(window.push(stream[1]) =~= s.take(pos + 1));
            lemma_round_trip_from(s, pos + 1, window_len + 1);
        }
    }
}

/// Round trip: decoding the encoding of any byte sequence gives that
/// sequence back, without error.
pub proof fn lemma_round_trip(s: Seq<u8>)
    ensures
        decode(encode(s)) == (Decoded { bytes: s, status: Ok(()) }),
{
    assert(s.take(0) =~= Seq::<u8>::empty());
    lemma_round_trip_from(s, 0, 0);
}

/// Empty input encodes to the empty stream, and the empty stream decodes to
/// no bytes.
pub proof fn lemma_empty()
    ensures
        encode(Seq::<u8>::empty()) == Seq::<u8>::empty(),
        decode(Seq::<u8>::empty()) == (Decoded { bytes: Seq::<u8>::empty(), status: Ok(()) }),
{
}

/// A single byte encodes to one literal token, which decodes to that byte.
pub proof fn lemma_single_byte(byte: u8)
    ensures
        encode(seq![byte]) == seq![TAG_LITERAL, byte],
        decode(seq![TAG_LITERAL, byte]) == (Decoded { bytes: seq![byte], status: Ok(()) }),
{
    let s = seq![byte];
    assert(longest_match(s, 0, 0) == (0int, 0int));
    assert(encode_from(s, 1, 1) =~= Seq::<u8>::empty());
    assert(encode(s) =~= seq![TAG_LITERAL, byte]);
    lemma_round_trip(s);
}

/// A run of `count` equal bytes, with `count` from four up to one more than
/// the cap, encodes to a literal and one match of offset one that copies
/// the byte before it `count - 1` times.
pub proof fn lemma_uniform_run(byte: u8, count: nat)
    requires
        MIN_MATCH_LENGTH < count <= MAX_MATCH_LENGTH + 1,
    ensures
        encode(Seq::new(count, |i: int| byte)) == seq![
            TAG_LITERAL,
            byte,
            TAG_MATCH,
            1u8,
            (count - 1) as u8,
        ],
{
    let s = Seq::new(count, |i: int| byte);
    assert(longest_match(s, 0, 0) == (0int, 0int));
    lemma_match_length_unique(s, 1, 1, count - 1);
    assert(longest_match(s, 1, 0) == (0int, 0int));
    assert(longest_match(s, 1, 1) == (1int, count - 1));
    assert(encode_from(s, count as int, 1) =~= Seq::<u8>::empty());
    assert(encode_from(s, 1, 1) =~= seq![TAG_MATCH, 1u8, (count - 1) as u8]);
    assert(encode(s) =~= seq![TAG_LITERAL, byte, TAG_MATCH, 1u8, (count - 1) as u8]);
}

/// One literal token for each byte of `s`.
pub open spec fn literal_stream(s: Seq<u8>) -> Seq<u8> {
    Seq::new(
        2 * s.len(),
        |i: int|
            if i % 2 == 0 {
                TAG_LITERAL
            } else {
                s[i / 2]
            },
    )
}

/// The three bytes at `pos` repeat the three bytes `offset` places earlier.
pub open spec fn repeats_at(s: Seq<u8>, pos: int, offset: int) -> bool {
    &&& 1 <= offset <= pos
    &&& pos + MIN_MATCH_LENGTH <= s.len()
    &&& s[pos] == s[pos - offset]
    &&& s[pos + 1] == s[pos + 1 - offset]
    &&& s[pos + 2] == s[pos + 2 - offset]
}

/// Somewhere in `s`, three bytes repeat three bytes that lie at most
/// `WINDOW_SIZE` places earlier.
pub open spec fn has_repeat(s: Seq<u8>) -> bool {
    exists|pos: int, offset: int| offset <= WINDOW_SIZE && #[trigger] repeats_at(s, pos, offset)
}

proof fn lemma_no_match_without_repeat(s: Seq<u8>, pos: int, limit: int)
    requires
        !has_repeat(s),
        0 <= pos <= s.len(),
        limit <= pos,
        limit <= WINDOW_SIZE,
    ensures
        longest_match(s, pos, limit) == (0int, 0int),
    decreases limit,
{
    if limit > 0 {
        lemma_no_match_without_repeat(s, pos, limit - 1);
        lemma_match_length_exact(s, pos, limit);
        if match_length(s, pos, limit) >= MIN_MATCH_LENGTH {
            assert(s[pos] == s[pos - limit]);
            assert(s[pos + 1] == s[pos + 1 - limit]);
            assert(s[pos + 2] == s[pos + 2 - limit]);
            assert(repeats_at(s, pos, limit));
        }
    }
}

proof fn lemma_literals_from(s: Seq<u8>, pos: int, window_len: int)
    requires
        !has_repeat(s),
        0 <= window_len <= pos <= s.len(),
    ensures
        encode_from(s, pos, window_len) == literal_stream(s.skip(pos)),
    decreases s.len() - pos,
{
    if pos == s.len() {
        assert(literal_stream(s.skip(pos)) =~= Seq::<u8>::empty());
    } else {
        lemma_no_match_without_repeat(s, pos, search_limit(window_len));
        lemma_literals_from(s, pos + 1, window_len + 1);
        let rest = literal_stream(s.skip(pos + 1));
        let all = literal_stream(s.skip(pos));
        assert(all =~= seq![TAG_LITERAL, s[pos]] + rest) by {
            assert(all.len() == rest.len() + 2);
            assert forall|i: int| 0 <= i < all.len() implies all[i] == (seq![TAG_LITERAL, s[pos]]
                + rest)[i] by {
                if i >= 2 {
                    assert((i - 2) % 2 == i % 2);
                    assert((i - 2) / 2 == i / 2 - 1);
                    assert(rest[i - 2] == all[i]);
                }
            }
        }
    }
}

/// Data in which no three bytes repeat three bytes within the window
/// before them is encoded with literal tokens only.
pub proof fn lemma_no_repeat_only_literals(s: Seq<u8>)
    requires
        !has_repeat(s),
    ensures
        encode(s) == literal_stream(s),
{
    assert(s.skip(0) =~= s);
    lemma_literals_from(s, 0, 0);
}

/// A stream whose first byte is not a tag is rejected, and nothing is
/// decoded from it.
pub proof fn lemma_unknown_first_tag(stream: Seq<u8>)
    requires
        stream.len() > 0,
        stream[0] != TAG_LITERAL,
        stream[0] != TAG_MATCH,
    ensures
        decode(stream) == (Decoded {
            bytes: Seq::<u8>::empty(),
            status: Err(DecodeError::InvalidTag),
        }),
{
}

} // verus!
