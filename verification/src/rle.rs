//! Run-length codec: maximal runs of one byte, at most 255 long, written as
//! `(count, byte)` pairs.

use vstd::prelude::*;

pub mod laws;
pub mod model;

use self::model::{
    decode, encode, encode_from, is_run, lemma_run_length_unique, repeat, MAX_RUN_LENGTH,
};

verus! {

/// Encodes `input` as `(count, byte)` pairs, one for each maximal run of
/// equal bytes, and appends them to `output`. A run longer than
/// `MAX_RUN_LENGTH` is written as several pairs. Empty input adds nothing.
pub fn compress(input: &[u8], output: &mut Vec<u8>)
    ensures
        final(output)@ == old(output)@ + encode(input@),
{
    let mut current: Option<u8> = None;
    let mut count: u8 = 0;
    let mut i: usize = 0;
    while i < input.len()
        invariant
            i <= input@.len(),
            current is None <==> i == 0,
            current is None ==> count == 0,
            current matches Some(b) ==> {
                &&& 1 <= count <= i
                &&& forall|j: int| i - count <= j < i ==> input@[j] == b
            },
            output@ + encode_from(input@, i - count) == old(output)@ + encode(input@),
        decreases input@.len() - i,
    {
        let byte: u8 = input[i];
        match current {
            Some(b) => {
                if b == byte && count < MAX_RUN_LENGTH {
                    count += 1;
                } else {
                    let ghost before = output@;
                    output.push(count);
                    output.push(b);
                    proof {
                        let start = i - count;
                        assert(is_run(input@, start, count as int));
                        lemma_run_length_unique(input@, start, count as int);
                        assert(output@ =~= before + seq![count, b]);
                        assert(before + encode_from(input@, start) =~= before + seq![count, b]
                            + encode_from(input@, i as int));
                    }
                    current = Some(byte);
                    count = 1;
                }
            },
            None => {
                current = Some(byte);
                count = 1;
            },
        }
        i += 1;
    }
    if let Some(b) = current {
        let ghost before = output@;
        output.push(count);
        output.push(b);
        proof {
            let start = i - count;
            assert(is_run(input@, start, count as int));
            lemma_run_length_unique(input@, start, count as int);
            assert(output@ =~= before + seq![count, b]);
            assert(before + encode_from(input@, start) =~= before + seq![count, b] + encode_from(
                input@,
                i as int,
            ));
        }
    }
}

/// Expands each `(count, byte)` pair of `input` into `count` copies of
/// `byte`, appended to `output`. A pair with count zero adds nothing, and a
/// single byte left over at the end of an odd-length stream is ignored.
pub fn decompress(input: &[u8], output: &mut Vec<u8>)
    ensures
        final(output)@ == old(output)@ + decode(input@),
{
    let mut i: usize = 0;
    assert(input@.skip(0) =~= input@);
    while input.len() - i >= 2
        invariant
            i <= input.len(),
            output@ + decode(input@.skip(i as int)) == old(output)@ + decode(input@),
        decreases input.len() - i,
    {
        let count: u8 = input[i];
        let byte: u8 = input[i + 1];
        let ghost before = output@;
        let mut written: u8 = 0;
        while written < count
            invariant
                written <= count,
                output@ == before + repeat(byte, written as nat),
            decreases count - written,
        {
            output.push(byte);
            written += 1;
        }
        proof {
            assert(input@.skip(i as int).skip(2) =~= input@.skip(i + 2));
            assert(before + (repeat(byte, count as nat) + decode(input@.skip(i + 2)))
                =~= before + repeat(byte, count as nat) + decode(input@.skip(i + 2)));
        }
        i += 2;
    }
}

} // verus!
