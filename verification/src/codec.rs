//! The executable codec: match search, encode and decode.

use vstd::prelude::*;

verus! {

use crate::model::chars_of_bytes;
use crate::model::copy_expand;
use crate::model::decode_onto;
use crate::model::lemma_find_match_props;
use crate::model::lemma_round_trip;
use crate::model::run_len;
use crate::model::run_len_at;
use crate::model::scan_best;
use crate::model::spec_decode;
use crate::model::spec_encode;
use crate::model::spec_encode_from;
use crate::model::spec_find_match;
use crate::model::window_start;
use crate::token::LZ77Error;
use crate::token::LZ77Token;
use crate::token::MAX_MATCH_DISTANCE;
use vstd::string::StringSliceAdditionalSpecFns;

/// Relies on `String::push`: it appends exactly the given character at the
/// end of the string.
#[verifier::external_body]
fn push_char(s: &mut String, c: char)
    ensures
        final(s)@ == old(s)@.push(c),
{
    s.push(c);
}

/// The LZ77 compressor/decompressor. It holds no state: every operation is a
/// pure pass over caller-owned data.
pub struct LZ77Algorithm {}

impl LZ77Algorithm {
    /// Creates a codec instance.
    pub fn new() -> LZ77Algorithm {
        LZ77Algorithm {}
    }

    /// Counts how many consecutive bytes of `data` starting at `offset`
    /// equal the bytes starting at `end`, reading at most 255 pairs and
    /// never reading past the end of `data`.
    pub fn get_distance_to_match(data: &[u8], offset: usize, end: usize) -> (len: u8)
        ensures
            offset < end ==> len as nat == run_len(data@, offset as int, end as int),
            offset >= end ==> len == 0,
    {
        let mut o: usize = offset;
        let mut e: usize = end;
        let mut len: u8 = 0;

        while o < e && e < data.len() && data[o] == data[e] && len < 255
            invariant
                o - offset == len as int,
                e - end == len as int,
                offset >= end ==> len == 0,
                offset < end ==> run_len(data@, offset as int, end as int) == len as nat
                    + run_len_at(data@, o as int, e as int, (255 - len) as nat),
            decreases 255 - len,
        {
            o += 1;
            e += 1;
            len += 1;
        }

        len
    }

    /// Searches the window of candidate offsets before the cursor `end` for
    /// the longest repeated run starting there and reports the best
    /// `(distance, length)` found, `(0, 0)` when no offset matches. Ties in
    /// length go to the earliest offset scanned, that is the largest
    /// distance. The window is capped at [`MAX_MATCH_DISTANCE`] bytes, so
    /// the reported distance always fits its 8-bit range.
    pub fn find_match(data: &[u8], end: usize) -> (r: (u8, u8))
        ensures
            r == spec_find_match(data@, end as int),
    {
        let mut best_offset = 0u8;
        let mut best_len = 0u8;

        let lo: usize = if end > MAX_MATCH_DISTANCE as usize {
            end - MAX_MATCH_DISTANCE as usize
        } else {
            0
        };
        assert(lo == window_start(end as int));

        let mut offset: usize = lo;
        while offset < end
            invariant
                lo <= offset <= end,
                lo == window_start(end as int),
                spec_find_match(data@, end as int) == scan_best(
                    data@,
                    end as int,
                    offset as int,
                    best_offset,
                    best_len,
                ),
            decreases end - offset,
        {
            let len: u8 = LZ77Algorithm::get_distance_to_match(data, offset, end);
            if len > best_len {
                best_offset = (end - offset) as u8;
                best_len = len;
            }
            offset += 1;
        }

        (best_offset, best_len)
    }

    /// Turns `input` into a token sequence: while the cursor is before the
    /// end, it emits the best match the search reports, or a literal for
    /// the byte under the cursor when no offset matches, and advances the
    /// cursor by the bytes covered. The result is exactly the token
    /// sequence of the model, and decoding it gives back the bytes of
    /// `input`.
    pub fn encode(&self, input: &str) -> (output: Vec<LZ77Token>)
        ensures
            output@ == spec_encode(input.spec_bytes()),
            spec_decode(output@) == Some(input.spec_bytes()),
    {
        let input_as_byte = input.as_bytes();
        let mut output: Vec<LZ77Token> = Vec::new();
        let mut index: usize = 0;

        while index < input_as_byte.len()
            invariant
                index <= input_as_byte@.len(),
                spec_encode(input_as_byte@) == output@ + spec_encode_from(
                    input_as_byte@,
                    index as int,
                ),
            decreases input_as_byte@.len() - index,
        {
            let (offset, len) = LZ77Algorithm::find_match(input_as_byte, index);
            proof {
                lemma_find_match_props(input_as_byte@, index as int);
            }

            let ghost prev = output@;
            if offset == 0 {
                let new_token = LZ77Token { distance: 0, length: 0, char: input_as_byte[index] };
                output.push(new_token);
                assert(output@ =~= prev + seq![new_token]);
                index += 1;
            } else {
                let new_token = LZ77Token {
                    distance: offset as usize,
                    length: len as usize,
                    char: 0,
                };
                output.push(new_token);
                assert(output@ =~= prev + seq![new_token]);
                index += len as usize;
            }
        }

        proof {
            assert(output@ =~= output@ + spec_encode_from(input_as_byte@, index as int));
            lemma_round_trip(input_as_byte@);
        }
        output
    }

    /// Replays `data` against a growing output buffer: a literal token
    /// appends its byte, a match token copies `length` bytes starting
    /// `distance` bytes back, one byte at a time, so a copy may re-read
    /// bytes it appended itself. Succeeds exactly when every match token
    /// reaches back no farther than the output produced before it (and not
    /// zero bytes back); the text returned carries the decoded bytes as
    /// characters, code point for code point.
    pub fn decode(&self, data: &Vec<LZ77Token>) -> (r: Result<String, LZ77Error>)
        ensures
            r is Ok <==> spec_decode(data@) is Some,
            r matches Ok(s) ==> spec_decode(data@) matches Some(bs) && s@ == chars_of_bytes(bs),
            r matches Err(e) ==> e == LZ77Error::InvalidBackReference,
    {
        let mut out: Vec<u8> = Vec::new();
        let mut i: usize = 0;
        proof {
            assert(data@.skip(0) =~= data@);
        }

        while i < data.len()
            invariant
                i <= data@.len(),
                spec_decode(data@) == decode_onto(data@.skip(i as int), out@),
            decreases data@.len() - i,
        {
            let token = &data[i];
            proof {
                let suffix = data@.skip(i as int);
                assert(suffix[0] == data@[i as int]);
                assert(suffix.drop_first() =~= data@.skip(i as int + 1));
            }

            if token.length == 0 {
                out.push(token.char);
            } else {
                if token.distance == 0 || token.distance > out.len() {
                    return Err(LZ77Error::InvalidBackReference);
                }
                let ghost out0 = out@;
                let mut k: usize = 0;
                while k < token.length
                    invariant
                        k <= token.length,
                        1 <= token.distance <= out0.len(),
                        out@.len() == out0.len() + k,
                        copy_expand(out0, token.distance as int, token.length as int)
                            == copy_expand(out@, token.distance as int, token.length - k),
                    decreases token.length - k,
                {
                    let idx: usize = out.len() - token.distance;
                    let b: u8 = out[idx];
                    out.push(b);
                    k += 1;
                }
            }
            i += 1;
        }

        proof {
            assert(data@.skip(i as int) =~= Seq::<LZ77Token>::empty());
        }

        let mut output = String::new();
        let mut j: usize = 0;
        while j < out.len()
            invariant
                j <= out@.len(),
                output@ == chars_of_bytes(out@.subrange(0, j as int)),
            decreases out@.len() - j,
        {
            push_char(&mut output, out[j] as char);
            assert(output@ =~= chars_of_bytes(out@.subrange(0, j as int + 1)));
            j += 1;
        }
        proof {
            assert(out@.subrange(0, out@.len() as int) =~= out@);
        }
        Ok(output)
    }
}

} // verus!
