//! The mathematical model of the codec: spec-level match search, encoding
//! and decoding, and the lemmas that relate them.

use vstd::prelude::*;

verus! {

use crate::token::{LZ77Token, literal_token, match_token, MAX_MATCH_LENGTH, MAX_MATCH_DISTANCE};
use vstd::utf8::{char_u32_cast, encode_utf8, is_ascii_chars, is_ascii_chars_encode_utf8,
    is_ascii_chars_nat_bound};

/// Length of the run of equal bytes when `data` is compared against itself
/// at positions `o` (the candidate) and `e` (the cursor), reading at most
/// `fuel` byte pairs: the count of consecutive positions `k` with
/// `data[o + k] == data[e + k]`, stopping at the end of `data`.
pub open spec fn run_len_at(data: Seq<u8>, o: int, e: int, fuel: nat) -> nat
    decreases fuel,
{
    if fuel == 0 || o < 0 || e >= data.len() || data[o] != data[e] {
        0
    } else {
        1 + run_len_at(data, o + 1, e + 1, (fuel - 1) as nat)
    }
}

/// The match run length at candidate offset `o` against cursor `e`, capped
/// at the largest representable match length.
pub open spec fn run_len(data: Seq<u8>, o: int, e: int) -> nat {
    run_len_at(data, o, e, MAX_MATCH_LENGTH as nat)
}

/// What a run length of `l` means, byte for byte: `l` never exceeds the
/// fuel, the compared pairs stay inside `data`, every compared pair is
/// equal, and the run stops only at the fuel cap, the end of `data`, or a
/// mismatch.
proof fn lemma_run_len_at_props(data: Seq<u8>, o: int, e: int, fuel: nat)
    requires
        0 <= o,
        e <= data.len(),
    ensures
        ({
            let l = run_len_at(data, o, e, fuel);
            &&& l <= fuel
            &&& e + l <= data.len()
            &&& forall|j: int| 0 <= j < l ==> #[trigger] data[o + j] == data[e + j]
            &&& (l < fuel && e + l < data.len() ==> data[o + l] != data[e + l])
        }),
    decreases fuel,
{
    let l = run_len_at(data, o, e, fuel);
    if fuel == 0 || e >= data.len() || data[o] != data[e] {
    } else {
        lemma_run_len_at_props(data, o + 1, e + 1, (fuel - 1) as nat);
        let l1 = run_len_at(data, o + 1, e + 1, (fuel - 1) as nat);
        assert(l == 1 + l1);
        assert forall|j: int| 0 <= j < l implies #[trigger] data[o + j] == data[e + j] by {
            if j > 0 {
                assert(data[o + 1 + (j - 1)] == data[e + 1 + (j - 1)]);
            }
        }
    }
}

/// The byte-for-byte meaning of [`run_len`], with the cap written out.
pub proof fn lemma_run_len_props(data: Seq<u8>, o: int, e: int)
    requires
        0 <= o,
        e <= data.len(),
    ensures
        ({
            let l = run_len(data, o, e);
            &&& l <= MAX_MATCH_LENGTH as nat
            &&& e + l <= data.len()
            &&& forall|j: int| 0 <= j < l ==> #[trigger] data[o + j] == data[e + j]
            &&& (l < MAX_MATCH_LENGTH as nat && e + l < data.len() ==> data[o + l] != data[e + l])
        }),
{
    lemma_run_len_at_props(data, o, e, MAX_MATCH_LENGTH as nat);
}

/// First candidate offset the match search considers for cursor `e`: the
/// search window is capped so that every reported distance is representable.
pub open spec fn window_start(e: int) -> int {
    if e > MAX_MATCH_DISTANCE as int {
        e - MAX_MATCH_DISTANCE as int
    } else {
        0
    }
}

/// The best (distance, length) over candidate offsets `[o, e)`, given the
/// best `(best_d, best_l)` seen so far: offsets are scanned in increasing
/// order and a candidate replaces the best only on a strict length
/// improvement, so among equally long matches the earliest offset — the
/// largest distance — wins.
pub open spec fn scan_best(data: Seq<u8>, e: int, o: int, best_d: u8, best_l: u8) -> (u8, u8)
    decreases e - o,
{
    if e <= o {
        (best_d, best_l)
    } else {
        let l = run_len(data, o, e);
        if l > best_l {
            scan_best(data, e, o + 1, (e - o) as u8, l as u8)
        } else {
            scan_best(data, e, o + 1, best_d, best_l)
        }
    }
}

/// The (distance, length) of the best match for cursor `e`: the longest run
/// over the window of candidate offsets, `(0, 0)` when no offset yields a
/// run of length at least one.
pub open spec fn spec_find_match(data: Seq<u8>, e: int) -> (u8, u8) {
    scan_best(data, e, window_start(e), 0, 0)
}

/// The scan keeps these facts about its running best while it walks the
/// offsets `[o, e)`, so they hold of its final answer.
proof fn lemma_scan_best_props(data: Seq<u8>, e: int, o: int, best_d: u8, best_l: u8)
    requires
        e <= data.len(),
        window_start(e) <= o <= e,
        best_l == 0 ==> best_d == 0,
        best_l > 0 ==> window_start(e) <= e - best_d < o && run_len(
            data,
            e - best_d,
            e,
        ) == best_l,
        forall|p: int| window_start(e) <= p < o ==> #[trigger] run_len(data, p, e) <= best_l,
        best_l > 0 ==> forall|p: int|
            window_start(e) <= p < e - best_d ==> #[trigger] run_len(data, p, e) < best_l,
    ensures
        ({
            let (d, l) = scan_best(data, e, o, best_d, best_l);
            &&& (l == 0 <==> d == 0)
            &&& l > 0 ==> window_start(e) <= e - d < e && run_len(data, e - d, e) == l
            &&& forall|p: int| window_start(e) <= p < e ==> #[trigger] run_len(data, p, e) <= l
            &&& l > 0 ==> forall|p: int|
                window_start(e) <= p < e - d ==> #[trigger] run_len(data, p, e) < l
        }),
    decreases e - o,
{
    if e <= o {
    } else {
        let l = run_len(data, o, e);
        lemma_run_len_props(data, o, e);
        if l > best_l {
            lemma_scan_best_props(data, e, o + 1, (e - o) as u8, l as u8);
        } else {
            lemma_scan_best_props(data, e, o + 1, best_d, best_l);
        }
    }
}

/// What the best match reported for cursor `e` means: its length and
/// distance are zero together; a positive length names a candidate offset
/// inside the window whose run has exactly that length; no offset in the
/// window runs longer; and every offset before the named one — every larger
/// distance — runs strictly shorter, which is the documented tie-break in
/// favour of the earliest offset. The cursor never moves, and the reported
/// length never reads past the end of `data`.
pub proof fn lemma_find_match_props(data: Seq<u8>, e: int)
    requires
        0 <= e <= data.len(),
    ensures
        ({
            let (d, l) = spec_find_match(data, e);
            &&& (l == 0 <==> d == 0)
            &&& l > 0 ==> 1 <= d <= e && d <= MAX_MATCH_DISTANCE && run_len(data, e - d, e) == l
            &&& e + l <= data.len()
            &&& forall|p: int| window_start(e) <= p < e ==> #[trigger] run_len(data, p, e) <= l
            &&& l > 0 ==> forall|p: int|
                window_start(e) <= p < e - d ==> #[trigger] run_len(data, p, e) < l
        }),
{
    lemma_scan_best_props(data, e, window_start(e), 0, 0);
    let (d, l) = spec_find_match(data, e);
    if l > 0 {
        lemma_run_len_props(data, e - d, e);
    }
}

/// The token sequence the encoder produces for `data` from cursor `i`
/// onward: at each cursor the best match is looked up; no match emits a
/// literal and advances the cursor by one, a match emits one token and
/// advances the cursor by the match length.
pub open spec fn spec_encode_from(data: Seq<u8>, i: int) -> Seq<LZ77Token>
    decreases (if i <= data.len() { data.len() - i } else { 0 }),
{
    if i < 0 || i >= data.len() {
        Seq::empty()
    } else {
        let (d, l) = spec_find_match(data, i);
        if l == 0 {
            seq![literal_token(data[i])] + spec_encode_from(data, i + 1)
        } else {
            seq![match_token(d, l)] + spec_encode_from(data, i + l as int)
        }
    }
}

/// The token sequence the encoder produces for `data`.
pub open spec fn spec_encode(data: Seq<u8>) -> Seq<LZ77Token> {
    spec_encode_from(data, 0)
}

/// The output after replaying one match token against `out`: `l` bytes are
/// appended one at a time, each read `d` positions back from the current
/// end, so a copy with `d < l` re-reads bytes appended by the same token.
pub open spec fn copy_expand(out: Seq<u8>, d: int, l: int) -> Seq<u8>
    decreases l,
{
    if l <= 0 || d < 1 || d > out.len() {
        out
    } else {
        copy_expand(out.push(out[out.len() - d]), d, l - 1)
    }
}

/// The bytes that replaying `toks` appends to the already-produced output
/// `out`: a token with length zero appends its `char` byte; one with a
/// positive length copies from `distance` bytes back, and is rejected —
/// `None` — when that distance is zero or exceeds the output produced so
/// far.
pub open spec fn decode_onto(toks: Seq<LZ77Token>, out: Seq<u8>) -> Option<Seq<u8>>
    decreases toks.len(),
{
    if toks.len() == 0 {
        Some(out)
    } else {
        let t = toks[0];
        if t.length == 0 {
            decode_onto(toks.drop_first(), out.push(t.char))
        } else if 1 <= t.distance <= out.len() {
            decode_onto(toks.drop_first(), copy_expand(out, t.distance as int, t.length as int))
        } else {
            None
        }
    }
}

/// The byte sequence a token sequence decodes to, `None` when some match
/// token reaches back past the start of the output produced before it.
pub open spec fn spec_decode(toks: Seq<LZ77Token>) -> Option<Seq<u8>> {
    decode_onto(toks, Seq::empty())
}

/// The text a decoded byte sequence is returned as: each byte becomes the
/// character with that code point.
pub open spec fn chars_of_bytes(bs: Seq<u8>) -> Seq<char> {
    Seq::new(bs.len(), |i: int| bs[i] as char)
}

/// Replaying a copy of `l` bytes from `d` back over the prefix of `data` of
/// length `i` yields the prefix of length `i + l`, provided each copied
/// byte equals the byte `d` positions before it — which also covers copies
/// that re-read bytes they appended themselves.
proof fn lemma_copy_expand_prefix(data: Seq<u8>, i: int, d: int, l: int)
    requires
        1 <= d <= i,
        0 <= l,
        i + l <= data.len(),
        forall|j: int| 0 <= j < l ==> data[i - d + j] == #[trigger] data[i + j],
    ensures
        copy_expand(data.subrange(0, i), d, l) == data.subrange(0, i + l),
    decreases l,
{
    let pre = data.subrange(0, i);
    if l <= 0 {
        assert(copy_expand(pre, d, l) == pre);
    } else {
        assert(pre.push(pre[i - d]) =~= data.subrange(0, i + 1));
        assert(copy_expand(pre, d, l) == copy_expand(data.subrange(0, i + 1), d, l - 1));
        assert forall|j: int| 0 <= j < l - 1 implies data[i + 1 - d + j] == #[trigger] data[i + 1
            + j] by {
            assert(data[i - d + (j + 1)] == data[i + (j + 1)]);
        }
        lemma_copy_expand_prefix(data, i + 1, d, l - 1);
    }
}

/// Replaying what the encoder emits from cursor `i` onward, over the part
/// of `data` already produced, reconstructs all of `data`.
proof fn lemma_decode_encode_from(data: Seq<u8>, i: int)
    requires
        0 <= i <= data.len(),
    ensures
        decode_onto(spec_encode_from(data, i), data.subrange(0, i)) == Some(data),
    decreases data.len() - i,
{
    let pre = data.subrange(0, i);
    if i >= data.len() {
        assert(pre =~= data);
    } else {
        let (d, l) = spec_find_match(data, i);
        lemma_find_match_props(data, i);
        if l == 0 {
            let toks = seq![literal_token(data[i])] + spec_encode_from(data, i + 1);
            assert(toks.drop_first() =~= spec_encode_from(data, i + 1));
            assert(pre.push(data[i]) =~= data.subrange(0, i + 1));
            lemma_decode_encode_from(data, i + 1);
        } else {
            let toks = seq![match_token(d, l)] + spec_encode_from(data, i + l as int);
            assert(toks.drop_first() =~= spec_encode_from(data, i + l as int));
            lemma_run_len_props(data, i - d, i);
            lemma_copy_expand_prefix(data, i, d as int, l as int);
            lemma_decode_encode_from(data, i + l as int);
        }
    }
}

/// The round-trip law: decoding what the encoder produced for any byte
/// sequence succeeds and returns exactly that sequence.
pub proof fn lemma_round_trip(data: Seq<u8>)
    ensures
        spec_decode(spec_encode(data)) == Some(data),
{
    assert(data.subrange(0, 0) =~= Seq::<u8>::empty());
    lemma_decode_encode_from(data, 0);
}

/// From a cursor onward, the encoder emits exactly one literal per input
/// byte when no byte of `data` repeats.
proof fn lemma_distinct_from(data: Seq<u8>, i: int)
    requires
        0 <= i <= data.len(),
        forall|p: int, q: int| 0 <= p < q < data.len() ==> data[p] != data[q],
    ensures
        spec_encode_from(data, i).len() == data.len() - i,
        forall|j: int|
            0 <= j < data.len() - i ==> spec_encode_from(data, i)[j] == literal_token(data[i + j]),
    decreases data.len() - i,
{
    if i >= data.len() {
    } else {
        let (d, l) = spec_find_match(data, i);
        lemma_find_match_props(data, i);
        if l > 0 {
            lemma_run_len_props(data, i - d, i);
            assert(data[i - d + 0] == data[i + 0]);
            assert(false);
        }
        lemma_distinct_from(data, i + 1);
        let toks = seq![literal_token(data[i])] + spec_encode_from(data, i + 1);
        assert forall|j: int| 0 <= j < data.len() - i implies toks[j] == literal_token(
            data[i + j],
        ) by {
            if j > 0 {
                assert(spec_encode_from(data, i + 1)[j - 1] == literal_token(data[i + 1 + (j - 1)]));
            }
        }
    }
}

/// The no-repetition law: when no byte of `data` occurs twice, there is
/// nothing for a match to refer back to, so every token the encoder emits
/// is a literal and the token count equals the input length.
pub proof fn lemma_no_repeats_all_literals(data: Seq<u8>)
    requires
        forall|p: int, q: int| 0 <= p < q < data.len() ==> data[p] != data[q],
    ensures
        spec_encode(data).len() == data.len(),
        forall|j: int| 0 <= j < data.len() ==> spec_encode(data)[j] == literal_token(data[j]),
{
    lemma_distinct_from(data, 0);
}

/// The round-trip law for text: encoding the bytes of an ASCII character
/// sequence and decoding the tokens gives back the same characters.
pub proof fn lemma_round_trip_ascii(s: Seq<char>)
    requires
        is_ascii_chars(s),
    ensures
        spec_decode(spec_encode(encode_utf8(s))) == Some(encode_utf8(s)),
        chars_of_bytes(encode_utf8(s)) == s,
{
    let bs = encode_utf8(s);
    lemma_round_trip(bs);
    is_ascii_chars_encode_utf8(s);
    is_ascii_chars_nat_bound(s);
    assert forall|i: int| 0 <= i < s.len() implies #[trigger] chars_of_bytes(bs)[i] == s[i] by {
        assert(bs[i] == s[i] as u8);
        char_u32_cast(s[i], s[i] as u32);
        assert((s[i] as nat) < 128);
        assert(s[i] as u8 as u32 == s[i] as u32);
        assert(bs[i] as char == s[i]);
    }
    assert(chars_of_bytes(bs) =~= s);
}

} // verus!
