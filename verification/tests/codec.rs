use lz77::LZ77Algorithm;
use lz77::LZ77Error;
use lz77::LZ77Token;

fn literal(b: u8) -> LZ77Token {
    LZ77Token { length: 0, distance: 0, char: b }
}

fn back_reference(distance: usize, length: usize) -> LZ77Token {
    LZ77Token { length, distance, char: 0 }
}

#[test]
fn encode_length_three_string() {
    let lz77 = LZ77Algorithm::new();

    // input to compress
    let input = "abc";

    // encode input
    let encoded_result = lz77.encode(input);
    let decoded_result = lz77.decode(&encoded_result).unwrap();

    assert_eq!(decoded_result, input);
}

#[test]
fn encode_length_complex_string() {
    let lz77 = LZ77Algorithm::new();

    // input to compress
    let input = "aabbcc";

    // encode input
    let encoded_result = lz77.encode(input);
    let decoded_result = lz77.decode(&encoded_result).unwrap();

    assert_eq!(decoded_result, input);
}

#[test]
fn empty_input_yields_no_tokens() {
    let lz77 = LZ77Algorithm::new();
    assert_eq!(lz77.encode(""), vec![]);
}

#[test]
fn empty_token_sequence_decodes_to_empty_string() {
    let lz77 = LZ77Algorithm::new();
    assert_eq!(lz77.decode(&vec![]).unwrap(), "");
}

#[test]
fn no_repetition_gives_one_literal_per_byte() {
    let lz77 = LZ77Algorithm::new();
    let tokens = lz77.encode("abc");
    assert_eq!(tokens, vec![literal(b'a'), literal(b'b'), literal(b'c')]);
}

#[test]
fn simple_repetition_exact_token_sequence() {
    let lz77 = LZ77Algorithm::new();
    let input = "aabbcc";
    let tokens = lz77.encode(input);
    // Each repeated byte becomes a length-1 match at distance 1.
    assert_eq!(
        tokens,
        vec![
            literal(b'a'),
            back_reference(1, 1),
            literal(b'b'),
            back_reference(1, 1),
            literal(b'c'),
            back_reference(1, 1),
        ]
    );
    assert_eq!(lz77.decode(&tokens).unwrap(), input);
}

#[test]
fn overlapping_copy_round_trips() {
    let lz77 = LZ77Algorithm::new();
    let input = "aaaaaa";
    let tokens = lz77.encode(input);
    // One literal, then a single match that re-reads bytes it writes:
    // distance 1, length 5.
    assert_eq!(tokens, vec![literal(b'a'), back_reference(1, 5)]);
    assert_eq!(lz77.decode(&tokens).unwrap(), input);
}

#[test]
fn run_longer_than_length_cap_round_trips() {
    let lz77 = LZ77Algorithm::new();
    let input = "a".repeat(300);
    let tokens = lz77.encode(&input);
    // The run is covered by several tokens, each capped at length 255.
    assert_eq!(
        tokens,
        vec![literal(b'a'), back_reference(1, 255), back_reference(255, 44)]
    );
    assert_eq!(lz77.decode(&tokens).unwrap(), input);
}

#[test]
fn malformed_back_reference_is_rejected() {
    let lz77 = LZ77Algorithm::new();
    let tokens = vec![LZ77Token { length: 3, distance: 100, char: 0 }];
    assert_eq!(lz77.decode(&tokens), Err(LZ77Error::InvalidBackReference));
}

#[test]
fn zero_distance_match_is_rejected() {
    let lz77 = LZ77Algorithm::new();
    let tokens = vec![literal(b'a'), LZ77Token { length: 2, distance: 0, char: 0 }];
    assert_eq!(lz77.decode(&tokens), Err(LZ77Error::InvalidBackReference));
}

#[test]
fn literal_tokens_decode_to_their_bytes() {
    let lz77 = LZ77Algorithm::new();
    let tokens = vec![literal(b'h'), literal(b'i')];
    assert_eq!(lz77.decode(&tokens).unwrap(), "hi");
}

#[test]
fn decoded_byte_becomes_char_with_same_code_point() {
    let lz77 = LZ77Algorithm::new();
    let tokens = vec![literal(0xff)];
    assert_eq!(lz77.decode(&tokens).unwrap(), "\u{ff}");
}

#[test]
fn get_distance_to_match_counts_equal_run() {
    let data = [b'a', b'b', b'a', b'b', b'x'];
    // Comparing offset 0 against cursor 2: "ab" matches "ab", then 'a' != 'x'.
    assert_eq!(LZ77Algorithm::get_distance_to_match(&data, 0, 2), 2);
    // Offset 1 against cursor 2: 'b' != 'a'.
    assert_eq!(LZ77Algorithm::get_distance_to_match(&data, 1, 2), 0);
}

#[test]
fn get_distance_to_match_is_capped_at_255() {
    let data = vec![b'z'; 600];
    assert_eq!(LZ77Algorithm::get_distance_to_match(&data, 0, 1), 255);
}

#[test]
fn find_match_reports_no_match_as_zero_pair() {
    assert_eq!(LZ77Algorithm::find_match(b"abc", 2), (0, 0));
    assert_eq!(LZ77Algorithm::find_match(b"abc", 0), (0, 0));
}

#[test]
fn find_match_tie_break_prefers_largest_distance() {
    // Offsets 0 and 1 both match for exactly one byte; the earliest offset
    // wins, so the reported distance is the larger one.
    assert_eq!(LZ77Algorithm::find_match(b"aaa", 2), (2, 1));
}

#[test]
fn find_match_reports_longest_run() {
    // Offset 0 matches "ab" (length 2) at cursor 2; offset 1 does not match.
    assert_eq!(LZ77Algorithm::find_match(b"abab", 2), (2, 2));
}
