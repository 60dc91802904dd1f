use diropqlz::compressor::bwt::{bwt_decode, bwt_encode};
use diropqlz::compressor::mtf::{mtf_decode, mtf_encode};
use diropqlz::compressor::order::sorted_order;
use diropqlz::compressor::rle::{rle_decode, rle_encode};
use diropqlz::error::CodecError;

const ALPHABET: &[u8] = b"diropql";

#[test]
fn rle_encodes_literals_with_bias() {
    let input = vec![3, 3, 4, 1, 1, 1, 0, 0, 4, 4];
    assert_eq!(rle_encode(&input), Ok(vec![5, 5, 6, 3, 3, 3, 1, 6, 6]));
}

#[test]
fn rle_encodes_run_of_five_zeros() {
    assert_eq!(rle_encode(&vec![0, 0, 0, 0, 0]), Ok(vec![0, 1]));
    assert_eq!(rle_decode(&vec![0, 1]), Ok(vec![0, 0, 0, 0, 0]));
}

#[test]
fn rle_round_trip_empty() {
    assert_eq!(rle_encode(&vec![]), Ok(vec![]));
    assert_eq!(rle_decode(&vec![]), Ok(vec![]));
}

#[test]
fn rle_round_trip_all_zeros() {
    for n in 1..70usize {
        let input = vec![0u8; n];
        let tokens = rle_encode(&input).unwrap();
        assert!(tokens.iter().all(|&t| t <= 1));
        assert_eq!(rle_decode(&tokens), Ok(input));
    }
}

#[test]
fn rle_round_trip_no_zeros() {
    let input: Vec<u8> = (1..=253).collect();
    let tokens = rle_encode(&input).unwrap();
    assert_eq!(tokens.len(), input.len());
    assert!(tokens.iter().all(|&t| t >= 2));
    assert_eq!(rle_decode(&tokens), Ok(input));
}

#[test]
fn rle_round_trip_mixed() {
    let input = vec![0, 7, 0, 0, 0, 9, 9, 0, 0, 0, 0, 0, 0, 0, 1, 0];
    let tokens = rle_encode(&input).unwrap();
    assert_eq!(rle_decode(&tokens), Ok(input));
}

#[test]
fn rle_refuses_bytes_without_a_token() {
    assert_eq!(rle_encode(&vec![1, 254]), Err(CodecError::AmbiguousToken));
    assert_eq!(rle_encode(&vec![255]), Err(CodecError::AmbiguousToken));
    assert_eq!(rle_encode(&vec![253]), Ok(vec![255]));
}

#[test]
fn rle_refuses_unaddressable_run() {
    assert_eq!(rle_decode(&vec![1u8; 200]), Err(CodecError::RunOverflow));
}

#[test]
fn rle_decode_closes_trailing_run() {
    assert_eq!(rle_decode(&vec![4, 1]), Ok(vec![2, 0, 0]));
    assert_eq!(rle_decode(&vec![0]), Ok(vec![0]));
}

#[test]
fn mtf_encodes_positions() {
    assert_eq!(mtf_encode(b"dd", ALPHABET), Ok(vec![0, 0]));
    assert_eq!(mtf_encode(b"id", ALPHABET), Ok(vec![1, 1]));
    assert_eq!(mtf_encode(b"lld", ALPHABET), Ok(vec![6, 0, 1]));
}

#[test]
fn mtf_absent_byte_takes_position_zero() {
    assert_eq!(mtf_encode(b"x", ALPHABET), Ok(vec![0]));
    assert_eq!(mtf_encode(b"ix", ALPHABET), Ok(vec![1, 0]));
}

#[test]
fn mtf_round_trip_over_alphabet() {
    let text = b"riiiiioriiiodlpqqlpdorr".to_vec();
    let indices = mtf_encode(&text, ALPHABET).unwrap();
    assert_eq!(mtf_decode(&indices, ALPHABET), Ok(text));
}

#[test]
fn mtf_decode_refuses_index_out_of_range() {
    assert_eq!(mtf_decode(&[0, 7], ALPHABET), Err(CodecError::AlphabetMismatch));
    assert_eq!(mtf_decode(&[6], ALPHABET), Ok(b"l".to_vec()));
}

#[test]
fn mtf_encode_needs_an_alphabet() {
    assert_eq!(mtf_encode(b"d", b""), Err(CodecError::AlphabetMismatch));
    assert_eq!(mtf_encode(b"", b""), Ok(vec![]));
}

#[test]
fn sorted_order_ranks_shorter_then_bytewise_then_stable() {
    let keys = vec![vec![1, 1], vec![0], vec![1, 0], vec![0], vec![]];
    assert_eq!(sorted_order(&keys), vec![4, 1, 3, 2, 0]);
}

#[test]
fn bwt_encode_banana() {
    let (transformed, index) = bwt_encode(b"banana");
    assert_eq!(transformed, b"annb\0aa".to_vec());
    assert_eq!(index, 4);
}

#[test]
fn bwt_decode_banana() {
    assert_eq!(bwt_decode(b"annb\0aa", 4), b"banana\0".to_vec());
}

#[test]
fn bwt_round_trip_appends_sentinel() {
    for text in [&b"LET HIM COOK"[..], b"a", b"aaaa", b"abracadabra", b"riiioriiior"] {
        let (transformed, index) = bwt_encode(text);
        let mut expected = text.to_vec();
        expected.push(0);
        assert_eq!(bwt_decode(&transformed, index), expected);
    }
}

#[test]
fn bwt_of_empty_text_is_the_sentinel() {
    assert_eq!(bwt_encode(b""), (vec![0], 0));
    assert_eq!(bwt_decode(b"", 0), Vec::<u8>::new());
}

#[test]
fn bwt_round_trip_of_short_texts_over_two_bytes() {
    for len in 0..9usize {
        for bits in 0..(1u32 << len) {
            let text: Vec<u8> = (0..len).map(|i| ((bits >> i) & 1) as u8 + 1).collect();
            let (transformed, index) = bwt_encode(&text);
            let mut expected = text.clone();
            expected.push(0);
            assert_eq!(bwt_decode(&transformed, index), expected);
        }
    }
}

#[test]
fn bwt_round_trip_of_texts_that_hold_the_sentinel() {
    let mut failures: Vec<Vec<u8>> = Vec::new();
    for len in 0..9usize {
        for bits in 0..(1u32 << len) {
            let text: Vec<u8> = (0..len).map(|i| ((bits >> i) & 1) as u8).collect();
            let (transformed, index) = bwt_encode(&text);
            let mut expected = text.clone();
            expected.push(0);
            if bwt_decode(&transformed, index) != expected {
                failures.push(text);
            }
        }
    }
    assert_eq!(failures, Vec::<Vec<u8>>::new());
}
