use diropqlz::compressor::huffman::{
    build_canonical_codebook, build_codebook, build_huffman_tree, canon_length,
    canonical_decode_bits, canonical_encode_bits, decode_huffman, encode_huffman, HNode,
};
use diropqlz::error::CodecError;

fn codebook_of(message: &[u8]) -> Vec<(u8, Vec<u8>)> {
    let tree = build_huffman_tree(message);
    let mut stack = Vec::new();
    let mut map = Vec::new();
    build_codebook(&tree, &mut stack, &mut map);
    assert!(stack.is_empty());
    map
}

fn is_prefix(a: &[u8], b: &[u8]) -> bool {
    a.len() <= b.len() && &b[..a.len()] == a
}

#[test]
fn tree_root_counts_every_byte() {
    let message = vec![5, 5, 6, 3, 3, 3, 1, 6, 6];
    let tree = build_huffman_tree(&message);
    assert_eq!(tree.freq(), 9);
    assert!(!tree.leaf());
}

#[test]
fn tree_puts_first_popped_on_the_left() {
    let tree = build_huffman_tree(&[1, 1, 1, 1, 2, 2, 3]);
    match tree {
        HNode::Parent { freq, left, right } => {
            assert_eq!(freq, 7);
            assert_eq!(left.freq(), 3);
            assert!(!left.leaf());
            assert_eq!(right.freq(), 4);
            assert!(right.leaf());
        }
        HNode::Leaf { .. } => panic!("expected a parent"),
    }
}

#[test]
fn codebook_of_equal_lengths() {
    let map = codebook_of(&[5, 5, 6, 3, 3, 3, 1, 6, 6]);
    assert_eq!(
        map,
        vec![(1, vec![1, 1]), (5, vec![1, 0]), (3, vec![0, 1]), (6, vec![0, 0])]
    );
}

#[test]
fn codebook_of_mixed_lengths() {
    let map = codebook_of(&[1, 1, 1, 1, 2, 2, 3]);
    assert_eq!(map, vec![(3, vec![1, 1]), (2, vec![1, 0]), (1, vec![0])]);
}

#[test]
fn canonical_codebook_sorts_and_reassigns() {
    let map = codebook_of(&[5, 5, 6, 3, 3, 3, 1, 6, 6]);
    assert_eq!(
        build_canonical_codebook(&map),
        vec![(6, vec![0, 0]), (3, vec![0, 1]), (5, vec![1, 0]), (1, vec![1, 1])]
    );
    let map = codebook_of(&[1, 1, 1, 1, 2, 2, 3]);
    assert_eq!(
        build_canonical_codebook(&map),
        vec![(1, vec![0]), (2, vec![1, 0]), (3, vec![1, 1])]
    );
}

#[test]
fn canonical_codebook_breaks_ties_by_codeword() {
    let map = vec![(7, vec![1]), (8, vec![0, 1]), (9, vec![0, 0])];
    assert_eq!(
        build_canonical_codebook(&map),
        vec![(7, vec![0]), (9, vec![1, 0]), (8, vec![1, 1])]
    );
}

#[test]
fn canonical_codebook_of_nothing_is_empty() {
    assert_eq!(build_canonical_codebook(&vec![]), vec![]);
}

#[test]
fn canonical_codewords_are_prefix_free() {
    let message = b"this is an example of a huffman tree".to_vec();
    let table = build_canonical_codebook(&codebook_of(&message));
    for (i, (_, a)) in table.iter().enumerate() {
        for (j, (_, b)) in table.iter().enumerate() {
            if i != j {
                assert!(!is_prefix(a, b));
            }
        }
    }
}

#[test]
fn canonical_round_trip() {
    let message = b"this is an example of a huffman tree".to_vec();
    let table = build_canonical_codebook(&codebook_of(&message));
    let bits = canonical_encode_bits(&message, &table).unwrap();
    assert!(bits.iter().all(|&b| b <= 1));
    assert_eq!(canonical_decode_bits(&bits, &table), Ok(message));
}

#[test]
fn canonical_encode_exact_bits() {
    let message = vec![5, 5, 6, 3, 3, 3, 1, 6, 6];
    let table = build_canonical_codebook(&codebook_of(&message));
    assert_eq!(
        canonical_encode_bits(&message, &table),
        Ok(vec![1, 0, 1, 0, 0, 0, 0, 1, 0, 1, 0, 1, 1, 1, 0, 0, 0, 0])
    );
}

#[test]
fn plain_round_trip() {
    let message = vec![5, 5, 6, 3, 3, 3, 1, 6, 6];
    let map = codebook_of(&message);
    let bits = encode_huffman(&message, &map).unwrap();
    assert_eq!(
        bits,
        vec![1, 0, 1, 0, 0, 0, 0, 1, 0, 1, 0, 1, 1, 1, 0, 0, 0, 0]
    );
    assert_eq!(decode_huffman(&bits, &map), Ok(message));
}

#[test]
fn single_symbol_gets_the_empty_codeword() {
    let message = vec![9, 9, 9];
    let tree = build_huffman_tree(&message);
    assert!(tree.leaf());
    assert_eq!(tree.freq(), 3);
    let map = codebook_of(&message);
    assert_eq!(map, vec![(9, vec![])]);
    let table = build_canonical_codebook(&map);
    assert_eq!(table, vec![(9, vec![])]);
    assert_eq!(canonical_encode_bits(&message, &table), Ok(vec![]));
    assert_eq!(canonical_decode_bits(&[], &table), Ok(vec![]));
    assert_eq!(canon_length(&table)[9], 0);
}

#[test]
fn encode_refuses_unknown_symbol() {
    let table = vec![(1, vec![0]), (2, vec![1])];
    assert_eq!(
        canonical_encode_bits(&[1, 3], &table),
        Err(CodecError::CodeLookupFailure)
    );
    assert_eq!(encode_huffman(&[3], &table), Err(CodecError::CodeLookupFailure));
}

#[test]
fn decode_refuses_truncated_bits() {
    let table = vec![(1, vec![0]), (2, vec![1, 0]), (3, vec![1, 1])];
    assert_eq!(canonical_decode_bits(&[0, 1, 0, 1], &table), Err(CodecError::CodeLookupFailure));
    assert_eq!(decode_huffman(&[1, 2], &table), Err(CodecError::CodeLookupFailure));
    assert_eq!(canonical_decode_bits(&[0, 1, 0, 1, 1], &table), Ok(vec![1, 2, 3]));
}

#[test]
fn canon_length_covers_every_byte_value() {
    let table = vec![(1, vec![0]), (200, vec![1, 0]), (255, vec![1, 1])];
    let lengths = canon_length(&table);
    assert_eq!(lengths.len(), 256);
    assert_eq!(lengths[1], 1);
    assert_eq!(lengths[200], 2);
    assert_eq!(lengths[255], 2);
    assert_eq!(lengths[0], 0);
}
