use diropqlz::diropql::zip::{
    alphabet, compress, compress_linked, decompress, decompress_linked, linked_alphabet,
    parse_blob, read_diropqlz, read_meta, read_program,
    write_diropql, write_diropqlz, write_meta, DpqlzMeta,
};
use diropqlz::error::CodecError;

fn meta(mlen: u64, moffset: u8, bwt_idx: u64) -> DpqlzMeta {
    DpqlzMeta { mlen, moffset, bwt_idx }
}

#[test]
fn alphabet_is_diropql() {
    assert_eq!(alphabet(), b"diropql".to_vec());
}

#[test]
fn pack_writes_fixed_width_header() {
    let text = write_meta(&meta(3, 3, 7), vec![2, 3, 4]).unwrap();
    assert_eq!(&text[..8], b"DIROPQLZ");
    let body = String::from_utf8(text[8..].to_vec()).unwrap();
    let blob = base85::decode(&body).unwrap();
    assert_eq!(blob, b"00330007\x02\x03\x04".to_vec());
    assert_ne!(text[8..].to_vec(), blob);
}

#[test]
fn pack_unpack_round_trip() {
    let text = write_meta(&meta(3, 3, 7), vec![2, 3, 4]).unwrap();
    let (m, tokens) = read_meta(&text[8..]).unwrap();
    assert_eq!(m, meta(3, 3, 7));
    assert_eq!(tokens, vec![2, 3, 4]);
}

#[test]
fn pack_unpack_round_trip_of_every_remainder() {
    for n in 0..12usize {
        let tokens: Vec<u8> = (0..n).map(|i| (i % 9) as u8).collect();
        let m = meta(n as u64, (n % 8) as u8, 9999);
        let text = write_meta(&m, tokens.clone()).unwrap();
        assert_eq!(read_meta(&text[8..]), Ok((m, tokens)));
    }
}

#[test]
fn pack_refuses_fields_that_overflow() {
    assert_eq!(write_meta(&meta(3, 3, 10000), vec![2, 3, 4]), Err(CodecError::FieldOverflow));
    assert_eq!(write_meta(&meta(1000, 0, 0), vec![2; 1000]), Err(CodecError::FieldOverflow));
    assert_eq!(write_meta(&meta(3, 8, 0), vec![2, 3, 4]), Err(CodecError::FieldOverflow));
    assert!(write_meta(&meta(999, 7, 9999), vec![2; 999]).is_ok());
}

#[test]
fn pack_refuses_tokens_that_are_not_text() {
    assert_eq!(write_meta(&meta(1, 1, 0), vec![200]), Err(CodecError::MalformedContainer));
}

#[test]
fn unpack_refuses_bad_envelopes() {
    assert_eq!(read_meta(b"~~~~~"), Err(CodecError::MalformedContainer));
    assert_eq!(read_meta(b"VPRo m"), Err(CodecError::MalformedContainer));
    assert_eq!(read_meta(b"V"), Err(CodecError::MalformedContainer));
    assert_eq!(read_meta(&[200, 201]), Err(CodecError::MalformedContainer));
    assert_eq!(read_meta(b""), Err(CodecError::MalformedContainer));
}

#[test]
fn unpack_refuses_bad_headers() {
    let body = base85::encode(b"0033000x\x02").into_bytes();
    assert_eq!(read_meta(&body), Err(CodecError::MalformedContainer));
    let body = base85::encode(b"0033").into_bytes();
    assert_eq!(read_meta(&body), Err(CodecError::MalformedContainer));
    let body = base85::encode(b"00330007\xc3\xa9").into_bytes();
    assert_eq!(read_meta(&body), Err(CodecError::MalformedContainer));
}

#[test]
fn parse_blob_reads_fields_as_written() {
    assert_eq!(parse_blob(b"12345678abc"), Ok((meta(123, 4, 5678), b"abc".to_vec())));
    assert_eq!(parse_blob(b"00000000"), Ok((meta(0, 0, 0), vec![])));
    assert_eq!(parse_blob(b"+1200000"), Err(CodecError::MalformedContainer));
    assert_eq!(parse_blob(b"1234567"), Err(CodecError::MalformedContainer));
}

#[test]
fn program_for_one_byte() {
    let mut expected = b"r".to_vec();
    expected.extend(std::iter::repeat(b'i').take(65));
    expected.extend_from_slice(b"or");
    assert_eq!(write_diropql(b"A"), expected);
    assert_eq!(write_diropql(b""), b"r".to_vec());
}

#[test]
fn compress_then_decompress_program_for_ab() {
    let program = write_diropql(b"AB");
    assert_eq!(program.len(), 136);
    let (tokens, index) = compress(&program);
    assert!(index < 137);
    assert!(tokens.len() < program.len());
    let m = meta(tokens.len() as u64, (tokens.len() % 8) as u8, index as u64);
    assert_eq!(decompress(&tokens, &m), Ok(program));
}

#[test]
fn compress_exact_tokens() {
    let (tokens, index) = compress(b"rio");
    assert_eq!(tokens, vec![4, 4, 5]);
    assert_eq!(index, 3);
}

#[test]
fn decompress_refuses_foreign_tokens() {
    let m = meta(1, 1, 0);
    assert_eq!(decompress(&vec![9], &m), Err(CodecError::AlphabetMismatch));
    assert_eq!(decompress(&vec![1; 100], &m), Err(CodecError::RunOverflow));
}

#[test]
fn container_round_trip_for_ab() {
    let container = write_diropqlz(b"AB").unwrap();
    assert_eq!(&container[..8], b"DIROPQLZ");
    assert!(container.iter().all(|b| b.is_ascii_graphic()));
    assert_eq!(read_program(&container), Ok(write_diropql(b"AB")));
    assert_eq!(read_diropqlz(&container, 10_000), Ok(b"AB".to_vec()));
}

#[test]
fn container_refuses_long_payloads() {
    let text: Vec<u8> = (0..600).map(|i| (i % 7) as u8 + 1).collect();
    assert_eq!(write_diropqlz(&text), Err(CodecError::FieldOverflow));
}

#[test]
fn container_needs_its_marker() {
    let mut container = write_diropqlz(b"A").unwrap();
    container[0] = b'X';
    assert_eq!(read_program(&container), Err(CodecError::MalformedContainer));
    assert_eq!(read_diropqlz(&container, 10_000), Err(CodecError::MalformedContainer));
    assert_eq!(read_diropqlz(b"DIROPQL", 10_000), Err(CodecError::MalformedContainer));
}

#[test]
fn container_reports_a_program_that_does_not_end() {
    let container = write_diropqlz(b"AB").unwrap();
    assert_eq!(read_diropqlz(&container, 10), Err(CodecError::ProgramFault));
}

#[test]
fn container_text_round_trip() {
    for text in [&b""[..], b"A", b"Hi!", b"\x00\x01"] {
        let container = write_diropqlz(text).unwrap();
        assert_eq!(read_diropqlz(&container, 100_000), Ok(text.to_vec()));
    }
}

#[test]
fn linked_alphabet_starts_with_the_sentinel() {
    assert_eq!(linked_alphabet(), b"\0diropql".to_vec());
}

#[test]
fn linked_chain_round_trip() {
    for text in [&b""[..], b"A", b"AB", b"Hi!"] {
        let program = write_diropql(text);
        let (tokens, index) = compress_linked(&program);
        let m = meta(tokens.len() as u64, (tokens.len() % 8) as u8, index as u64);
        assert_eq!(decompress_linked(&tokens, &m), Ok(program));
    }
}

#[test]
fn linked_chain_exact_tokens() {
    let (tokens, index) = compress_linked(b"rio");
    assert_eq!(index, 3);
    assert_eq!(tokens, vec![6, 6, 6, 5]);
}

#[test]
fn linked_chain_refuses_an_index_beyond_the_text() {
    let (tokens, _) = compress_linked(b"rio");
    assert_eq!(decompress_linked(&tokens, &meta(4, 4, 4)), Err(CodecError::MalformedContainer));
    assert_eq!(decompress_linked(&vec![], &meta(0, 0, 0)), Err(CodecError::MalformedContainer));
}
