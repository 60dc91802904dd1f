//! The container: a fixed-width decimal header before the token stream,
//! the whole in a printable envelope behind a magic marker.
use vstd::prelude::*;
use crate::error::CodecError;
use crate::diropql::machine::{
    blank_tape,
    bump,
    output_of,
    read_diropql,
    run_spec,
    MEMORY_SIZE,
};
use crate::compressor::bwt::{
    bwt_decode,
    bwt_encode,
    is_bwt_of,
    is_inverse_bwt_of,
    lemma_bwt_round_trip,
    lemma_transformed_bytes,
    lemma_walk_len,
    sentinel_free,
    SENTINEL,
    with_sentinel,
};
use crate::compressor::mtf::{
    indices_in_range,
    lemma_mtf_indices_in_range,
    lemma_mtf_round_trip,
    drawn_from,
    mtf_decode,
    mtf_decode_spec,
    mtf_encode,
    mtf_encode_spec,
};
use crate::compressor::rle::{
    lemma_rle_round_trip,
    lemma_rle_tokens_bounded,
    rle_decode,
    rle_decode_spec,
    rle_encode,
    rle_encode_spec,
    rle_fits,
};

verus! {

/// What the header of a container says of its payload.
#[derive(Clone, Copy, Debug, PartialEq, Eq, Structural)]
pub struct DpqlzMeta {
    /// The number of tokens.
    pub mlen: u64,
    /// The number of tokens modulo 8.
    pub moffset: u8,
    /// The rank of the unrotated message among its sorted rotations.
    pub bwt_idx: u64,
}

/// The instruction alphabet `diropql`, in the order both recoders start from.
pub open spec fn alphabet_spec() -> Seq<u8> {
    seq![100u8, 105u8, 114u8, 111u8, 112u8, 113u8, 108u8]
}

/// The marker `DIROPQLZ` that opens every container.
pub open spec fn magic_spec() -> Seq<u8> {
    seq![68u8, 73u8, 82u8, 79u8, 80u8, 81u8, 76u8, 90u8]
}

/// The ASCII digit for `d`.
pub open spec fn digit(d: int) -> u8 {
    (48 + d) as u8
}

/// Whether `b` is an ASCII digit.
pub open spec fn is_digit(b: u8) -> bool {
    48 <= b <= 57
}

/// The header: the length in three digits, the offset in one, the
/// rotation index in four, each padded with zeros.
pub open spec fn header_spec(len: int, offset: int, index: int) -> Seq<u8> {
    seq![
        digit(len / 100),
        digit(len / 10 % 10),
        digit(len % 10),
        digit(offset),
        digit(index / 1000),
        digit(index / 100 % 10),
        digit(index / 10 % 10),
        digit(index % 10),
    ]
}

/// Whether every field fits the digits of its header field.
pub open spec fn fields_fit(len: int, offset: int, index: int) -> bool {
    len < 1000 && offset <= 7 && index < 10000
}

/// Every byte is a single-byte text value.
pub open spec fn all_ascii(bytes: Seq<u8>) -> bool {
    forall|i: int| 0 <= i < bytes.len() ==> bytes[i] < 128
}

/// The bytes inside the envelope: header, then tokens.
pub open spec fn blob_spec(len: int, offset: int, index: int, tokens: Seq<u8>) -> Seq<u8> {
    header_spec(len, offset, index) + tokens
}

/// What the bytes inside an envelope say: the three header fields read
/// at their fixed places, and the tokens behind them. Nothing where the
/// header is short or holds anything but digits.
pub open spec fn parse_spec(bytes: Seq<u8>) -> Option<(DpqlzMeta, Seq<u8>)> {
    if bytes.len() < 8 || exists|i: int| 0 <= i < 8 && !is_digit(bytes[i]) {
        None
    } else {
        Some(
            (
                DpqlzMeta {
                    mlen: ((bytes[0] - 48) * 100 + (bytes[1] - 48) * 10 + (bytes[2] - 48)) as u64,
                    moffset: (bytes[3] - 48) as u8,
                    bwt_idx: ((bytes[4] - 48) * 1000 + (bytes[5] - 48) * 100 + (bytes[6] - 48) * 10
                        + (bytes[7] - 48)) as u64,
                },
                bytes.subrange(8, bytes.len() as int),
            ),
        )
    }
}

proof fn lemma_three_digits(v: int)
    requires
        0 <= v < 1000,
    ensures
        0 <= v / 100 < 10,
        0 <= v / 10 % 10 < 10,
        0 <= v % 10 < 10,
        (v / 100) * 100 + (v / 10 % 10) * 10 + v % 10 == v,
{
}

proof fn lemma_four_digits(v: int)
    requires
        0 <= v < 10000,
    ensures
        0 <= v / 1000 < 10,
        0 <= v / 100 % 10 < 10,
        0 <= v / 10 % 10 < 10,
        0 <= v % 10 < 10,
        (v / 1000) * 1000 + (v / 100 % 10) * 100 + (v / 10 % 10) * 10 + v % 10 == v,
{
}

/// Reading undoes writing: a header whose fields fit, followed by any
/// tokens, parses to those fields and those tokens.
pub proof fn lemma_blob_round_trip(len: int, offset: int, index: int, tokens: Seq<u8>)
    requires
        0 <= len,
        0 <= offset,
        0 <= index,
        fields_fit(len, offset, index),
    ensures
        parse_spec(blob_spec(len, offset, index, tokens)) == Some(
            (DpqlzMeta { mlen: len as u64, moffset: offset as u8, bwt_idx: index as u64 }, tokens),
        ),
{
    let header = header_spec(len, offset, index);
    let blob = blob_spec(len, offset, index, tokens);
    lemma_three_digits(len);
    lemma_four_digits(index);
    assert(blob.subrange(8, blob.len() as int) =~= tokens);
    assert(blob[0] == header[0] && blob[1] == header[1] && blob[2] == header[2] && blob[3]
        == header[3]);
    assert(blob[4] == header[4] && blob[5] == header[5] && blob[6] == header[6] && blob[7]
        == header[7]);
    assert(blob[0] - 48 == len / 100);
    assert(blob[1] - 48 == len / 10 % 10);
    assert(blob[2] - 48 == len % 10);
    assert(blob[3] - 48 == offset);
    assert(blob[4] - 48 == index / 1000);
    assert(blob[5] - 48 == index / 100 % 10);
    assert(blob[6] - 48 == index / 10 % 10);
    assert(blob[7] - 48 == index % 10);
    assert(forall|i: int| 0 <= i < 8 ==> is_digit(blob[i]));
}

/// The printable text that `base85::encode` makes of the given bytes.
pub uninterp spec fn base85_encoded(bytes: Seq<u8>) -> Seq<u8>;

/// The bytes that `base85::decode` reads from the given text, if it reads
/// any.
pub uninterp spec fn base85_decoded(text: Seq<u8>) -> Option<Seq<u8>>;

/// `base85::Error`, the error of the envelope coding; only carried through.
#[verifier::external_type_specification]
#[verifier::external_body]
pub struct ExEnvelopeError(base85::Error);

/// Whether the envelope decoder can be handed `text`: all of it is ASCII,
/// and no group of five starts with one of the three highest digits
/// (`|`, `}`, `~`), under which a group's value stays below 2^32.
pub open spec fn envelope_safe(text: Seq<u8>) -> bool {
    forall|i: int|
        0 <= i < text.len() ==> text[i] < 128 && (i % 5 == 0 ==> text[i] != 124 && text[i] != 125
            && text[i] != 126)
}

/// `base85::encode`: the printable form of `blob`. The contract names the
/// result, which depends on the bytes alone, and claims nothing else of it.
#[verifier::external_body]
fn envelope_encode(blob: &[u8]) -> (text: Vec<u8>)
    requires
        blob@.len() <= 1_000_000,
    ensures
        text@ == base85_encoded(blob@),
{
    base85::encode(blob).into_bytes()
}

/// `base85::decode`: the bytes behind the printable `text`, or the coding's
/// error. The contract names the result, which depends on the text alone;
/// it asks for ASCII text whose groups cannot exceed 32 bits, the inputs on
/// which the decoder's arithmetic stays in range.
#[verifier::external_body]
fn envelope_decode(text: &[u8]) -> (res: Result<Vec<u8>, base85::Error>)
    requires
        envelope_safe(text@),
    ensures
        match res {
            Ok(bytes) => base85_decoded(text@) == Some(bytes@),
            Err(_) => base85_decoded(text@) is None,
        },
{
    base85::decode(&String::from_utf8_lossy(text))
}

/// The alphabet of the linked chain: the sentinel, then the instructions.
pub open spec fn linked_alphabet_spec() -> Seq<u8> {
    seq![0u8] + alphabet_spec()
}

/// The instruction alphabet as a vector.
pub fn alphabet() -> (a: Vec<u8>)
    ensures
        a@ == alphabet_spec(),
{
    let mut a: Vec<u8> = Vec::new();
    a.push(100u8);
    a.push(105u8);
    a.push(114u8);
    a.push(111u8);
    a.push(112u8);
    a.push(113u8);
    a.push(108u8);
    assert(a@ =~= alphabet_spec());
    a
}

/// `index` is the rank of `m` itself among its sorted rotations.
pub open spec fn is_bwt_index(m: Seq<u8>, index: int) -> bool {
    exists|perm: Seq<usize>, transformed: Seq<u8>| #[trigger] is_bwt_of(m, perm, transformed, index)
}

/// The token stream of a program: move-to-front over the instruction
/// alphabet, then zero-run coding.
pub open spec fn compress_spec(program: Seq<u8>) -> Seq<u8> {
    rle_encode_spec(mtf_encode_spec(program, alphabet_spec()))
}

/// The program behind a token stream, where it has one.
pub open spec fn decompress_spec(tokens: Seq<u8>) -> Option<Seq<u8>> {
    if rle_fits(tokens) && indices_in_range(rle_decode_spec(tokens), 7) {
        Some(mtf_decode_spec(rle_decode_spec(tokens), alphabet_spec()))
    } else {
        None
    }
}

/// Decompressing undoes compressing, for every program written in the
/// instruction alphabet: its token stream is plain single-byte text and
/// decodes to the program.
pub proof fn lemma_compress_round_trip(program: Seq<u8>)
    requires
        drawn_from(program, alphabet_spec()),
        program.len() <= usize::MAX,
    ensures
        all_ascii(compress_spec(program)),
        decompress_spec(compress_spec(program)) == Some(program),
{
    let indices = mtf_encode_spec(program, alphabet_spec());
    lemma_mtf_round_trip(program, alphabet_spec());
    lemma_mtf_indices_in_range(program, alphabet_spec());
    lemma_rle_round_trip(indices);
    lemma_rle_tokens_bounded(indices, 0, 7);
}

/// Compresses a program: its rotation index is taken from the
/// Burrows-Wheeler transform of the program, and its tokens are the
/// program itself recoded by move-to-front and zero-run coding. The
/// transformed text does not enter the tokens.
pub fn compress(program: &[u8]) -> (res: (Vec<u8>, usize))
    requires
        program@.len() < usize::MAX,
    ensures
        res.0@ == compress_spec(program@),
        all_ascii(res.0@),
        is_bwt_index(with_sentinel(program@), res.1 as int),
{
    let (transformed, index) = bwt_encode(program);
    let ab = alphabet();
    proof {
        lemma_mtf_indices_in_range(program@, alphabet_spec());
        lemma_rle_tokens_bounded(mtf_encode_spec(program@, alphabet_spec()), 0, 7);
    }
    let indices = match mtf_encode(program, ab.as_slice()) {
        Ok(v) => v,
        Err(_) => Vec::new(),
    };
    let tokens = match rle_encode(&indices) {
        Ok(v) => v,
        Err(_) => Vec::new(),
    };
    assert(mtf_encode_spec(Seq::<u8>::empty(), alphabet_spec()) =~= Seq::<u8>::empty());
    (tokens, index)
}

/// Decompresses a token stream: zero-run decoding, then move-to-front
/// decoding over the instruction alphabet. The rotation index in `meta`
/// stays unused, as the transform never entered the tokens.
pub fn decompress(program: &Vec<u8>, meta: &DpqlzMeta) -> (res: Result<Vec<u8>, CodecError>)
    ensures
        match res {
            Ok(text) => decompress_spec(program@) == Some(text@),
            Err(e) => decompress_spec(program@) is None && (e == CodecError::RunOverflow
                <==> !rle_fits(program@)) && (e == CodecError::AlphabetMismatch <==> rle_fits(
                program@,
            )),
        },
{
    let indices = match rle_decode(program) {
        Ok(v) => v,
        Err(e) => {
            return Err(e);
        },
    };
    let ab = alphabet();
    mtf_decode(indices.as_slice(), ab.as_slice())
}

/// The alphabet of the linked chain as a vector.
pub fn linked_alphabet() -> (a: Vec<u8>)
    ensures
        a@ == linked_alphabet_spec(),
{
    let mut a: Vec<u8> = Vec::new();
    a.push(0u8);
    a.push(100u8);
    a.push(105u8);
    a.push(114u8);
    a.push(111u8);
    a.push(112u8);
    a.push(113u8);
    a.push(108u8);
    assert(a@ =~= linked_alphabet_spec());
    a
}

/// The token stream of the linked chain for a transformed text.
pub open spec fn linked_tokens(transformed: Seq<u8>) -> Seq<u8> {
    rle_encode_spec(mtf_encode_spec(transformed, linked_alphabet_spec()))
}

/// Compresses a program in the linked chain: the Burrows-Wheeler
/// transform of the program, sentinel included, is what move-to-front and
/// zero-run coding recode.
pub fn compress_linked(program: &[u8]) -> (res: (Vec<u8>, usize))
    requires
        program@.len() < usize::MAX,
    ensures
        exists|perm: Seq<usize>, transformed: Seq<u8>| #[trigger]
            is_bwt_of(with_sentinel(program@), perm, transformed, res.1 as int) && res.0@
                == linked_tokens(transformed),
        all_ascii(res.0@),
{
    let (transformed, index) = bwt_encode(program);
    let ab = linked_alphabet();
    proof {
        lemma_mtf_indices_in_range(transformed@, linked_alphabet_spec());
        lemma_rle_tokens_bounded(mtf_encode_spec(transformed@, linked_alphabet_spec()), 0, 8);
    }
    let indices = match mtf_encode(transformed.as_slice(), ab.as_slice()) {
        Ok(v) => v,
        Err(_) => Vec::new(),
    };
    let tokens = match rle_encode(&indices) {
        Ok(v) => v,
        Err(_) => Vec::new(),
    };
    let res = (tokens, index);
    proof {
        let perm = choose|perm: Seq<usize>| #[trigger]
            is_bwt_of(with_sentinel(program@), perm, transformed@, index as int);
        assert(is_bwt_of(with_sentinel(program@), perm, transformed@, res.1 as int) && res.0@
            == linked_tokens(transformed@));
    }
    res
}

/// The transformed text behind a token stream of the linked chain, where
/// it has one.
pub open spec fn linked_text(tokens: Seq<u8>) -> Option<Seq<u8>> {
    if rle_fits(tokens) && indices_in_range(rle_decode_spec(tokens), 8) {
        Some(mtf_decode_spec(rle_decode_spec(tokens), linked_alphabet_spec()))
    } else {
        None
    }
}

/// The linked chain loses nothing: for every program written in the
/// instruction alphabet, the tokens decode to the transformed text, and
/// the inverse transform of that text, less its sentinel, is the program.
pub proof fn lemma_linked_round_trip(
    program: Seq<u8>,
    perm: Seq<usize>,
    transformed: Seq<u8>,
    index: int,
    perm2: Seq<usize>,
    message: Seq<u8>,
)
    requires
        drawn_from(program, alphabet_spec()),
        program.len() < usize::MAX,
        is_bwt_of(with_sentinel(program), perm, transformed, index),
        is_inverse_bwt_of(transformed, perm2, index, message),
    ensures
        linked_text(linked_tokens(transformed)) == Some(transformed),
        message.drop_last() == program,
{
    let m = with_sentinel(program);
    let ab = alphabet_spec();
    let lab = linked_alphabet_spec();
    assert(sentinel_free(program)) by {
        assert forall|i: int| 0 <= i < program.len() implies program[i] != SENTINEL by {
            assert(ab.contains(program[i]));
        }
    }
    lemma_bwt_round_trip(program, perm, transformed, index, perm2, message);
    assert(m.drop_last() =~= program);
    lemma_transformed_bytes(m, perm, transformed, index);
    assert(drawn_from(transformed, lab)) by {
        assert forall|k: int| 0 <= k < transformed.len() implies lab.contains(
            transformed[k],
        ) by {
            let c = transformed[k];
            assert(m.contains(c));
            let i = choose|i: int| 0 <= i < m.len() && m[i] == c;
            if i < program.len() {
                assert(ab.contains(program[i]));
                let j = choose|j: int| 0 <= j < ab.len() && ab[j] == c;
                assert(lab[j + 1] == c);
            } else {
                assert(lab[0] == c);
            }
        }
    }
    let indices = mtf_encode_spec(transformed, lab);
    lemma_mtf_round_trip(transformed, lab);
    lemma_mtf_indices_in_range(transformed, lab);
    lemma_rle_round_trip(indices);
}

/// Decompresses a token stream of the linked chain: zero-run decoding,
/// move-to-front decoding, then the inverse transform from the rotation
/// index in `meta`; the result is the message without its last byte, the
/// sentinel. A rotation index beyond the text is refused, and so is an
/// empty text, which has no sentinel.
pub fn decompress_linked(program: &Vec<u8>, meta: &DpqlzMeta) -> (res: Result<
    Vec<u8>,
    CodecError,
>)
    ensures
        match res {
            Ok(text) => exists|perm: Seq<usize>, message: Seq<u8>|
                linked_text(program@) is Some && #[trigger] is_inverse_bwt_of(
                    linked_text(program@)->0,
                    perm,
                    meta.bwt_idx as int,
                    message,
                ) && meta.bwt_idx < message.len() && text@ == message.drop_last(),
            Err(e) => match linked_text(program@) {
                None => (e == CodecError::RunOverflow <==> !rle_fits(program@)) && (e
                    == CodecError::AlphabetMismatch <==> rle_fits(program@)),
                Some(transformed) => e == CodecError::MalformedContainer && meta.bwt_idx
                    >= transformed.len(),
            },
        },
{
    let indices = match rle_decode(program) {
        Ok(v) => v,
        Err(e) => {
            return Err(e);
        },
    };
    let ab = linked_alphabet();
    let transformed = match mtf_decode(indices.as_slice(), ab.as_slice()) {
        Ok(v) => v,
        Err(e) => {
            return Err(e);
        },
    };
    if meta.bwt_idx >= transformed.len() as u64 {
        return Err(CodecError::MalformedContainer);
    }
    let mut message = bwt_decode(transformed.as_slice(), meta.bwt_idx as usize);
    let ghost whole = message@;
    proof {
        let perm = choose|perm: Seq<usize>| #[trigger]
            is_inverse_bwt_of(transformed@, perm, meta.bwt_idx as int, whole);
        lemma_walk_len(transformed@, perm, meta.bwt_idx as int, transformed@.len());
        assert(is_inverse_bwt_of(linked_text(program@)->0, perm, meta.bwt_idx as int, whole));
    }
    message.pop();
    Ok(message)
}

/// The instructions that print the byte `c` and step right: `c` times
/// `i`, then `o`, then `r`.
pub open spec fn print_byte(c: u8) -> Seq<u8> {
    Seq::new(c as nat, |i: int| 105u8) + seq![111u8, 114u8]
}

/// The instructions that print each byte of `text` in turn.
pub open spec fn print_all(text: Seq<u8>) -> Seq<u8>
    decreases text.len(),
{
    if text.len() == 0 {
        Seq::empty()
    } else {
        print_all(text.drop_last()) + print_byte(text.last())
    }
}

/// The program for `text`: a step right, then the instructions that
/// print each byte.
pub open spec fn program_for(text: Seq<u8>) -> Seq<u8> {
    seq![114u8] + print_all(text)
}

proof fn lemma_run_increments(
    prog: Seq<u8>,
    cells: Seq<u8>,
    mp: int,
    ip: int,
    out: Seq<u8>,
    fuel: nat,
    c: nat,
)
    requires
        0 <= mp < cells.len(),
        0 <= ip,
        ip + c <= prog.len(),
        forall|x: int| ip <= x < ip + c ==> prog[x] == 105u8,
        cells[mp] + c <= 255,
        fuel >= c,
    ensures
        run_spec(prog, cells, mp, ip, out, fuel) == run_spec(
            prog,
            cells.update(mp, (cells[mp] + c) as u8),
            mp,
            ip + c,
            out,
            (fuel - c) as nat,
        ),
    decreases c,
{
    if c == 0 {
        assert(cells.update(mp, cells[mp]) =~= cells);
    } else {
        let next = cells.update(mp, bump(cells[mp]));
        assert(prog[ip] == 105u8);
        lemma_run_increments(prog, next, mp, ip + 1, out, (fuel - 1) as nat, (c - 1) as nat);
        assert(next.update(mp, (next[mp] + (c - 1)) as u8) =~= cells.update(
            mp,
            (cells[mp] + c) as u8,
        ));
    }
}

proof fn lemma_program_grows(text: Seq<u8>, j: int)
    requires
        0 <= j < text.len(),
    ensures
        program_for(text.subrange(0, j + 1)) == program_for(text.subrange(0, j)) + print_byte(
            text[j],
        ),
{
    let t = text.subrange(0, j + 1);
    assert(t.drop_last() =~= text.subrange(0, j));
    assert(t.last() == text[j]);
    assert(program_for(t) =~= program_for(text.subrange(0, j)) + print_byte(text[j]));
}

proof fn lemma_program_prefix(text: Seq<u8>, j: int, k: int)
    requires
        0 <= j <= k <= text.len(),
    ensures
        program_for(text.subrange(0, j)).len() <= program_for(text.subrange(0, k)).len(),
        program_for(text.subrange(0, k)).subrange(
            0,
            program_for(text.subrange(0, j)).len() as int,
        ) == program_for(text.subrange(0, j)),
    decreases k - j,
{
    let pj = program_for(text.subrange(0, j));
    if j == k {
        assert(pj.subrange(0, pj.len() as int) =~= pj);
    } else {
        lemma_program_prefix(text, j, k - 1);
        lemma_program_grows(text, k - 1);
        let pk1 = program_for(text.subrange(0, k - 1));
        let pk = program_for(text.subrange(0, k));
        assert(pk.subrange(0, pj.len() as int) =~= pk1.subrange(0, pj.len() as int));
    }
}

proof fn lemma_run_blocks(text: Seq<u8>, cells: Seq<u8>, j: int, fuel: nat)
    requires
        text.len() < MEMORY_SIZE,
        cells.len() == MEMORY_SIZE,
        0 <= j <= text.len(),
        forall|x: int| j < x < cells.len() ==> cells[x] == 0,
        fuel + program_for(text.subrange(0, j)).len() >= program_for(text).len(),
    ensures
        run_spec(
            program_for(text),
            cells,
            j + 1,
            program_for(text.subrange(0, j)).len() as int,
            text.subrange(0, j),
            fuel,
        ) == Some(text),
    decreases text.len() - j,
{
    let prog = program_for(text);
    let pj = program_for(text.subrange(0, j));
    let ip = pj.len() as int;
    assert(text.subrange(0, text.len() as int) =~= text);
    if j == text.len() {
        assert(text.subrange(0, j) =~= text);
    } else {
        let c = text[j];
        let pj1 = program_for(text.subrange(0, j + 1));
        lemma_program_grows(text, j);
        lemma_program_prefix(text, j + 1, text.len() as int);
        assert forall|x: int| 0 <= x < pj1.len() implies prog[x] == pj1[x] by {
            assert(prog.subrange(0, pj1.len() as int)[x] == prog[x]);
        }
        assert forall|x: int| ip <= x < ip + c implies prog[x] == 105u8 by {
            assert(pj1[x] == print_byte(c)[x - ip]);
        }
        assert(prog[ip + c] == 111u8) by {
            assert(pj1[ip + c] == print_byte(c)[c as int]);
        }
        assert(prog[ip + c + 1] == 114u8) by {
            assert(pj1[ip + c + 1] == print_byte(c)[c + 1]);
        }
        assert(pj1.len() == ip + c + 2);
        let mp = j + 1;
        lemma_run_increments(prog, cells, mp, ip, text.subrange(0, j), fuel, c as nat);
        let cells2 = cells.update(mp, c);
        let out2 = text.subrange(0, j).push(c);
        assert(out2 =~= text.subrange(0, j + 1));
        let mp2 = (mp + 1) % (MEMORY_SIZE as int);
        assert(run_spec(prog, cells2, mp, ip + c, text.subrange(0, j), (fuel - c) as nat)
            == run_spec(prog, cells2, mp, ip + c + 1, out2, (fuel - c - 1) as nat));
        assert(run_spec(prog, cells2, mp, ip + c + 1, out2, (fuel - c - 1) as nat) == run_spec(
            prog,
            cells2,
            mp2,
            ip + c + 2,
            out2,
            (fuel - c - 2) as nat,
        ));
        if j + 1 < text.len() {
            assert(mp2 == j + 2);
            lemma_run_blocks(text, cells2, j + 1, (fuel - c - 2) as nat);
        } else {
            assert(pj1 =~= prog) by {
                assert(text.subrange(0, j + 1) =~= text);
            }
        }
    }
}

/// The program written for a text prints that text: for every text
/// shorter than the tape, and with fuel for every instruction of the
/// program.
pub proof fn lemma_program_prints_text(text: Seq<u8>, fuel: nat)
    requires
        text.len() < MEMORY_SIZE,
        fuel >= program_for(text).len(),
    ensures
        output_of(program_for(text), fuel) == Some(text),
{
    let prog = program_for(text);
    let start = program_for(text.subrange(0, 0));
    assert(text.subrange(0, 0) =~= Seq::<u8>::empty());
    assert(start =~= seq![114u8]);
    lemma_program_prefix(text, 0, text.len() as int);
    assert(text.subrange(0, text.len() as int) =~= text);
    assert(prog[0] == 114u8) by {
        assert(prog.subrange(0, 1)[0] == prog[0]);
    }
    lemma_run_blocks(text, blank_tape(), 0, (fuel - 1) as nat);
}

/// Writes the instruction program that prints `text`: `r`, and for each
/// byte as many `i` as its value, then `o` and `r`.
pub fn write_diropql(text: &[u8]) -> (program: Vec<u8>)
    ensures
        program@ == program_for(text@),
{
    let mut program: Vec<u8> = Vec::new();
    program.push(114u8);
    let n = text.len();
    let mut k: usize = 0;
    assert(program@ =~= seq![114u8] + print_all(text@.subrange(0, 0)));
    while k < n
        invariant
            k <= n,
            n == text.len(),
            program@ == seq![114u8] + print_all(text@.subrange(0, k as int)),
        decreases n - k,
    {
        let c = text[k];
        let ghost before = program@;
        let mut j: u8 = 0;
        while j < c
            invariant
                j <= c,
                program@ == before + Seq::new(j as nat, |i: int| 105u8),
            decreases c - j,
        {
            program.push(105u8);
            j = j + 1;
            assert(program@ =~= before + Seq::new(j as nat, |i: int| 105u8));
        }
        program.push(111u8);
        program.push(114u8);
        proof {
            let upto = text@.subrange(0, k + 1);
            assert(upto.drop_last() =~= text@.subrange(0, k as int));
            assert(upto.last() == c);
            assert(program@ =~= seq![114u8] + (print_all(upto.drop_last()) + print_byte(c)));
        }
        k = k + 1;
    }
    assert(text@.subrange(0, n as int) =~= text@);
    program
}

/// Every byte of a written program is an instruction.
proof fn lemma_program_in_alphabet(text: Seq<u8>)
    ensures
        drawn_from(program_for(text), alphabet_spec()),
    decreases text.len(),
{
    let ab = alphabet_spec();
    assert(ab[1] == 105u8 && ab[2] == 114u8 && ab[3] == 111u8);
    assert(ab.contains(105u8) && ab.contains(114u8) && ab.contains(111u8));
    if text.len() > 0 {
        lemma_program_in_alphabet(text.drop_last());
        let p = program_for(text);
        let q = program_for(text.drop_last());
        assert(p =~= q + print_byte(text.last()));
        assert forall|i: int| 0 <= i < p.len() implies ab.contains(p[i]) by {
            if i < q.len() {
                assert(p[i] == q[i]);
            }
        }
    } else {
        assert(program_for(text) =~= seq![114u8]);
    }
}

/// The ASCII digit of a value below ten.
fn digit_of(d: u64) -> (b: u8)
    requires
        d < 10,
    ensures
        b == digit(d as int),
{
    48u8 + (d as u8)
}

/// The value of an ASCII digit.
fn digit_value(b: u8) -> (v: u64)
    requires
        is_digit(b),
    ensures
        v == b - 48,
{
    (b - 48u8) as u64
}

/// Packs tokens into a container: the header holds the number of tokens
/// in three digits, `meta.moffset` in one and `meta.bwt_idx` in four; the
/// tokens follow as they are; the envelope coding makes the whole printable
/// and the magic marker goes in front. A field too large for its digits is
/// refused, and so is a token that is no single-byte text value.
pub fn write_meta(meta: &DpqlzMeta, program: Vec<u8>) -> (res: Result<Vec<u8>, CodecError>)
    ensures
        match res {
            Ok(text) => fields_fit(program@.len() as int, meta.moffset as int, meta.bwt_idx as int)
                && all_ascii(program@) && text@ == magic_spec() + base85_encoded(
                blob_spec(
                    program@.len() as int,
                    meta.moffset as int,
                    meta.bwt_idx as int,
                    program@,
                ),
            ),
            Err(e) => if !fields_fit(
                program@.len() as int,
                meta.moffset as int,
                meta.bwt_idx as int,
            ) {
                e == CodecError::FieldOverflow
            } else {
                e == CodecError::MalformedContainer && !all_ascii(program@)
            },
        },
{
    let n = program.len();
    if n >= 1000 || meta.moffset > 7 || meta.bwt_idx >= 10000 {
        return Err(CodecError::FieldOverflow);
    }
    let len = n as u64;
    let off = meta.moffset as u64;
    let idx = meta.bwt_idx;
    let mut blob: Vec<u8> = Vec::new();
    blob.push(digit_of(len / 100));
    blob.push(digit_of(len / 10 % 10));
    blob.push(digit_of(len % 10));
    blob.push(digit_of(off));
    blob.push(digit_of(idx / 1000));
    blob.push(digit_of(idx / 100 % 10));
    blob.push(digit_of(idx / 10 % 10));
    blob.push(digit_of(idx % 10));
    let ghost header = header_spec(len as int, off as int, idx as int);
    assert(blob@ =~= header);
    let mut i: usize = 0;
    while i < n
        invariant
            i <= n,
            n == program.len(),
            n < 1000,
            meta.moffset <= 7,
            meta.bwt_idx < 10000,
            blob@ == header + program@.subrange(0, i as int),
            forall|j: int| 0 <= j < i ==> program@[j] < 128,
        decreases n - i,
    {
        let t = program[i];
        if t >= 128 {
            return Err(CodecError::MalformedContainer);
        }
        blob.push(t);
        i = i + 1;
        assert(blob@ =~= header + program@.subrange(0, i as int));
    }
    assert(program@.subrange(0, n as int) =~= program@);
    let body = envelope_encode(blob.as_slice());
    let mut out: Vec<u8> = Vec::new();
    out.push(68u8);
    out.push(73u8);
    out.push(82u8);
    out.push(79u8);
    out.push(80u8);
    out.push(81u8);
    out.push(76u8);
    out.push(90u8);
    assert(out@ =~= magic_spec());
    let mut k: usize = 0;
    while k < body.len()
        invariant
            k <= body.len(),
            out@ == magic_spec() + body@.subrange(0, k as int),
        decreases body.len() - k,
    {
        out.push(body[k]);
        k = k + 1;
        assert(out@ =~= magic_spec() + body@.subrange(0, k as int));
    }
    assert(body@.subrange(0, k as int) =~= body@);
    Ok(out)
}

/// Reads the bytes inside an envelope: the three header fields at their
/// fixed places, as written, and the tokens behind them. A header that is
/// short or holds anything but digits is refused.
pub fn parse_blob(bytes: &[u8]) -> (res: Result<(DpqlzMeta, Vec<u8>), CodecError>)
    ensures
        match res {
            Ok(pair) => parse_spec(bytes@) == Some((pair.0, pair.1@)),
            Err(e) => e == CodecError::MalformedContainer && parse_spec(bytes@) is None,
        },
{
    let n = bytes.len();
    if n < 8 {
        return Err(CodecError::MalformedContainer);
    }
    let mut i: usize = 0;
    while i < 8
        invariant
            i <= 8,
            n == bytes.len(),
            n >= 8,
            forall|j: int| 0 <= j < i ==> is_digit(bytes@[j]),
        decreases 8 - i,
    {
        if bytes[i] < 48 || bytes[i] > 57 {
            return Err(CodecError::MalformedContainer);
        }
        i = i + 1;
    }
    let mlen = digit_value(bytes[0]) * 100 + digit_value(bytes[1]) * 10 + digit_value(bytes[2]);
    let moffset = bytes[3] - 48u8;
    let bwt_idx = digit_value(bytes[4]) * 1000 + digit_value(bytes[5]) * 100 + digit_value(
        bytes[6],
    ) * 10 + digit_value(bytes[7]);
    let mut tokens: Vec<u8> = Vec::new();
    let mut k: usize = 8;
    assert(tokens@ =~= bytes@.subrange(8, 8));
    while k < n
        invariant
            8 <= k <= n,
            n == bytes.len(),
            tokens@ == bytes@.subrange(8, k as int),
        decreases n - k,
    {
        tokens.push(bytes[k]);
        k = k + 1;
        assert(tokens@ =~= bytes@.subrange(8, k as int));
    }
    Ok((DpqlzMeta { mlen, moffset, bwt_idx }, tokens))
}

/// What a printable envelope holds: nothing unless the text is safe to
/// hand to the decoder, decodes, and decodes to single-byte text with a
/// well-formed header.
pub open spec fn read_meta_spec(text: Seq<u8>) -> Option<(DpqlzMeta, Seq<u8>)> {
    if !envelope_safe(text) {
        None
    } else {
        match base85_decoded(text) {
            None => None,
            Some(bytes) => if all_ascii(bytes) {
                parse_spec(bytes)
            } else {
                None
            },
        }
    }
}

/// Whether the envelope decoder can be handed `text`.
fn check_envelope(text: &[u8]) -> (ok: bool)
    ensures
        ok == envelope_safe(text@),
{
    let n = text.len();
    let mut i: usize = 0;
    while i < n
        invariant
            i <= n,
            n == text.len(),
            forall|j: int|
                0 <= j < i ==> text@[j] < 128 && (j % 5 == 0 ==> text@[j] != 124 && text@[j] != 125
                    && text@[j] != 126),
        decreases n - i,
    {
        let b = text[i];
        if b >= 128 || (i % 5 == 0 && (b == 124 || b == 125 || b == 126)) {
            return false;
        }
        i = i + 1;
    }
    true
}

/// Whether every byte is a single-byte text value.
fn check_ascii(bytes: &[u8]) -> (ok: bool)
    ensures
        ok == all_ascii(bytes@),
{
    let n = bytes.len();
    let mut i: usize = 0;
    while i < n
        invariant
            i <= n,
            n == bytes.len(),
            forall|j: int| 0 <= j < i ==> bytes@[j] < 128,
        decreases n - i,
    {
        if bytes[i] >= 128 {
            return false;
        }
        i = i + 1;
    }
    true
}

/// Unpacks a container whose magic marker has been taken off: the
/// envelope is decoded, the bytes are checked to be text, and the header
/// fields and the tokens are read from them.
pub fn read_meta(program: &[u8]) -> (res: Result<(DpqlzMeta, Vec<u8>), CodecError>)
    ensures
        match res {
            Ok(pair) => read_meta_spec(program@) == Some((pair.0, pair.1@)),
            Err(e) => e == CodecError::MalformedContainer && read_meta_spec(program@) is None,
        },
{
    if !check_envelope(program) {
        return Err(CodecError::MalformedContainer);
    }
    let bytes = match envelope_decode(program) {
        Ok(b) => b,
        Err(_) => {
            return Err(CodecError::MalformedContainer);
        },
    };
    if !check_ascii(bytes.as_slice()) {
        return Err(CodecError::MalformedContainer);
    }
    parse_blob(bytes.as_slice())
}

/// The container for `text`: its instruction program, compressed, with
/// the number of tokens, that number modulo 8 and the rotation index in
/// the header. A program too long for the machine, or for the header, is
/// refused.
pub fn write_diropqlz(text: &[u8]) -> (res: Result<Vec<u8>, CodecError>)
    ensures
        match res {
            Ok(out) => exists|index: int| #[trigger]
                is_bwt_index(with_sentinel(program_for(text@)), index) && index < 10000 && {
                    let tokens = compress_spec(program_for(text@));
                    tokens.len() < 1000 && out@ == magic_spec() + base85_encoded(
                        blob_spec(tokens.len() as int, (tokens.len() % 8) as int, index, tokens),
                    )
                },
            Err(e) => e == CodecError::FieldOverflow && (program_for(text@).len() >= usize::MAX
                || compress_spec(program_for(text@)).len() >= 1000 || exists|index: int| #[trigger]
                is_bwt_index(with_sentinel(program_for(text@)), index) && index >= 10000),
        },
{
    let program = write_diropql(text);
    if program.len() == usize::MAX {
        return Err(CodecError::FieldOverflow);
    }
    let (tokens, index) = compress(program.as_slice());
    let n = tokens.len();
    assert(is_bwt_index(with_sentinel(program_for(text@)), index as int));
    if n >= 1000 || index >= 10000 {
        return Err(CodecError::FieldOverflow);
    }
    let meta = DpqlzMeta { mlen: n as u64, moffset: (n % 8) as u8, bwt_idx: index as u64 };
    write_meta(&meta, tokens)
}

/// What is compressed can be decompressed: the token stream of the
/// program for any text is plain single-byte text and decodes to that
/// program.
pub proof fn lemma_program_round_trip(text: Seq<u8>)
    requires
        program_for(text).len() <= usize::MAX,
    ensures
        all_ascii(compress_spec(program_for(text))),
        decompress_spec(compress_spec(program_for(text))) == Some(program_for(text)),
{
    lemma_program_in_alphabet(text);
    lemma_compress_round_trip(program_for(text));
}

/// What stands behind the magic marker of a container: the header fields
/// and the tokens, or nothing where the marker or the envelope is wrong.
pub open spec fn envelope_of(container: Seq<u8>) -> Option<(DpqlzMeta, Seq<u8>)> {
    if container.len() < 8 || container.subrange(0, 8) != magic_spec() {
        None
    } else {
        read_meta_spec(container.subrange(8, container.len() as int))
    }
}

/// The program that a container holds: nothing unless it opens with the
/// magic marker, its envelope reads as a header and tokens, and the
/// tokens decompress.
pub open spec fn read_program_spec(container: Seq<u8>) -> Option<Seq<u8>> {
    match envelope_of(container) {
        None => None,
        Some(pair) => decompress_spec(pair.1),
    }
}

/// Opens a container and returns the instruction program in it: the
/// magic marker is checked and taken off, the envelope unpacked and the
/// tokens decompressed. Any failure is returned as it arose.
pub fn read_program(program: &[u8]) -> (res: Result<Vec<u8>, CodecError>)
    ensures
        match res {
            Ok(text) => read_program_spec(program@) == Some(text@),
            Err(e) => read_program_spec(program@) is None && match envelope_of(program@) {
                None => e == CodecError::MalformedContainer,
                Some(pair) => (e == CodecError::RunOverflow <==> !rle_fits(pair.1)) && (e
                    == CodecError::AlphabetMismatch <==> rle_fits(pair.1)),
            },
        },
{
    let n = program.len();
    if n < 8 {
        return Err(CodecError::MalformedContainer);
    }
    if program[0] != 68 || program[1] != 73 || program[2] != 82 || program[3] != 79 || program[4]
        != 80 || program[5] != 81 || program[6] != 76 || program[7] != 90 {
        assert(program@.subrange(0, 8)[0] == program@[0]);
        assert(program@.subrange(0, 8)[1] == program@[1]);
        assert(program@.subrange(0, 8)[2] == program@[2]);
        assert(program@.subrange(0, 8)[3] == program@[3]);
        assert(program@.subrange(0, 8)[4] == program@[4]);
        assert(program@.subrange(0, 8)[5] == program@[5]);
        assert(program@.subrange(0, 8)[6] == program@[6]);
        assert(program@.subrange(0, 8)[7] == program@[7]);
        return Err(CodecError::MalformedContainer);
    }
    assert(program@.subrange(0, 8) =~= magic_spec());
    let mut body: Vec<u8> = Vec::new();
    let mut k: usize = 8;
    assert(body@ =~= program@.subrange(8, 8));
    while k < n
        invariant
            8 <= k <= n,
            n == program.len(),
            body@ == program@.subrange(8, k as int),
        decreases n - k,
    {
        body.push(program[k]);
        k = k + 1;
        assert(body@ =~= program@.subrange(8, k as int));
    }
    let (meta, tokens) = match read_meta(body.as_slice()) {
        Ok(pair) => pair,
        Err(e) => {
            return Err(e);
        },
    };
    decompress(&tokens, &meta)
}

/// The text that a container stands for: what the program in it prints
/// within `fuel` instructions.
pub open spec fn read_diropqlz_spec(container: Seq<u8>, fuel: nat) -> Option<Seq<u8>> {
    match read_program_spec(container) {
        None => None,
        Some(prog) => output_of(prog, fuel),
    }
}

/// Opens a container and runs the program in it for at most `max_steps`
/// instructions: the result is the text that the program prints. A failure
/// of the container or of a stage is returned as it arose; a program that
/// does not come to its end is a fault of the program.
pub fn read_diropqlz(program: &[u8], max_steps: usize) -> (res: Result<Vec<u8>, CodecError>)
    ensures
        match res {
            Ok(text) => read_diropqlz_spec(program@, max_steps as nat) == Some(text@),
            Err(e) => read_diropqlz_spec(program@, max_steps as nat) is None && match envelope_of(
                program@,
            ) {
                None => e == CodecError::MalformedContainer,
                Some(pair) => match decompress_spec(pair.1) {
                    None => (e == CodecError::RunOverflow <==> !rle_fits(pair.1)) && (e
                        == CodecError::AlphabetMismatch <==> rle_fits(pair.1)),
                    Some(_) => e == CodecError::ProgramFault,
                },
            },
        },
{
    let prog = match read_program(program) {
        Ok(p) => p,
        Err(e) => {
            return Err(e);
        },
    };
    match read_diropql(prog.as_slice(), max_steps) {
        Some(text) => Ok(text),
        None => Err(CodecError::ProgramFault),
    }
}

} // verus!
