//! Move-to-front recoding over an explicit, ordered alphabet.
use vstd::prelude::*;
use crate::error::CodecError;

verus! {

/// The first position of `c` in `l` at or after `i`, or 0 where there is none.
pub open spec fn position_from(l: Seq<u8>, c: u8, i: int) -> int
    decreases l.len() - i,
{
    if i < 0 || i >= l.len() {
        0
    } else if l[i] == c {
        i
    } else {
        position_from(l, c, i + 1)
    }
}

/// The position that stands for `c`: its first one, or 0 if `c` is absent.
pub open spec fn mtf_position(l: Seq<u8>, c: u8) -> int {
    position_from(l, c, 0)
}

/// `l` with the entry at `idx` taken out and put first.
pub open spec fn move_to_front(l: Seq<u8>, idx: int) -> Seq<u8> {
    l.remove(idx).insert(0, l[idx])
}

/// An alphabet has a position 0, and every position fits a byte.
pub open spec fn alphabet_usable(l: Seq<u8>) -> bool {
    0 < l.len() <= 256
}

/// The indices of `s`, starting from the list `l`.
pub open spec fn mtf_encode_spec(s: Seq<u8>, l: Seq<u8>) -> Seq<u8>
    decreases s.len(),
{
    if s.len() == 0 {
        Seq::empty()
    } else {
        let idx = mtf_position(l, s[0]);
        seq![idx as u8] + mtf_encode_spec(s.drop_first(), move_to_front(l, idx))
    }
}

/// Every index of `d` is a position of an alphabet of `size` entries.
pub open spec fn indices_in_range(d: Seq<u8>, size: nat) -> bool {
    forall|i: int| 0 <= i < d.len() ==> d[i] < size
}

/// The bytes that the indices `d` stand for, starting from the list `l`.
pub open spec fn mtf_decode_spec(d: Seq<u8>, l: Seq<u8>) -> Seq<u8>
    decreases d.len(),
{
    if d.len() == 0 {
        Seq::empty()
    } else {
        seq![l[d[0] as int]] + mtf_decode_spec(d.drop_first(), move_to_front(l, d[0] as int))
    }
}

/// Every byte of `s` occurs in `l`.
pub open spec fn drawn_from(s: Seq<u8>, l: Seq<u8>) -> bool {
    forall|i: int| 0 <= i < s.len() ==> l.contains(s[i])
}

proof fn lemma_position_from(l: Seq<u8>, c: u8, i: int)
    requires
        0 <= i <= l.len(),
    ensures
        (exists|j: int| i <= j < l.len() && l[j] == c) ==> i <= position_from(l, c, i) < l.len()
            && l[position_from(l, c, i)] == c,
    decreases l.len() - i,
{
    if i < l.len() && l[i] != c {
        lemma_position_from(l, c, i + 1);
    }
}

proof fn lemma_position_bound(l: Seq<u8>, c: u8, i: int)
    requires
        0 <= i <= l.len(),
        l.len() > 0,
    ensures
        0 <= position_from(l, c, i) < l.len(),
    decreases l.len() - i,
{
    if i < l.len() && l[i] != c {
        lemma_position_bound(l, c, i + 1);
    }
}

proof fn lemma_move_keeps_members(l: Seq<u8>, idx: int, s: Seq<u8>)
    requires
        0 <= idx < l.len(),
        drawn_from(s, l),
    ensures
        drawn_from(s, move_to_front(l, idx)),
        move_to_front(l, idx).len() == l.len(),
{
    let m = move_to_front(l, idx);
    assert forall|i: int| 0 <= i < s.len() implies m.contains(s[i]) by {
        assert(l.contains(s[i]));
        let j = choose|j: int| 0 <= j < l.len() && l[j] == s[i];
        if j == idx {
            assert(m[0] == s[i]);
        } else if j < idx {
            assert(m[j + 1] == s[i]);
        } else {
            assert(m[j] == s[i]);
        }
    }
}

/// Every index that encoding writes is a position of the alphabet.
pub proof fn lemma_mtf_indices_in_range(s: Seq<u8>, l: Seq<u8>)
    requires
        alphabet_usable(l),
    ensures
        indices_in_range(mtf_encode_spec(s, l), l.len()),
        mtf_encode_spec(s, l).len() == s.len(),
    decreases s.len(),
{
    if s.len() > 0 {
        let idx = mtf_position(l, s[0]);
        lemma_position_bound(l, s[0], 0);
        lemma_mtf_indices_in_range(s.drop_first(), move_to_front(l, idx));
        let enc = mtf_encode_spec(s, l);
        let tail = mtf_encode_spec(s.drop_first(), move_to_front(l, idx));
        assert forall|i: int| 0 <= i < enc.len() implies enc[i] < l.len() by {
            if i > 0 {
                assert(enc[i] == tail[i - 1]);
            }
        }
    }
}

/// Decoding undoes encoding: for every text drawn from the alphabet, and
/// both sides starting from the same alphabet in the same order, the
/// indices are all in range and decode to the text.
pub proof fn lemma_mtf_round_trip(s: Seq<u8>, l: Seq<u8>)
    requires
        drawn_from(s, l),
        l.len() <= 256,
    ensures
        indices_in_range(mtf_encode_spec(s, l), l.len()),
        mtf_decode_spec(mtf_encode_spec(s, l), l) == s,
    decreases s.len(),
{
    if s.len() > 0 {
        let idx = mtf_position(l, s[0]);
        assert(l.contains(s[0]));
        lemma_position_from(l, s[0], 0);
        let next = move_to_front(l, idx);
        assert(drawn_from(s.drop_first(), l)) by {
            assert forall|i: int| 0 <= i < s.drop_first().len() implies l.contains(
                s.drop_first()[i],
            ) by {
                assert(s.drop_first()[i] == s[i + 1]);
            }
        }
        lemma_move_keeps_members(l, idx, s.drop_first());
        lemma_mtf_round_trip(s.drop_first(), next);
        let enc = mtf_encode_spec(s, l);
        let tail = mtf_encode_spec(s.drop_first(), next);
        assert(enc.drop_first() =~= tail);
        assert(enc[0] == idx as u8);
        assert(mtf_decode_spec(enc, l) =~= seq![s[0]] + s.drop_first());
        assert(seq![s[0]] + s.drop_first() =~= s);
    }
}

/// Where `c` stands in `lst`: its first position, or 0 if it is absent.
fn find_position(lst: &Vec<u8>, c: u8) -> (idx: usize)
    ensures
        idx == mtf_position(lst@, c),
{
    let mut j: usize = 0;
    while j < lst.len()
        invariant
            j <= lst.len(),
            mtf_position(lst@, c) == position_from(lst@, c, j as int),
        decreases lst.len() - j,
    {
        if lst[j] == c {
            return j;
        }
        j = j + 1;
    }
    0
}

/// A list that starts as the alphabet.
fn alphabet_list(alphabet: &[u8]) -> (lst: Vec<u8>)
    ensures
        lst@ == alphabet@,
{
    let mut lst: Vec<u8> = Vec::new();
    let mut j: usize = 0;
    while j < alphabet.len()
        invariant
            j <= alphabet.len(),
            lst@ == alphabet@.subrange(0, j as int),
        decreases alphabet.len() - j,
    {
        lst.push(alphabet[j]);
        j = j + 1;
        assert(lst@ =~= alphabet@.subrange(0, j as int));
    }
    assert(alphabet@.subrange(0, j as int) =~= alphabet@);
    lst
}

/// Recodes `text` as positions in a list that starts as `alphabet`: each
/// byte yields its current position (0 if it is absent) and the entry at
/// that position moves to the front. A non-empty text needs an alphabet
/// with one to 256 entries.
pub fn mtf_encode(text: &[u8], alphabet: &[u8]) -> (res: Result<Vec<u8>, CodecError>)
    ensures
        match res {
            Ok(indices) => (text@.len() == 0 || alphabet_usable(alphabet@)) && indices@
                == mtf_encode_spec(text@, alphabet@),
            Err(e) => e == CodecError::AlphabetMismatch && text@.len() > 0 && !alphabet_usable(
                alphabet@,
            ),
        },
{
    let n = text.len();
    let mut out: Vec<u8> = Vec::new();
    if n == 0 {
        return Ok(out);
    }
    if alphabet.len() == 0 || alphabet.len() > 256 {
        return Err(CodecError::AlphabetMismatch);
    }
    let mut lst = alphabet_list(alphabet);
    let mut i: usize = 0;
    assert(text@.subrange(0, n as int) =~= text@);
    while i < n
        invariant
            n == text.len(),
            i <= n,
            0 < lst.len() <= 256,
            mtf_encode_spec(text@, alphabet@) == out@ + mtf_encode_spec(
                text@.subrange(i as int, n as int),
                lst@,
            ),
        decreases n - i,
    {
        let c = text[i];
        let ghost rest = text@.subrange(i as int, n as int);
        let ghost before = out@;
        let ghost l0 = lst@;
        assert(rest.drop_first() =~= text@.subrange(i + 1, n as int));
        assert(rest[0] == c);
        proof {
            lemma_position_bound(lst@, c, 0);
        }
        let idx = find_position(&lst, c);
        let front = lst.remove(idx);
        lst.insert(0, front);
        out.push(idx as u8);
        proof {
            let tail = mtf_encode_spec(rest.drop_first(), move_to_front(l0, idx as int));
            assert(before + (seq![idx as u8] + tail) =~= out@ + tail);
        }
        i = i + 1;
    }
    assert(text@.subrange(n as int, n as int).len() == 0);
    assert(out@ + Seq::<u8>::empty() =~= out@);
    Ok(out)
}

/// Turns positions back into bytes, mirroring the encoder: each index
/// yields the entry at that position of a list that starts as `alphabet`,
/// and that entry moves to the front. An index at or beyond the size of
/// the alphabet is refused.
pub fn mtf_decode(data: &[u8], alphabet: &[u8]) -> (res: Result<Vec<u8>, CodecError>)
    ensures
        match res {
            Ok(text) => indices_in_range(data@, alphabet@.len()) && text@ == mtf_decode_spec(
                data@,
                alphabet@,
            ),
            Err(e) => e == CodecError::AlphabetMismatch && !indices_in_range(
                data@,
                alphabet@.len(),
            ),
        },
{
    let n = data.len();
    let mut out: Vec<u8> = Vec::new();
    let mut lst = alphabet_list(alphabet);
    let mut i: usize = 0;
    assert(data@.subrange(0, n as int) =~= data@);
    while i < n
        invariant
            n == data.len(),
            i <= n,
            lst.len() == alphabet@.len(),
            forall|j: int| 0 <= j < i ==> data@[j] < alphabet@.len(),
            mtf_decode_spec(data@, alphabet@) == out@ + mtf_decode_spec(
                data@.subrange(i as int, n as int),
                lst@,
            ),
        decreases n - i,
    {
        let idx = data[i] as usize;
        if idx >= lst.len() {
            return Err(CodecError::AlphabetMismatch);
        }
        let ghost rest = data@.subrange(i as int, n as int);
        let ghost before = out@;
        let ghost l0 = lst@;
        assert(rest.drop_first() =~= data@.subrange(i + 1, n as int));
        assert(rest[0] == data@[i as int]);
        let front = lst.remove(idx);
        lst.insert(0, front);
        out.push(front);
        proof {
            let tail = mtf_decode_spec(rest.drop_first(), move_to_front(l0, idx as int));
            assert(before + (seq![front] + tail) =~= out@ + tail);
        }
        i = i + 1;
    }
    assert(data@.subrange(n as int, n as int).len() == 0);
    assert(out@ + Seq::<u8>::empty() =~= out@);
    Ok(out)
}

} // verus!
