//! Zero-run coding: runs of zero bytes become a bit-serial count, every
//! other byte passes through biased by two.
use vstd::prelude::*;
use crate::error::CodecError;

verus! {

/// The bits of `k` below its leading one, least significant first.
pub open spec fn run_bits(k: nat) -> Seq<u8>
    decreases k,
{
    if k <= 1 {
        Seq::empty()
    } else {
        seq![(k % 2) as u8] + run_bits(k / 2)
    }
}

/// `n` zero bytes.
pub open spec fn zeros(n: nat) -> Seq<u8> {
    Seq::new(n, |i: int| 0u8)
}

/// Every byte leaves room for the bias of two.
pub open spec fn all_encodable(b: Seq<u8>) -> bool {
    forall|i: int| 0 <= i < b.len() ==> b[i] < 254
}

/// The token stream of `b` when `r` zeros are already pending.
pub open spec fn rle_encode_from(b: Seq<u8>, r: nat) -> Seq<u8>
    decreases b.len(),
{
    if b.len() == 0 {
        run_bits(r + 1)
    } else if b[0] == 0 {
        rle_encode_from(b.drop_first(), r + 1)
    } else {
        run_bits(r + 1) + seq![(b[0] + 2) as u8] + rle_encode_from(b.drop_first(), 0)
    }
}

/// The token stream of `b`.
pub open spec fn rle_encode_spec(b: Seq<u8>) -> Seq<u8> {
    rle_encode_from(b, 0)
}

/// Whether every run count in `t` stays addressable, when the bits read so
/// far are worth `acc` and the next bit is worth `w`.
pub open spec fn rle_fits_from(t: Seq<u8>, acc: nat, w: nat) -> bool
    decreases t.len(),
{
    if t.len() == 0 {
        acc + w - 1 <= usize::MAX
    } else if t[0] <= 1 {
        rle_fits_from(t.drop_first(), if t[0] == 1 { acc + w } else { acc }, 2 * w)
    } else {
        acc + w - 1 <= usize::MAX && rle_fits_from(t.drop_first(), 0, 1)
    }
}

/// The bytes that `t` stands for, when the bits read so far are worth `acc`
/// and the next bit is worth `w`.
pub open spec fn rle_decode_from(t: Seq<u8>, acc: nat, w: nat) -> Seq<u8>
    decreases t.len(),
{
    if t.len() == 0 {
        zeros((acc + w - 1) as nat)
    } else if t[0] <= 1 {
        rle_decode_from(t.drop_first(), if t[0] == 1 { acc + w } else { acc }, 2 * w)
    } else {
        zeros((acc + w - 1) as nat) + seq![(t[0] - 2) as u8] + rle_decode_from(
            t.drop_first(),
            0,
            1,
        )
    }
}

/// Whether every run count in `t` stays addressable.
pub open spec fn rle_fits(t: Seq<u8>) -> bool {
    rle_fits_from(t, 0, 1)
}

/// The bytes that `t` stands for.
pub open spec fn rle_decode_spec(t: Seq<u8>) -> Seq<u8> {
    rle_decode_from(t, 0, 1)
}

/// The worth of the bits read once the count bits of `k` have gone by.
pub open spec fn acc_after(k: nat, acc: nat, w: nat) -> nat
    decreases k,
{
    if k <= 1 {
        acc
    } else {
        acc_after(k / 2, if k % 2 == 1 { acc + w } else { acc }, 2 * w)
    }
}

/// The worth of the next bit once the count bits of `k` have gone by.
pub open spec fn weight_after(k: nat, w: nat) -> nat
    decreases k,
{
    if k <= 1 {
        w
    } else {
        weight_after(k / 2, 2 * w)
    }
}

proof fn lemma_after_sum(k: nat, acc: nat, w: nat)
    requires
        k >= 1,
    ensures
        acc_after(k, acc, w) + weight_after(k, w) == acc + w * k,
    decreases k,
{
    if k > 1 {
        let a2 = if k % 2 == 1 { acc + w } else { acc };
        lemma_after_sum(k / 2, a2, 2 * w);
        assert(a2 + (2 * w) * (k / 2) == acc + w * k) by (nonlinear_arith)
            requires
                a2 == if k % 2 == 1 { acc + w } else { acc },
        ;
    } else {
        assert(w * k == w) by (nonlinear_arith)
            requires
                k == 1,
        ;
    }
}

proof fn lemma_skip_run_bits(k: nat, rest: Seq<u8>, acc: nat, w: nat)
    ensures
        rle_decode_from(run_bits(k) + rest, acc, w) == rle_decode_from(
            rest,
            acc_after(k, acc, w),
            weight_after(k, w),
        ),
        rle_fits_from(run_bits(k) + rest, acc, w) == rle_fits_from(
            rest,
            acc_after(k, acc, w),
            weight_after(k, w),
        ),
    decreases k,
{
    if k <= 1 {
        assert(run_bits(k) + rest =~= rest);
    } else {
        let all = run_bits(k) + rest;
        let a2 = if k % 2 == 1 { acc + w } else { acc };
        assert(all[0] == (k % 2) as u8);
        assert(all.drop_first() =~= run_bits(k / 2) + rest);
        lemma_skip_run_bits(k / 2, rest, a2, 2 * w);
    }
}

proof fn lemma_round_trip_from(b: Seq<u8>, r: nat)
    requires
        all_encodable(b),
        r + b.len() <= usize::MAX,
    ensures
        rle_fits(rle_encode_from(b, r)),
        rle_decode_spec(rle_encode_from(b, r)) == zeros(r) + b,
    decreases b.len(),
{
    let empty = Seq::<u8>::empty();
    lemma_after_sum(r + 1, 0, 1);
    let a = acc_after(r + 1, 0, 1);
    let w = weight_after(r + 1, 1);
    assert(a + w - 1 == r) by (nonlinear_arith)
        requires
            a + w == 0 + 1 * (r + 1),
    ;
    if b.len() == 0 {
        lemma_skip_run_bits(r + 1, empty, 0, 1);
        assert(run_bits(r + 1) + empty =~= run_bits(r + 1));
        assert(zeros(r) + b =~= zeros(r));
    } else if b[0] == 0 {
        lemma_round_trip_from(b.drop_first(), r + 1);
        assert(zeros(r + 1) + b.drop_first() =~= zeros(r) + b);
    } else {
        let tail = rle_encode_from(b.drop_first(), 0);
        let rest = seq![(b[0] + 2) as u8] + tail;
        assert(rle_encode_from(b, r) =~= run_bits(r + 1) + rest);
        lemma_skip_run_bits(r + 1, rest, 0, 1);
        lemma_round_trip_from(b.drop_first(), 0);
        assert(rest[0] >= 2);
        assert(rest.drop_first() =~= tail);
        assert(zeros(0) + b.drop_first() =~= b.drop_first());
        assert(zeros(r) + seq![b[0]] + b.drop_first() =~= zeros(r) + b);
    }
}

/// Decoding undoes encoding: for every byte sequence that has a token
/// stream (no byte of 254 or 255), including the empty one, all zeros and
/// none, the stream decodes, and decodes to the sequence itself.
pub proof fn lemma_rle_round_trip(b: Seq<u8>)
    requires
        all_encodable(b),
        b.len() <= usize::MAX,
    ensures
        rle_fits(rle_encode_spec(b)),
        rle_decode_spec(rle_encode_spec(b)) == b,
{
    lemma_round_trip_from(b, 0);
    assert(zeros(0) + b =~= b);
}

proof fn lemma_run_bits_are_bits(k: nat)
    ensures
        forall|i: int| 0 <= i < run_bits(k).len() ==> run_bits(k)[i] <= 1,
    decreases k,
{
    if k > 1 {
        lemma_run_bits_are_bits(k / 2);
        assert forall|i: int| 0 <= i < run_bits(k).len() implies run_bits(k)[i] <= 1 by {
            if i > 0 {
                assert(run_bits(k)[i] == run_bits(k / 2)[i - 1]);
            }
        }
    }
}

/// Tokens stay small where bytes do: if every byte is below `bound`, every
/// token is below `bound + 2`.
pub proof fn lemma_rle_tokens_bounded(b: Seq<u8>, r: nat, bound: int)
    requires
        1 <= bound <= 254,
        forall|i: int| 0 <= i < b.len() ==> b[i] < bound,
    ensures
        forall|i: int|
            0 <= i < rle_encode_from(b, r).len() ==> rle_encode_from(b, r)[i] < bound + 2,
    decreases b.len(),
{
    lemma_run_bits_are_bits(r + 1);
    if b.len() == 0 {
        assert(rle_encode_from(b, r) == run_bits(r + 1));
    } else {
        if b[0] == 0 {
            lemma_rle_tokens_bounded(b.drop_first(), r + 1, bound);
            assert(rle_encode_from(b, r) == rle_encode_from(b.drop_first(), r + 1));
        } else {
            lemma_rle_tokens_bounded(b.drop_first(), 0, bound);
            let bits = run_bits(r + 1);
            let tail = rle_encode_from(b.drop_first(), 0);
            let enc = rle_encode_from(b, r);
            assert forall|i: int| 0 <= i < enc.len() implies enc[i] < bound + 2 by {
                if i < bits.len() {
                    assert(enc[i] == bits[i]);
                } else if i == bits.len() {
                    assert(enc[i] == (b[0] + 2) as u8);
                } else {
                    assert(enc[i] == tail[i - bits.len() - 1]);
                }
            }
        }
    }
}

proof fn lemma_unfit(t: Seq<u8>, acc: nat, w: nat)
    requires
        acc + w - 1 > usize::MAX,
    ensures
        !rle_fits_from(t, acc, w),
    decreases t.len(),
{
    if t.len() > 0 && t[0] <= 1 {
        lemma_unfit(t.drop_first(), if t[0] == 1 { acc + w } else { acc }, 2 * w);
    }
}

/// Appends the count bits of a run of `r` zeros.
fn push_run(out: &mut Vec<u8>, r: usize)
    ensures
        final(out)@ == old(out)@ + run_bits((r + 1) as nat),
{
    let mut k: u128 = r as u128 + 1;
    while k > 1
        invariant
            out@ + run_bits(k as nat) == old(out)@ + run_bits((r + 1) as nat),
        decreases k,
    {
        let ghost before = out@;
        out.push((k % 2) as u8);
        proof {
            assert(before.push((k % 2) as u8) + run_bits((k / 2) as nat) =~= before + run_bits(
                k as nat,
            ));
        }
        k = k / 2;
    }
    assert(run_bits(k as nat) =~= Seq::<u8>::empty());
    assert(out@ + Seq::<u8>::empty() =~= out@);
}

/// Encodes `text`: each run of zeros becomes the bits of its length plus
/// one (leading bit dropped, least significant first), each other byte
/// follows as itself plus two. A byte of 254 or 255 has no token.
pub fn rle_encode(text: &Vec<u8>) -> (res: Result<Vec<u8>, CodecError>)
    ensures
        match res {
            Ok(tokens) => all_encodable(text@) && tokens@ == rle_encode_spec(text@),
            Err(e) => e == CodecError::AmbiguousToken && !all_encodable(text@),
        },
{
    let n = text.len();
    let mut out: Vec<u8> = Vec::new();
    let mut r: usize = 0;
    let mut i: usize = 0;
    assert(text@.subrange(0, n as int) =~= text@);
    while i < n
        invariant
            n == text.len(),
            i <= n,
            r <= i,
            forall|j: int| 0 <= j < i ==> text@[j] < 254,
            rle_encode_spec(text@) == out@ + rle_encode_from(text@.subrange(i as int, n as int), r as nat),
        decreases n - i,
    {
        let v = text[i];
        let ghost rest = text@.subrange(i as int, n as int);
        assert(rest.drop_first() =~= text@.subrange(i + 1, n as int));
        assert(rest[0] == v);
        if v == 0 {
            r = r + 1;
        } else if v >= 254 {
            return Err(CodecError::AmbiguousToken);
        } else {
            let ghost before = out@;
            push_run(&mut out, r);
            out.push(v + 2);
            proof {
                let tail = rle_encode_from(rest.drop_first(), 0);
                assert(before + (run_bits((r + 1) as nat) + seq![(v + 2) as u8] + tail) =~= out@
                    + tail);
            }
            r = 0;
        }
        i = i + 1;
    }
    push_run(&mut out, r);
    assert(text@.subrange(n as int, n as int).len() == 0);
    Ok(out)
}

/// Appends `n` zero bytes.
fn push_zeros(out: &mut Vec<u8>, n: usize)
    ensures
        final(out)@ == old(out)@ + zeros(n as nat),
{
    let mut j: usize = 0;
    assert(out@ + zeros(0) =~= out@);
    while j < n
        invariant
            j <= n,
            out@ == old(out)@ + zeros(j as nat),
        decreases n - j,
    {
        out.push(0u8);
        j = j + 1;
        assert(out@ =~= old(out)@ + zeros(j as nat));
    }
}

/// Decodes `data`: tokens 0 and 1 are the bits of a run count, least
/// significant first, under an implied leading one; a token of two or more
/// closes the run, which yields the count less one zeros, and then yields
/// itself less two. The end of the stream closes the last run.
/// A count that no `usize` holds is refused.
pub fn rle_decode(data: &Vec<u8>) -> (res: Result<Vec<u8>, CodecError>)
    ensures
        match res {
            Ok(bytes) => rle_fits(data@) && bytes@ == rle_decode_spec(data@),
            Err(e) => e == CodecError::RunOverflow && !rle_fits(data@),
        },
{
    let n = data.len();
    let mut out: Vec<u8> = Vec::new();
    let mut acc: u128 = 0;
    let mut w: u128 = 1;
    let mut i: usize = 0;
    assert(data@.subrange(0, n as int) =~= data@);
    while i < n
        invariant
            n == data.len(),
            i <= n,
            acc < w,
            w <= 2 * (usize::MAX as u128),
            rle_fits(data@) == rle_fits_from(data@.subrange(i as int, n as int), acc as nat, w as nat),
            rle_fits(data@) ==> rle_decode_spec(data@) == out@ + rle_decode_from(
                data@.subrange(i as int, n as int),
                acc as nat,
                w as nat,
            ),
        decreases n - i,
    {
        let t = data[i];
        let ghost rest = data@.subrange(i as int, n as int);
        assert(rest.drop_first() =~= data@.subrange(i + 1, n as int));
        assert(rest[0] == t);
        if t <= 1 {
            if w > usize::MAX as u128 {
                proof {
                    lemma_unfit(
                        rest.drop_first(),
                        if t == 1 { (acc + w) as nat } else { acc as nat },
                        (2 * w) as nat,
                    );
                }
                return Err(CodecError::RunOverflow);
            }
            if t == 1 {
                acc = acc + w;
            }
            w = 2 * w;
        } else {
            let count: u128 = acc + w - 1;
            if count > usize::MAX as u128 {
                return Err(CodecError::RunOverflow);
            }
            let ghost before = out@;
            push_zeros(&mut out, count as usize);
            out.push(t - 2);
            proof {
                let tail = rle_decode_from(rest.drop_first(), 0, 1);
                assert(before + (zeros(count as nat) + seq![(t - 2) as u8] + tail) =~= out@
                    + tail);
            }
            acc = 0;
            w = 1;
        }
        i = i + 1;
    }
    assert(data@.subrange(n as int, n as int).len() == 0);
    let count: u128 = acc + w - 1;
    if count > usize::MAX as u128 {
        return Err(CodecError::RunOverflow);
    }
    push_zeros(&mut out, count as usize);
    Ok(out)
}

} // verus!
