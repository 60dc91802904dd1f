//! The order in which words are ranked: shorter first, then byte by byte,
//! and equal words by where they stood.
use vstd::prelude::*;

verus! {

/// The words held by a vector of byte vectors.
pub open spec fn words(keys: Seq<Vec<u8>>) -> Seq<Seq<u8>> {
    Seq::new(keys.len(), |i: int| keys[i]@)
}

/// For two words of one length that agree below `k`: whether `a`, which
/// stood at `ia`, comes no later than `b`, which stood at `ib`.
pub open spec fn tail_ordered(a: Seq<u8>, b: Seq<u8>, ia: int, ib: int, k: int) -> bool
    decreases a.len() - k,
{
    if k < 0 || k >= a.len() {
        ia <= ib
    } else if a[k] != b[k] {
        a[k] < b[k]
    } else {
        tail_ordered(a, b, ia, ib, k + 1)
    }
}

/// Whether word `i` comes no later than word `j`.
pub open spec fn key_before(ws: Seq<Seq<u8>>, i: int, j: int) -> bool {
    ws[i].len() < ws[j].len() || (ws[i].len() == ws[j].len() && tail_ordered(
        ws[i],
        ws[j],
        i,
        j,
        0,
    ))
}

/// `perm` lists every position of `ws` once, each word no later than the
/// one listed after it.
pub open spec fn is_sorted_order(ws: Seq<Seq<u8>>, perm: Seq<usize>) -> bool {
    &&& perm.len() == ws.len()
    &&& forall|k: int| 0 <= k < perm.len() ==> perm[k] < ws.len()
    &&& forall|k: int, m: int| 0 <= k < m < perm.len() ==> perm[k] != perm[m]
    &&& forall|k: int| 0 <= k && k + 1 < perm.len() ==> key_before(ws, #[trigger] perm[k] as int, perm[k + 1] as int)
}

proof fn lemma_tail_total(a: Seq<u8>, b: Seq<u8>, ia: int, ib: int, k: int)
    requires
        a.len() == b.len(),
    ensures
        tail_ordered(a, b, ia, ib, k) || tail_ordered(b, a, ib, ia, k),
    decreases a.len() - k,
{
    if 0 <= k < a.len() && a[k] == b[k] {
        lemma_tail_total(a, b, ia, ib, k + 1);
    }
}

/// Whether word `i` comes no later than word `j`.
fn comes_before(keys: &Vec<Vec<u8>>, i: usize, j: usize) -> (r: bool)
    requires
        i < keys.len(),
        j < keys.len(),
    ensures
        r == key_before(words(keys@), i as int, j as int),
{
    let a = &keys[i];
    let b = &keys[j];
    assert(words(keys@)[i as int] == a@);
    assert(words(keys@)[j as int] == b@);
    if a.len() != b.len() {
        return a.len() < b.len();
    }
    let n = a.len();
    let mut k: usize = 0;
    while k < n
        invariant
            k <= n,
            n == a.len(),
            n == b.len(),
            words(keys@)[i as int] == a@,
            words(keys@)[j as int] == b@,
            tail_ordered(a@, b@, i as int, j as int, 0) == tail_ordered(
                a@,
                b@,
                i as int,
                j as int,
                k as int,
            ),
        decreases n - k,
    {
        if a[k] != b[k] {
            assert(tail_ordered(a@, b@, i as int, j as int, k as int) == (a@[k as int] < b@[k as int]));
            return a[k] < b[k];
        }
        k = k + 1;
    }
    i <= j
}

/// The positions of `keys` from the first-ranked word to the last:
/// shorter words first, words of one length byte by byte, and equal words
/// in the order in which they stand.
pub fn sorted_order(keys: &Vec<Vec<u8>>) -> (perm: Vec<usize>)
    ensures
        is_sorted_order(words(keys@), perm@),
{
    let n = keys.len();
    let ghost ws = words(keys@);
    let mut perm: Vec<usize> = Vec::new();
    let mut i: usize = 0;
    while i < n
        invariant
            n == keys.len(),
            ws == words(keys@),
            i <= n,
            perm.len() == i,
            forall|k: int| 0 <= k < perm.len() ==> perm@[k] < i,
            forall|k: int, m: int| 0 <= k < m < perm.len() ==> perm@[k] != perm@[m],
            forall|k: int|
                0 <= k && k + 1 < perm.len() ==> key_before(ws, #[trigger] perm@[k] as int, perm@[k + 1] as int),
        decreases n - i,
    {
        perm.push(i);
        let mut j: usize = i;
        let mut moving: bool = true;
        while moving && j > 0
            invariant
                n == keys.len(),
                ws == words(keys@),
                i < n,
                j <= i,
                perm.len() == i + 1,
                forall|k: int| 0 <= k < perm.len() ==> perm@[k] <= i,
                forall|k: int, m: int| 0 <= k < m < perm.len() ==> perm@[k] != perm@[m],
                forall|k: int|
                    0 <= k < i && k + 1 != j && k != j ==> key_before(
                        ws,
                        #[trigger] perm@[k] as int,
                        perm@[k + 1] as int,
                    ),
                0 < j < i ==> key_before(ws, perm@[j - 1] as int, perm@[j + 1] as int),
                j < i ==> key_before(ws, perm@[j as int] as int, perm@[j + 1] as int),
                !moving && j > 0 ==> key_before(ws, perm@[j - 1] as int, perm@[j as int] as int),
            decreases j + (if moving { 1int } else { 0int }),
        {
            let x = perm[j];
            let y = perm[j - 1];
            if comes_before(keys, x, y) {
                let ghost p0 = perm@;
                let moved = perm.remove(j);
                perm.insert(j - 1, moved);
                proof {
                    let p1 = perm@;
                    assert(p1.len() == p0.len());
                    assert(p1[j - 1] == x);
                    assert(p1[j as int] == y);
                    assert forall|k: int| 0 <= k < p1.len() && k != j && k != j - 1 implies #[trigger] p1[k]
                        == p0[k] by {}
                    assert forall|k: int, m: int| 0 <= k < m < p1.len() implies p1[k] != p1[m] by {
                        let k0 = if k == j { j - 1 } else if k == j - 1 { j as int } else { k };
                        let m0 = if m == j { j - 1 } else if m == j - 1 { j as int } else { m };
                        assert(p1[k] == p0[k0]);
                        assert(p1[m] == p0[m0]);
                        assert(k0 != m0);
                        if k0 < m0 {
                            assert(p0[k0] != p0[m0]);
                        } else {
                            assert(p0[m0] != p0[k0]);
                        }
                    }
                    assert forall|k: int|
                        0 <= k < i && k + 1 != j - 1 && k != j - 1 implies key_before(
                        ws,
                        #[trigger] p1[k] as int,
                        p1[k + 1] as int,
                    ) by {
                        if k == j {
                            assert(p1[k + 1] == p0[j + 1]);
                        } else {
                            assert(p1[k] == p0[k]);
                            assert(p1[k + 1] == p0[k + 1]);
                        }
                    }
                    if j - 1 > 0 {
                        assert(p1[j - 2] == p0[j - 2]);
                        assert(key_before(ws, p0[j - 2] as int, p0[j - 1] as int));
                    }
                }
                j = j - 1;
            } else {
                proof {
                    if ws[x as int].len() == ws[y as int].len() {
                        lemma_tail_total(ws[x as int], ws[y as int], x as int, y as int, 0);
                    }
                }
                moving = false;
            }
        }
        i = i + 1;
    }
    perm
}

proof fn lemma_tail_reflexive(a: Seq<u8>, ia: int, k: int)
    ensures
        tail_ordered(a, a, ia, ia, k),
    decreases a.len() - k,
{
    if 0 <= k < a.len() {
        lemma_tail_reflexive(a, ia, k + 1);
    }
}

proof fn lemma_tail_transitive(a: Seq<u8>, b: Seq<u8>, c: Seq<u8>, ia: int, ib: int, ic: int, k: int)
    requires
        a.len() == b.len(),
        b.len() == c.len(),
        tail_ordered(a, b, ia, ib, k),
        tail_ordered(b, c, ib, ic, k),
    ensures
        tail_ordered(a, c, ia, ic, k),
    decreases a.len() - k,
{
    if 0 <= k < a.len() && a[k] == b[k] && b[k] == c[k] {
        lemma_tail_transitive(a, b, c, ia, ib, ic, k + 1);
    }
}

/// Two words that each come no later than the other agree from `k` on,
/// and stood at the same place.
pub proof fn lemma_tail_antisymmetric(a: Seq<u8>, b: Seq<u8>, ia: int, ib: int, k: int)
    requires
        a.len() == b.len(),
        0 <= k,
        tail_ordered(a, b, ia, ib, k),
        tail_ordered(b, a, ib, ia, k),
    ensures
        ia == ib,
        forall|i: int| k <= i < a.len() ==> a[i] == b[i],
    decreases a.len() - k,
{
    if k < a.len() {
        lemma_tail_antisymmetric(a, b, ia, ib, k + 1);
    }
}

/// In a sorted order every word comes no later than every word listed
/// after it.
pub proof fn lemma_sorted_all_pairs(ws: Seq<Seq<u8>>, perm: Seq<usize>, i: int, j: int)
    requires
        is_sorted_order(ws, perm),
        0 <= i <= j < perm.len(),
    ensures
        key_before(ws, perm[i] as int, perm[j] as int),
    decreases j - i,
{
    if i == j {
        lemma_tail_reflexive(ws[perm[i] as int], perm[i] as int, 0);
    } else {
        lemma_sorted_all_pairs(ws, perm, i, j - 1);
        let x = perm[i] as int;
        let y = perm[j - 1] as int;
        let z = perm[j - 1 + 1] as int;
        assert(key_before(ws, y, z));
        if ws[x].len() == ws[y].len() && ws[y].len() == ws[z].len() {
            lemma_tail_transitive(ws[x], ws[y], ws[z], x, y, z, 0);
        }
    }
}

/// A list of `n` distinct positions below `n` holds every one of them.
pub proof fn lemma_every_offset_listed(perm: Seq<usize>, n: nat, target: int)
    requires
        perm.len() == n,
        0 <= target < n,
        forall|k: int| 0 <= k < perm.len() ==> perm[k] < n,
        forall|k: int, j: int| 0 <= k < j < perm.len() ==> perm[k] != perm[j],
    ensures
        exists|k: int| 0 <= k < n && perm[k] as int == target,
{
    let s = perm.to_set();
    perm.unique_seq_to_set();
    let img = s.map(|v: usize| v as int);
    vstd::set_lib::lemma_map_size(s, img, |v: usize| v as int);
    if !img.contains(target) {
        let below = vstd::set_lib::set_int_range(0, n as int);
        assert(img.subset_of(below.remove(target))) by {
            assert forall|x: int| img.contains(x) implies below.remove(target).contains(x) by {
                let v = choose|v: usize| s.contains(v) && v as int == x;
                let k = choose|k: int| 0 <= k < perm.len() && perm[k] == v;
                assert(perm[k] < n);
            }
        }
        vstd::set_lib::lemma_int_range(0, n as int);
        vstd::set_lib::lemma_len_subset(img, below.remove(target));
        assert(false);
    }
    let v = choose|v: usize| s.contains(v) && v as int == target;
    let k = choose|k: int| 0 <= k < perm.len() && perm[k] == v;
    assert(0 <= k < n && perm[k] as int == target);
}

/// A position is listed at one rank only.
pub proof fn lemma_listed_twice(perm: Seq<usize>, i: int, j: int)
    requires
        0 <= i < perm.len(),
        0 <= j < perm.len(),
        perm[i] == perm[j],
        forall|k: int, m: int| 0 <= k < m < perm.len() ==> perm[k] != perm[m],
    ensures
        i == j,
{
    if i < j {
        assert(perm[i] != perm[j]);
    } else if j < i {
        assert(perm[j] != perm[i]);
    }
}

proof fn lemma_same_rank(ws: Seq<Seq<u8>>, p1: Seq<usize>, p2: Seq<usize>, k: int)
    requires
        is_sorted_order(ws, p1),
        is_sorted_order(ws, p2),
        0 <= k < ws.len(),
    ensures
        p1[k] == p2[k],
    decreases k,
{
    let n = ws.len();
    let x = p1[k] as int;
    let y = p2[k] as int;
    lemma_every_offset_listed(p1, n, y);
    let k2 = choose|i: int| 0 <= i < n && p1[i] as int == y;
    lemma_every_offset_listed(p2, n, x);
    let j2 = choose|i: int| 0 <= i < n && p2[i] as int == x;
    if k2 < k {
        lemma_same_rank(ws, p1, p2, k2);
        lemma_listed_twice(p2, k2, k);
    } else if j2 < k {
        lemma_same_rank(ws, p1, p2, j2);
        lemma_listed_twice(p1, j2, k);
    } else {
        lemma_sorted_all_pairs(ws, p1, k, k2);
        lemma_sorted_all_pairs(ws, p2, k, j2);
        if ws[x].len() == ws[y].len() {
            lemma_tail_antisymmetric(ws[x], ws[y], x, y, 0);
        }
    }
}

/// Words have one sorted order only: two orders that both rank the same
/// words are the same order.
pub proof fn lemma_sorted_order_unique(ws: Seq<Seq<u8>>, p1: Seq<usize>, p2: Seq<usize>)
    requires
        is_sorted_order(ws, p1),
        is_sorted_order(ws, p2),
    ensures
        p1 == p2,
{
    assert forall|k: int| 0 <= k < p1.len() implies p1[k] == p2[k] by {
        lemma_same_rank(ws, p1, p2, k);
    }
    assert(p1 =~= p2);
}

} // verus!
