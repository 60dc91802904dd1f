//! The Burrows-Wheeler transform over the sorted rotations of a
//! sentinel-terminated message.
use vstd::prelude::*;
use crate::compressor::order::{
    is_sorted_order,
    key_before,
    lemma_every_offset_listed,
    lemma_listed_twice,
    lemma_sorted_all_pairs,
    lemma_tail_antisymmetric,
    sorted_order,
    tail_ordered,
    words,
};

verus! {

/// The byte that ends every message.
pub const SENTINEL: u8 = 0;

/// The text with the sentinel behind it.
pub open spec fn with_sentinel(text: Seq<u8>) -> Seq<u8> {
    text.push(SENTINEL)
}

/// The message read cyclically from offset `i`.
pub open spec fn rotation(m: Seq<u8>, i: int) -> Seq<u8> {
    m.subrange(i, m.len() as int) + m.subrange(0, i)
}

/// All rotations of the message, by offset.
pub open spec fn rotations(m: Seq<u8>) -> Seq<Seq<u8>> {
    Seq::new(m.len(), |i: int| rotation(m, i))
}

/// `perm` ranks the rotations of `m`, `transformed` holds the last byte of
/// each in that order, and `index` is where the unrotated message stands.
pub open spec fn is_bwt_of(m: Seq<u8>, perm: Seq<usize>, transformed: Seq<u8>, index: int) -> bool {
    &&& is_sorted_order(rotations(m), perm)
    &&& transformed.len() == m.len()
    &&& forall|k: int|
        0 <= k < m.len() ==> #[trigger] transformed[k] == rotation(m, perm[k] as int).last()
    &&& 0 <= index < m.len()
    &&& perm[index] == 0
}

/// Each byte of the text as a word of its own.
pub open spec fn singles(text: Seq<u8>) -> Seq<Seq<u8>> {
    Seq::new(text.len(), |i: int| seq![text[i]])
}

/// The bytes met on `steps` steps from row `cur`, where row `k` holds the
/// byte at `perm[k]` and leads on to row `perm[k]`.
pub open spec fn walk(text: Seq<u8>, perm: Seq<usize>, cur: int, steps: nat) -> Seq<u8>
    decreases steps,
{
    if steps == 0 {
        Seq::empty()
    } else {
        seq![text[perm[cur] as int]] + walk(text, perm, perm[cur] as int, (steps - 1) as nat)
    }
}

/// `perm` ranks the bytes of `text` by value, equal bytes by position, and
/// `message` is what the walk from row `index` yields.
pub open spec fn is_inverse_bwt_of(text: Seq<u8>, perm: Seq<usize>, index: int, message: Seq<u8>) -> bool {
    &&& is_sorted_order(singles(text), perm)
    &&& message == walk(text, perm, index, text.len())
}

/// A walk of `steps` steps yields `steps` bytes.
pub proof fn lemma_walk_len(text: Seq<u8>, perm: Seq<usize>, cur: int, steps: nat)
    ensures
        walk(text, perm, cur, steps).len() == steps,
    decreases steps,
{
    if steps > 0 {
        lemma_walk_len(text, perm, perm[cur] as int, (steps - 1) as nat);
    }
}

/// No byte of the text is the sentinel.
pub open spec fn sentinel_free(text: Seq<u8>) -> bool {
    forall|i: int| 0 <= i < text.len() ==> text[i] != SENTINEL
}

/// The offset after `a` on a cycle of `n`.
pub open spec fn next_offset(a: int, n: int) -> int {
    if a + 1 < n {
        a + 1
    } else {
        0
    }
}

/// A message ends with its only sentinel.
spec fn is_message(m: Seq<u8>) -> bool {
    m.len() >= 1 && m.last() == SENTINEL && forall|i: int|
        0 <= i < m.len() - 1 ==> m[i] != SENTINEL
}

proof fn lemma_rotation_at(m: Seq<u8>, a: int, i: int)
    requires
        0 <= a < m.len(),
        0 <= i < m.len(),
    ensures
        rotation(m, a).len() == m.len(),
        rotation(m, a)[i] == if i < m.len() - a {
            m[a + i]
        } else {
            m[i - (m.len() - a)]
        },
{
}

proof fn lemma_rotations_differ(m: Seq<u8>, a: int, b: int)
    requires
        is_message(m),
        0 <= a < m.len(),
        0 <= b < m.len(),
        forall|i: int| 0 <= i < m.len() ==> rotation(m, a)[i] == rotation(m, b)[i],
    ensures
        a == b,
{
    let n = m.len() as int;
    lemma_rotation_at(m, a, n - 1 - a);
    lemma_rotation_at(m, b, n - 1 - a);
    assert(rotation(m, a)[n - 1 - a] == rotation(m, b)[n - 1 - a]);
}

proof fn lemma_shift_same(m: Seq<u8>, a: int, b: int, j: int)
    requires
        is_message(m),
        0 <= a < m.len(),
        0 <= b < m.len(),
        0 <= j <= m.len() - 1,
        forall|i: int| 0 <= i <= j ==> rotation(m, a)[i] == rotation(m, b)[i],
        tail_ordered(rotation(m, a), rotation(m, b), a, b, j + 1),
        tail_ordered(
            rotation(m, next_offset(b, m.len() as int)),
            rotation(m, next_offset(a, m.len() as int)),
            next_offset(b, m.len() as int),
            next_offset(a, m.len() as int),
            j,
        ),
    ensures
        a == b,
    decreases m.len() - j,
{
    let n = m.len() as int;
    let na = next_offset(a, n);
    let nb = next_offset(b, n);
    lemma_rotation_at(m, na, j);
    lemma_rotation_at(m, nb, j);
    if j == n - 1 {
        lemma_rotation_at(m, a, 0);
        lemma_rotation_at(m, b, 0);
        lemma_rotations_differ(m, a, b);
    } else {
        lemma_rotation_at(m, a, j + 1);
        lemma_rotation_at(m, b, j + 1);
        assert(rotation(m, na)[j] == rotation(m, a)[j + 1]);
        assert(rotation(m, nb)[j] == rotation(m, b)[j + 1]);
        if rotation(m, a)[j + 1] == rotation(m, b)[j + 1] {
            lemma_shift_same(m, a, b, j + 1);
        }
    }
}

/// The row that follows row `k` in the message: the one whose rotation
/// starts one byte later.
spec fn follower(perm: Seq<usize>, k: int) -> int {
    choose|r: int|
        0 <= r < perm.len() && perm[r] as int == next_offset(perm[k] as int, perm.len() as int)
}

proof fn lemma_follower(perm: Seq<usize>, k: int)
    requires
        0 <= k < perm.len(),
        forall|i: int| 0 <= i < perm.len() ==> perm[i] < perm.len(),
        forall|i: int, j: int| 0 <= i < j < perm.len() ==> perm[i] != perm[j],
    ensures
        0 <= follower(perm, k) < perm.len(),
        perm[follower(perm, k)] as int == next_offset(perm[k] as int, perm.len() as int),
{
    lemma_every_offset_listed(perm, perm.len(), next_offset(perm[k] as int, perm.len() as int));
}

proof fn lemma_last_of_follower(m: Seq<u8>, a: int)
    requires
        0 <= a < m.len(),
    ensures
        rotation(m, next_offset(a, m.len() as int)).last() == m[a],
        rotation(m, a)[0] == m[a],
{
    let n = m.len() as int;
    lemma_rotation_at(m, next_offset(a, n), n - 1);
    lemma_rotation_at(m, a, 0);
}

/// Followers keep the order of their rows, in the ranking of the last
/// column.
proof fn lemma_followers_ordered(m: Seq<u8>, perm: Seq<usize>, l: Seq<u8>, index: int, k: int, k2: int)
    requires
        is_message(m),
        is_bwt_of(m, perm, l, index),
        0 <= k < k2 < m.len(),
    ensures
        key_before(singles(l), follower(perm, k), follower(perm, k2)),
{
    let n = m.len() as int;
    let r = follower(perm, k);
    let x = follower(perm, k2);
    let a = perm[k] as int;
    let b = perm[k2] as int;
    lemma_follower(perm, k);
    lemma_follower(perm, k2);
    lemma_last_of_follower(m, a);
    lemma_last_of_follower(m, b);
    assert(l[r] == m[a]);
    assert(l[x] == m[b]);
    let rots = rotations(m);
    lemma_sorted_all_pairs(rots, perm, k, k2);
    assert(rots[a] == rotation(m, a) && rots[b] == rotation(m, b));
    lemma_rotation_at(m, a, 0);
    lemma_rotation_at(m, b, 0);
    let ws = singles(l);
    assert(ws[r] =~= seq![l[r]] && ws[x] =~= seq![l[x]]);
    assert(tail_ordered(ws[r], ws[x], r, x, 1) == (r <= x));
    if m[a] == m[b] && x < r {
        lemma_sorted_all_pairs(rots, perm, x, r);
        assert(rots[perm[x] as int] == rotation(m, next_offset(b, n)));
        assert(rots[perm[r] as int] == rotation(m, next_offset(a, n)));
        lemma_rotation_at(m, next_offset(a, n), 0);
        lemma_rotation_at(m, next_offset(b, n), 0);
        lemma_shift_same(m, a, b, 0);
        lemma_listed_twice(perm, k, k2);
    }
}

/// The transform and the ranking of its last column, taken together.
#[verifier::opaque]
spec fn setting(m: Seq<u8>, perm: Seq<usize>, l: Seq<u8>, index: int, perm2: Seq<usize>) -> bool {
    is_message(m) && is_bwt_of(m, perm, l, index) && is_sorted_order(singles(l), perm2)
}

proof fn lemma_setting_rows(
    m: Seq<u8>,
    perm: Seq<usize>,
    l: Seq<u8>,
    index: int,
    perm2: Seq<usize>,
)
    requires
        setting(m, perm, l, index, perm2),
    ensures
        perm.len() == m.len(),
        perm2.len() == m.len(),
        forall|i: int| 0 <= i < perm.len() ==> perm[i] < perm.len(),
        forall|i: int, j: int| 0 <= i < j < perm.len() ==> perm[i] != perm[j],
        forall|i: int| 0 <= i < perm2.len() ==> perm2[i] < perm2.len(),
        forall|i: int, j: int| 0 <= i < j < perm2.len() ==> perm2[i] != perm2[j],
{
    reveal(setting);
}

proof fn lemma_rows_in_range(
    m: Seq<u8>,
    perm: Seq<usize>,
    l: Seq<u8>,
    index: int,
    perm2: Seq<usize>,
    k: int,
)
    requires
        setting(m, perm, l, index, perm2),
        0 <= k < m.len(),
    ensures
        0 <= follower(perm, k) < m.len(),
        0 <= perm2[k] < m.len(),
        exists|k2: int| 0 <= k2 < m.len() && follower(perm, k2) == perm2[k] as int,
        exists|j2: int| 0 <= j2 < m.len() && perm2[j2] as int == follower(perm, k),
{
    lemma_setting_rows(m, perm, l, index, perm2);
    let n = m.len() as int;
    let x = perm2[k] as int;
    lemma_follower(perm, k);
    let before = if perm[x] as int == 0 { n - 1 } else { perm[x] as int - 1 };
    lemma_every_offset_listed(perm, n as nat, before);
    let k2 = choose|i: int| 0 <= i < n && perm[i] as int == before;
    lemma_follower(perm, k2);
    lemma_listed_twice(perm, x, follower(perm, k2));
    lemma_every_offset_listed(perm2, n as nat, follower(perm, k));
}

proof fn lemma_rows_injective(
    m: Seq<u8>,
    perm: Seq<usize>,
    l: Seq<u8>,
    index: int,
    perm2: Seq<usize>,
    i: int,
    j: int,
)
    requires
        setting(m, perm, l, index, perm2),
        0 <= i < m.len(),
        0 <= j < m.len(),
    ensures
        perm2[i] == perm2[j] ==> i == j,
        follower(perm, i) == follower(perm, j) ==> i == j,
{
    lemma_setting_rows(m, perm, l, index, perm2);
    if perm2[i] == perm2[j] {
        lemma_listed_twice(perm2, i, j);
    }
    if follower(perm, i) == follower(perm, j) {
        lemma_follower(perm, i);
        lemma_follower(perm, j);
        lemma_listed_twice(perm, i, j);
    }
}

proof fn lemma_rows_agree(
    m: Seq<u8>,
    perm: Seq<usize>,
    l: Seq<u8>,
    index: int,
    perm2: Seq<usize>,
    k: int,
    k2: int,
    j: int,
    j2: int,
)
    requires
        setting(m, perm, l, index, perm2),
        0 <= k < k2 < m.len(),
        0 <= j <= j2 < m.len(),
        perm2[j] as int == follower(perm, k2),
        perm2[j2] as int == follower(perm, k),
    ensures
        follower(perm, k) == follower(perm, k2),
{
    reveal(setting);
    let r = follower(perm, k);
    let x = follower(perm, k2);
    lemma_followers_ordered(m, perm, l, index, k, k2);
    lemma_sorted_all_pairs(singles(l), perm2, j, j2);
    let ws = singles(l);
    lemma_follower(perm, k);
    lemma_follower(perm, k2);
    assert(ws[r].len() == 1 && ws[x].len() == 1);
    lemma_tail_antisymmetric(ws[r], ws[x], r, x, 0);
}

/// Each row of the last column's ranking is the follower of the row of
/// the same rank.
proof fn lemma_ranking_is_follower(
    m: Seq<u8>,
    perm: Seq<usize>,
    l: Seq<u8>,
    index: int,
    perm2: Seq<usize>,
    k: int,
)
    requires
        setting(m, perm, l, index, perm2),
        0 <= k < m.len(),
    ensures
        perm2[k] as int == follower(perm, k),
    decreases k,
{
    let n = m.len() as int;
    lemma_rows_in_range(m, perm, l, index, perm2, k);
    let k2 = choose|k2: int| 0 <= k2 < n && follower(perm, k2) == perm2[k] as int;
    let j2 = choose|j2: int| 0 <= j2 < n && perm2[j2] as int == follower(perm, k);
    lemma_rows_injective(m, perm, l, index, perm2, k2, k);
    lemma_rows_injective(m, perm, l, index, perm2, j2, k);
    if k2 < k {
        lemma_ranking_is_follower(m, perm, l, index, perm2, k2);
    } else if j2 < k {
        lemma_ranking_is_follower(m, perm, l, index, perm2, j2);
    } else if k2 > k {
        lemma_rows_agree(m, perm, l, index, perm2, k, k2, k, j2);
    }
}

proof fn lemma_last_column(
    m: Seq<u8>,
    perm: Seq<usize>,
    l: Seq<u8>,
    index: int,
    perm2: Seq<usize>,
    k: int,
)
    requires
        setting(m, perm, l, index, perm2),
        0 <= k < m.len(),
    ensures
        l.len() == m.len(),
        l[k] == rotation(m, perm[k] as int).last(),
        0 <= index < m.len(),
        perm[index] == 0,
{
    reveal(setting);
}

proof fn lemma_step(
    m: Seq<u8>,
    perm: Seq<usize>,
    l: Seq<u8>,
    index: int,
    perm2: Seq<usize>,
    cur: int,
)
    requires
        setting(m, perm, l, index, perm2),
        0 <= cur < m.len(),
    ensures
        0 <= perm[cur] < m.len(),
        0 <= perm2[cur] < m.len(),
        perm[perm2[cur] as int] as int == next_offset(perm[cur] as int, m.len() as int),
        l[perm2[cur] as int] == m[perm[cur] as int],
{
    lemma_setting_rows(m, perm, l, index, perm2);
    lemma_ranking_is_follower(m, perm, l, index, perm2, cur);
    lemma_follower(perm, cur);
    lemma_last_column(m, perm, l, index, perm2, perm2[cur] as int);
    lemma_last_of_follower(m, perm[cur] as int);
}

proof fn lemma_walk_is_message(
    m: Seq<u8>,
    perm: Seq<usize>,
    l: Seq<u8>,
    index: int,
    perm2: Seq<usize>,
    cur: int,
    steps: nat,
)
    requires
        setting(m, perm, l, index, perm2),
        0 <= cur < m.len(),
        perm[cur] + steps <= m.len(),
    ensures
        walk(l, perm2, cur, steps) == m.subrange(perm[cur] as int, perm[cur] + steps),
    decreases steps,
{
    let a = perm[cur] as int;
    lemma_step(m, perm, l, index, perm2, cur);
    if steps == 0 {
        assert(m.subrange(a, a) =~= Seq::<u8>::empty());
    } else {
        let nxt = perm2[cur] as int;
        if steps > 1 {
            lemma_walk_is_message(m, perm, l, index, perm2, nxt, (steps - 1) as nat);
        } else {
            assert(walk(l, perm2, nxt, 0) =~= Seq::<u8>::empty());
            assert(m.subrange(a + 1, a + 1) =~= Seq::<u8>::empty());
        }
        assert(seq![m[a]] + m.subrange(a + 1, a + steps) =~= m.subrange(a, a + steps));
    }
}

/// Decoding undoes encoding: for every text without a sentinel byte, what
/// the inverse transform makes of the transformed text and the rotation
/// index is the text with the sentinel behind it.
pub proof fn lemma_bwt_round_trip(
    text: Seq<u8>,
    perm: Seq<usize>,
    transformed: Seq<u8>,
    index: int,
    perm2: Seq<usize>,
    message: Seq<u8>,
)
    requires
        sentinel_free(text),
        is_bwt_of(with_sentinel(text), perm, transformed, index),
        is_inverse_bwt_of(transformed, perm2, index, message),
    ensures
        message == with_sentinel(text),
{
    let m = with_sentinel(text);
    assert(is_message(m)) by {
        assert forall|i: int| 0 <= i < m.len() - 1 implies m[i] != SENTINEL by {
            assert(m[i] == text[i]);
        }
    }
    assert(setting(m, perm, transformed, index, perm2)) by {
        reveal(setting);
    }
    lemma_last_column(m, perm, transformed, index, perm2, index);
    lemma_walk_is_message(m, perm, transformed, index, perm2, index, m.len());
    assert(m.subrange(0, m.len() as int) =~= m);
}

/// Every byte of the transformed text is a byte of the message.
pub proof fn lemma_transformed_bytes(m: Seq<u8>, perm: Seq<usize>, transformed: Seq<u8>, index: int)
    requires
        is_bwt_of(m, perm, transformed, index),
    ensures
        forall|k: int| 0 <= k < transformed.len() ==> m.contains(#[trigger] transformed[k]),
{
    let n = m.len() as int;
    assert forall|k: int| 0 <= k < transformed.len() implies m.contains(
        #[trigger] transformed[k],
    ) by {
        let a = perm[k] as int;
        lemma_rotation_at(m, a, n - 1);
        assert(transformed[k] == rotation(m, a).last());
        if n - 1 < n - a {
            assert(m[a + n - 1] == transformed[k]);
        } else {
            assert(m[a - 1] == transformed[k]);
        }
    }
}

/// The rotation of `m` at offset `i`, as a vector of its own.
fn rotation_at(m: &Vec<u8>, i: usize) -> (r: Vec<u8>)
    requires
        i < m.len(),
    ensures
        r@ == rotation(m@, i as int),
{
    let n = m.len();
    let mut r: Vec<u8> = Vec::new();
    let mut k: usize = i;
    while k < n
        invariant
            i <= k <= n,
            n == m.len(),
            r@ == m@.subrange(i as int, k as int),
        decreases n - k,
    {
        r.push(m[k]);
        k = k + 1;
        assert(r@ =~= m@.subrange(i as int, k as int));
    }
    k = 0;
    assert(r@ =~= m@.subrange(i as int, n as int) + m@.subrange(0, 0));
    while k < i
        invariant
            k <= i < n,
            n == m.len(),
            r@ == m@.subrange(i as int, n as int) + m@.subrange(0, k as int),
        decreases i - k,
    {
        r.push(m[k]);
        k = k + 1;
        assert(r@ =~= m@.subrange(i as int, n as int) + m@.subrange(0, k as int));
    }
    r
}

/// Transforms `text`: the sentinel is appended, the rotations of that
/// message are ranked (equal rotations by offset), and the result is the
/// last byte of each rotation in rank order, with the rank of the message
/// itself.
pub fn bwt_encode(text: &[u8]) -> (res: (Vec<u8>, usize))
    requires
        text@.len() < usize::MAX,
    ensures
        exists|perm: Seq<usize>| #[trigger] is_bwt_of(with_sentinel(text@), perm, res.0@, res.1 as int),
{
    let mut message: Vec<u8> = Vec::new();
    let mut i: usize = 0;
    while i < text.len()
        invariant
            i <= text.len(),
            message@ == text@.subrange(0, i as int),
        decreases text.len() - i,
    {
        message.push(text[i]);
        i = i + 1;
        assert(message@ =~= text@.subrange(0, i as int));
    }
    assert(text@.subrange(0, i as int) =~= text@);
    message.push(SENTINEL);
    let n = message.len();
    let ghost m = message@;
    assert(m =~= with_sentinel(text@));
    let mut rots: Vec<Vec<u8>> = Vec::new();
    i = 0;
    while i < n
        invariant
            i <= n,
            n == message.len(),
            m == message@,
            rots.len() == i,
            forall|k: int| 0 <= k < i ==> (#[trigger] rots@[k])@ == rotation(m, k),
        decreases n - i,
    {
        let r = rotation_at(&message, i);
        rots.push(r);
        i = i + 1;
    }
    assert(words(rots@) =~= rotations(m));
    let perm = sorted_order(&rots);
    let mut transformed: Vec<u8> = Vec::new();
    let mut index: usize = 0;
    let mut found: bool = false;
    i = 0;
    while i < n
        invariant
            i <= n,
            n == m.len(),
            n >= 1,
            rots.len() == n,
            forall|k: int| 0 <= k < n ==> (#[trigger] rots@[k])@ == rotation(m, k),
            is_sorted_order(rotations(m), perm@),
            transformed.len() == i,
            forall|k: int|
                0 <= k < i ==> #[trigger] transformed@[k] == rotation(m, perm@[k] as int).last(),
            found ==> index < i && perm@[index as int] == 0,
            !found ==> forall|k: int| 0 <= k < i ==> perm@[k] != 0,
        decreases n - i,
    {
        let off = perm[i];
        let rot = &rots[off];
        assert(rot@ == rotation(m, off as int));
        assert(rot@.len() == n);
        transformed.push(rot[n - 1]);
        if off == 0 && !found {
            index = i;
            found = true;
        }
        i = i + 1;
    }
    proof {
        if !found {
            lemma_every_offset_listed(perm@, n as nat, 0);
            let k = choose|k: int| 0 <= k < n && perm@[k] as int == 0;
            assert(perm@[k] != 0);
        }
        assert(is_bwt_of(m, perm@, transformed@, index as int));
    }
    let res = (transformed, index);
    assert(is_bwt_of(with_sentinel(text@), perm@, res.0@, res.1 as int));
    res
}

/// Inverts the transform: the bytes of `text` are ranked by value, equal
/// bytes by position; then, from row `index`, each step yields the byte
/// ranked at the current row and moves to the row of that byte's position.
/// The result is the message with its sentinel.
pub fn bwt_decode(text: &[u8], index: usize) -> (message: Vec<u8>)
    requires
        text@.len() == 0 || index < text@.len(),
    ensures
        exists|perm: Seq<usize>| #[trigger] is_inverse_bwt_of(text@, perm, index as int, message@),
{
    let n = text.len();
    let mut keys: Vec<Vec<u8>> = Vec::new();
    let mut i: usize = 0;
    while i < n
        invariant
            i <= n,
            n == text.len(),
            keys.len() == i,
            forall|k: int| 0 <= k < i ==> (#[trigger] keys@[k])@ == seq![text@[k]],
        decreases n - i,
    {
        let mut key: Vec<u8> = Vec::new();
        key.push(text[i]);
        assert(key@ =~= seq![text@[i as int]]);
        keys.push(key);
        i = i + 1;
    }
    assert(words(keys@) =~= singles(text@));
    let perm = sorted_order(&keys);
    let mut out: Vec<u8> = Vec::new();
    let mut cur: usize = index;
    i = 0;
    assert(walk(text@, perm@, cur as int, 0) =~= Seq::<u8>::empty());
    while i < n
        invariant
            i <= n,
            n == text.len(),
            is_sorted_order(singles(text@), perm@),
            n == 0 || cur < n,
            walk(text@, perm@, index as int, n as nat) == out@ + walk(
                text@,
                perm@,
                cur as int,
                (n - i) as nat,
            ),
        decreases n - i,
    {
        let pos = perm[cur];
        let ghost before = out@;
        out.push(text[pos]);
        proof {
            let tail = walk(text@, perm@, pos as int, (n - i - 1) as nat);
            assert(before + (seq![text@[pos as int]] + tail) =~= out@ + tail);
        }
        cur = pos;
        i = i + 1;
    }
    assert(out@ + Seq::<u8>::empty() =~= out@);
    assert(is_inverse_bwt_of(text@, perm@, index as int, out@));
    out
}

} // verus!
