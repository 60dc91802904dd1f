//! Huffman coding: the frequency tree, its prefix code, and the canonical
//! form of that code.
use vstd::prelude::*;
use crate::error::CodecError;
use crate::compressor::order::{
    is_sorted_order,
    key_before,
    lemma_every_offset_listed,
    sorted_order,
    words,
};

verus! {

/// A node of the frequency tree. A parent owns both of its children.
#[derive(Debug)]
pub enum HNode {
    Leaf { value: u8, freq: usize },
    Parent { freq: usize, left: Box<HNode>, right: Box<HNode> },
}

impl HNode {
    /// The frequency that the node carries.
    pub open spec fn weight(self) -> nat {
        match self {
            HNode::Leaf { freq, .. } => freq as nat,
            HNode::Parent { freq, .. } => freq as nat,
        }
    }

    /// Whether the node is a leaf.
    pub open spec fn is_leaf(self) -> bool {
        self is Leaf
    }

    /// The frequency that the node carries.
    pub fn freq(&self) -> (f: usize)
        ensures
            f == self.weight(),
    {
        match self {
            HNode::Leaf { freq, .. } => *freq,
            HNode::Parent { freq, .. } => *freq,
        }
    }

    /// Whether the node is a leaf.
    pub fn leaf(&self) -> (b: bool)
        ensures
            b == self.is_leaf(),
    {
        match self {
            HNode::Leaf { .. } => true,
            HNode::Parent { .. } => false,
        }
    }
}

/// How often `v` occurs in `text`.
pub open spec fn count_eq(text: Seq<u8>, v: u8) -> nat
    decreases text.len(),
{
    if text.len() == 0 {
        0
    } else {
        count_eq(text.drop_last(), v) + if text.last() == v { 1nat } else { 0nat }
    }
}

/// How many bytes of `text` are below `k`.
pub open spec fn count_below(text: Seq<u8>, k: int) -> nat
    decreases text.len(),
{
    if text.len() == 0 {
        0
    } else {
        count_below(text.drop_last(), k) + if text.last() < k { 1nat } else { 0nat }
    }
}

/// One leaf for each byte value below `k` that occurs in `text`, by
/// ascending value.
pub open spec fn leaves_below(text: Seq<u8>, k: int) -> Seq<HNode>
    decreases k,
{
    if k <= 0 {
        Seq::empty()
    } else {
        let rest = leaves_below(text, k - 1);
        let c = count_eq(text, (k - 1) as u8);
        if c > 0 {
            rest.push(HNode::Leaf { value: (k - 1) as u8, freq: c as usize })
        } else {
            rest
        }
    }
}

/// Whether `a` leaves the queue strictly before `b`: the lower frequency
/// first, and of two equal frequencies a leaf before a parent.
pub open spec fn pops_before(a: HNode, b: HNode) -> bool {
    a.weight() < b.weight() || (a.weight() == b.weight() && a.is_leaf() && !b.is_leaf())
}

/// The position that leaves the queue next, when `best` is the choice
/// among the positions below `i`: of nodes that neither precedes the
/// other, the one that stands first.
pub open spec fn first_pick(q: Seq<HNode>, best: int, i: int) -> int
    decreases q.len() - i,
{
    if i >= q.len() {
        best
    } else if pops_before(q[i], q[best]) {
        first_pick(q, i, i + 1)
    } else {
        first_pick(q, best, i + 1)
    }
}

/// The position that leaves the queue next.
pub open spec fn next_pop(q: Seq<HNode>) -> int {
    first_pick(q, 0, 1)
}

/// The parent of two nodes, the first popped on the left.
pub open spec fn merge(u1: HNode, u2: HNode) -> HNode {
    HNode::Parent {
        freq: (u1.weight() + u2.weight()) as usize,
        left: Box::new(u1),
        right: Box::new(u2),
    }
}

/// The queue after its two first nodes have left and their parent has
/// joined at the end.
pub open spec fn reduce_step(q: Seq<HNode>) -> Seq<HNode> {
    let i1 = next_pop(q);
    let q1 = q.remove(i1);
    let i2 = next_pop(q1);
    q1.remove(i2).push(merge(q[i1], q1[i2]))
}

/// The node that is left when the queue has been reduced to one, in at
/// most `fuel` steps.
pub open spec fn huffman_reduce(q: Seq<HNode>, fuel: nat) -> HNode
    decreases fuel,
{
    if fuel == 0 || q.len() <= 1 {
        q[0]
    } else {
        huffman_reduce(reduce_step(q), (fuel - 1) as nat)
    }
}

/// The frequency tree of a non-empty text.
pub open spec fn huffman_tree_of(text: Seq<u8>) -> HNode {
    huffman_reduce(leaves_below(text, 256), 256)
}

/// The sum of the frequencies in the queue.
pub open spec fn total(q: Seq<HNode>) -> nat
    decreases q.len(),
{
    if q.len() == 0 {
        0
    } else {
        total(q.drop_last()) + q.last().weight()
    }
}

proof fn lemma_total_remove(q: Seq<HNode>, i: int)
    requires
        0 <= i < q.len(),
    ensures
        total(q.remove(i)) + q[i].weight() == total(q),
    decreases q.len(),
{
    if i == q.len() - 1 {
        assert(q.remove(i) =~= q.drop_last());
    } else {
        assert(q.remove(i).drop_last() =~= q.drop_last().remove(i));
        assert(q.remove(i).last() == q.last());
        lemma_total_remove(q.drop_last(), i);
    }
}

proof fn lemma_total_push(q: Seq<HNode>, x: HNode)
    ensures
        total(q.push(x)) == total(q) + x.weight(),
{
    assert(q.push(x).drop_last() =~= q);
}

proof fn lemma_count_below_step(text: Seq<u8>, k: int)
    requires
        0 <= k < 256,
    ensures
        count_below(text, k + 1) == count_below(text, k) + count_eq(text, k as u8),
        count_below(text, k) <= text.len(),
        count_eq(text, k as u8) <= text.len(),
    decreases text.len(),
{
    if text.len() > 0 {
        lemma_count_below_step(text.drop_last(), k);
    }
}

proof fn lemma_count_below_all(text: Seq<u8>)
    ensures
        count_below(text, 256) == text.len(),
        count_below(text, 0) == 0,
    decreases text.len(),
{
    if text.len() > 0 {
        lemma_count_below_all(text.drop_last());
    }
}

proof fn lemma_leaves_total(text: Seq<u8>, k: int)
    requires
        0 <= k <= 256,
        text.len() <= usize::MAX,
    ensures
        total(leaves_below(text, k)) == count_below(text, k),
        leaves_below(text, k).len() <= k,
    decreases k,
{
    if k > 0 {
        lemma_leaves_total(text, k - 1);
        lemma_count_below_step(text, k - 1);
        let c = count_eq(text, (k - 1) as u8);
        if c > 0 {
            lemma_total_push(
                leaves_below(text, k - 1),
                HNode::Leaf { value: (k - 1) as u8, freq: c as usize },
            );
        }
    } else {
        lemma_count_below_all(text);
    }
}

/// How often `v` occurs in `text`.
fn count_byte(text: &[u8], v: u8) -> (c: usize)
    ensures
        c == count_eq(text@, v),
{
    let n = text.len();
    let mut c: usize = 0;
    let mut i: usize = 0;
    while i < n
        invariant
            i <= n,
            n == text.len(),
            c <= i,
            c == count_eq(text@.subrange(0, i as int), v),
        decreases n - i,
    {
        assert(text@.subrange(0, i + 1).drop_last() =~= text@.subrange(0, i as int));
        if text[i] == v {
            c = c + 1;
        }
        i = i + 1;
    }
    assert(text@.subrange(0, n as int) =~= text@);
    c
}

/// The position that leaves the queue next.
fn pick(q: &Vec<HNode>) -> (best: usize)
    requires
        q.len() > 0,
    ensures
        best == next_pop(q@),
        best < q.len(),
{
    let mut best: usize = 0;
    let mut i: usize = 1;
    while i < q.len()
        invariant
            1 <= i,
            best < q.len(),
            next_pop(q@) == first_pick(q@, best as int, i as int),
        decreases q.len() - i,
    {
        let a = &q[i];
        let b = &q[best];
        let fa = a.freq();
        let fb = b.freq();
        if fa < fb || (fa == fb && a.leaf() && !b.leaf()) {
            best = i;
        }
        i = i + 1;
    }
    best
}

/// Builds the frequency tree of `text`: one leaf for each byte value that
/// occurs; then, while more than one node is queued, the two that pop
/// first (lowest frequency, a leaf before a parent, else the one queued
/// first) leave and their parent joins, the first popped as its left
/// child. A text of one distinct value yields that leaf alone.
pub fn build_huffman_tree(text: &[u8]) -> (tree: HNode)
    requires
        text@.len() > 0,
    ensures
        tree == huffman_tree_of(text@),
{
    let n = text.len();
    let mut q: Vec<HNode> = Vec::new();
    let mut k: usize = 0;
    while k < 256
        invariant
            k <= 256,
            q@ == leaves_below(text@, k as int),
        decreases 256 - k,
    {
        let c = count_byte(text, k as u8);
        if c > 0 {
            q.push(HNode::Leaf { value: k as u8, freq: c });
        }
        k = k + 1;
    }
    proof {
        lemma_leaves_total(text@, 256);
        lemma_count_below_all(text@);
    }
    let ghost mut fuel: nat = 256;
    while q.len() > 1
        invariant
            q.len() >= 1,
            q.len() <= fuel,
            total(q@) == n,
            huffman_tree_of(text@) == huffman_reduce(q@, fuel),
        decreases q.len(),
    {
        let ghost q0 = q@;
        let i1 = pick(&q);
        let u1 = q.remove(i1);
        let ghost q1 = q@;
        let i2 = pick(&q);
        let u2 = q.remove(i2);
        proof {
            lemma_total_remove(q0, i1 as int);
            lemma_total_remove(q1, i2 as int);
            lemma_total_push(q@, merge(u1, u2));
        }
        let f = u1.freq() + u2.freq();
        q.push(HNode::Parent { freq: f, left: Box::new(u1), right: Box::new(u2) });
        proof {
            assert(q@ == reduce_step(q0));
            fuel = (fuel - 1) as nat;
        }
    }
    q.remove(0)
}

/// A code table as plain values: each entry a symbol and its codeword, one
/// bit to a byte.
pub open spec fn entries(t: Seq<(u8, Vec<u8>)>) -> Seq<(u8, Seq<u8>)> {
    Seq::new(t.len(), |i: int| (t[i].0, t[i].1@))
}

/// The codewords of a table, in table order.
pub open spec fn code_words(t: Seq<(u8, Seq<u8>)>) -> Seq<Seq<u8>> {
    Seq::new(t.len(), |i: int| t[i].1)
}

/// The codewords under `node` when `prefix` leads to it: a step to the
/// left adds a 1, a step to the right a 0, left before right.
pub open spec fn codes_of(node: HNode, prefix: Seq<u8>) -> Seq<(u8, Seq<u8>)>
    decreases node,
{
    match node {
        HNode::Leaf { value, .. } => seq![(value, prefix)],
        HNode::Parent { left, right, .. } => codes_of(*left, prefix.push(1u8)) + codes_of(
            *right,
            prefix.push(0u8),
        ),
    }
}

/// The first entry at or after `i` that holds `sym`; the table's length
/// where there is none.
pub open spec fn symbol_index_from(t: Seq<(u8, Seq<u8>)>, sym: u8, i: int) -> int
    decreases t.len() - i,
{
    if i < 0 || i >= t.len() {
        t.len() as int
    } else if t[i].0 == sym {
        i
    } else {
        symbol_index_from(t, sym, i + 1)
    }
}

/// The first entry at or after `i` whose codeword is `word`; the table's
/// length where there is none.
pub open spec fn word_index_from(t: Seq<(u8, Seq<u8>)>, word: Seq<u8>, i: int) -> int
    decreases t.len() - i,
{
    if i < 0 || i >= t.len() {
        t.len() as int
    } else if t[i].1 == word {
        i
    } else {
        word_index_from(t, word, i + 1)
    }
}

/// Every byte of `msg` has an entry in `t`.
pub open spec fn all_coded(msg: Seq<u8>, t: Seq<(u8, Seq<u8>)>) -> bool {
    forall|i: int| 0 <= i < msg.len() ==> symbol_index_from(t, #[trigger] msg[i], 0) < t.len()
}

/// The codewords of the bytes of `msg`, one after the other.
pub open spec fn encode_with(msg: Seq<u8>, t: Seq<(u8, Seq<u8>)>) -> Seq<u8>
    decreases msg.len(),
{
    if msg.len() == 0 {
        Seq::empty()
    } else {
        t[symbol_index_from(t, msg[0], 0)].1 + encode_with(msg.drop_first(), t)
    }
}

/// `head` put before what was decoded, if anything was.
pub open spec fn prepend(head: Seq<u8>, rest: Option<Seq<u8>>) -> Option<Seq<u8>> {
    match rest {
        Some(r) => Some(head + r),
        None => None,
    }
}

/// The symbols that `bits` spell when `acc` has been read since the last
/// match: after each bit the table is searched for the accumulated word,
/// and a match yields its symbol and clears the accumulation. Bits left
/// over at the end spell nothing.
pub open spec fn decode_from(bits: Seq<u8>, t: Seq<(u8, Seq<u8>)>, acc: Seq<u8>) -> Option<Seq<u8>>
    decreases bits.len(),
{
    if bits.len() == 0 {
        if acc.len() == 0 {
            Some(Seq::empty())
        } else {
            None
        }
    } else {
        let word = acc.push(bits[0]);
        let j = word_index_from(t, word, 0);
        if j < t.len() {
            prepend(seq![t[j].0], decode_from(bits.drop_first(), t, Seq::empty()))
        } else {
            decode_from(bits.drop_first(), t, word)
        }
    }
}

/// The symbols that `bits` spell.
pub open spec fn decode_with(bits: Seq<u8>, t: Seq<(u8, Seq<u8>)>) -> Option<Seq<u8>> {
    decode_from(bits, t, Seq::empty())
}

/// The length of the codeword of `sym`, 0 where it has none; of several
/// entries the last counts.
pub open spec fn code_length(t: Seq<(u8, Seq<u8>)>, sym: u8) -> nat
    decreases t.len(),
{
    if t.len() == 0 {
        0
    } else if t.last().0 == sym {
        t.last().1.len()
    } else {
        code_length(t.drop_last(), sym)
    }
}

/// The binary number `b`, most significant bit first, plus one; a carry
/// out of the first bit makes the word one bit longer.
pub open spec fn incr(b: Seq<u8>) -> Seq<u8>
    decreases b.len(),
{
    if b.len() == 0 {
        seq![1u8]
    } else if b.last() == 0 {
        b.drop_last().push(1u8)
    } else {
        incr(b.drop_last()).push(0u8)
    }
}

/// `n` zero bits.
pub open spec fn zero_bits(n: nat) -> Seq<u8> {
    Seq::new(n, |i: int| 0u8)
}

/// The canonical codeword of the entry ranked `k`, where `perm` ranks the
/// entries of `t`: the first is all zeros; each later one is its
/// predecessor plus one, shifted left by the growth in length, or cut to
/// the low bits of that length where the length stays.
pub open spec fn canon_word(t: Seq<(u8, Seq<u8>)>, perm: Seq<usize>, k: int) -> Seq<u8>
    decreases k,
{
    let len = t[perm[k] as int].1.len();
    if k <= 0 {
        zero_bits(len)
    } else {
        let prev_len = t[perm[k - 1] as int].1.len();
        let next = incr(canon_word(t, perm, k - 1));
        if len > prev_len {
            next + zero_bits((len - prev_len) as nat)
        } else if next.len() > prev_len {
            next.subrange(next.len() - prev_len, next.len() as int)
        } else {
            next
        }
    }
}

/// The canonical table: the symbols of `t` in rank order, each with its
/// canonical codeword.
pub open spec fn canonical_table(t: Seq<(u8, Seq<u8>)>, perm: Seq<usize>) -> Seq<(u8, Seq<u8>)> {
    Seq::new(t.len(), |k: int| (t[perm[k] as int].0, canon_word(t, perm, k)))
}

/// `perm` ranks the codewords of `t` (shorter first, then bit by bit, equal
/// ones in table order) and `out` is the canonical table in that order.
pub open spec fn is_canonical_of(t: Seq<(u8, Seq<u8>)>, perm: Seq<usize>, out: Seq<(u8, Seq<u8>)>) -> bool {
    is_sorted_order(code_words(t), perm) && out == canonical_table(t, perm)
}

/// `a` is the beginning of `b`, or all of it.
pub open spec fn is_prefix(a: Seq<u8>, b: Seq<u8>) -> bool {
    a.len() <= b.len() && b.subrange(0, a.len() as int) == a
}

/// No codeword of the table begins another entry's codeword.
pub open spec fn prefix_free(t: Seq<(u8, Seq<u8>)>) -> bool {
    forall|i: int, j: int|
        0 <= i < t.len() && 0 <= j < t.len() && i != j ==> !is_prefix(
            (#[trigger] t[i]).1,
            (#[trigger] t[j]).1,
        )
}

proof fn lemma_word_index(t: Seq<(u8, Seq<u8>)>, word: Seq<u8>, i: int)
    requires
        0 <= i <= t.len(),
    ensures
        i <= word_index_from(t, word, i) <= t.len(),
        word_index_from(t, word, i) < t.len() ==> t[word_index_from(t, word, i)].1 == word,
        forall|m: int| i <= m < word_index_from(t, word, i) ==> (#[trigger] t[m]).1 != word,
    decreases t.len() - i,
{
    if i < t.len() && t[i].1 != word {
        lemma_word_index(t, word, i + 1);
    }
}

proof fn lemma_symbol_index(t: Seq<(u8, Seq<u8>)>, sym: u8, i: int)
    requires
        0 <= i <= t.len(),
    ensures
        i <= symbol_index_from(t, sym, i) <= t.len(),
        symbol_index_from(t, sym, i) < t.len() ==> t[symbol_index_from(t, sym, i)].0 == sym,
    decreases t.len() - i,
{
    if i < t.len() && t[i].0 != sym {
        lemma_symbol_index(t, sym, i + 1);
    }
}

proof fn lemma_decode_word(t: Seq<(u8, Seq<u8>)>, j: int, k: int, rest: Seq<u8>)
    requires
        prefix_free(t),
        0 <= j < t.len(),
        0 <= k < t[j].1.len(),
    ensures
        decode_from(
            t[j].1.subrange(k, t[j].1.len() as int) + rest,
            t,
            t[j].1.subrange(0, k),
        ) == prepend(seq![t[j].0], decode_from(rest, t, Seq::empty())),
    decreases t[j].1.len() - k,
{
    let w = t[j].1;
    let n = w.len() as int;
    let bits = w.subrange(k, n) + rest;
    let acc = w.subrange(0, k);
    let word = acc.push(bits[0]);
    assert(bits[0] == w[k]);
    assert(word =~= w.subrange(0, k + 1));
    let idx = word_index_from(t, word, 0);
    lemma_word_index(t, word, 0);
    if k + 1 == n {
        assert(word =~= w);
        if idx != j {
            if idx > j {
                assert(t[j].1 != word);
            }
            assert(is_prefix(t[idx].1, t[j].1)) by {
                assert(w.subrange(0, n) =~= w);
            }
            assert(false);
        }
        assert(bits.drop_first() =~= rest);
    } else {
        if idx < t.len() {
            assert(t[idx].1.len() == k + 1);
            assert(idx != j);
            assert(is_prefix(t[idx].1, t[j].1));
            assert(false);
        }
        assert(bits.drop_first() =~= w.subrange(k + 1, n) + rest);
        lemma_decode_word(t, j, k + 1, rest);
    }
}

/// Decoding undoes encoding for every table that is prefix-free and has
/// no empty codeword: a message whose bytes all have entries is spelt by
/// its bits.
pub proof fn lemma_prefix_free_round_trip(msg: Seq<u8>, t: Seq<(u8, Seq<u8>)>)
    requires
        prefix_free(t),
        all_coded(msg, t),
        forall|i: int| 0 <= i < t.len() ==> (#[trigger] t[i]).1.len() > 0,
    ensures
        decode_with(encode_with(msg, t), t) == Some(msg),
    decreases msg.len(),
{
    if msg.len() > 0 {
        let j = symbol_index_from(t, msg[0], 0);
        lemma_symbol_index(t, msg[0], 0);
        let rest = msg.drop_first();
        assert(all_coded(rest, t)) by {
            assert forall|i: int| 0 <= i < rest.len() implies symbol_index_from(
                t,
                #[trigger] rest[i],
                0,
            ) < t.len() by {
                assert(rest[i] == msg[i + 1]);
            }
        }
        lemma_prefix_free_round_trip(rest, t);
        let w = t[j].1;
        let tail = encode_with(rest, t);
        assert(w.subrange(0, w.len() as int) =~= w);
        assert(w.subrange(0, 0) =~= Seq::<u8>::empty());
        lemma_decode_word(t, j, 0, tail);
        assert(seq![msg[0]] + rest =~= msg);
    }
}

proof fn lemma_codes_start_with(node: HNode, prefix: Seq<u8>)
    ensures
        forall|i: int|
            0 <= i < codes_of(node, prefix).len() ==> is_prefix(
                prefix,
                (#[trigger] codes_of(node, prefix)[i]).1,
            ),
        codes_of(node, prefix).len() > 0,
    decreases node,
{
    match node {
        HNode::Leaf { value, .. } => {
            assert(prefix.subrange(0, prefix.len() as int) =~= prefix);
        },
        HNode::Parent { left, right, .. } => {
            let p1 = prefix.push(1u8);
            let p0 = prefix.push(0u8);
            lemma_codes_start_with(*left, p1);
            lemma_codes_start_with(*right, p0);
            let l = codes_of(*left, p1);
            let r = codes_of(*right, p0);
            let all = codes_of(node, prefix);
            assert forall|i: int| 0 <= i < all.len() implies is_prefix(
                prefix,
                (#[trigger] all[i]).1,
            ) by {
                let w = all[i].1;
                if i < l.len() {
                    assert(all[i] == l[i]);
                    assert(is_prefix(p1, w));
                    assert(w.subrange(0, prefix.len() as int) =~= p1.subrange(
                        0,
                        prefix.len() as int,
                    )) by {
                        assert(w.subrange(0, p1.len() as int) == p1);
                        assert forall|x: int| 0 <= x < prefix.len() implies w[x] == p1[x] by {
                            assert(w.subrange(0, p1.len() as int)[x] == w[x]);
                        }
                    }
                    assert(p1.subrange(0, prefix.len() as int) =~= prefix);
                } else {
                    assert(all[i] == r[i - l.len()]);
                    assert(is_prefix(p0, w));
                    assert(w.subrange(0, prefix.len() as int) =~= p0.subrange(
                        0,
                        prefix.len() as int,
                    )) by {
                        assert(w.subrange(0, p0.len() as int) == p0);
                        assert forall|x: int| 0 <= x < prefix.len() implies w[x] == p0[x] by {
                            assert(w.subrange(0, p0.len() as int)[x] == w[x]);
                        }
                    }
                    assert(p0.subrange(0, prefix.len() as int) =~= prefix);
                }
            }
        },
    }
}

/// The codewords that a tree gives its leaves are prefix-free, whatever
/// the tree; below a parent none of them is empty.
pub proof fn lemma_tree_codes_prefix_free(node: HNode, prefix: Seq<u8>)
    ensures
        prefix_free(codes_of(node, prefix)),
        !node.is_leaf() ==> forall|i: int|
            0 <= i < codes_of(node, prefix).len() ==> (#[trigger] codes_of(node, prefix)[i]).1.len()
                > prefix.len(),
    decreases node,
{
    match node {
        HNode::Leaf { .. } => {},
        HNode::Parent { left, right, .. } => {
            let p1 = prefix.push(1u8);
            let p0 = prefix.push(0u8);
            let n = prefix.len() as int;
            lemma_tree_codes_prefix_free(*left, p1);
            lemma_tree_codes_prefix_free(*right, p0);
            lemma_codes_start_with(*left, p1);
            lemma_codes_start_with(*right, p0);
            let l = codes_of(*left, p1);
            let r = codes_of(*right, p0);
            let all = codes_of(node, prefix);
            assert forall|i: int| 0 <= i < all.len() implies (#[trigger] all[i]).1.len() > n && (
            if i < l.len() {
                all[i].1[n] == 1
            } else {
                all[i].1[n] == 0
            }) by {
                let w = all[i].1;
                if i < l.len() {
                    assert(all[i] == l[i]);
                    assert(is_prefix(p1, w));
                    assert(w.subrange(0, p1.len() as int)[n] == w[n]);
                } else {
                    assert(all[i] == r[i - l.len()]);
                    assert(is_prefix(p0, w));
                    assert(w.subrange(0, p0.len() as int)[n] == w[n]);
                }
            }
            assert forall|i: int, j: int|
                0 <= i < all.len() && 0 <= j < all.len() && i != j implies !is_prefix(
                (#[trigger] all[i]).1,
                (#[trigger] all[j]).1,
            ) by {
                let a = all[i].1;
                let b = all[j].1;
                if i < l.len() && j < l.len() {
                    assert(all[i] == l[i] && all[j] == l[j]);
                } else if i >= l.len() && j >= l.len() {
                    assert(all[i] == r[i - l.len()] && all[j] == r[j - l.len()]);
                } else {
                    assert(a[n] != b[n]);
                    if is_prefix(a, b) {
                        assert(b.subrange(0, a.len() as int)[n] == b[n]);
                        assert(false);
                    }
                }
            }
        },
    }
}

/// Plain Huffman coding round-trips: with the codebook of any tree that
/// is not a single leaf, a message whose bytes all have leaves is spelt by
/// its bits.
pub proof fn lemma_tree_round_trip(node: HNode, msg: Seq<u8>)
    requires
        !node.is_leaf(),
        all_coded(msg, codes_of(node, Seq::empty())),
    ensures
        decode_with(encode_with(msg, codes_of(node, Seq::empty())), codes_of(node, Seq::empty()))
            == Some(msg),
{
    lemma_tree_codes_prefix_free(node, Seq::empty());
    lemma_prefix_free_round_trip(msg, codes_of(node, Seq::empty()));
}

/// The number that `b` writes in binary, most significant bit first.
pub open spec fn bits_value(b: Seq<u8>) -> nat
    decreases b.len(),
{
    if b.len() == 0 {
        0
    } else {
        2 * bits_value(b.drop_last()) + if b.last() == 0 { 0nat } else { 1nat }
    }
}

/// The canonical assignment never carries out of a codeword: no entry
/// but the last holds all ones.
pub open spec fn no_carry(t: Seq<(u8, Seq<u8>)>, perm: Seq<usize>) -> bool {
    no_carry_below(t, perm, t.len() as int)
}

/// The canonical assignment does not carry out of any of the codewords
/// ranked below `m`.
pub open spec fn no_carry_below(t: Seq<(u8, Seq<u8>)>, perm: Seq<usize>, m: int) -> bool {
    forall|k: int|
        0 <= k < m && k + 1 < t.len() ==> incr(#[trigger] canon_word(t, perm, k)).len()
            == t[perm[k] as int].1.len()
}

proof fn lemma_incr_len(b: Seq<u8>)
    ensures
        b.len() <= incr(b).len() <= b.len() + 1,
    decreases b.len(),
{
    if b.len() > 0 && b.last() != 0 {
        lemma_incr_len(b.drop_last());
    }
}

proof fn lemma_incr_prefix(b: Seq<u8>, l: int)
    requires
        incr(b).len() == b.len(),
        0 <= l <= b.len(),
    ensures
        bits_value(incr(b).subrange(0, l)) >= bits_value(b.subrange(0, l)),
        l == b.len() ==> bits_value(incr(b)) == bits_value(b) + 1,
    decreases b.len(),
{
    if b.len() > 0 {
        let dl = b.drop_last();
        if b.last() == 0 {
            assert(incr(b).drop_last() =~= dl);
            if l < b.len() {
                assert(incr(b).subrange(0, l) =~= b.subrange(0, l));
            }
        } else {
            lemma_incr_len(dl);
            assert(incr(b).drop_last() =~= incr(dl));
            if l < b.len() {
                lemma_incr_prefix(dl, l);
                assert(incr(b).subrange(0, l) =~= incr(dl).subrange(0, l));
                assert(b.subrange(0, l) =~= dl.subrange(0, l));
            } else {
                lemma_incr_prefix(dl, l - 1);
            }
        }
        if l == b.len() {
            assert(incr(b).subrange(0, l) =~= incr(b));
            assert(b.subrange(0, l) =~= b);
        }
    }
}

proof fn lemma_lengths_ascend(t: Seq<(u8, Seq<u8>)>, perm: Seq<usize>, i: int, k: int)
    requires
        is_sorted_order(code_words(t), perm),
        0 <= i <= k < t.len(),
    ensures
        t[perm[i] as int].1.len() <= t[perm[k] as int].1.len(),
    decreases k - i,
{
    if i < k {
        lemma_lengths_ascend(t, perm, i, k - 1);
        let ws = code_words(t);
        assert(key_before(ws, perm[k - 1] as int, perm[k - 1 + 1] as int));
        assert(ws[perm[k - 1] as int] == t[perm[k - 1] as int].1);
        assert(ws[perm[k] as int] == t[perm[k] as int].1);
    }
}

proof fn lemma_canon_len(t: Seq<(u8, Seq<u8>)>, perm: Seq<usize>, k: int)
    requires
        is_sorted_order(code_words(t), perm),
        no_carry_below(t, perm, k),
        0 <= k < t.len(),
    ensures
        canon_word(t, perm, k).len() == t[perm[k] as int].1.len(),
    decreases k,
{
    if k > 0 {
        lemma_canon_len(t, perm, k - 1);
        lemma_lengths_ascend(t, perm, k - 1, k);
        let prev = canon_word(t, perm, k - 1);
        assert(incr(prev).len() == t[perm[k - 1] as int].1.len());
    }
}

proof fn lemma_canon_prefix_value(t: Seq<(u8, Seq<u8>)>, perm: Seq<usize>, i: int, k: int)
    requires
        is_sorted_order(code_words(t), perm),
        no_carry(t, perm),
        0 <= i < k < t.len(),
    ensures
        t[perm[i] as int].1.len() <= canon_word(t, perm, k).len(),
        bits_value(canon_word(t, perm, k).subrange(0, t[perm[i] as int].1.len() as int))
            > bits_value(canon_word(t, perm, i)),
    decreases k,
{
    let li = t[perm[i] as int].1.len() as int;
    let prev = canon_word(t, perm, k - 1);
    let next = incr(prev);
    let word = canon_word(t, perm, k);
    lemma_canon_len(t, perm, k - 1);
    lemma_canon_len(t, perm, k);
    lemma_canon_len(t, perm, i);
    lemma_lengths_ascend(t, perm, i, k - 1);
    lemma_lengths_ascend(t, perm, k - 1, k);
    assert(next.len() == prev.len());
    assert(word.subrange(0, li) =~= next.subrange(0, li));
    lemma_incr_prefix(prev, li);
    if i == k - 1 {
        assert(prev.subrange(0, li) =~= prev);
        assert(next.subrange(0, li) =~= next);
    } else {
        lemma_canon_prefix_value(t, perm, i, k - 1);
    }
}

/// A canonical table is prefix-free wherever its assignment never
/// carries out of a codeword.
pub proof fn lemma_canonical_prefix_free(t: Seq<(u8, Seq<u8>)>, perm: Seq<usize>)
    requires
        is_sorted_order(code_words(t), perm),
        no_carry(t, perm),
    ensures
        prefix_free(canonical_table(t, perm)),
        forall|k: int|
            0 <= k < t.len() ==> (#[trigger] canonical_table(t, perm)[k]).1.len()
                == t[perm[k] as int].1.len(),
{
    let ct = canonical_table(t, perm);
    assert forall|k: int| 0 <= k < t.len() implies (#[trigger] ct[k]).1.len() == t[perm[k] as int].1.len() by {
        lemma_canon_len(t, perm, k);
    }
    assert forall|a: int, b: int| 0 <= a < ct.len() && 0 <= b < ct.len() && a != b implies !is_prefix(
        (#[trigger] ct[a]).1,
        (#[trigger] ct[b]).1,
    ) by {
        let wa = canon_word(t, perm, a);
        let wb = canon_word(t, perm, b);
        lemma_canon_len(t, perm, a);
        lemma_canon_len(t, perm, b);
        if is_prefix(wa, wb) {
            if a < b {
                lemma_canon_prefix_value(t, perm, a, b);
            } else {
                lemma_lengths_ascend(t, perm, b, a);
                lemma_canon_prefix_value(t, perm, b, a);
                assert(wb.subrange(0, wa.len() as int) =~= wb);
                assert(wa.subrange(0, wb.len() as int) =~= wa);
            }
            assert(false);
        }
    }
}

/// Canonical coding round-trips: where the canonical assignment never
/// carries out and no codeword of the codebook is empty, a message whose
/// bytes all have entries is spelt by its canonical bits.
pub proof fn lemma_canonical_round_trip(t: Seq<(u8, Seq<u8>)>, perm: Seq<usize>, msg: Seq<u8>)
    requires
        is_sorted_order(code_words(t), perm),
        no_carry(t, perm),
        forall|i: int| 0 <= i < t.len() ==> (#[trigger] t[i]).1.len() > 0,
        all_coded(msg, canonical_table(t, perm)),
    ensures
        decode_with(encode_with(msg, canonical_table(t, perm)), canonical_table(t, perm)) == Some(
            msg,
        ),
{
    lemma_canonical_prefix_free(t, perm);
    let ct = canonical_table(t, perm);
    assert forall|k: int| 0 <= k < ct.len() implies (#[trigger] ct[k]).1.len() > 0 by {
        assert(t[perm[k] as int].1.len() > 0);
    }
    lemma_prefix_free_round_trip(msg, ct);
}

/// Two to the power `n`.
pub open spec fn pow2(n: nat) -> nat
    decreases n,
{
    if n == 0 {
        1
    } else {
        2 * pow2((n - 1) as nat)
    }
}

/// The share of the code space that a codeword of length `len` takes,
/// in units of the share of a codeword of length `top`.
pub open spec fn share(len: nat, top: nat) -> nat {
    pow2((top - len) as nat)
}

/// The shares of the given lengths together.
pub open spec fn shares(lens: Seq<nat>, top: nat) -> nat
    decreases lens.len(),
{
    if lens.len() == 0 {
        0
    } else {
        shares(lens.drop_last(), top) + share(lens.last(), top)
    }
}

/// The codeword lengths of a table, in table order.
pub open spec fn lengths_of(t: Seq<(u8, Seq<u8>)>) -> Seq<nat> {
    Seq::new(t.len(), |i: int| t[i].1.len())
}

/// The codeword lengths of a table, in rank order.
pub open spec fn ranked_lengths(t: Seq<(u8, Seq<u8>)>, perm: Seq<usize>) -> Seq<nat> {
    Seq::new(t.len(), |k: int| t[perm[k] as int].1.len())
}

proof fn lemma_pow2_positive(n: nat)
    ensures
        pow2(n) >= 1,
    decreases n,
{
    if n > 0 {
        lemma_pow2_positive((n - 1) as nat);
    }
}

proof fn lemma_pow2_sum(a: nat, b: nat)
    ensures
        pow2(a + b) == pow2(a) * pow2(b),
    decreases a,
{
    if a > 0 {
        lemma_pow2_sum((a - 1) as nat, b);
        assert(pow2(a + b) == 2 * pow2((a - 1) as nat + b));
        assert(2 * (pow2((a - 1) as nat) * pow2(b)) == (2 * pow2((a - 1) as nat)) * pow2(b))
            by (nonlinear_arith);
    } else {
        assert(1 * pow2(b) == pow2(b)) by (nonlinear_arith);
    }
}

proof fn lemma_shares_concat(a: Seq<nat>, b: Seq<nat>, top: nat)
    ensures
        shares(a + b, top) == shares(a, top) + shares(b, top),
    decreases b.len(),
{
    if b.len() == 0 {
        assert(a + b =~= a);
    } else {
        assert((a + b).drop_last() =~= a + b.drop_last());
        lemma_shares_concat(a, b.drop_last(), top);
    }
}

proof fn lemma_shares_remove(a: Seq<nat>, i: int, top: nat)
    requires
        0 <= i < a.len(),
    ensures
        shares(a.remove(i), top) + share(a[i], top) == shares(a, top),
    decreases a.len(),
{
    if i == a.len() - 1 {
        assert(a.remove(i) =~= a.drop_last());
    } else {
        assert(a.remove(i).drop_last() =~= a.drop_last().remove(i));
        lemma_shares_remove(a.drop_last(), i, top);
    }
}

/// The shares of the first `k` of the given lengths grow with `k`.
proof fn lemma_shares_grow(a: Seq<nat>, k: int, top: nat)
    requires
        0 <= k < a.len(),
    ensures
        shares(a.subrange(0, k), top) + share(a[k], top) <= shares(a, top),
    decreases a.len(),
{
    if k == a.len() - 1 {
        assert(a.subrange(0, k) =~= a.drop_last());
    } else {
        assert(a.drop_last().subrange(0, k) =~= a.subrange(0, k));
        lemma_shares_grow(a.drop_last(), k, top);
    }
}

/// The shares do not depend on the order: listing the lengths `f` by a
/// permutation of their positions leaves the sum as it is.
proof fn lemma_shares_permuted(f: Seq<nat>, p: Seq<usize>, top: nat)
    requires
        p.len() == f.len(),
        forall|k: int| 0 <= k < p.len() ==> p[k] < f.len(),
        forall|k: int, m: int| 0 <= k < m < p.len() ==> p[k] != p[m],
    ensures
        shares(Seq::new(p.len(), |k: int| f[p[k] as int]), top) == shares(f, top),
    decreases f.len(),
{
    let n = f.len();
    let g = Seq::new(p.len(), |k: int| f[p[k] as int]);
    if n > 0 {
        lemma_every_offset_listed(p, n, n - 1);
        let pos = choose|k: int| 0 <= k < n && p[k] as int == n - 1;
        let p2 = p.remove(pos);
        let f2 = f.drop_last();
        assert forall|k: int| 0 <= k < p2.len() implies p2[k] < f2.len() by {
            let k0 = if k < pos { k } else { k + 1 };
            assert(p2[k] == p[k0]);
            if k0 < pos {
                assert(p[k0] != p[pos]);
            } else {
                assert(p[pos] != p[k0]);
            }
        }
        assert forall|k: int, m: int| 0 <= k < m < p2.len() implies p2[k] != p2[m] by {
            let k0 = if k < pos { k } else { k + 1 };
            let m0 = if m < pos { m } else { m + 1 };
            assert(p2[k] == p[k0] && p2[m] == p[m0]);
        }
        lemma_shares_permuted(f2, p2, top);
        let g2 = Seq::new(p2.len(), |k: int| f2[p2[k] as int]);
        assert(g.remove(pos) =~= g2);
        lemma_shares_remove(g, pos, top);
    } else {
        assert(g =~= f);
    }
}

/// A carry out of the first bit happens to all ones only.
proof fn lemma_carry_is_all_ones(b: Seq<u8>)
    requires
        incr(b).len() == b.len() + 1,
    ensures
        bits_value(b) + 1 == pow2(b.len()),
    decreases b.len(),
{
    if b.len() > 0 {
        if b.last() != 0 {
            lemma_carry_is_all_ones(b.drop_last());
        }
    }
}

proof fn lemma_shifted_value(x: Seq<u8>, d: nat)
    ensures
        bits_value(x + zero_bits(d)) == bits_value(x) * pow2(d),
    decreases d,
{
    if d == 0 {
        assert(x + zero_bits(0) =~= x);
        assert(bits_value(x) * 1 == bits_value(x)) by (nonlinear_arith);
    } else {
        let y = x + zero_bits(d);
        assert(y.drop_last() =~= x + zero_bits((d - 1) as nat));
        assert(y.last() == 0);
        lemma_shifted_value(x, (d - 1) as nat);
        assert(2 * (bits_value(x) * pow2((d - 1) as nat)) == bits_value(x) * (2 * pow2(
            (d - 1) as nat,
        ))) by (nonlinear_arith);
    }
}

/// The codewords of a tree fill the code space exactly: their shares add
/// up to the share of the path that leads to the tree.
proof fn lemma_tree_shares(node: HNode, prefix: Seq<u8>, top: nat)
    requires
        forall|i: int|
            0 <= i < codes_of(node, prefix).len() ==> (#[trigger] codes_of(node, prefix)[i]).1.len()
                <= top,
    ensures
        prefix.len() <= top,
        shares(lengths_of(codes_of(node, prefix)), top) == share(prefix.len(), top),
    decreases node,
{
    lemma_codes_start_with(node, prefix);
    let all = codes_of(node, prefix);
    assert(is_prefix(prefix, all[0].1));
    match node {
        HNode::Leaf { value, .. } => {
            let lens = lengths_of(all);
            assert(lens.drop_last() =~= Seq::<nat>::empty());
            assert(shares(lens.drop_last(), top) == 0);
            assert(lens.last() == prefix.len());
        },
        HNode::Parent { left, right, .. } => {
            let p1 = prefix.push(1u8);
            let p0 = prefix.push(0u8);
            let l = codes_of(*left, p1);
            let r = codes_of(*right, p0);
            assert forall|i: int| 0 <= i < l.len() implies (#[trigger] l[i]).1.len() <= top by {
                assert(all[i] == l[i]);
            }
            assert forall|i: int| 0 <= i < r.len() implies (#[trigger] r[i]).1.len() <= top by {
                assert(all[i + l.len()] == r[i]);
            }
            lemma_tree_shares(*left, p1, top);
            lemma_tree_shares(*right, p0, top);
            assert(lengths_of(all) =~= lengths_of(l) + lengths_of(r));
            lemma_shares_concat(lengths_of(l), lengths_of(r), top);
        },
    }
}

/// The canonical words keep count of the code space taken so far: the
/// word ranked `k`, read as a number, stands at the sum of the shares of
/// the words ranked before it; and while words remain, none carries out.
proof fn lemma_canon_tracks_shares(t: Seq<(u8, Seq<u8>)>, perm: Seq<usize>, top: nat, k: int)
    requires
        is_sorted_order(code_words(t), perm),
        forall|i: int| 0 <= i < t.len() ==> (#[trigger] t[i]).1.len() <= top,
        shares(ranked_lengths(t, perm), top) == pow2(top),
        0 <= k < t.len(),
    ensures
        no_carry_below(t, perm, k),
        canon_word(t, perm, k).len() == t[perm[k] as int].1.len(),
        bits_value(canon_word(t, perm, k)) * share(t[perm[k] as int].1.len(), top) == shares(
            ranked_lengths(t, perm).subrange(0, k),
            top,
        ),
    decreases k,
{
    let lens = ranked_lengths(t, perm);
    let lk = t[perm[k] as int].1.len();
    if k == 0 {
        assert(lens.subrange(0, 0) =~= Seq::<nat>::empty());
        lemma_shifted_value(Seq::<u8>::empty(), lk);
        assert(Seq::<u8>::empty() + zero_bits(lk) =~= zero_bits(lk));
        assert(bits_value(zero_bits(lk)) == 0) by {
            assert(bits_value(Seq::<u8>::empty()) * pow2(lk) == 0) by (nonlinear_arith)
                requires
                    bits_value(Seq::<u8>::empty()) == 0,
            ;
        }
        assert(0 * share(lk, top) == 0) by (nonlinear_arith);
    } else {
        lemma_canon_tracks_shares(t, perm, top, k - 1);
        let prev = canon_word(t, perm, k - 1);
        let lp = t[perm[k - 1] as int].1.len();
        let next = incr(prev);
        let v = bits_value(prev);
        let before = shares(lens.subrange(0, k - 1), top);
        lemma_incr_len(prev);
        lemma_lengths_ascend(t, perm, k - 1, k);
        assert(lens.subrange(0, k).drop_last() =~= lens.subrange(0, k - 1));
        assert(lens.subrange(0, k).last() == lp);
        assert(shares(lens.subrange(0, k), top) == before + share(lp, top));
        lemma_shares_grow(lens, k, top);
        lemma_pow2_positive((top - lk) as nat);
        lemma_pow2_sum(lp, (top - lp) as nat);
        if next.len() != prev.len() {
            lemma_carry_is_all_ones(prev);
            assert((v + 1) * share(lp, top) == v * share(lp, top) + share(lp, top))
                by (nonlinear_arith);
            assert(false);
        }
        assert(no_carry_below(t, perm, k)) by {
            assert forall|j: int| 0 <= j < k && j + 1 < t.len() implies incr(
                #[trigger] canon_word(t, perm, j),
            ).len() == t[perm[j] as int].1.len() by {
                if j < k - 1 {
                    assert(no_carry_below(t, perm, k - 1));
                }
            }
        }
        lemma_incr_prefix(prev, lp as int);
        let d = (lk - lp) as nat;
        let word = canon_word(t, perm, k);
        assert(word =~= next + zero_bits(d)) by {
            if d == 0 {
                assert(next + zero_bits(0) =~= next);
            }
        }
        lemma_shifted_value(next, d);
        lemma_pow2_sum(d, (top - lk) as nat);
        assert(d + (top - lk) == top - lp);
        assert(((v + 1) * pow2(d)) * pow2((top - lk) as nat) == v * (pow2(d) * pow2(
            (top - lk) as nat,
        )) + pow2(d) * pow2((top - lk) as nat)) by (nonlinear_arith);
    }
}

/// The canonical form of a tree's codebook never carries out, so it is
/// prefix-free: for every tree that is not a single leaf, whatever the
/// ranking `perm` of its codewords.
pub proof fn lemma_tree_canonical_prefix_free(node: HNode, perm: Seq<usize>)
    requires
        !node.is_leaf(),
        is_sorted_order(code_words(codes_of(node, Seq::empty())), perm),
    ensures
        no_carry(codes_of(node, Seq::empty()), perm),
        prefix_free(canonical_table(codes_of(node, Seq::empty()), perm)),
{
    let t = codes_of(node, Seq::empty());
    let n = t.len() as int;
    lemma_codes_start_with(node, Seq::empty());
    let top = t[perm[n - 1] as int].1.len();
    assert forall|i: int| 0 <= i < t.len() implies (#[trigger] t[i]).1.len() <= top by {
        lemma_every_offset_listed(perm, n as nat, i);
        let k = choose|k: int| 0 <= k < n && perm[k] as int == i;
        lemma_lengths_ascend(t, perm, k, n - 1);
    }
    lemma_tree_shares(node, Seq::empty(), top);
    lemma_shares_permuted(lengths_of(t), perm, top);
    assert(ranked_lengths(t, perm) =~= Seq::new(perm.len(), |k: int| lengths_of(t)[perm[k] as int]));
    assert(share(0, top) == pow2(top));
    lemma_canon_tracks_shares(t, perm, top, n - 1);
    assert(no_carry(t, perm));
    lemma_canonical_prefix_free(t, perm);
}

/// Whether the tree has a leaf for the byte `v`.
pub open spec fn has_leaf(node: HNode, v: u8) -> bool
    decreases node,
{
    match node {
        HNode::Leaf { value, .. } => value == v,
        HNode::Parent { left, right, .. } => has_leaf(*left, v) || has_leaf(*right, v),
    }
}

/// Whether some node of the queue has a leaf for the byte `v`.
pub open spec fn queue_has(q: Seq<HNode>, v: u8) -> bool {
    exists|i: int| 0 <= i < q.len() && has_leaf(#[trigger] q[i], v)
}

proof fn lemma_first_pick_bound(q: Seq<HNode>, best: int, i: int)
    requires
        0 <= best < q.len(),
        0 <= i,
    ensures
        0 <= first_pick(q, best, i) < q.len(),
    decreases q.len() - i,
{
    if i < q.len() {
        if pops_before(q[i], q[best]) {
            lemma_first_pick_bound(q, i, i + 1);
        } else {
            lemma_first_pick_bound(q, best, i + 1);
        }
    }
}

proof fn lemma_reduce_step_keeps(q: Seq<HNode>, v: u8)
    requires
        q.len() >= 2,
        queue_has(q, v),
    ensures
        reduce_step(q).len() == q.len() - 1,
        queue_has(reduce_step(q), v),
        !reduce_step(q).last().is_leaf(),
{
    let i1 = next_pop(q);
    lemma_first_pick_bound(q, 0, 1);
    let q1 = q.remove(i1);
    let i2 = next_pop(q1);
    lemma_first_pick_bound(q1, 0, 1);
    let q2 = q1.remove(i2);
    let r = reduce_step(q);
    let m = merge(q[i1], q1[i2]);
    assert(r == q2.push(m));
    let i = choose|i: int| 0 <= i < q.len() && has_leaf(#[trigger] q[i], v);
    if i == i1 {
        assert(has_leaf(r[r.len() - 1], v));
    } else {
        let j = if i < i1 { i } else { i - 1 };
        assert(q1[j] == q[i]);
        if j == i2 {
            assert(has_leaf(r[r.len() - 1], v));
        } else {
            let k = if j < i2 { j } else { j - 1 };
            assert(q2[k] == q1[j]);
            assert(has_leaf(r[k], v));
        }
    }
}

proof fn lemma_reduce_keeps(q: Seq<HNode>, fuel: nat, v: u8)
    requires
        q.len() >= 1,
        fuel + 1 >= q.len(),
        queue_has(q, v),
    ensures
        has_leaf(huffman_reduce(q, fuel), v),
        q.len() >= 2 ==> !huffman_reduce(q, fuel).is_leaf(),
    decreases fuel,
{
    if q.len() == 1 {
        let i = choose|i: int| 0 <= i < q.len() && has_leaf(#[trigger] q[i], v);
        assert(i == 0);
    } else {
        lemma_reduce_step_keeps(q, v);
        lemma_reduce_keeps(reduce_step(q), (fuel - 1) as nat, v);
    }
}

proof fn lemma_count_positive(text: Seq<u8>, i: int)
    requires
        0 <= i < text.len(),
    ensures
        count_eq(text, text[i]) > 0,
    decreases text.len(),
{
    if i < text.len() - 1 {
        lemma_count_positive(text.drop_last(), i);
    }
}

proof fn lemma_leaves_have(text: Seq<u8>, k: int, v: u8)
    requires
        count_eq(text, v) > 0,
        v < k <= 256,
    ensures
        exists|i: int|
            0 <= i < leaves_below(text, k).len() && has_leaf(#[trigger] leaves_below(text, k)[i], v)
                && leaves_below(text, k)[i].is_leaf(),
    decreases k,
{
    let rest = leaves_below(text, k - 1);
    let all = leaves_below(text, k);
    if k - 1 == v {
        assert(has_leaf(all[all.len() - 1], v) && all[all.len() - 1].is_leaf());
    } else {
        lemma_leaves_have(text, k - 1, v);
        let i = choose|i: int|
            0 <= i < rest.len() && has_leaf(#[trigger] rest[i], v) && rest[i].is_leaf();
        assert(all[i] == rest[i]);
    }
}

proof fn lemma_codes_have(node: HNode, prefix: Seq<u8>, v: u8)
    requires
        has_leaf(node, v),
    ensures
        exists|i: int|
            0 <= i < codes_of(node, prefix).len() && (#[trigger] codes_of(node, prefix)[i]).0 == v,
    decreases node,
{
    let all = codes_of(node, prefix);
    match node {
        HNode::Leaf { value, .. } => {
            assert(all[0].0 == v);
        },
        HNode::Parent { left, right, .. } => {
            let l = codes_of(*left, prefix.push(1u8));
            let r = codes_of(*right, prefix.push(0u8));
            if has_leaf(*left, v) {
                lemma_codes_have(*left, prefix.push(1u8), v);
                let i = choose|i: int| 0 <= i < l.len() && (#[trigger] l[i]).0 == v;
                assert(all[i] == l[i]);
            } else {
                lemma_codes_have(*right, prefix.push(0u8), v);
                let i = choose|i: int| 0 <= i < r.len() && (#[trigger] r[i]).0 == v;
                assert(all[i + l.len()] == r[i]);
            }
        },
    }
}

proof fn lemma_symbol_found(t: Seq<(u8, Seq<u8>)>, sym: u8, i: int, j: int)
    requires
        0 <= i <= j < t.len(),
        t[j].0 == sym,
    ensures
        symbol_index_from(t, sym, i) < t.len(),
    decreases j - i,
{
    if t[i].0 != sym {
        lemma_symbol_found(t, sym, i + 1, j);
    }
}

/// Huffman coding round-trips on the text that the tree was built from,
/// in plain and in canonical form: for every text with two distinct
/// bytes or more, and whatever the ranking `perm` of its codewords, the
/// canonical table is prefix-free, every byte of the text has a codeword,
/// and the bits of the text spell the text.
pub proof fn lemma_huffman_round_trip(text: Seq<u8>, perm: Seq<usize>, a: int, b: int)
    requires
        0 <= a < text.len(),
        0 <= b < text.len(),
        text[a] != text[b],
        is_sorted_order(code_words(codes_of(huffman_tree_of(text), Seq::empty())), perm),
    ensures
        !huffman_tree_of(text).is_leaf(),
        ({
            let t = codes_of(huffman_tree_of(text), Seq::empty());
            &&& prefix_free(t)
            &&& all_coded(text, t)
            &&& decode_with(encode_with(text, t), t) == Some(text)
        }),
        ({
            let ct = canonical_table(codes_of(huffman_tree_of(text), Seq::empty()), perm);
            &&& prefix_free(ct)
            &&& all_coded(text, ct)
            &&& decode_with(encode_with(text, ct), ct) == Some(text)
        }),
{
    let q = leaves_below(text, 256);
    let tree = huffman_tree_of(text);
    let t = codes_of(tree, Seq::empty());
    let ct = canonical_table(t, perm);
    lemma_count_positive(text, a);
    lemma_count_positive(text, b);
    lemma_leaves_have(text, 256, text[a]);
    lemma_leaves_have(text, 256, text[b]);
    let ia = choose|i: int|
        0 <= i < q.len() && has_leaf(#[trigger] q[i], text[a]) && q[i].is_leaf();
    let ib = choose|i: int|
        0 <= i < q.len() && has_leaf(#[trigger] q[i], text[b]) && q[i].is_leaf();
    assert(ia != ib);
    assert(q.len() >= 2);
    lemma_leaves_len(text, 256);
    assert(queue_has(q, text[a]));
    lemma_reduce_keeps(q, 256, text[a]);
    lemma_tree_codes_prefix_free(tree, Seq::empty());
    lemma_tree_canonical_prefix_free(tree, perm);
    assert forall|i: int| 0 <= i < text.len() implies symbol_index_from(t, #[trigger] text[i], 0)
        < t.len() && symbol_index_from(ct, text[i], 0) < ct.len() by {
        let v = text[i];
        lemma_count_positive(text, i);
        lemma_leaves_have(text, 256, v);
        assert(queue_has(q, v));
        lemma_reduce_keeps(q, 256, v);
        lemma_codes_have(tree, Seq::empty(), v);
        let j = choose|j: int| 0 <= j < t.len() && (#[trigger] t[j]).0 == v;
        lemma_symbol_found(t, v, 0, j);
        lemma_every_offset_listed(perm, t.len(), j);
        let k = choose|k: int| 0 <= k < t.len() && perm[k] as int == j;
        assert(ct[k].0 == v);
        lemma_symbol_found(ct, v, 0, k);
    }
    lemma_tree_round_trip(tree, text);
    lemma_canonical_round_trip(t, perm, text);
}

proof fn lemma_leaves_len(text: Seq<u8>, k: int)
    requires
        0 <= k <= 256,
    ensures
        leaves_below(text, k).len() <= k,
    decreases k,
{
    if k > 0 {
        lemma_leaves_len(text, k - 1);
    }
}

/// A table of one symbol with the empty codeword is its own canonical
/// form, and a message of that symbol alone is written in no bits at all.
pub proof fn lemma_single_symbol_table(sym: u8, perm: Seq<usize>, msg: Seq<u8>)
    requires
        is_sorted_order(code_words(seq![(sym, Seq::<u8>::empty())]), perm),
        forall|i: int| 0 <= i < msg.len() ==> msg[i] == sym,
    ensures
        canonical_table(seq![(sym, Seq::<u8>::empty())], perm) == seq![(sym, Seq::<u8>::empty())],
        all_coded(msg, seq![(sym, Seq::<u8>::empty())]),
        encode_with(msg, seq![(sym, Seq::<u8>::empty())]) == Seq::<u8>::empty(),
    decreases msg.len(),
{
    let t = seq![(sym, Seq::<u8>::empty())];
    assert(perm[0] == 0);
    assert(canon_word(t, perm, 0) =~= Seq::<u8>::empty());
    assert(canonical_table(t, perm) =~= t);
    if msg.len() > 0 {
        lemma_single_symbol_table(sym, perm, msg.drop_first());
        assert(symbol_index_from(t, sym, 0) == 0);
        assert(encode_with(msg, t) =~= Seq::<u8>::empty());
    }
}

/// A copy of `w`.
fn copy_word(w: &Vec<u8>) -> (r: Vec<u8>)
    ensures
        r@ == w@,
{
    let mut r: Vec<u8> = Vec::new();
    let mut i: usize = 0;
    while i < w.len()
        invariant
            i <= w.len(),
            r@ == w@.subrange(0, i as int),
        decreases w.len() - i,
    {
        r.push(w[i]);
        i = i + 1;
        assert(r@ =~= w@.subrange(0, i as int));
    }
    assert(w@.subrange(0, i as int) =~= w@);
    r
}

/// Whether two words hold the same bits.
fn same_word(a: &Vec<u8>, b: &Vec<u8>) -> (r: bool)
    ensures
        r == (a@ == b@),
{
    if a.len() != b.len() {
        return false;
    }
    let mut i: usize = 0;
    while i < a.len()
        invariant
            i <= a.len(),
            a.len() == b.len(),
            forall|j: int| 0 <= j < i ==> a@[j] == b@[j],
        decreases a.len() - i,
    {
        if a[i] != b[i] {
            return false;
        }
        i = i + 1;
    }
    assert(a@ =~= b@);
    true
}

/// Walks the tree depth first and appends one entry per leaf to
/// `codeword_map`: the leaf's value with the path that leads to it, where
/// `codeword_stack` holds the path to `htree_node`. A step to the left child
/// is the bit 1, a step to the right child the bit 0; a tree that is one
/// leaf gets the empty codeword.
pub fn build_codebook(
    htree_node: &HNode,
    codeword_stack: &mut Vec<u8>,
    codeword_map: &mut Vec<(u8, Vec<u8>)>,
)
    ensures
        final(codeword_stack)@ == old(codeword_stack)@,
        entries(final(codeword_map)@) == entries(old(codeword_map)@) + codes_of(
            *htree_node,
            old(codeword_stack)@,
        ),
    decreases htree_node,
{
    let ghost map0 = codeword_map@;
    let ghost stack0 = codeword_stack@;
    match htree_node {
        HNode::Leaf { value, .. } => {
            let word = copy_word(codeword_stack);
            codeword_map.push((*value, word));
            assert(entries(codeword_map@) =~= entries(map0) + codes_of(*htree_node, stack0));
        },
        HNode::Parent { left, right, .. } => {
            codeword_stack.push(1u8);
            build_codebook(left, codeword_stack, codeword_map);
            codeword_stack.pop();
            assert(codeword_stack@ =~= stack0);
            codeword_stack.push(0u8);
            build_codebook(right, codeword_stack, codeword_map);
            codeword_stack.pop();
            assert(codeword_stack@ =~= stack0);
            assert(entries(codeword_map@) =~= entries(map0) + codes_of(*htree_node, stack0));
        },
    }
}

/// The first entry that holds `sym`, if there is one.
fn find_symbol(table: &Vec<(u8, Vec<u8>)>, sym: u8) -> (j: usize)
    ensures
        j == symbol_index_from(entries(table@), sym, 0),
        j <= table.len(),
{
    let mut j: usize = 0;
    while j < table.len()
        invariant
            j <= table.len(),
            symbol_index_from(entries(table@), sym, 0) == symbol_index_from(
                entries(table@),
                sym,
                j as int,
            ),
        decreases table.len() - j,
    {
        if table[j].0 == sym {
            return j;
        }
        j = j + 1;
    }
    j
}

/// The first entry whose codeword is `word`, if there is one.
fn find_word(table: &Vec<(u8, Vec<u8>)>, word: &Vec<u8>) -> (j: usize)
    ensures
        j == word_index_from(entries(table@), word@, 0),
        j <= table.len(),
{
    let mut j: usize = 0;
    while j < table.len()
        invariant
            j <= table.len(),
            word_index_from(entries(table@), word@, 0) == word_index_from(
                entries(table@),
                word@,
                j as int,
            ),
        decreases table.len() - j,
    {
        if same_word(&table[j].1, word) {
            return j;
        }
        j = j + 1;
    }
    j
}

/// Writes each byte of `numbers` as the codeword of its first entry in
/// `codeword_map`, one bit to a byte. A byte without an entry is refused.
pub fn encode_huffman(numbers: &[u8], codeword_map: &Vec<(u8, Vec<u8>)>) -> (res: Result<
    Vec<u8>,
    CodecError,
>)
    ensures
        match res {
            Ok(bits) => all_coded(numbers@, entries(codeword_map@)) && bits@ == encode_with(
                numbers@,
                entries(codeword_map@),
            ),
            Err(e) => e == CodecError::CodeLookupFailure && !all_coded(
                numbers@,
                entries(codeword_map@),
            ),
        },
{
    let n = numbers.len();
    let ghost t = entries(codeword_map@);
    let mut out: Vec<u8> = Vec::new();
    let mut i: usize = 0;
    assert(numbers@.subrange(0, n as int) =~= numbers@);
    while i < n
        invariant
            i <= n,
            n == numbers.len(),
            t == entries(codeword_map@),
            forall|k: int| 0 <= k < i ==> symbol_index_from(t, #[trigger] numbers@[k], 0) < t.len(),
            encode_with(numbers@, t) == out@ + encode_with(numbers@.subrange(i as int, n as int), t),
        decreases n - i,
    {
        let ghost rest = numbers@.subrange(i as int, n as int);
        assert(rest.drop_first() =~= numbers@.subrange(i + 1, n as int));
        assert(rest[0] == numbers@[i as int]);
        let j = find_symbol(codeword_map, numbers[i]);
        if j >= codeword_map.len() {
            return Err(CodecError::CodeLookupFailure);
        }
        let word = &codeword_map[j].1;
        let ghost before = out@;
        let mut b: usize = 0;
        while b < word.len()
            invariant
                b <= word.len(),
                out@ == before + word@.subrange(0, b as int),
            decreases word.len() - b,
        {
            out.push(word[b]);
            b = b + 1;
            assert(out@ =~= before + word@.subrange(0, b as int));
        }
        proof {
            assert(word@.subrange(0, b as int) =~= word@);
            assert(t[j as int].1 == word@);
            let tail = encode_with(rest.drop_first(), t);
            assert(before + (word@ + tail) =~= out@ + tail);
        }
        i = i + 1;
    }
    assert(numbers@.subrange(n as int, n as int).len() == 0);
    assert(out@ + Seq::<u8>::empty() =~= out@);
    Ok(out)
}

/// Reads `encoded_bits` back into bytes: bits accumulate until they equal a
/// codeword of `codeword_map`, whose symbol is then written. Bits that match
/// nothing by the end of the input are refused.
pub fn decode_huffman(encoded_bits: &[u8], codeword_map: &Vec<(u8, Vec<u8>)>) -> (res: Result<
    Vec<u8>,
    CodecError,
>)
    ensures
        match res {
            Ok(bytes) => decode_with(encoded_bits@, entries(codeword_map@)) == Some(bytes@),
            Err(e) => e == CodecError::CodeLookupFailure && decode_with(
                encoded_bits@,
                entries(codeword_map@),
            ) is None,
        },
{
    let n = encoded_bits.len();
    let ghost t = entries(codeword_map@);
    let mut out: Vec<u8> = Vec::new();
    let mut acc: Vec<u8> = Vec::new();
    let mut i: usize = 0;
    assert(encoded_bits@.subrange(0, n as int) =~= encoded_bits@);
    while i < n
        invariant
            i <= n,
            n == encoded_bits.len(),
            t == entries(codeword_map@),
            decode_with(encoded_bits@, t) == prepend(
                out@,
                decode_from(encoded_bits@.subrange(i as int, n as int), t, acc@),
            ),
        decreases n - i,
    {
        let ghost rest = encoded_bits@.subrange(i as int, n as int);
        assert(rest.drop_first() =~= encoded_bits@.subrange(i + 1, n as int));
        assert(rest[0] == encoded_bits@[i as int]);
        acc.push(encoded_bits[i]);
        let j = find_word(codeword_map, &acc);
        if j < codeword_map.len() {
            let ghost before = out@;
            out.push(codeword_map[j].0);
            acc.clear();
            proof {
                let tail = decode_from(rest.drop_first(), t, Seq::empty());
                assert(acc@ =~= Seq::<u8>::empty());
                if tail is Some {
                    assert(before + (seq![t[j as int].0] + tail->0) =~= out@ + tail->0);
                }
            }
        }
        i = i + 1;
    }
    assert(encoded_bits@.subrange(n as int, n as int).len() == 0);
    if acc.len() > 0 {
        return Err(CodecError::CodeLookupFailure);
    }
    assert(out@ + Seq::<u8>::empty() =~= out@);
    Ok(out)
}

/// Adds one to the binary number in `bits`, most significant bit first.
fn increment(bits: &mut Vec<u8>)
    ensures
        final(bits)@ == incr(old(bits)@),
    decreases old(bits)@.len(),
{
    let ghost b0 = bits@;
    if bits.len() == 0 {
        bits.push(1u8);
        assert(bits@ =~= seq![1u8]);
    } else {
        let last = bits.pop().unwrap();
        assert(bits@ =~= b0.drop_last());
        if last == 0 {
            bits.push(1u8);
        } else {
            increment(bits);
            bits.push(0u8);
        }
    }
}

/// Rewrites a code table in canonical form: the entries are ranked by
/// codeword (shorter first, then bit by bit, equal ones in table order);
/// the first gets all zeros; each later one gets its predecessor plus one,
/// shifted left where the length grows and cut to the low bits where it
/// does not. An empty table stays empty.
pub fn build_canonical_codebook(codebook: &Vec<(u8, Vec<u8>)>) -> (res: Vec<(u8, Vec<u8>)>)
    ensures
        exists|perm: Seq<usize>| #[trigger] is_canonical_of(entries(codebook@), perm, entries(res@)),
{
    let n = codebook.len();
    let ghost t = entries(codebook@);
    let mut keys: Vec<Vec<u8>> = Vec::new();
    let mut i: usize = 0;
    while i < n
        invariant
            i <= n,
            n == codebook.len(),
            keys.len() == i,
            forall|k: int| 0 <= k < i ==> (#[trigger] keys@[k])@ == codebook@[k].1@,
        decreases n - i,
    {
        let w = copy_word(&codebook[i].1);
        keys.push(w);
        i = i + 1;
    }
    assert(words(keys@) =~= code_words(t));
    let perm = sorted_order(&keys);
    let mut out: Vec<(u8, Vec<u8>)> = Vec::new();
    let mut state: Vec<u8> = Vec::new();
    let mut prev_len: usize = 0;
    let mut k: usize = 0;
    while k < n
        invariant
            k <= n,
            n == codebook.len(),
            t == entries(codebook@),
            is_sorted_order(code_words(t), perm@),
            out.len() == k,
            forall|m: int| 0 <= m < k ==> (#[trigger] out@[m]).0 == t[perm@[m] as int].0 && out@[m].1@
                == canon_word(t, perm@, m),
            k > 0 ==> state@ == canon_word(t, perm@, k - 1) && prev_len == t[perm@[k - 1] as int].1.len(),
        decreases n - k,
    {
        let entry = &codebook[perm[k]];
        let len = entry.1.len();
        assert(t[perm@[k as int] as int].1 == entry.1@);
        if k == 0 {
            state = Vec::new();
            let mut z: usize = 0;
            while z < len
                invariant
                    z <= len,
                    state@ == zero_bits(z as nat),
                decreases len - z,
            {
                state.push(0u8);
                z = z + 1;
                assert(state@ =~= zero_bits(z as nat));
            }
        } else {
            increment(&mut state);
            let ghost next = state@;
            if len > prev_len {
                let grow = len - prev_len;
                let mut z: usize = 0;
                assert(next + zero_bits(0) =~= next);
                while z < grow
                    invariant
                        z <= grow,
                        state@ == next + zero_bits(z as nat),
                    decreases grow - z,
                {
                    state.push(0u8);
                    z = z + 1;
                    assert(state@ =~= next + zero_bits(z as nat));
                }
            } else {
                assert(next.subrange(0, next.len() as int) =~= next);
                while state.len() > prev_len
                    invariant
                        state.len() <= next.len(),
                        state.len() >= prev_len || state.len() >= next.len(),
                        state@ == next.subrange(next.len() - state.len(), next.len() as int),
                    decreases state.len(),
                {
                    state.remove(0);
                    assert(state@ =~= next.subrange(next.len() - state.len(), next.len() as int));
                }
            }
        }
        assert(state@ == canon_word(t, perm@, k as int));
        let word = copy_word(&state);
        out.push((entry.0, word));
        prev_len = len;
        k = k + 1;
    }
    assert(entries(out@) =~= canonical_table(t, perm@));
    assert(is_canonical_of(entries(codebook@), perm@, entries(out@)));
    out
}

/// Writes each byte of `message` as its codeword in the canonical table.
/// A byte without an entry is refused.
pub fn canonical_encode_bits(message: &[u8], canonical_codebook: &Vec<(u8, Vec<u8>)>) -> (res:
    Result<Vec<u8>, CodecError>)
    ensures
        match res {
            Ok(bits) => all_coded(message@, entries(canonical_codebook@)) && bits@ == encode_with(
                message@,
                entries(canonical_codebook@),
            ),
            Err(e) => e == CodecError::CodeLookupFailure && !all_coded(
                message@,
                entries(canonical_codebook@),
            ),
        },
{
    encode_huffman(message, canonical_codebook)
}

/// Reads bits back into bytes by exact match against the canonical table.
/// Bits that match nothing by the end of the input are refused.
pub fn canonical_decode_bits(data: &[u8], canonical_codebook: &Vec<(u8, Vec<u8>)>) -> (res:
    Result<Vec<u8>, CodecError>)
    ensures
        match res {
            Ok(bytes) => decode_with(data@, entries(canonical_codebook@)) == Some(bytes@),
            Err(e) => e == CodecError::CodeLookupFailure && decode_with(
                data@,
                entries(canonical_codebook@),
            ) is None,
        },
{
    decode_huffman(data, canonical_codebook)
}

/// The codeword length of every byte value: 256 lengths, 0 for a value
/// without an entry, and of several entries for one value the last.
pub fn canon_length(canonical_codebook: &Vec<(u8, Vec<u8>)>) -> (lengths: Vec<usize>)
    ensures
        lengths@.len() == 256,
        forall|v: int|
            0 <= v < 256 ==> #[trigger] lengths@[v] == code_length(
                entries(canonical_codebook@),
                v as u8,
            ),
{
    let n = canonical_codebook.len();
    let ghost t = entries(canonical_codebook@);
    let mut lengths: Vec<usize> = Vec::new();
    let mut v: usize = 0;
    while v < 256
        invariant
            v <= 256,
            lengths.len() == v,
            forall|x: int| 0 <= x < v ==> #[trigger] lengths@[x] == 0,
        decreases 256 - v,
    {
        lengths.push(0);
        v = v + 1;
    }
    let mut i: usize = 0;
    assert(t.subrange(0, 0).len() == 0);
    while i < n
        invariant
            i <= n,
            n == canonical_codebook.len(),
            t == entries(canonical_codebook@),
            lengths.len() == 256,
            forall|x: int|
                0 <= x < 256 ==> #[trigger] lengths@[x] == code_length(
                    t.subrange(0, i as int),
                    x as u8,
                ),
        decreases n - i,
    {
        let sym = canonical_codebook[i].0;
        let len = canonical_codebook[i].1.len();
        lengths[sym as usize] = len;
        proof {
            let upto = t.subrange(0, i + 1);
            assert(upto.drop_last() =~= t.subrange(0, i as int));
            assert(upto.last() == t[i as int]);
        }
        i = i + 1;
    }
    assert(t.subrange(0, n as int) =~= t);
    lengths
}

} // verus!
