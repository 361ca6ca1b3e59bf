use vstd::prelude::*;
use crate::hashing::{NodeHash, parent_hash, hash_pair, same_hash};

verus! {

/// What a node of the forest holds: `None` once everything below it is deleted.
pub open spec fn node_of(o: Option<NodeHash>) -> Option<Seq<u8>> {
    match o {
        Some(h) => Some(h@),
        None => None,
    }
}

/// What each of a sequence of nodes holds.
pub open spec fn nodes_of(v: Seq<Option<NodeHash>>) -> Seq<Option<Seq<u8>>> {
    v.map_values(|o: Option<NodeHash>| node_of(o))
}

/// Joins two children. An empty side promotes the other child unchanged, which
/// is how a deletion compacts the tree.
pub open spec fn combine(a: Option<Seq<u8>>, b: Option<Seq<u8>>) -> Option<Seq<u8>> {
    match (a, b) {
        (Some(x), Some(y)) => Some(parent_hash(x, y)),
        (Some(x), None) => Some(x),
        (None, y) => y,
    }
}

/// Two to the power `h`: the leaf count of a perfect tree of height `h`.
pub open spec fn pow2(h: nat) -> nat
    decreases h,
{
    if h == 0 {
        1
    } else {
        2 * pow2((h - 1) as nat)
    }
}

/// The root of the perfect subtree of height `h` over the leaves `s .. s + 2^h`.
pub open spec fn subtree_root(l: Seq<Option<Seq<u8>>>, s: nat, h: nat) -> Option<Seq<u8>>
    decreases h,
{
    if h == 0 {
        l[s as int]
    } else {
        combine(
            subtree_root(l, s, (h - 1) as nat),
            subtree_root(l, s + pow2((h - 1) as nat), (h - 1) as nat),
        )
    }
}

/// Pushes a tree of height `h` onto a stack of tree heights, merging equal
/// heights as a binary counter carries.
pub open spec fn carry(st: Seq<nat>, h: nat) -> Seq<nat>
    decreases st.len(),
{
    if st.len() > 0 && st.last() == h {
        carry(st.drop_last(), h + 1)
    } else {
        st.push(h)
    }
}

/// The heights of the trees of a forest of `n` leaves, tallest first.
pub open spec fn shape(n: nat) -> Seq<nat>
    decreases n,
{
    if n == 0 {
        seq![]
    } else {
        carry(shape((n - 1) as nat), 0)
    }
}

/// How many leaf positions the trees of the given heights cover.
pub open spec fn span(hs: Seq<nat>) -> nat
    decreases hs.len(),
{
    if hs.len() == 0 {
        0
    } else {
        span(hs.drop_last()) + pow2(hs.last())
    }
}

/// The first leaf position under tree `i`.
pub open spec fn root_start(hs: Seq<nat>, i: int) -> nat {
    span(hs.take(i))
}

/// The roots of the forest over the whole leaf sequence, computed from scratch.
pub open spec fn forest_roots(l: Seq<Option<Seq<u8>>>) -> Seq<Option<Seq<u8>>> {
    let hs = shape(l.len());
    Seq::new(hs.len(), |i: int| subtree_root(l, root_start(hs, i), hs[i]))
}

pub open spec fn root_from(hs: Seq<nat>, pos: nat, i: nat) -> nat
    decreases hs.len() - i,
{
    if i >= hs.len() {
        i
    } else if pos < root_start(hs, (i + 1) as int) {
        i
    } else {
        root_from(hs, pos, i + 1)
    }
}

/// The index of the tree that holds leaf position `pos`.
pub open spec fn root_index(hs: Seq<nat>, pos: nat) -> nat {
    root_from(hs, pos, 0)
}

/// The siblings on the path from leaf `s + off` up to the root of the subtree
/// `(s, h)`, lowest first.
pub open spec fn path_siblings(l: Seq<Option<Seq<u8>>>, s: nat, h: nat, off: nat) -> Seq<
    Option<Seq<u8>>,
>
    decreases h,
{
    if h == 0 {
        seq![]
    } else {
        let half = pow2((h - 1) as nat);
        if off < half {
            path_siblings(l, s, (h - 1) as nat, off).push(subtree_root(l, s + half, (h - 1) as nat))
        } else {
            path_siblings(l, s + half, (h - 1) as nat, (off - half) as nat).push(
                subtree_root(l, s, (h - 1) as nat),
            )
        }
    }
}

/// Hashes a node at offset `off` of its subtree up through the given siblings.
pub open spec fn path_root(cur: Option<Seq<u8>>, off: nat, sibs: Seq<Option<Seq<u8>>>) -> Option<
    Seq<u8>,
>
    decreases sibs.len(),
{
    if sibs.len() == 0 {
        cur
    } else {
        let half = pow2((sibs.len() - 1) as nat);
        let sub: nat = if off < half {
            off
        } else {
            (off - half) as nat
        };
        let inner = path_root(cur, sub, sibs.drop_last());
        if off < half {
            combine(inner, sibs.last())
        } else {
            combine(sibs.last(), inner)
        }
    }
}

/// The number of leaves that are still live.
pub open spec fn count_live(l: Seq<Option<Seq<u8>>>) -> nat
    decreases l.len(),
{
    if l.len() == 0 {
        0
    } else {
        count_live(l.drop_last()) + if l.last() is Some {
            1nat
        } else {
            0nat
        }
    }
}

pub proof fn lemma_pow2_grows(h: nat)
    ensures
        pow2(h) > h,
        pow2(h) >= 1,
    decreases h,
{
    if h > 0 {
        lemma_pow2_grows((h - 1) as nat);
    }
}

pub proof fn lemma_span_carry(st: Seq<nat>, h: nat)
    ensures
        span(carry(st, h)) == span(st) + pow2(h),
    decreases st.len(),
{
    if st.len() > 0 && st.last() == h {
        lemma_span_carry(st.drop_last(), h + 1);
    } else {
        assert(st.push(h).drop_last() =~= st);
    }
}

pub proof fn lemma_span_shape(n: nat)
    ensures
        span(shape(n)) == n,
    decreases n,
{
    if n > 0 {
        lemma_span_shape((n - 1) as nat);
        lemma_span_carry(shape((n - 1) as nat), 0);
    }
}

/// Heights that strictly decrease from the first tree to the last.
pub open spec fn strictly_decreasing(hs: Seq<nat>) -> bool {
    forall|i: int, j: int| 0 <= i < j < hs.len() ==> hs[i] > hs[j]
}

pub proof fn lemma_carry_decreasing(st: Seq<nat>, h: nat)
    requires
        strictly_decreasing(st),
        st.len() > 0 ==> st.last() >= h,
    ensures
        strictly_decreasing(carry(st, h)),
    decreases st.len(),
{
    if st.len() > 0 && st.last() == h {
        let d = st.drop_last();
        if d.len() > 0 {
            assert(d.last() == st[d.len() - 1]);
        }
        lemma_carry_decreasing(d, h + 1);
    } else {
        assert forall|i: int, j: int| 0 <= i < j < st.push(h).len() implies st.push(h)[i] > st.push(h)[j] by {
            if j == st.len() {
                assert(st[i] >= st.last());
            }
        }
    }
}

/// The forest over `n` leaves is the binary representation of `n`: one
/// perfect tree per set bit, tallest first, together covering exactly `n` leaves.
pub proof fn lemma_shape_binary(n: nat)
    ensures
        strictly_decreasing(shape(n)),
        span(shape(n)) == n,
    decreases n,
{
    lemma_span_shape(n);
    if n > 0 {
        lemma_shape_binary((n - 1) as nat);
        lemma_carry_decreasing(shape((n - 1) as nat), 0);
    }
}

pub proof fn lemma_root_start_step(hs: Seq<nat>, i: int)
    requires
        0 <= i < hs.len(),
    ensures
        root_start(hs, (i + 1) as int) == root_start(hs, i) + pow2(hs[i]),
{
    assert(hs.take(i + 1).drop_last() =~= hs.take(i));
}

pub proof fn lemma_root_start_mono(hs: Seq<nat>, i: int, j: int)
    requires
        0 <= i <= j <= hs.len(),
    ensures
        root_start(hs, i) <= root_start(hs, j),
        root_start(hs, hs.len() as int) == span(hs),
    decreases j - i,
{
    assert(hs.take(hs.len() as int) =~= hs);
    if i < j {
        lemma_root_start_mono(hs, i, j - 1);
        lemma_root_start_step(hs, j - 1);
    }
}

/// Every tree lies inside the leaf range that the forest covers.
pub proof fn lemma_tree_in_range(hs: Seq<nat>, i: int)
    requires
        0 <= i < hs.len(),
    ensures
        root_start(hs, i) + pow2(hs[i]) <= span(hs),
{
    lemma_root_start_step(hs, i);
    lemma_root_start_mono(hs, i + 1, hs.len() as int);
}

pub proof fn lemma_root_from(hs: Seq<nat>, pos: nat, k: nat)
    requires
        k <= hs.len(),
        root_start(hs, k as int) <= pos < span(hs),
    ensures
        root_from(hs, pos, k) < hs.len(),
        root_start(hs, root_from(hs, pos, k) as int) <= pos,
        pos < root_start(hs, root_from(hs, pos, k) as int) + pow2(hs[root_from(hs, pos, k) as int]),
    decreases hs.len() - k,
{
    lemma_root_start_mono(hs, k as int, hs.len() as int);
    if k < hs.len() {
        lemma_root_start_step(hs, k as int);
        if pos >= root_start(hs, (k + 1) as int) {
            lemma_root_from(hs, pos, k + 1);
        }
    }
}

/// The tree that `root_index` picks holds the position.
pub proof fn lemma_root_index(hs: Seq<nat>, pos: nat)
    requires
        pos < span(hs),
    ensures
        root_index(hs, pos) < hs.len(),
        root_start(hs, root_index(hs, pos) as int) <= pos,
        pos < root_start(hs, root_index(hs, pos) as int) + pow2(hs[root_index(hs, pos) as int]),
{
    assert(hs.take(0) =~= Seq::<nat>::empty());
    lemma_root_from(hs, pos, 0);
}

/// A subtree root depends only on the leaves under it.
pub proof fn lemma_subtree_frame(l1: Seq<Option<Seq<u8>>>, l2: Seq<Option<Seq<u8>>>, s: nat, h: nat)
    requires
        s + pow2(h) <= l1.len(),
        s + pow2(h) <= l2.len(),
        forall|k: int| s <= k < s + pow2(h) ==> l1[k] == l2[k],
    ensures
        subtree_root(l1, s, h) == subtree_root(l2, s, h),
    decreases h,
{
    lemma_pow2_grows(h);
    if h > 0 {
        lemma_subtree_frame(l1, l2, s, (h - 1) as nat);
        lemma_subtree_frame(l1, l2, s + pow2((h - 1) as nat), (h - 1) as nat);
    }
}

/// Folding a leaf up through the siblings of its path reproduces its subtree root.
pub proof fn lemma_path_matches(l: Seq<Option<Seq<u8>>>, s: nat, h: nat, off: nat)
    requires
        off < pow2(h),
        s + pow2(h) <= l.len(),
    ensures
        path_siblings(l, s, h, off).len() == h,
        path_root(l[(s + off) as int], off, path_siblings(l, s, h, off)) == subtree_root(l, s, h),
    decreases h,
{
    if h > 0 {
        let half = pow2((h - 1) as nat);
        if off < half {
            lemma_path_matches(l, s, (h - 1) as nat, off);
            let p = path_siblings(l, s, (h - 1) as nat, off);
            assert(p.push(subtree_root(l, s + half, (h - 1) as nat)).drop_last() =~= p);
        } else {
            lemma_path_matches(l, s + half, (h - 1) as nat, (off - half) as nat);
            let p = path_siblings(l, s + half, (h - 1) as nat, (off - half) as nat);
            assert(p.push(subtree_root(l, s, (h - 1) as nat)).drop_last() =~= p);
            assert(s + half + (off - half) == s + off);
        }
    }
}

/// Joins two children as `combine` says.
pub fn combine_exec(a: Option<NodeHash>, b: Option<NodeHash>) -> (r: Option<NodeHash>)
    ensures
        node_of(r) == combine(node_of(a), node_of(b)),
{
    match (a, b) {
        (Some(x), Some(y)) => Some(hash_pair(&x, &y)),
        (Some(x), None) => Some(x),
        (None, y) => y,
    }
}

/// Computes `pow2(h)` where it fits in a `usize`.
pub fn pow2_exec(h: usize, bound: usize) -> (r: usize)
    requires
        pow2(h as nat) <= bound,
    ensures
        r == pow2(h as nat),
{
    let mut r: usize = 1;
    let mut i: usize = 0;
    while i < h
        invariant
            i <= h,
            r == pow2(i as nat),
            pow2(h as nat) <= bound,
        decreases h - i,
    {
        proof {
            lemma_pow2_mono((i + 1) as nat, h as nat);
        }
        r = r * 2;
        i = i + 1;
    }
    r
}

pub proof fn lemma_pow2_mono(a: nat, b: nat)
    requires
        a <= b,
    ensures
        pow2(a) <= pow2(b),
    decreases b - a,
{
    if a < b {
        lemma_pow2_mono(a, (b - 1) as nat);
        lemma_pow2_grows((b - 1) as nat);
    }
}

/// Computes the root of the subtree `(s, h)` from the leaves.
pub fn subtree_hash(leaves: &Vec<Option<NodeHash>>, s: usize, h: usize, size: usize) -> (r: Option<
    NodeHash,
>)
    requires
        size == pow2(h as nat),
        s + size <= leaves.len(),
    ensures
        node_of(r) == subtree_root(nodes_of(leaves@), s as nat, h as nat),
    decreases h,
{
    if h == 0 {
        leaves[s]
    } else {
        let half = size / 2;
        let a = subtree_hash(leaves, s, h - 1, half);
        let b = subtree_hash(leaves, s + half, h - 1, half);
        combine_exec(a, b)
    }
}

/// Collects the siblings of leaf `s + off` within the subtree `(s, h)`.
pub fn collect_siblings(leaves: &Vec<Option<NodeHash>>, s: usize, h: usize, size: usize, off: usize) -> (r: Vec<
    Option<NodeHash>,
>)
    requires
        size == pow2(h as nat),
        s + size <= leaves.len(),
        off < size,
    ensures
        nodes_of(r@) == path_siblings(nodes_of(leaves@), s as nat, h as nat, off as nat),
    decreases h,
{
    if h == 0 {
        let r: Vec<Option<NodeHash>> = Vec::new();
        assert(nodes_of(r@) =~= seq![]);
        r
    } else {
        let half = size / 2;
        let mut v: Vec<Option<NodeHash>>;
        let sib: Option<NodeHash>;
        if off < half {
            v = collect_siblings(leaves, s, h - 1, half, off);
            sib = subtree_hash(leaves, s + half, h - 1, half);
        } else {
            v = collect_siblings(leaves, s + half, h - 1, half, off - half);
            sib = subtree_hash(leaves, s, h - 1, half);
        }
        let ghost before = v@;
        v.push(sib);
        assert(nodes_of(v@) =~= nodes_of(before).push(node_of(sib)));
        v
    }
}

/// Hashes `cur`, at offset `off` of its subtree, up through the first `len` siblings.
pub fn fold_path(cur: Option<NodeHash>, off: usize, sibs: &Vec<Option<NodeHash>>, len: usize, size: usize) -> (r:
    Option<NodeHash>)
    requires
        len <= sibs.len(),
        size == pow2(len as nat),
    ensures
        node_of(r) == path_root(node_of(cur), off as nat, nodes_of(sibs@).take(len as int)),
    decreases len,
{
    if len == 0 {
        cur
    } else {
        let half = size / 2;
        let sub: usize = if off < half {
            off
        } else {
            off - half
        };
        let inner = fold_path(cur, sub, sibs, len - 1, half);
        let ghost t = nodes_of(sibs@).take(len as int);
        assert(t.drop_last() =~= nodes_of(sibs@).take(len - 1));
        assert(t.last() == node_of(sibs@[len - 1]));
        if off < half {
            combine_exec(inner, sibs[len - 1])
        } else {
            combine_exec(sibs[len - 1], inner)
        }
    }
}

/// Whether two nodes hold the same thing.
pub fn same_node(a: Option<NodeHash>, b: Option<NodeHash>) -> (r: bool)
    ensures
        r == (node_of(a) == node_of(b)),
{
    match (a, b) {
        (Some(x), Some(y)) => same_hash(&x, &y),
        (None, None) => true,
        _ => false,
    }
}

} // verus!
