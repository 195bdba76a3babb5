//! What ordered traversals of a B-tree visit, stated over the tree's leaf
//! entries as one sequence: a full walk visits every leaf entry in key
//! order, across sibling leaves; a scan towards a target visits the leaf
//! entries from the first one that does not sort before the target. Both
//! stop where the visitor stops.

use crate::btree::{
    hdr_of, is_leaf_hdr, lemma_search_lower_bound, spec_descend, spec_descend_step, spec_search, SearchPos, key_order_at, keys_ordered_for, order_rank, spec_child_ref, spec_key,
    spec_lower_bound, spec_scan_children, spec_scan_node, spec_value, spec_visit_leaf,
    spec_walk_children, spec_walk_node, KeyCompare, KeyOrder, LeafVisitor, NodeHeader, NodeSource,
    TreeInfo,
};
use crate::error::Error;
use vstd::prelude::*;

verus! {

/// The leaf entries `i..n` of the leaf (`h`, `b`): key and value bytes,
/// or `None` if one of them cannot be read.
pub open spec fn spec_leaf_entries(h: NodeHeader, b: Seq<u8>, info: TreeInfo, i: int, n: int) -> Option<
    Seq<(Seq<u8>, Option<Seq<u8>>)>,
>
    decreases n - i,
{
    if i >= n {
        Some(Seq::empty())
    } else {
        match spec_key(h, b, i, info.key_size as int) {
            Err(_) => None,
            Ok(k) => match spec_value(h, b, i, info.val_size as int, 8) {
                Err(_) => None,
                Ok(v) => match spec_leaf_entries(h, b, info, i + 1, n) {
                    None => None,
                    Some(rest) => Some(seq![(k, v)] + rest),
                },
            },
        }
    }
}

/// The block of child `i` of the internal node (`h`, `b`).
pub open spec fn spec_child_block<S: NodeSource>(src: S, h: NodeHeader, b: Seq<u8>, info: TreeInfo, i: int) -> Option<
    Seq<u8>,
> {
    match spec_child_ref(spec_value(h, b, i, info.val_size as int, 8)) {
        Err(_) => None,
        Ok(child) => match src.spec_node_block(child) {
            Err(_) => None,
            Ok(cb) => Some(cb),
        },
    }
}

/// Every leaf entry of the subtree (`h`, `b`) at depth `depth`, leaves
/// left to right, or `None` if some part of it cannot be read.
pub open spec fn spec_entries<S: NodeSource>(src: S, h: NodeHeader, b: Seq<u8>, info: TreeInfo, depth: int) -> Option<
    Seq<(Seq<u8>, Option<Seq<u8>>)>,
>
    decreases 17 - depth, 0x1_0000_0001int,
{
    if depth > 16 || depth < 0 {
        None
    } else if is_leaf_hdr(h) {
        spec_leaf_entries(h, b, info, 0, h.nkeys as int)
    } else {
        spec_child_entries(src, h, b, info, depth, 0, h.nkeys as int)
    }
}

/// The leaf entries under children `i..n` of the internal node (`h`, `b`).
pub open spec fn spec_child_entries<S: NodeSource>(
    src: S,
    h: NodeHeader,
    b: Seq<u8>,
    info: TreeInfo,
    depth: int,
    i: int,
    n: int,
) -> Option<Seq<(Seq<u8>, Option<Seq<u8>>)>>
    decreases 17 - depth, if i < n { n - i } else { 0 },
{
    if i >= n {
        Some(Seq::empty())
    } else if depth > 16 || depth < 0 {
        None
    } else {
        match spec_child_ref(spec_value(h, b, i, info.val_size as int, 8)) {
            Err(_) => None,
            Ok(child) => match src.spec_node_block(child) {
                Err(_) => None,
                Ok(cb) => match spec_entries(src, hdr_of(cb), cb, info, depth + 1) {
                    None => None,
                    Some(a) => match spec_child_entries(src, h, b, info, depth, i + 1, n) {
                        None => None,
                        Some(r) => Some(a + r),
                    },
                },
            },
        }
    }
}

/// Feed the entries `es` to a visitor in order, until it stops or fails.
pub open spec fn spec_visit_all<V: LeafVisitor>(st: V::V, es: Seq<(Seq<u8>, Option<Seq<u8>>)>) -> (
    V::V,
    core::result::Result<bool, Error>,
)
    decreases es.len(),
{
    if es.len() == 0 {
        (st, Ok(true))
    } else {
        let (st2, r) = V::spec_visit(st, es[0].0, es[0].1);
        match r {
            Err(e) => (st2, Err(e)),
            Ok(false) => (st2, Ok(false)),
            Ok(true) => spec_visit_all::<V>(st2, es.skip(1)),
        }
    }
}

/// Go on with `rest` after the outcome `o`, if the visitor asked to.
pub open spec fn spec_then<V: LeafVisitor>(
    o: (V::V, core::result::Result<bool, Error>),
    rest: Seq<(Seq<u8>, Option<Seq<u8>>)>,
) -> (V::V, core::result::Result<bool, Error>) {
    match o.1 {
        Ok(true) => spec_visit_all::<V>(o.0, rest),
        _ => o,
    }
}

/// Whether `key` sorts before the target.
pub open spec fn before<C: KeyCompare>(c: C, key: Seq<u8>) -> bool {
    c.spec_compare(key) == Ok::<KeyOrder, Error>(KeyOrder::Less)
}

/// The index of the first entry that does not sort before the target
/// (the length of `es` if there is none).
pub open spec fn first_not_before<C: KeyCompare>(c: C, es: Seq<(Seq<u8>, Option<Seq<u8>>)>) -> int
    decreases es.len(),
{
    if es.len() == 0 || !before(c, es[0].0) {
        0
    } else {
        1 + first_not_before(c, es.skip(1))
    }
}

/// Every entry of `es` sorts before the target.
pub open spec fn all_before<C: KeyCompare>(c: C, es: Seq<(Seq<u8>, Option<Seq<u8>>)>) -> bool {
    forall|k: int| 0 <= k < es.len() ==> #[trigger] before(c, es[k].0)
}

/// No entry of `es` sorts before the target.
pub open spec fn none_before<C: KeyCompare>(c: C, es: Seq<(Seq<u8>, Option<Seq<u8>>)>) -> bool {
    forall|k: int| 0 <= k < es.len() ==> !#[trigger] before(c, es[k].0)
}

/// The subtree (`h`, `b`) is sorted as the target `c` sees it: in every
/// node the keys compare in order, and each separator key of an internal
/// node bounds its children (a child whose separator does not sort before
/// the target holds nothing that does; a child followed by a separator
/// that sorts before the target holds only entries that do).
pub open spec fn spec_sorted_for<S: NodeSource, C: KeyCompare>(
    src: S,
    h: NodeHeader,
    b: Seq<u8>,
    info: TreeInfo,
    c: C,
    depth: int,
) -> bool
    decreases 17 - depth, 0x1_0000_0001int,
{
    if depth > 16 || depth < 0 {
        false
    } else if is_leaf_hdr(h) {
        keys_ordered_for(h, b, info.key_size as int, c)
    } else {
        keys_ordered_for(h, b, info.key_size as int, c) && spec_sorted_children(
            src,
            h,
            b,
            info,
            c,
            depth,
            0,
            h.nkeys as int,
        )
    }
}

/// The children `i..n` of the internal node (`h`, `b`) are sorted and
/// bounded by their separator keys.
pub open spec fn spec_sorted_children<S: NodeSource, C: KeyCompare>(
    src: S,
    h: NodeHeader,
    b: Seq<u8>,
    info: TreeInfo,
    c: C,
    depth: int,
    i: int,
    n: int,
) -> bool
    decreases 17 - depth, if i < n { n - i } else { 0 },
{
    if i >= n {
        true
    } else if depth > 16 || depth < 0 {
        false
    } else {
        match spec_child_ref(spec_value(h, b, i, info.val_size as int, 8)) {
            Err(_) => false,
            Ok(child) => match src.spec_node_block(child) {
                Err(_) => false,
                Ok(cb) => {
                    &&& spec_sorted_for(src, hdr_of(cb), cb, info, c, depth + 1)
                    &&& match spec_entries(src, hdr_of(cb), cb, info, depth + 1) {
                        None => false,
                        Some(a) => {
                            &&& (key_order_at(h, b, i, info.key_size as int, c) != Ok::<KeyOrder, Error>(
                                KeyOrder::Less,
                            ) ==> none_before(c, a))
                            &&& (i + 1 < n && key_order_at(h, b, i + 1, info.key_size as int, c)
                                == Ok::<KeyOrder, Error>(KeyOrder::Less) ==> all_before(c, a))
                        },
                    }
                    &&& spec_sorted_children(src, h, b, info, c, depth, i + 1, n)
                },
            },
        }
    }
}

// ---------------------------------------------------------------------
// Folding a visitor over sequences
// ---------------------------------------------------------------------

/// Visiting `a + b` is visiting `a`, then `b` if the visitor goes on.
pub proof fn lemma_visit_all_concat<V: LeafVisitor>(
    st: V::V,
    a: Seq<(Seq<u8>, Option<Seq<u8>>)>,
    b: Seq<(Seq<u8>, Option<Seq<u8>>)>,
)
    ensures
        spec_visit_all::<V>(st, a + b) == spec_then::<V>(spec_visit_all::<V>(st, a), b),
    decreases a.len(),
{
    if a.len() == 0 {
        assert(a + b =~= b);
    } else {
        assert((a + b)[0] == a[0]);
        assert((a + b).skip(1) =~= a.skip(1) + b);
        let (st2, r) = V::spec_visit(st, a[0].0, a[0].1);
        if r == Ok::<bool, Error>(true) {
            lemma_visit_all_concat::<V>(st2, a.skip(1), b);
        }
    }
}

/// The first entry not before the target is within the sequence, or just
/// past its end.
proof fn lemma_first_not_before_bound<C: KeyCompare>(c: C, a: Seq<(Seq<u8>, Option<Seq<u8>>)>)
    ensures
        0 <= first_not_before(c, a) <= a.len(),
    decreases a.len(),
{
    if a.len() > 0 && before(c, a[0].0) {
        lemma_first_not_before_bound(c, a.skip(1));
    }
}

/// Entries that all sort before the target are skipped whole.
proof fn lemma_skip_before<C: KeyCompare>(
    c: C,
    a: Seq<(Seq<u8>, Option<Seq<u8>>)>,
    b: Seq<(Seq<u8>, Option<Seq<u8>>)>,
)
    requires
        all_before(c, a),
    ensures
        first_not_before(c, a + b) == a.len() + first_not_before(c, b),
        (a + b).skip(first_not_before(c, a + b)) == b.skip(first_not_before(c, b)),
    decreases a.len(),
{
    if a.len() == 0 {
        assert(a + b =~= b);
    } else {
        assert((a + b)[0] == a[0]);
        assert(before(c, a[0].0));
        assert((a + b).skip(1) =~= a.skip(1) + b);
        assert forall|k: int| 0 <= k < a.skip(1).len() implies #[trigger] before(c, a.skip(1)[k].0) by {
            assert(a.skip(1)[k] == a[k + 1]);
        }
        lemma_skip_before(c, a.skip(1), b);
        lemma_first_not_before_bound(c, a.skip(1) + b);
        assert((a + b).skip(first_not_before(c, a + b)) =~= (a.skip(1) + b).skip(first_not_before(c, a.skip(1) + b)));
    }
}

/// The first entry of `a + b` not before the target lies in `a` when `a`
/// has one; if `b` has none before it, `b` adds nothing to skip.
proof fn lemma_first_not_before_in<C: KeyCompare>(
    c: C,
    a: Seq<(Seq<u8>, Option<Seq<u8>>)>,
    b: Seq<(Seq<u8>, Option<Seq<u8>>)>,
)
    requires
        none_before(c, b),
    ensures
        first_not_before(c, a + b) == first_not_before(c, a),
        first_not_before(c, a) <= a.len(),
        (a + b).skip(first_not_before(c, a + b)) == a.skip(first_not_before(c, a)) + b,
    decreases a.len(),
{
    if a.len() == 0 {
        assert(a + b =~= b);
        if b.len() > 0 {
            assert(!before(c, b[0].0));
        }
        assert(b.skip(0) =~= b);
        assert(a.skip(0) + b =~= b);
    } else {
        assert((a + b)[0] == a[0]);
        if before(c, a[0].0) {
            assert((a + b).skip(1) =~= a.skip(1) + b);
            lemma_first_not_before_in(c, a.skip(1), b);
            let p = first_not_before(c, a.skip(1));
            lemma_first_not_before_bound(c, a.skip(1));
            assert((a + b).skip(1 + p) =~= (a.skip(1) + b).skip(p));
            assert(a.skip(1 + p) =~= a.skip(1).skip(p));
        } else {
            assert((a + b).skip(0) =~= a.skip(0) + b);
        }
    }
}

/// With no entry before the target, nothing is skipped.
proof fn lemma_none_before_first<C: KeyCompare>(c: C, a: Seq<(Seq<u8>, Option<Seq<u8>>)>)
    requires
        none_before(c, a),
    ensures
        first_not_before(c, a) == 0,
        a.skip(0) == a,
{
    if a.len() > 0 {
        assert(!before(c, a[0].0));
    }
    assert(a.skip(0) =~= a);
}

// ---------------------------------------------------------------------
// Full walks
// ---------------------------------------------------------------------

/// Visiting a leaf from entry `i` is visiting its entries `i..n` in order.
proof fn lemma_leaf_visit<V: LeafVisitor>(h: NodeHeader, b: Seq<u8>, info: TreeInfo, st: V::V, i: int, n: int)
    requires
        spec_leaf_entries(h, b, info, i, n) is Some,
    ensures
        spec_visit_leaf::<V>(h, b, info, st, i, n) == spec_visit_all::<V>(st, spec_leaf_entries(h, b, info, i, n)->Some_0),
    decreases n - i,
{
    if i < n {
        let es = spec_leaf_entries(h, b, info, i, n)->Some_0;
        let rest = spec_leaf_entries(h, b, info, i + 1, n)->Some_0;
        assert(es[0] == (spec_key(h, b, i, info.key_size as int)->Ok_0, spec_value(h, b, i, info.val_size as int, 8)->Ok_0));
        assert(es.skip(1) =~= rest);
        let (st2, r) = V::spec_visit(st, es[0].0, es[0].1);
        if r == Ok::<bool, Error>(true) {
            lemma_leaf_visit::<V>(h, b, info, st2, i + 1, n);
        }
    }
}

proof fn lemma_walk_node<S: NodeSource, V: LeafVisitor>(
    src: S,
    h: NodeHeader,
    b: Seq<u8>,
    info: TreeInfo,
    st: V::V,
    depth: int,
)
    requires
        spec_entries(src, h, b, info, depth) is Some,
    ensures
        spec_walk_node::<S, V>(src, h, b, info, st, depth) == spec_visit_all::<V>(
            st,
            spec_entries(src, h, b, info, depth)->Some_0,
        ),
    decreases 17 - depth, 0x1_0000_0001int,
{
    if is_leaf_hdr(h) {
        lemma_leaf_visit::<V>(h, b, info, st, 0, h.nkeys as int);
    } else {
        lemma_walk_children::<S, V>(src, h, b, info, st, depth, 0, h.nkeys as int);
    }
}

proof fn lemma_walk_children<S: NodeSource, V: LeafVisitor>(
    src: S,
    h: NodeHeader,
    b: Seq<u8>,
    info: TreeInfo,
    st: V::V,
    depth: int,
    i: int,
    n: int,
)
    requires
        spec_child_entries(src, h, b, info, depth, i, n) is Some,
        n <= 0xffff_ffff,
    ensures
        spec_walk_children::<S, V>(src, h, b, info, st, depth, i, n) == spec_visit_all::<V>(
            st,
            spec_child_entries(src, h, b, info, depth, i, n)->Some_0,
        ),
    decreases 17 - depth, if i < n { n - i } else { 0 },
{
    if i < n {
        let child = spec_child_ref(spec_value(h, b, i, info.val_size as int, 8))->Ok_0;
        let cb = src.spec_node_block(child)->Ok_0;
        let a = spec_entries(src, hdr_of(cb), cb, info, depth + 1)->Some_0;
        let rest = spec_child_entries(src, h, b, info, depth, i + 1, n)->Some_0;
        lemma_walk_node::<S, V>(src, hdr_of(cb), cb, info, st, depth + 1);
        lemma_visit_all_concat::<V>(st, a, rest);
        let (st2, r) = spec_walk_node::<S, V>(src, hdr_of(cb), cb, info, st, depth + 1);
        if r == Ok::<bool, Error>(true) {
            lemma_walk_children::<S, V>(src, h, b, info, st2, depth, i + 1, n);
        }
    }
}

/// A full walk of a tree whose every node can be read visits all of its
/// leaf entries, leaves left to right and each leaf in the order it stores
/// them, until the visitor stops or fails.
pub proof fn lemma_walk_visits_every_entry<S: NodeSource, V: LeafVisitor>(
    src: S,
    h: NodeHeader,
    b: Seq<u8>,
    info: TreeInfo,
    st: V::V,
)
    requires
        spec_entries(src, h, b, info, 0) is Some,
    ensures
        spec_walk_node::<S, V>(src, h, b, info, st, 0) == spec_visit_all::<V>(st, spec_entries(src, h, b, info, 0)->Some_0),
{
    lemma_walk_node::<S, V>(src, h, b, info, st, 0);
}

// ---------------------------------------------------------------------
// Scans towards a target
// ---------------------------------------------------------------------

/// In a node sorted for the target, the lower-bound search finds the
/// first key that does not sort before the target.
proof fn lemma_lower_bound_first<C: KeyCompare>(h: NodeHeader, b: Seq<u8>, fks: int, c: C, lo: int, hi: int)
    requires
        keys_ordered_for(h, b, fks, c),
        0 <= lo <= hi <= h.nkeys,
        forall|i: int| 0 <= i < lo ==> #[trigger] key_order_at(h, b, i, fks, c) == Ok::<KeyOrder, Error>(KeyOrder::Less),
        forall|i: int| hi <= i < h.nkeys ==> #[trigger] key_order_at(h, b, i, fks, c) != Ok::<KeyOrder, Error>(KeyOrder::Less),
    ensures
        spec_lower_bound(h, b, fks, c, lo, hi) is Ok,
        lo <= spec_lower_bound(h, b, fks, c, lo, hi)->Ok_0 <= hi,
        forall|i: int|
            0 <= i < spec_lower_bound(h, b, fks, c, lo, hi)->Ok_0 ==> #[trigger] key_order_at(h, b, i, fks, c)
                == Ok::<KeyOrder, Error>(KeyOrder::Less),
        forall|i: int|
            spec_lower_bound(h, b, fks, c, lo, hi)->Ok_0 <= i < h.nkeys ==> #[trigger] key_order_at(h, b, i, fks, c)
                != Ok::<KeyOrder, Error>(KeyOrder::Less),
    decreases hi - lo,
{
    if lo < hi {
        let mid = (lo + hi) / 2;
        assert(key_order_at(h, b, mid, fks, c) is Ok);
        let o = key_order_at(h, b, mid, fks, c)->Ok_0;
        if o == KeyOrder::Less {
            assert forall|i: int| 0 <= i < mid + 1 implies #[trigger] key_order_at(h, b, i, fks, c) == Ok::<
                KeyOrder,
                Error,
            >(KeyOrder::Less) by {
                if i < mid {
                    assert(key_order_at(h, b, i, fks, c) is Ok);
                    assert(order_rank(key_order_at(h, b, i, fks, c)->Ok_0) <= order_rank(key_order_at(h, b, mid, fks, c)->Ok_0));
                }
            }
            lemma_lower_bound_first(h, b, fks, c, mid + 1, hi);
        } else {
            assert forall|i: int| mid <= i < h.nkeys implies #[trigger] key_order_at(h, b, i, fks, c) != Ok::<
                KeyOrder,
                Error,
            >(KeyOrder::Less) by {
                if i > mid {
                    assert(key_order_at(h, b, i, fks, c) is Ok);
                    assert(order_rank(key_order_at(h, b, mid, fks, c)->Ok_0) <= order_rank(key_order_at(h, b, i, fks, c)->Ok_0));
                }
            }
            lemma_lower_bound_first(h, b, fks, c, lo, mid);
        }
    }
}

/// The entries of a leaf from `i` on: one per key, in order, and a later
/// start skips the first ones.
pub proof fn lemma_leaf_entries_shape(h: NodeHeader, b: Seq<u8>, info: TreeInfo, i: int, n: int)
    requires
        spec_leaf_entries(h, b, info, i, n) is Some,
        i <= n,
    ensures
        spec_leaf_entries(h, b, info, i, n)->Some_0.len() == n - i,
        forall|k: int|
            0 <= k < n - i ==> spec_key(h, b, i + k, info.key_size as int) == Ok::<Seq<u8>, Error>(
                (#[trigger] spec_leaf_entries(h, b, info, i, n)->Some_0[k]).0,
            ),
        forall|j: int|
            i <= j <= n ==> #[trigger] spec_leaf_entries(h, b, info, j, n) == Some(
                spec_leaf_entries(h, b, info, i, n)->Some_0.skip(j - i),
            ),
    decreases n - i,
{
    let es = spec_leaf_entries(h, b, info, i, n)->Some_0;
    if i == n {
        assert(es.skip(0) =~= es);
    } else {
        lemma_leaf_entries_shape(h, b, info, i + 1, n);
        let rest = spec_leaf_entries(h, b, info, i + 1, n)->Some_0;
        assert(es.skip(1) =~= rest);
        assert(es[0] == (spec_key(h, b, i, info.key_size as int)->Ok_0, spec_value(h, b, i, info.val_size as int, 8)->Ok_0));
        assert forall|k: int|
            0 <= k < n - i implies spec_key(h, b, i + k, info.key_size as int) == Ok::<Seq<u8>, Error>(
                (#[trigger] es[k]).0,
            ) by {
            if k > 0 {
                assert(es[k] == rest[k - 1]);
                assert(i + 1 + (k - 1) == i + k);
            } else {
                assert(i + k == i);
            }
        }
        assert forall|j: int| i <= j <= n implies #[trigger] spec_leaf_entries(h, b, info, j, n) == Some(es.skip(j - i)) by {
            if j > i {
                assert(rest.skip(j - (i + 1)) =~= es.skip(j - i));
            } else {
                assert(es.skip(0) =~= es);
            }
        }
    }
}

/// The first entry not before the target is at `p` when exactly the
/// entries before `p` are.
proof fn lemma_first_not_before_at<C: KeyCompare>(c: C, es: Seq<(Seq<u8>, Option<Seq<u8>>)>, p: int)
    requires
        0 <= p <= es.len(),
        forall|k: int| 0 <= k < p ==> #[trigger] before(c, es[k].0),
        p < es.len() ==> !before(c, es[p].0),
    ensures
        first_not_before(c, es) == p,
    decreases p,
{
    if p > 0 {
        assert(before(c, es[0].0));
        let t = es.skip(1);
        assert forall|k: int| 0 <= k < p - 1 implies #[trigger] before(c, t[k].0) by {
            assert(t[k] == es[k + 1]);
        }
        if p - 1 < t.len() {
            assert(t[p - 1] == es[p]);
        }
        lemma_first_not_before_at(c, t, p - 1);
    }
}

/// The children of an internal node before `s`, all of whose entries sort
/// before the target, are skipped whole.
proof fn lemma_scan_prefix<S: NodeSource, C: KeyCompare>(
    src: S,
    h: NodeHeader,
    b: Seq<u8>,
    info: TreeInfo,
    c: C,
    depth: int,
    i: int,
    s: int,
    n: int,
)
    requires
        spec_child_entries(src, h, b, info, depth, i, n) is Some,
        spec_sorted_children(src, h, b, info, c, depth, i, n),
        0 <= i <= s < n,
        forall|j: int| 0 <= j <= s ==> #[trigger] key_order_at(h, b, j, info.key_size as int, c) == Ok::<KeyOrder, Error>(KeyOrder::Less),
    ensures
        spec_child_entries(src, h, b, info, depth, s, n) is Some,
        spec_sorted_children(src, h, b, info, c, depth, s, n),
        ({
            let e = spec_child_entries(src, h, b, info, depth, i, n)->Some_0;
            let t = spec_child_entries(src, h, b, info, depth, s, n)->Some_0;
            e.skip(first_not_before(c, e)) == t.skip(first_not_before(c, t))
        }),
    decreases s - i,
{
    if i < s {
        let child = spec_child_ref(spec_value(h, b, i, info.val_size as int, 8))->Ok_0;
        let cb = src.spec_node_block(child)->Ok_0;
        let a = spec_entries(src, hdr_of(cb), cb, info, depth + 1)->Some_0;
        let rest = spec_child_entries(src, h, b, info, depth, i + 1, n)->Some_0;
        assert(key_order_at(h, b, i + 1, info.key_size as int, c) == Ok::<KeyOrder, Error>(KeyOrder::Less));
        assert(all_before(c, a));
        lemma_skip_before(c, a, rest);
        lemma_scan_prefix(src, h, b, info, c, depth, i + 1, s, n);
    }
}

/// Scanning children from `i` on, none of whose entries sorts before the
/// target, visits all of their entries.
proof fn lemma_scan_tail<S: NodeSource, C: KeyCompare, V: LeafVisitor>(
    src: S,
    h: NodeHeader,
    b: Seq<u8>,
    info: TreeInfo,
    c: C,
    st: V::V,
    depth: int,
    i: int,
    n: int,
)
    requires
        spec_child_entries(src, h, b, info, depth, i, n) is Some,
        spec_sorted_children(src, h, b, info, c, depth, i, n),
        0 <= i,
        n <= 0xffff_ffff,
        forall|j: int| i <= j < n ==> #[trigger] key_order_at(h, b, j, info.key_size as int, c) != Ok::<KeyOrder, Error>(KeyOrder::Less),
    ensures
        none_before(c, spec_child_entries(src, h, b, info, depth, i, n)->Some_0),
        spec_scan_children::<S, C, V>(src, h, b, info, c, st, depth, i, n) == spec_visit_all::<V>(
            st,
            spec_child_entries(src, h, b, info, depth, i, n)->Some_0,
        ),
    decreases 17 - depth, if i < n { n - i } else { 0 },
{
    if i < n {
        let child = spec_child_ref(spec_value(h, b, i, info.val_size as int, 8))->Ok_0;
        let cb = src.spec_node_block(child)->Ok_0;
        let a = spec_entries(src, hdr_of(cb), cb, info, depth + 1)->Some_0;
        let rest = spec_child_entries(src, h, b, info, depth, i + 1, n)->Some_0;
        assert(key_order_at(h, b, i, info.key_size as int, c) != Ok::<KeyOrder, Error>(KeyOrder::Less));
        assert(none_before(c, a));
        lemma_none_before_first(c, a);
        lemma_scan_node::<S, C, V>(src, hdr_of(cb), cb, info, c, st, depth + 1);
        lemma_visit_all_concat::<V>(st, a, rest);
        let (st2, r) = spec_scan_node::<S, C, V>(src, hdr_of(cb), cb, info, c, st, depth + 1);
        lemma_scan_tail::<S, C, V>(src, h, b, info, c, st2, depth, i + 1, n);
        let e = a + rest;
        assert forall|k: int| 0 <= k < e.len() implies !#[trigger] before(c, e[k].0) by {
            if k < a.len() {
                assert(e[k] == a[k]);
            } else {
                assert(e[k] == rest[k - a.len()]);
            }
        }
    } else {
        assert(spec_child_entries(src, h, b, info, depth, i, n)->Some_0.len() == 0);
    }
}

proof fn lemma_scan_node<S: NodeSource, C: KeyCompare, V: LeafVisitor>(
    src: S,
    h: NodeHeader,
    b: Seq<u8>,
    info: TreeInfo,
    c: C,
    st: V::V,
    depth: int,
)
    requires
        spec_entries(src, h, b, info, depth) is Some,
        spec_sorted_for(src, h, b, info, c, depth),
    ensures
        ({
            let es = spec_entries(src, h, b, info, depth)->Some_0;
            spec_scan_node::<S, C, V>(src, h, b, info, c, st, depth) == spec_visit_all::<V>(
                st,
                es.skip(first_not_before(c, es)),
            )
        }),
    decreases 17 - depth, 0x1_0000_0001int,
{
    let fks = info.key_size as int;
    let n = h.nkeys as int;
    let es = spec_entries(src, h, b, info, depth)->Some_0;
    lemma_lower_bound_first(h, b, fks, c, 0, n);
    let lb = spec_lower_bound(h, b, fks, c, 0, n)->Ok_0;
    if is_leaf_hdr(h) {
        lemma_leaf_entries_shape(h, b, info, 0, n);
        assert forall|k: int| 0 <= k < lb implies #[trigger] before(c, es[k].0) by {
            assert(key_order_at(h, b, k, fks, c) == Ok::<KeyOrder, Error>(KeyOrder::Less));
            assert(0 + k == k);
        }
        if lb < n {
            assert(key_order_at(h, b, lb, fks, c) != Ok::<KeyOrder, Error>(KeyOrder::Less));
            assert(0 + lb == lb);
        }
        lemma_first_not_before_at(c, es, lb);
        assert(spec_leaf_entries(h, b, info, lb, n) == Some(es.skip(lb - 0)));
        lemma_leaf_visit::<V>(h, b, info, st, lb, n);
    } else if lb == 0 {
        lemma_scan_tail::<S, C, V>(src, h, b, info, c, st, depth, 0, n);
        lemma_none_before_first(c, es);
    } else {
        let s = lb - 1;
        lemma_scan_prefix(src, h, b, info, c, depth, 0, s, n);
        let t = spec_child_entries(src, h, b, info, depth, s, n)->Some_0;
        let child = spec_child_ref(spec_value(h, b, s, info.val_size as int, 8))->Ok_0;
        let cb = src.spec_node_block(child)->Ok_0;
        let a = spec_entries(src, hdr_of(cb), cb, info, depth + 1)->Some_0;
        let rest = spec_child_entries(src, h, b, info, depth, s + 1, n)->Some_0;
        assert(t == a + rest);
        lemma_scan_node::<S, C, V>(src, hdr_of(cb), cb, info, c, st, depth + 1);
        let (st2, r) = spec_scan_node::<S, C, V>(src, hdr_of(cb), cb, info, c, st, depth + 1);
        lemma_scan_tail::<S, C, V>(src, h, b, info, c, st2, depth, s + 1, n);
        lemma_first_not_before_in(c, a, rest);
        lemma_visit_all_concat::<V>(st, a.skip(first_not_before(c, a)), rest);
    }
}

/// A scan towards target `c` of a tree that is sorted for `c`, and whose
/// every node can be read, visits exactly the leaf entries from the first
/// one that does not sort before the target, in order and across sibling
/// leaves, until the visitor stops or fails.
pub proof fn lemma_scan_visits_from_target<S: NodeSource, C: KeyCompare, V: LeafVisitor>(
    src: S,
    h: NodeHeader,
    b: Seq<u8>,
    info: TreeInfo,
    c: C,
    st: V::V,
)
    requires
        spec_entries(src, h, b, info, 0) is Some,
        spec_sorted_for(src, h, b, info, c, 0),
    ensures
        ({
            let es = spec_entries(src, h, b, info, 0)->Some_0;
            spec_scan_node::<S, C, V>(src, h, b, info, c, st, 0) == spec_visit_all::<V>(st, es.skip(first_not_before(c, es)))
        }),
{
    lemma_scan_node::<S, C, V>(src, h, b, info, c, st, 0);
}

// ---------------------------------------------------------------------
// Descents towards a target
// ---------------------------------------------------------------------

/// The keys of `es` compare to the target in order: each compares, the
/// comparisons never go down, and at most one equals the target.
pub open spec fn ranked<C: KeyCompare>(c: C, es: Seq<(Seq<u8>, Option<Seq<u8>>)>) -> bool {
    &&& forall|k: int| 0 <= k < es.len() ==> (#[trigger] c.spec_compare(es[k].0)) is Ok
    &&& forall|i: int, j: int|
        0 <= i < j < es.len() ==> order_rank(c.spec_compare((#[trigger] es[i]).0)->Ok_0) <= order_rank(
            c.spec_compare((#[trigger] es[j]).0)->Ok_0,
        )
    &&& forall|i: int, j: int|
        0 <= i < j < es.len() ==> !(c.spec_compare((#[trigger] es[i]).0) == Ok::<KeyOrder, Error>(KeyOrder::Equal)
            && c.spec_compare((#[trigger] es[j]).0) == Ok::<KeyOrder, Error>(KeyOrder::Equal))
}

/// The subtree (`h`, `b`) is sorted as the target `c` sees it, with each
/// internal node's key for a child being the key of that child's first
/// leaf entry.
pub open spec fn spec_separated<S: NodeSource, C: KeyCompare>(
    src: S,
    h: NodeHeader,
    b: Seq<u8>,
    info: TreeInfo,
    c: C,
    depth: int,
) -> bool
    decreases 17 - depth, 0x1_0000_0001int,
{
    if depth > 16 || depth < 0 {
        false
    } else if is_leaf_hdr(h) {
        keys_ordered_for(h, b, info.key_size as int, c)
    } else {
        h.nkeys > 0 && keys_ordered_for(h, b, info.key_size as int, c) && spec_separated_children(
            src,
            h,
            b,
            info,
            c,
            depth,
            0,
            h.nkeys as int,
        )
    }
}

/// Children `i..n` of the internal node (`h`, `b`) satisfy
/// [`spec_separated`], and each one's first leaf key is the node's key for
/// it.
pub open spec fn spec_separated_children<S: NodeSource, C: KeyCompare>(
    src: S,
    h: NodeHeader,
    b: Seq<u8>,
    info: TreeInfo,
    c: C,
    depth: int,
    i: int,
    n: int,
) -> bool
    decreases 17 - depth, if i < n { n - i } else { 0 },
{
    if i >= n {
        true
    } else if depth > 16 || depth < 0 {
        false
    } else {
        match spec_child_ref(spec_value(h, b, i, info.val_size as int, 8)) {
            Err(_) => false,
            Ok(child) => match src.spec_node_block(child) {
                Err(_) => false,
                Ok(cb) => {
                    &&& spec_separated(src, hdr_of(cb), cb, info, c, depth + 1)
                    &&& match spec_entries(src, hdr_of(cb), cb, info, depth + 1) {
                        None => false,
                        Some(a) => a.len() > 0 && spec_key(h, b, i, info.key_size as int) == Ok::<Seq<u8>, Error>(a[0].0),
                    }
                    &&& spec_separated_children(src, h, b, info, c, depth, i + 1, n)
                },
            },
        }
    }
}

/// Ordering facts carry over to a contiguous part of a sequence.
proof fn lemma_ranked_part<C: KeyCompare>(
    c: C,
    es: Seq<(Seq<u8>, Option<Seq<u8>>)>,
    off: int,
    a: Seq<(Seq<u8>, Option<Seq<u8>>)>,
)
    requires
        ranked(c, es),
        0 <= off,
        off + a.len() <= es.len(),
        forall|k: int| 0 <= k < a.len() ==> #[trigger] a[k] == es[off + k],
    ensures
        ranked(c, a),
{
    assert forall|k: int| 0 <= k < a.len() implies (#[trigger] c.spec_compare(a[k].0)) is Ok by {
        assert(a[k] == es[off + k]);
    }
    assert forall|i: int, j: int| 0 <= i < j < a.len() implies order_rank(c.spec_compare((#[trigger] a[i]).0)->Ok_0)
        <= order_rank(c.spec_compare((#[trigger] a[j]).0)->Ok_0) by {
        assert(a[i] == es[off + i] && a[j] == es[off + j]);
    }
    assert forall|i: int, j: int| 0 <= i < j < a.len() implies !(c.spec_compare((#[trigger] a[i]).0) == Ok::<
        KeyOrder,
        Error,
    >(KeyOrder::Equal) && c.spec_compare((#[trigger] a[j]).0) == Ok::<KeyOrder, Error>(KeyOrder::Equal)) by {
        assert(a[i] == es[off + i] && a[j] == es[off + j]);
    }
}

/// The entries under children `j..n` end the entries under children
/// `i..n`.
proof fn lemma_children_suffix<S: NodeSource, C: KeyCompare>(
    src: S,
    h: NodeHeader,
    b: Seq<u8>,
    info: TreeInfo,
    c: C,
    depth: int,
    i: int,
    j: int,
    n: int,
)
    requires
        spec_child_entries(src, h, b, info, depth, i, n) is Some,
        spec_separated_children(src, h, b, info, c, depth, i, n),
        0 <= i <= j <= n,
    ensures
        spec_child_entries(src, h, b, info, depth, j, n) is Some,
        spec_separated_children(src, h, b, info, c, depth, j, n),
        ({
            let e = spec_child_entries(src, h, b, info, depth, i, n)->Some_0;
            let t = spec_child_entries(src, h, b, info, depth, j, n)->Some_0;
            &&& t.len() <= e.len()
            &&& (i == j ==> t.len() == e.len())
            &&& forall|k: int| 0 <= k < t.len() ==> #[trigger] t[k] == e[e.len() - t.len() + k]
        }),
    decreases j - i,
{
    if i < j {
        lemma_children_suffix(src, h, b, info, c, depth, i + 1, j, n);
        let e = spec_child_entries(src, h, b, info, depth, i, n)->Some_0;
        let m = spec_child_entries(src, h, b, info, depth, i + 1, n)->Some_0;
        let t = spec_child_entries(src, h, b, info, depth, j, n)->Some_0;
        let child = spec_child_ref(spec_value(h, b, i, info.val_size as int, 8))->Ok_0;
        let cb = src.spec_node_block(child)->Ok_0;
        let a = spec_entries(src, hdr_of(cb), cb, info, depth + 1)->Some_0;
        assert(e == a + m);
        assert forall|k: int| 0 <= k < t.len() implies #[trigger] t[k] == e[e.len() - t.len() + k] by {
            assert(t[k] == m[m.len() - t.len() + k]);
        }
    }
}

/// When the first entry of a run that ends a ranked sequence lies above
/// the target, so does every entry of the run.
proof fn lemma_rest_above<C: KeyCompare>(c: C, es: Seq<(Seq<u8>, Option<Seq<u8>>)>, off: int, r: Seq<(Seq<u8>, Option<Seq<u8>>)>)
    requires
        ranked(c, es),
        0 <= off,
        off + r.len() == es.len(),
        forall|k: int| 0 <= k < r.len() ==> #[trigger] r[k] == es[off + k],
        r.len() > 0 ==> c.spec_compare(r[0].0) == Ok::<KeyOrder, Error>(KeyOrder::Greater),
    ensures
        forall|k: int| off <= k < es.len() ==> c.spec_compare((#[trigger] es[k]).0) == Ok::<KeyOrder, Error>(KeyOrder::Greater),
{
    assert forall|k: int| off <= k < es.len() implies c.spec_compare((#[trigger] es[k]).0) == Ok::<KeyOrder, Error>(
        KeyOrder::Greater,
    ) by {
        assert(es[k] == r[k - off]);
        assert(r[0] == es[off + 0]);
        if k > off {
            assert(order_rank(c.spec_compare(es[off].0)->Ok_0) <= order_rank(c.spec_compare(es[k].0)->Ok_0));
            assert(c.spec_compare(es[k].0) is Ok);
        }
    }
}

/// A descent towards the target reaches a leaf whose entries are a run of
/// the subtree's entries, after which every entry lies above the target,
/// and which starts with an entry not above the target unless it is the
/// first leaf.
#[verifier::spinoff_prover]
#[verifier::rlimit(40)]
pub proof fn lemma_descend_segment<S: NodeSource, C: KeyCompare>(
    src: S,
    h: NodeHeader,
    b: Seq<u8>,
    info: TreeInfo,
    c: C,
    depth: int,
) -> (lo: int)
    requires
        h == hdr_of(b),
        spec_entries(src, h, b, info, depth) is Some,
        spec_separated(src, h, b, info, c, depth),
        ranked(c, spec_entries(src, h, b, info, depth)->Some_0),
        spec_descend(src, h, b, info, c, depth) is Ok,
    ensures
        ({
            let es = spec_entries(src, h, b, info, depth)->Some_0;
            let lb = spec_descend(src, h, b, info, c, depth)->Ok_0;
            let ll = spec_leaf_entries(hdr_of(lb), lb, info, 0, hdr_of(lb).nkeys as int);
            &&& is_leaf_hdr(hdr_of(lb))
            &&& ll is Some
            &&& 0 <= lo
            &&& lo + ll->Some_0.len() <= es.len()
            &&& forall|k: int| 0 <= k < ll->Some_0.len() ==> #[trigger] ll->Some_0[k] == es[lo + k]
            &&& forall|k: int|
                lo + ll->Some_0.len() <= k < es.len() ==> c.spec_compare((#[trigger] es[k]).0) == Ok::<KeyOrder, Error>(
                    KeyOrder::Greater,
                )
            &&& lo > 0 ==> ll->Some_0.len() > 0 && c.spec_compare(ll->Some_0[0].0) != Ok::<KeyOrder, Error>(
                KeyOrder::Greater,
            )
        }),
    decreases 17 - depth,
{
    let fks = info.key_size as int;
    let n = h.nkeys as int;
    let es = spec_entries(src, h, b, info, depth)->Some_0;
    if is_leaf_hdr(h) {
        0
    } else {
        lemma_search_lower_bound(h, b, fks, c);
        let pos = spec_search(h, b, fks, c, 0, n)->Ok_0;
        let idx: int = match pos {
            SearchPos::Found(i) => i as int,
            SearchPos::Before(Some(i)) => i as int,
            SearchPos::Before(None) => 0,
        };
        let child = spec_child_ref(spec_value(h, b, idx, info.val_size as int, 8))->Ok_0;
        let cb = src.spec_node_block(child)->Ok_0;
        assert(spec_descend_step(src, h, b, info, c) == Ok::<Seq<u8>, Error>(cb));
        assert(0 <= idx < n);
        lemma_children_suffix(src, h, b, info, c, depth, 0, idx, n);
        lemma_children_suffix(src, h, b, info, c, depth, 0, idx + 1, n);
        let t = spec_child_entries(src, h, b, info, depth, idx, n)->Some_0;
        let a = spec_entries(src, hdr_of(cb), cb, info, depth + 1)->Some_0;
        let r = spec_child_entries(src, h, b, info, depth, idx + 1, n)->Some_0;
        assert(t == a + r);
        let p0 = es.len() - t.len();
        assert forall|k: int| 0 <= k < a.len() implies #[trigger] a[k] == es[p0 + k] by {
            assert(a[k] == t[k]);
            assert(t[k] == es[es.len() - t.len() + k]);
        }
        assert forall|k: int| 0 <= k < r.len() implies #[trigger] r[k] == es[p0 + a.len() + k] by {
            assert(r[k] == t[a.len() + k]);
            assert(t[a.len() + k] == es[es.len() - t.len() + (a.len() + k)]);
        }
        lemma_ranked_part(c, es, p0, a);
        assert(spec_key(h, b, idx, fks) == Ok::<Seq<u8>, Error>(a[0].0));
        // Everything after the child lies above the target.
        if r.len() > 0 {
            let child1 = spec_child_ref(spec_value(h, b, idx + 1, info.val_size as int, 8))->Ok_0;
            let cb1 = src.spec_node_block(child1)->Ok_0;
            let a1 = spec_entries(src, hdr_of(cb1), cb1, info, depth + 1)->Some_0;
            assert(idx + 1 < n);
            assert(r[0] == a1[0]);
            assert(spec_key(h, b, idx + 1, fks) == Ok::<Seq<u8>, Error>(r[0].0));
            assert(es[p0 + a.len()] == r[0]);
            assert(es[p0] == a[0]);
            assert(c.spec_compare(r[0].0) == Ok::<KeyOrder, Error>(KeyOrder::Greater)) by {
                assert(key_order_at(h, b, idx + 1, fks, c) is Ok);
                assert(key_order_at(h, b, idx, fks, c) is Ok);
                assert(order_rank(key_order_at(h, b, idx, fks, c)->Ok_0) <= order_rank(key_order_at(h, b, idx + 1, fks, c)->Ok_0));
                if pos is Found {
                    assert(c.spec_compare(es[p0].0) == Ok::<KeyOrder, Error>(KeyOrder::Equal));
                    assert(p0 < p0 + a.len());
                }
            }
        }
        lemma_rest_above(c, es, p0 + a.len(), r);
        let lo1 = lemma_descend_segment(src, hdr_of(cb), cb, info, c, depth + 1);
        let lb = spec_descend(src, h, b, info, c, depth)->Ok_0;
        assert(lb == spec_descend(src, hdr_of(cb), cb, info, c, depth + 1)->Ok_0);
        let ll = spec_leaf_entries(hdr_of(lb), lb, info, 0, hdr_of(lb).nkeys as int)->Some_0;
        assert forall|k: int| 0 <= k < ll.len() implies #[trigger] ll[k] == es[p0 + lo1 + k] by {
            assert(ll[k] == a[lo1 + k]);
        }
        assert forall|k: int|
            p0 + lo1 + ll.len() <= k < es.len() implies c.spec_compare((#[trigger] es[k]).0) == Ok::<KeyOrder, Error>(
            KeyOrder::Greater,
        ) by {
            if k < p0 + a.len() {
                assert(es[k] == a[k - p0]);
            }
        }
        if p0 + lo1 > 0 && lo1 == 0 {
            assert(idx > 0) by {
                if idx == 0 {
                    assert(t.len() == es.len());
                }
            }
            assert(c.spec_compare(a[0].0) != Ok::<KeyOrder, Error>(KeyOrder::Greater)) by {
                assert(key_order_at(h, b, idx, fks, c) == c.spec_compare(a[0].0));
            }
            if ll.len() == 0 {
                assert(c.spec_compare(a[0].0) == Ok::<KeyOrder, Error>(KeyOrder::Greater));
            }
            assert(ll[0] == a[0]);
        }
        p0 + lo1
    }
}

/// A descent towards the target succeeds on a readable subtree whose
/// internal nodes have keys and which is sorted as the target sees it.
pub proof fn lemma_descend_ok<S: NodeSource, C: KeyCompare>(
    src: S,
    h: NodeHeader,
    b: Seq<u8>,
    info: TreeInfo,
    c: C,
    depth: int,
)
    requires
        spec_entries(src, h, b, info, depth) is Some,
        spec_separated(src, h, b, info, c, depth),
    ensures
        spec_descend(src, h, b, info, c, depth) is Ok,
    decreases 17 - depth,
{
    if !is_leaf_hdr(h) {
        let fks = info.key_size as int;
        let n = h.nkeys as int;
        lemma_search_lower_bound(h, b, fks, c);
        let pos = spec_search(h, b, fks, c, 0, n)->Ok_0;
        let idx: int = match pos {
            SearchPos::Found(i) => i as int,
            SearchPos::Before(Some(i)) => i as int,
            SearchPos::Before(None) => 0,
        };
        assert(0 <= idx < n) by {
            if idx != 0 {
                assert(key_order_at(h, b, idx, fks, c) is Ok);
                assert(spec_key(h, b, idx, fks) is Ok);
            }
        }
        lemma_children_suffix(src, h, b, info, c, depth, 0, idx, n);
        let child = spec_child_ref(spec_value(h, b, idx, info.val_size as int, 8))->Ok_0;
        let cb = src.spec_node_block(child)->Ok_0;
        lemma_descend_ok(src, hdr_of(cb), cb, info, c, depth + 1);
        assert(spec_descend_step(src, h, b, info, c) == Ok::<Seq<u8>, Error>(cb));
    }
}

} // verus!
