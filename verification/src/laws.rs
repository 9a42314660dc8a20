//! The laws the store obeys, stated over the map model that every tree
//! operation's contract speaks of, and proved once and for all. Together
//! with those contracts they describe whole histories of operations: each
//! mutating operation says which map the tree holds afterwards, and these
//! laws say what lookups on such maps yield.
use crate::model::{extensions_of, map_after_insert, PathView, TreeView};
use vstd::prelude::*;

verus! {

/// Inserting value `v` at a non-empty path `p` and then checking `p` finds
/// a node holding exactly `v`.
pub proof fn lemma_insert_then_check<T>(m: TreeView<T>, p: PathView, v: Option<T>)
    requires
        p.len() > 0,
    ensures
        map_after_insert(m, p, v).dom().contains(p),
        map_after_insert(m, p, v)[p] == v,
{
    assert(p.is_prefix_of(p)) by {
        assert(p =~= p.subrange(0, p.len() as int));
    }
}

/// An insert at `p` creates nothing but non-empty prefixes of `p`: a path
/// that did not resolve before and is no such prefix still does not resolve.
/// A fresh tree resolves nothing at all, so a path resolves only once it or
/// an extension of it has been inserted.
pub proof fn lemma_insert_creates_only_prefixes<T>(
    m: TreeView<T>,
    p: PathView,
    v: Option<T>,
    q: PathView,
)
    requires
        !m.dom().contains(q),
        !(q.len() > 0 && q.is_prefix_of(p)),
    ensures
        !map_after_insert(m, p, v).dom().contains(q),
{
}

/// An insert at `p` sets no value on intermediate nodes: a proper non-empty
/// prefix of `p` exists afterwards, holding what it held before, and holding
/// nothing at all where it is newly created — distinct from not resolving.
pub proof fn lemma_insert_intermediates_structural<T>(
    m: TreeView<T>,
    p: PathView,
    v: Option<T>,
    q: PathView,
)
    requires
        q.len() > 0,
        q.is_prefix_of(p),
        q != p,
    ensures
        map_after_insert(m, p, v).dom().contains(q),
        m.dom().contains(q) ==> map_after_insert(m, p, v)[q] == m[q],
        !m.dom().contains(q) ==> map_after_insert(m, p, v)[q] is None,
{
}

/// A delete at `p` removes `p` and everything beneath it: afterwards no
/// path with `p` as a prefix resolves.
pub proof fn lemma_delete_removes_subtree<T>(m: TreeView<T>, p: PathView, q: PathView)
    requires
        p.is_prefix_of(q),
    ensures
        !m.remove_keys(extensions_of(p)).dom().contains(q),
{
}

/// A delete at `p` touches nothing outside `p`'s subtree: a path without
/// `p` as a prefix resolves to exactly what it did before.
pub proof fn lemma_delete_keeps_the_rest<T>(m: TreeView<T>, p: PathView, q: PathView)
    requires
        !p.is_prefix_of(q),
    ensures
        m.remove_keys(extensions_of(p)).dom().contains(q) <==> m.dom().contains(q),
        m.dom().contains(q) ==> m.remove_keys(extensions_of(p))[q] == m[q],
{
}

} // verus!
