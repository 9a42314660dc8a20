//! The abstract model of a tree: a map from paths to optional values.
//!
//! A path is modelled as the sequence of its segments' character sequences.
//! A tree is modelled as the map holding every path that resolves to a node,
//! keyed to the value slot of that node. The functions here describe, purely
//! at the level of such maps, what each tree operation does.
use vstd::prelude::*;

verus! {

/// The model of a path: its segments' character sequences, in order.
pub type PathView = Seq<Seq<char>>;

/// The model of a tree: every resolving path, keyed to its value slot.
pub type TreeView<T> = Map<PathView, Option<T>>;

/// The set of paths that begin with `p`, `p` itself included.
pub open spec fn extensions_of(p: PathView) -> Set<PathView> {
    Set::new(|q: PathView| p.is_prefix_of(q))
}

/// Whether `q` lies strictly below `p`: `p` is a proper prefix of `q`.
pub open spec fn strictly_below(q: PathView, p: PathView) -> bool {
    p.is_prefix_of(q) && q.len() > p.len()
}

/// A path map never holds the empty path: no operation addresses the root.
pub open spec fn paths_nonempty<T>(m: TreeView<T>) -> bool {
    forall|q: PathView| #[trigger] m.dom().contains(q) ==> q.len() > 0
}

/// A path map holds every non-empty prefix of each of its paths.
pub open spec fn prefix_closed<T>(m: TreeView<T>) -> bool {
    forall|q: PathView| #[trigger]
        m.dom().contains(q) ==> forall|k: int|
            0 < k < q.len() ==> m.dom().contains(#[trigger] q.subrange(0, k))
}

/// The subtree of `m` that hangs below `p`: its keys are the continuations
/// of paths of `m` that pass through `p`.
pub open spec fn subtree_at<T>(m: TreeView<T>, p: PathView) -> TreeView<T> {
    Map::new(|q: PathView| q.len() > 0 && m.dom().contains(p + q), |q: PathView| m[p + q])
}

/// The map after inserting value `v` at path `p`: every non-empty prefix of
/// `p` exists afterwards, `p` holds `v`, a prefix that already existed keeps
/// its slot, a newly created intermediate holds nothing, and every other
/// path is untouched.
pub open spec fn map_after_insert<T>(m: TreeView<T>, p: PathView, v: Option<T>) -> TreeView<T> {
    if p.len() == 0 {
        m
    } else {
        Map::new(
            |q: PathView| m.dom().contains(q) || (q.len() > 0 && q.is_prefix_of(p)),
            |q: PathView|
                if q == p {
                    v
                } else if m.dom().contains(q) {
                    m[q]
                } else {
                    None
                },
        )
    }
}

/// The map after the whole subtree below `p` (and `p`'s own slot) has been
/// replaced: `p` now holds `stored`, the paths strictly below `p` are those
/// of `sub` shifted under `p`, and every other path is untouched.
pub open spec fn map_with_subtree<T>(
    m: TreeView<T>,
    p: PathView,
    sub: TreeView<T>,
    stored: Option<T>,
) -> TreeView<T> {
    Map::new(
        |q: PathView|
            (m.dom().contains(q) && !strictly_below(q, p)) || (strictly_below(q, p)
                && sub.dom().contains(q.skip(p.len() as int))),
        |q: PathView|
            if q == p {
                stored
            } else if strictly_below(q, p) {
                sub[q.skip(p.len() as int)]
            } else {
                m[q]
            },
    )
}

/// The map after the child behind segment `l` has been replaced wholesale:
/// the path `[l]` now holds `st`, the paths through `l` are those of `c`
/// shifted under `l`, and paths through other segments are untouched. Unlike
/// `map_with_subtree`, this creates `[l]` whether or not it existed.
pub open spec fn map_with_child<T>(
    m: TreeView<T>,
    l: Seq<char>,
    c: TreeView<T>,
    st: Option<T>,
) -> TreeView<T> {
    Map::new(
        |q: PathView| q == seq![l] || (q.len() > 1 && q[0] == l && c.dom().contains(q.skip(1))) || (
        q.len() > 0 && q[0] != l && m.dom().contains(q)),
        |q: PathView|
            if q == seq![l] {
                st
            } else if q.len() > 1 && q[0] == l {
                c[q.skip(1)]
            } else {
                m[q]
            },
    )
}

/// The slot of the immediate child behind `l`: what `[l]` holds, if present.
pub open spec fn child_slot<T>(m: TreeView<T>, l: Seq<char>) -> Option<T> {
    if m.dom().contains(seq![l]) {
        m[seq![l]]
    } else {
        None
    }
}

/// Facts about paths of the form `[l] + q`: first segment, rest, prefix and
/// skip behaviour. These carry every tree argument from one level of the
/// tree to the next.
pub proof fn lemma_cons_path(l: Seq<char>, q: PathView)
    ensures
        (seq![l] + q).len() == q.len() + 1,
        (seq![l] + q)[0] == l,
        (seq![l] + q).skip(1) =~= q,
        forall|p: PathView| #[trigger]
            (seq![l] + p).is_prefix_of(seq![l] + q) <==> p.is_prefix_of(q),
        forall|k: int| 0 <= k <= q.len() ==> #[trigger] (seq![l] + q).skip(1 + k) =~= q.skip(k),
{
    assert forall|p: PathView| #[trigger]
        (seq![l] + p).is_prefix_of(seq![l] + q) <==> p.is_prefix_of(q) by {
        if (seq![l] + p).is_prefix_of(seq![l] + q) {
            assert(forall|i: int| 0 <= i < p.len() ==> p[i] == (seq![l] + p)[i + 1]);
            assert(p =~= q.subrange(0, p.len() as int));
        }
        if p.is_prefix_of(q) {
            assert((seq![l] + p) =~= (seq![l] + q).subrange(0, p.len() as int + 1));
        }
    }
    assert forall|k: int| 0 <= k <= q.len() implies #[trigger] (seq![l] + q).skip(1 + k) =~= q.skip(
        k,
    ) by {
    }
}

/// A non-empty path is its first segment followed by the rest.
pub proof fn lemma_uncons_path(q: PathView)
    requires
        q.len() > 0,
    ensures
        q =~= seq![q[0]] + q.skip(1),
{
}

/// A path with `p` as a prefix is `p` followed by the rest.
pub proof fn lemma_prefix_split(p: PathView, q: PathView)
    requires
        p.is_prefix_of(q),
    ensures
        p + q.skip(p.len() as int) =~= q,
{
}

/// Prefixes cancel on the left of a concatenation.
pub proof fn lemma_concat_prefix(a: PathView, x: PathView, y: PathView)
    ensures
        (a + x).is_prefix_of(a + y) <==> x.is_prefix_of(y),
{
    if (a + x).is_prefix_of(a + y) {
        assert(forall|i: int| 0 <= i < x.len() ==> x[i] == (a + x)[a.len() + i]);
        assert(x =~= y.subrange(0, x.len() as int));
    }
    if x.is_prefix_of(y) {
        assert((a + x) =~= (a + y).subrange(0, a.len() as int + x.len() as int));
    }
}

/// Taking a subtree of a subtree is taking one subtree along the
/// concatenated path.
pub proof fn lemma_subtree_compose<T>(m: TreeView<T>, a: PathView, b: PathView)
    ensures
        subtree_at(subtree_at(m, a), b) =~= subtree_at(m, a + b),
{
    let lhs = subtree_at(subtree_at(m, a), b);
    let rhs = subtree_at(m, a + b);
    assert forall|q: PathView| #![trigger lhs.dom().contains(q), rhs.dom().contains(q)]
        (lhs.dom().contains(q) <==> rhs.dom().contains(q)) && (lhs.dom().contains(q)
            ==> lhs[q] == rhs[q]) by {
        assert(a + (b + q) =~= (a + b) + q);
        if q.len() > 0 {
            assert((b + q).len() > 0);
        }
    }
    assert(lhs =~= rhs);
}

/// Replacing the child behind `l` twice is replacing it once, with the
/// second replacement.
pub proof fn lemma_child_overwrite<T>(
    m: TreeView<T>,
    l: Seq<char>,
    c1: TreeView<T>,
    s1: Option<T>,
    c2: TreeView<T>,
    s2: Option<T>,
)
    ensures
        map_with_child(map_with_child(m, l, c1, s1), l, c2, s2) =~= map_with_child(m, l, c2, s2),
{
    let mid = map_with_child(m, l, c1, s1);
    let lhs = map_with_child(mid, l, c2, s2);
    let rhs = map_with_child(m, l, c2, s2);
    assert forall|q: PathView| #![trigger lhs.dom().contains(q), rhs.dom().contains(q)]
        (lhs.dom().contains(q) <==> rhs.dom().contains(q)) && (lhs.dom().contains(q)
            ==> lhs[q] == rhs[q]) by {
        if q.len() > 0 && q[0] != l {
            assert(q != seq![l]) by {
                assert(seq![l][0] == l);
            }
        }
    }
    assert(lhs =~= rhs);
}

/// Inserting below segment `l` and grafting the result back under `l` is
/// inserting along the longer path.
pub proof fn lemma_insert_step<T>(m: TreeView<T>, l: Seq<char>, p2: PathView, v: Option<T>)
    requires
        paths_nonempty(m),
        prefix_closed(m),
        p2.len() > 0,
    ensures
        map_with_child(m, l, map_after_insert(subtree_at(m, seq![l]), p2, v), child_slot(m, l))
            =~= map_after_insert(m, seq![l] + p2, v),
{
    let p = seq![l] + p2;
    let sub = subtree_at(m, seq![l]);
    let c = map_after_insert(sub, p2, v);
    let lhs = map_with_child(m, l, c, child_slot(m, l));
    let rhs = map_after_insert(m, p, v);
    lemma_cons_path(l, p2);
    assert(seq![l].is_prefix_of(p)) by {
        assert(seq![l] =~= p.subrange(0, 1));
    }
    assert forall|q: PathView| #![trigger lhs.dom().contains(q), rhs.dom().contains(q)]
        (lhs.dom().contains(q) <==> rhs.dom().contains(q)) && (lhs.dom().contains(q)
            ==> lhs[q] == rhs[q]) by {
        if q.len() == 0 {
            assert(!q.is_prefix_of(p) || q =~= p.subrange(0, 0));
            assert(!lhs.dom().contains(q));
            assert(!rhs.dom().contains(q));
        } else {
            let q2 = q.skip(1);
            lemma_uncons_path(q);
            lemma_cons_path(q[0], q2);
            if q[0] != l {
                assert(!q.is_prefix_of(p));
                if q == seq![l] {
                    assert(q[0] == l);
                }
            } else {
                assert(q == seq![l] + q2);
                if q.len() == 1 {
                    assert(q =~= seq![l]);
                    assert(q.is_prefix_of(p));
                    assert(q != p);
                } else {
                    lemma_concat_prefix(seq![l], q2, p2);
                    assert(m.dom().contains(seq![l] + q2) == m.dom().contains(q));
                    assert(q.is_prefix_of(p) <==> q2.is_prefix_of(p2));
                    assert(q == p <==> q2 == p2) by {
                        if q2 == p2 {
                            assert(q == p);
                        }
                        if q == p {
                            assert(q2 =~= p.skip(1));
                        }
                    }
                }
            }
        }
    }
    assert(lhs =~= rhs);
}

/// Setting the slot of the immediate child behind `l`, keeping its subtree,
/// is inserting at the one-segment path `[l]`.
pub proof fn lemma_insert_leaf<T>(m: TreeView<T>, l: Seq<char>, v: Option<T>)
    requires
        paths_nonempty(m),
    ensures
        map_with_child(m, l, subtree_at(m, seq![l]), v) =~= map_after_insert(m, seq![l], v),
{
    let p = seq![l];
    let sub = subtree_at(m, p);
    let lhs = map_with_child(m, l, sub, v);
    let rhs = map_after_insert(m, p, v);
    assert forall|q: PathView| #![trigger lhs.dom().contains(q), rhs.dom().contains(q)]
        (lhs.dom().contains(q) <==> rhs.dom().contains(q)) && (lhs.dom().contains(q)
            ==> lhs[q] == rhs[q]) by {
        if q.len() == 0 {
            assert(!q.is_prefix_of(p) || q =~= p.subrange(0, 0));
        } else {
            let q2 = q.skip(1);
            lemma_uncons_path(q);
            lemma_cons_path(q[0], q2);
            if q[0] != l {
                assert(!q.is_prefix_of(p));
                assert(q != seq![l]);
            } else if q.len() == 1 {
                assert(q =~= seq![l]);
                assert(q.is_prefix_of(p));
            } else {
                assert(q == seq![l] + q2);
                assert(!q.is_prefix_of(p));
                assert(q != p);
                assert(m.dom().contains(seq![l] + q2) == m.dom().contains(q));
            }
        }
    }
    assert(lhs =~= rhs);
}

/// Replacing the child behind `l` wholesale is replacing the subtree at the
/// one-segment path `[l]`, provided that path already exists.
pub proof fn lemma_graft_leaf<T>(m: TreeView<T>, l: Seq<char>, c: TreeView<T>, st: Option<T>)
    requires
        paths_nonempty(m),
        m.dom().contains(seq![l]),
    ensures
        map_with_child(m, l, c, st) =~= map_with_subtree(m, seq![l], c, st),
{
    let p = seq![l];
    let lhs = map_with_child(m, l, c, st);
    let rhs = map_with_subtree(m, p, c, st);
    assert forall|q: PathView| #![trigger lhs.dom().contains(q), rhs.dom().contains(q)]
        (lhs.dom().contains(q) <==> rhs.dom().contains(q)) && (lhs.dom().contains(q)
            ==> lhs[q] == rhs[q]) by {
        if q.len() == 0 {
            assert(!strictly_below(q, p));
        } else {
            lemma_uncons_path(q);
            if q[0] != l {
                assert(q != seq![l]);
                assert(!strictly_below(q, p)) by {
                    if p.is_prefix_of(q) {
                        assert(q[0] == p[0]);
                    }
                }
            } else if q.len() == 1 {
                assert(q =~= seq![l]);
                assert(!strictly_below(q, p));
            } else {
                assert(q != p);
                assert(strictly_below(q, p)) by {
                    assert(p =~= q.subrange(0, 1));
                }
            }
        }
    }
    assert(lhs =~= rhs);
}

/// Replacing a subtree below segment `l` and grafting the result back under
/// `l` is replacing the subtree at the longer path.
pub proof fn lemma_graft_step<T>(
    m: TreeView<T>,
    l: Seq<char>,
    p2: PathView,
    s: TreeView<T>,
    st: Option<T>,
)
    requires
        paths_nonempty(m),
        prefix_closed(m),
        p2.len() > 0,
        m.dom().contains(seq![l] + p2),
    ensures
        map_with_child(
            m,
            l,
            map_with_subtree(subtree_at(m, seq![l]), p2, s, st),
            child_slot(m, l),
        ) =~= map_with_subtree(m, seq![l] + p2, s, st),
{
    let p = seq![l] + p2;
    let sub = subtree_at(m, seq![l]);
    let c = map_with_subtree(sub, p2, s, st);
    let lhs = map_with_child(m, l, c, child_slot(m, l));
    let rhs = map_with_subtree(m, p, s, st);
    lemma_cons_path(l, p2);
    assert(m.dom().contains(seq![l])) by {
        assert(m.dom().contains(p.subrange(0, 1)));
        assert(seq![l] =~= p.subrange(0, 1));
    }
    assert forall|q: PathView| #![trigger lhs.dom().contains(q), rhs.dom().contains(q)]
        (lhs.dom().contains(q) <==> rhs.dom().contains(q)) && (lhs.dom().contains(q)
            ==> lhs[q] == rhs[q]) by {
        if q.len() == 0 {
            assert(!strictly_below(q, p));
        } else {
            let q2 = q.skip(1);
            lemma_uncons_path(q);
            lemma_cons_path(q[0], q2);
            if q[0] != l {
                assert(q != seq![l]);
                assert(!strictly_below(q, p)) by {
                    if p.is_prefix_of(q) {
                        assert(q[0] == p[0]);
                    }
                }
                assert(q != p);
            } else if q.len() == 1 {
                assert(q =~= seq![l]);
                assert(!strictly_below(q, p)) by {
                    if p.is_prefix_of(q) {
                        assert(p.len() <= 1);
                    }
                }
                assert(q != p);
            } else {
                assert(q == seq![l] + q2);
                lemma_concat_prefix(seq![l], p2, q2);
                assert(strictly_below(q, p) <==> strictly_below(q2, p2));
                assert(m.dom().contains(seq![l] + q2) == m.dom().contains(q));
                assert(q == p <==> q2 == p2) by {
                    if q2 == p2 {
                        assert(q == p);
                    }
                    if q == p {
                        assert(q2 =~= p.skip(1));
                    }
                }
                if strictly_below(q2, p2) {
                    assert(q2.skip(p2.len() as int) =~= q.skip(p.len() as int));
                }
            }
        }
    }
    assert(lhs =~= rhs);
}

/// Grafting a subtree back, unchanged, changes nothing.
pub proof fn lemma_graft_same<T>(m: TreeView<T>, p: PathView)
    requires
        paths_nonempty(m),
        prefix_closed(m),
        m.dom().contains(p),
    ensures
        map_with_subtree(m, p, subtree_at(m, p), m[p]) =~= m,
{
    let lhs = map_with_subtree(m, p, subtree_at(m, p), m[p]);
    assert forall|q: PathView| #![trigger lhs.dom().contains(q), m.dom().contains(q)]
        (lhs.dom().contains(q) <==> m.dom().contains(q)) && (lhs.dom().contains(q) ==> lhs[q]
            == m[q]) by {
        if strictly_below(q, p) {
            lemma_prefix_split(p, q);
            let q2 = q.skip(p.len() as int);
            assert(q2.len() > 0);
            assert(m.dom().contains(p + q2) == m.dom().contains(q));
        }
    }
    assert(lhs =~= m);
}

/// Grafting a subtree back unchanged, with a new slot at its top, sets that
/// slot and nothing else.
pub proof fn lemma_slot_set<T>(m: TreeView<T>, p: PathView, st: Option<T>)
    requires
        m.dom().contains(p),
    ensures
        map_with_subtree(m, p, subtree_at(m, p), st) =~= m.insert(p, st),
{
    let lhs = map_with_subtree(m, p, subtree_at(m, p), st);
    let rhs = m.insert(p, st);
    assert forall|q: PathView| #![trigger lhs.dom().contains(q), rhs.dom().contains(q)]
        (lhs.dom().contains(q) <==> rhs.dom().contains(q)) && (lhs.dom().contains(q)
            ==> lhs[q] == rhs[q]) by {
        if strictly_below(q, p) {
            lemma_prefix_split(p, q);
            let q2 = q.skip(p.len() as int);
            assert(q2.len() > 0);
            assert(m.dom().contains(p + q2) == m.dom().contains(q));
            assert(q != p);
        }
    }
    assert(lhs =~= rhs);
}

/// Removing the child behind `l` of the node at `pp`, then grafting the
/// parent back, removes exactly the paths through `pp + [l]`.
pub proof fn lemma_remove_step<T>(m: TreeView<T>, pp: PathView, l: Seq<char>)
    requires
        paths_nonempty(m),
        prefix_closed(m),
        m.dom().contains(pp),
    ensures
        map_with_subtree(
            m,
            pp,
            subtree_at(m, pp).remove_keys(extensions_of(seq![l])),
            m[pp],
        ) =~= m.remove_keys(extensions_of(pp + seq![l])),
{
    let pl = pp + seq![l];
    let sub = subtree_at(m, pp).remove_keys(extensions_of(seq![l]));
    let lhs = map_with_subtree(m, pp, sub, m[pp]);
    let rhs = m.remove_keys(extensions_of(pl));
    assert forall|q: PathView| #![trigger lhs.dom().contains(q), rhs.dom().contains(q)]
        (lhs.dom().contains(q) <==> rhs.dom().contains(q)) && (lhs.dom().contains(q)
            ==> lhs[q] == rhs[q]) by {
        if strictly_below(q, pp) {
            lemma_prefix_split(pp, q);
            let q2 = q.skip(pp.len() as int);
            assert(q2.len() > 0);
            assert(m.dom().contains(pp + q2) == m.dom().contains(q));
            lemma_concat_prefix(pp, seq![l], q2);
            assert(pl.is_prefix_of(q) <==> seq![l].is_prefix_of(q2)) by {
                if pl.is_prefix_of(q) {
                    assert(pl.is_prefix_of(pp + q2));
                }
                if seq![l].is_prefix_of(q2) {
                    assert(pl.is_prefix_of(pp + q2));
                }
            }
            assert(q != pp);
        } else {
            assert(!pl.is_prefix_of(q)) by {
                if pl.is_prefix_of(q) {
                    assert(pp.is_prefix_of(pl)) by {
                        assert(pp =~= pl.subrange(0, pp.len() as int));
                    }
                    assert(pp.is_prefix_of(q)) by {
                        assert(pp =~= q.subrange(0, pp.len() as int));
                    }
                    assert(q.len() >= pl.len() > pp.len());
                }
            }
        }
    }
    assert(lhs =~= rhs);
}

} // verus!
