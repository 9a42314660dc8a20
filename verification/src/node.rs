use crate::document::Document;
use crate::model::{
    child_slot, extensions_of, map_after_insert, map_with_child, map_with_subtree, paths_nonempty,
    prefix_closed, subtree_at, PathView, TreeView,
};
use crate::model::{lemma_cons_path, lemma_uncons_path};
use crate::util::NodeError;
use vstd::prelude::*;

verus! {

/// One node of the path-addressable tree: a value slot, which is empty on
/// purely structural nodes, and the node's children, each behind a segment
/// label. Labels of siblings are unique.
pub struct Node<T: Document> {
    pub(crate) children: Vec<(String, Node<T>)>,
    pub(crate) value: Option<T>,
}

/// The view of a path: the sequence of its segments' character sequences.
pub open spec fn path_view(path: Seq<&str>) -> Seq<Seq<char>> {
    Seq::new(path.len(), |i: int| path[i]@)
}

impl<T: Document> Node<T> {
    /// Whether some child carries `label`.
    pub(crate) open spec fn has_child(self, label: Seq<char>) -> bool {
        exists|i: int| 0 <= i < self.children@.len() && self.children@[i].0@ == label
    }

    /// The index of the first child carrying `label`.
    pub(crate) open spec fn child_idx(self, label: Seq<char>) -> int {
        choose|i: int| 0 <= i < self.children@.len() && self.children@[i].0@ == label
    }

    /// The first child carrying `label`.
    pub(crate) open spec fn child(self, label: Seq<char>) -> Node<T> {
        self.children@[self.child_idx(label)].1
    }

    /// Whether sibling labels are unique at this node alone.
    pub(crate) open spec fn labels_unique(self) -> bool {
        forall|i: int, j: int|
            0 <= i < j < self.children@.len() ==> self.children@[i].0@ != self.children@[j].0@
    }

    /// Well-formedness: sibling labels are unique throughout the tree.
    pub closed spec fn wf(self) -> bool
        decreases self,
    {
        self.labels_unique() && forall|i: int|
            0 <= i < self.children@.len() ==> (#[trigger] self.children@[i].1).wf()
    }

    /// Whether `path` resolves to a node below this one.
    pub(crate) open spec fn resolves(self, path: Seq<Seq<char>>) -> bool
        decreases path.len(),
    {
        path.len() > 0 && self.has_child(path[0]) && (path.len() == 1 || self.child(
            path[0],
        ).resolves(path.skip(1)))
    }

    /// The node `path` resolves to; meaningful only when `resolves` holds.
    pub(crate) open spec fn node_at(self, path: Seq<Seq<char>>) -> Node<T>
        decreases path.len(),
    {
        if path.len() <= 1 {
            self.child(path[0])
        } else {
            self.child(path[0]).node_at(path.skip(1))
        }
    }

    /// The value slot of this node.
    pub closed spec fn stored(self) -> Option<T> {
        self.value
    }

    /// The abstract model of the tree: the map from every path that resolves
    /// to the value slot of the node it addresses.
    pub closed spec fn as_map(self) -> Map<Seq<Seq<char>>, Option<T>> {
        Map::new(|q: Seq<Seq<char>>| self.resolves(q), |q: Seq<Seq<char>>| self.node_at(q).stored())
    }

    /// A fresh tree: one root node holding `value` and no children.
    pub fn new(value: Option<T>) -> (root: Self)
        ensures
            root.wf(),
            root@ == Map::<Seq<Seq<char>>, Option<T>>::empty(),
            root.stored() == value,
    {
        let root = Node { value, children: Vec::new() };
        proof {
            assert forall|q: Seq<Seq<char>>| !root.resolves(q) by {
                assert(!root.has_child(q[0]));
            }
            assert(root.as_map() =~= Map::<Seq<Seq<char>>, Option<T>>::empty());
        }
        root
    }
}

impl<T: Document> Node<T> {
    /// A well-formed node's children are themselves well-formed.
    pub(crate) proof fn lemma_wf_child(self, l: Seq<char>)
        requires
            self.wf(),
            self.has_child(l),
        ensures
            self.child(l).wf(),
    {
        let i = self.child_idx(l);
        assert(0 <= i < self.children@.len() && self.children@[i].0@ == l);
        assert(self.children@[i].1.wf());
    }

    /// Every non-empty prefix of a resolving path resolves.
    pub(crate) proof fn lemma_resolves_prefix(self, q: PathView, k: int)
        requires
            self.resolves(q),
            0 < k <= q.len(),
        ensures
            self.resolves(q.subrange(0, k)),
        decreases q.len(),
    {
        let qk = q.subrange(0, k);
        assert(qk[0] == q[0]);
        if k > 1 {
            self.child(q[0]).lemma_resolves_prefix(q.skip(1), k - 1);
            assert(qk.skip(1) =~= q.skip(1).subrange(0, k - 1));
        }
    }

    /// A tree's view holds only non-empty paths, and holds every non-empty
    /// prefix of each of its paths.
    pub(crate) proof fn lemma_view_closed(self)
        ensures
            paths_nonempty(self@),
            prefix_closed(self@),
    {
        assert forall|q: PathView| #[trigger] self@.dom().contains(q) implies (forall|k: int|
            0 < k < q.len() ==> self@.dom().contains(#[trigger] q.subrange(0, k))) by {
            assert forall|k: int| 0 < k < q.len() implies self@.dom().contains(
                #[trigger] q.subrange(0, k),
            ) by {
                self.lemma_resolves_prefix(q, k);
            }
        }
    }

    /// The view of a child is the subtree of this node's view below the
    /// child's label, and the child's slot is what the one-segment path to
    /// it holds.
    pub(crate) proof fn lemma_child_subtree(self, l: Seq<char>)
        requires
            self.has_child(l),
        ensures
            self@.dom().contains(seq![l]),
            self.child(l)@ =~= subtree_at(self@, seq![l]),
            self.child(l).stored() == child_slot(self@, l),
    {
        let c = self.child(l);
        assert(seq![l][0] == l);
        assert(self.resolves(seq![l]));
        assert forall|q: PathView|
            #![trigger c@.dom().contains(q)]
            #![trigger subtree_at(self@, seq![l]).dom().contains(q)]
            (c@.dom().contains(q) <==> subtree_at(self@, seq![l]).dom().contains(q)) && (
            c@.dom().contains(q) ==> c@[q] == subtree_at(self@, seq![l])[q]) by {
            if q.len() > 0 {
                lemma_cons_path(l, q);
                let lq = seq![l] + q;
                assert(self.resolves(lq) <==> c.resolves(q));
                if c.resolves(q) {
                    assert(self.node_at(lq) == c.node_at(q));
                }
            }
        }
        assert(c@ =~= subtree_at(self@, seq![l]));
    }

    /// How every child lookup reads after the child list has been updated at
    /// one index, keeping the label there.
    pub(crate) proof fn lemma_child_updated(self, n2: Node<T>, i: int, c2: Node<T>)
        requires
            self.labels_unique(),
            0 <= i < self.children@.len(),
            n2.children@ == self.children@.update(i, (self.children@[i].0, c2)),
            n2.value == self.value,
        ensures
            n2.labels_unique(),
            self.wf() && c2.wf() ==> n2.wf(),
            n2.stored() == self.stored(),
            n2@ =~= map_with_child(self@, self.children@[i].0@, c2@, c2.stored()),
    {
        let l = self.children@[i].0@;
        self.lemma_lookups_after_update(n2, i, c2);
        if self.wf() && c2.wf() {
            assert forall|j: int| 0 <= j < n2.children@.len() implies (
            #[trigger] n2.children@[j].1).wf() by {
                if j != i {
                    assert(self.children@[j].1.wf());
                }
            }
        }
        let rhs = map_with_child(self@, l, c2@, c2.stored());
        assert forall|q: PathView|
            #![trigger n2@.dom().contains(q)]
            #![trigger rhs.dom().contains(q)]
            (n2@.dom().contains(q) <==> rhs.dom().contains(q)) && (n2@.dom().contains(q)
                ==> n2@[q] == rhs[q]) by {
            self.lemma_level_view(n2, l, c2, q);
        }
        assert(n2@ =~= rhs);
    }

    /// How every child lookup reads after a child with a fresh label has
    /// been pushed onto the child list.
    pub(crate) proof fn lemma_child_pushed(self, n2: Node<T>, s: String, c2: Node<T>)
        requires
            self.labels_unique(),
            !self.has_child(s@),
            n2.children@ == self.children@.push((s, c2)),
            n2.value == self.value,
        ensures
            n2.labels_unique(),
            self.wf() && c2.wf() ==> n2.wf(),
            n2.stored() == self.stored(),
            n2@ =~= map_with_child(self@, s@, c2@, c2.stored()),
    {
        let l = s@;
        let k = self.children@.len() as int;
        assert(n2.children@[k] == (s, c2));
        assert forall|lx: Seq<char>| lx != l implies (self.has_child(lx) <==> n2.has_child(lx))
            && (self.has_child(lx) ==> self.child(lx) == n2.child(lx)) by {
            if self.has_child(lx) {
                let j = self.child_idx(lx);
                assert(n2.children@[j].0@ == lx);
                self.lemma_pick_unique(lx, j);
                n2.lemma_pick_unique(lx, j);
            } else if n2.has_child(lx) {
                let j = n2.child_idx(lx);
                assert(j != k);
                assert(self.children@[j].0@ == lx);
            }
        }
        assert(n2.has_child(l));
        n2.lemma_pick_unique(l, k);
        assert(n2.child(l) == c2);
        if self.wf() && c2.wf() {
            assert forall|j: int| 0 <= j < n2.children@.len() implies (
            #[trigger] n2.children@[j].1).wf() by {
                if j != k {
                    assert(self.children@[j].1.wf());
                }
            }
        }
        let rhs = map_with_child(self@, l, c2@, c2.stored());
        assert forall|q: PathView|
            #![trigger n2@.dom().contains(q)]
            #![trigger rhs.dom().contains(q)]
            (n2@.dom().contains(q) <==> rhs.dom().contains(q)) && (n2@.dom().contains(q)
                ==> n2@[q] == rhs[q]) by {
            self.lemma_level_view(n2, l, c2, q);
        }
        assert(n2@ =~= rhs);
    }

    /// How every child lookup reads after the child list has been updated
    /// at one index, keeping the label there: the label now leads to the new
    /// child, every other label to what it led to before.
    pub(crate) proof fn lemma_lookups_after_update(self, n2: Node<T>, i: int, c2: Node<T>)
        requires
            self.labels_unique(),
            0 <= i < self.children@.len(),
            n2.children@ == self.children@.update(i, (self.children@[i].0, c2)),
        ensures
            n2.labels_unique(),
            n2.has_child(self.children@[i].0@),
            n2.child(self.children@[i].0@) == c2,
            forall|lx: Seq<char>|
                lx != self.children@[i].0@ ==> ((self.has_child(lx) <==> n2.has_child(lx)) && (
                self.has_child(lx) ==> self.child(lx) == n2.child(lx))),
    {
        let l = self.children@[i].0@;
        assert(forall|j: int|
            0 <= j < self.children@.len() ==> n2.children@[j].0 == self.children@[j].0);
        assert(n2.labels_unique());
        assert(n2.children@[i].0@ == l && n2.children@[i].1 == c2);
        n2.lemma_pick_unique(l, i);
        assert forall|lx: Seq<char>| lx != l implies (self.has_child(lx) <==> n2.has_child(lx))
            && (self.has_child(lx) ==> self.child(lx) == n2.child(lx)) by {
            if self.has_child(lx) {
                let j = self.child_idx(lx);
                assert(j != i);
                assert(n2.children@[j].0@ == lx && n2.children@[j].1 == self.children@[j].1);
                self.lemma_pick_unique(lx, j);
                n2.lemma_pick_unique(lx, j);
            } else if n2.has_child(lx) {
                let j = n2.child_idx(lx);
                assert(j != i);
                assert(self.children@[j].0@ == lx);
            }
        }
    }

    /// Where there is no child behind `l`, nothing hangs below `[l]`.
    pub(crate) proof fn lemma_no_child_subtree(self, l: Seq<char>)
        requires
            !self.has_child(l),
        ensures
            subtree_at(self@, seq![l]) =~= Map::<PathView, Option<T>>::empty(),
            !self@.dom().contains(seq![l]),
    {
        assert(seq![l][0] == l);
        assert forall|q: PathView| !(#[trigger] subtree_at(self@, seq![l]).dom().contains(q)) by {
            if q.len() > 0 {
                lemma_cons_path(l, q);
                assert(!self.resolves(seq![l] + q));
            }
        }
        assert(subtree_at(self@, seq![l]) =~= Map::<PathView, Option<T>>::empty());
        assert(!self.resolves(seq![l]));
    }

    /// Two nodes with the same child list look the same below: the view,
    /// the lookups and well-formedness ignore the value slot.
    pub(crate) proof fn lemma_same_children_view(self, b: Node<T>)
        requires
            self.children == b.children,
        ensures
            self@ =~= b@,
            self.wf() == b.wf(),
            forall|l: Seq<char>|
                (#[trigger] self.has_child(l) <==> b.has_child(l)) && (self.has_child(l)
                    ==> self.child(l) == b.child(l)),
    {
        assert(self.wf() == b.wf()) by {
            assert(self.labels_unique() == b.labels_unique());
        }
        assert forall|q: PathView|
            #![trigger self@.dom().contains(q)]
            #![trigger b@.dom().contains(q)]
            (self@.dom().contains(q) <==> b@.dom().contains(q)) && (self@.dom().contains(q)
                ==> self@[q] == b@[q]) by {
            if q.len() > 0 {
                assert(self.resolves(q) == b.resolves(q));
                if self.resolves(q) {
                    assert(self.node_at(q) == b.node_at(q));
                }
            }
        }
        assert(self@ =~= b@);
    }

    /// With unique labels, any index holding a label is the looked-up one.
    pub(crate) proof fn lemma_pick_unique(self, l: Seq<char>, j: int)
        requires
            self.labels_unique(),
            0 <= j < self.children@.len(),
            self.children@[j].0@ == l,
        ensures
            self.has_child(l),
            self.child_idx(l) == j,
            self.child(l) == self.children@[j].1,
    {
        let i = self.child_idx(l);
        assert(0 <= i < self.children@.len() && self.children@[i].0@ == l);
    }

    /// The common step behind `lemma_child_updated` and `lemma_child_pushed`:
    /// once the lookups of `n2` agree with those of `self` except at `l`,
    /// where `n2` holds `c2`, the views agree path by path.
    pub(crate) proof fn lemma_level_view(self, n2: Node<T>, l: Seq<char>, c2: Node<T>, q: PathView)
        requires
            n2.value == self.value,
            n2.has_child(l),
            n2.child(l) == c2,
            forall|lx: Seq<char>|
                lx != l ==> ((self.has_child(lx) <==> n2.has_child(lx)) && (self.has_child(lx)
                    ==> self.child(lx) == n2.child(lx))),
        ensures
            n2@.dom().contains(q) <==> map_with_child(self@, l, c2@, c2.stored()).dom().contains(
                q,
            ),
            n2@.dom().contains(q) ==> n2@[q] == map_with_child(self@, l, c2@, c2.stored())[q],
    {
        let rhs = map_with_child(self@, l, c2@, c2.stored());
        if q.len() == 0 {
            assert(!n2.resolves(q));
            assert(!rhs.dom().contains(q));
        } else {
            let q2 = q.skip(1);
            lemma_uncons_path(q);
            lemma_cons_path(q[0], q2);
            if q[0] != l {
                assert(q != seq![l]);
                assert(n2.resolves(q) <==> self.resolves(q));
                if n2.resolves(q) {
                    assert(n2.node_at(q) == self.node_at(q));
                }
            } else if q.len() == 1 {
                assert(q =~= seq![l]);
                assert(n2.resolves(q));
                assert(n2.node_at(q) == c2);
            } else {
                assert(q != seq![l]);
                assert(n2.resolves(q) <==> c2.resolves(q2));
                assert(c2@.dom().contains(q2) <==> c2.resolves(q2));
                if n2.resolves(q) {
                    assert(n2.node_at(q) == c2.node_at(q2));
                }
            }
        }
    }

    /// How every child lookup reads after the child at one index has been
    /// removed: paths through its label are gone, the rest are untouched.
    pub(crate) proof fn lemma_child_removed(self, n2: Node<T>, i: int)
        requires
            self.labels_unique(),
            0 <= i < self.children@.len(),
            n2.children@ == self.children@.remove(i),
            n2.value == self.value,
        ensures
            n2.labels_unique(),
            self.wf() ==> n2.wf(),
            n2.stored() == self.stored(),
            n2@ =~= self@.remove_keys(crate::model::extensions_of(seq![self.children@[i].0@])),
    {
        let l = self.children@[i].0@;
        assert forall|lx: Seq<char>| lx != l implies (self.has_child(lx) <==> n2.has_child(lx))
            && (self.has_child(lx) ==> self.child(lx) == n2.child(lx)) by {
            if self.has_child(lx) {
                let j = self.child_idx(lx);
                let j2: int = if j < i {
                    j
                } else {
                    j - 1
                };
                assert(n2.children@[j2].0@ == lx && n2.children@[j2].1 == self.children@[j].1);
                n2.lemma_pick_unique(lx, j2);
            } else if n2.has_child(lx) {
                let j2 = n2.child_idx(lx);
                let j: int = if j2 < i {
                    j2
                } else {
                    j2 + 1
                };
                assert(self.children@[j].0@ == lx);
            }
        }
        assert(!n2.has_child(l)) by {
            if n2.has_child(l) {
                let j2 = n2.child_idx(l);
                let j: int = if j2 < i {
                    j2
                } else {
                    j2 + 1
                };
                assert(self.children@[j].0@ == l && j != i);
            }
        }
        if self.wf() {
            assert forall|j2: int| 0 <= j2 < n2.children@.len() implies (
            #[trigger] n2.children@[j2].1).wf() by {
                let j: int = if j2 < i {
                    j2
                } else {
                    j2 + 1
                };
                assert(self.children@[j].1.wf());
            }
        }
        let rhs = self@.remove_keys(crate::model::extensions_of(seq![l]));
        assert forall|q: PathView|
            #![trigger n2@.dom().contains(q)]
            #![trigger rhs.dom().contains(q)]
            (n2@.dom().contains(q) <==> rhs.dom().contains(q)) && (n2@.dom().contains(q)
                ==> n2@[q] == rhs[q]) by {
            if q.len() == 0 {
                assert(!n2.resolves(q));
                assert(!self.resolves(q));
            } else {
                lemma_uncons_path(q);
                if q[0] != l {
                    assert(n2.resolves(q) <==> self.resolves(q));
                    if n2.resolves(q) {
                        assert(n2.node_at(q) == self.node_at(q));
                    }
                    assert(!seq![l].is_prefix_of(q)) by {
                        if seq![l].is_prefix_of(q) {
                            assert(seq![l].len() == 1);
                            assert(q.subrange(0, 1) == seq![l]);
                            assert(q[0] == seq![l][0]);
                        }
                    }
                } else {
                    assert(!n2.resolves(q));
                    assert(seq![l].is_prefix_of(q)) by {
                        assert(seq![l] =~= q.subrange(0, 1));
                    }
                }
            }
        }
        assert(n2@ =~= rhs);
    }
}

impl<T: Document> Node<T> {
    /// The position of the child behind `label`, if there is one.
    fn index_of(&self, label: &str) -> (r: Option<usize>)
        ensures
            match r {
                Some(i) => i < self.children@.len() && self.children@[i as int].0@ == label@,
                None => !self.has_child(label@),
            },
    {
        let key: String = label.to_owned();
        let n = self.children.len();
        let mut i: usize = 0;
        while i < n
            invariant
                n == self.children@.len(),
                i <= n,
                key@ == label@,
                forall|j: int| 0 <= j < i ==> self.children@[j].0@ != label@,
            decreases n - i,
        {
            if self.children[i].0 == key {
                return Some(i);
            }
            i += 1;
        }
        None
    }

    /// Insert `val` at `path`: every missing node along the way is created
    /// as a structural node, and the value slot of the node the last segment
    /// addresses is set to `val`, absent or not, present before or not. An
    /// empty path changes nothing. Never fails.
    pub fn insert(&mut self, path: &[&str], val: Option<T>)
        requires
            old(self).wf(),
        ensures
            final(self).wf(),
            final(self).stored() == old(self).stored(),
            final(self)@ == map_after_insert(old(self)@, path_view(path@), val),
        decreases path@.len(),
    {
        let ghost n0 = *old(self);
        let ghost pv = path_view(path@);
        if path.len() == 0 {
            return;
        }
        let ghost l = path@[0]@;
        proof {
            assert(pv[0] == l);
            n0.lemma_view_closed();
        }
        let opt = self.index_of(path[0]);
        let ghost was_found = opt is Some;
        let i: usize = match opt {
            Some(j) => j,
            None => {
                let k = self.children.len();
                self.children.push((path[0].to_owned(), Node::new(None)));
                k
            },
        };
        let ghost n1 = *self;
        let ghost c_start = n1.children@[i as int].1;
        proof {
            assert(n0.labels_unique());
            if was_found {
                assert(n1 == n0);
                assert(n1.children@[i as int].0@ == l);
                n0.lemma_pick_unique(l, i as int);
                n0.lemma_wf_child(l);
                n0.lemma_child_subtree(l);
                assert(c_start == n0.child(l));
            } else {
                let s = n1.children@[i as int].0;
                assert(n1.children@ == n0.children@.push((s, c_start)));
                assert(s@ == l);
                n0.lemma_child_pushed(n1, s, c_start);
                n0.lemma_no_child_subtree(l);
                assert(c_start.wf());
                assert(c_start@ =~= subtree_at(n0@, seq![l]));
                assert(c_start.stored() == child_slot(n0@, l));
            }
            assert(n1.labels_unique());
            assert(c_start.wf());
            assert(c_start@ == subtree_at(n0@, seq![l]));
            assert(c_start.stored() == child_slot(n0@, l));
        }
        if path.len() == 1 {
            self.children[i].1.value = val;
            proof {
                let n2 = *self;
                let c2 = n2.children@[i as int].1;
                assert(c2.children == c_start.children);
                assert(c2.value == val);
                c2.lemma_same_children_view(c_start);
                n1.lemma_child_updated(n2, i as int, c2);
                assert(n2@ =~= map_with_child(n1@, l, c2@, val));
                crate::model::lemma_insert_leaf(n0@, l, val);
                if was_found {
                    assert(n2@ =~= map_after_insert(n0@, seq![l], val));
                } else {
                    crate::model::lemma_child_overwrite(
                        n0@,
                        l,
                        c_start@,
                        Option::<T>::None,
                        c2@,
                        val,
                    );
                    assert(n2@ =~= map_after_insert(n0@, seq![l], val));
                }
                assert(pv =~= seq![l]);
            }
        } else {
            proof {
                assert(c_start.wf());
            }
            self.children[i].1.insert(&path[1..path.len()], val);
            proof {
                let n2 = *self;
                let c2 = n2.children@[i as int].1;
                let pv2 = pv.skip(1);
                assert(path_view(path@.subrange(1, path@.len() as int)) =~= pv2);
                assert(c2@ == map_after_insert(c_start@, pv2, val));
                assert(c2.stored() == c_start.stored());
                n1.lemma_child_updated(n2, i as int, c2);
                assert(n2@ =~= map_with_child(n1@, l, c2@, c2.stored()));
                crate::model::lemma_insert_step(n0@, l, pv2, val);
                if was_found {
                    assert(n2@ =~= map_after_insert(n0@, seq![l] + pv2, val));
                } else {
                    crate::model::lemma_child_overwrite(
                        n0@,
                        l,
                        c_start@,
                        Option::<T>::None,
                        c2@,
                        c2.stored(),
                    );
                    assert(n2@ =~= map_after_insert(n0@, seq![l] + pv2, val));
                }
                assert(pv =~= seq![l] + pv2);
            }
        }
    }

    /// Walk `path` segment by segment; hand back the node its last segment
    /// addresses, or nothing if some segment along the way is missing, or if
    /// the path is empty.
    pub fn find(&self, path: &[&str]) -> (r: Option<&Self>)
        requires
            self.wf(),
        ensures
            r is Some <==> self@.dom().contains(path_view(path@)),
            match r {
                Some(n) => n.wf() && n@ == subtree_at(self@, path_view(path@)) && n.stored()
                    == self@[path_view(path@)],
                None => true,
            },
        decreases path@.len(),
    {
        let ghost pv = path_view(path@);
        if path.len() == 0 {
            proof {
                assert(!self.resolves(pv));
            }
            return None;
        }
        let ghost l = path@[0]@;
        proof {
            assert(pv[0] == l);
        }
        let idx = self.index_of(path[0]);
        match idx {
            None => {
                proof {
                    assert(!self.resolves(pv));
                }
                None
            },
            Some(i) => {
                proof {
                    self.lemma_pick_unique(l, i as int);
                    self.lemma_wf_child(l);
                    self.lemma_child_subtree(l);
                }
                let child = &self.children[i].1;
                if path.len() == 1 {
                    proof {
                        assert(pv =~= seq![l]);
                        assert(self.resolves(pv));
                        assert(self.node_at(pv) == self.child(l));
                    }
                    Some(child)
                } else {
                    let r = child.find(&path[1..path.len()]);
                    proof {
                        let pv2 = path_view(path@.subrange(1, path@.len() as int));
                        assert(pv2 =~= pv.skip(1));
                        assert(pv =~= seq![l] + pv.skip(1));
                        lemma_cons_path(l, pv.skip(1));
                        assert(self.resolves(pv) <==> self.child(l).resolves(pv.skip(1)));
                        assert(self.child(l)@.dom().contains(pv.skip(1)) <==> self@.dom().contains(
                            pv,
                        ));
                        if r is Some {
                            crate::model::lemma_subtree_compose(self@, seq![l], pv.skip(1));
                            assert(subtree_at(self.child(l)@, pv2) =~= subtree_at(self@, pv));
                            assert(self.child(l)@[pv2] == self@[pv]) by {
                                assert(self.child(l)@[pv.skip(1)] == subtree_at(
                                    self@,
                                    seq![l],
                                )[pv.skip(1)]);
                            }
                        }
                    }
                    r
                }
            },
        }
    }
}

impl<T: Document> Node<T> {
    /// Walk `path` to a node known to exist, and hand back exclusive access
    /// to it. After the caller is done with the returned node, the tree is
    /// the old tree with the whole subtree at `path` replaced by whatever
    /// the caller left behind.
    fn find_mut_resolved(&mut self, path: &[&str]) -> (r: &mut Self)
        requires
            old(self).wf(),
            old(self)@.dom().contains(path_view(path@)),
        ensures
            (*r)@ == subtree_at(old(self)@, path_view(path@)),
            (*r).wf(),
            (*r).stored() == old(self)@[path_view(path@)],
            final(self)@ == map_with_subtree(
                old(self)@,
                path_view(path@),
                (*final(r))@,
                (*final(r)).stored(),
            ),
            final(self).stored() == old(self).stored(),
            (*final(r)).wf() ==> final(self).wf(),
        decreases path@.len(),
    {
        let ghost n0 = *old(self);
        let ghost pv = path_view(path@);
        let ghost l = path@[0]@;
        proof {
            assert(n0.resolves(pv));
            assert(pv[0] == l);
            assert(n0.labels_unique());
            n0.lemma_view_closed();
        }
        let opt = self.index_of(path[0]);
        let i: usize = match opt {
            Some(j) => j,
            None => {
                proof {
                    assert(false);
                }
                0
            },
        };
        let ghost c_start = n0.children@[i as int].1;
        proof {
            n0.lemma_pick_unique(l, i as int);
            n0.lemma_wf_child(l);
            n0.lemma_child_subtree(l);
        }
        if path.len() == 1 {
            proof {
                assert(pv =~= seq![l]);
            }
            let c_ref = &mut self.children[i].1;
            proof {
                let n2 = after_borrow(*self);
                let c2 = n2.children@[i as int].1;
                assert(n2.children@ == n0.children@.update(
                    i as int,
                    (n0.children@[i as int].0, c2),
                ));
                n0.lemma_child_updated(n2, i as int, c2);
                crate::model::lemma_graft_leaf(n0@, l, c2@, c2.stored());
                assert(n2@ == map_with_subtree(n0@, pv, c2@, c2.stored()));
            }
            c_ref
        } else {
            proof {
                assert(pv =~= seq![l] + pv.skip(1));
                lemma_cons_path(l, pv.skip(1));
                assert(path_view(path@.subrange(1, path@.len() as int)) =~= pv.skip(1));
                assert(c_start.resolves(pv.skip(1)));
                assert(c_start@.dom().contains(pv.skip(1)));
            }
            let r = self.children[i].1.find_mut_resolved(&path[1..path.len()]);
            proof {
                let pv2 = pv.skip(1);
                assert((*r)@ == subtree_at(c_start@, pv2));
                crate::model::lemma_subtree_compose(n0@, seq![l], pv2);
                assert(subtree_at(c_start@, pv2) =~= subtree_at(n0@, pv));
                assert(c_start@[pv2] == n0@[pv]) by {
                    assert(subtree_at(n0@, seq![l])[pv2] == n0@[seq![l] + pv2]);
                }
                let n2 = after_borrow(*self);
                let c2 = n2.children@[i as int].1;
                assert(n2.children@ == n0.children@.update(
                    i as int,
                    (n0.children@[i as int].0, c2),
                ));
                assert(c2@ == map_with_subtree(c_start@, pv2, (*final(r))@, (*final(r)).stored()));
                n0.lemma_child_updated(n2, i as int, c2);
                crate::model::lemma_graft_step(n0@, l, pv2, (*final(r))@, (*final(r)).stored());
                assert(n2@ == map_with_subtree(n0@, pv, (*final(r))@, (*final(r)).stored()));
            }
            r
        }
    }

    /// Walk `path` segment by segment; hand back exclusive access to the
    /// node its last segment addresses, or nothing if some segment along the
    /// way is missing, or if the path is empty — in which case the tree is
    /// left untouched.
    pub fn find_mut(&mut self, path: &[&str]) -> (r: Option<&mut Self>)
        requires
            old(self).wf(),
        ensures
            r is Some <==> old(self)@.dom().contains(path_view(path@)),
            r is None ==> *final(self) == *old(self),
            r matches Some(n) ==> (*n)@ == subtree_at(old(self)@, path_view(path@)) && (*n).wf()
                && (*n).stored() == old(self)@[path_view(path@)] && final(self)@
                == map_with_subtree(
                old(self)@,
                path_view(path@),
                (*final(n))@,
                (*final(n)).stored(),
            ) && final(self).stored() == old(self).stored() && ((*final(n)).wf()
                ==> final(self).wf()),
    {
        if self.find(path).is_none() {
            return None;
        }
        Some(self.find_mut_resolved(path))
    }
}

/// A read-only projection of one node: the label of its last path segment
/// and a copy of its value, or the value's absence on a structural node.
#[derive(Debug, PartialEq)]
pub struct NodeInfo<T: Document> {
    pub label: String,
    pub value: Option<T>,
}

impl<T: Document> Node<T> {
    /// Look `path` up without touching the tree: a `NodeInfo` if the full
    /// path resolves, nothing otherwise. A resolving path with an absent
    /// value yields a `NodeInfo` holding no value — not "nothing": the two
    /// outcomes are distinct on purpose.
    pub fn check(&self, path: &[&str]) -> (r: Option<NodeInfo<T>>)
        requires
            self.wf(),
        ensures
            r is Some <==> self@.dom().contains(path_view(path@)),
            r matches Some(info) ==> info.label@ == path@[path@.len() - 1]@ && info.value
                == self@[path_view(path@)],
    {
        match self.find(path) {
            None => None,
            Some(node) => {
                proof {
                    assert(self.resolves(path_view(path@)));
                    assert(path@.len() > 0);
                }
                let label = path[path.len() - 1].to_owned();
                let value = match &node.value {
                    Some(v) => Some(v.duplicate()),
                    None => None,
                };
                Some(NodeInfo { label, value })
            },
        }
    }

    /// Detach the immediate child behind `label`, with its whole subtree.
    fn remove_child(&mut self, label: &str) -> (r: Result<(), NodeError>)
        requires
            old(self).wf(),
        ensures
            final(self).wf(),
            final(self).stored() == old(self).stored(),
            r is Ok <==> old(self).has_child(label@),
            r is Err ==> r == Err::<(), NodeError>(NodeError::NotFound) && *final(self) == *old(
                self,
            ),
            r is Ok ==> final(self)@ == old(self)@.remove_keys(extensions_of(seq![label@])),
    {
        let ghost n0 = *old(self);
        match self.index_of(label) {
            None => Err(NodeError::NotFound),
            Some(i) => {
                proof {
                    assert(n0.labels_unique());
                }
                let _removed = self.children.remove(i);
                proof {
                    n0.lemma_child_removed(*self, i as int);
                }
                Ok(())
            },
        }
    }

    /// Remove the node `path` addresses, and everything beneath it, from
    /// the tree. Fails with `NotFound` — leaving the tree untouched — if
    /// the path is empty or does not fully resolve.
    pub fn delete(&mut self, path: &[&str]) -> (r: Result<(), NodeError>)
        requires
            old(self).wf(),
        ensures
            final(self).wf(),
            final(self).stored() == old(self).stored(),
            r is Ok <==> old(self)@.dom().contains(path_view(path@)),
            r is Err ==> r == Err::<(), NodeError>(NodeError::NotFound) && *final(self) == *old(
                self,
            ),
            r is Ok ==> final(self)@ == old(self)@.remove_keys(extensions_of(path_view(path@))),
    {
        let ghost n0 = *old(self);
        let ghost pv = path_view(path@);
        if path.len() == 0 {
            proof {
                assert(!n0.resolves(pv));
            }
            return Err(NodeError::NotFound);
        }
        if self.find(path).is_none() {
            return Err(NodeError::NotFound);
        }
        proof {
            n0.lemma_view_closed();
        }
        if path.len() == 1 {
            let r = self.remove_child(path[0]);
            proof {
                assert(pv =~= seq![path@[0]@]);
                assert(pv[0] == path@[0]@);
                assert(n0.has_child(path@[0]@));
            }
            r
        } else {
            let ghost ppv = path_view(path@.subrange(0, path@.len() - 1));
            let ghost l_last = path@[path@.len() - 1]@;
            proof {
                assert(ppv =~= pv.subrange(0, pv.len() - 1));
                n0.lemma_resolves_prefix(pv, pv.len() - 1);
                assert(n0@.dom().contains(ppv));
                assert(pv =~= ppv + seq![l_last]);
            }
            let parent = self.find_mut_resolved(&path[0..path.len() - 1]);
            proof {
                assert((*parent)@ == subtree_at(n0@, ppv));
                assert((*parent).has_child(l_last) <==> (*parent)@.dom().contains(
                    seq![l_last],
                )) by {
                    assert(seq![l_last][0] == l_last);
                }
                assert((*parent)@.dom().contains(seq![l_last]) <==> n0@.dom().contains(
                    ppv + seq![l_last],
                ));
                assert((*parent).has_child(l_last));
            }
            let r = parent.remove_child(path[path.len() - 1]);
            proof {
                assert((*final(parent))@ == subtree_at(n0@, ppv).remove_keys(
                    extensions_of(seq![l_last]),
                ));
                crate::model::lemma_remove_step(n0@, ppv, l_last);
                let n2 = after_borrow(*self);
                assert(n2@ == map_with_subtree(
                    n0@,
                    ppv,
                    (*final(parent))@,
                    (*final(parent)).stored(),
                ));
                assert((*final(parent)).stored() == n0@[ppv]);
                assert(n2@ == n0@.remove_keys(extensions_of(ppv + seq![l_last])));
                assert(n2@ == n0@.remove_keys(extensions_of(pv)));
            }
            r
        }
    }
}

impl<T: Document> Node<T> {
    /// Merge `delta` into the value stored at `path` and hand back a copy
    /// of the merged value, which is also what the tree now holds there.
    /// Fails with `NotFound` if the path does not fully resolve, and with
    /// `IsNull` if it resolves to a structural node holding no value; either
    /// failure leaves the tree untouched. A failure of the value type's own
    /// merge leaves the tree as it was and is passed through.
    pub fn patch(&mut self, path: &[&str], delta: T::U) -> (r: Result<T, NodeError>)
        requires
            old(self).wf(),
        ensures
            final(self).wf(),
            final(self).stored() == old(self).stored(),
            !old(self)@.dom().contains(path_view(path@)) ==> r == Err::<T, NodeError>(
                NodeError::NotFound,
            ) && *final(self) == *old(self),
            old(self)@.dom().contains(path_view(path@)) && old(self)@[path_view(path@)] is None
                ==> r == Err::<T, NodeError>(NodeError::IsNull) && *final(self) == *old(self),
            old(self)@.dom().contains(path_view(path@)) ==> (old(self)@[path_view(path@)] matches
                Some(doc) ==> {
                &&& (doc.merge_ok(delta) ==> r is Ok)
                &&& (r matches Ok(merged) ==> doc.merged_with(delta, merged) && final(self)@
                    == old(self)@.insert(path_view(path@), Some(merged)))
                &&& (r is Err ==> !doc.merge_ok(delta) && final(self)@ == old(self)@)
            }),
    {
        let ghost n0 = *old(self);
        let ghost pv = path_view(path@);
        let has_value = match self.find(path) {
            None => {
                return Err(NodeError::NotFound);
            },
            Some(node) => node.value.is_some(),
        };
        if !has_value {
            return Err(NodeError::IsNull);
        }
        proof {
            n0.lemma_view_closed();
        }
        let node = self.find_mut_resolved(path);
        match &mut node.value {
            Some(v) => {
                let ghost doc0 = *v;
                proof {
                    assert(n0@[pv] == Some(doc0));
                }
                let res = v.patch(delta);
                match res {
                    Ok(()) => {
                        let out = v.duplicate();
                        proof {
                            let nf = *final(node);
                            assert(nf.children == (*node).children);
                            assert(nf.value == Some(*final(v)));
                            nf.lemma_same_children_view(*node);
                            crate::model::lemma_slot_set(n0@, pv, Some(out));
                            let n2 = after_borrow(*self);
                            assert(n2@ == map_with_subtree(n0@, pv, nf@, nf.stored()));
                            assert(n2@ == n0@.insert(pv, Some(out)));
                        }
                        Ok(out)
                    },
                    Err(e) => {
                        proof {
                            let nf = *final(node);
                            assert(nf.value == Some(*final(v)));
                            assert(*final(v) == doc0);
                            assert(nf == *node);
                            crate::model::lemma_graft_same(n0@, pv);
                            let n2 = after_borrow(*self);
                            assert(n2@ == map_with_subtree(n0@, pv, nf@, nf.stored()));
                            assert(n2@ == n0@);
                        }
                        Err(e)
                    },
                }
            },
            None => {
                proof {
                    assert(false);
                }
                Err(NodeError::IsNull)
            },
        }
    }

    /// Replace the value stored at `path` by `new_value` outright and hand
    /// back a copy of it. The failure conditions are those of `patch`:
    /// `NotFound` when the path does not resolve, `IsNull` when it resolves
    /// to a node holding no value, and either failure leaves the tree
    /// untouched; a failure of the value type's own replacement leaves the
    /// tree as it was and is passed through.
    pub fn put(&mut self, path: &[&str], new_value: T) -> (r: Result<T, NodeError>)
        requires
            old(self).wf(),
        ensures
            final(self).wf(),
            final(self).stored() == old(self).stored(),
            !old(self)@.dom().contains(path_view(path@)) ==> r == Err::<T, NodeError>(
                NodeError::NotFound,
            ) && *final(self) == *old(self),
            old(self)@.dom().contains(path_view(path@)) && old(self)@[path_view(path@)] is None
                ==> r == Err::<T, NodeError>(NodeError::IsNull) && *final(self) == *old(self),
            old(self)@.dom().contains(path_view(path@)) ==> (old(self)@[path_view(path@)] matches
                Some(doc) ==> {
                &&& (doc.replace_ok(new_value) ==> r is Ok)
                &&& (r is Ok ==> r == Ok::<T, NodeError>(new_value) && final(self)@
                    == old(self)@.insert(path_view(path@), Some(new_value)))
                &&& (r is Err ==> !doc.replace_ok(new_value) && final(self)@ == old(self)@)
            }),
    {
        let ghost n0 = *old(self);
        let ghost pv = path_view(path@);
        let has_value = match self.find(path) {
            None => {
                return Err(NodeError::NotFound);
            },
            Some(node) => node.value.is_some(),
        };
        if !has_value {
            return Err(NodeError::IsNull);
        }
        proof {
            n0.lemma_view_closed();
        }
        let node = self.find_mut_resolved(path);
        match &mut node.value {
            Some(v) => {
                let ghost doc0 = *v;
                proof {
                    assert(n0@[pv] == Some(doc0));
                }
                let res = v.put(new_value);
                match res {
                    Ok(()) => {
                        let out = v.duplicate();
                        proof {
                            let nf = *final(node);
                            assert(nf.children == (*node).children);
                            assert(nf.value == Some(*final(v)));
                            nf.lemma_same_children_view(*node);
                            crate::model::lemma_slot_set(n0@, pv, Some(out));
                            let n2 = after_borrow(*self);
                            assert(n2@ == map_with_subtree(n0@, pv, nf@, nf.stored()));
                            assert(n2@ == n0@.insert(pv, Some(out)));
                        }
                        Ok(out)
                    },
                    Err(e) => {
                        proof {
                            let nf = *final(node);
                            assert(nf.value == Some(*final(v)));
                            assert(*final(v) == doc0);
                            assert(nf == *node);
                            crate::model::lemma_graft_same(n0@, pv);
                            let n2 = after_borrow(*self);
                            assert(n2@ == n0@);
                        }
                        Err(e)
                    },
                }
            },
            None => {
                proof {
                    assert(false);
                }
                Err(NodeError::IsNull)
            },
        }
    }

    /// The merge-only mutation: apply `delta` to the value stored at `path`
    /// exactly as `patch` does. Offered for callers that collapse the two
    /// mutation modes into one.
    pub fn update(&mut self, path: &[&str], delta: T::U) -> (r: Result<T, NodeError>)
        requires
            old(self).wf(),
        ensures
            final(self).wf(),
            final(self).stored() == old(self).stored(),
            !old(self)@.dom().contains(path_view(path@)) ==> r == Err::<T, NodeError>(
                NodeError::NotFound,
            ) && *final(self) == *old(self),
            old(self)@.dom().contains(path_view(path@)) && old(self)@[path_view(path@)] is None
                ==> r == Err::<T, NodeError>(NodeError::IsNull) && *final(self) == *old(self),
            old(self)@.dom().contains(path_view(path@)) ==> (old(self)@[path_view(path@)] matches
                Some(doc) ==> {
                &&& (doc.merge_ok(delta) ==> r is Ok)
                &&& (r matches Ok(merged) ==> doc.merged_with(delta, merged) && final(self)@
                    == old(self)@.insert(path_view(path@), Some(merged)))
                &&& (r is Err ==> !doc.merge_ok(delta) && final(self)@ == old(self)@)
            }),
    {
        self.patch(path, delta)
    }
}

impl<T: Document> Node<T> {
    /// An owned copy of an optional value.
    fn clone_slot(v: &Option<T>) -> (r: Option<T>)
        ensures
            r == *v,
    {
        match v {
            Some(x) => Some(x.duplicate()),
            None => None,
        }
    }

    /// Enumerate the immediate children — one level, never grandchildren —
    /// of the node `path` resolves to, handing back a `NodeInfo` for every
    /// child whose value slot satisfies `filter`. A path that does not
    /// resolve, the empty path among them, yields an empty result, not an
    /// error. The order of the entries is unspecified.
    pub fn query<F: Fn(&Option<T>) -> bool>(&self, path: &[&str], filter: F) -> (r: Vec<
        NodeInfo<T>,
    >)
        requires
            self.wf(),
            forall|v: &Option<T>| #[trigger] filter.requires((v,)),
        ensures
            path@.len() == 0 ==> r@.len() == 0,
            forall|k: int|
                0 <= k < r@.len() ==> {
                    &&& self@.dom().contains(path_view(path@).push(#[trigger] r@[k].label@))
                    &&& r@[k].value == self@[path_view(path@).push(r@[k].label@)]
                    &&& exists|a: &Option<T>|
                        *a == r@[k].value && #[trigger] filter.ensures((a,), true)
                },
            forall|k1: int, k2: int|
                0 <= k1 < k2 < r@.len() ==> r@[k1].label@ != r@[k2].label@,
            path@.len() > 0 ==> forall|lk: Seq<char>| #[trigger]
                self@.dom().contains(path_view(path@).push(lk)) ==> ((exists|k: int|
                    0 <= k < r@.len() && (#[trigger] r@[k].label@) == lk) || (exists|
                    a: &Option<T>,
                |
                    *a == self@[path_view(path@).push(lk)] && #[trigger] filter.ensures(
                        (a,),
                        false,
                    ))),
    {
        let ghost pv = path_view(path@);
        let parent = match self.find(path) {
            None => {
                proof {
                    if path@.len() > 0 {
                        self.lemma_view_closed();
                        assert forall|lk: Seq<char>| !(#[trigger] self@.dom().contains(
                            pv.push(lk),
                        )) by {
                            if self@.dom().contains(pv.push(lk)) {
                                assert(self@.dom().contains(pv.push(lk).subrange(
                                    0,
                                    pv.len() as int,
                                )));
                                assert(pv =~= pv.push(lk).subrange(0, pv.len() as int));
                            }
                        }
                    }
                }
                return Vec::new();
            },
            Some(p) => p,
        };
        proof {
            assert(parent@ == subtree_at(self@, pv));
            assert(parent.labels_unique());
        }
        let mut results: Vec<NodeInfo<T>> = Vec::new();
        let n = parent.children.len();
        let mut i: usize = 0;
        while i < n
            invariant
                n == parent.children@.len(),
                i <= n,
                self.wf(),
                parent.wf(),
                parent@ == subtree_at(self@, pv),
                pv.len() > 0,
                forall|v: &Option<T>| #[trigger] filter.requires((v,)),
                forall|k: int|
                    0 <= k < results@.len() ==> exists|j: int|
                        0 <= j < i && (#[trigger] results@[k].label@) == parent.children@[j].0@,
                forall|k: int|
                    0 <= k < results@.len() ==> {
                        &&& self@.dom().contains(pv.push(#[trigger] results@[k].label@))
                        &&& results@[k].value == self@[pv.push(results@[k].label@)]
                        &&& exists|a: &Option<T>|
                            *a == results@[k].value && #[trigger] filter.ensures((a,), true)
                    },
                forall|k1: int, k2: int|
                    0 <= k1 < k2 < results@.len() ==> results@[k1].label@ != results@[k2].label@,
                forall|j: int|
                    #![trigger parent.children@[j]]
                    0 <= j < i ==> ((exists|k: int|
                        0 <= k < results@.len() && (#[trigger] results@[k].label@)
                            == parent.children@[j].0@) || (exists|a: &Option<T>|
                        *a == parent.children@[j].1.stored() && #[trigger] filter.ensures(
                            (a,),
                            false,
                        ))),
            decreases n - i,
        {
            let ghost results0 = results@;
            let c = &parent.children[i];
            let ghost lc = c.0@;
            proof {
                parent.lemma_pick_unique(lc, i as int);
                parent.lemma_child_subtree(lc);
                assert(pv.push(lc) =~= pv + seq![lc]);
                assert(self@.dom().contains(pv.push(lc)) <==> parent@.dom().contains(seq![lc]));
                assert(parent@.dom().contains(seq![lc]));
                assert(self@[pv.push(lc)] == parent@[seq![lc]]) by {
                    assert(subtree_at(self@, pv).dom().contains(seq![lc]));
                }
                assert(parent@[seq![lc]] == c.1.stored()) by {
                    assert(parent.node_at(seq![lc]) == parent.child(lc));
                }
            }
            let arg = &c.1.value;
            let keep = filter(arg);
            proof {
                assert(filter.ensures((arg,), keep));
                assert(*arg == c.1.stored());
            }
            if keep {
                let info = NodeInfo { label: c.0.clone(), value: Self::clone_slot(&c.1.value) };
                proof {
                    assert(info.label@ == lc);
                    assert(info.value == c.1.stored());
                    assert forall|k1: int|
                        0 <= k1 < results@.len() implies results@[k1].label@ != lc by {
                        let j = choose|j: int|
                            0 <= j < i && results@[k1].label@ == parent.children@[j].0@;
                        assert(parent.children@[j].0@ != parent.children@[i as int].0@);
                    }
                }
                results.push(info);
            }
            i += 1;
            proof {
                assert forall|j: int|
                    #![trigger parent.children@[j]]
                    0 <= j < i implies ((exists|k: int|
                    0 <= k < results@.len() && (#[trigger] results@[k].label@)
                        == parent.children@[j].0@) || (exists|a: &Option<T>|
                    *a == parent.children@[j].1.stored() && #[trigger] filter.ensures(
                        (a,),
                        false,
                    ))) by {
                    if j < i - 1 {
                        if exists|k: int|
                            0 <= k < results0.len() && (#[trigger] results0[k].label@)
                                == parent.children@[j].0@ {
                            let k = choose|k: int|
                                0 <= k < results0.len() && (#[trigger] results0[k].label@)
                                    == parent.children@[j].0@;
                            assert(results@[k] == results0[k]);
                            assert(results@[k].label@ == parent.children@[j].0@);
                        }
                    } else {
                        assert(parent.children@[j].0@ == lc);
                        if keep {
                            assert(results@[results@.len() - 1].label@ == lc);
                        } else {
                            assert(*arg == parent.children@[j].1.stored());
                            assert(filter.ensures((arg,), false));
                        }
                    }
                }
            }
        }
        proof {
            assert forall|lk: Seq<char>| #[trigger] self@.dom().contains(pv.push(lk)) implies ((
            exists|k: int|
                0 <= k < results@.len() && (#[trigger] results@[k].label@) == lk) || (exists|
                a: &Option<T>,
            |
                *a == self@[pv.push(lk)] && #[trigger] filter.ensures((a,), false))) by {
                assert(pv.push(lk) =~= pv + seq![lk]);
                assert(parent@.dom().contains(seq![lk]));
                assert(parent.resolves(seq![lk]));
                assert(seq![lk][0] == lk);
                assert(parent.has_child(lk));
                let j = parent.child_idx(lk);
                assert(0 <= j < parent.children@.len() && parent.children@[j].0@ == lk);
                assert(parent.children@[j].1 == parent.child(lk));
                parent.lemma_child_subtree(lk);
                assert(self@[pv.push(lk)] == parent@[seq![lk]]) by {
                    assert(subtree_at(self@, pv).dom().contains(seq![lk]));
                }
                assert(parent@[seq![lk]] == parent.child(lk).stored());
            }
        }
        results
    }
}

impl<T: Document> Node<T> {
    /// A copy of this node's own value slot.
    pub fn stored_value(&self) -> (r: Option<T>)
        ensures
            r == self.stored(),
    {
        Self::clone_slot(&self.value)
    }

    /// The labels of this node's immediate children: each leads to a child,
    /// every child's label appears, and no label appears twice.
    pub fn child_labels(&self) -> (r: Vec<String>)
        requires
            self.wf(),
        ensures
            forall|k: int| 0 <= k < r@.len() ==> self@.dom().contains(seq![#[trigger] r@[k]@]),
            forall|l: Seq<char>| #[trigger]
                self@.dom().contains(seq![l]) ==> exists|k: int|
                    0 <= k < r@.len() && r@[k]@ == l,
            forall|k1: int, k2: int| 0 <= k1 < k2 < r@.len() ==> r@[k1]@ != r@[k2]@,
    {
        let mut r: Vec<String> = Vec::new();
        let n = self.children.len();
        let mut i: usize = 0;
        while i < n
            invariant
                n == self.children@.len(),
                i <= n,
                self.wf(),
                r@.len() == i,
                forall|k: int| 0 <= k < i ==> (#[trigger] r@[k]@) == self.children@[k].0@,
            decreases n - i,
        {
            let ghost lc = self.children@[i as int].0@;
            proof {
                assert(self.labels_unique());
                self.lemma_pick_unique(lc, i as int);
                self.lemma_child_subtree(lc);
            }
            r.push(self.children[i].0.clone());
            i += 1;
        }
        proof {
            assert forall|k: int| 0 <= k < r@.len() implies self@.dom().contains(
                seq![#[trigger] r@[k]@],
            ) by {
                let lc = self.children@[k].0@;
                self.lemma_pick_unique(lc, k);
                self.lemma_child_subtree(lc);
            }
            assert forall|l: Seq<char>| #[trigger] self@.dom().contains(seq![l]) implies exists|
                k: int,
            | 0 <= k < r@.len() && r@[k]@ == l by {
                assert(self.resolves(seq![l]));
                assert(seq![l][0] == l);
                assert(self.has_child(l));
                let j = self.child_idx(l);
                assert(0 <= j < self.children@.len() && self.children@[j].0@ == l);
                assert(r@[j]@ == l);
            }
        }
        r
    }
}

impl<T: Document> View for Node<T> {
    type V = Map<Seq<Seq<char>>, Option<T>>;

    open spec fn view(&self) -> Map<Seq<Seq<char>>, Option<T>> {
        self.as_map()
    }
}

} // verus!
