//! Which records a release frees, stated record by record.

use vstd::prelude::*;
use crate::shape::Shape;

verus! {

impl<T> Shape<T> {
    /// What goes with `x` lies below `x`.
    pub proof fn lemma_doomed_below(self, x: usize, y: usize)
        requires
            self.inv(),
            self.has(x),
            self.doomed(x, y),
        ensures
            self.below(x, y),
        decreases self.depth(y),
    {
        assert(self.node_ok(y));
        if y != x {
            let q = self.parent(y)->0;
            self.lemma_parent_line(y);
            self.lemma_doomed_below(x, q);
            self.lemma_below_line(y, self.depth(q) - 1);
            self.lemma_below_trans(x, q, y);
        }
    }

    /// The parent of a record that lies strictly below `x` lies below `x`.
    pub proof fn lemma_parent_below(self, x: usize, y: usize)
        requires
            self.inv(),
            self.below(x, y),
            y != x,
        ensures
            self.parent(y) is Some,
            self.below(x, self.parent(y)->0),
            self.depth(self.parent(y)->0) + 1 == self.depth(y),
    {
        assert(self.node_ok(y));
        assert(self.node_ok(x));
        self.lemma_below_is_on_line(x, y);
        self.lemma_parent_line(y);
    }

    /// Two forests that have the same records below `x` agree on what goes
    /// with `x`.
    pub proof fn lemma_doomed_agree(self, t: Shape<T>, x: usize, y: usize)
        requires
            self.inv(),
            self.below(x, y),
            forall|z: usize| #[trigger] self.below(x, z) ==> t.has(z) && t.nodes[z] == self.nodes[z],
        ensures
            t.doomed(x, y) == self.doomed(x, y),
        decreases self.depth(y),
    {
        if y != x {
            self.lemma_parent_below(x, y);
            let q = self.parent(y)->0;
            assert(t.nodes[q] == self.nodes[q]);
            self.lemma_doomed_agree(t, x, q);
        }
    }

    /// A record below a child `c` of `x` goes with `x` exactly when the parent
    /// alone holds `c` and, once `c` is a root, the record goes with `c`.
    pub proof fn lemma_doomed_through_child(self, x: usize, k: int, y: usize)
        requires
            self.inv(),
            self.has(x),
            0 <= k < self.children(x).len(),
            self.below(self.children(x)[k], y),
        ensures
            self.doomed(x, y) == (self.holders(self.children(x)[k]) == 1 && self.orphaned(x).without(
                x,
            ).doomed(self.children(x)[k], y)),
            self.orphaned(x).without(x).below(self.children(x)[k], y),
            y != x,
        decreases self.depth(y),
    {
        let c = self.children(x)[k];
        let o = self.orphaned(x);
        let t = o.without(x);
        self.lemma_child_line(x, k);
        self.lemma_child_same_root(x, k);
        self.lemma_below_trans(x, c, y);
        self.lemma_below_is_on_line(c, y);
        self.lemma_orphaned_line(x, y);
        self.lemma_orphaned_line(x, c);
        assert(self.node_ok(x));
        assert(self.node_ok(c));
        assert(self.line(y).take(self.depth(c) as int)[self.depth(x) as int] == self.line(y)[self.depth(
            x,
        ) as int]);
        if y != c {
            self.lemma_parent_below(c, y);
            let q = self.parent(y)->0;
            self.lemma_doomed_through_child(x, k, q);
            self.lemma_below_trans(x, c, q);
            self.lemma_below_is_on_line(x, q);
            assert(self.node_ok(y));
            assert(self.node_ok(q));
            assert(q != x);
            assert(t.parent(y) == Some(q));
            assert(t.depth(q) == self.depth(q) - self.depth(x));
            assert(t.depth(y) == self.depth(y) - self.depth(x));
        } else {
            assert(self.doomed(x, x));
            assert(t.doomed(c, c));
            assert(self.parent(c) == Some(x));
        }
    }
}

impl<T> Shape<T> {
    /// Where each record strictly below `x` is held by its parent alone, all
    /// that lies below `x` goes with `x`.
    pub proof fn lemma_all_doomed(self, x: usize, y: usize)
        requires
            self.inv(),
            self.below(x, y),
            forall|z: usize| #[trigger] self.below(x, z) && z != x ==> self.holders(z) == 1,
        ensures
            self.doomed(x, y),
        decreases self.depth(y),
    {
        if y != x {
            self.lemma_parent_below(x, y);
            self.lemma_all_doomed(x, self.parent(y)->0);
        }
    }
}

impl<T: PartialEq> Shape<T> {
    /// Of two different loose records no record lies below both.
    proof fn lemma_loose_trees(self, kids: Seq<usize>, bound: nat, j: int, k: int, y: usize)
        requires
            self.inv(),
            self.loose(kids, bound),
            0 <= j < kids.len(),
            0 <= k < kids.len(),
            j != k,
            self.below(kids[k], y),
        ensures
            !self.below(kids[j], y),
            self.root_of(y) == kids[k],
    {
        self.lemma_root_line(kids[j]);
        self.lemma_root_line(kids[k]);
        self.lemma_below_is_on_line(kids[k], y);
        if self.below(kids[j], y) {
            self.lemma_below_is_on_line(kids[j], y);
        }
    }

    /// What becomes of the records below a loose record after the holds on the
    /// first `n` loose records were given up.
    proof fn lemma_cascade_each(self, kids: Seq<usize>, n: nat, bound: nat)
        requires
            self.sound(),
            self.loose(kids, bound),
            n <= kids.len(),
        ensures
            forall|k: int, y: usize|
                0 <= k < n && #[trigger] self.below(kids[k], y) ==> self.fares(
                    kids[k],
                    self.released_each(kids, n, bound),
                    y,
                ),
        decreases bound, n + 1,
    {
        if n > 0 {
            let m = (n - 1) as nat;
            let prev = self.released_each(kids, m, bound);
            let t = self.released_each(kids, n, bound);
            let c = kids[m as int];
            self.lemma_released_each(kids, m, bound);
            self.lemma_released_each(kids, n, bound);
            self.lemma_cascade_each(kids, m, bound);
            assert(prev.has(c) && prev.nodes[c] == self.nodes[c]);
            prev.lemma_released(c);
            prev.law_release(c);
            self.lemma_root_line(c);
            assert forall|k: int, y: usize| 0 <= k < n && #[trigger] self.below(kids[k], y) implies self.fares(
                kids[k],
                t,
                y,
            ) by {
                if k < m {
                    assert(self.fares(kids[k], prev, y));
                    self.lemma_loose_trees(kids, bound, m as int, k, y);
                    if prev.has(y) {
                        if prev.below(c, y) {
                            prev.lemma_below_is_on_line(c, y);
                            assert(prev.same_tree(c, y));
                            assert(self.same_tree(c, y));
                        }
                        assert(t.has(y) && t.nodes[y] == prev.nodes[y]);
                    }
                } else {
                    assert forall|z: usize| #[trigger] self.below(c, z) implies prev.has(z)
                        && prev.nodes[z] == self.nodes[z] by {
                        assert forall|j: int| 0 <= j < m implies !self.below(#[trigger] kids[j], z) by {
                            self.lemma_loose_trees(kids, bound, j, m as int, z);
                        }
                    }
                    assert(prev.fares(c, t, y));
                    self.lemma_doomed_agree(prev, c, y);
                    if y != c {
                        self.lemma_parent_below(c, y);
                        self.lemma_doomed_agree(prev, c, self.parent(y)->0);
                    }
                }
            }
        }
    }

    /// What a release does, record by record.  Giving up one hold on `x`
    /// frees `x` where that hold was the last one, and with it every record
    /// below `x` that its parent alone holds and whose parent is freed.  Every
    /// other record stays, with its value and its children.  A record whose
    /// parent is freed becomes a root with one holder fewer.  Where `x` stays,
    /// it has one holder fewer.
    pub proof fn law_release(self, x: usize)
        requires
            self.sound(),
            self.held(x),
        ensures
            forall|y: usize| #[trigger] self.fares(x, self.released(x), y),
        decreases self.height(x) + 1, 0nat,
    {
        let t = self.released(x);
        self.lemma_released(x);
        assert(self.node_ok(x));
        if self.holders(x) >= 2 {
            assert forall|y: usize| #[trigger] self.fares(x, t, y) by {}
        } else {
            let s2 = self.orphaned(x).without(x);
            let kids = self.children(x);
            let d = self.depth(x) as int;
            self.lemma_let_go(x);
            s2.lemma_released_each(kids, kids.len(), self.height(x));
            s2.lemma_cascade_each(kids, kids.len(), self.height(x));
            assert(self.doomed(x, x));
            assert forall|y: usize| #[trigger] self.fares(x, t, y) by {
                if !self.has(y) {
                } else if y == x {
                    assert(!s2.has(x));
                } else if self.below(x, y) {
                    self.lemma_orphaned_line(x, y);
                    self.lemma_line_same_root(y, d);
                    let c = self.line(y)[d];
                    assert(self.node_ok(c));
                    let k = choose|k: int| 0 <= k < kids.len() && kids[k] == c;
                    self.lemma_child_line(x, k);
                    assert(self.below(c, y));
                    self.lemma_doomed_through_child(x, k, y);
                    assert(s2.fares(c, t, y));
                    if y != c {
                        self.lemma_parent_below(c, y);
                        let q = self.parent(y)->0;
                        self.lemma_doomed_through_child(x, k, q);
                    }
                } else {
                    if self.doomed(x, y) {
                        self.lemma_doomed_below(x, y);
                    }
                    if self.loses_parent(x, y) {
                        let q = self.parent(y)->0;
                        self.lemma_doomed_below(x, q);
                        self.lemma_parent_line(y);
                        self.lemma_below_line(y, self.depth(q) - 1);
                        self.lemma_below_trans(x, q, y);
                    }
                }
            }
        }
    }

    /// A subtree that nothing holds but one handle to its root, and each
    /// parent its children, is freed whole when that handle is given back.
    pub proof fn law_release_reclaims(self, x: usize, y: usize)
        requires
            self.sound(),
            self.held(x),
            self.holders(x) == 1,
            forall|z: usize| #[trigger] self.below(x, z) && z != x ==> self.holders(z) == 1,
            self.below(x, y),
        ensures
            !self.released(x).has(y),
    {
        self.lemma_all_doomed(x, y);
        self.law_release(x);
        assert(self.fares(x, self.released(x), y));
    }

    /// A record that a handle holds outlives the release of any other record:
    /// at most it loses its parent, and the hold that the parent had on it.
    pub proof fn law_release_spares_held(self, x: usize, y: usize)
        requires
            self.sound(),
            self.held(x),
            self.held(y),
            y != x,
        ensures
            self.released(x).held(y),
            self.released(x).value(y) == self.value(y),
            self.released(x).children(y) == self.children(y),
            self.released(x).handles(y) == self.handles(y),
    {
        self.law_release(x);
        assert(self.fares(x, self.released(x), y));
        assert(self.node_ok(y));
    }
}

} // verus!
