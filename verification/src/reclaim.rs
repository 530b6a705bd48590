//! Giving up holds keeps the forest sound and touches no record outside the
//! subtree of the record that was let go.

use vstd::prelude::*;
use crate::shape::Shape;

verus! {

impl<T: PartialEq> Shape<T> {
    /// Orphaning the children of a record keeps the values of each tree
    /// distinct.
    pub proof fn lemma_orphaned_sound(self, x: usize)
        requires
            self.sound(),
            self.has(x),
        ensures
            self.orphaned(x).sound(),
            self.split_to(self.orphaned(x)),
    {
        let t = self.orphaned(x);
        self.lemma_orphaned(x);
        assert forall|a: usize, b: usize| #[trigger] t.same_tree(a, b) implies self.same_tree(a, b) by {
            self.lemma_orphaned_line(x, a);
            self.lemma_orphaned_line(x, b);
            self.lemma_root_line(a);
            self.lemma_root_line(b);
        }
    }

    /// Taking away a root without children keeps the values of each tree
    /// distinct.
    pub proof fn lemma_without_sound(self, x: usize)
        requires
            self.sound(),
            self.has(x),
            self.is_root(x),
            self.children(x).len() == 0,
        ensures
            self.without(x).sound(),
            self.split_to(self.without(x)),
    {
        let t = self.without(x);
        self.lemma_without(x);
        assert forall|a: usize, b: usize| #[trigger] t.same_tree(a, b) implies self.same_tree(a, b) by {}
    }

    /// After the children of a record that only one handle held were orphaned
    /// and the record was taken away, the forest is sound and the children are
    /// loose; no other record has changed.
    pub proof fn lemma_let_go(self, x: usize)
        requires
            self.sound(),
            self.held(x),
            self.holders(x) < 2,
        ensures
            self.is_root(x),
            self.orphaned(x).without(x).sound(),
            self.orphaned(x).without(x).loose(self.children(x), self.height(x)),
            self.shrunk_to(self.orphaned(x).without(x)),
            self.split_to(self.orphaned(x).without(x)),
            forall|y: usize| #[trigger]
                self.has(y) && !self.below(x, y) ==> {
                    &&& self.orphaned(x).without(x).has(y)
                    &&& self.orphaned(x).without(x).nodes[y] == self.nodes[y]
                    &&& forall|k: int|
                        0 <= k < self.children(x).len() ==> !self.orphaned(x).without(x).below(
                            #[trigger] self.children(x)[k],
                            y,
                        )
                },
    {
        let s1 = self.orphaned(x);
        let s2 = s1.without(x);
        let kids = self.children(x);
        assert(self.node_ok(x));
        self.lemma_orphaned_sound(x);
        s1.lemma_without_sound(x);
        assert forall|a: usize, b: usize| #[trigger] s2.same_tree(a, b) implies self.same_tree(a, b) by {
            assert(s1.same_tree(a, b));
        }
        assert forall|k: int| 0 <= k < kids.len() implies {
            &&& s2.has(#[trigger] kids[k])
            &&& s2.is_root(kids[k])
            &&& s2.holders(kids[k]) >= 1
            &&& s2.height(kids[k]) < self.height(x)
        } by {
            self.lemma_child_same_root(x, k);
            self.lemma_child_line(x, k);
            assert(self.node_ok(kids[k]));
        }
        assert forall|y: usize| #[trigger] self.has(y) && !self.below(x, y) implies {
            &&& s2.has(y)
            &&& s2.nodes[y] == self.nodes[y]
            &&& forall|k: int| 0 <= k < kids.len() ==> !s2.below(#[trigger] kids[k], y)
        } by {
            assert(self.node_ok(y));
            if self.parent(y) == Some(x) {
                self.lemma_parent_line(y);
                self.lemma_below_line(y, self.depth(x) - 1);
            }
            assert forall|k: int| 0 <= k < kids.len() implies !s2.below(#[trigger] kids[k], y) by {
                let c = kids[k];
                s2.lemma_root_line(c);
                self.lemma_root_line(y);
                self.lemma_child_same_root(x, k);
            }
        }
    }

    /// Giving up a hold leaves the forest sound, adds no record, and leaves
    /// every record that does not lie below `x` as it was.
    pub proof fn lemma_released(self, x: usize)
        requires
            self.sound(),
            self.held(x),
        ensures
            self.released(x).sound(),
            self.shrunk_to(self.released(x)),
            self.split_to(self.released(x)),
            self.kept_off(self.released(x), x),
        decreases self.height(x) + 1, 0nat,
    {
        let t = self.released(x);
        if self.holders(x) >= 2 {
            self.lemma_eased(x);
            self.lemma_recount_unique(t);
            assert(self.below(x, x)) by {
                assert(self.node_ok(x));
            }
            assert forall|a: usize, b: usize| #[trigger] t.same_tree(a, b) implies self.same_tree(a, b) by {}
        } else {
            let s2 = self.orphaned(x).without(x);
            let kids = self.children(x);
            self.lemma_let_go(x);
            s2.lemma_released_each(kids, kids.len(), self.height(x));
            assert forall|a: usize, b: usize| #[trigger] t.same_tree(a, b) implies self.same_tree(a, b) by {
                assert(s2.same_tree(a, b));
            }
        }
    }

    /// Giving up the holds on loose records, one after the other, leaves the
    /// forest sound, adds no record, and leaves every record that lies below
    /// none of them as it was.
    pub proof fn lemma_released_each(self, kids: Seq<usize>, n: nat, bound: nat)
        requires
            self.sound(),
            self.loose(kids, bound),
            n <= kids.len(),
        ensures
            self.released_each(kids, n, bound).sound(),
            self.shrunk_to(self.released_each(kids, n, bound)),
            self.split_to(self.released_each(kids, n, bound)),
            self.kept_off_each(self.released_each(kids, n, bound), kids, n),
            forall|k: int|
                n <= k < kids.len() ==> {
                    &&& self.released_each(kids, n, bound).has(#[trigger] kids[k])
                    &&& self.released_each(kids, n, bound).nodes[kids[k]] == self.nodes[kids[k]]
                },
            n > 0 ==> self.released_each(kids, n, bound) == self.released_each(
                kids,
                (n - 1) as nat,
                bound,
            ).released(kids[n - 1]),
        decreases bound, n + 1,
    {
        let t = self.released_each(kids, n, bound);
        if n > 0 {
            let m = (n - 1) as nat;
            let prev = self.released_each(kids, m, bound);
            let c = kids[n - 1];
            self.lemma_released_each(kids, m, bound);
            assert(prev.has(c) && prev.nodes[c] == self.nodes[c]);
            prev.lemma_released(c);
            assert forall|a: usize, b: usize| #[trigger] t.same_tree(a, b) implies self.same_tree(a, b) by {
                assert(prev.same_tree(a, b));
            }
            assert forall|y: usize| #[trigger]
                self.has(y) && (forall|k: int| 0 <= k < n ==> !self.below(#[trigger] kids[k], y)) implies t.has(
                y,
            ) && t.nodes[y] == self.nodes[y] by {
                assert(!self.below(kids[n - 1], y));
                assert(prev.has(y) && prev.nodes[y] == self.nodes[y]);
                assert(!prev.below(c, y));
            }
            assert forall|k: int| n <= k < kids.len() implies {
                &&& t.has(#[trigger] kids[k])
                &&& t.nodes[kids[k]] == self.nodes[kids[k]]
            } by {
                self.lemma_loose_apart(kids, bound, n - 1, k);
                assert(prev.has(kids[k]) && prev.nodes[kids[k]] == self.nodes[kids[k]]);
                assert(!prev.below(c, kids[k]));
            }
        } else {
            assert forall|k: int| n <= k < kids.len() implies {
                &&& t.has(#[trigger] kids[k])
                &&& t.nodes[kids[k]] == self.nodes[kids[k]]
            } by {}
        }
    }

    /// Of two loose records neither lies below the other.
    pub proof fn lemma_loose_apart(self, kids: Seq<usize>, bound: nat, j: int, k: int)
        requires
            self.inv(),
            self.loose(kids, bound),
            0 <= j < kids.len(),
            0 <= k < kids.len(),
            j != k,
        ensures
            !self.below(kids[j], kids[k]),
    {
        self.lemma_root_line(kids[j]);
        self.lemma_root_line(kids[k]);
        if self.below(kids[j], kids[k]) {
            self.lemma_below_is_on_line(kids[j], kids[k]);
        }
    }
}

} // verus!
