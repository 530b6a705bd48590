//! Giving up a hold: the last one frees the record and gives up the hold that
//! the record had on each of its children.

use vstd::prelude::*;
use crate::shape::Record;
use crate::shape::Shape;

verus! {

impl<T> Shape<T> {
    /// The forest in which every child of `x` has become a root.  The hold
    /// that `x` had on each of them passes to whoever asked.
    pub open spec fn orphaned(self, x: usize) -> Shape<T> {
        Shape {
            nodes: Map::new(
                |y: usize| self.has(y),
                |y: usize|
                    Record {
                        value: self.value(y),
                        children: if y == x {
                            Seq::empty()
                        } else {
                            self.children(y)
                        },
                        parent: if self.parent(y) == Some(x) {
                            None
                        } else {
                            self.parent(y)
                        },
                        holders: self.holders(y),
                        line: if self.below(x, y) && y != x {
                            self.line(y).skip(self.depth(x) as int)
                        } else {
                            self.line(y)
                        },
                        height: self.height(y),
                    },
            ),
        }
    }

    /// The forest without the record `x`.
    pub open spec fn without(self, x: usize) -> Shape<T> {
        Shape { nodes: self.nodes.remove(x) }
    }

    /// The forest after one hold on `x` was given up.  Where others hold `x`
    /// too, it has one holder fewer.  Where that was the last hold, `x` is
    /// gone, and so is the hold that `x` had on each of its children, which is
    /// given up in the same way, child by child.
    pub open spec fn released(self, x: usize) -> Shape<T>
        decreases self.height(x) + 1, 0nat,
    {
        if self.holders(x) >= 2 {
            self.eased(x)
        } else {
            self.orphaned(x).without(x).released_each(
                self.children(x),
                self.children(x).len(),
                self.height(x),
            )
        }
    }

    /// The forest after one hold on each of the first `n` records of `kids`
    /// was given up, in turn.  Each of them is lower than `bound`.
    pub open spec fn released_each(self, kids: Seq<usize>, n: nat, bound: nat) -> Shape<T>
        decreases bound, n + 1,
    {
        if n == 0 {
            self
        } else {
            let prev = self.released_each(kids, (n - 1) as nat, bound);
            if prev.height(kids[n - 1]) < bound {
                prev.released(kids[n - 1])
            } else {
                prev
            }
        }
    }

    /// `t` has no record that `self` has not, and a record of both has the
    /// same value and height in both.
    pub open spec fn shrunk_to(self, t: Shape<T>) -> bool {
        forall|y: usize| #[trigger]
            t.has(y) ==> self.has(y) && t.value(y) == self.value(y) && t.height(y) == self.height(y)
    }

    /// Two records of one tree of `t` are records of one tree of `self`.
    pub open spec fn split_to(self, t: Shape<T>) -> bool {
        forall|a: usize, b: usize| #[trigger] t.same_tree(a, b) ==> self.same_tree(a, b)
    }

    /// `y` goes with `x`: it is `x`, or it is held by its parent alone, and
    /// the parent goes with `x`.
    pub open spec fn doomed(self, x: usize, y: usize) -> bool
        decreases self.depth(y),
    {
        self.has(y) && (y == x || match self.parent(y) {
            Some(q) => self.holders(y) == 1 && self.depth(q) < self.depth(y) && self.doomed(x, q),
            None => false,
        })
    }

    /// `y` is freed when one hold on `x` is given up: that hold is the last
    /// one on `x`, and `y` goes with `x`.
    pub open spec fn goes(self, x: usize, y: usize) -> bool {
        self.holders(x) < 2 && self.doomed(x, y)
    }

    /// The parent of `y` is freed when one hold on `x` is given up.
    pub open spec fn loses_parent(self, x: usize, y: usize) -> bool {
        match self.parent(y) {
            Some(q) => self.goes(x, q),
            None => false,
        }
    }

    /// What becomes of `y` when one hold on `x` is given up and `t` is the
    /// forest after it.  A record that is freed is no record of `t`.  Any
    /// other keeps its value and its children; it is a root with one holder
    /// fewer where its parent is freed; and `x` itself has one holder fewer.
    pub open spec fn fares(self, x: usize, t: Shape<T>, y: usize) -> bool {
        &&& t.has(y) == (self.has(y) && !self.goes(x, y))
        &&& t.has(y) ==> {
            &&& t.value(y) == self.value(y)
            &&& t.children(y) == self.children(y)
            &&& t.parent(y) == if self.loses_parent(x, y) {
                None
            } else {
                self.parent(y)
            }
            &&& t.holders(y) == self.holders(y) - if y == x {
                1int
            } else {
                0int
            } - if self.loses_parent(x, y) {
                1int
            } else {
                0int
            }
        }
    }

    /// `t` has every record of `self` that does not lie below `x`, as it is
    /// in `self`.
    pub open spec fn kept_off(self, t: Shape<T>, x: usize) -> bool {
        forall|y: usize| #[trigger]
            self.has(y) && !self.below(x, y) ==> t.has(y) && t.nodes[y] == self.nodes[y]
    }

    /// `t` has every record of `self` that lies below none of the first `n`
    /// records of `kids`, as it is in `self`.
    pub open spec fn kept_off_each(self, t: Shape<T>, kids: Seq<usize>, n: nat) -> bool {
        forall|y: usize| #[trigger]
            self.has(y) && (forall|k: int| 0 <= k < n ==> !self.below(#[trigger] kids[k], y)) ==> t.has(y)
                && t.nodes[y] == self.nodes[y]
    }

    /// The children of `x` after they were orphaned and `x` was taken away:
    /// each is a root that its former hold keeps, as low as before.
    pub open spec fn loose(self, kids: Seq<usize>, bound: nat) -> bool {
        &&& kids.no_duplicates()
        &&& forall|k: int|
            0 <= k < kids.len() ==> {
                &&& self.has(#[trigger] kids[k])
                &&& self.is_root(kids[k])
                &&& self.holders(kids[k]) >= 1
                &&& self.height(kids[k]) < bound
            }
    }

    /// The line of a record after the children of `x` were orphaned.
    pub proof fn lemma_orphaned_line(self, x: usize, y: usize)
        requires
            self.inv(),
            self.has(x),
            self.has(y),
        ensures
            self.orphaned(x).line_ok(y),
            self.orphaned(x).root_of(y) == if self.below(x, y) && y != x {
                self.line(y)[self.depth(x) as int]
            } else {
                self.root_of(y)
            },
            self.below(x, y) && y != x ==> {
                &&& self.depth(x) < self.depth(y)
                &&& self.parent(self.line(y)[self.depth(x) as int]) == Some(x)
                &&& self.root_of(y) == self.root_of(x)
            },
    {
        let t = self.orphaned(x);
        let l = self.line(y);
        let m = t.line(y);
        let d = self.depth(x) as int;
        assert(self.node_ok(y));
        assert(self.node_ok(x));
        if self.below(x, y) && y != x {
            self.lemma_below_is_on_line(x, y);
            self.lemma_line_same_root(y, d);
            assert(self.node_ok(l[d]));
            assert(l.take(d + 1)[d - 1] == l[d - 1]);
            assert forall|k: int| 0 <= k < m.len() implies t.has(#[trigger] m[k]) && t.line(m[k])
                == m.take(k + 1) by {
                self.lemma_line_same_root(y, k + d);
                self.lemma_below_along_line(x, y, k + d);
                assert(m[k] == l[k + d]);
                assert(m.take(k + 1) =~= l.take(k + d + 1).skip(d));
            }
            if self.parent(y) == Some(x) {
                self.lemma_parent_line(y);
            } else {
                assert(l.len() >= d + 2);
                assert(m[m.len() - 2] == l[l.len() - 2]);
            }
        } else {
            assert forall|k: int| 0 <= k < m.len() implies t.has(#[trigger] m[k]) && t.line(m[k])
                == m.take(k + 1) by {
                self.lemma_line_same_root(y, k);
                self.lemma_below_along_line(x, y, k);
            }
            if self.parent(y) == Some(x) {
                self.lemma_parent_line(y);
                self.lemma_below_line(y, d - 1);
            }
        }
    }

    /// Orphaning the children of a record leaves the forest sound.
    pub proof fn lemma_orphaned(self, x: usize)
        requires
            self.inv(),
            self.has(x),
        ensures
            self.orphaned(x).inv(),
    {
        let t = self.orphaned(x);
        assert forall|y: usize| t.has(y) implies #[trigger] t.node_ok(y) by {
            assert(self.node_ok(y));
            self.lemma_orphaned_line(x, y);
            let kids = t.children(y);
            assert forall|k: int| 0 <= k < kids.len() implies {
                &&& t.has(#[trigger] kids[k])
                &&& t.parent(kids[k]) == Some(y)
                &&& t.height(kids[k]) < t.height(y)
            } by {
                self.lemma_child_same_root(y, k);
            }
        }
    }

    /// No link leads to a root without children but its own.
    pub proof fn lemma_alone(self, x: usize, y: usize)
        requires
            self.inv(),
            self.has(x),
            self.is_root(x),
            self.children(x).len() == 0,
            self.has(y),
            y != x,
        ensures
            !self.line(y).contains(x),
            !self.children(y).contains(x),
            self.parent(y) != Some(x),
    {
        assert(self.node_ok(y));
        assert(self.node_ok(x));
        let l = self.line(y);
        if l.contains(x) {
            let k = choose|k: int| 0 <= k < l.len() && l[k] == x;
            self.lemma_line_same_root(y, k);
            assert(k == 0);
            self.lemma_line_same_root(y, 1);
            let a = l[1];
            assert(self.node_ok(a));
            assert(l.take(2)[0] == l[0]);
            assert(self.parent(a) == Some(x));
        }
        if self.children(y).contains(x) {
            let k = choose|k: int| 0 <= k < self.children(y).len() && self.children(y)[k] == x;
            self.lemma_child_same_root(y, k);
        }
    }

    /// Taking away a root without children leaves the forest sound.
    pub proof fn lemma_without(self, x: usize)
        requires
            self.inv(),
            self.has(x),
            self.is_root(x),
            self.children(x).len() == 0,
        ensures
            self.without(x).inv(),
    {
        let t = self.without(x);
        assert forall|y: usize| t.has(y) implies #[trigger] t.node_ok(y) by {
            assert(self.node_ok(y));
            self.lemma_alone(x, y);
            self.lemma_line_live(y);
            self.lemma_kids_live(y);
            assert forall|k: int| 0 <= k < t.line(y).len() implies t.has(#[trigger] t.line(y)[k]) by {
                assert(self.line(y).contains(self.line(y)[k]));
            }
            assert forall|k: int| 0 <= k < t.children(y).len() implies t.has(
                #[trigger] t.children(y)[k],
            ) by {
                assert(self.children(y).contains(self.children(y)[k]));
            }
            if self.parent(y) is Some {
                self.lemma_parent_line(y);
            }
        }
    }
}

} // verus!
