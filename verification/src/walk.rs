//! How the depth-first walk and the lines of ancestors describe the same trees.

use vstd::prelude::*;
use crate::shape::Shape;

verus! {

impl<T> Shape<T> {
    /// A child lies one step below its parent, on the parent's line.
    pub proof fn lemma_child_line(self, p: usize, k: int)
        requires
            self.inv(),
            self.has(p),
            0 <= k < self.children(p).len(),
        ensures
            self.has(self.children(p)[k]),
            self.line(self.children(p)[k]) == self.line(p).push(self.children(p)[k]),
            self.below(p, self.children(p)[k]),
            self.children(p)[k] != p,
    {
        let c = self.children(p)[k];
        assert(self.node_ok(p));
        assert(self.has(c));
        assert(self.node_ok(c));
        let l = self.line(c);
        assert(l.len() >= 2);
        assert(l[l.len() - 2] == p);
        assert(self.line(p) == l.take(l.len() - 2 + 1));
        assert(l =~= self.line(p).push(c));
    }

    /// A record with a parent lies one step below it, on the parent's line.
    pub proof fn lemma_parent_line(self, x: usize)
        requires
            self.inv(),
            self.has(x),
            self.parent(x) is Some,
        ensures
            self.has(self.parent(x)->0),
            self.line(x) == self.line(self.parent(x)->0).push(x),
            self.children(self.parent(x)->0).contains(x),
            self.depth(x) >= 2,
    {
        assert(self.node_ok(x));
        let l = self.line(x);
        let p = self.parent(x)->0;
        assert(l[l.len() - 2] == p);
        assert(self.line(p) == l.take(l.len() - 2 + 1));
        assert(l =~= self.line(p).push(x));
    }

    /// Every record lies below the records on its line, and below itself.
    pub proof fn lemma_below_line(self, y: usize, k: int)
        requires
            self.inv(),
            self.has(y),
            0 <= k < self.line(y).len(),
        ensures
            self.below(self.line(y)[k], y),
            self.depth(self.line(y)[k]) == k + 1,
    {
        assert(self.node_ok(y));
        assert(self.has(self.line(y)[k]));
    }

    /// The record that `y` lies below at a given depth is the one on its line.
    pub proof fn lemma_below_is_on_line(self, r: usize, y: usize)
        requires
            self.inv(),
            self.below(r, y),
        ensures
            self.line(r) == self.line(y).take(self.depth(r) as int),
            self.root_of(r) == self.root_of(y),
            self.depth(r) == self.depth(y) ==> r == y,
    {
        assert(self.node_ok(y));
        assert(self.node_ok(r));
        let k = self.depth(r) - 1;
        assert(self.has(self.line(y)[k]));
        assert(self.line(y).take(k + 1)[0] == self.line(y)[0]);
    }

    /// Lying below is transitive.
    pub proof fn lemma_below_trans(self, a: usize, b: usize, c: usize)
        requires
            self.inv(),
            self.below(a, b),
            self.below(b, c),
        ensures
            self.below(a, c),
    {
        self.lemma_below_is_on_line(b, c);
        assert(self.node_ok(a));
        assert(self.line(c).take(self.depth(b) as int)[self.depth(a) - 1] == self.line(c)[self.depth(a)
            - 1]);
    }

    /// Every record that a walk meets lies strictly below the record where the
    /// walk started.
    pub proof fn lemma_walk_below(self, x: usize, n: nat, i: int)
        requires
            self.inv(),
            self.has(x),
            n <= self.children(x).len(),
            0 <= i < self.walk(x, n).len(),
        ensures
            self.below(x, self.walk(x, n)[i]),
            self.depth(x) < self.depth(self.walk(x, n)[i]),
        decreases self.height(x), n,
    {
        if n > 0 {
            let m = (n - 1) as nat;
            let c = self.children(x)[m as int];
            self.lemma_walk_step(x, m);
            self.lemma_child_line(x, m as int);
            let before = self.walk(x, m);
            if i < before.len() {
                self.lemma_walk_below(x, m, i);
            } else {
                let j = i - before.len();
                assert(self.walk(x, n)[i] == self.preorder(c)[j]);
                if j > 0 {
                    let z = self.walk(c, self.children(c).len())[j - 1];
                    self.lemma_walk_below(c, self.children(c).len(), j - 1);
                    self.lemma_below_trans(x, c, z);
                }
            }
        }
    }

    /// Every record of a subtree in pre-order lies below its top.
    pub proof fn lemma_preorder_below(self, x: usize, i: int)
        requires
            self.inv(),
            self.has(x),
            0 <= i < self.preorder(x).len(),
        ensures
            self.below(x, self.preorder(x)[i]),
            i > 0 ==> self.depth(x) < self.depth(self.preorder(x)[i]),
    {
        assert(self.node_ok(x));
        if i > 0 {
            self.lemma_walk_below(x, self.children(x).len(), i - 1);
        }
    }

    /// A walk over `n` children meets each of them.
    pub proof fn lemma_walk_has_child(self, x: usize, n: nat, k: int)
        requires
            self.inv(),
            self.has(x),
            n <= self.children(x).len(),
            0 <= k < n,
        ensures
            self.walk(x, n).contains(self.children(x)[k]),
        decreases n,
    {
        let m = (n - 1) as nat;
        self.lemma_walk_step(x, m);
        if k < m {
            self.lemma_walk_has_child(x, m, k);
            let i = choose|i: int| 0 <= i < self.walk(x, m).len() && self.walk(x, m)[i] == self.children(x)[k];
            assert(self.walk(x, n)[i] == self.children(x)[k]);
        } else {
            assert(self.walk(x, n)[self.walk(x, m).len() as int] == self.children(x)[k]);
        }
    }

    /// A walk that meets a record meets its children too.
    pub proof fn lemma_walk_closed(self, x: usize, n: nat, z: usize, k: int)
        requires
            self.inv(),
            self.has(x),
            n <= self.children(x).len(),
            self.walk(x, n).contains(z),
            0 <= k < self.children(z).len(),
        ensures
            self.walk(x, n).contains(self.children(z)[k]),
        decreases self.height(x), n,
    {
        let w = self.children(z)[k];
        if n > 0 {
            let m = (n - 1) as nat;
            let c = self.children(x)[m as int];
            self.lemma_walk_step(x, m);
            let before = self.walk(x, m);
            let full = self.children(c).len();
            let i = choose|i: int| 0 <= i < self.walk(x, n).len() && self.walk(x, n)[i] == z;
            if i < before.len() {
                assert(before[i] == z);
                self.lemma_walk_closed(x, m, z, k);
                let j = choose|j: int| 0 <= j < before.len() && before[j] == w;
                assert(self.walk(x, n)[j] == w);
            } else {
                let j = i - before.len();
                assert(self.preorder(c)[j] == z);
                if j == 0 {
                    self.lemma_walk_has_child(c, full, k);
                } else {
                    assert(self.walk(c, full)[j - 1] == z);
                    self.lemma_walk_closed(c, full, z, k);
                }
                let t = choose|t: int| 0 <= t < self.walk(c, full).len() && self.walk(c, full)[t] == w;
                assert(self.walk(x, n)[before.len() + 1 + t] == w);
            }
        }
    }

    /// A subtree in pre-order holds every record that lies below its top.
    pub proof fn lemma_below_in_preorder(self, r: usize, y: usize)
        requires
            self.inv(),
            self.below(r, y),
        ensures
            self.preorder(r).contains(y),
        decreases self.depth(y),
    {
        self.lemma_below_is_on_line(r, y);
        assert(self.node_ok(r));
        if self.depth(r) == self.depth(y) {
            assert(self.preorder(r)[0] == y);
        } else {
            assert(self.node_ok(y));
            let q = self.parent(y)->0;
            self.lemma_parent_line(y);
            assert(self.line(q)[self.depth(r) - 1] == r);
            self.lemma_below_in_preorder(r, q);
            let k = choose|k: int| 0 <= k < self.children(q).len() && self.children(q)[k] == y;
            let full = self.children(r).len();
            let i = choose|i: int| 0 <= i < self.preorder(r).len() && self.preorder(r)[i] == q;
            if i == 0 {
                self.lemma_walk_has_child(r, full, k);
            } else {
                assert(self.walk(r, full)[i - 1] == q);
                self.lemma_walk_closed(r, full, q, k);
            }
            let t = choose|t: int| 0 <= t < self.walk(r, full).len() && self.walk(r, full)[t] == y;
            assert(self.preorder(r)[t + 1] == y);
        }
    }
}

} // verus!
