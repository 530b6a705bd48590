//! Hanging a root under a record of another tree keeps the forest sound.

use vstd::prelude::*;
use crate::shape::Shape;

verus! {

impl<T> Shape<T> {
    /// What grafting may start from: `c` is a root, and `p` is a record of
    /// another tree.
    pub open spec fn can_graft(self, p: usize, c: usize) -> bool {
        &&& self.inv()
        &&& self.has(p)
        &&& self.has(c)
        &&& self.is_root(c)
        &&& self.root_of(p) != c
    }

    /// A root is the only record on its own line.
    pub proof fn lemma_root_line(self, c: usize)
        requires
            self.inv(),
            self.has(c),
        ensures
            self.is_root(c) <==> self.line(c) == seq![c],
            self.is_root(c) <==> self.root_of(c) == c,
            self.has(self.root_of(c)),
            self.is_root(self.root_of(c)),
            self.root_of(self.root_of(c)) == self.root_of(c),
    {
        assert(self.node_ok(c));
        let l = self.line(c);
        if self.is_root(c) {
            assert(l =~= seq![c]);
        }
        let r = self.root_of(c);
        assert(self.has(l[0]));
        assert(self.line(r) == l.take(1));
        assert(self.node_ok(r));
        if r == c {
            assert(l.len() == 1);
        }
    }

    /// The records on the line of `y` belong to the tree of `y`.
    pub proof fn lemma_line_same_root(self, y: usize, k: int)
        requires
            self.inv(),
            self.has(y),
            0 <= k < self.line(y).len(),
        ensures
            self.has(self.line(y)[k]),
            self.line(self.line(y)[k]) == self.line(y).take(k + 1),
            self.root_of(self.line(y)[k]) == self.root_of(y),
    {
        assert(self.node_ok(y));
        assert(self.has(self.line(y)[k]));
        assert(self.line(y).take(k + 1)[0] == self.line(y)[0]);
    }

    /// The children of `y` belong to the tree of `y`.
    pub proof fn lemma_child_same_root(self, y: usize, k: int)
        requires
            self.inv(),
            self.has(y),
            0 <= k < self.children(y).len(),
        ensures
            self.has(self.children(y)[k]),
            self.root_of(self.children(y)[k]) == self.root_of(y),
            self.parent(self.children(y)[k]) == Some(y),
            self.height(self.children(y)[k]) < self.height(y),
    {
        assert(self.node_ok(y));
        self.lemma_child_line(y, k);
        assert(self.line(y).len() >= 1);
    }

    /// The line of a record after grafting.
    proof fn lemma_grafted_line(self, p: usize, c: usize, y: usize)
        requires
            self.can_graft(p, c),
            self.has(y),
        ensures
            self.grafted(p, c).line_ok(y),
    {
        let t = self.grafted(p, c);
        let l = self.line(y);
        let lp = self.line(p);
        let m = t.line(y);
        assert(self.node_ok(y));
        assert(self.node_ok(p));
        self.lemma_root_line(c);
        if self.root_of(y) == c {
            assert(m == lp + l);
            assert forall|k: int| 0 <= k < m.len() implies t.has(#[trigger] m[k]) && t.line(m[k])
                == m.take(k + 1) by {
                if k < lp.len() {
                    self.lemma_line_same_root(p, k);
                    assert(m[k] == lp[k]);
                    assert(m.take(k + 1) =~= lp.take(k + 1));
                } else {
                    let j = k - lp.len();
                    self.lemma_line_same_root(y, j);
                    assert(m[k] == l[j]);
                    assert(m.take(k + 1) =~= lp + l.take(j + 1));
                }
            }
            if y == c {
                assert(m[m.len() - 2] == p);
            } else {
                assert(l.len() >= 2);
                assert(m[m.len() - 2] == l[l.len() - 2]);
            }
        } else {
            assert(y != c);
            assert forall|k: int| 0 <= k < m.len() implies t.has(#[trigger] m[k]) && t.line(m[k])
                == m.take(k + 1) by {
                self.lemma_line_same_root(y, k);
            }
        }
    }

    /// The children of a record after grafting.
    proof fn lemma_grafted_kids(self, p: usize, c: usize, y: usize)
        requires
            self.can_graft(p, c),
            self.has(y),
        ensures
            self.grafted(p, c).kids_ok(y),
    {
        let t = self.grafted(p, c);
        let kids = t.children(y);
        assert(self.node_ok(y));
        self.lemma_root_line(c);
        assert forall|k: int| 0 <= k < kids.len() implies {
            &&& t.has(#[trigger] kids[k])
            &&& t.parent(kids[k]) == Some(y)
            &&& t.height(kids[k]) < t.height(y)
        } by {
            if y == p && k == self.children(y).len() {
                assert(kids[k] == c);
            } else {
                assert(kids[k] == self.children(y)[k]);
                self.lemma_child_same_root(y, k);
            }
        }
        if y == p {
            if self.children(p).contains(c) {
                let k = choose|k: int| 0 <= k < self.children(p).len() && self.children(p)[k] == c;
                self.lemma_child_same_root(p, k);
            }
            assert forall|i: int, j: int| 0 <= i < kids.len() && 0 <= j < kids.len() && i != j implies kids[i]
                != kids[j] by {
                if i < self.children(p).len() {
                    assert(kids[i] == self.children(p)[i]);
                    assert(self.children(p).contains(kids[i]));
                }
                if j < self.children(p).len() {
                    assert(kids[j] == self.children(p)[j]);
                    assert(self.children(p).contains(kids[j]));
                }
            }
        }
    }

    /// Grafting a root under a record of another tree leaves the forest sound.
    pub proof fn lemma_grafted(self, p: usize, c: usize)
        requires
            self.can_graft(p, c),
        ensures
            self.grafted(p, c).inv(),
    {
        let t = self.grafted(p, c);
        assert forall|y: usize| t.has(y) implies #[trigger] t.node_ok(y) by {
            assert(self.node_ok(y));
            self.lemma_grafted_line(p, c, y);
            self.lemma_grafted_kids(p, c, y);
            match t.parent(y) {
                Some(q) => {
                    if y == c {
                        assert(t.children(p)[self.children(p).len() as int] == c);
                    } else {
                        self.lemma_parent_line(y);
                        let k = choose|k: int| 0 <= k < self.children(q).len() && self.children(q)[k] == y;
                        assert(t.children(q)[k] == y);
                    }
                },
                None => {},
            }
        }
    }
}

} // verus!
