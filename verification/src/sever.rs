//! Taking a record out of its parent's child list keeps the forest sound.

use vstd::prelude::*;
use crate::shape::Shape;

verus! {

impl<T> Shape<T> {
    /// What severing may start from: `h` hangs under a parent.
    pub open spec fn can_sever(self, h: usize) -> bool {
        &&& self.inv()
        &&& self.has(h)
        &&& self.parent(h) is Some
    }

    /// The place of `h` among the children of its parent.
    pub open spec fn place(self, h: usize) -> int {
        self.children(self.parent(h)->0).index_of(h)
    }

    /// The place of `h` is where the child list of its parent names it.
    pub proof fn lemma_place(self, h: usize)
        requires
            self.can_sever(h),
        ensures
            self.has(self.parent(h)->0),
            0 <= self.place(h) < self.children(self.parent(h)->0).len(),
            self.children(self.parent(h)->0)[self.place(h)] == h,
            forall|k: int|
                0 <= k < self.children(self.parent(h)->0).len() && k != self.place(h)
                    ==> self.children(self.parent(h)->0)[k] != h,
    {
        self.lemma_parent_line(h);
        let q = self.parent(h)->0;
        assert(self.node_ok(q));
        let kids = self.children(q);
        let k = choose|k: int| 0 <= k < kids.len() && kids[k] == h;
        assert(kids[k] == h);
    }

    /// Whether `y` lies below `h` decides the same for the records on its line
    /// from `h` on, and none of the others lies below `h`.
    pub proof fn lemma_below_along_line(self, h: usize, y: usize, k: int)
        requires
            self.inv(),
            self.has(h),
            self.has(y),
            0 <= k < self.line(y).len(),
        ensures
            self.below(h, self.line(y)[k]) <==> self.below(h, y) && k >= self.depth(h) - 1,
    {
        let a = self.line(y)[k];
        self.lemma_line_same_root(y, k);
        self.lemma_below_line(y, k);
        assert(self.node_ok(h));
        if self.below(h, a) {
            self.lemma_below_trans(h, a, y);
        }
        if self.below(h, y) && k >= self.depth(h) - 1 {
            assert(self.line(y).take(k + 1)[self.depth(h) - 1] == self.line(y)[self.depth(h) - 1]);
        }
    }

    /// The line of a record after severing.
    proof fn lemma_severed_line(self, h: usize, y: usize)
        requires
            self.can_sever(h),
            self.has(y),
        ensures
            self.severed(h).line_ok(y),
    {
        let t = self.severed(h);
        let l = self.line(y);
        let m = t.line(y);
        let d = self.depth(h) - 1;
        assert(self.node_ok(y));
        assert(self.node_ok(h));
        self.lemma_parent_line(h);
        assert forall|k: int| 0 <= k < m.len() implies t.has(#[trigger] m[k]) && t.line(m[k])
            == m.take(k + 1) by {
            if self.below(h, y) {
                self.lemma_line_same_root(y, k + d);
                self.lemma_below_along_line(h, y, k + d);
                assert(m[k] == l[k + d]);
                assert(m.take(k + 1) =~= l.take(k + d + 1).skip(d));
            } else {
                self.lemma_line_same_root(y, k);
                self.lemma_below_along_line(h, y, k);
            }
        }
        if self.below(h, y) {
            self.lemma_below_is_on_line(h, y);
            if y != h {
                assert(m[m.len() - 2] == l[l.len() - 2]);
            }
        }
    }

    /// The children of a record after severing.
    proof fn lemma_severed_kids(self, h: usize, y: usize)
        requires
            self.can_sever(h),
            self.has(y),
        ensures
            self.severed(h).kids_ok(y),
            forall|z: usize| z != h && self.children(y).contains(z) ==> self.severed(h).children(y).contains(z),
    {
        let t = self.severed(h);
        let q = self.parent(h)->0;
        let old_kids = self.children(y);
        let kids = t.children(y);
        assert(self.node_ok(y));
        self.lemma_place(h);
        let at = self.place(h);
        if y == q {
            old_kids.remove_ensures(at);
        }
        assert forall|k: int| 0 <= k < kids.len() implies {
            &&& t.has(#[trigger] kids[k])
            &&& t.parent(kids[k]) == Some(y)
            &&& t.height(kids[k]) < t.height(y)
            &&& kids[k] != h
        } by {
            let i = if y == q && k >= at { k + 1 } else { k };
            assert(kids[k] == old_kids[i]);
            self.lemma_child_same_root(y, i);
        }
        assert forall|i: int, j: int| 0 <= i < kids.len() && 0 <= j < kids.len() && i != j implies kids[i]
            != kids[j] by {
            let a = if y == q && i >= at { i + 1 } else { i };
            let b = if y == q && j >= at { j + 1 } else { j };
            assert(kids[i] == old_kids[a]);
            assert(kids[j] == old_kids[b]);
        }
        assert forall|z: usize| z != h && old_kids.contains(z) implies kids.contains(z) by {
            let i = choose|i: int| 0 <= i < old_kids.len() && old_kids[i] == z;
            let k = if y == q && i > at { i - 1 } else { i };
            assert(kids[k] == z);
        }
    }

    /// Severing leaves the forest sound.
    pub proof fn lemma_severed(self, h: usize)
        requires
            self.can_sever(h),
        ensures
            self.severed(h).inv(),
    {
        let t = self.severed(h);
        assert forall|y: usize| t.has(y) implies #[trigger] t.node_ok(y) by {
            assert(self.node_ok(y));
            self.lemma_severed_line(h, y);
            self.lemma_severed_kids(h, y);
            match t.parent(y) {
                Some(p) => {
                    self.lemma_parent_line(y);
                    self.lemma_severed_kids(h, p);
                },
                None => {},
            }
        }
    }
}

} // verus!
