//! The steps by which a forest changes, as functions on its picture.

use vstd::prelude::*;
use crate::shape::Record;
use crate::shape::Shape;

verus! {

impl<T> Shape<T> {
    /// The forest with one more record `id`: a root without children that
    /// carries `value` and has one holder.
    pub open spec fn inserted(self, id: usize, value: T) -> Shape<T> {
        Shape {
            nodes: self.nodes.insert(
                id,
                Record {
                    value,
                    children: Seq::empty(),
                    parent: None,
                    holders: 1,
                    line: seq![id],
                    height: 0,
                },
            ),
        }
    }

    /// The forest in which `x` has one holder more.
    pub open spec fn retained(self, x: usize) -> Shape<T> {
        Shape {
            nodes: self.nodes.insert(
                x,
                Record { holders: self.holders(x) + 1, ..self.nodes[x] },
            ),
        }
    }

    /// The forest in which each record of `kids`, a list that names none
    /// twice, has one holder more.
    pub open spec fn retained_each(self, kids: Seq<usize>) -> Shape<T> {
        Shape {
            nodes: Map::new(
                |y: usize| self.has(y),
                |y: usize|
                    Record {
                        holders: if kids.contains(y) {
                            self.holders(y) + 1
                        } else {
                            self.holders(y)
                        },
                        ..self.nodes[y]
                    },
            ),
        }
    }

    /// The forest in which `x` has one holder fewer.
    pub open spec fn eased(self, x: usize) -> Shape<T> {
        Shape {
            nodes: self.nodes.insert(
                x,
                Record { holders: (self.holders(x) - 1) as nat, ..self.nodes[x] },
            ),
        }
    }

    /// The forest in which the root `c` has become the last child of `p`.
    /// The child list of `p` is one more holder of `c`.
    pub open spec fn grafted(self, p: usize, c: usize) -> Shape<T> {
        Shape {
            nodes: Map::new(
                |y: usize| self.has(y),
                |y: usize|
                    Record {
                        value: self.value(y),
                        children: if y == p {
                            self.children(y).push(c)
                        } else {
                            self.children(y)
                        },
                        parent: if y == c {
                            Some(p)
                        } else {
                            self.parent(y)
                        },
                        holders: if y == c {
                            self.holders(y) + 1
                        } else {
                            self.holders(y)
                        },
                        line: if self.root_of(y) == c {
                            self.line(p) + self.line(y)
                        } else {
                            self.line(y)
                        },
                        height: if self.root_of(y) == c {
                            self.height(y)
                        } else {
                            self.height(y) + self.height(c) + 1
                        },
                    },
            ),
        }
    }

    /// The forest in which `h` has left the child list of its parent and is a
    /// root.  The hold that the child list had on `h` passes to whoever asked.
    pub open spec fn severed(self, h: usize) -> Shape<T> {
        let q = self.parent(h)->0;
        Shape {
            nodes: Map::new(
                |y: usize| self.has(y),
                |y: usize|
                    Record {
                        value: self.value(y),
                        children: if y == q {
                            self.children(y).remove(self.children(y).index_of(h))
                        } else {
                            self.children(y)
                        },
                        parent: if y == h {
                            None
                        } else {
                            self.parent(y)
                        },
                        holders: self.holders(y),
                        line: if self.below(h, y) {
                            self.line(y).skip(self.depth(h) - 1)
                        } else {
                            self.line(y)
                        },
                        height: self.height(y),
                    },
            ),
        }
    }

    /// A new record leaves the forest sound.
    pub proof fn lemma_inserted(self, id: usize, value: T)
        requires
            self.inv(),
            !self.has(id),
        ensures
            self.inserted(id, value).inv(),
    {
        let t = self.inserted(id, value);
        assert forall|x: usize| t.has(x) implies #[trigger] t.node_ok(x) by {
            if x == id {
                assert(t.line(x).take(1) =~= t.line(x));
            } else {
                assert(self.node_ok(x));
                assert(t.nodes[x] == self.nodes[x]);
                self.lemma_line_live(x);
                self.lemma_kids_live(x);
                assert(forall|k: int| 0 <= k < t.line(x).len() ==> t.line(x)[k] != id);
                assert(forall|k: int| 0 <= k < t.children(x).len() ==> t.children(x)[k] != id);
                if self.parent(x) is Some {
                    self.lemma_parent_line(x);
                }
            }
        }
    }

    /// A new record changes no walk over the records that were there.
    pub proof fn lemma_inserted_walk(self, id: usize, value: T, x: usize, n: nat)
        requires
            self.inv(),
            !self.has(id),
            self.has(x),
            n <= self.children(x).len(),
        ensures
            self.inserted(id, value).walk(x, n) == self.walk(x, n),
        decreases self.height(x), n,
    {
        let t = self.inserted(id, value);
        if n > 0 {
            let m = (n - 1) as nat;
            let c = self.children(x)[m as int];
            self.lemma_walk_step(x, m);
            assert(t.nodes[x] == self.nodes[x]);
            assert(t.nodes[c] == self.nodes[c]);
            self.lemma_inserted_walk(id, value, x, m);
            self.lemma_inserted_walk(id, value, c, self.children(c).len());
        }
    }

    /// Every record on a line is a record of the forest.
    pub proof fn lemma_line_live(self, x: usize)
        requires
            self.inv(),
            self.has(x),
        ensures
            forall|k: int| 0 <= k < self.line(x).len() ==> self.has(#[trigger] self.line(x)[k]),
    {
        assert(self.node_ok(x));
    }

    /// Every child is a record of the forest.
    pub proof fn lemma_kids_live(self, x: usize)
        requires
            self.inv(),
            self.has(x),
        ensures
            forall|k: int| 0 <= k < self.children(x).len() ==> self.has(#[trigger] self.children(x)[k]),
    {
        assert(self.node_ok(x));
    }

    /// One holder more leaves the forest sound.
    pub proof fn lemma_retained(self, x: usize)
        requires
            self.inv(),
            self.has(x),
        ensures
            self.retained(x).inv(),
    {
        let t = self.retained(x);
        assert forall|y: usize| t.has(y) implies #[trigger] t.node_ok(y) by {
            self.lemma_same_links(t, y);
        }
    }

    /// One holder fewer leaves the forest sound where a handle still holds `x`.
    pub proof fn lemma_eased(self, x: usize)
        requires
            self.inv(),
            self.has(x),
            self.handles(x) >= 1,
            self.holders(x) >= 2,
        ensures
            self.eased(x).inv(),
    {
        let t = self.eased(x);
        assert forall|y: usize| t.has(y) implies #[trigger] t.node_ok(y) by {
            self.lemma_same_links(t, y);
        }
    }

    /// Where two forests have the same records with the same links, a record
    /// whose links are sound in one has sound links in the other.
    pub proof fn lemma_same_links(self, t: Shape<T>, y: usize)
        requires
            self.inv(),
            self.has(y),
            forall|z: usize| self.has(z) <==> t.has(z),
            forall|z: usize|
                self.has(z) ==> {
                    &&& self.children(z) == t.children(z)
                    &&& self.parent(z) == t.parent(z)
                    &&& self.line(z) == t.line(z)
                    &&& self.height(z) == t.height(z)
                },
        ensures
            t.links_ok(y),
            t.holders(y) == self.holders(y) ==> t.node_ok(y),
    {
        assert(self.node_ok(y));
        self.lemma_line_live(y);
        self.lemma_kids_live(y);
        if self.parent(y) is Some {
            self.lemma_parent_line(y);
        }
    }
}

} // verus!
