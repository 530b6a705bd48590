//! The steps of a forest keep the values of each tree distinct.

use vstd::prelude::*;
use vstd::std_specs::cmp::PartialEqSpec;
use crate::search::lawful_eq;
use crate::shape::Shape;

verus! {

impl<T: PartialEq> Shape<T> {
    /// The forest is made of trees, and no tree holds a value twice.
    pub open spec fn sound(self) -> bool {
        &&& self.inv()
        &&& self.unique()
    }

    /// No value of the tree of `p` equals a value of the subtree of `c`.
    pub open spec fn clear_of(self, p: usize, c: usize) -> bool {
        self.apart(self.preorder(self.root_of(p)), self.preorder(c))
    }

    /// The forest after `c` with its subtree has become the last child of `p`:
    /// a root is grafted; a record that hangs elsewhere leaves that place
    /// first.
    pub open spec fn adopted(self, p: usize, c: usize) -> Shape<T> {
        if self.is_root(c) {
            self.grafted(p, c)
        } else {
            self.severed(c).eased(c).grafted(p, c)
        }
    }

    /// A new record keeps the values of each tree distinct.
    pub proof fn lemma_inserted_unique(self, id: usize, value: T)
        requires
            self.sound(),
            !self.has(id),
        ensures
            self.inserted(id, value).sound(),
    {
        let t = self.inserted(id, value);
        self.lemma_inserted(id, value);
        assert forall|x: usize, y: usize| #[trigger] t.same_tree(x, y) && x != y implies !t.alike(
            x,
            y,
        ) by {
            if x != id {
                self.lemma_root_line(x);
            }
            if y != id {
                self.lemma_root_line(y);
            }
            assert(self.same_tree(x, y));
        }
    }

    /// A new record shares no value with a tree exactly when a search of that
    /// tree for its value finds nothing.
    pub proof fn lemma_inserted_clear(self, id: usize, value: T, p: usize)
        requires
            self.inv(),
            !self.has(id),
            self.has(p),
        ensures
            self.inserted(id, value).clear_of(p, id) == (self.first_hit(
                self.preorder(self.root_of(p)),
                value,
            ) is None),
    {
        let t = self.inserted(id, value);
        let r = self.root_of(p);
        self.lemma_root_line(p);
        assert(t.nodes[p] == self.nodes[p]);
        assert(t.nodes[r] == self.nodes[r]);
        self.lemma_inserted_walk(id, value, r, self.children(r).len());
        let mine = self.preorder(r);
        assert(t.preorder(r) == mine);
        assert(t.preorder(id) =~= seq![id]);
        self.lemma_first_hit(mine, value);
        assert forall|i: int| 0 <= i < mine.len() implies t.value(#[trigger] mine[i]) == self.value(
            mine[i],
        ) by {
            self.lemma_preorder_below(r, i);
            assert(t.nodes[mine[i]] == self.nodes[mine[i]]);
        }
        if self.first_hit(mine, value) is None {
            assert forall|i: int, j: int|
                0 <= i < mine.len() && 0 <= j < t.preorder(id).len() implies !t.alike(
                #[trigger] mine[i],
                #[trigger] t.preorder(id)[j],
            ) by {
                assert(!self.carries(mine[i], value));
            }
        } else {
            let y = self.first_hit(mine, value)->0;
            let k = choose|k: int| 0 <= k < mine.len() && #[trigger] mine[k] == y;
            assert(t.alike(mine[k], t.preorder(id)[0]));
        }
    }

    /// Giving up the one hold on a record that was just made leaves the forest
    /// as it was before.
    pub proof fn lemma_inserted_released(self, id: usize, value: T)
        requires
            self.inv(),
            !self.has(id),
        ensures
            self.inserted(id, value).released(id) == self,
    {
        let t = self.inserted(id, value);
        let o = t.orphaned(id);
        assert forall|y: usize| t.has(y) implies o.nodes[y] == t.nodes[y] by {
            if y != id {
                assert(self.node_ok(y));
                self.lemma_line_live(y);
                if t.below(id, y) {
                    assert(self.has(self.line(y)[0]));
                }
            }
        }
        assert(o.nodes =~= t.nodes);
        assert(o.without(id).nodes =~= self.nodes);
        assert(t.released(id) == o.without(id).released_each(Seq::empty(), 0, 0));
    }

    /// A change of the number of holders keeps the values of each tree
    /// distinct.
    pub proof fn lemma_recount_unique(self, t: Shape<T>)
        requires
            self.unique(),
            forall|z: usize| self.has(z) <==> t.has(z),
            forall|z: usize| self.has(z) ==> self.value(z) == t.value(z) && self.line(z) == t.line(z),
        ensures
            t.unique(),
    {
        assert forall|x: usize, y: usize| #[trigger] t.same_tree(x, y) && x != y implies !t.alike(
            x,
            y,
        ) by {
            assert(self.same_tree(x, y));
        }
    }

    /// Severing keeps the values of each tree distinct.
    pub proof fn lemma_severed_unique(self, h: usize)
        requires
            self.sound(),
            self.can_sever(h),
        ensures
            self.severed(h).sound(),
    {
        let t = self.severed(h);
        self.lemma_severed(h);
        assert forall|x: usize, y: usize| #[trigger] t.same_tree(x, y) && x != y implies !t.alike(
            x,
            y,
        ) by {
            self.lemma_severed_root(h, x);
            self.lemma_severed_root(h, y);
            self.lemma_root_line(x);
            self.lemma_root_line(y);
            assert(self.same_tree(x, y));
        }
    }

    /// No record of the tree of `p` is like a record below `c`, either way
    /// round.
    pub open spec fn strangers(self, p: usize, c: usize) -> bool {
        forall|x: usize, y: usize| #[trigger]
            self.same_tree(x, p) && #[trigger] self.below(c, y) ==> !self.alike(x, y) && !self.alike(
                y,
                x,
            )
    }

    /// Where the tree of `p` and the subtree of `c` share no value, their
    /// records are strangers, and `c` is no record of the tree of `p`.
    pub proof fn lemma_clear_of(self, p: usize, c: usize)
        requires
            self.inv(),
            lawful_eq::<T>(),
            self.has(p),
            self.has(c),
            self.clear_of(p, c),
        ensures
            self.strangers(p, c),
            self.root_of(c) != self.root_of(p),
            !self.below(c, p),
    {
        let r = self.root_of(p);
        self.lemma_root_line(p);
        assert forall|x: usize, y: usize| #[trigger]
            self.same_tree(x, p) && #[trigger] self.below(c, y) implies !self.alike(x, y)
            && !self.alike(y, x) by {
            self.lemma_apart(p, c, x, y);
        }
        assert(self.node_ok(c));
        if self.root_of(c) == r {
            assert(self.same_tree(c, p));
            assert(self.below(c, c));
            assert(self.value(c).eq_spec(&self.value(c)));
        }
        if self.below(c, p) {
            self.lemma_below_is_on_line(c, p);
        }
    }

    /// One pair of records of two trees that share no value.
    proof fn lemma_apart(self, p: usize, c: usize, x: usize, y: usize)
        requires
            self.inv(),
            lawful_eq::<T>(),
            self.has(p),
            self.has(c),
            self.clear_of(p, c),
            self.same_tree(x, p),
            self.below(c, y),
        ensures
            !self.alike(x, y),
            !self.alike(y, x),
    {
        let r = self.root_of(p);
        self.lemma_root_line(p);
        assert(self.node_ok(x));
        self.lemma_below_line(x, 0);
        self.lemma_below_in_preorder(r, x);
        self.lemma_below_in_preorder(c, y);
        let i = choose|i: int| 0 <= i < self.preorder(r).len() && self.preorder(r)[i] == x;
        let j = choose|j: int| 0 <= j < self.preorder(c).len() && self.preorder(c)[j] == y;
        assert(!self.alike(self.preorder(r)[i], self.preorder(c)[j]));
    }

    /// Grafting keeps the values of each tree distinct where the records of
    /// the two trees are strangers.
    pub proof fn lemma_grafted_unique(self, p: usize, c: usize)
        requires
            self.sound(),
            self.can_graft(p, c),
            self.strangers(p, c),
        ensures
            self.grafted(p, c).sound(),
    {
        let t = self.grafted(p, c);
        self.lemma_grafted(p, c);
        self.lemma_root_line(c);
        assert(self.node_ok(p));
        assert forall|x: usize, y: usize| #[trigger] t.same_tree(x, y) && x != y implies !t.alike(
            x,
            y,
        ) by {
            assert(self.node_ok(x));
            assert(self.node_ok(y));
            let mx = self.root_of(x) == c;
            let my = self.root_of(y) == c;
            if mx == my {
                assert(self.same_tree(x, y));
            } else if mx {
                self.lemma_below_line(x, 0);
                assert(self.same_tree(y, p));
                assert(self.below(c, x));
            } else {
                self.lemma_below_line(y, 0);
                assert(self.same_tree(x, p));
                assert(self.below(c, y));
            }
        }
    }

    /// Adopting keeps the forest sound where the tree of `p` and the subtree
    /// of `c` share no value and a handle holds `c`.
    pub proof fn lemma_adopted(self, p: usize, c: usize)
        requires
            self.sound(),
            lawful_eq::<T>(),
            self.has(p),
            self.held(c),
            self.clear_of(p, c),
        ensures
            self.adopted(p, c).sound(),
            !self.is_root(c) ==> {
                &&& self.can_sever(c)
                &&& self.severed(c).eased(c).can_graft(p, c)
            },
            self.is_root(c) ==> self.can_graft(p, c),
            self.adopted(p, c).parent(c) == Some(p),
            self.adopted(p, c).children(p) == self.children(p).push(c),
    {
        self.lemma_clear_of(p, c);
        self.lemma_root_line(c);
        self.lemma_root_line(p);
        assert(self.node_ok(c));
        assert(self.node_ok(p));
        if self.is_root(c) {
            self.lemma_grafted_unique(p, c);
        } else {
            let s1 = self.severed(c);
            let s2 = s1.eased(c);
            self.lemma_severed_unique(c);
            s1.lemma_eased(c);
            s1.lemma_recount_unique(s2);
            self.lemma_severed_root(c, p);
            assert(s2.root_of(p) == self.root_of(p));
            assert forall|x: usize, y: usize| #[trigger]
                s2.same_tree(x, p) && #[trigger] s2.below(c, y) implies !s2.alike(x, y) && !s2.alike(
                y,
                x,
            ) by {
                self.lemma_severed_root(c, x);
                self.lemma_severed_root(c, y);
                self.lemma_root_line(y);
                assert(s2.line(c) =~= seq![c]);
                assert(self.same_tree(x, p));
                assert(self.below(c, y));
            }
            s2.lemma_grafted_unique(p, c);
            self.lemma_parent_line(c);
            assert(self.parent(c)->0 != p) by {
                if self.parent(c)->0 == p {
                    self.lemma_below_line(c, self.depth(p) - 1);
                }
            }
        }
    }
}

impl<T> Shape<T> {
    /// The root of a record after severing.
    pub proof fn lemma_severed_root(self, h: usize, y: usize)
        requires
            self.can_sever(h),
            self.has(y),
        ensures
            self.severed(h).root_of(y) == if self.below(h, y) {
                h
            } else {
                self.root_of(y)
            },
            self.below(h, y) ==> self.root_of(y) == self.root_of(h),
            self.root_of(h) != h,
    {
        assert(self.node_ok(y));
        assert(self.node_ok(h));
        self.lemma_root_line(h);
        if self.below(h, y) {
            self.lemma_below_is_on_line(h, y);
        }
    }
}

} // verus!
