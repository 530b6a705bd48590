//! What holds of every forest, stated over its picture.

use vstd::prelude::*;
use vstd::std_specs::cmp::PartialEqSpec;
use crate::search::lawful_eq;
use crate::shape::Shape;

verus! {

impl<T> Shape<T> {
    /// Severing changes no walk below the record that was cut off.
    pub proof fn lemma_severed_walk(self, h: usize, x: usize, n: nat)
        requires
            self.can_sever(h),
            self.below(h, x),
            n <= self.children(x).len(),
        ensures
            self.severed(h).walk(x, n) == self.walk(x, n),
        decreases self.height(x), n,
    {
        let t = self.severed(h);
        self.lemma_parent_line(h);
        self.lemma_below_is_on_line(h, x);
        assert(t.children(x) == self.children(x));
        if n > 0 {
            let m = (n - 1) as nat;
            let c = self.children(x)[m as int];
            self.lemma_walk_step(x, m);
            self.lemma_child_line(x, m as int);
            self.lemma_below_trans(h, x, c);
            self.lemma_below_is_on_line(h, c);
            assert(t.children(c) == self.children(c));
            self.lemma_severed_walk(h, x, m);
            self.lemma_severed_walk(h, c, self.children(c).len());
        }
    }

    /// Following parents from any record ends at a root, and the root of a
    /// root is that root: asking for the root twice gives the same record as
    /// asking once, also after the first answer has become one more holder.
    pub proof fn law_root_closure(self, x: usize)
        requires
            self.inv(),
            self.has(x),
        ensures
            self.has(self.root_of(x)),
            self.parent(self.root_of(x)) is None,
            self.root_of(self.root_of(x)) == self.root_of(x),
            self.root_of(x) == match self.parent(x) {
                Some(p) => self.root_of(p),
                None => x,
            },
            self.retained(self.root_of(x)).parent(self.root_of(x)) is None,
            self.retained(self.root_of(x)).root_of(x) == self.root_of(x),
            self.retained(self.root_of(x)).root_of(self.root_of(x)) == self.root_of(x),
    {
        self.lemma_root_line(x);
        if self.parent(x) is Some {
            self.lemma_parent_line(x);
            assert(self.node_ok(self.parent(x)->0));
        }
    }
}

impl<T: PartialEq> Shape<T> {
    /// A forest without records is sound.
    pub proof fn law_empty_sound(self)
        requires
            self.nodes == Map::<usize, crate::shape::Record<T>>::empty(),
        ensures
            self.sound(),
    {
    }

    /// After `c` was hung under `p`, the parent of `c` is `p`, and `c` is the
    /// last child of `p`, behind the children that `p` had.
    pub proof fn law_adopted_links(self, p: usize, c: usize)
        requires
            self.sound(),
            lawful_eq::<T>(),
            self.has(p),
            self.held(c),
            self.clear_of(p, c),
        ensures
            self.adopted(p, c).sound(),
            self.adopted(p, c).parent(c) == Some(p),
            self.adopted(p, c).children(p) == self.children(p).push(c),
            self.adopted(p, c).children(p).contains(c),
            self.adopted(p, c).root_of(c) == self.root_of(p),
    {
        self.lemma_adopted(p, c);
        let t = self.adopted(p, c);
        assert(t.children(p)[self.children(p).len() as int] == c);
        assert(t.node_ok(c));
        assert(t.node_ok(p));
        t.lemma_parent_line(c);
        self.lemma_root_line(p);
        self.lemma_root_line(c);
        assert(self.node_ok(p));
        if !self.is_root(c) {
            self.lemma_clear_of(p, c);
            self.lemma_severed_root(c, p);
        }
    }

    /// A record that was taken out of its parent's child list leaves that list
    /// one shorter and every other list as it was.  A search of the tree that
    /// it has left no longer finds the value by which it was found.  Its own
    /// subtree is as it was, and it is the root of it.
    pub proof fn law_removal(self, from: usize, v: T, h: usize)
        requires
            self.sound(),
            lawful_eq::<T>(),
            self.has(from),
            self.first_hit(self.preorder(from), v) == Some(h),
            self.parent(h) is Some,
        ensures
            self.severed(h).sound(),
            self.severed(h).children(self.parent(h)->0).len() == self.children(self.parent(h)->0).len()
                - 1,
            !self.severed(h).children(self.parent(h)->0).contains(h),
            forall|y: usize|
                self.has(y) && y != self.parent(h)->0 ==> #[trigger] self.severed(h).children(y)
                    == self.children(y),
            self.severed(h).first_hit(self.severed(h).preorder(self.root_of(from)), v) is None,
            self.severed(h).is_root(h),
            self.severed(h).preorder(h) == self.preorder(h),
            forall|i: int|
                0 <= i < self.preorder(h).len() ==> {
                    &&& self.severed(h).has(#[trigger] self.preorder(h)[i])
                    &&& self.severed(h).value(self.preorder(h)[i]) == self.value(self.preorder(h)[i])
                    &&& self.severed(h).children(self.preorder(h)[i]) == self.children(
                        self.preorder(h)[i],
                    )
                },
    {
        let t = self.severed(h);
        let q = self.parent(h)->0;
        let r = self.root_of(from);
        self.lemma_hit_live(from, v);
        self.lemma_severed_unique(h);
        self.lemma_place(h);
        self.lemma_parent_line(h);
        self.children(q).remove_ensures(self.place(h));
        assert(self.node_ok(q));
        assert(self.node_ok(h));
        if t.children(q).contains(h) {
            let k = choose|k: int| 0 <= k < t.children(q).len() && t.children(q)[k] == h;
            let i = if k >= self.place(h) { k + 1 } else { k };
            assert(self.children(q)[i] == h);
        }
        self.lemma_severed_walk(h, h, self.children(h).len());
        assert(t.children(h) == self.children(h));
        assert forall|i: int| 0 <= i < self.preorder(h).len() implies {
            &&& t.has(#[trigger] self.preorder(h)[i])
            &&& t.value(self.preorder(h)[i]) == self.value(self.preorder(h)[i])
            &&& t.children(self.preorder(h)[i]) == self.children(self.preorder(h)[i])
        } by {
            let y = self.preorder(h)[i];
            self.lemma_preorder_below(h, i);
            self.lemma_below_is_on_line(h, y);
        }
        self.lemma_below_is_on_line(from, h);
        self.lemma_root_line(from);
        assert(t.has(r));
        let pre = t.preorder(r);
        t.lemma_first_hit(pre, v);
        assert forall|i: int| 0 <= i < pre.len() implies !t.carries(#[trigger] pre[i], v) by {
            let y = pre[i];
            t.lemma_preorder_below(r, i);
            t.lemma_below_is_on_line(r, y);
            self.lemma_severed_root(h, y);
            self.lemma_severed_root(h, r);
            assert(self.same_tree(y, h));
            assert(y != h);
            assert(!self.alike(y, h));
            assert(self.carries(h, v));
            if self.carries(y, v) {
                assert(v.eq_spec(&self.value(h)));
                assert(self.value(y).eq_spec(&self.value(h)));
            }
        }
    }

    /// A child list is one more holder: a root that is hung under a record has
    /// one holder more than it had, so a record that one handle and one child
    /// list hold has two; a record that changes its parent keeps its number.
    pub proof fn law_shared_hold(self, p: usize, c: usize)
        requires
            self.sound(),
            lawful_eq::<T>(),
            self.has(p),
            self.held(c),
            self.clear_of(p, c),
        ensures
            self.adopted(p, c).holders(c) == if self.is_root(c) {
                self.holders(c) + 1
            } else {
                self.holders(c)
            },
            self.adopted(p, c).handles(c) == self.handles(c),
            forall|y: usize| self.has(y) && y != c ==> #[trigger] self.adopted(p, c).holders(y) == self.holders(y),
    {
        self.lemma_adopted(p, c);
        assert(self.node_ok(c));
    }

    /// Giving up a hold on a record that has another holder takes one from its
    /// number of holders and changes nothing else.
    pub proof fn law_release_shared(self, x: usize)
        requires
            self.sound(),
            self.held(x),
            self.holders(x) >= 2,
        ensures
            self.released(x) == self.eased(x),
            self.released(x).has(x),
            self.released(x).holders(x) == self.holders(x) - 1,
            forall|y: usize| self.has(y) && y != x ==> #[trigger] self.released(x).nodes[y] == self.nodes[y],
    {
    }

    /// Giving up the last hold on a record frees it: it is no record of the
    /// forest any more, and no record outside its subtree has changed.
    pub proof fn law_release_last(self, x: usize)
        requires
            self.sound(),
            self.held(x),
            self.holders(x) == 1,
        ensures
            self.is_root(x),
            !self.released(x).has(x),
            self.released(x).sound(),
            forall|y: usize| #[trigger]
                self.has(y) && !self.below(x, y) ==> self.released(x).has(y) && self.released(x).nodes[y]
                    == self.nodes[y],
    {
        self.lemma_released(x);
        self.lemma_let_go(x);
        let s2 = self.orphaned(x).without(x);
        s2.lemma_released_each(self.children(x), self.children(x).len(), self.height(x));
    }
}

} // verus!
