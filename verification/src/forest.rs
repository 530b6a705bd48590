//! The arena that holds the records of every tree.

use vstd::prelude::*;
use crate::base::RawNode;
use crate::shape::Record;
use crate::shape::Shape;

verus! {

/// An arena of records.  A record keeps its place for as long as it lives, so
/// its index is its identity; the place of a record that was let go is never
/// given out again.
pub struct Forest<T> {
    slots: Vec<Option<RawNode<T>>>,
    lines: Ghost<Map<usize, Seq<usize>>>,
    heights: Ghost<Map<usize, nat>>,
}

impl<T> View for Forest<T> {
    type V = Shape<T>;

    closed spec fn view(&self) -> Shape<T> {
        Shape {
            nodes: Map::new(
                |x: usize| x < self.slots.len() && self.slots[x as int] is Some,
                |x: usize|
                    Record {
                        value: self.slots[x as int]->0.spec_value(),
                        children: self.slots[x as int]->0.spec_children(),
                        parent: self.slots[x as int]->0.spec_parent(),
                        holders: self.slots[x as int]->0.spec_holders(),
                        line: self.lines@[x],
                        height: self.heights@[x],
                    },
            ),
        }
    }
}

impl<T> Forest<T> {
    /// An arena without records.
    pub fn new() -> (f: Self)
        ensures
            f@.nodes == Map::<usize, Record<T>>::empty(),
            f@.inv(),
    {
        let f = Forest { slots: Vec::new(), lines: Ghost(Map::empty()), heights: Ghost(Map::empty()) };
        assert(f@.nodes =~= Map::<usize, Record<T>>::empty());
        f
    }

    /// The identity that the next new record gets.
    pub closed spec fn fresh(&self) -> usize {
        self.slots.len() as usize
    }

    /// Whether `x` names a record that lives in this arena.
    pub fn contains(&self, x: usize) -> (b: bool)
        ensures
            b == self@.has(x),
    {
        x < self.slots.len() && self.slots[x].is_some()
    }

    /// The record named `x`.
    pub fn record(&self, x: usize) -> (r: &RawNode<T>)
        requires
            self@.has(x),
        ensures
            r.spec_value() == self@.value(x),
            r.spec_children() == self@.children(x),
            r.spec_parent() == self@.parent(x),
            r.spec_holders() == self@.holders(x),
    {
        self.slots[x].as_ref().unwrap()
    }

    /// Puts a new record that holds `value` into the arena and returns its
    /// identity.  The record is a root without children, with one holder.
    pub(crate) fn insert(&mut self, value: T) -> (id: usize)
        ensures
            id == old(self).fresh(),
            !old(self)@.has(id),
            final(self)@ == old(self)@.inserted(id, value),
    {
        let id = self.slots.len();
        self.slots.push(Some(RawNode::new(value)));
        self.lines = Ghost(self.lines@.insert(id, seq![id]));
        self.heights = Ghost(self.heights@.insert(id, 0));
        assert(self@.nodes =~= old(self)@.inserted(id, value).nodes);
        id
    }

    /// Counts one holder more for `x`.
    pub(crate) fn retain(&mut self, x: usize)
        requires
            old(self)@.has(x),
            old(self)@.holders(x) < usize::MAX,
        ensures
            final(self)@ == old(self)@.retained(x),
    {
        match &mut self.slots[x] {
            Some(r) => {
                let n = r.holders();
                r.set_holders(n + 1);
            },
            None => {},
        }
        assert(self@.nodes =~= old(self)@.retained(x).nodes);
    }

    /// Counts one holder fewer for `x`.
    pub(crate) fn ease(&mut self, x: usize)
        requires
            old(self)@.has(x),
            old(self)@.holders(x) >= 1,
        ensures
            final(self)@ == old(self)@.eased(x),
    {
        match &mut self.slots[x] {
            Some(r) => {
                let n = r.holders();
                r.set_holders(n - 1);
            },
            None => {},
        }
        assert(self@.nodes =~= old(self)@.eased(x).nodes);
    }

    /// Makes the root `c` the last child of `p`, a record of another tree.
    pub(crate) fn graft(&mut self, p: usize, c: usize)
        requires
            old(self)@.can_graft(p, c),
            old(self)@.holders(c) < usize::MAX,
        ensures
            final(self)@ == old(self)@.grafted(p, c),
    {
        let ghost before = self@;
        proof {
            before.lemma_root_line(c);
            before.lemma_root_line(p);
        }
        match &mut self.slots[p] {
            Some(r) => {
                r.push_child(c);
            },
            None => {},
        }
        match &mut self.slots[c] {
            Some(r) => {
                let n = r.holders();
                r.set_holders(n + 1);
                r.set_parent(Some(p));
            },
            None => {},
        }
        self.lines = Ghost(
            Map::new(
                |y: usize| true,
                |y: usize|
                    if before.root_of(y) == c {
                        before.line(p) + before.line(y)
                    } else {
                        before.line(y)
                    },
            ),
        );
        self.heights = Ghost(
            Map::new(
                |y: usize| true,
                |y: usize|
                    if before.root_of(y) == c {
                        before.height(y)
                    } else {
                        before.height(y) + before.height(c) + 1
                    },
            ),
        );
        assert(self@.nodes =~= before.grafted(p, c).nodes);
    }

    /// Takes `h` out of the child list of its parent and makes it a root.
    pub(crate) fn sever(&mut self, h: usize)
        requires
            old(self)@.can_sever(h),
        ensures
            final(self)@ == old(self)@.severed(h),
    {
        let ghost before = self@;
        proof {
            before.lemma_place(h);
        }
        let q = self.record(h).parent().unwrap();
        let kids = self.record(q).children();
        let mut at: usize = 0;
        while kids[at] != h
            invariant
                kids@ == before.children(q),
                0 <= at <= before.place(h),
                before.place(h) < kids.len(),
                kids@[before.place(h)] == h,
            decreases kids@.len() - at,
        {
            assert(kids@[at as int] != h);
            at += 1;
        }
        match &mut self.slots[q] {
            Some(r) => {
                r.take_child(at);
            },
            None => {},
        }
        match &mut self.slots[h] {
            Some(r) => {
                r.set_parent(None);
            },
            None => {},
        }
        self.lines = Ghost(
            Map::new(
                |y: usize| true,
                |y: usize|
                    if before.below(h, y) {
                        before.line(y).skip(before.depth(h) - 1)
                    } else {
                        before.line(y)
                    },
            ),
        );
        assert(self@.nodes =~= before.severed(h).nodes);
    }

    /// Takes the record `x` out of the arena, makes each of its children a
    /// root, and returns their identities in the order of the child list.
    pub(crate) fn orphan(&mut self, x: usize) -> (kids: Vec<usize>)
        requires
            old(self)@.inv(),
            old(self)@.has(x),
        ensures
            kids@ == old(self)@.children(x),
            final(self)@ == old(self)@.orphaned(x).without(x),
    {
        let ghost before = self@;
        let kids = match self.slots[x].take() {
            Some(r) => r.into_children(),
            None => Vec::new(),
        };
        let mut i: usize = 0;
        proof {
            before.lemma_kids_live(x);
        }
        while i < kids.len()
            invariant
                before.inv(),
                before.has(x),
                kids@ == before.children(x),
                i <= kids.len(),
                self.lines == old(self).lines,
                self.heights == old(self).heights,
                self.slots.len() == old(self).slots.len(),
                forall|y: usize| #[trigger] self@.has(y) <==> before.has(y) && y != x,
                forall|y: usize| #[trigger]
                    self@.has(y) ==> {
                        &&& self@.value(y) == before.value(y)
                        &&& self@.children(y) == before.children(y)
                        &&& self@.holders(y) == before.holders(y)
                        &&& self@.parent(y) == if kids@.take(i as int).contains(y) {
                            None
                        } else {
                            before.parent(y)
                        }
                    },
            decreases kids.len() - i,
        {
            let c = kids[i];
            proof {
                before.lemma_child_line(x, i as int);
                assert(self@.has(c));
            }
            let ghost mid = self@;
            let ghost mid_slots = self.slots@;
            match &mut self.slots[c] {
                Some(r) => {
                    r.set_parent(None);
                },
                None => {},
            }
            proof {
                let short = kids@.take(i as int);
                let long = kids@.take(i + 1);
                assert(long =~= short.push(c));
                assert forall|y: usize| long.contains(y) == (short.contains(y) || y == c) by {
                    if short.contains(y) {
                        let k = choose|k: int| 0 <= k < short.len() && short[k] == y;
                        assert(long[k] == y);
                    }
                    if y == c {
                        assert(long[i as int] == y);
                    }
                }
                assert forall|y: usize| #[trigger] self@.has(y) == mid.has(y) by {
                    if y != c && y < self.slots.len() {
                        assert(self.slots@[y as int] == mid_slots[y as int]);
                    }
                }
                assert forall|y: usize| #[trigger] self@.has(y) implies {
                    &&& self@.value(y) == before.value(y)
                    &&& self@.children(y) == before.children(y)
                    &&& self@.holders(y) == before.holders(y)
                    &&& self@.parent(y) == if long.contains(y) {
                        None
                    } else {
                        before.parent(y)
                    }
                } by {
                    assert(mid.has(y));
                    if y != c {
                        assert(self.slots@[y as int] == mid_slots[y as int]);
                    }
                }
            }
            i += 1;
        }
        let ghost done = self@;
        self.lines = Ghost(
            Map::new(
                |y: usize| true,
                |y: usize|
                    if before.below(x, y) && y != x {
                        before.line(y).skip(before.depth(x) as int)
                    } else {
                        before.line(y)
                    },
            ),
        );
        proof {
            assert(kids@.take(kids@.len() as int) =~= kids@);
            let goal = before.orphaned(x).without(x);
            assert forall|y: usize| self@.has(y) implies self@.nodes[y] == goal.nodes[y] by {
                assert(done.has(y));
                assert(before.node_ok(y));
                assert(before.node_ok(x));
                if kids@.contains(y) {
                    let k = choose|k: int| 0 <= k < kids@.len() && kids@[k] == y;
                    before.lemma_child_same_root(x, k);
                }
            }
            assert forall|y: usize| self@.nodes.contains_key(y) == goal.nodes.contains_key(y) by {
                assert(done.has(y) == self@.has(y));
                assert(done.has(y) == (before.has(y) && y != x));
            }
            assert(self@.nodes =~= goal.nodes);
        }
        kids
    }
}

impl<T: PartialEq> Forest<T> {
    /// Gives up one hold on `x`.  The last hold frees the record and gives up
    /// the hold that the record had on each of its children.
    pub(crate) fn release(&mut self, x: usize)
        requires
            old(self)@.sound(),
            old(self)@.held(x),
        ensures
            final(self)@ == old(self)@.released(x),
            final(self)@.sound(),
        decreases old(self)@.height(x),
    {
        let ghost before = self@;
        proof {
            before.lemma_released(x);
        }
        if self.record(x).holders() >= 2 {
            self.ease(x);
            return ;
        }
        let ghost bound = before.height(x);
        proof {
            before.lemma_let_go(x);
        }
        let kids = self.orphan(x);
        let ghost loose = self@;
        let mut i: usize = 0;
        while i < kids.len()
            invariant
                loose.sound(),
                loose.loose(kids@, bound),
                bound == old(self)@.height(x),
                i <= kids.len(),
                self@ == loose.released_each(kids@, i as nat, bound),
            decreases kids.len() - i,
        {
            proof {
                loose.lemma_released_each(kids@, i as nat, bound);
                loose.lemma_released_each(kids@, (i + 1) as nat, bound);
                let c = kids@[i as int];
                assert(self@.has(c) && self@.nodes[c] == loose.nodes[c]);
                assert(self@.height(c) < bound);
            }
            self.release(kids[i]);
            i += 1;
        }
    }
}

} // verus!
