//! The handle through which a tree is used.

use vstd::prelude::*;
use vstd::std_specs::cmp::PartialEqSpec;
use crate::base::RawNode;
use crate::forest::Forest;
use crate::search::lawful_eq;

verus! {

/// A handle to one record of a [`Forest`].  Several handles may name the same
/// record; two handles are equal when they do.  Each handle is one holder of
/// its record until it is given back with [`Node::release`].
#[derive(Debug, PartialEq, Eq, Structural)]
pub struct Node {
    id: usize,
}

impl View for Node {
    type V = usize;

    closed spec fn view(&self) -> usize {
        self.id
    }
}

impl Node {
    /// Two handles are equal exactly when they name the same record.
    pub proof fn law_identity(a: Node, b: Node)
        ensures
            (a == b) == (a@ == b@),
    {
    }

    /// The identity of the record that this handle names.
    pub fn id(&self) -> (id: usize)
        ensures
            id == self@,
    {
        self.id
    }

    /// Makes a record that holds `value`, a root without children, and returns
    /// the one handle to it.
    pub fn new<T: PartialEq>(forest: &mut Forest<T>, value: T) -> (n: Node)
        requires
            old(forest)@.sound(),
        ensures
            n@ == old(forest).fresh(),
            !old(forest)@.has(n@),
            final(forest)@ == old(forest)@.inserted(n@, value),
            final(forest)@.sound(),
    {
        let id = forest.insert(value);
        proof {
            old(forest)@.lemma_inserted_unique(id, value);
        }
        Node { id }
    }

    /// The handle that stands for a hold on the record `id` which is counted
    /// already.
    pub(crate) fn of_hold(id: usize) -> (n: Node)
        ensures
            n@ == id,
    {
        Node { id }
    }

    /// One more handle to the record `id`.
    pub(crate) fn from<T: PartialEq>(forest: &mut Forest<T>, id: usize) -> (n: Node)
        requires
            old(forest)@.sound(),
            old(forest)@.has(id),
            old(forest)@.holders(id) < usize::MAX,
        ensures
            n@ == id,
            final(forest)@ == old(forest)@.retained(id),
            final(forest)@.sound(),
    {
        forest.retain(id);
        proof {
            old(forest)@.lemma_retained(id);
            old(forest)@.lemma_recount_unique(forest@);
        }
        Node { id }
    }

    /// The value of the record.
    pub fn value<'a, T: PartialEq>(&self, forest: &'a Forest<T>) -> (v: &'a T)
        requires
            forest@.has(self@),
        ensures
            *v == forest@.value(self@),
    {
        forest.record(self.id).value()
    }

    /// A handle to the parent of the record, `None` for a root.
    pub fn parent<T: PartialEq>(&self, forest: &mut Forest<T>) -> (r: Option<Node>)
        requires
            old(forest)@.sound(),
            old(forest)@.has(self@),
            old(forest)@.parent(self@) matches Some(p) ==> old(forest)@.holders(p) < usize::MAX,
        ensures
            match r {
                Some(h) => old(forest)@.parent(self@) == Some(h@) && final(forest)@ == old(
                    forest,
                )@.retained(h@),
                None => old(forest)@.parent(self@) is None && final(forest)@ == old(forest)@,
            },
            final(forest)@.sound(),
    {
        match forest.record(self.id).parent() {
            Some(p) => {
                proof {
                    forest@.lemma_parent_line(self@);
                }
                Some(Node::from(forest, p))
            },
            None => None,
        }
    }

    /// The number of strong holders of the record: the handles to it, and one
    /// more while it stands in a parent's child list.
    pub fn rc_count<T: PartialEq>(&self, forest: &Forest<T>) -> (n: usize)
        requires
            forest@.has(self@),
        ensures
            n == forest@.holders(self@),
    {
        forest.record(self.id).holders()
    }

    /// A handle to the root of the tree that holds the record; for a root, a
    /// handle to the record itself.
    pub fn get_root<T: PartialEq>(&self, forest: &mut Forest<T>) -> (r: Node)
        requires
            old(forest)@.sound(),
            old(forest)@.has(self@),
            old(forest)@.holders(old(forest)@.root_of(self@)) < usize::MAX,
        ensures
            r@ == old(forest)@.root_of(self@),
            old(forest)@.is_root(r@),
            final(forest)@ == old(forest)@.retained(r@),
            final(forest)@.sound(),
    {
        let root = RawNode::get_root(forest, self.id);
        Node::from(forest, root)
    }

    /// Searches the subtree of the record in pre-order, the record itself
    /// first, and returns a handle to the first record whose value equals
    /// `value`.
    pub fn find<T: PartialEq>(&self, forest: &mut Forest<T>, value: &T) -> (r: Option<Node>)
        requires
            old(forest)@.sound(),
            old(forest)@.has(self@),
            T::obeys_eq_spec(),
            old(forest)@.first_hit(old(forest)@.preorder(self@), *value) matches Some(h) ==> old(
                forest,
            )@.holders(h) < usize::MAX,
        ensures
            match r {
                Some(h) => {
                    &&& old(forest)@.first_hit(old(forest)@.preorder(self@), *value) == Some(h@)
                    &&& final(forest)@ == old(forest)@.retained(h@)
                },
                None => {
                    &&& old(forest)@.first_hit(old(forest)@.preorder(self@), *value) is None
                    &&& final(forest)@ == old(forest)@
                },
            },
            final(forest)@.sound(),
    {
        match RawNode::find(forest, self.id, value) {
            Some(found) => {
                proof {
                    forest@.lemma_hit_live(self@, *value);
                }
                Some(Node::from(forest, found))
            },
            None => None,
        }
    }

    /// A handle to each child of the record, in the order of the child list as
    /// it stands at the call.
    pub fn children<T: PartialEq>(&self, forest: &mut Forest<T>) -> (r: Vec<Node>)
        requires
            old(forest)@.sound(),
            old(forest)@.has(self@),
            forall|k: int|
                0 <= k < old(forest)@.children(self@).len() ==> old(forest)@.holders(
                    #[trigger] old(forest)@.children(self@)[k],
                ) < usize::MAX,
        ensures
            r@.len() == old(forest)@.children(self@).len(),
            forall|k: int| 0 <= k < r@.len() ==> (#[trigger] r@[k])@ == old(forest)@.children(self@)[k],
            final(forest)@ == old(forest)@.retained_each(old(forest)@.children(self@)),
            final(forest)@.sound(),
    {
        let ghost before = forest@;
        let ghost kids = before.children(self@);
        let n = forest.record(self.id).children().len();
        let mut ret: Vec<Node> = Vec::new();
        let mut i: usize = 0;
        proof {
            assert(before.node_ok(self@));
            assert(forest@.nodes =~= before.retained_each(kids.take(0)).nodes);
        }
        while i < n
            invariant
                before.sound(),
                before.has(self@),
                kids == before.children(self@),
                n == kids.len(),
                i <= n,
                forall|k: int| 0 <= k < kids.len() ==> before.holders(#[trigger] kids[k]) < usize::MAX,
                forest@ == before.retained_each(kids.take(i as int)),
                forest@.sound(),
                ret@.len() == i,
                forall|k: int| 0 <= k < i ==> (#[trigger] ret@[k])@ == kids[k],
            decreases n - i,
        {
            let c = forest.record(self.id).children()[i];
            proof {
                before.lemma_kids_live(self@);
                assert(before.node_ok(self@));
                assert(kids[i as int] == c);
                assert(!kids.take(i as int).contains(c));
            }
            let ghost mid = forest@;
            let h = Node::from(forest, c);
            ret.push(h);
            proof {
                let short = kids.take(i as int);
                let long = kids.take(i + 1);
                assert(long =~= short.push(c));
                assert(forest@ == mid.retained(c));
                assert forall|y: usize| long.contains(y) == (short.contains(y) || y == c) by {
                    if short.contains(y) {
                        let k = choose|k: int| 0 <= k < short.len() && short[k] == y;
                        assert(long[k] == y);
                    }
                    if y == c {
                        assert(long[i as int] == y);
                    }
                }
                assert(forest@.nodes =~= before.retained_each(long).nodes);
            }
            i += 1;
        }
        assert(kids.take(n as int) =~= kids);
        ret
    }

    /// Hangs `child` with its subtree under the record as its new last child,
    /// unless a value of that subtree equals a value of the tree that holds the
    /// record: then nothing changes.  A `child` that hangs under another
    /// record leaves that place.  Returns whether `child` was attached.
    pub fn add_child<T: PartialEq>(&self, forest: &mut Forest<T>, child: &Node) -> (ok: bool)
        requires
            old(forest)@.sound(),
            lawful_eq::<T>(),
            old(forest)@.has(self@),
            old(forest)@.held(child@),
            old(forest)@.holders(child@) < usize::MAX,
        ensures
            ok == old(forest)@.clear_of(self@, child@),
            ok ==> final(forest)@ == old(forest)@.adopted(self@, child@),
            ok ==> final(forest)@.parent(child@) == Some(self@),
            ok ==> final(forest)@.children(self@) == old(forest)@.children(self@).push(child@),
            !ok ==> final(forest)@ == old(forest)@,
            final(forest)@.sound(),
    {
        RawNode::add_child(forest, self.id, child.id)
    }

    /// Searches the subtree of the record as [`Node::find`] does.  Where the
    /// record found has a parent, takes it out of the parent's child list,
    /// makes it a root and returns a handle to it; its own subtree stays as it
    /// is.  Where nothing is found, or what is found is a root, nothing
    /// changes.
    pub fn remove_node<T: PartialEq>(&self, forest: &mut Forest<T>, value: &T) -> (r: Option<Node>)
        requires
            old(forest)@.sound(),
            old(forest)@.has(self@),
            T::obeys_eq_spec(),
        ensures
            match r {
                Some(h) => {
                    &&& old(forest)@.first_hit(old(forest)@.preorder(self@), *value) == Some(h@)
                    &&& old(forest)@.parent(h@) is Some
                    &&& final(forest)@ == old(forest)@.severed(h@)
                },
                None => {
                    &&& match old(forest)@.first_hit(old(forest)@.preorder(self@), *value) {
                        Some(h) => old(forest)@.parent(h) is None,
                        None => true,
                    }
                    &&& final(forest)@ == old(forest)@
                },
            },
            final(forest)@.sound(),
    {
        RawNode::remove_node(forest, self.id, value)
    }

    /// Makes a record that holds `leaf` and hangs it under the record as its
    /// new last child, unless the tree that holds the record has a value equal
    /// to `leaf`: then nothing changes.  Returns whether the leaf was attached.
    pub fn add_leaf<T: PartialEq>(&self, forest: &mut Forest<T>, leaf: T) -> (ok: bool)
        requires
            old(forest)@.sound(),
            lawful_eq::<T>(),
            old(forest)@.has(self@),
        ensures
            ok == (old(forest)@.first_hit(
                old(forest)@.preorder(old(forest)@.root_of(self@)),
                leaf,
            ) is None),
            !old(forest)@.has(old(forest).fresh()),
            ok ==> final(forest)@ == old(forest)@.inserted(old(forest).fresh(), leaf).grafted(
                self@,
                old(forest).fresh(),
            ).eased(old(forest).fresh()),
            !ok ==> final(forest)@ == old(forest)@,
            final(forest)@.sound(),
    {
        let ghost before = forest@;
        let ghost value = leaf;
        let node = Node::new(forest, leaf);
        proof {
            before.lemma_inserted_clear(node@, value, self@);
            before.lemma_inserted_released(node@, value);
        }
        let ok = self.add_child(forest, &node);
        node.release(forest);
        ok
    }

    /// Gives the handle back.  The record has one holder fewer; where the
    /// handle was its last holder, the record is gone, and each of its children
    /// loses the hold that the record had on it in the same way.
    pub fn release<T: PartialEq>(self, forest: &mut Forest<T>)
        requires
            old(forest)@.sound(),
            old(forest)@.held(self@),
        ensures
            final(forest)@ == old(forest)@.released(self@),
            forall|y: usize| #[trigger] old(forest)@.fares(self@, final(forest)@, y),
            final(forest)@.sound(),
    {
        proof {
            forest@.law_release(self@);
        }
        forest.release(self.id);
    }
}

} // verus!
