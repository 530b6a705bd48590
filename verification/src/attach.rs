//! The algorithms that change the arena, on records named by their identity.

use vstd::prelude::*;
use vstd::std_specs::cmp::PartialEqSpec;
use crate::base::RawNode;
use crate::forest::Forest;
use crate::node::Node;
use crate::search::lawful_eq;

verus! {

impl<T: PartialEq> RawNode<T> {
    /// Hangs `child` with its subtree under `parent` as its new last child,
    /// unless a value of that subtree equals a value of the tree that holds
    /// `parent`: then nothing changes.  A `child` that hangs under another
    /// record leaves that place.  Returns whether `child` was attached.
    pub fn add_child(forest: &mut Forest<T>, parent: usize, child: usize) -> (ok: bool)
        requires
            old(forest)@.sound(),
            lawful_eq::<T>(),
            old(forest)@.has(parent),
            old(forest)@.held(child),
            old(forest)@.holders(child) < usize::MAX,
        ensures
            ok == old(forest)@.clear_of(parent, child),
            ok ==> final(forest)@ == old(forest)@.adopted(parent, child),
            ok ==> final(forest)@.parent(child) == Some(parent),
            ok ==> final(forest)@.children(parent) == old(forest)@.children(parent).push(child),
            !ok ==> final(forest)@ == old(forest)@,
            final(forest)@.sound(),
    {
        let root = Self::get_root(forest, parent);
        if Self::unique_nodes(forest, root, child) {
            proof {
                forest@.lemma_adopted(parent, child);
            }
            if forest.record(child).parent().is_some() {
                forest.sever(child);
                forest.ease(child);
            }
            forest.graft(parent, child);
            true
        } else {
            false
        }
    }

    /// Searches the subtree of `from` as [`RawNode::find`] does.  Where the
    /// record found has a parent, takes it out of the parent's child list,
    /// makes it a root and returns a handle to it; the hold that the child
    /// list had on it is now that of the handle, and its own subtree stays as
    /// it is.  Where nothing is found, or what is found is a root, nothing
    /// changes.
    pub fn remove_node(forest: &mut Forest<T>, from: usize, value: &T) -> (r: Option<Node>)
        requires
            old(forest)@.sound(),
            old(forest)@.has(from),
            T::obeys_eq_spec(),
        ensures
            match r {
                Some(h) => {
                    &&& old(forest)@.first_hit(old(forest)@.preorder(from), *value) == Some(h@)
                    &&& old(forest)@.parent(h@) is Some
                    &&& final(forest)@ == old(forest)@.severed(h@)
                },
                None => {
                    &&& match old(forest)@.first_hit(old(forest)@.preorder(from), *value) {
                        Some(h) => old(forest)@.parent(h) is None,
                        None => true,
                    }
                    &&& final(forest)@ == old(forest)@
                },
            },
            final(forest)@.sound(),
    {
        match Self::find(forest, from, value) {
            Some(found) => {
                proof {
                    forest@.lemma_hit_live(from, *value);
                }
                if forest.record(found).parent().is_some() {
                    proof {
                        forest@.lemma_severed_unique(found);
                    }
                    forest.sever(found);
                    Some(Node::of_hold(found))
                } else {
                    None
                }
            },
            None => None,
        }
    }
}

} // verus!
