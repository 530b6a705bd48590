//! The storage unit of the arena.

use vstd::prelude::*;

verus! {

/// One record: a value, the identities of its children in the order in which
/// they were attached, the identity of its parent, and the number of strong
/// holders that keep it alive.  It checks nothing itself: the rules of the tree
/// are kept by the operations of the forest.
#[derive(Debug)]
pub struct RawNode<T> {
    value: T,
    children: Vec<usize>,
    parent: Option<usize>,
    holders: usize,
}

impl<T> RawNode<T> {
    pub closed spec fn spec_value(&self) -> T {
        self.value
    }

    pub closed spec fn spec_children(&self) -> Seq<usize> {
        self.children@
    }

    pub closed spec fn spec_parent(&self) -> Option<usize> {
        self.parent
    }

    pub closed spec fn spec_holders(&self) -> nat {
        self.holders as nat
    }

    /// A record with one holder, no parent and no children.
    pub fn new(value: T) -> (r: Self)
        ensures
            r.spec_value() == value,
            r.spec_children() == Seq::<usize>::empty(),
            r.spec_parent() == None::<usize>,
            r.spec_holders() == 1,
    {
        Self { value, children: Vec::new(), parent: None, holders: 1 }
    }

    pub fn value(&self) -> (v: &T)
        ensures
            *v == self.spec_value(),
    {
        &self.value
    }

    /// The identity of the parent, `None` for a root.
    pub fn parent(&self) -> (p: Option<usize>)
        ensures
            p == self.spec_parent(),
    {
        self.parent
    }

    /// The identities of the children, oldest first.
    pub fn children(&self) -> (c: &Vec<usize>)
        ensures
            c@ == self.spec_children(),
    {
        &self.children
    }

    /// The number of strong holders.
    pub fn holders(&self) -> (n: usize)
        ensures
            n == self.spec_holders(),
    {
        self.holders
    }

    /// Appends `child` to the child list.
    pub(crate) fn push_child(&mut self, child: usize)
        ensures
            final(self).spec_children() == old(self).spec_children().push(child),
            final(self).spec_value() == old(self).spec_value(),
            final(self).spec_parent() == old(self).spec_parent(),
            final(self).spec_holders() == old(self).spec_holders(),
    {
        self.children.push(child);
    }

    /// Takes the child at place `at` out of the child list.
    pub(crate) fn take_child(&mut self, at: usize)
        requires
            at < old(self).spec_children().len(),
        ensures
            final(self).spec_children() == old(self).spec_children().remove(at as int),
            final(self).spec_value() == old(self).spec_value(),
            final(self).spec_parent() == old(self).spec_parent(),
            final(self).spec_holders() == old(self).spec_holders(),
    {
        self.children.remove(at);
    }

    /// Gives up the record for its child list.
    pub(crate) fn into_children(self) -> (c: Vec<usize>)
        ensures
            c@ == self.spec_children(),
    {
        self.children
    }

    /// Sets the parent link.
    pub(crate) fn set_parent(&mut self, parent: Option<usize>)
        ensures
            final(self).spec_parent() == parent,
            final(self).spec_value() == old(self).spec_value(),
            final(self).spec_children() == old(self).spec_children(),
            final(self).spec_holders() == old(self).spec_holders(),
    {
        self.parent = parent;
    }

    /// Sets the number of strong holders.
    pub(crate) fn set_holders(&mut self, holders: usize)
        ensures
            final(self).spec_holders() == holders,
            final(self).spec_value() == old(self).spec_value(),
            final(self).spec_children() == old(self).spec_children(),
            final(self).spec_parent() == old(self).spec_parent(),
    {
        self.holders = holders;
    }
}

} // verus!
