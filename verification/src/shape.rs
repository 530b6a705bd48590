//! The mathematical picture of a forest: what every contract speaks of.

use vstd::prelude::*;

verus! {

/// What one record looks like to a contract.
pub struct Record<T> {
    /// The payload, fixed when the record is made.
    pub value: T,
    /// The children, oldest first.
    pub children: Seq<usize>,
    /// The record this one hangs under, if any.
    pub parent: Option<usize>,
    /// How many strong holders keep the record alive: the handles to it, and
    /// one more while it stands in a parent's child list.
    pub holders: nat,
    /// The chain of records from the root of the tree down to this one, both
    /// included.
    pub line: Seq<usize>,
    /// A bound on how deep the tree below this record goes.
    pub height: nat,
}

/// The records of a forest, by identity.
pub struct Shape<T> {
    pub nodes: Map<usize, Record<T>>,
}

impl<T> Shape<T> {
    /// `x` is a record of the forest.
    pub open spec fn has(self, x: usize) -> bool {
        self.nodes.contains_key(x)
    }

    pub open spec fn value(self, x: usize) -> T {
        self.nodes[x].value
    }

    pub open spec fn children(self, x: usize) -> Seq<usize> {
        self.nodes[x].children
    }

    pub open spec fn parent(self, x: usize) -> Option<usize> {
        self.nodes[x].parent
    }

    pub open spec fn holders(self, x: usize) -> nat {
        self.nodes[x].holders
    }

    pub open spec fn line(self, x: usize) -> Seq<usize> {
        self.nodes[x].line
    }

    pub open spec fn height(self, x: usize) -> nat {
        self.nodes[x].height
    }

    /// The number of records on the way from the root to `x`, both included.
    pub open spec fn depth(self, x: usize) -> nat {
        self.line(x).len()
    }

    /// The record without a parent that `x` hangs under; `x` itself for a root.
    pub open spec fn root_of(self, x: usize) -> usize {
        self.line(x)[0]
    }

    /// `x` has no parent.
    pub open spec fn is_root(self, x: usize) -> bool {
        self.parent(x) is None
    }

    /// `y` lies in the subtree whose top is `r` (which holds `r` itself).
    pub open spec fn below(self, r: usize, y: usize) -> bool {
        &&& self.has(r)
        &&& self.has(y)
        &&& self.depth(r) <= self.depth(y)
        &&& self.line(y)[self.depth(r) - 1] == r
    }

    /// `x` and `y` are records of one tree.
    pub open spec fn same_tree(self, x: usize, y: usize) -> bool {
        &&& self.has(x)
        &&& self.has(y)
        &&& self.root_of(x) == self.root_of(y)
    }

    /// The handles to `x`: its strong holders but for the parent's child list.
    pub open spec fn handles(self, x: usize) -> int {
        self.holders(x) - if self.parent(x) is Some { 1int } else { 0int }
    }

    /// The line of `x` ends in `x`, each record on it has the matching prefix
    /// as its own line, and the parent is the last record before `x`.
    pub open spec fn line_ok(self, x: usize) -> bool {
        let l = self.line(x);
        &&& l.len() >= 1
        &&& l[l.len() - 1] == x
        &&& forall|k: int|
            0 <= k < l.len() ==> self.has(#[trigger] l[k]) && self.line(l[k]) == l.take(k + 1)
        &&& self.parent(x) == if l.len() == 1 {
            None
        } else {
            Some(l[l.len() - 2])
        }
    }

    /// Each child of `p` is a record that names `p` as its parent and is lower
    /// than `p`; no child is listed twice.
    pub open spec fn kids_ok(self, p: usize) -> bool {
        let c = self.children(p);
        &&& c.no_duplicates()
        &&& forall|k: int|
            0 <= k < c.len() ==> {
                &&& self.has(#[trigger] c[k])
                &&& self.parent(c[k]) == Some(p)
                &&& self.height(c[k]) < self.height(p)
            }
    }

    /// The links of `x` agree with those of its parent and children.
    pub open spec fn links_ok(self, x: usize) -> bool {
        &&& self.line_ok(x)
        &&& self.kids_ok(x)
        &&& match self.parent(x) {
            Some(p) => self.children(p).contains(x),
            None => true,
        }
    }

    /// `x` has a holder, and where it hangs under a parent, the child list of
    /// that parent is one of its holders.
    pub open spec fn count_ok(self, x: usize) -> bool {
        &&& self.holders(x) >= 1
        &&& self.handles(x) >= 0
    }

    /// All that holds of one record in a sound forest.
    pub open spec fn node_ok(self, x: usize) -> bool {
        &&& self.links_ok(x)
        &&& self.count_ok(x)
    }

    /// `x` is a record that some handle holds.
    pub open spec fn held(self, x: usize) -> bool {
        &&& self.has(x)
        &&& self.handles(x) >= 1
    }

    /// The forest is made of trees: parent and child links agree, and following
    /// parents from any record ends at a root.
    pub open spec fn inv(self) -> bool {
        forall|x: usize| self.has(x) ==> #[trigger] self.node_ok(x)
    }

    /// The records under the first `n` children of `x`, in the order in which
    /// a depth-first walk meets them.
    pub open spec fn walk(self, x: usize, n: nat) -> Seq<usize>
        decreases self.height(x), n,
    {
        if n == 0 {
            Seq::empty()
        } else {
            let c = self.children(x)[n - 1];
            if n <= self.children(x).len() && self.height(c) < self.height(x) {
                self.walk(x, (n - 1) as nat) + seq![c] + self.walk(c, self.children(c).len())
            } else {
                self.walk(x, (n - 1) as nat)
            }
        }
    }

    /// The subtree of `x` in pre-order: `x`, then the subtree of each child in
    /// turn.
    pub open spec fn preorder(self, x: usize) -> Seq<usize> {
        seq![x] + self.walk(x, self.children(x).len())
    }
}

} // verus!
