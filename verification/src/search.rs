//! What a search by value finds, and facts about the depth-first walk.

use vstd::prelude::*;
use vstd::std_specs::cmp::PartialEqSpec;
use crate::shape::Shape;

verus! {

/// The equality of `T` is an equivalence that `==` computes.
pub open spec fn lawful_eq<T: PartialEq>() -> bool {
    &&& T::obeys_eq_spec()
    &&& forall|a: T| #[trigger] a.eq_spec(&a)
    &&& forall|a: T, b: T| #[trigger] a.eq_spec(&b) ==> b.eq_spec(&a)
    &&& forall|a: T, b: T, c: T| #[trigger] a.eq_spec(&b) && #[trigger] b.eq_spec(&c) ==> a.eq_spec(&c)
}

impl<T: PartialEq> Shape<T> {
    /// The value of record `x` equals `v`.
    pub open spec fn carries(self, x: usize, v: T) -> bool {
        self.value(x).eq_spec(&v)
    }

    /// The values of records `x` and `y` are equal.
    pub open spec fn alike(self, x: usize, y: usize) -> bool {
        self.value(x).eq_spec(&self.value(y))
    }

    /// The first record of `s` whose value equals `v`.
    pub open spec fn first_hit(self, s: Seq<usize>, v: T) -> Option<usize>
        decreases s.len(),
    {
        if s.len() == 0 {
            None
        } else if self.carries(s[0], v) {
            Some(s[0])
        } else {
            self.first_hit(s.drop_first(), v)
        }
    }

    /// No record of `s` has a value equal to that of a record of `t`.
    pub open spec fn apart(self, s: Seq<usize>, t: Seq<usize>) -> bool {
        forall|i: int, j: int|
            0 <= i < s.len() && 0 <= j < t.len() ==> !self.alike(#[trigger] s[i], #[trigger] t[j])
    }

    /// No two records of one tree hold equal values.
    pub open spec fn unique(self) -> bool {
        forall|x: usize, y: usize|
            #[trigger] self.same_tree(x, y) && x != y ==> !self.alike(x, y)
    }

    /// A first hit is a record of `s` that carries `v` and has none before it
    /// that does; there is none only if no record of `s` carries `v`.
    pub proof fn lemma_first_hit(self, s: Seq<usize>, v: T)
        ensures
            match self.first_hit(s, v) {
                Some(y) => exists|k: int|
                    {
                        &&& 0 <= k < s.len()
                        &&& #[trigger] s[k] == y
                        &&& self.carries(y, v)
                        &&& forall|j: int| 0 <= j < k ==> !self.carries(#[trigger] s[j], v)
                    },
                None => forall|j: int| 0 <= j < s.len() ==> !self.carries(#[trigger] s[j], v),
            },
        decreases s.len(),
    {
        if s.len() == 0 {
        } else if self.carries(s[0], v) {
            assert(s[0] == s[0]);
        } else {
            let t = s.drop_first();
            self.lemma_first_hit(t, v);
            match self.first_hit(t, v) {
                Some(y) => {
                    let k = choose|k: int|
                        {
                            &&& 0 <= k < t.len()
                            &&& #[trigger] t[k] == y
                            &&& self.carries(y, v)
                            &&& forall|j: int| 0 <= j < k ==> !self.carries(#[trigger] t[j], v)
                        };
                    assert(s[k + 1] == y);
                    assert forall|j: int| 0 <= j < k + 1 implies !self.carries(#[trigger] s[j], v) by {
                        if j > 0 {
                            assert(s[j] == t[j - 1]);
                        }
                    }
                },
                None => {
                    assert forall|j: int| 0 <= j < s.len() implies !self.carries(#[trigger] s[j], v) by {
                        if j > 0 {
                            assert(s[j] == t[j - 1]);
                        }
                    }
                },
            }
        }
    }

    /// What a search below `from` finds is a record below `from` that carries
    /// the value.
    pub proof fn lemma_hit_live(self, from: usize, v: T)
        requires
            self.inv(),
            self.has(from),
            self.first_hit(self.preorder(from), v) is Some,
        ensures
            self.below(from, self.first_hit(self.preorder(from), v)->0),
            self.carries(self.first_hit(self.preorder(from), v)->0, v),
    {
        let s = self.preorder(from);
        self.lemma_first_hit(s, v);
        let y = self.first_hit(s, v)->0;
        let k = choose|k: int| 0 <= k < s.len() && #[trigger] s[k] == y;
        self.lemma_preorder_below(from, k);
    }

    /// The first hit of two sequences in a row is that of the first one, or,
    /// where it has none, that of the second.
    pub proof fn lemma_first_hit_concat(self, a: Seq<usize>, b: Seq<usize>, v: T)
        ensures
            self.first_hit(a + b, v) == match self.first_hit(a, v) {
                Some(y) => Some(y),
                None => self.first_hit(b, v),
            },
        decreases a.len(),
    {
        if a.len() == 0 {
            assert(a + b =~= b);
        } else {
            assert((a + b)[0] == a[0]);
            assert((a + b).drop_first() =~= a.drop_first() + b);
            if !self.carries(a[0], v) {
                self.lemma_first_hit_concat(a.drop_first(), b, v);
            }
        }
    }
}

impl<T> Shape<T> {
    /// Walking one child further appends that child's subtree.
    pub proof fn lemma_walk_step(self, x: usize, n: nat)
        requires
            self.inv(),
            self.has(x),
            n < self.children(x).len(),
        ensures
            self.walk(x, n + 1) == self.walk(x, n) + self.preorder(self.children(x)[n as int]),
            self.has(self.children(x)[n as int]),
            self.height(self.children(x)[n as int]) < self.height(x),
    {
        let c = self.children(x)[n as int];
        assert(self.node_ok(x));
        assert(self.walk(x, n + 1) == self.walk(x, n) + seq![c] + self.walk(c, self.children(c).len()));
        assert(self.walk(x, n) + seq![c] + self.walk(c, self.children(c).len()) =~= self.walk(x, n)
            + self.preorder(c));
    }

    /// A longer walk starts with the shorter one.
    pub proof fn lemma_walk_prefix(self, x: usize, m: nat, n: nat)
        requires
            self.inv(),
            self.has(x),
            m <= n <= self.children(x).len(),
        ensures
            self.walk(x, m).is_prefix_of(self.walk(x, n)),
        decreases n - m,
    {
        if m < n {
            self.lemma_walk_prefix(x, m, (n - 1) as nat);
            self.lemma_walk_step(x, (n - 1) as nat);
        }
    }
}

} // verus!
