//! The algorithms that read the arena, on records named by their identity:
//! the way to the root, the depth-first search, and the test that two subtrees
//! share no value.

use vstd::prelude::*;
use vstd::std_specs::cmp::PartialEqSpec;
use crate::base::RawNode;
use crate::forest::Forest;

verus! {

impl<T> RawNode<T> {
    /// Follows the parent links from `x` up to the record that has none.
    pub fn get_root(forest: &Forest<T>, x: usize) -> (r: usize)
        requires
            forest@.inv(),
            forest@.has(x),
        ensures
            r == forest@.root_of(x),
            forest@.has(r),
            forest@.is_root(r),
            forest@.below(r, x),
    {
        let mut at = x;
        proof {
            assert(forest@.node_ok(x));
            forest@.lemma_below_line(x, forest@.line(x).len() - 1);
        }
        loop
            invariant
                forest@.inv(),
                forest@.has(x),
                forest@.below(at, x),
            ensures
                forest@.is_root(at),
                forest@.below(at, x),
            decreases forest@.depth(at),
        {
            match forest.record(at).parent() {
                Some(p) => {
                    proof {
                        forest@.lemma_parent_line(at);
                        assert(forest@.node_ok(p));
                        forest@.lemma_below_line(at, forest@.depth(p) - 1);
                        forest@.lemma_below_trans(p, at, x);
                    }
                    at = p;
                },
                None => {
                    break ;
                },
            }
        }
        proof {
            assert(forest@.node_ok(at));
        }
        at
    }

    /// Appends the subtree of `x`, in pre-order, to `out`.
    pub fn as_array(forest: &Forest<T>, x: usize, out: &mut Vec<usize>)
        requires
            forest@.inv(),
            forest@.has(x),
        ensures
            final(out)@ == old(out)@ + forest@.preorder(x),
        decreases forest@.height(x),
    {
        out.push(x);
        let kids = forest.record(x).children();
        let mut i: usize = 0;
        while i < kids.len()
            invariant
                forest@.inv(),
                forest@.has(x),
                kids@ == forest@.children(x),
                i <= kids.len(),
                out@ == old(out)@ + seq![x] + forest@.walk(x, i as nat),
            decreases kids.len() - i,
        {
            proof {
                forest@.lemma_walk_step(x, i as nat);
            }
            Self::as_array(forest, kids[i], out);
            assert(out@ =~= old(out)@ + seq![x] + forest@.walk(x, (i + 1) as nat));
            i += 1;
        }
        assert(out@ =~= old(out)@ + forest@.preorder(x));
    }
}

impl<T: PartialEq> RawNode<T> {
    /// Searches the subtree of `from` in pre-order and returns the first record
    /// whose value equals `value`.
    pub fn find(forest: &Forest<T>, from: usize, value: &T) -> (r: Option<usize>)
        requires
            forest@.inv(),
            forest@.has(from),
            T::obeys_eq_spec(),
        ensures
            r == forest@.first_hit(forest@.preorder(from), *value),
        decreases forest@.height(from),
    {
        let rec = forest.record(from);
        let ghost rest = forest@.walk(from, forest@.children(from).len());
        proof {
            forest@.lemma_first_hit_concat(seq![from], rest, *value);
            assert(seq![from].drop_first() =~= Seq::<usize>::empty());
        }
        if *rec.value() == *value {
            return Some(from);
        }
        let kids = rec.children();
        let mut i: usize = 0;
        assert(forest@.preorder(from) == seq![from] + rest);
        while i < kids.len()
            invariant
                forest@.inv(),
                forest@.has(from),
                T::obeys_eq_spec(),
                kids@ == forest@.children(from),
                i <= kids.len(),
                rest == forest@.walk(from, kids@.len()),
                forest@.first_hit(forest@.preorder(from), *value) == forest@.first_hit(rest, *value),
                forest@.first_hit(forest@.walk(from, i as nat), *value) is None,
            decreases kids.len() - i,
        {
            proof {
                forest@.lemma_walk_step(from, i as nat);
            }
            let r = Self::find(forest, kids[i], value);
            proof {
                forest@.lemma_first_hit_concat(
                    forest@.walk(from, i as nat),
                    forest@.preorder(kids@[i as int]),
                    *value,
                );
            }
            if r.is_some() {
                proof {
                    let short = forest@.walk(from, (i + 1) as nat);
                    forest@.lemma_walk_prefix(from, (i + 1) as nat, kids@.len());
                    let tail = rest.skip(short.len() as int);
                    assert(rest =~= short + tail);
                    forest@.lemma_first_hit_concat(short, tail, *value);
                }
                return r;
            }
            i += 1;
        }
        assert(forest@.walk(from, i as nat) == rest);
        None
    }

    /// Whether no value of the subtree of `a` equals a value of the subtree of
    /// `b`.
    pub fn unique_nodes(forest: &Forest<T>, a: usize, b: usize) -> (r: bool)
        requires
            forest@.inv(),
            forest@.has(a),
            forest@.has(b),
            T::obeys_eq_spec(),
        ensures
            r == forest@.apart(forest@.preorder(a), forest@.preorder(b)),
    {
        let mut mine: Vec<usize> = Vec::new();
        let mut theirs: Vec<usize> = Vec::new();
        Self::as_array(forest, a, &mut mine);
        Self::as_array(forest, b, &mut theirs);
        assert(mine@ =~= forest@.preorder(a));
        assert(theirs@ =~= forest@.preorder(b));
        let mut j: usize = 0;
        while j < theirs.len()
            invariant
                forest@.inv(),
                forest@.has(a),
                forest@.has(b),
                T::obeys_eq_spec(),
                mine@ == forest@.preorder(a),
                theirs@ == forest@.preorder(b),
                j <= theirs.len(),
                forest@.apart(mine@, theirs@.take(j as int)),
            decreases theirs.len() - j,
        {
            proof {
                forest@.lemma_preorder_below(b, j as int);
            }
            let other = forest.record(theirs[j]).value();
            let mut i: usize = 0;
            while i < mine.len()
                invariant
                    forest@.inv(),
                    forest@.has(a),
                    T::obeys_eq_spec(),
                    mine@ == forest@.preorder(a),
                    theirs@ == forest@.preorder(b),
                    j < theirs.len(),
                    i <= mine.len(),
                    *other == forest@.value(theirs@[j as int]),
                    forall|k: int| 0 <= k < i ==> !forest@.alike(#[trigger] mine@[k], theirs@[j as int]),
                decreases mine.len() - i,
            {
                proof {
                    forest@.lemma_preorder_below(a, i as int);
                }
                if *forest.record(mine[i]).value() == *other {
                    assert(forest@.alike(mine@[i as int], theirs@[j as int]));
                    return false;
                }
                i += 1;
            }
            assert(theirs@.take(j + 1) =~= theirs@.take(j as int).push(theirs@[j as int]));
            assert forall|p: int, q: int|
                0 <= p < mine@.len() && 0 <= q < theirs@.take(j + 1).len() implies !forest@.alike(
                #[trigger] mine@[p],
                #[trigger] theirs@.take(j + 1)[q],
            ) by {
                if q < j {
                    assert(theirs@.take(j + 1)[q] == theirs@.take(j as int)[q]);
                }
            }
            j += 1;
        }
        assert(theirs@.take(j as int) =~= theirs@);
        true
    }
}

} // verus!
