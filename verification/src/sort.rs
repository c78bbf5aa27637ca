//! A stable sort of tree records by height.
//!
//! Stability matters: the tie order among equal heights must be the input
//! order, so that repeated builds from the same batch yield the same index.

use vstd::prelude::*;
use crate::record::Tree;

verus! {

broadcast use vstd::seq_lib::group_to_multiset_ensures;

/// Heights never decrease along the sequence.
pub open spec fn sorted_by_height(s: Seq<Tree>) -> bool {
    forall|i: int, j: int| 0 <= i < j < s.len() ==> s[i].height <= s[j].height
}

/// Stable insertion by height: `t` goes after every record whose height is
/// at most `t.height`.
pub open spec fn sorted_insert(s: Seq<Tree>, t: Tree) -> Seq<Tree>
    decreases s.len(),
{
    if s.len() == 0 {
        seq![t]
    } else if s.last().height <= t.height {
        s.push(t)
    } else {
        sorted_insert(s.drop_last(), t).push(s.last())
    }
}

/// The stable sort of `s` by height, as repeated stable insertion.
pub open spec fn sort_by_height(s: Seq<Tree>) -> Seq<Tree>
    decreases s.len(),
{
    if s.len() == 0 {
        Seq::empty()
    } else {
        sorted_insert(sort_by_height(s.drop_last()), s.last())
    }
}

/// Stable insertion into a position-determined slot is `Seq::insert` at
/// that slot: everything from `j` on is strictly taller than `t`, and the
/// record just before `j` (if any) is not.
proof fn lemma_sorted_insert_at(s: Seq<Tree>, t: Tree, j: int)
    requires
        0 <= j <= s.len(),
        forall|k: int| j <= k < s.len() ==> s[k].height > t.height,
        j > 0 ==> s[j - 1].height <= t.height,
    ensures
        sorted_insert(s, t) == s.insert(j, t),
    decreases s.len(),
{
    if s.len() == 0 {
        assert(sorted_insert(s, t) =~= s.insert(0, t));
    } else if j == s.len() {
        assert(s.last().height <= t.height);
        assert(sorted_insert(s, t) =~= s.insert(j, t));
    } else {
        assert(s[s.len() - 1].height > t.height);
        lemma_sorted_insert_at(s.drop_last(), t, j);
        assert(sorted_insert(s.drop_last(), t).push(s.last()) =~= s.insert(j, t));
    }
}

/// Stable insertion keeps the order, adds exactly the new record, and
/// grows the length by one.
proof fn lemma_sorted_insert_properties(s: Seq<Tree>, t: Tree)
    requires
        sorted_by_height(s),
    ensures
        sorted_by_height(sorted_insert(s, t)),
        sorted_insert(s, t).to_multiset() == s.to_multiset().insert(t),
        sorted_insert(s, t).len() == s.len() + 1,
    decreases s.len(),
{
    if s.len() == 0 {
        assert(seq![t] =~= Seq::<Tree>::empty().push(t));
        assert(sorted_insert(s, t).to_multiset() =~= s.to_multiset().insert(t));
    } else if s.last().height <= t.height {
        assert forall|i: int, j: int|
            0 <= i < j < s.push(t).len() implies s.push(t)[i].height <= s.push(t)[j].height by {
            if j < s.len() {
            } else {
                assert(s.push(t)[j] == t);
                if i < s.len() - 1 {
                    assert(s[i].height <= s.last().height);
                }
            }
        }
        assert(sorted_insert(s, t).to_multiset() =~= s.to_multiset().insert(t));
    } else {
        let pre = s.drop_last();
        assert(sorted_by_height(pre));
        lemma_sorted_insert_properties(pre, t);
        let r = sorted_insert(pre, t);
        assert forall|i: int, j: int|
            0 <= i < j < r.push(s.last()).len() implies r.push(s.last())[i].height <= r.push(
            s.last(),
        )[j].height by {
            if j < r.len() {
            } else {
                assert(r.push(s.last())[j] == s.last());
                let x = r[i];
                assert(r.to_multiset().contains(x));
                if pre.to_multiset().contains(x) {
                    let k = choose|k: int| 0 <= k < pre.len() && pre[k] == x;
                    assert(s[k].height <= s.last().height);
                } else {
                    assert(x == t);
                }
            }
        }
        assert(s =~= pre.push(s.last()));
        assert(s.to_multiset() == pre.to_multiset().insert(s.last()));
        assert(r.push(s.last()).to_multiset() =~= s.to_multiset().insert(t));
    }
}

/// The sort is sorted, is a permutation of its input, and keeps the length.
pub proof fn lemma_sort_by_height_properties(s: Seq<Tree>)
    ensures
        sorted_by_height(sort_by_height(s)),
        sort_by_height(s).to_multiset() == s.to_multiset(),
        sort_by_height(s).len() == s.len(),
    decreases s.len(),
{
    if s.len() == 0 {
        assert(sort_by_height(s).to_multiset() =~= s.to_multiset());
    } else {
        let pre = s.drop_last();
        lemma_sort_by_height_properties(pre);
        lemma_sorted_insert_properties(sort_by_height(pre), s.last());
        assert(s =~= pre.push(s.last()));
        assert(s.to_multiset() == pre.to_multiset().insert(s.last()));
    }
}

/// Sorts the records by height, stably: records of equal height keep
/// their input order.
pub fn sort_trees(trees: &Vec<Tree>) -> (r: Vec<Tree>)
    ensures
        r@ == sort_by_height(trees@),
{
    let mut result: Vec<Tree> = Vec::new();
    let mut i: usize = 0;
    proof {
        assert(trees@.take(0) =~= Seq::<Tree>::empty());
    }
    while i < trees.len()
        invariant
            i <= trees@.len(),
            result@ == sort_by_height(trees@.take(i as int)),
        decreases trees@.len() - i,
    {
        let t = trees[i].duplicate();
        let ghost prev = result@;
        let mut j: usize = result.len();
        while j > 0 && result[j - 1].height > t.height
            invariant
                j <= result@.len(),
                result@ == prev,
                forall|k: int| j <= k < result@.len() ==> result@[k].height > t.height,
            decreases j,
        {
            j = j - 1;
        }
        proof {
            lemma_sorted_insert_at(prev, t, j as int);
        }
        result.insert(j, t);
        proof {
            assert(trees@.take(i + 1).drop_last() =~= trees@.take(i as int));
            assert(trees@.take(i + 1).last() == trees@[i as int]);
        }
        i = i + 1;
    }
    proof {
        assert(trees@.take(trees@.len() as int) =~= trees@);
    }
    result
}

} // verus!
