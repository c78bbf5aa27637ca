//! The catalog: one height index per age category, built once from a batch
//! of records and read-only afterwards.

use vstd::prelude::*;
use crate::record::{Tree, TreeAge};
use crate::index::TreeBinTree;
use crate::sort::{sort_by_height, sort_trees, lemma_sort_by_height_properties};

verus! {

broadcast use vstd::multiset::group_multiset_axioms, vstd::seq_lib::group_to_multiset_ensures;

/// The valid records of `s` that carry age `age`, in input order.
/// Records with a zero height or trunk width are dropped here.
pub open spec fn partition(s: Seq<Tree>, age: TreeAge) -> Seq<Tree>
    decreases s.len(),
{
    if s.len() == 0 {
        Seq::empty()
    } else {
        let rest = partition(s.drop_last(), age);
        if s.last().is_valid() && s.last().age == age {
            rest.push(s.last())
        } else {
            rest
        }
    }
}

/// Inserting a sequence of records, from its last element down to its first.
pub open spec fn insert_all_rev(t: TreeBinTree, s: Seq<Tree>) -> TreeBinTree
    decreases s.len(),
{
    if s.len() == 0 {
        t
    } else {
        insert_all_rev(t.spec_insert(s.last()), s.drop_last())
    }
}

/// The index built for one non-empty category partition: sort by height
/// (stably), root the index at the median of the sorted sequence, then
/// insert the remainder from the back.
pub open spec fn build_category(s: Seq<Tree>) -> TreeBinTree
    recommends
        s.len() > 0,
{
    let sorted = sort_by_height(s);
    let mid = sorted.len() as int / 2;
    insert_all_rev(TreeBinTree::spec_new(sorted[mid]), sorted.remove(mid))
}

/// The whole catalog a batch of records determines.
pub open spec fn spec_prepare(s: Seq<Tree>) -> TreeTree {
    TreeTree {
        mature_trees: build_category(partition(s, TreeAge::Mature)),
        em_trees: build_category(partition(s, TreeAge::EarlyMature)),
        sm_trees: build_category(partition(s, TreeAge::SemiMature)),
        young_trees: build_category(partition(s, TreeAge::Young)),
    }
}

/// One height index per age category. Built exactly once; never mutated
/// afterwards.
#[derive(Debug)]
pub struct TreeTree {
    pub mature_trees: TreeBinTree,
    pub em_trees: TreeBinTree,
    pub sm_trees: TreeBinTree,
    pub young_trees: TreeBinTree,
}

impl TreeTree {
    /// The index that serves one age category.
    pub open spec fn tree_for(self, age: TreeAge) -> TreeBinTree {
        match age {
            TreeAge::Mature => self.mature_trees,
            TreeAge::EarlyMature => self.em_trees,
            TreeAge::SemiMature => self.sm_trees,
            TreeAge::Young => self.young_trees,
        }
    }

    /// All four indexes satisfy the ordering invariant.
    pub open spec fn wf(self) -> bool {
        &&& self.mature_trees.wf()
        &&& self.em_trees.wf()
        &&& self.sm_trees.wf()
        &&& self.young_trees.wf()
    }

    /// Returns the record with the smallest height in the category.
    pub fn get_min(&self, age: TreeAge) -> (r: Tree)
        requires
            self.wf(),
        ensures
            r == self.tree_for(age).leftmost(),
            self.tree_for(age).contents().contains(r),
            forall|t: Tree| self.tree_for(age).contents().contains(t) ==> r.height <= t.height,
    {
        match age {
            TreeAge::Mature => self.mature_trees.get_min(),
            TreeAge::EarlyMature => self.em_trees.get_min(),
            TreeAge::SemiMature => self.sm_trees.get_min(),
            TreeAge::Young => self.young_trees.get_min(),
        }
    }

    /// Returns the record with the greatest height in the category.
    pub fn get_max(&self, age: TreeAge) -> (r: Tree)
        requires
            self.wf(),
        ensures
            r == self.tree_for(age).rightmost(),
            self.tree_for(age).contents().contains(r),
            forall|t: Tree| self.tree_for(age).contents().contains(t) ==> r.height >= t.height,
    {
        match age {
            TreeAge::Mature => self.mature_trees.get_max(),
            TreeAge::EarlyMature => self.em_trees.get_max(),
            TreeAge::SemiMature => self.sm_trees.get_max(),
            TreeAge::Young => self.young_trees.get_max(),
        }
    }

    /// Counts the records indexed for the category.
    pub fn get_size(&self, age: TreeAge) -> (n: usize)
        requires
            self.tree_for(age).contents().len() <= usize::MAX,
        ensures
            n == self.tree_for(age).contents().len(),
    {
        match age {
            TreeAge::Mature => self.mature_trees.get_size(),
            TreeAge::EarlyMature => self.em_trees.get_size(),
            TreeAge::SemiMature => self.sm_trees.get_size(),
            TreeAge::Young => self.young_trees.get_size(),
        }
    }
}

/// Inserting a sequence back to front keeps the invariant and adds
/// exactly those records.
proof fn lemma_insert_all_rev(t: TreeBinTree, s: Seq<Tree>)
    requires
        t.wf(),
    ensures
        insert_all_rev(t, s).wf(),
        insert_all_rev(t, s).contents() == t.contents().add(s.to_multiset()),
    decreases s.len(),
{
    if s.len() == 0 {
        assert(insert_all_rev(t, s).contents() =~= t.contents().add(s.to_multiset()));
    } else {
        t.lemma_spec_insert(s.last());
        lemma_insert_all_rev(t.spec_insert(s.last()), s.drop_last());
        assert(s =~= s.drop_last().push(s.last()));
        assert(s.to_multiset() == s.drop_last().to_multiset().insert(s.last()));
        assert(insert_all_rev(t, s).contents() =~= t.contents().add(s.to_multiset()));
    }
}

/// The index built for a non-empty partition is well formed and holds
/// exactly the partition's records.
pub proof fn lemma_build_category_properties(s: Seq<Tree>)
    requires
        s.len() > 0,
    ensures
        build_category(s).wf(),
        build_category(s).contents() == s.to_multiset(),
{
    lemma_sort_by_height_properties(s);
    let sorted = sort_by_height(s);
    let mid = sorted.len() as int / 2;
    let root = sorted[mid];
    TreeBinTree::lemma_spec_new_properties(root);
    lemma_insert_all_rev(TreeBinTree::spec_new(root), sorted.remove(mid));
    assert(sorted.contains(root));
    assert(sorted.to_multiset().contains(root));
    assert(sorted.remove(mid).to_multiset() =~= sorted.to_multiset().remove(root));
    assert(build_category(s).contents() =~= s.to_multiset());
}

/// A partition never holds more records than the batch it came from.
pub proof fn lemma_partition_len(s: Seq<Tree>, age: TreeAge)
    ensures
        partition(s, age).len() <= s.len(),
    decreases s.len(),
{
    if s.len() > 0 {
        lemma_partition_len(s.drop_last(), age);
    }
}

/// Every record a partition keeps is valid and of the partition's category.
pub proof fn lemma_partition_elements(s: Seq<Tree>, age: TreeAge)
    ensures
        forall|i: int|
            0 <= i < partition(s, age).len() ==> (#[trigger] partition(s, age)[i]).is_valid()
                && partition(s, age)[i].age == age,
    decreases s.len(),
{
    if s.len() > 0 {
        lemma_partition_elements(s.drop_last(), age);
    }
}

/// Law: for any non-empty batch of records of one category, the built
/// index's leftmost record — what `get_min` returns — was in the batch,
/// and no record of the batch has a smaller height.
pub proof fn lemma_minimum_is_lower_bound(s: Seq<Tree>)
    requires
        s.len() > 0,
    ensures
        s.to_multiset().contains(build_category(s).leftmost()),
        forall|i: int|
            0 <= i < s.len() ==> build_category(s).leftmost().height <= (#[trigger] s[i]).height,
{
    lemma_build_category_properties(s);
    build_category(s).lemma_leftmost_is_min();
    assert forall|i: int|
        0 <= i < s.len() implies build_category(s).leftmost().height <= (
    #[trigger] s[i]).height by {
        assert(s.contains(s[i]));
        assert(s.to_multiset().contains(s[i]));
    }
}

/// Law: symmetrically, the index's rightmost record — what `get_max`
/// returns — was in the batch, and no record of the batch is taller.
pub proof fn lemma_maximum_is_upper_bound(s: Seq<Tree>)
    requires
        s.len() > 0,
    ensures
        s.to_multiset().contains(build_category(s).rightmost()),
        forall|i: int|
            0 <= i < s.len() ==> build_category(s).rightmost().height >= (#[trigger] s[i]).height,
{
    lemma_build_category_properties(s);
    build_category(s).lemma_rightmost_is_max();
    assert forall|i: int|
        0 <= i < s.len() implies build_category(s).rightmost().height >= (
    #[trigger] s[i]).height by {
        assert(s.contains(s[i]));
        assert(s.to_multiset().contains(s[i]));
    }
}

/// Law: the built index holds exactly as many records as were fed into
/// construction — what `get_size` returns.
pub proof fn lemma_size_is_input_count(s: Seq<Tree>)
    requires
        s.len() > 0,
    ensures
        build_category(s).contents().len() == s.len(),
{
    lemma_build_category_properties(s);
    assert(s.to_multiset().len() == s.len());
}

/// Law: construction is deterministic — two catalogs built from equal
/// batches, in the same order, are structurally identical.
pub proof fn lemma_prepare_deterministic(a: Seq<Tree>, b: Seq<Tree>)
    requires
        a == b,
    ensures
        spec_prepare(a) == spec_prepare(b),
{
}

/// Law: a record with a zero height or zero trunk width never reaches an
/// index, so no query can ever return one; nor can a record of another
/// category land in a category's index.
pub proof fn lemma_queries_see_only_valid_records(s: Seq<Tree>, age: TreeAge)
    requires
        partition(s, age).len() > 0,
    ensures
        forall|t: Tree|
            spec_prepare(s).tree_for(age).contents().contains(t) ==> t.is_valid() && t.age == age,
{
    lemma_build_category_properties(partition(s, age));
    lemma_partition_elements(s, age);
    assert forall|t: Tree|
        spec_prepare(s).tree_for(age).contents().contains(t) implies t.is_valid() && t.age
        == age by {
        assert(partition(s, age).to_multiset().contains(t));
        assert(partition(s, age).contains(t));
        let i = choose|i: int| 0 <= i < partition(s, age).len() && partition(s, age)[i] == t;
        assert(partition(s, age)[i].is_valid());
    }
}

/// Partitions a batch by age category, drops invalid records, and builds
/// the four indexes. The caller must make sure every category keeps at
/// least one valid record: an empty partition has no median to root an
/// index at, so a batch that leaves one is a fatal startup condition and
/// is excluded here.
pub fn prepare_tree(trees: Vec<Tree>) -> (tt: TreeTree)
    requires
        partition(trees@, TreeAge::Mature).len() > 0,
        partition(trees@, TreeAge::EarlyMature).len() > 0,
        partition(trees@, TreeAge::SemiMature).len() > 0,
        partition(trees@, TreeAge::Young).len() > 0,
    ensures
        tt == spec_prepare(trees@),
        tt.wf(),
        tt.mature_trees.contents() == partition(trees@, TreeAge::Mature).to_multiset(),
        tt.em_trees.contents() == partition(trees@, TreeAge::EarlyMature).to_multiset(),
        tt.sm_trees.contents() == partition(trees@, TreeAge::SemiMature).to_multiset(),
        tt.young_trees.contents() == partition(trees@, TreeAge::Young).to_multiset(),
{
    let mut m_trees: Vec<Tree> = Vec::new();
    let mut em_trees: Vec<Tree> = Vec::new();
    let mut sm_trees: Vec<Tree> = Vec::new();
    let mut y_trees: Vec<Tree> = Vec::new();

    proof {
        assert(trees@.take(0) =~= Seq::<Tree>::empty());
    }
    let mut i: usize = 0;
    while i < trees.len()
        invariant
            i <= trees@.len(),
            m_trees@ == partition(trees@.take(i as int), TreeAge::Mature),
            em_trees@ == partition(trees@.take(i as int), TreeAge::EarlyMature),
            sm_trees@ == partition(trees@.take(i as int), TreeAge::SemiMature),
            y_trees@ == partition(trees@.take(i as int), TreeAge::Young),
        decreases trees@.len() - i,
    {
        let tree = trees[i].duplicate();
        if !(tree.height == 0 || tree.trunk_width == 0) {
            match tree.age {
                TreeAge::Mature => m_trees.push(tree),
                TreeAge::EarlyMature => em_trees.push(tree),
                TreeAge::SemiMature => sm_trees.push(tree),
                TreeAge::Young => y_trees.push(tree),
            }
        }
        proof {
            assert(trees@.take(i + 1).drop_last() =~= trees@.take(i as int));
            assert(trees@.take(i + 1).last() == trees@[i as int]);
        }
        i = i + 1;
    }
    proof {
        assert(trees@.take(trees@.len() as int) =~= trees@);
        lemma_build_category_properties(partition(trees@, TreeAge::Mature));
        lemma_build_category_properties(partition(trees@, TreeAge::EarlyMature));
        lemma_build_category_properties(partition(trees@, TreeAge::SemiMature));
        lemma_build_category_properties(partition(trees@, TreeAge::Young));
    }
    TreeTree {
        mature_trees: build_index(m_trees),
        em_trees: build_index(em_trees),
        sm_trees: build_index(sm_trees),
        young_trees: build_index(y_trees),
    }
}

/// Builds the index for one category partition, already separated out.
fn build_index(records: Vec<Tree>) -> (t: TreeBinTree)
    requires
        records@.len() > 0,
    ensures
        t == build_category(records@),
{
    proof {
        lemma_sort_by_height_properties(records@);
    }
    let mut sorted = sort_trees(&records);
    let mid = sorted.len() / 2;
    let root = sorted.remove(mid);
    let mut tree = TreeBinTree::new(root);
    while sorted.len() > 0
        invariant
            insert_all_rev(tree, sorted@) == build_category(records@),
        decreases sorted@.len(),
    {
        let ghost prev_tree = tree;
        let ghost prev_rest = sorted@;
        let element = sorted.pop().unwrap();
        tree.insert(element);
        proof {
            assert(sorted@ =~= prev_rest.drop_last());
            assert(insert_all_rev(tree, sorted@) == insert_all_rev(prev_tree, prev_rest));
        }
    }
    tree
}

} // verus!
