//! An unbalanced binary search index over tree records, ordered by height.
//!
//! Ties on height go to the left subtree. No rebalancing and no deletion:
//! the index is built once and only read afterwards.

use vstd::prelude::*;
use vstd::multiset::Multiset;
use crate::record::Tree;

verus! {

broadcast use vstd::multiset::group_multiset_axioms;

/// A non-empty binary search index over records keyed by `height`.
///
/// Invariant (`wf`): every record in a node's left subtree has a height
/// at most the node's, every record in its right subtree a strictly
/// greater height.
#[derive(Debug)]
pub struct TreeBinTree {
    data: Tree,
    left: Option<Box<TreeBinTree>>,
    right: Option<Box<TreeBinTree>>,
}

impl TreeBinTree {
    /// The multiset of records held under an optional subtree.
    pub closed spec fn optional_contents(o: Option<Box<TreeBinTree>>) -> Multiset<Tree>
        decreases o,
    {
        match o {
            None => Multiset::empty(),
            Some(n) => n.contents(),
        }
    }

    /// The multiset of records held in this index.
    pub closed spec fn contents(self) -> Multiset<Tree>
        decreases self,
    {
        Self::optional_contents(self.left).add(Self::optional_contents(self.right)).insert(
            self.data,
        )
    }

    /// The ordering invariant: heights in the left subtree are at most the
    /// node's height, heights in the right subtree strictly greater.
    pub closed spec fn wf(self) -> bool
        decreases self,
    {
        &&& forall|t: Tree|
            Self::optional_contents(self.left).contains(t) ==> t.height <= self.data.height
        &&& forall|t: Tree|
            Self::optional_contents(self.right).contains(t) ==> t.height > self.data.height
        &&& match self.left {
            Some(l) => l.wf(),
            None => true,
        }
        &&& match self.right {
            Some(r) => r.wf(),
            None => true,
        }
    }

    /// The singleton index holding one record.
    pub closed spec fn spec_new(data: Tree) -> TreeBinTree {
        TreeBinTree { data, left: None, right: None }
    }

    /// What inserting into an optional subtree yields.
    pub closed spec fn spec_insert_opt(o: Option<Box<TreeBinTree>>, value: Tree) -> Option<
        Box<TreeBinTree>,
    >
        decreases o,
    {
        match o {
            None => Some(Box::new(Self::spec_new(value))),
            Some(n) => Some(Box::new(n.spec_insert(value))),
        }
    }

    /// Standard binary-search-tree insertion keyed on height, with ties
    /// going left.
    pub closed spec fn spec_insert(self, value: Tree) -> TreeBinTree
        decreases self,
    {
        if value.height > self.data.height {
            TreeBinTree { right: Self::spec_insert_opt(self.right, value), ..self }
        } else {
            TreeBinTree { left: Self::spec_insert_opt(self.left, value), ..self }
        }
    }

    /// The record at the end of the chain of left children.
    pub closed spec fn leftmost(self) -> Tree
        decreases self,
    {
        match self.left {
            Some(l) => l.leftmost(),
            None => self.data,
        }
    }

    /// The record at the end of the chain of right children.
    pub closed spec fn rightmost(self) -> Tree
        decreases self,
    {
        match self.right {
            Some(r) => r.rightmost(),
            None => self.data,
        }
    }

    /// Builds the singleton index holding `data`.
    pub fn new(data: Tree) -> (r: TreeBinTree)
        ensures
            r == Self::spec_new(data),
            r.wf(),
            r.contents() == Multiset::empty().insert(data),
    {
        proof {
            assert(Self::spec_new(data).contents() =~= Multiset::empty().insert(data));
        }
        TreeBinTree { data, left: None, right: None }
    }

    fn insert_into_optional(node: &mut Option<Box<TreeBinTree>>, value: Tree)
        ensures
            *final(node) == Self::spec_insert_opt(*old(node), value),
        decreases *old(node),
    {
        match node.take() {
            None => {
                *node = Some(Box::new(TreeBinTree::new(value)));
            },
            Some(mut boxed_node) => {
                (&mut *boxed_node).insert(value);
                *node = Some(boxed_node);
            },
        }
    }

    /// Inserts one record, preserving the ordering invariant.
    pub fn insert(&mut self, value: Tree)
        ensures
            *final(self) == old(self).spec_insert(value),
        decreases *old(self),
    {
        if value.height > self.data.height {
            Self::insert_into_optional(&mut self.right, value);
        } else {
            Self::insert_into_optional(&mut self.left, value);
        }
    }

    /// Returns a copy of the record with the smallest height.
    pub fn get_min(&self) -> (r: Tree)
        requires
            self.wf(),
        ensures
            r == self.leftmost(),
            self.contents().contains(r),
            forall|t: Tree| self.contents().contains(t) ==> r.height <= t.height,
        decreases *self,
    {
        proof {
            self.lemma_leftmost_is_min();
        }
        match &self.left {
            Some(l) => l.get_min(),
            None => self.data.duplicate(),
        }
    }

    /// Returns a copy of the record with the greatest height.
    pub fn get_max(&self) -> (r: Tree)
        requires
            self.wf(),
        ensures
            r == self.rightmost(),
            self.contents().contains(r),
            forall|t: Tree| self.contents().contains(t) ==> r.height >= t.height,
        decreases *self,
    {
        proof {
            self.lemma_rightmost_is_max();
        }
        match &self.right {
            Some(r) => r.get_max(),
            None => self.data.duplicate(),
        }
    }

    /// Counts the records held, by recursive traversal.
    pub fn get_size(&self) -> (n: usize)
        requires
            self.contents().len() <= usize::MAX,
        ensures
            n == self.contents().len(),
        decreases *self,
    {
        let l_size: usize = match &self.left {
            Some(t) => t.get_size(),
            None => 0,
        };
        let r_size: usize = match &self.right {
            Some(t) => t.get_size(),
            None => 0,
        };
        1 + r_size + l_size
    }

    /// In a well-formed index the leftmost record is in the contents and
    /// no record has a smaller height.
    pub proof fn lemma_leftmost_is_min(self)
        requires
            self.wf(),
        ensures
            self.contents().contains(self.leftmost()),
            forall|t: Tree| self.contents().contains(t) ==> self.leftmost().height <= t.height,
        decreases self,
    {
        match self.left {
            Some(l) => {
                l.lemma_leftmost_is_min();
                assert(self.leftmost() == l.leftmost());
                assert(Self::optional_contents(self.left) == l.contents());
                assert(self.contents().contains(self.leftmost()));
                assert(self.leftmost().height <= self.data.height);
                assert forall|t: Tree| self.contents().contains(t) implies self.leftmost().height
                    <= t.height by {
                    if Self::optional_contents(self.left).contains(t) {
                    } else if Self::optional_contents(self.right).contains(t) {
                        assert(t.height > self.data.height);
                    } else {
                        assert(t == self.data);
                    }
                }
            },
            None => {
                assert(self.leftmost() == self.data);
                assert forall|t: Tree| self.contents().contains(t) implies self.leftmost().height
                    <= t.height by {
                    if Self::optional_contents(self.left).contains(t) {
                        assert(false);
                    } else if Self::optional_contents(self.right).contains(t) {
                        assert(t.height > self.data.height);
                    } else {
                        assert(t == self.data);
                    }
                }
            },
        }
    }

    /// In a well-formed index the rightmost record is in the contents and
    /// no record has a greater height.
    pub proof fn lemma_rightmost_is_max(self)
        requires
            self.wf(),
        ensures
            self.contents().contains(self.rightmost()),
            forall|t: Tree| self.contents().contains(t) ==> self.rightmost().height >= t.height,
        decreases self,
    {
        match self.right {
            Some(r) => {
                r.lemma_rightmost_is_max();
                assert(self.rightmost() == r.rightmost());
                assert(Self::optional_contents(self.right) == r.contents());
                assert(self.contents().contains(self.rightmost()));
                assert(self.rightmost().height > self.data.height);
                assert forall|t: Tree| self.contents().contains(t) implies self.rightmost().height
                    >= t.height by {
                    if Self::optional_contents(self.right).contains(t) {
                    } else if Self::optional_contents(self.left).contains(t) {
                        assert(t.height <= self.data.height);
                    } else {
                        assert(t == self.data);
                    }
                }
            },
            None => {
                assert(self.rightmost() == self.data);
                assert forall|t: Tree| self.contents().contains(t) implies self.rightmost().height
                    >= t.height by {
                    if Self::optional_contents(self.right).contains(t) {
                        assert(false);
                    } else if Self::optional_contents(self.left).contains(t) {
                        assert(t.height <= self.data.height);
                    } else {
                        assert(t == self.data);
                    }
                }
            },
        }
    }

    /// Insertion preserves the ordering invariant and adds exactly the new
    /// record to the contents.
    pub proof fn lemma_spec_insert(self, value: Tree)
        requires
            self.wf(),
        ensures
            self.spec_insert(value).wf(),
            self.spec_insert(value).contents() == self.contents().insert(value),
        decreases self,
    {
        let res = self.spec_insert(value);
        Self::lemma_spec_new_properties(value);
        if value.height > self.data.height {
            assert(res.left == self.left && res.data == self.data);
            match self.right {
                Some(r) => {
                    r.lemma_spec_insert(value);
                    assert(Self::optional_contents(res.right) == r.contents().insert(value));
                },
                None => {
                    assert(Self::optional_contents(res.right) == Self::spec_new(
                        value,
                    ).contents());
                },
            }
            assert(Self::optional_contents(res.right) =~= Self::optional_contents(
                self.right,
            ).insert(value));
            assert forall|t: Tree| Self::optional_contents(res.right).contains(t) implies t.height
                > res.data.height by {
                if Self::optional_contents(self.right).contains(t) {
                } else {
                    assert(t == value);
                }
            }
            assert(res.wf());
            assert(res.contents() =~= self.contents().insert(value));
        } else {
            assert(res.right == self.right && res.data == self.data);
            match self.left {
                Some(l) => {
                    l.lemma_spec_insert(value);
                    assert(Self::optional_contents(res.left) == l.contents().insert(value));
                },
                None => {
                    assert(Self::optional_contents(res.left) == Self::spec_new(value).contents());
                },
            }
            assert(Self::optional_contents(res.left) =~= Self::optional_contents(
                self.left,
            ).insert(value));
            assert forall|t: Tree| Self::optional_contents(res.left).contains(t) implies t.height
                <= res.data.height by {
                if Self::optional_contents(self.left).contains(t) {
                } else {
                    assert(t == value);
                }
            }
            assert(res.wf());
            assert(res.contents() =~= self.contents().insert(value));
        }
    }

    /// The singleton index is well formed and holds exactly its record.
    pub proof fn lemma_spec_new_properties(data: Tree)
        ensures
            Self::spec_new(data).wf(),
            Self::spec_new(data).contents() == Multiset::empty().insert(data),
    {
        assert(Self::spec_new(data).contents() =~= Multiset::empty().insert(data));
    }
}

} // verus!
