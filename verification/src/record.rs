//! The tree record and its age category.

use vstd::prelude::*;
use vstd::string::StrSliceExecFns;

verus! {

/// One of the four life-stage tags that partition the records.
#[derive(Clone, Copy, Debug, PartialEq, Eq, Structural)]
pub enum TreeAge {
    Mature,
    EarlyMature,
    SemiMature,
    Young,
}

/// A single tree observation. Immutable once created.
#[derive(Clone, Debug)]
pub struct Tree {
    pub id: u32,
    pub age: TreeAge,
    pub trunk_width: u32,
    pub ward: String,
    pub species: String,
    pub height: u32,
}

impl Tree {
    /// A record with a zero height or a zero trunk width stands for a
    /// missing measurement and is excluded before indexing.
    pub open spec fn is_valid(self) -> bool {
        self.height > 0 && self.trunk_width > 0
    }

    /// An explicit field-by-field copy, equal to the original.
    pub fn duplicate(&self) -> (r: Tree)
        ensures
            r == *self,
    {
        Tree {
            id: self.id,
            age: self.age,
            trunk_width: self.trunk_width,
            ward: self.ward.clone(),
            species: self.species.clone(),
            height: self.height,
        }
    }
}

/// The category tag a request path names, if any. The match is exact and
/// case-sensitive; every other string means "no such category".
pub open spec fn spec_parse_age(s: Seq<char>) -> Option<TreeAge> {
    if s == "young"@ {
        Some(TreeAge::Young)
    } else if s == "mature"@ {
        Some(TreeAge::Mature)
    } else if s == "earlymature"@ {
        Some(TreeAge::EarlyMature)
    } else if s == "semimature"@ {
        Some(TreeAge::SemiMature)
    } else {
        None
    }
}

/// Maps a request's category string to its age category, or `None` when
/// the string names no category (the transport answers "not found" then).
pub fn parse_age(s: &str) -> (r: Option<TreeAge>)
    ensures
        r == spec_parse_age(s@),
{
    if str_equal(s, "young") {
        Some(TreeAge::Young)
    } else if str_equal(s, "mature") {
        Some(TreeAge::Mature)
    } else if str_equal(s, "earlymature") {
        Some(TreeAge::EarlyMature)
    } else if str_equal(s, "semimature") {
        Some(TreeAge::SemiMature)
    } else {
        None
    }
}

/// Character-by-character string equality.
fn str_equal(a: &str, b: &str) -> (r: bool)
    ensures
        r == (a@ == b@),
{
    let a_len = a.unicode_len();
    let b_len = b.unicode_len();
    if a_len != b_len {
        return false;
    }
    let mut i: usize = 0;
    while i < a_len
        invariant
            i <= a_len,
            a_len == a@.len(),
            b_len == b@.len(),
            a_len == b_len,
            forall|k: int| 0 <= k < i ==> a@[k] == b@[k],
        decreases a_len - i,
    {
        if a.get_char(i) != b.get_char(i) {
            return false;
        }
        i = i + 1;
    }
    proof {
        assert(a@ =~= b@);
    }
    true
}

} // verus!
