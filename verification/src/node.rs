//! The split criterion and the node slot of a fitted tree.

use vstd::prelude::*;

verus! {

/// A split criterion: a numeric threshold or a category.
///
/// A numeric value is a 64-bit integer. A caller whose feature is fractional
/// passes each number as an integer code that keeps the order of the numbers;
/// thresholds come back in the same code.
#[derive(Clone, Debug)]
pub enum SplitValue {
    Numeric(i64),
    Str(String),
}

/// What a `SplitValue` stands for in contracts.
pub enum SplitSpec {
    Numeric(int),
    Str(Seq<char>),
}

impl View for SplitValue {
    type V = SplitSpec;

    open spec fn view(&self) -> SplitSpec {
        match self {
            SplitValue::Numeric(v) => SplitSpec::Numeric(*v as int),
            SplitValue::Str(s) => SplitSpec::Str(s@),
        }
    }
}

impl SplitValue {
    /// A second value that stands for the same as this one.
    pub fn duplicate(&self) -> (copy: SplitValue)
        ensures
            copy@ == self@,
    {
        match self {
            SplitValue::Numeric(x) => SplitValue::Numeric(*x),
            SplitValue::Str(s) => SplitValue::Str(s.clone()),
        }
    }
}

impl PartialEq for SplitValue {
    /// Two split values are equal when they are of the same kind and hold the
    /// same number or the same text.
    fn eq(&self, other: &SplitValue) -> (r: bool) {
        match self {
            SplitValue::Numeric(a) => match other {
                SplitValue::Numeric(b) => *a == *b,
                SplitValue::Str(_) => false,
            },
            SplitValue::Str(a) => match other {
                SplitValue::Numeric(_) => false,
                SplitValue::Str(b) => a.eq(b),
            },
        }
    }
}

impl vstd::std_specs::cmp::PartialEqSpecImpl for SplitValue {
    open spec fn obeys_eq_spec() -> bool {
        true
    }

    open spec fn eq_spec(&self, other: &SplitValue) -> bool {
        self@ == other@
    }
}

/// One slot of the node array.
///
/// A slot with an empty `col_name` is unused: it stands for a leaf, and its
/// other fields mean nothing.
#[derive(Clone, Debug)]
pub struct TreeNode {
    pub col_name: String,
    pub split_value: SplitValue,
    pub true_branch: i32,
    pub false_branch: i32,
}

/// What a `TreeNode` stands for in contracts.
pub struct NodeSpec {
    pub col_name: Seq<char>,
    pub split_value: SplitSpec,
    pub true_branch: int,
    pub false_branch: int,
}

/// The unused slot: no feature, threshold 0, no children.
pub open spec fn empty_node() -> NodeSpec {
    NodeSpec {
        col_name: Seq::empty(),
        split_value: SplitSpec::Numeric(0),
        true_branch: -1,
        false_branch: -1,
    }
}

impl View for TreeNode {
    type V = NodeSpec;

    open spec fn view(&self) -> NodeSpec {
        NodeSpec {
            col_name: self.col_name@,
            split_value: self.split_value@,
            true_branch: self.true_branch as int,
            false_branch: self.false_branch as int,
        }
    }
}

impl TreeNode {
    /// An unused slot.
    pub fn new() -> (node: TreeNode)
        ensures
            node@ == empty_node(),
    {
        TreeNode {
            col_name: String::new(),
            split_value: SplitValue::Numeric(0),
            true_branch: -1,
            false_branch: -1,
        }
    }

    /// Whether the slot records a split.
    pub fn is_split(&self) -> (r: bool)
        ensures
            r == (self@.col_name.len() > 0),
    {
        !self.col_name.as_str().is_empty()
    }
}

} // verus!
