//! The settings of a tree and the gain that ranks its splits.

use crate::summary::Summary;
use vstd::prelude::*;

verus! {

/// The measure by which the two arms of a set of rows are held apart.
#[derive(Clone, Copy, Debug, PartialEq, Eq, Structural)]
pub enum EvalFunc {
    /// The squared difference of the two arms' outcome rates.
    Euclidiean,
}

/// The settings of a tree.
#[derive(Clone, Copy, Debug, PartialEq, Eq, Structural)]
pub struct Params {
    /// The number of levels on which a node may be split; the root is on
    /// level 0.
    pub max_depth: i32,
    /// Each side of a split has more rows than this.
    pub min_sample_leaf: i32,
    /// The number of features tried at a node.
    pub feature_sample_size: i32,
    /// The measure handed to the gain.
    pub eval_func: EvalFunc,
    /// Up to this many different values of a feature are all tried; of more,
    /// a choice is tried.
    pub max_splits: i32,
}

impl Params {
    /// The settings that a tree can have.
    pub open spec fn wf(&self) -> bool {
        &&& 1 <= self.max_depth <= 31
        &&& self.min_sample_leaf >= 0
        &&& self.feature_sample_size >= 1
        &&& self.max_splits >= 1
    }
}

/// What a gain is computed from: the measure, the summaries of the rows at a
/// node, of those that go left and of those that go right, the number of rows
/// that go left, and the number of rows at the node.
pub type GainArgs = (EvalFunc, Summary, Summary, Summary, usize, usize);

/// The arguments on which a gain is asked for: each arm of each summary has a
/// row, and the numbers of rows fit the summaries.
pub open spec fn sound_args(args: GainArgs) -> bool {
    &&& args.1.n_c >= 1
    &&& args.1.n_t >= 1
    &&& args.2.n_c >= 1
    &&& args.2.n_t >= 1
    &&& args.3.n_c >= 1
    &&& args.3.n_t >= 1
    &&& args.4 == args.2.n_c + args.2.n_t
    &&& args.5 == args.1.n_c + args.1.n_t
    &&& args.5 == args.4 + args.3.n_c + args.3.n_t
}

/// Whether `gain` can be called on all sound arguments.
pub open spec fn accepts_sound<G: Fn(EvalFunc, Summary, Summary, Summary, usize, usize) -> i64>(
    gain: G,
) -> bool {
    forall|args: GainArgs| sound_args(args) ==> call_requires(gain, args)
}

/// Whether `gain` returns one value only for given arguments.
pub open spec fn is_function<G: Fn(EvalFunc, Summary, Summary, Summary, usize, usize) -> i64>(
    gain: G,
) -> bool {
    forall|args: GainArgs, a: i64, b: i64|
        call_ensures(gain, args, a) && call_ensures(gain, args, b) ==> a == b
}

/// The value that `gain` returns for given arguments.
pub open spec fn gain_fn<G: Fn(EvalFunc, Summary, Summary, Summary, usize, usize) -> i64>(
    gain: G,
) -> spec_fn(GainArgs) -> i64 {
    |args: GainArgs| choose|k: i64| call_ensures(gain, args, k)
}

/// Asks `gain` for its value on sound arguments.
pub fn ask<G: Fn(EvalFunc, Summary, Summary, Summary, usize, usize) -> i64>(
    gain: &G,
    eval_func: EvalFunc,
    parent: Summary,
    left: Summary,
    right: Summary,
    left_rows: usize,
    rows: usize,
) -> (k: i64)
    requires
        accepts_sound(*gain),
        is_function(*gain),
        sound_args((eval_func, parent, left, right, left_rows, rows)),
    ensures
        k == gain_fn(*gain)((eval_func, parent, left, right, left_rows, rows)),
{
    gain(eval_func, parent, left, right, left_rows, rows)
}

} // verus!
