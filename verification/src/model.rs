//! The uplift tree: its settings, its node array, and how it is grown.

use crate::dataset::{data_spec, every_row, fit_error, DataSpec, Dataset, FitError};
use crate::node::{empty_node, NodeSpec, SplitSpec, TreeNode};
use crate::params::{accepts_sound, gain_fn, is_function, EvalFunc, GainArgs, Params};
use crate::partition::lemma_partition_complete;
use crate::search::{best_split, Search};
use crate::summary::Summary;
use crate::table::Table;
use vstd::arithmetic::power2::{lemma2_to64, lemma_pow2_strictly_increases, lemma_pow2_unfold, pow2};
use vstd::prelude::*;

verus! {

/// What an `UpliftTreeModel` stands for in contracts.
pub struct ModelSpec {
    pub params: Params,
    /// The node array. The children of the node in slot `i` have the slots
    /// `2 * i + 1` (true branch) and `2 * i + 2` (false branch).
    pub nodes: Seq<NodeSpec>,
    pub treatment_col: Seq<char>,
    pub outcome_col: Seq<char>,
    pub feature_cols: Seq<Seq<char>>,
}

/// Whether the branches of the node in slot `k` are as the layout of the
/// array asks: each is -1, or the slot of that child, which the array has.
pub open spec fn slot_ok(nodes: Seq<NodeSpec>, k: int) -> bool {
    &&& nodes[k].true_branch == -1 || (nodes[k].true_branch == 2 * k + 1 && 2 * k + 1
        < nodes.len())
    &&& nodes[k].false_branch == -1 || (nodes[k].false_branch == 2 * k + 2 && 2 * k + 2
        < nodes.len())
}

/// Whether every slot of the array has branches as its layout asks.
pub open spec fn slots_ok(nodes: Seq<NodeSpec>) -> bool {
    forall|k: int| 0 <= k < nodes.len() ==> slot_ok(nodes, k)
}

impl ModelSpec {
    /// The invariant of a model: settings that a tree can have, an array of
    /// `2^(max_depth - 1)` slots, and branches as the layout of the array
    /// asks.
    pub open spec fn wf(&self) -> bool {
        &&& self.params.wf()
        &&& self.nodes.len() == pow2((self.params.max_depth - 1) as nat)
        &&& self.nodes.len() <= 0x4000_0000
        &&& slots_ok(self.nodes)
    }
}

/// The model before it is fitted: every slot unused, no column named.
pub open spec fn unfitted(params: Params) -> ModelSpec {
    ModelSpec {
        params,
        nodes: Seq::new(pow2((params.max_depth - 1) as nat), |k: int| empty_node()),
        treatment_col: Seq::empty(),
        outcome_col: Seq::empty(),
        feature_cols: Seq::empty(),
    }
}

/// What a tree is grown from: the data, the settings, the gain of a split
/// from its summaries, and the seed of what is drawn.
pub struct Plan {
    pub data: DataSpec,
    pub params: Params,
    pub score: spec_fn(GainArgs) -> i64,
    pub seed: u64,
}

impl Plan {
    /// The search made for the node in slot `node` on `rows`.
    pub open spec fn search(&self, node: nat, rows: Seq<usize>) -> Search {
        Search {
            data: self.data,
            params: self.params,
            score: self.score,
            seed: self.seed,
            node,
            rows,
        }
    }

    /// The column of the split that the search finds.
    pub open spec fn split_column(&self, node: nat, rows: Seq<usize>) -> usize {
        let s = self.search(node, rows);
        s.picks()[s.best().unwrap().0]
    }

    /// The value of the split that the search finds.
    pub open spec fn split_value(&self, node: nat, rows: Seq<usize>) -> SplitSpec {
        let s = self.search(node, rows);
        s.values(s.best().unwrap().0)[s.best().unwrap().1]
    }

    /// The rows that go left by the split that the search finds.
    pub open spec fn left(&self, node: nat, rows: Seq<usize>) -> Seq<usize> {
        self.data.left_rows(self.split_column(node, rows), self.split_value(node, rows), rows)
    }

    /// The rows that go right by the split that the search finds.
    pub open spec fn right(&self, node: nat, rows: Seq<usize>) -> Seq<usize> {
        self.data.right_rows(self.split_column(node, rows), self.split_value(node, rows), rows)
    }

    /// Whether the node in slot `node` is split: it is not at the depth
    /// `max_depth` or deeper, the array has its slot, and the search finds a
    /// split.
    pub open spec fn splits(&self, nodes: Seq<NodeSpec>, rows: Seq<usize>, node: nat, depth: int) -> bool {
        depth < self.params.max_depth && node < nodes.len() && self.search(node, rows).best().is_some()
    }

    /// The node array after the tree has been grown from slot `node` on
    /// `rows`, and the slot's index where it was split, else -1.
    ///
    /// Where the node is not split, the array stays as it is. Else the true
    /// branch is grown on the rows that go left, then the false branch on the
    /// rows that go right, and the split is recorded in the slot with what
    /// the two returned.
    pub open spec fn grown(&self, nodes: Seq<NodeSpec>, rows: Seq<usize>, node: nat, depth: int) -> (
        Seq<NodeSpec>,
        int,
    )
        decreases self.params.max_depth - depth,
    {
        if !self.splits(nodes, rows, node, depth) {
            (nodes, -1)
        } else {
            let left = self.grown(nodes, self.left(node, rows), 2 * node + 1, depth + 1);
            let right = self.grown(left.0, self.right(node, rows), 2 * node + 2, depth + 1);
            (
                right.0.update(
                    node as int,
                    NodeSpec {
                        col_name: self.data.table.spec_name(self.split_column(node, rows) as int),
                        split_value: self.split_value(node, rows),
                        true_branch: left.1,
                        false_branch: right.1,
                    },
                ),
                node as int,
            )
        }
    }
}

/// The names of the given columns.
pub open spec fn names_of(table: Table, columns: Seq<usize>) -> Seq<Seq<char>> {
    Seq::new(columns.len(), |i: int| table.spec_name(columns[i] as int))
}

/// The model after a fit that no error stops: the columns are named, and the
/// tree is grown from the root on all the rows of the table.
pub open spec fn fitted(
    model: ModelSpec,
    table: Table,
    treatment: Seq<char>,
    outcome: Seq<char>,
    seed: u64,
    score: spec_fn(GainArgs) -> i64,
) -> ModelSpec {
    let data = data_spec(table, treatment, outcome);
    let plan = Plan { data, params: model.params, score, seed };
    ModelSpec {
        params: model.params,
        nodes: plan.grown(model.nodes, every_row(table.spec_height()), 0, 0).0,
        treatment_col: treatment,
        outcome_col: outcome,
        feature_cols: names_of(table, data.features),
    }
}

/// An uplift tree: a binary tree whose splits hold apart the rows on which
/// the treatment changes the outcome in different ways.
#[derive(Debug)]
pub struct UpliftTreeModel {
    nodes: Vec<TreeNode>,
    params: Params,
    treatment_col: String,
    outcome_col: String,
    feature_cols: Vec<String>,
}

impl View for UpliftTreeModel {
    type V = ModelSpec;

    closed spec fn view(&self) -> ModelSpec {
        ModelSpec {
            params: self.params,
            nodes: Seq::new(self.nodes@.len(), |k: int| self.nodes@[k]@),
            treatment_col: self.treatment_col@,
            outcome_col: self.outcome_col@,
            feature_cols: Seq::new(self.feature_cols@.len(), |k: int| self.feature_cols@[k]@),
        }
    }
}

impl UpliftTreeModel {
    /// A model that has not been fitted.
    ///
    /// The node array has `2^(max_depth - 1)` unused slots. The depth is at
    /// most 31, so that every slot has an index of 32 bits.
    pub fn new(
        max_depth: i32,
        min_sample_leaf: i32,
        feature_sample_size: i32,
        eval_func: EvalFunc,
        max_splits: i32,
    ) -> (model: UpliftTreeModel)
        requires
            1 <= max_depth <= 31,
            min_sample_leaf >= 0,
            feature_sample_size >= 1,
            max_splits >= 1,
        ensures
            model@.wf(),
            model@ == unfitted(
                Params { max_depth, min_sample_leaf, feature_sample_size, eval_func, max_splits },
            ),
    {
        let mut slots: usize = 1;
        let mut level: i32 = 1;
        proof {
            lemma2_to64();
        }
        while level < max_depth
            invariant
                1 <= level <= max_depth <= 31,
                slots == pow2((level - 1) as nat),
                slots <= 0x4000_0000,
            decreases max_depth - level,
        {
            proof {
                lemma_pow2_unfold(level as nat);
                lemma2_to64();
                if level < 30 {
                    lemma_pow2_strictly_increases(level as nat, 30);
                }
            }
            slots = slots * 2;
            level += 1;
        }
        let mut nodes: Vec<TreeNode> = Vec::new();
        let mut k: usize = 0;
        while k < slots
            invariant
                k <= slots,
                nodes@.len() == k,
                forall|i: int| 0 <= i < k ==> nodes@[i]@ == empty_node(),
            decreases slots - k,
        {
            nodes.push(TreeNode::new());
            k += 1;
        }
        let model = UpliftTreeModel {
            nodes,
            params: Params { max_depth, min_sample_leaf, feature_sample_size, eval_func, max_splits },
            treatment_col: String::new(),
            outcome_col: String::new(),
            feature_cols: Vec::new(),
        };
        assert(model@.nodes =~= unfitted(model.params).nodes);
        assert(model@.feature_cols =~= unfitted(model.params).feature_cols);
        model
    }

    /// The settings.
    pub fn params(&self) -> (params: Params)
        ensures
            params == self@.params,
    {
        self.params
    }

    /// The node array.
    pub fn nodes(&self) -> (nodes: &Vec<TreeNode>)
        ensures
            nodes@.len() == self@.nodes.len(),
            forall|k: int| 0 <= k < nodes@.len() ==> nodes@[k]@ == self@.nodes[k],
    {
        &self.nodes
    }

    /// The name of the treatment column; empty before a fit.
    pub fn treatment_col(&self) -> (name: &String)
        ensures
            name@ == self@.treatment_col,
    {
        &self.treatment_col
    }

    /// The name of the outcome column; empty before a fit.
    pub fn outcome_col(&self) -> (name: &String)
        ensures
            name@ == self@.outcome_col,
    {
        &self.outcome_col
    }

    /// The names of the feature columns, in table order; none before a fit.
    pub fn feature_cols(&self) -> (names: &Vec<String>)
        ensures
            names@.len() == self@.feature_cols.len(),
            forall|k: int| 0 <= k < names@.len() ==> names@[k]@ == self@.feature_cols[k],
    {
        &self.feature_cols
    }

    /// Grows the tree from the slot `cur_idx`, at the depth `depth`, on
    /// `rows`, and returns `cur_idx` where the slot was split, else -1.
    ///
    /// Nothing is done at the depth `max_depth` or deeper, for a slot that the
    /// array does not have, or where `best_split` finds no split: the array is
    /// then as it was. Else the split is recorded in the slot, with what
    /// growing the true branch on the rows that go left, and then the false
    /// branch on the rows that go right, returned.
    pub fn build<G: Fn(EvalFunc, Summary, Summary, Summary, usize, usize) -> i64>(
        &mut self,
        data: &Dataset,
        rows: &Vec<usize>,
        cur_idx: usize,
        depth: i32,
        seed: u64,
        gain: &G,
    ) -> (r: i32)
        requires
            old(self)@.wf(),
            data@.wf(),
            data@.rows_ok(rows@),
            accepts_sound(*gain),
            is_function(*gain),
        ensures
            final(self)@.wf(),
            (final(self)@.nodes, r as int) == (Plan {
                data: data@,
                params: old(self)@.params,
                score: gain_fn(*gain),
                seed,
            }).grown(old(self)@.nodes, rows@, cur_idx as nat, depth as int),
            r != -1 ==> data@.is_feature(
                (Plan {
                    data: data@,
                    params: old(self)@.params,
                    score: gain_fn(*gain),
                    seed,
                }).split_column(cur_idx as nat, rows@),
            ),
            final(self)@.params == old(self)@.params,
            final(self)@.treatment_col == old(self)@.treatment_col,
            final(self)@.outcome_col == old(self)@.outcome_col,
            final(self)@.feature_cols == old(self)@.feature_cols,
            r == -1 || (r == cur_idx && cur_idx < old(self)@.nodes.len() && depth
                < old(self)@.params.max_depth),
            r == -1 ==> final(self)@.nodes == old(self)@.nodes,
            r != -1 ==> final(self)@.nodes[cur_idx as int].col_name.len() > 0,
        decreases old(self)@.params.max_depth - depth,
    {
        if depth >= self.params.max_depth || cur_idx >= self.nodes.len() {
            return -1;
        }
        let params = self.params;
        let found = best_split(data, &params, rows, cur_idx, seed, gain);
        match found {
            None => -1,
            Some(best) => {
                proof {
                    lemma_partition_complete(data@, best.column, best.value@, rows@);
                }
                let name = data.table().name(best.column).clone();
                proof {
                    data@.table.lemma_names_not_empty(best.column as int);
                }
                let true_branch = self.build(data, &best.left, 2 * cur_idx + 1, depth + 1, seed, gain);
                let false_branch = self.build(
                    data,
                    &best.right,
                    2 * cur_idx + 2,
                    depth + 1,
                    seed,
                    gain,
                );
                let ghost before = self@.nodes;
                let node = TreeNode {
                    col_name: name,
                    split_value: best.value,
                    true_branch,
                    false_branch,
                };
                self.nodes[cur_idx] = node;
                proof {
                    assert(self@.nodes =~= before.update(cur_idx as int, node@));
                    assert forall|k: int| 0 <= k < self@.nodes.len() implies slot_ok(
                        self@.nodes,
                        k,
                    ) by {
                        if k != cur_idx {
                            assert(slot_ok(before, k));
                        }
                    }
                }
                cur_idx as i32
            },
        }
    }

    /// Fits the model to a table.
    ///
    /// Every column of the table but the treatment and the outcome column is
    /// a feature. The fit is refused, and the model left as it was, for the
    /// first of these reasons that holds: there are fewer features than are
    /// to be sampled at a node; a feature is neither numeric nor text; the
    /// table has no treatment or no outcome column; one of the two is not
    /// numeric. Else the columns are named in the model and the tree is grown
    /// from the root on all the rows.
    ///
    /// `gain` ranks the splits: the greater, the better, and a split is made
    /// only for a positive gain. `seed` fixes what is drawn at random.
    pub fn fit<G: Fn(EvalFunc, Summary, Summary, Summary, usize, usize) -> i64>(
        &mut self,
        table: &Table,
        treatment_col: String,
        outcome_col: String,
        seed: u64,
        gain: &G,
    ) -> (r: Result<(), FitError>)
        requires
            old(self)@.wf(),
            table.wf(),
            accepts_sound(*gain),
            is_function(*gain),
        ensures
            final(self)@.wf(),
            match fit_error(
                *table,
                treatment_col@,
                outcome_col@,
                old(self)@.params.feature_sample_size as int,
            ) {
                Some(e) => r == Err::<(), FitError>(e) && final(self)@ == old(self)@,
                None => r.is_ok() && final(self)@ == fitted(
                    old(self)@,
                    *table,
                    treatment_col@,
                    outcome_col@,
                    seed,
                    gain_fn(*gain),
                ),
            },
    {
        let data = match Dataset::new(
            table,
            &treatment_col,
            &outcome_col,
            self.params.feature_sample_size as usize,
        ) {
            Ok(data) => data,
            Err(e) => {
                return Err(e);
            },
        };
        let features = data.features();
        let mut names: Vec<String> = Vec::new();
        let mut k: usize = 0;
        while k < features.len()
            invariant
                data@.wf(),
                *table == data@.table,
                features@ == data@.features,
                k <= features@.len(),
                names@.len() == k,
                forall|i: int| 0 <= i < k ==> names@[i]@ == table.spec_name(features@[i] as int),
            decreases features@.len() - k,
        {
            names.push(data.table().name(features[k]).clone());
            k += 1;
        }
        let rows = data.all_rows();
        self.build(&data, &rows, 0, 0, seed, gain);
        self.treatment_col = treatment_col;
        self.outcome_col = outcome_col;
        self.feature_cols = names;
        proof {
            assert(self@.feature_cols =~= names_of(*table, data@.features));
        }
        Ok(())
    }
}

} // verus!
