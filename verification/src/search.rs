//! The search for the best split of the rows at one node.

use crate::candidates::{lemma_candidates_fit, split_specs};
use crate::dataset::{DataSpec, Dataset};
use crate::node::{SplitSpec, SplitValue};
use crate::params::{accepts_sound, ask, gain_fn, is_function, GainArgs, Params};
use crate::partition::lemma_partition_complete;
use crate::sampling::{at_most_all, choose_from_slice, draw_seed, seed_for, slice_picks};
use crate::summary::lemma_summary_counts;
use vstd::prelude::*;

verus! {

impl DataSpec {
    /// Whether `rows` may be divided by `v` on column `c`: the rows and both
    /// sides have a summary, and each side has more than `min_leaf` rows.
    pub open spec fn admissible(&self, min_leaf: int, rows: Seq<usize>, c: usize, v: SplitSpec) -> bool {
        let left = self.summary(self.left_rows(c, v, rows));
        let right = self.summary(self.right_rows(c, v, rows));
        &&& self.split_error(c, v).is_none()
        &&& self.summary(rows).is_some()
        &&& left.is_some()
        &&& right.is_some()
        &&& left.unwrap().n_c + left.unwrap().n_t > min_leaf
        &&& right.unwrap().n_c + right.unwrap().n_t > min_leaf
    }
}

/// Whether the trial `(i2, j2)` is made before the trial `(i, j)`: features
/// are tried in the order in which they were drawn, and the values of a
/// feature in the order in which they were found.
pub open spec fn precedes(i2: int, j2: int, i: int, j: int) -> bool {
    i2 < i || (i2 == i && j2 < j)
}

/// What the search at one node is made on.
pub struct Search {
    pub data: DataSpec,
    pub params: Params,
    /// The gain of a split, from its summaries.
    pub score: spec_fn(GainArgs) -> i64,
    pub seed: u64,
    /// The slot of the node.
    pub node: nat,
    /// The rows at the node.
    pub rows: Seq<usize>,
}

impl Search {
    /// The features drawn for the node, in the order of the draw.
    pub open spec fn picks(&self) -> Seq<usize> {
        slice_picks(
            self.data.features,
            self.params.feature_sample_size as nat,
            draw_seed(self.seed, self.node, 0),
        )
    }

    /// The split values tried on the `i`-th feature drawn.
    pub open spec fn values(&self, i: int) -> Seq<SplitSpec> {
        self.data.candidates(
            self.picks()[i],
            self.rows,
            self.params.max_splits as int,
            draw_seed(self.seed, self.node, (self.picks()[i] + 1) as nat),
        )
    }

    /// Whether the search tries a `j`-th value on an `i`-th feature.
    pub open spec fn is_trial(&self, i: int, j: int) -> bool {
        0 <= i < self.picks().len() && 0 <= j < self.values(i).len()
    }

    /// The gain of dividing the rows by `v` on column `c`; none where the
    /// division is not admissible.
    pub open spec fn gain(&self, c: usize, v: SplitSpec) -> Option<i64> {
        if self.data.admissible(self.params.min_sample_leaf as int, self.rows, c, v) {
            Some(
                (self.score)(
                    (
                        self.params.eval_func,
                        self.data.summary(self.rows).unwrap(),
                        self.data.summary(self.data.left_rows(c, v, self.rows)).unwrap(),
                        self.data.summary(self.data.right_rows(c, v, self.rows)).unwrap(),
                        self.data.left_rows(c, v, self.rows).len() as usize,
                        self.rows.len() as usize,
                    ),
                ),
            )
        } else {
            None
        }
    }

    /// The gain of the trial `(i, j)`.
    pub open spec fn gain_at(&self, i: int, j: int) -> Option<i64> {
        self.gain(self.picks()[i], self.values(i)[j])
    }

    /// Whether the trial `(i, j)` leads among the trials made before
    /// `(end_i, end_j)`: its gain is positive, no trial among them has a
    /// greater gain, and none before it has the same.
    pub open spec fn leads(&self, i: int, j: int, end_i: int, end_j: int) -> bool {
        &&& self.is_trial(i, j)
        &&& precedes(i, j, end_i, end_j)
        &&& self.gain_at(i, j).is_some()
        &&& self.gain_at(i, j).unwrap() > 0
        &&& forall|i2: int, j2: int|
            self.is_trial(i2, j2) && precedes(i2, j2, end_i, end_j) && (#[trigger] self.gain_at(
                i2,
                j2,
            )).is_some() ==> {
                &&& self.gain_at(i2, j2).unwrap() <= self.gain_at(i, j).unwrap()
                &&& precedes(i2, j2, i, j) ==> self.gain_at(i2, j2).unwrap() < self.gain_at(
                    i,
                    j,
                ).unwrap()
            }
    }

    /// Whether no trial made before `(end_i, end_j)` has a positive gain.
    pub open spec fn none_leads(&self, end_i: int, end_j: int) -> bool {
        forall|i2: int, j2: int|
            self.is_trial(i2, j2) && precedes(i2, j2, end_i, end_j) && (#[trigger] self.gain_at(
                i2,
                j2,
            )).is_some() ==> self.gain_at(i2, j2).unwrap() <= 0
    }

    /// Whether the trial `(i, j)` wins the search: it leads among all trials.
    pub open spec fn wins(&self, i: int, j: int) -> bool {
        self.leads(i, j, self.picks().len() as int, 0)
    }

    /// The trial that wins the search, if one does: the first of the trials
    /// with the greatest gain, where that gain is positive.
    pub open spec fn best(&self) -> Option<(int, int)> {
        if exists|i: int, j: int| self.wins(i, j) {
            Some(choose|t: (int, int)| self.wins(t.0, t.1))
        } else {
            None
        }
    }
}

/// At most one trial wins a search.
pub proof fn lemma_one_winner(s: Search, i: int, j: int, k: int, l: int)
    requires
        s.wins(i, j),
        s.wins(k, l),
    ensures
        i == k,
        j == l,
{
    assert(s.gain_at(i, j).is_some());
    assert(s.gain_at(k, l).is_some());
}

/// The trial that wins is the one that `best` names.
pub proof fn lemma_best_is(s: Search, i: int, j: int)
    requires
        s.wins(i, j),
    ensures
        s.best() == Some((i, j)),
{
    let t = choose|t: (int, int)| s.wins(t.0, t.1);
    assert(s.wins((i, j).0, (i, j).1));
    lemma_one_winner(s, i, j, t.0, t.1);
}

/// Where no trial has a positive gain, none wins.
pub proof fn lemma_best_is_none(s: Search)
    requires
        s.none_leads(s.picks().len() as int, 0),
    ensures
        s.best().is_none(),
{
    assert forall|i: int, j: int| !s.wins(i, j) by {
        if s.wins(i, j) {
            assert(s.gain_at(i, j).is_some());
        }
    }
}

/// Draws the features that are tried at the node in slot `node`: as many as
/// the settings say, or all where there are fewer, none of them twice.
pub fn sample_features(data: &Dataset, params: &Params, node: usize, seed: u64) -> (picks: Vec<usize>)
    requires
        data@.wf(),
        params.wf(),
    ensures
        picks@ == slice_picks(
            data@.features,
            params.feature_sample_size as nat,
            draw_seed(seed, node as nat, 0),
        ),
        picks@.len() == at_most_all(params.feature_sample_size as nat, data@.features.len()),
        forall|k: int| 0 <= k < picks@.len() ==> data@.is_feature(#[trigger] picks@[k]),
        picks@.no_duplicates(),
{
    choose_from_slice(data.features(), params.feature_sample_size as usize, seed_for(seed, node, 0))
}

/// The split that a search has found, with the rows of its two sides.
#[derive(Debug)]
pub struct BestSplit {
    pub column: usize,
    pub value: SplitValue,
    pub left: Vec<usize>,
    pub right: Vec<usize>,
}

impl BestSplit {
    /// Whether this is the division of the rows of `s` by the trial `(i, j)`.
    pub open spec fn is_trial(&self, s: Search, i: int, j: int) -> bool {
        &&& self.column == s.picks()[i]
        &&& self.value@ == s.values(i)[j]
        &&& self.left@ == s.data.left_rows(self.column, self.value@, s.rows)
        &&& self.right@ == s.data.right_rows(self.column, self.value@, s.rows)
    }
}

/// Searches the best split of `rows` for the node in slot `node`.
///
/// As many features as the settings say are drawn without repetition. On
/// each, in the order of the draw, the split values of `calc_split_values`
/// are tried in their order. A trial counts where the rows and both sides
/// have a summary and each side has more rows than the settings ask for. The
/// first of the trials with the greatest gain is the best, if that gain is
/// positive; else there is none.
pub fn best_split<G: Fn(crate::params::EvalFunc, crate::summary::Summary, crate::summary::Summary, crate::summary::Summary, usize, usize) -> i64>(
    data: &Dataset,
    params: &Params,
    rows: &Vec<usize>,
    node: usize,
    seed: u64,
    gain: &G,
) -> (found: Option<BestSplit>)
    requires
        data@.wf(),
        data@.rows_ok(rows@),
        params.wf(),
        accepts_sound(*gain),
        is_function(*gain),
    ensures
        ({
            let s = Search {
                data: data@,
                params: *params,
                score: gain_fn(*gain),
                seed,
                node: node as nat,
                rows: rows@,
            };
            match s.best() {
                None => found.is_none(),
                Some((i, j)) => found.is_some() && s.wins(i, j) && found.unwrap().is_trial(s, i, j),
            }
        }),
        found.is_some() ==> found.unwrap().column < data@.table.spec_width() && data@.is_feature(
            found.unwrap().column,
        ),
{
    let ghost s = Search {
        data: data@,
        params: *params,
        score: gain_fn(*gain),
        seed,
        node: node as nat,
        rows: rows@,
    };
    let parent = match data.summary(rows) {
        Some(parent) => parent,
        None => {
            proof {
                lemma_best_is_none(s);
            }
            return None;
        },
    };
    let height = rows.len();
    let width = data.table().width();
    proof {
        lemma_summary_counts(data@, rows@);
    }
    let min_leaf = params.min_sample_leaf as usize;
    let max_splits = params.max_splits as usize;
    let picks = sample_features(data, params, node, seed);
    let mut found: Option<BestSplit> = None;
    let mut top: i64 = 0;
    let ghost mut at: (int, int) = (0, 0);
    let mut i: usize = 0;
    while i < picks.len()
        invariant
            data@.wf(),
            data@.rows_ok(rows@),
            params.wf(),
            accepts_sound(*gain),
            is_function(*gain),
            s == (Search {
                data: data@,
                params: *params,
                score: gain_fn(*gain),
                seed,
                node: node as nat,
                rows: rows@,
            }),
            Some(parent) == data@.summary(rows@),
            parent.n_c >= 1,
            parent.n_t >= 1,
            parent.n_c + parent.n_t == rows@.len(),
            min_leaf == params.min_sample_leaf,
            max_splits == params.max_splits,
            picks@ == s.picks(),
            forall|k: int| 0 <= k < picks@.len() ==> data@.features.contains(#[trigger] picks@[k]),
            i <= picks@.len(),
            width == data@.table.spec_width(),
            height == rows@.len(),
            match found {
                None => top == 0 && s.none_leads(i as int, 0),
                Some(b) => top > 0 && s.leads(at.0, at.1, i as int, 0) && s.gain_at(at.0, at.1)
                    == Some(top) && b.is_trial(s, at.0, at.1) && b.column < width
                    && data@.is_feature(b.column),
            },
        decreases picks@.len() - i,
    {
        let c = picks[i];
        proof {
            assert(data@.features.contains(picks@[i as int]));
            let at_c = choose|k: int| 0 <= k < data@.features.len() && data@.features[k] == c;
            assert(data@.features[at_c] < data@.table.spec_width());
            assert(c < width);
        }
        let values = data.calc_split_values(c, rows, max_splits, seed_for(seed, node, c + 1));
        assert(split_specs(values@) == s.values(i as int));
        let mut j: usize = 0;
        while j < values.len()
            invariant
                data@.wf(),
                data@.rows_ok(rows@),
                params.wf(),
                accepts_sound(*gain),
                is_function(*gain),
                s == (Search {
                    data: data@,
                    params: *params,
                    score: gain_fn(*gain),
                    seed,
                    node: node as nat,
                    rows: rows@,
                }),
                Some(parent) == data@.summary(rows@),
                parent.n_c >= 1,
                parent.n_t >= 1,
                parent.n_c + parent.n_t == rows@.len(),
                min_leaf == params.min_sample_leaf,
                max_splits == params.max_splits,
                picks@ == s.picks(),
                i < picks@.len(),
                c == picks@[i as int],
                c < width,
                data@.is_feature(c),
                width == data@.table.spec_width(),
                height == rows@.len(),
                split_specs(values@) == s.values(i as int),
                j <= values@.len(),
                match found {
                    None => top == 0 && s.none_leads(i as int, j as int),
                    Some(b) => top > 0 && s.leads(at.0, at.1, i as int, j as int) && s.gain_at(
                        at.0,
                        at.1,
                    ) == Some(top) && b.is_trial(s, at.0, at.1) && b.column < width
                        && data@.is_feature(b.column),
                },
            decreases values@.len() - j,
        {
            let v = &values[j];
            let ghost old_at = at;
            let ghost old_top = top;
            let ghost was_found = found.is_some();
            proof {
                assert(split_specs(values@)[j as int] == v@);
                assert(s.is_trial(i as int, j as int));
                lemma_candidates_fit(
                    data@,
                    c,
                    rows@,
                    params.max_splits as int,
                    draw_seed(seed, node as nat, (c + 1) as nat),
                    j as int,
                );
                lemma_partition_complete(data@, c, v@, rows@);
            }
            let mut improved = false;
            match data.split_set(v, c, rows) {
                Ok((left, right)) => {
                    let left_height = left.len();
                    let right_height = right.len();
                    let left_summary = data.summary(&left);
                    let right_summary = data.summary(&right);
                    if left_summary.is_some() && right_summary.is_some() {
                        let left_summary = left_summary.unwrap();
                        let right_summary = right_summary.unwrap();
                        proof {
                            lemma_summary_counts(data@, left@);
                            lemma_summary_counts(data@, right@);
                        }
                        if left_summary.n_c + left_summary.n_t > min_leaf && right_summary.n_c
                            + right_summary.n_t > min_leaf {
                            assert(data@.admissible(
                                params.min_sample_leaf as int,
                                rows@,
                                c,
                                v@,
                            ));
                            let g = ask(
                                gain,
                                params.eval_func,
                                parent,
                                left_summary,
                                right_summary,
                                left_height,
                                height,
                            );
                            assert(s.gain_at(i as int, j as int) == Some(g));
                            if g > top {
                                found =
                                Some(BestSplit { column: c, value: v.duplicate(), left, right });
                                top = g;
                                improved = true;
                                proof {
                                    at = (i as int, j as int);
                                }
                            }
                        } else {
                            assert(s.gain_at(i as int, j as int).is_none());
                        }
                    } else {
                        assert(s.gain_at(i as int, j as int).is_none());
                    }
                },
                Err(_) => {},
            }
            proof {
                if improved {
                    assert forall|i2: int, j2: int|
                        s.is_trial(i2, j2) && precedes(i2, j2, i as int, j + 1) && (
                        #[trigger] s.gain_at(i2, j2)).is_some() implies {
                        &&& s.gain_at(i2, j2).unwrap() <= top
                        &&& precedes(i2, j2, i as int, j as int) ==> s.gain_at(i2, j2).unwrap()
                            < top
                    } by {
                        if precedes(i2, j2, i as int, j as int) {
                            if was_found {
                                assert(s.gain_at(i2, j2).unwrap() <= old_top);
                            } else {
                                assert(s.gain_at(i2, j2).unwrap() <= 0);
                            }
                        }
                    }
                } else if was_found {
                    assert forall|i2: int, j2: int|
                        s.is_trial(i2, j2) && precedes(i2, j2, i as int, j + 1) && (
                        #[trigger] s.gain_at(i2, j2)).is_some() implies {
                        &&& s.gain_at(i2, j2).unwrap() <= top
                        &&& precedes(i2, j2, at.0, at.1) ==> s.gain_at(i2, j2).unwrap() < top
                    } by {
                        if !precedes(i2, j2, i as int, j as int) {
                            assert(i2 == i && j2 == j);
                        }
                    }
                } else {
                    assert forall|i2: int, j2: int|
                        s.is_trial(i2, j2) && precedes(i2, j2, i as int, j + 1) && (
                        #[trigger] s.gain_at(i2, j2)).is_some() implies s.gain_at(i2, j2).unwrap()
                        <= 0 by {
                        if !precedes(i2, j2, i as int, j as int) {
                            assert(i2 == i && j2 == j);
                        }
                    }
                }
            }
            j += 1;
        }
        proof {
            if found.is_some() {
                assert forall|i2: int, j2: int|
                    s.is_trial(i2, j2) && precedes(i2, j2, i + 1, 0) && (#[trigger] s.gain_at(
                        i2,
                        j2,
                    )).is_some() implies {
                    &&& s.gain_at(i2, j2).unwrap() <= top
                    &&& precedes(i2, j2, at.0, at.1) ==> s.gain_at(i2, j2).unwrap() < top
                } by {
                    assert(precedes(i2, j2, i as int, values@.len() as int));
                }
            } else {
                assert forall|i2: int, j2: int|
                    s.is_trial(i2, j2) && precedes(i2, j2, i + 1, 0) && (#[trigger] s.gain_at(
                        i2,
                        j2,
                    )).is_some() implies s.gain_at(i2, j2).unwrap() <= 0 by {
                    assert(precedes(i2, j2, i as int, values@.len() as int));
                }
            }
        }
        i += 1;
    }
    proof {
        if found.is_some() {
            lemma_best_is(s, at.0, at.1);
        } else {
            lemma_best_is_none(s);
        }
    }
    found
}

} // verus!
