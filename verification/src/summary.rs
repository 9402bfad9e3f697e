//! Counting the rows and adding up the outcomes of the two arms of a study.

use crate::dataset::{DataSpec, Dataset};
use vstd::prelude::*;

verus! {

/// The rows and the outcomes of the two arms.
///
/// The control arm is the one with the smaller treatment value.
#[derive(Clone, Copy, Debug, PartialEq, Eq, Structural)]
pub struct Summary {
    /// The number of control rows.
    pub n_c: usize,
    /// The sum of the outcomes of the control rows.
    pub n_pc: i128,
    /// The number of treated rows.
    pub n_t: usize,
    /// The sum of the outcomes of the treated rows.
    pub n_pt: i128,
}

impl DataSpec {
    /// The number of rows among `rows` whose treatment value is `arm`.
    pub open spec fn arm_count(&self, rows: Seq<usize>, arm: int) -> nat
        decreases rows.len(),
    {
        if rows.len() == 0 {
            0
        } else {
            self.arm_count(rows.drop_last(), arm) + if self.treatment_at(rows.last()) == arm {
                1nat
            } else {
                0nat
            }
        }
    }

    /// The sum of the outcomes of the rows among `rows` whose treatment value
    /// is `arm`.
    pub open spec fn arm_sum(&self, rows: Seq<usize>, arm: int) -> int
        decreases rows.len(),
    {
        if rows.len() == 0 {
            0
        } else {
            self.arm_sum(rows.drop_last(), arm) + if self.treatment_at(rows.last()) == arm {
                self.outcome_at(rows.last())
            } else {
                0
            }
        }
    }

    /// Whether the treatment values of `rows` are `a` and `b`, both of them
    /// present, and `a` the smaller.
    pub open spec fn two_arms(&self, rows: Seq<usize>, a: int, b: int) -> bool {
        &&& a < b
        &&& exists|i: int| 0 <= i < rows.len() && self.treatment_at(#[trigger] rows[i]) == a
        &&& exists|i: int| 0 <= i < rows.len() && self.treatment_at(#[trigger] rows[i]) == b
        &&& forall|i: int|
            0 <= i < rows.len() ==> self.treatment_at(#[trigger] rows[i]) == a
                || self.treatment_at(rows[i]) == b
    }

    /// Whether exactly two treatment values occur among `rows`.
    pub open spec fn has_two_arms(&self, rows: Seq<usize>) -> bool {
        exists|a: int, b: int| self.two_arms(rows, a, b)
    }

    /// The summary of `rows`: none unless exactly two treatment values occur
    /// among them; else the count and the outcome sum of the rows with the
    /// smaller value, then those of the rows with the larger.
    pub open spec fn summary(&self, rows: Seq<usize>) -> Option<Summary> {
        if self.has_two_arms(rows) {
            let (a, b) = choose|a: int, b: int| self.two_arms(rows, a, b);
            Some(
                Summary {
                    n_c: self.arm_count(rows, a) as usize,
                    n_pc: self.arm_sum(rows, a) as i128,
                    n_t: self.arm_count(rows, b) as usize,
                    n_pt: self.arm_sum(rows, b) as i128,
                },
            )
        } else {
            None
        }
    }
}

/// Counting and adding go row by row.
proof fn lemma_arm_push(data: DataSpec, rows: Seq<usize>, row: usize, arm: int)
    ensures
        data.arm_count(rows.push(row), arm) == data.arm_count(rows, arm) + if data.treatment_at(
            row,
        ) == arm {
            1nat
        } else {
            0nat
        },
        data.arm_sum(rows.push(row), arm) == data.arm_sum(rows, arm) + if data.treatment_at(row)
            == arm {
            data.outcome_at(row)
        } else {
            0
        },
{
    assert(rows.push(row).drop_last() =~= rows);
}

/// The two treatment values of a set of rows are the same whoever names
/// them.
proof fn lemma_two_arms_unique(data: DataSpec, rows: Seq<usize>, a: int, b: int, x: int, y: int)
    requires
        data.two_arms(rows, a, b),
        data.two_arms(rows, x, y),
    ensures
        a == x,
        b == y,
{
    let i = choose|i: int| 0 <= i < rows.len() && data.treatment_at(#[trigger] rows[i]) == a;
    let j = choose|i: int| 0 <= i < rows.len() && data.treatment_at(#[trigger] rows[i]) == b;
    let k = choose|i: int| 0 <= i < rows.len() && data.treatment_at(#[trigger] rows[i]) == x;
    let l = choose|i: int| 0 <= i < rows.len() && data.treatment_at(#[trigger] rows[i]) == y;
    assert(data.treatment_at(rows[i]) == x || data.treatment_at(rows[i]) == y);
    assert(data.treatment_at(rows[j]) == x || data.treatment_at(rows[j]) == y);
    assert(data.treatment_at(rows[k]) == a || data.treatment_at(rows[k]) == b);
    assert(data.treatment_at(rows[l]) == a || data.treatment_at(rows[l]) == b);
}

/// Rows of one arm only have no summary, and neither has no row at all.
pub proof fn lemma_one_arm_no_summary(data: DataSpec, rows: Seq<usize>, arm: int)
    requires
        forall|i: int| 0 <= i < rows.len() ==> data.treatment_at(#[trigger] rows[i]) == arm,
    ensures
        data.summary(rows).is_none(),
{
    assert forall|a: int, b: int| !data.two_arms(rows, a, b) by {
        if data.two_arms(rows, a, b) {
            let i = choose|i: int|
                0 <= i < rows.len() && data.treatment_at(#[trigger] rows[i]) == a;
            let j = choose|i: int|
                0 <= i < rows.len() && data.treatment_at(#[trigger] rows[i]) == b;
            assert(data.treatment_at(rows[i]) == arm);
            assert(data.treatment_at(rows[j]) == arm);
        }
    }
}

/// Each arm of a summary has at least one row, and the two arms together have
/// all the rows.
pub proof fn lemma_summary_counts(data: DataSpec, rows: Seq<usize>)
    requires
        rows.len() <= usize::MAX,
        data.summary(rows).is_some(),
    ensures
        data.summary(rows).unwrap().n_c >= 1,
        data.summary(rows).unwrap().n_t >= 1,
        data.summary(rows).unwrap().n_c + data.summary(rows).unwrap().n_t == rows.len(),
{
    let (a, b) = choose|a: int, b: int| data.two_arms(rows, a, b);
    lemma_counts(data, rows, a, b, rows.len() as int);
    assert(rows.take(rows.len() as int) =~= rows);
    let i = choose|i: int| 0 <= i < rows.len() && data.treatment_at(#[trigger] rows[i]) == a;
    let j = choose|i: int| 0 <= i < rows.len() && data.treatment_at(#[trigger] rows[i]) == b;
    lemma_count_positive(data, rows, a, i);
    lemma_count_positive(data, rows, b, j);
}

/// Where every row is of one of two arms, the counts of the two arms add up
/// to the number of rows.
proof fn lemma_counts(data: DataSpec, rows: Seq<usize>, a: int, b: int, n: int)
    requires
        0 <= n <= rows.len(),
        a != b,
        forall|i: int|
            0 <= i < rows.len() ==> data.treatment_at(#[trigger] rows[i]) == a
                || data.treatment_at(rows[i]) == b,
    ensures
        data.arm_count(rows.take(n), a) + data.arm_count(rows.take(n), b) == n,
    decreases n,
{
    if n > 0 {
        lemma_counts(data, rows, a, b, n - 1);
        assert(rows.take(n) =~= rows.take(n - 1).push(rows[n - 1]));
        lemma_arm_push(data, rows.take(n - 1), rows[n - 1], a);
        lemma_arm_push(data, rows.take(n - 1), rows[n - 1], b);
    } else {
        assert(rows.take(0).len() == 0);
    }
}

/// An arm that has a row among `rows` has a count of at least one.
proof fn lemma_count_positive(data: DataSpec, rows: Seq<usize>, arm: int, i: int)
    requires
        0 <= i < rows.len(),
        data.treatment_at(rows[i]) == arm,
    ensures
        data.arm_count(rows, arm) >= 1,
    decreases rows.len(),
{
    if i < rows.len() - 1 {
        lemma_count_positive(data, rows.drop_last(), arm, i);
    }
}

impl<'a> Dataset<'a> {
    /// Summarizes `rows` by treatment value.
    ///
    /// There is a summary only where exactly two treatment values occur among
    /// the rows. The rows with the smaller value are the control arm, those
    /// with the larger the treated arm.
    pub fn summary(&self, rows: &Vec<usize>) -> (s: Option<Summary>)
        requires
            self@.wf(),
            self@.rows_ok(rows@),
        ensures
            s == self@.summary(rows@),
            s.is_some() ==> {
                let (a, b) = choose|a: int, b: int| self@.two_arms(rows@, a, b);
                &&& s.unwrap().n_c == self@.arm_count(rows@, a)
                &&& s.unwrap().n_pc == self@.arm_sum(rows@, a)
                &&& s.unwrap().n_t == self@.arm_count(rows@, b)
                &&& s.unwrap().n_pt == self@.arm_sum(rows@, b)
            },
    {
        let table = self.table();
        let treatment = self.treatment();
        let outcome = self.outcome();
        let mut first: Option<i64> = None;
        let mut second: Option<i64> = None;
        let mut count_first: usize = 0;
        let mut count_second: usize = 0;
        let mut sum_first: i128 = 0;
        let mut sum_second: i128 = 0;
        let ghost mut at_first: int = 0;
        let ghost mut at_second: int = 0;
        let mut i: usize = 0;
        assert(rows@.take(0).len() == 0);
        while i < rows.len()
            invariant
                self@.wf(),
                self@.rows_ok(rows@),
                *table == self@.table,
                treatment == self@.treatment,
                outcome == self@.outcome,
                i <= rows@.len(),
                first.is_none() <==> i == 0,
                second.is_some() ==> first.is_some() && first.unwrap() != second.unwrap(),
                first.is_some() ==> {
                    &&& 0 <= at_first < i
                    &&& self@.treatment_at(rows@[at_first]) == first.unwrap()
                    &&& count_first == self@.arm_count(rows@.take(i as int), first.unwrap() as int)
                    &&& sum_first == self@.arm_sum(rows@.take(i as int), first.unwrap() as int)
                },
                second.is_some() ==> {
                    &&& 0 <= at_second < i
                    &&& self@.treatment_at(rows@[at_second]) == second.unwrap()
                    &&& count_second == self@.arm_count(
                        rows@.take(i as int),
                        second.unwrap() as int,
                    )
                    &&& sum_second == self@.arm_sum(rows@.take(i as int), second.unwrap() as int)
                },
                first.is_some() && second.is_none() ==> forall|k: int|
                    0 <= k < i ==> self@.treatment_at(#[trigger] rows@[k]) == first.unwrap(),
                second.is_some() ==> forall|k: int|
                    0 <= k < i ==> self@.treatment_at(#[trigger] rows@[k]) == first.unwrap()
                        || self@.treatment_at(rows@[k]) == second.unwrap(),
                count_first <= i,
                count_second <= i,
                -(i * 0x8000_0000_0000_0000) <= sum_first <= i * 0x8000_0000_0000_0000,
                -(i * 0x8000_0000_0000_0000) <= sum_second <= i * 0x8000_0000_0000_0000,
            decreases rows@.len() - i,
        {
            let row = rows[i];
            let t = table.number(treatment, row).unwrap();
            let y = table.number(outcome, row).unwrap();
            proof {
                assert(rows@.take(i + 1) =~= rows@.take(i as int).push(row));
                if first.is_some() {
                    lemma_arm_push(self@, rows@.take(i as int), row, first.unwrap() as int);
                }
                if second.is_some() {
                    lemma_arm_push(self@, rows@.take(i as int), row, second.unwrap() as int);
                }
                lemma_arm_push(self@, rows@.take(i as int), row, t as int);
                assert(self@.treatment_at(row) == t);
                assert(self@.outcome_at(row) == y);
            }
            match first {
                None => {
                    first = Some(t);
                    count_first = 1;
                    sum_first = y as i128;
                    proof {
                        at_first = i as int;
                    }
                },
                Some(a) => {
                    if t == a {
                        count_first += 1;
                        sum_first = sum_first + y as i128;
                    } else {
                        match second {
                            None => {
                                second = Some(t);
                                count_second = 1;
                                sum_second = y as i128;
                                proof {
                                    at_second = i as int;
                                    lemma_absent(self@, rows@.take(i as int), t as int);
                                }
                            },
                            Some(b) => {
                                if t == b {
                                    count_second += 1;
                                    sum_second = sum_second + y as i128;
                                } else {
                                    proof {
                                        assert forall|x: int, z: int|
                                            !self@.two_arms(rows@, x, z) by {
                                            if self@.two_arms(rows@, x, z) {
                                                assert(self@.treatment_at(rows@[at_first]) == x
                                                    || self@.treatment_at(rows@[at_first]) == z);
                                                assert(self@.treatment_at(rows@[at_second]) == x
                                                    || self@.treatment_at(rows@[at_second]) == z);
                                                assert(self@.treatment_at(rows@[i as int]) == x
                                                    || self@.treatment_at(rows@[i as int]) == z);
                                            }
                                        }
                                    }
                                    return None;
                                }
                            },
                        }
                    }
                },
            }
            i += 1;
        }
        assert(rows@.take(rows@.len() as int) =~= rows@);
        match (first, second) {
            (Some(a), Some(b)) => {
                let ghost lo = if a < b {
                    a as int
                } else {
                    b as int
                };
                let ghost hi = if a < b {
                    b as int
                } else {
                    a as int
                };
                proof {
                    assert(self@.two_arms(rows@, lo, hi));
                    let (x, z) = choose|x: int, z: int| self@.two_arms(rows@, x, z);
                    lemma_two_arms_unique(self@, rows@, lo, hi, x, z);
                }
                if a < b {
                    Some(
                        Summary {
                            n_c: count_first,
                            n_pc: sum_first,
                            n_t: count_second,
                            n_pt: sum_second,
                        },
                    )
                } else {
                    Some(
                        Summary {
                            n_c: count_second,
                            n_pc: sum_second,
                            n_t: count_first,
                            n_pt: sum_first,
                        },
                    )
                }
            },
            _ => {
                proof {
                    assert forall|x: int, z: int| !self@.two_arms(rows@, x, z) by {
                        if self@.two_arms(rows@, x, z) {
                            let k = choose|k: int|
                                0 <= k < rows@.len() && self@.treatment_at(#[trigger] rows@[k])
                                    == x;
                            let l = choose|k: int|
                                0 <= k < rows@.len() && self@.treatment_at(#[trigger] rows@[k])
                                    == z;
                            assert(self@.treatment_at(rows@[k]) == first.unwrap());
                            assert(self@.treatment_at(rows@[l]) == first.unwrap());
                        }
                    }
                }
                None
            },
        }
    }
}

/// An arm without a row among `rows` counts nothing and sums to nothing.
proof fn lemma_absent(data: DataSpec, rows: Seq<usize>, arm: int)
    requires
        forall|k: int| 0 <= k < rows.len() ==> data.treatment_at(#[trigger] rows[k]) != arm,
    ensures
        data.arm_count(rows, arm) == 0,
        data.arm_sum(rows, arm) == 0,
    decreases rows.len(),
{
    if rows.len() > 0 {
        assert(data.treatment_at(rows[rows.len() - 1]) != arm);
        lemma_absent(data, rows.drop_last(), arm);
    }
}

} // verus!
