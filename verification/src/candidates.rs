//! The split values that are tried on a feature.

use crate::dataset::{DataSpec, Dataset};
use crate::node::{SplitSpec, SplitValue};
use crate::sampling::{choose_from_iter, reservoir_picks};
use crate::sorting::{ascending, is_ascending, lemma_ascending, sort};
use crate::table::ColumnKind;
use vstd::prelude::*;

verus! {

/// `s` with every run of equal neighbours reduced to one number.
pub open spec fn collapse(s: Seq<i64>) -> Seq<i64>
    decreases s.len(),
{
    if s.len() <= 1 {
        s
    } else if s[s.len() - 2] == s.last() {
        collapse(s.drop_last())
    } else {
        collapse(s.drop_last()).push(s.last())
    }
}

/// The numbers that close each full stretch of `stride` numbers of `s`: those
/// at the positions `stride - 1`, `2 * stride - 1`, and so on.
pub open spec fn every_nth(s: Seq<i64>, stride: int) -> Seq<i64> {
    Seq::new((s.len() as int / stride) as nat, |k: int| s[k * stride + stride - 1])
}

/// The thresholds tried on a numeric feature with the given values.
///
/// Where the feature has at most `max_splits` different values, they are all
/// tried, in ascending order. Else the values are put in ascending order and
/// cut into stretches of as many values as `max_splits` goes into their
/// number; the value that closes each stretch is tried, once. There are then
/// more values than `max_splits`, so that a stretch has one value at least.
pub open spec fn numeric_candidates(values: Seq<i64>, max_splits: int) -> Seq<i64> {
    let sorted = ascending(values);
    if collapse(sorted).len() <= max_splits {
        collapse(sorted)
    } else {
        collapse(every_nth(sorted, values.len() as int / max_splits))
    }
}

/// What the split values of a vector stand for.
pub open spec fn split_specs(values: Seq<SplitValue>) -> Seq<SplitSpec> {
    Seq::new(values.len(), |i: int| values[i]@)
}

impl DataSpec {
    /// The numbers that `rows` have in column `c`.
    pub open spec fn numbers(&self, c: usize, rows: Seq<usize>) -> Seq<i64> {
        Seq::new(rows.len(), |i: int| self.table.spec_number(c as int, rows[i] as int))
    }

    /// The texts that `rows` have in column `c`.
    pub open spec fn texts(&self, c: usize, rows: Seq<usize>) -> Seq<Seq<char>> {
        Seq::new(rows.len(), |i: int| self.table.spec_text(c as int, rows[i] as int))
    }

    /// The rows, among `rows`, at which a text of column `c` is first seen.
    pub open spec fn first_rows(&self, c: usize, rows: Seq<usize>) -> Seq<usize>
        decreases rows.len(),
    {
        if rows.len() == 0 {
            rows
        } else if self.texts(c, self.first_rows(c, rows.drop_last())).contains(
            self.table.spec_text(c as int, rows.last() as int),
        ) {
            self.first_rows(c, rows.drop_last())
        } else {
            self.first_rows(c, rows.drop_last()).push(rows.last())
        }
    }

    /// The rows whose texts are tried on the text column `c`.
    ///
    /// Where the column has at most `max_splits` different texts among
    /// `rows`, they are all tried, each where it is first seen. Else
    /// `max_splits` of them are drawn without repetition.
    pub open spec fn text_rows(&self, c: usize, rows: Seq<usize>, max_splits: int, seed: u64) -> Seq<
        usize,
    > {
        if self.first_rows(c, rows).len() <= max_splits {
            self.first_rows(c, rows)
        } else {
            reservoir_picks(self.first_rows(c, rows), max_splits as nat, seed)
        }
    }

    /// The split values tried on column `c` for `rows`: thresholds on a
    /// numeric column, categories on a text column, none on another.
    pub open spec fn candidates(&self, c: usize, rows: Seq<usize>, max_splits: int, seed: u64) -> Seq<
        SplitSpec,
    > {
        if c >= self.table.spec_width() {
            Seq::empty()
        } else {
            match self.table.spec_kind(c as int) {
                ColumnKind::Numeric => {
                    let found = numeric_candidates(self.numbers(c, rows), max_splits);
                    Seq::new(found.len(), |i: int| SplitSpec::Numeric(found[i] as int))
                },
                ColumnKind::Text => {
                    let found = self.texts(c, self.text_rows(c, rows, max_splits, seed));
                    Seq::new(found.len(), |i: int| SplitSpec::Str(found[i]))
                },
                ColumnKind::Other => Seq::empty(),
            }
        }
    }
}

/// Every split value tried on a column is of the column's kind.
pub proof fn lemma_candidates_fit(
    data: DataSpec,
    c: usize,
    rows: Seq<usize>,
    max_splits: int,
    seed: u64,
    i: int,
)
    requires
        0 <= i < data.candidates(c, rows, max_splits, seed).len(),
    ensures
        data.split_error(c, data.candidates(c, rows, max_splits, seed)[i]).is_none(),
{
}

/// Whether no two split values of `values` are the same.
pub open spec fn all_different(values: Seq<SplitSpec>) -> bool {
    forall|i: int, j: int| 0 <= i < j < values.len() ==> values[i] != values[j]
}

/// An ascending sequence, collapsed, grows from each number to the next, and
/// ends as the sequence does.
proof fn lemma_collapse_grows(s: Seq<i64>)
    requires
        is_ascending(s),
    ensures
        forall|i: int, j: int| 0 <= i < j < collapse(s).len() ==> collapse(s)[i] < collapse(s)[j],
        s.len() > 0 ==> collapse(s).len() > 0 && collapse(s).last() == s.last(),
    decreases s.len(),
{
    if s.len() > 1 {
        lemma_collapse_grows(s.drop_last());
    }
}

/// The numbers that close the stretches of an ascending sequence are
/// ascending.
proof fn lemma_every_nth_ascending(s: Seq<i64>, stride: int)
    requires
        is_ascending(s),
        stride >= 1,
    ensures
        is_ascending(every_nth(s, stride)),
{
    let picked = every_nth(s, stride);
    assert forall|i: int, j: int| 0 <= i < j < picked.len() implies picked[i] <= picked[j] by {
        assert(i * stride + stride - 1 < j * stride + stride - 1 < s.len() && 0 <= i * stride)
            by (nonlinear_arith)
            requires
                0 <= i < j < s.len() as int / stride,
                stride >= 1,
        ;
    }
}

/// No number is tried twice on a numeric feature: the thresholds grow from
/// each to the next.
pub proof fn lemma_numeric_candidates_grow(values: Seq<i64>, max_splits: int)
    requires
        max_splits >= 1,
    ensures
        forall|i: int, j: int|
            0 <= i < j < numeric_candidates(values, max_splits).len() ==> numeric_candidates(
                values,
                max_splits,
            )[i] < numeric_candidates(values, max_splits)[j],
{
    let sorted = ascending(values);
    lemma_ascending(values);
    lemma_collapse_grows(sorted);
    if collapse(sorted).len() > max_splits {
        lemma_collapse_len(sorted);
        let stride = values.len() as int / max_splits;
        assert(stride >= 1) by (nonlinear_arith)
            requires
                values.len() > max_splits,
                max_splits >= 1,
                stride == values.len() as int / max_splits,
        ;
        lemma_every_nth_ascending(sorted, stride);
        lemma_collapse_grows(every_nth(sorted, stride));
    }
}

/// Where there are values, there is a threshold to try.
pub proof fn lemma_numeric_candidates_some(values: Seq<i64>, max_splits: int)
    requires
        max_splits >= 1,
        values.len() > 0,
    ensures
        numeric_candidates(values, max_splits).len() > 0,
{
    let sorted = ascending(values);
    lemma_ascending(values);
    lemma_collapse_grows(sorted);
    if collapse(sorted).len() > max_splits {
        lemma_collapse_len(sorted);
        let stride = values.len() as int / max_splits;
        assert(stride >= 1 && values.len() as int / stride >= 1) by (nonlinear_arith)
            requires
                values.len() > max_splits,
                max_splits >= 1,
                stride == values.len() as int / max_splits,
        ;
        lemma_every_nth_ascending(sorted, stride);
        lemma_collapse_grows(every_nth(sorted, stride));
    }
}

/// No text is first seen at two rows, and where there are rows, a text is
/// seen.
pub proof fn lemma_first_rows_differ(data: DataSpec, c: usize, rows: Seq<usize>)
    ensures
        data.texts(c, data.first_rows(c, rows)).no_duplicates(),
        data.first_rows(c, rows).no_duplicates(),
        rows.len() > 0 ==> data.first_rows(c, rows).len() > 0,
    decreases rows.len(),
{
    let firsts = data.first_rows(c, rows);
    if rows.len() > 0 {
        let before = data.first_rows(c, rows.drop_last());
        lemma_first_rows_differ(data, c, rows.drop_last());
        let text = data.table.spec_text(c as int, rows.last() as int);
        if !data.texts(c, before).contains(text) {
            assert(data.texts(c, firsts) =~= data.texts(c, before).push(text));
        }
    }
    assert forall|i: int, j: int| 0 <= i < firsts.len() && 0 <= j < firsts.len() && i != j implies firsts[i]
        != firsts[j] by {
        assert(data.texts(c, firsts)[i] != data.texts(c, firsts)[j]);
    }
}

/// Collapsing never makes a sequence longer.
proof fn lemma_collapse_len(s: Seq<i64>)
    ensures
        collapse(s).len() <= s.len(),
    decreases s.len(),
{
    if s.len() > 1 {
        lemma_collapse_len(s.drop_last());
    }
}

/// Reduces every run of equal neighbours to one number.
fn collapse_vec(v: &Vec<i64>) -> (out: Vec<i64>)
    ensures
        out@ == collapse(v@),
        out@.len() <= v@.len(),
{
    let mut out: Vec<i64> = Vec::new();
    let mut i: usize = 0;
    assert(v@.take(0) =~= Seq::<i64>::empty());
    while i < v.len()
        invariant
            i <= v@.len(),
            out@ == collapse(v@.take(i as int)),
        decreases v@.len() - i,
    {
        proof {
            assert(v@.take(i + 1).drop_last() =~= v@.take(i as int));
            if i == 0 {
                assert(v@.take(1) =~= Seq::<i64>::empty().push(v@[0]));
            }
        }
        if i == 0 || v[i - 1] != v[i] {
            out.push(v[i]);
        }
        i += 1;
    }
    proof {
        assert(v@.take(v@.len() as int) =~= v@);
        lemma_collapse_len(v@);
    }
    out
}

/// Picks the number that closes each full stretch of `stride` numbers.
fn every_nth_vec(v: &Vec<i64>, stride: usize) -> (out: Vec<i64>)
    requires
        stride >= 1,
    ensures
        out@ == every_nth(v@, stride as int),
{
    let count = v.len() / stride;
    let mut out: Vec<i64> = Vec::new();
    let mut k: usize = 0;
    while k < count
        invariant
            stride >= 1,
            v@.len() <= usize::MAX,
            count == v@.len() / (stride as nat),
            k <= count,
            out@.len() == k,
            forall|j: int| 0 <= j < k ==> out@[j] == v@[j * stride + stride - 1],
        decreases count - k,
    {
        assert(k * stride + stride - 1 < v@.len()) by (nonlinear_arith)
            requires
                k < count,
                count == v@.len() / (stride as nat),
                stride >= 1,
        ;
        assert(k * stride >= 0) by (nonlinear_arith);
        let at = k * stride + (stride - 1);
        out.push(v[at]);
        k += 1;
    }
    assert(out@ =~= every_nth(v@, stride as int));
    out
}

/// The thresholds tried on a numeric feature with the given values.
fn numeric_candidates_vec(values: &Vec<i64>, max_splits: usize) -> (out: Vec<i64>)
    requires
        max_splits >= 1,
    ensures
        out@ == numeric_candidates(values@, max_splits as int),
{
    let sorted = sort(values);
    proof {
        lemma_ascending(values@);
    }
    let distinct = collapse_vec(&sorted);
    if distinct.len() <= max_splits {
        distinct
    } else {
        assert(values@.len() / (max_splits as nat) >= 1) by (nonlinear_arith)
            requires
                values@.len() > max_splits,
                max_splits >= 1,
        ;
        let stride = values.len() / max_splits;
        let picked = every_nth_vec(&sorted, stride);
        collapse_vec(&picked)
    }
}

impl<'a> Dataset<'a> {
    /// The rows, among `rows`, at which a text of column `c` is first seen.
    fn first_rows(&self, c: usize, rows: &Vec<usize>) -> (firsts: Vec<usize>)
        requires
            self@.wf(),
            self@.rows_ok(rows@),
            c < self@.table.spec_width(),
            self@.table.spec_kind(c as int) == ColumnKind::Text,
        ensures
            self@.rows_ok(firsts@),
            firsts@ == self@.first_rows(c, rows@),
    {
        let table = self.table();
        let mut firsts: Vec<usize> = Vec::new();
        let mut i: usize = 0;
        assert(rows@.take(0) =~= Seq::<usize>::empty());
        while i < rows.len()
            invariant
                self@.wf(),
                self@.rows_ok(rows@),
                *table == self@.table,
                c < self@.table.spec_width(),
                self@.table.spec_kind(c as int) == ColumnKind::Text,
                i <= rows@.len(),
                self@.rows_ok(firsts@),
                firsts@ == self@.first_rows(c, rows@.take(i as int)),
            decreases rows@.len() - i,
        {
            let row = rows[i];
            let text = table.text(c, row).unwrap();
            let ghost seen = self@.texts(c, firsts@);
            let mut known = false;
            let mut k: usize = 0;
            while k < firsts.len() && !known
                invariant
                    self@.wf(),
                    self@.rows_ok(firsts@),
                    *table == self@.table,
                    c < self@.table.spec_width(),
                    self@.table.spec_kind(c as int) == ColumnKind::Text,
                    k <= firsts@.len(),
                    seen == self@.texts(c, firsts@),
                    text@ == self@.table.spec_text(c as int, row as int),
                    known ==> seen.contains(text@),
                    !known ==> forall|j: int| 0 <= j < k ==> seen[j] != text@,
                decreases firsts@.len() - k + if known { 0int } else { 1int },
            {
                let other = table.text(c, firsts[k]).unwrap();
                if other.eq(text) {
                    known = true;
                    assert(seen[k as int] == text@);
                } else {
                    k += 1;
                }
            }
            proof {
                assert(rows@.take(i + 1).drop_last() =~= rows@.take(i as int));
                assert(rows@.take(i + 1).last() == row);
            }
            if !known {
                firsts.push(row);
            }
            i += 1;
        }
        assert(rows@.take(rows@.len() as int) =~= rows@);
        firsts
    }

    /// The split values to try on column `c` for `rows`.
    ///
    /// On a numeric column: every different value, in ascending order, where
    /// there are at most `max_splits` of them; else the values that close the
    /// stretches of `rows.len() / max_splits` values in ascending order. On a
    /// text column: every different text, each where it is first seen, where
    /// there are at most `max_splits` of them; else `max_splits` of them, as
    /// the seed picks them. On any other column, and where the table has no
    /// column `c`, there is nothing to try.
    pub fn calc_split_values(&self, c: usize, rows: &Vec<usize>, max_splits: usize, seed: u64) -> (out:
        Vec<SplitValue>)
        requires
            self@.wf(),
            self@.rows_ok(rows@),
            max_splits >= 1,
        ensures
            split_specs(out@) == self@.candidates(c, rows@, max_splits as int, seed),
            all_different(split_specs(out@)),
            rows@.len() > 0 && c < self@.table.spec_width() && self@.table.spec_kind(c as int)
                != ColumnKind::Other ==> out@.len() > 0,
    {
        let table = self.table();
        let mut out: Vec<SplitValue> = Vec::new();
        if c >= table.width() {
            assert(split_specs(out@) =~= Seq::<SplitSpec>::empty());
            return out;
        }
        match table.kind(c) {
            ColumnKind::Numeric => {
                let mut values: Vec<i64> = Vec::new();
                let mut i: usize = 0;
                while i < rows.len()
                    invariant
                        self@.wf(),
                        self@.rows_ok(rows@),
                        *table == self@.table,
                        c < self@.table.spec_width(),
                        self@.table.spec_kind(c as int) == ColumnKind::Numeric,
                        i <= rows@.len(),
                        values@ == self@.numbers(c, rows@.take(i as int)),
                    decreases rows@.len() - i,
                {
                    let x = table.number(c, rows[i]).unwrap();
                    values.push(x);
                    i += 1;
                    assert(values@ =~= self@.numbers(c, rows@.take(i as int)));
                }
                assert(rows@.take(rows@.len() as int) =~= rows@);
                let found = numeric_candidates_vec(&values, max_splits);
                proof {
                    lemma_numeric_candidates_grow(values@, max_splits as int);
                    if rows@.len() > 0 {
                        lemma_numeric_candidates_some(values@, max_splits as int);
                    }
                }
                let mut k: usize = 0;
                while k < found.len()
                    invariant
                        k <= found@.len(),
                        out@.len() == k,
                        forall|j: int| 0 <= j < k ==> out@[j]@ == SplitSpec::Numeric(found@[j] as int),
                    decreases found@.len() - k,
                {
                    out.push(SplitValue::Numeric(found[k]));
                    k += 1;
                }
                assert(split_specs(out@) =~= self@.candidates(c, rows@, max_splits as int, seed));
            },
            ColumnKind::Text => {
                let firsts = self.first_rows(c, rows);
                let ghost distinct = self@.texts(c, firsts@);
                proof {
                    lemma_first_rows_differ(self@, c, rows@);
                }
                if firsts.len() <= max_splits {
                    let mut k: usize = 0;
                    while k < firsts.len()
                        invariant
                            self@.wf(),
                            self@.rows_ok(firsts@),
                            *table == self@.table,
                            c < self@.table.spec_width(),
                            self@.table.spec_kind(c as int) == ColumnKind::Text,
                            k <= firsts@.len(),
                            out@.len() == k,
                            forall|j: int|
                                0 <= j < k ==> out@[j]@ == SplitSpec::Str(
                                    self@.texts(c, firsts@)[j],
                                ),
                        decreases firsts@.len() - k,
                    {
                        let text = table.text(c, firsts[k]).unwrap();
                        out.push(SplitValue::Str(text.clone()));
                        k += 1;
                    }
                } else {
                    let picks = choose_from_iter(&firsts, max_splits, seed);
                    proof {
                        assert forall|j: int| 0 <= j < picks@.len() implies (#[trigger] picks@[j])
                            < self@.table.spec_height() by {
                            assert(firsts@.contains(picks@[j]));
                        }
                        assert forall|i: int, j: int|
                            0 <= i < j < picks@.len() implies self@.texts(c, picks@)[i]
                            != self@.texts(c, picks@)[j] by {
                            assert(firsts@.contains(picks@[i]));
                            assert(firsts@.contains(picks@[j]));
                            let a = choose|a: int| 0 <= a < firsts@.len() && firsts@[a] == picks@[i];
                            let b = choose|b: int| 0 <= b < firsts@.len() && firsts@[b] == picks@[j];
                            assert(distinct[a] != distinct[b]);
                        }
                    }
                    let mut k: usize = 0;
                    while k < picks.len()
                        invariant
                            self@.wf(),
                            self@.rows_ok(picks@),
                            *table == self@.table,
                            c < self@.table.spec_width(),
                            self@.table.spec_kind(c as int) == ColumnKind::Text,
                            k <= picks@.len(),
                            out@.len() == k,
                            forall|j: int|
                                0 <= j < k ==> out@[j]@ == SplitSpec::Str(
                                    self@.texts(c, picks@)[j],
                                ),
                        decreases picks@.len() - k,
                    {
                        let text = table.text(c, picks[k]).unwrap();
                        out.push(SplitValue::Str(text.clone()));
                        k += 1;
                    }
                }
                assert(split_specs(out@) =~= self@.candidates(c, rows@, max_splits as int, seed));
            },
            ColumnKind::Other => {
                assert(split_specs(out@) =~= Seq::<SplitSpec>::empty());
            },
        }
        out
    }
}

} // verus!
