//! A table together with the parts its columns play: features, treatment
//! and outcome.

use crate::table::{ColumnKind, Table};
use vstd::prelude::*;

verus! {

/// Why a table cannot be fitted.
#[derive(Clone, Copy, Debug, PartialEq, Eq, Structural)]
pub enum FitError {
    /// The table has fewer feature columns than are to be sampled at a node.
    TooFewFeatures,
    /// A feature column is neither numeric nor text.
    UnsupportedType,
    /// The table has no column of the treatment's or the outcome's name.
    ColumnNotFound,
    /// The treatment or the outcome column is not numeric.
    NotNumeric,
}

/// What a `Dataset` stands for in contracts: the table, the feature columns in
/// table order, and the treatment and outcome columns.
pub struct DataSpec {
    pub table: Table,
    pub features: Seq<usize>,
    pub treatment: usize,
    pub outcome: usize,
}

/// The test that picks the feature columns: a column is a feature when it has
/// neither of the two names.
pub open spec fn is_no_part(table: Table, treatment: Seq<char>, outcome: Seq<char>) -> spec_fn(
    usize,
) -> bool {
    |c: usize| table.spec_name(c as int) != treatment && table.spec_name(c as int) != outcome
}

/// The rows of a table of `height` rows, from the first to the last.
pub open spec fn every_row(height: nat) -> Seq<usize> {
    Seq::new(height, |r: int| r as usize)
}

/// The columns `0, 1, ..` below `n`.
pub open spec fn columns_below(n: nat) -> Seq<usize> {
    Seq::new(n, |c: int| c as usize)
}

/// The feature columns of a table, in table order.
pub open spec fn feature_columns(table: Table, treatment: Seq<char>, outcome: Seq<char>) -> Seq<
    usize,
> {
    columns_below(table.spec_width()).filter(is_no_part(table, treatment, outcome))
}

/// The column of the given name.
pub open spec fn column_named(table: Table, name: Seq<char>) -> usize {
    choose|c: usize| c < table.spec_width() && table.spec_name(c as int) == name
}

/// Whether some feature column is neither numeric nor text.
pub open spec fn has_unsupported(table: Table, features: Seq<usize>) -> bool {
    exists|i: int|
        0 <= i < features.len() && table.spec_kind(#[trigger] features[i] as int)
            == ColumnKind::Other
}

/// The first reason, if any, for which a table cannot be fitted with at least
/// `min_features` features.
pub open spec fn fit_error(
    table: Table,
    treatment: Seq<char>,
    outcome: Seq<char>,
    min_features: int,
) -> Option<FitError> {
    let features = feature_columns(table, treatment, outcome);
    if features.len() < min_features {
        Some(FitError::TooFewFeatures)
    } else if has_unsupported(table, features) {
        Some(FitError::UnsupportedType)
    } else if !table.has_name(treatment) || !table.has_name(outcome) {
        Some(FitError::ColumnNotFound)
    } else if table.spec_kind(column_named(table, treatment) as int) != ColumnKind::Numeric
        || table.spec_kind(column_named(table, outcome) as int) != ColumnKind::Numeric {
        Some(FitError::NotNumeric)
    } else {
        None
    }
}

/// The parts that the columns of a table play under the two names.
pub open spec fn data_spec(table: Table, treatment: Seq<char>, outcome: Seq<char>) -> DataSpec {
    DataSpec {
        table,
        features: feature_columns(table, treatment, outcome),
        treatment: column_named(table, treatment),
        outcome: column_named(table, outcome),
    }
}

impl DataSpec {
    /// Every part is a column of the table and has a type that fits the part.
    pub open spec fn wf(&self) -> bool {
        &&& self.table.wf()
        &&& forall|i: int|
            0 <= i < self.features.len() ==> {
                &&& (#[trigger] self.features[i]) < self.table.spec_width()
                &&& self.table.spec_kind(self.features[i] as int) != ColumnKind::Other
            }
        &&& forall|i: int, j: int|
            0 <= i < j < self.features.len() ==> (#[trigger] self.features[i])
                < #[trigger] self.features[j]
        &&& self.treatment < self.table.spec_width()
        &&& self.table.spec_kind(self.treatment as int) == ColumnKind::Numeric
        &&& self.outcome < self.table.spec_width()
        &&& self.table.spec_kind(self.outcome as int) == ColumnKind::Numeric
    }

    /// Whether `c` is one of the feature columns.
    pub open spec fn is_feature(&self, c: usize) -> bool {
        self.features.contains(c)
    }

    /// Whether every entry of `rows` is a row of the table.
    pub open spec fn rows_ok(&self, rows: Seq<usize>) -> bool {
        forall|i: int| 0 <= i < rows.len() ==> (#[trigger] rows[i]) < self.table.spec_height()
    }

    /// The treatment value of row `r`.
    pub open spec fn treatment_at(&self, r: usize) -> int {
        self.table.spec_number(self.treatment as int, r as int) as int
    }

    /// The outcome value of row `r`.
    pub open spec fn outcome_at(&self, r: usize) -> int {
        self.table.spec_number(self.outcome as int, r as int) as int
    }
}

/// A table with its feature, treatment and outcome columns told apart.
#[derive(Debug)]
pub struct Dataset<'a> {
    table: &'a Table,
    features: Vec<usize>,
    treatment: usize,
    outcome: usize,
}

impl<'a> View for Dataset<'a> {
    type V = DataSpec;

    closed spec fn view(&self) -> DataSpec {
        DataSpec {
            table: *self.table,
            features: self.features@,
            treatment: self.treatment,
            outcome: self.outcome,
        }
    }
}

/// The feature columns are found again by walking the table: the walk over
/// the first `n + 1` columns extends the walk over the first `n`.
proof fn lemma_columns_below_push(n: nat)
    ensures
        columns_below(n + 1) == columns_below(n).push(n as usize),
{
    assert(columns_below(n + 1) =~= columns_below(n).push(n as usize));
}

impl<'a> Dataset<'a> {
    /// Reads the parts of the columns from their names and types.
    ///
    /// Every column but the treatment and the outcome column is a feature.
    /// The table is refused, for the first of these reasons that holds, where
    /// it has fewer than `min_features` features, a feature that is neither
    /// numeric nor text, no treatment or outcome column, or one of the two is
    /// not numeric.
    pub fn new(table: &'a Table, treatment: &String, outcome: &String, min_features: usize) -> (r:
        Result<Dataset<'a>, FitError>)
        requires
            table.wf(),
        ensures
            match fit_error(*table, treatment@, outcome@, min_features as int) {
                Some(e) => r == Err::<Dataset<'a>, FitError>(e),
                None => r.is_ok() && r.unwrap()@ == data_spec(*table, treatment@, outcome@)
                    && r.unwrap()@.wf(),
            },
    {
        let width = table.width();
        let ghost keep = is_no_part(*table, treatment@, outcome@);
        let mut features: Vec<usize> = Vec::new();
        let mut unsupported = false;
        let mut c: usize = 0;
        while c < width
            invariant
                table.wf(),
                width == table.spec_width(),
                c <= width,
                keep == is_no_part(*table, treatment@, outcome@),
                features@ == columns_below(c as nat).filter(keep),
                forall|i: int| 0 <= i < features@.len() ==> (#[trigger] features@[i]) < c,
                forall|i: int, j: int|
                    0 <= i < j < features@.len() ==> (#[trigger] features@[i])
                        < #[trigger] features@[j],
                unsupported == has_unsupported(*table, features@),
            decreases width - c,
        {
            proof {
                lemma_columns_below_push(c as nat);
                columns_below(c as nat).lemma_filter_push(c, keep);
            }
            let name = table.name(c);
            if !name.eq(treatment) && !name.eq(outcome) {
                let ghost before = features@;
                features.push(c);
                let other = table.kind(c) == ColumnKind::Other;
                proof {
                    if has_unsupported(*table, before) {
                        let i = choose|i: int|
                            0 <= i < before.len() && table.spec_kind(#[trigger] before[i] as int)
                                == ColumnKind::Other;
                        assert(features@[i] == before[i]);
                    }
                    if other {
                        assert(features@[before.len() as int] == c);
                    }
                    if has_unsupported(*table, features@) {
                        let i = choose|i: int|
                            0 <= i < features@.len() && table.spec_kind(
                                #[trigger] features@[i] as int,
                            ) == ColumnKind::Other;
                        if i < before.len() {
                            assert(before[i] == features@[i]);
                        }
                    }
                }
                unsupported = unsupported || other;
            }
            c += 1;
        }
        if features.len() < min_features {
            return Err(FitError::TooFewFeatures);
        }
        if unsupported {
            return Err(FitError::UnsupportedType);
        }
        let t = table.find(treatment);
        let o = table.find(outcome);
        if t.is_none() || o.is_none() {
            return Err(FitError::ColumnNotFound);
        }
        let t = t.unwrap();
        let o = o.unwrap();
        assert(column_named(*table, treatment@) == t);
        assert(column_named(*table, outcome@) == o);
        if table.kind(t) != ColumnKind::Numeric || table.kind(o) != ColumnKind::Numeric {
            return Err(FitError::NotNumeric);
        }
        Ok(Dataset { table, features, treatment: t, outcome: o })
    }

    /// The table.
    pub fn table(&self) -> (t: &'a Table)
        ensures
            *t == self@.table,
    {
        self.table
    }

    /// The feature columns, in table order.
    pub fn features(&self) -> (f: &Vec<usize>)
        ensures
            f@ == self@.features,
    {
        &self.features
    }

    /// The treatment column.
    pub fn treatment(&self) -> (c: usize)
        ensures
            c == self@.treatment,
    {
        self.treatment
    }

    /// The outcome column.
    pub fn outcome(&self) -> (c: usize)
        ensures
            c == self@.outcome,
    {
        self.outcome
    }
}

} // verus!
