//! Dividing the rows of a dataset in two by a split value.

use crate::dataset::{every_row, DataSpec, Dataset};
use crate::node::{SplitSpec, SplitValue};
use crate::table::ColumnKind;
use vstd::prelude::*;

verus! {

/// Why rows cannot be divided.
#[derive(Clone, Copy, Debug, PartialEq, Eq, Structural)]
pub enum SplitError {
    /// The table has no such column.
    NoSuchColumn,
    /// A threshold was given for a column that is not numeric, or a category
    /// for a column that holds no text.
    KindMismatch,
}

impl DataSpec {
    /// Whether rows can be divided by `v` on column `c`: never, but for the
    /// first of the reasons in `SplitError` that holds.
    pub open spec fn split_error(&self, c: usize, v: SplitSpec) -> Option<SplitError> {
        if c >= self.table.spec_width() {
            Some(SplitError::NoSuchColumn)
        } else if self.table.spec_kind(c as int) != (match v {
            SplitSpec::Numeric(_) => ColumnKind::Numeric,
            SplitSpec::Str(_) => ColumnKind::Text,
        }) {
            Some(SplitError::KindMismatch)
        } else {
            None
        }
    }

    /// The side of a row: a row goes left when its number is at most the
    /// threshold, or its text is the category.
    pub open spec fn goes_left(&self, c: usize, v: SplitSpec) -> spec_fn(usize) -> bool {
        |r: usize|
            match v {
                SplitSpec::Numeric(x) => self.table.spec_number(c as int, r as int) <= x,
                SplitSpec::Str(s) => self.table.spec_text(c as int, r as int) == s,
            }
    }

    /// A row goes right when it does not go left.
    pub open spec fn goes_right(&self, c: usize, v: SplitSpec) -> spec_fn(usize) -> bool {
        |r: usize| !(self.goes_left(c, v))(r)
    }

    /// The rows that go left, in the order in which `rows` has them.
    pub open spec fn left_rows(&self, c: usize, v: SplitSpec, rows: Seq<usize>) -> Seq<usize> {
        rows.filter(self.goes_left(c, v))
    }

    /// The rows that go right, in the order in which `rows` has them.
    pub open spec fn right_rows(&self, c: usize, v: SplitSpec, rows: Seq<usize>) -> Seq<usize> {
        rows.filter(self.goes_right(c, v))
    }
}

/// The two sides of a division are apart and make up the whole: no row is on
/// both sides, every row is on one of them, each side holds rows of the whole
/// only, and the sizes of the sides add up to the size of the whole.
pub proof fn lemma_partition_complete(data: DataSpec, c: usize, v: SplitSpec, rows: Seq<usize>)
    ensures
        data.left_rows(c, v, rows).len() + data.right_rows(c, v, rows).len() == rows.len(),
        forall|r: usize|
            !(data.left_rows(c, v, rows).contains(r) && data.right_rows(c, v, rows).contains(r)),
        forall|r: usize|
            rows.contains(r) <==> data.left_rows(c, v, rows).contains(r) || data.right_rows(
                c,
                v,
                rows,
            ).contains(r),
        data.rows_ok(rows) ==> data.rows_ok(data.left_rows(c, v, rows)) && data.rows_ok(
            data.right_rows(c, v, rows),
        ),
    decreases rows.len(),
{
    broadcast use
        Seq::lemma_filter_contains,
        Seq::lemma_filter_contains_rev,
        Seq::lemma_filter_pred,
    ;

    let left = data.goes_left(c, v);
    let right = data.goes_right(c, v);
    if rows.len() > 0 {
        let front = rows.drop_last();
        let last = rows.last();
        assert(front.push(last) =~= rows);
        lemma_partition_complete(data, c, v, front);
        front.lemma_filter_push(last, left);
        front.lemma_filter_push(last, right);
        assert(right(last) == !left(last));
    } else {
        assert(rows.filter(left).len() == 0) by {
            rows.lemma_filter_len(left);
        }
        assert(rows.filter(right).len() == 0) by {
            rows.lemma_filter_len(right);
        }
    }
    assert forall|r: usize|
        !(data.left_rows(c, v, rows).contains(r) && data.right_rows(c, v, rows).contains(
            r,
        )) by {
        if rows.filter(left).contains(r) && rows.filter(right).contains(r) {
            let i = choose|i: int| 0 <= i < rows.filter(left).len() && rows.filter(left)[i] == r;
            assert(left(rows.filter(left)[i]));
            let j = choose|j: int|
                0 <= j < rows.filter(right).len() && rows.filter(right)[j] == r;
            assert(right(rows.filter(right)[j]));
        }
    }
    assert forall|r: usize|
        rows.contains(r) <==> data.left_rows(c, v, rows).contains(r) || data.right_rows(
            c,
            v,
            rows,
        ).contains(r) by {
        if rows.contains(r) {
            if left(r) {
                assert(rows.filter(left).contains(r));
            } else {
                assert(right(r));
                assert(rows.filter(right).contains(r));
            }
        }
        if rows.filter(left).contains(r) {
            let i = choose|i: int| 0 <= i < rows.filter(left).len() && rows.filter(left)[i] == r;
            assert(rows.contains(rows.filter(left)[i]));
        }
        if rows.filter(right).contains(r) {
            let j = choose|j: int|
                0 <= j < rows.filter(right).len() && rows.filter(right)[j] == r;
            assert(rows.contains(rows.filter(right)[j]));
        }
    }
    if data.rows_ok(rows) {
        assert forall|i: int| 0 <= i < rows.filter(left).len() implies (#[trigger] rows.filter(
            left,
        )[i]) < data.table.spec_height() by {
            assert(rows.contains(rows.filter(left)[i]));
        }
        assert forall|i: int| 0 <= i < rows.filter(right).len() implies (#[trigger] rows.filter(
            right,
        )[i]) < data.table.spec_height() by {
            assert(rows.contains(rows.filter(right)[i]));
        }
    }
}

impl<'a> Dataset<'a> {
    /// All the rows of the table, from the first to the last.
    pub fn all_rows(&self) -> (rows: Vec<usize>)
        ensures
            rows@ == every_row(self@.table.spec_height()),
            self@.rows_ok(rows@),
    {
        let height = self.table().height();
        let mut rows: Vec<usize> = Vec::new();
        let mut r: usize = 0;
        while r < height
            invariant
                r <= height,
                height == self@.table.spec_height(),
                rows@ == every_row(r as nat),
            decreases height - r,
        {
            rows.push(r);
            r += 1;
            assert(rows@ =~= every_row(r as nat));
        }
        rows
    }

    /// Divides `rows` by the split value `v` on column `c`.
    ///
    /// With a threshold, the rows whose number is at most the threshold go
    /// left and the others right. With a category, the rows whose text is the
    /// category go left and the others right. Each side keeps the order of
    /// `rows`.
    pub fn split_set(&self, v: &SplitValue, c: usize, rows: &Vec<usize>) -> (r: Result<
        (Vec<usize>, Vec<usize>),
        SplitError,
    >)
        requires
            self@.wf(),
            self@.rows_ok(rows@),
        ensures
            match self@.split_error(c, v@) {
                Some(e) => r == Err::<(Vec<usize>, Vec<usize>), SplitError>(e),
                None => r.is_ok() && r.unwrap().0@ == self@.left_rows(c, v@, rows@)
                    && r.unwrap().1@ == self@.right_rows(c, v@, rows@),
            },
    {
        let table = self.table();
        if c >= table.width() {
            return Err(SplitError::NoSuchColumn);
        }
        let wanted = match v {
            SplitValue::Numeric(_) => ColumnKind::Numeric,
            SplitValue::Str(_) => ColumnKind::Text,
        };
        if table.kind(c) != wanted {
            return Err(SplitError::KindMismatch);
        }
        let ghost go_left = self@.goes_left(c, v@);
        let ghost go_right = self@.goes_right(c, v@);
        let mut left: Vec<usize> = Vec::new();
        let mut right: Vec<usize> = Vec::new();
        let mut i: usize = 0;
        assert(rows@.take(0) =~= Seq::<usize>::empty());
        assert(rows@.take(0).filter(go_left).len() == 0) by {
            rows@.take(0).lemma_filter_len(go_left);
        }
        assert(rows@.take(0).filter(go_right).len() == 0) by {
            rows@.take(0).lemma_filter_len(go_right);
        }
        while i < rows.len()
            invariant
                self@.wf(),
                self@.rows_ok(rows@),
                *table == self@.table,
                c < table.spec_width(),
                self@.split_error(c, v@).is_none(),
                go_left == self@.goes_left(c, v@),
                go_right == self@.goes_right(c, v@),
                i <= rows@.len(),
                left@ == rows@.take(i as int).filter(go_left),
                right@ == rows@.take(i as int).filter(go_right),
            decreases rows@.len() - i,
        {
            let row = rows[i];
            proof {
                assert(rows@.take(i + 1) =~= rows@.take(i as int).push(row));
                rows@.take(i as int).lemma_filter_push(row, go_left);
                rows@.take(i as int).lemma_filter_push(row, go_right);
                assert(go_right(row) == !go_left(row));
            }
            let goes = match v {
                SplitValue::Numeric(x) => {
                    let number = table.number(c, row);
                    number.unwrap() <= *x
                },
                SplitValue::Str(s) => {
                    let text = table.text(c, row);
                    text.unwrap().eq(s)
                },
            };
            assert(goes == go_left(row));
            if goes {
                left.push(row);
            } else {
                right.push(row);
            }
            i += 1;
        }
        assert(rows@.take(rows@.len() as int) =~= rows@);
        Ok((left, right))
    }
}

} // verus!
