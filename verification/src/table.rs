//! A small in-memory table: named columns of equal height.

use vstd::prelude::*;

verus! {

/// The values of one column.
///
/// A numeric column holds 64-bit integers. A column of fractional numbers is
/// passed as integer codes that keep the order of the numbers. `Other` stands
/// for a column whose type is neither numeric nor text; its values are not
/// kept.
#[derive(Debug)]
pub enum Column {
    Numeric(Vec<i64>),
    Text(Vec<String>),
    Other,
}

/// The type of a column.
#[derive(Clone, Copy, Debug, PartialEq, Eq, Structural)]
pub enum ColumnKind {
    Numeric,
    Text,
    Other,
}

impl Column {
    /// The type of the column.
    pub open spec fn spec_kind(&self) -> ColumnKind {
        match self {
            Column::Numeric(_) => ColumnKind::Numeric,
            Column::Text(_) => ColumnKind::Text,
            Column::Other => ColumnKind::Other,
        }
    }

    /// Whether the column can stand in a table of `height` rows.
    pub open spec fn fits(&self, height: nat) -> bool {
        match self {
            Column::Numeric(v) => v@.len() == height,
            Column::Text(v) => v@.len() == height,
            Column::Other => true,
        }
    }

    /// The type of the column.
    pub fn kind(&self) -> (k: ColumnKind)
        ensures
            k == self.spec_kind(),
    {
        match self {
            Column::Numeric(_) => ColumnKind::Numeric,
            Column::Text(_) => ColumnKind::Text,
            Column::Other => ColumnKind::Other,
        }
    }
}

/// Why a column was not added to a table.
#[derive(Clone, Copy, Debug, PartialEq, Eq, Structural)]
pub enum TableError {
    /// The column has no name.
    EmptyName,
    /// The column does not have as many values as the table has rows.
    LengthMismatch,
    /// The table already has a column of that name.
    DuplicateName,
}

/// Named columns of one height. Every column has a name, and no two columns
/// share one.
#[derive(Debug)]
pub struct Table {
    names: Vec<String>,
    columns: Vec<Column>,
    height: usize,
}

impl Table {
    /// The invariant of the type: one name per column, none of them empty,
    /// every column as long as the table is high, and no name twice.
    pub closed spec fn wf(&self) -> bool {
        &&& self.names@.len() == self.columns@.len()
        &&& forall|c: int| 0 <= c < self.names@.len() ==> (#[trigger] self.names@[c])@.len() > 0
        &&& forall|c: int| 0 <= c < self.columns@.len() ==> (#[trigger] self.columns@[c]).fits(self.height as nat)
        &&& forall|a: int, b: int|
            0 <= a < b < self.names@.len() ==> (#[trigger] self.names@[a])@ != (#[trigger] self.names@[b])@
    }

    /// The number of rows.
    pub closed spec fn spec_height(&self) -> nat {
        self.height as nat
    }

    /// The number of columns.
    pub closed spec fn spec_width(&self) -> nat {
        self.columns@.len()
    }

    /// The name of column `c`.
    pub closed spec fn spec_name(&self, c: int) -> Seq<char> {
        self.names@[c]@
    }

    /// The type of column `c`.
    pub closed spec fn spec_kind(&self, c: int) -> ColumnKind {
        self.columns@[c].spec_kind()
    }

    /// The number in row `r` of the numeric column `c`.
    pub closed spec fn spec_number(&self, c: int, r: int) -> i64 {
        match self.columns@[c] {
            Column::Numeric(v) => v@[r],
            _ => 0,
        }
    }

    /// The text in row `r` of the text column `c`.
    pub closed spec fn spec_text(&self, c: int, r: int) -> Seq<char> {
        match self.columns@[c] {
            Column::Text(v) => v@[r]@,
            _ => Seq::empty(),
        }
    }

    /// Whether some column is called `name`.
    pub open spec fn has_name(&self, name: Seq<char>) -> bool {
        exists|c: int| 0 <= c < self.spec_width() && #[trigger] self.spec_name(c) == name
    }

    /// No two columns of a table have the same name.
    pub proof fn lemma_names_differ(&self, a: int, b: int)
        requires
            self.wf(),
            0 <= a < self.spec_width(),
            0 <= b < self.spec_width(),
            self.spec_name(a) == self.spec_name(b),
        ensures
            a == b,
    {
        if a < b {
            assert(self.names@[a]@ != self.names@[b]@);
        } else if b < a {
            assert(self.names@[b]@ != self.names@[a]@);
        }
    }

    /// No column of a table has an empty name.
    pub proof fn lemma_names_not_empty(&self, c: int)
        requires
            self.wf(),
            0 <= c < self.spec_width(),
        ensures
            self.spec_name(c).len() > 0,
    {
        assert(self.names@[c]@.len() > 0);
    }

    /// A table of `height` rows and no columns.
    pub fn new(height: usize) -> (t: Table)
        ensures
            t.wf(),
            t.spec_height() == height,
            t.spec_width() == 0,
    {
        Table { names: Vec::new(), columns: Vec::new(), height }
    }

    /// The number of rows.
    pub fn height(&self) -> (h: usize)
        ensures
            h == self.spec_height(),
    {
        self.height
    }

    /// The number of columns.
    pub fn width(&self) -> (w: usize)
        requires
            self.wf(),
        ensures
            w == self.spec_width(),
    {
        self.columns.len()
    }

    /// The name of column `c`.
    pub fn name(&self, c: usize) -> (s: &String)
        requires
            self.wf(),
            c < self.spec_width(),
        ensures
            s@ == self.spec_name(c as int),
    {
        &self.names[c]
    }

    /// The type of column `c`.
    pub fn kind(&self, c: usize) -> (k: ColumnKind)
        requires
            self.wf(),
            c < self.spec_width(),
        ensures
            k == self.spec_kind(c as int),
    {
        self.columns[c].kind()
    }

    /// The number in row `r` of column `c`; `None` where the column is not
    /// numeric.
    pub fn number(&self, c: usize, r: usize) -> (x: Option<i64>)
        requires
            self.wf(),
            c < self.spec_width(),
            r < self.spec_height(),
        ensures
            x.is_some() <==> self.spec_kind(c as int) == ColumnKind::Numeric,
            x.is_some() ==> x.unwrap() == self.spec_number(c as int, r as int),
    {
        match &self.columns[c] {
            Column::Numeric(v) => Some(v[r]),
            _ => None,
        }
    }

    /// The text in row `r` of column `c`; `None` where the column holds no
    /// text.
    pub fn text(&self, c: usize, r: usize) -> (x: Option<&String>)
        requires
            self.wf(),
            c < self.spec_width(),
            r < self.spec_height(),
        ensures
            x.is_some() <==> self.spec_kind(c as int) == ColumnKind::Text,
            x.is_some() ==> x.unwrap()@ == self.spec_text(c as int, r as int),
    {
        match &self.columns[c] {
            Column::Text(v) => Some(&v[r]),
            _ => None,
        }
    }

    /// The column called `name`, if there is one. No other column has that
    /// name.
    pub fn find(&self, name: &String) -> (found: Option<usize>)
        requires
            self.wf(),
        ensures
            found.is_some() <==> self.has_name(name@),
            found.is_some() ==> found.unwrap() < self.spec_width() && self.spec_name(
                found.unwrap() as int,
            ) == name@,
            forall|c: int|
                0 <= c < self.spec_width() && #[trigger] self.spec_name(c) == name@ ==> found
                    == Some(c as usize),
    {
        let mut c: usize = 0;
        while c < self.names.len()
            invariant
                self.wf(),
                c <= self.names@.len(),
                forall|k: int| 0 <= k < c ==> (#[trigger] self.names@[k])@ != name@,
            decreases self.names@.len() - c,
        {
            if self.names[c].eq(name) {
                assert(self.spec_name(c as int) == name@);
                return Some(c);
            }
            c += 1;
        }
        None
    }

    /// Adds a column at the right. The table is left as it was where the name
    /// is empty, the column has another height than the table, or the name is
    /// taken.
    pub fn push_column(&mut self, name: String, column: Column) -> (r: Result<(), TableError>)
        requires
            old(self).wf(),
        ensures
            final(self).wf(),
            final(self).spec_height() == old(self).spec_height(),
            r == if name@.len() == 0 {
                Err::<(), TableError>(TableError::EmptyName)
            } else if !column.fits(old(self).spec_height()) {
                Err::<(), TableError>(TableError::LengthMismatch)
            } else if old(self).has_name(name@) {
                Err::<(), TableError>(TableError::DuplicateName)
            } else {
                Ok::<(), TableError>(())
            },
            r.is_err() ==> *final(self) == *old(self),
            r.is_ok() ==> {
                &&& final(self).spec_width() == old(self).spec_width() + 1
                &&& final(self).spec_name(old(self).spec_width() as int) == name@
                &&& final(self).spec_kind(old(self).spec_width() as int) == column.spec_kind()
                &&& forall|c: int|
                    0 <= c < old(self).spec_width() ==> {
                        &&& #[trigger] final(self).spec_name(c) == old(self).spec_name(c)
                        &&& #[trigger] final(self).spec_kind(c) == old(self).spec_kind(c)
                    }
                &&& forall|c: int, i: int|
                    0 <= c < old(self).spec_width() ==> {
                        &&& #[trigger] final(self).spec_number(c, i) == old(self).spec_number(c, i)
                        &&& #[trigger] final(self).spec_text(c, i) == old(self).spec_text(c, i)
                    }
                &&& forall|i: int|
                    0 <= i < old(self).spec_height() ==> {
                        &&& column matches Column::Numeric(v) ==> #[trigger] final(self).spec_number(
                            old(self).spec_width() as int,
                            i,
                        ) == v@[i]
                        &&& column matches Column::Text(v) ==> #[trigger] final(self).spec_text(
                            old(self).spec_width() as int,
                            i,
                        ) == v@[i]@
                    }
            },
    {
        if name.as_str().is_empty() {
            return Err(TableError::EmptyName);
        }
        let fits = match &column {
            Column::Numeric(v) => v.len() == self.height,
            Column::Text(v) => v.len() == self.height,
            Column::Other => true,
        };
        if !fits {
            return Err(TableError::LengthMismatch);
        }
        if self.find(&name).is_some() {
            return Err(TableError::DuplicateName);
        }
        proof {
            assert forall|k: int| 0 <= k < self.names@.len() implies (#[trigger] self.names@[k])@
                != name@ by {
                assert(self.spec_name(k) == self.names@[k]@);
            }
        }
        self.names.push(name);
        self.columns.push(column);
        Ok(())
    }
}

} // verus!
