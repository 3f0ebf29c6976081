//! Tables: an ordered sequence of rows conforming to a fixed schema.
//!
//! The schema invariant — every row's derived schema equals the table's
//! schema — is checked before every mutation and can never be left
//! violated by any operation here.

use vstd::prelude::*;

use crate::types::{spec_schema_of, DbError, DbType, Row, SpecValue};

verus! {

/// The mathematical value of a [`Table`]: its name, schema, and rows.
#[verifier::ext_equal]
pub struct SpecTable {
    pub name: Seq<char>,
    pub schema: Seq<DbType>,
    pub rows: Seq<Seq<SpecValue>>,
}

impl SpecTable {
    /// The schema invariant: every row's derived schema equals the
    /// table's schema — same length, same tags, same order.
    pub open spec fn wf(self) -> bool {
        forall|i: int|
            0 <= i < self.rows.len() ==> spec_schema_of(#[trigger] self.rows[i]) == self.schema
    }
}

/// The rows of a table, as a sequence of row models.
pub open spec fn rows_view(rs: Seq<Row>) -> Seq<Seq<SpecValue>> {
    Seq::new(rs.len(), |i: int| rs[i]@)
}

/// An ordered sequence of rows under a fixed schema, mutated only through
/// operations that enforce the schema invariant.
#[derive(Debug)]
pub struct Table {
    name: String,
    rows: Vec<Row>,
    schema: Vec<DbType>,
}

impl View for Table {
    type V = SpecTable;

    closed spec fn view(&self) -> SpecTable {
        SpecTable { name: self.name@, schema: self.schema@, rows: rows_view(self.rows@) }
    }
}

/// Whether two schemas are equal: same length, same tags, same order.
pub fn schema_matches(a: &[DbType], b: &[DbType]) -> (r: bool)
    ensures
        r == (a@ == b@),
{
    if a.len() != b.len() {
        return false;
    }
    let mut i: usize = 0;
    while i < a.len()
        invariant
            a@.len() == b@.len(),
            i <= a@.len(),
            forall|j: int| 0 <= j < i ==> a@[j] == b@[j],
        decreases a@.len() - i,
    {
        if a[i] != b[i] {
            return false;
        }
        i += 1;
    }
    proof {
        assert(a@ =~= b@);
    }
    true
}

impl Clone for Table {
    fn clone(&self) -> (r: Self)
        ensures
            r@ == self@,
    {
        let mut rows: Vec<Row> = Vec::new();
        let mut i: usize = 0;
        while i < self.rows.len()
            invariant
                i <= self.rows@.len(),
                rows@.len() == i,
                forall|j: int| 0 <= j < i ==> rows@[j]@ == self.rows@[j]@,
            decreases self.rows@.len() - i,
        {
            rows.push(self.rows[i].clone());
            i += 1;
        }
        let r = Table { name: self.name.clone(), rows, schema: self.schema.clone() };
        proof {
            assert(r@.rows =~= self@.rows);
            assert(r@ =~= self@);
        }
        r
    }
}

impl Table {
    /// A new table with the given name and schema and no rows.
    /// There is no failure mode.
    pub fn new(name: String, schema: Vec<DbType>) -> (t: Table)
        ensures
            t@ == (SpecTable { name: name@, schema: schema@, rows: Seq::empty() }),
            t@.wf(),
    {
        let t = Table { name, rows: Vec::new(), schema };
        proof {
            assert(t@.rows =~= Seq::<Seq<SpecValue>>::empty());
            assert(t@ =~= (SpecTable { name: t@.name, schema: t@.schema, rows: Seq::empty() }));
        }
        t
    }

    /// Whether this table's name is `other`.
    pub fn name_matches(&self, other: &String) -> (r: bool)
        ensures
            r == (self@.name == other@),
    {
        self.name == *other
    }

    /// The table's name.
    pub fn name(&self) -> (n: &str)
        ensures
            n@ == self@.name,
    {
        self.name.as_str()
    }

    /// Appends `row` at the end iff its derived schema equals the table's
    /// schema; otherwise fails with `IncorrectRow` and changes nothing.
    pub fn insert_row(&mut self, row: Row) -> (r: Result<(), DbError>)
        ensures
            spec_schema_of(row@) == old(self)@.schema ==> r is Ok && final(self)@ == (SpecTable {
                rows: old(self)@.rows.push(row@),
                ..old(self)@
            }),
            spec_schema_of(row@) != old(self)@.schema ==> (r matches Err(DbError::IncorrectRow))
                && final(self)@ == old(self)@,
            old(self)@.wf() ==> final(self)@.wf(),
    {
        let row_schema = row.schema();
        if schema_matches(row_schema.as_slice(), self.schema.as_slice()) {
            let ghost pre = self@;
            let ghost rv = row@;
            self.rows.push(row);
            proof {
                assert(self@.rows =~= pre.rows.push(rv));
            }
            Ok(())
        } else {
            Err(DbError::IncorrectRow)
        }
    }

    /// Replaces the row at `idx` iff the new row's derived schema equals
    /// the table's schema and `idx` is in bounds. A schema mismatch fails
    /// with `IncorrectRow` (checked first); an out-of-range `idx` fails
    /// with `IndexOutOfRange`. A failure changes nothing.
    pub fn update_row(&mut self, idx: usize, row: Row) -> (r: Result<(), DbError>)
        ensures
            spec_schema_of(row@) != old(self)@.schema ==> (r matches Err(DbError::IncorrectRow))
                && final(self)@ == old(self)@,
            spec_schema_of(row@) == old(self)@.schema && idx >= old(self)@.rows.len() ==> (
            r matches Err(DbError::IndexOutOfRange)) && final(self)@ == old(self)@,
            spec_schema_of(row@) == old(self)@.schema && idx < old(self)@.rows.len() ==> r is Ok
                && final(self)@ == (SpecTable {
                rows: old(self)@.rows.update(idx as int, row@),
                ..old(self)@
            }),
            old(self)@.wf() ==> final(self)@.wf(),
    {
        let row_schema = row.schema();
        if !schema_matches(row_schema.as_slice(), self.schema.as_slice()) {
            return Err(DbError::IncorrectRow);
        }
        if idx >= self.rows.len() {
            return Err(DbError::IndexOutOfRange);
        }
        let ghost pre = self@;
        self.rows[idx] = row;
        proof {
            assert(self@.rows =~= pre.rows.update(idx as int, self.rows@[idx as int]@));
        }
        Ok(())
    }

    /// Removes the row at `idx`, shifting later rows down; an out-of-range
    /// `idx` is a documented no-op, not an error.
    pub fn remove_row(&mut self, idx: usize)
        ensures
            idx < old(self)@.rows.len() ==> final(self)@ == (SpecTable {
                rows: old(self)@.rows.remove(idx as int),
                ..old(self)@
            }),
            idx >= old(self)@.rows.len() ==> final(self)@ == old(self)@,
            old(self)@.wf() ==> final(self)@.wf(),
    {
        if idx < self.rows.len() {
            let ghost pre = self@;
            self.rows.remove(idx);
            proof {
                assert(self@.rows =~= pre.rows.remove(idx as int));
            }
        }
    }

    /// Scans all rows; returns `InvalidTableState` naming this table iff
    /// any row violates the schema invariant. Used during snapshot load to
    /// catch corrupted or incompatible data.
    pub fn validate_rows(&self) -> (r: Result<(), DbError>)
        ensures
            r is Ok <==> self@.wf(),
            !self@.wf() ==> (r matches Err(DbError::InvalidTableState(n)) && n@ == self@.name),
    {
        let mut i: usize = 0;
        while i < self.rows.len()
            invariant
                i <= self.rows@.len(),
                forall|j: int|
                    0 <= j < i ==> spec_schema_of(#[trigger] self@.rows[j]) == self@.schema,
            decreases self.rows@.len() - i,
        {
            let row_schema = self.rows[i].schema();
            if !schema_matches(row_schema.as_slice(), self.schema.as_slice()) {
                proof {
                    assert(self@.rows[i as int] == self.rows@[i as int]@);
                    assert(spec_schema_of(self@.rows[i as int]) != self@.schema);
                }
                return Err(DbError::InvalidTableState(self.name.clone()));
            }
            i += 1;
        }
        Ok(())
    }

    /// Read-only view of the schema.
    pub fn schema(&self) -> (s: &[DbType])
        ensures
            s@ == self@.schema,
    {
        self.schema.as_slice()
    }

    /// Read-only view of the rows, in insertion order.
    pub fn rows(&self) -> (r: &[Row])
        ensures
            rows_view(r@) == self@.rows,
            r@.len() == self@.rows.len(),
    {
        self.rows.as_slice()
    }
}

} // verus!
