//! The session: the single exclusively-accessed slot holding "the
//! database currently open", which the service layer drives.
//!
//! Every operation here is a deterministic transition of the slot's
//! state, so any sequence of operations — however callers interleave
//! around the exclusive-access point — leaves exactly the state that
//! applying them one after another does. Installing a database while one
//! is open replaces the open one outright: the replaced in-memory state
//! is discarded without a save. That is deliberate, documented behaviour.

use vstd::prelude::*;

use crate::database::{SavedDatabase, SpecSaved};
use crate::table::SpecTable;
use crate::types::{DbError, DbType, Row};

verus! {

/// The slot for at most one open database.
#[derive(Debug)]
pub struct Session {
    db: Option<SavedDatabase>,
}

impl View for Session {
    type V = Option<SpecSaved>;

    closed spec fn view(&self) -> Option<SpecSaved> {
        match self.db {
            Some(ref s) => Some(s@),
            None => None,
        }
    }
}

impl Session {
    /// The session's invariant: whatever database is open is well-formed.
    pub open spec fn wf(self) -> bool {
        self@ is Some ==> self@.unwrap().db.wf()
    }

    /// A session with no database open.
    pub fn new() -> (s: Session)
        ensures
            s@ is None,
            s.wf(),
    {
        Session { db: None }
    }

    /// Installs `db` as the open database, replacing whatever was open.
    /// The previous in-memory state is discarded without a save.
    pub fn install(&mut self, db: SavedDatabase)
        requires
            db@.db.wf(),
        ensures
            final(self)@ == Some(db@),
            final(self).wf(),
    {
        self.db = Some(db);
    }

    /// The open database's name; absent when none is open.
    pub fn get_name(&self) -> (r: Option<String>)
        ensures
            self@ is None ==> r is None,
            self@ is Some ==> r is Some && r.unwrap()@ == self@.unwrap().db.name,
    {
        match &self.db {
            Some(s) => Some(s.get_name().to_owned()),
            None => None,
        }
    }

    /// The open database's table names; absent when none is open.
    pub fn get_table_names(&self) -> (r: Option<Vec<String>>)
        ensures
            self@ is None ==> r is None,
            self@ is Some ==> r is Some && {
                let names = r.unwrap();
                &&& names@.len() == self@.unwrap().db.tables.len()
                &&& forall|i: int|
                    0 <= i < names@.len() ==> (#[trigger] names@[i])@ == self@.unwrap().db.tables[i].name
            },
    {
        match &self.db {
            Some(s) => Some(s.get_table_names()),
            None => None,
        }
    }

    /// The snapshot to persist: the open database as one blob; absent
    /// when none is open. Writing the file is the caller's I/O.
    pub fn save_bytes(&self) -> (r: Option<Vec<u8>>)
        ensures
            self@ is None ==> r is None,
            self@ is Some ==> r is Some && r.unwrap()@ == crate::codec::senc_db(
                self@.unwrap().db,
            ) && crate::codec::db_bounded(self@.unwrap().db),
    {
        match &self.db {
            Some(s) => Some(s.save_bytes()),
            None => None,
        }
    }

    /// The path the open database is bound to; absent when none is open.
    pub fn path(&self) -> (r: Option<String>)
        ensures
            self@ is None ==> r is None,
            self@ is Some ==> r is Some && r.unwrap()@ == self@.unwrap().path,
    {
        match &self.db {
            Some(s) => Some(s.path().to_owned()),
            None => None,
        }
    }

    /// Removes the named table from the open database; absent when no
    /// database is open, otherwise exactly [`SavedDatabase::remove_table`].
    pub fn remove_table(&mut self, name: String) -> (r: Option<Result<(), DbError>>)
        requires
            old(self).wf(),
        ensures
            final(self).wf(),
            old(self)@ is None ==> r is None && final(self)@ == old(self)@,
            old(self)@ is Some ==> r is Some && {
                let pre = old(self)@.unwrap();
                let post = final(self)@.unwrap();
                &&& final(self)@ is Some
                &&& post.path == pre.path
                &&& pre.db.has_table(name@) ==> r.unwrap() is Ok && post.db == (
                crate::database::SpecDatabase {
                    name: pre.db.name,
                    tables: pre.db.tables.remove(pre.db.index_of(name@)),
                })
                &&& !pre.db.has_table(name@) ==> (r.unwrap() matches Err(DbError::TableIsMissing(
                    n,
                )) && n@ == name@) && final(self)@ == old(self)@
            },
    {
        match &mut self.db {
            Some(s) => Some(s.remove_table(name)),
            None => None,
        }
    }

    /// Creates a table in the open database; absent when no database is
    /// open, otherwise exactly [`SavedDatabase::create_table`].
    pub fn create_table(&mut self, name: String, schema: Vec<DbType>) -> (r: Option<
        Result<(), DbError>,
    >)
        requires
            old(self).wf(),
        ensures
            final(self).wf(),
            old(self)@ is None ==> r is None && final(self)@ == old(self)@,
            old(self)@ is Some ==> r is Some && {
                let pre = old(self)@.unwrap();
                let post = final(self)@.unwrap();
                &&& final(self)@ is Some
                &&& post.path == pre.path
                &&& !pre.db.has_table(name@) ==> r.unwrap() is Ok && post.db == (
                crate::database::SpecDatabase {
                    name: pre.db.name,
                    tables: pre.db.tables.push(
                        SpecTable { name: name@, schema: schema@, rows: Seq::empty() },
                    ),
                })
                &&& pre.db.has_table(name@) ==> (r.unwrap() matches Err(
                    DbError::TableIsAlreadyPresent(n),
                ) && n@ == name@) && final(self)@ == old(self)@
            },
    {
        match &mut self.db {
            Some(s) => Some(s.create_table(name, schema)),
            None => None,
        }
    }

    /// Removes the row at `index` from the named table: a no-op past the
    /// end, `TableIsMissing` if the table is absent, absent if no
    /// database is open.
    pub fn remove_row(&mut self, table: String, index: usize) -> (r: Option<Result<(), DbError>>)
        requires
            old(self).wf(),
        ensures
            final(self).wf(),
            old(self)@ is None ==> r is None && final(self)@ == old(self)@,
            old(self)@ is Some ==> r is Some && {
                let pre = old(self)@.unwrap();
                let post = final(self)@.unwrap();
                &&& final(self)@ is Some
                &&& post.path == pre.path
                &&& post.db.name == pre.db.name
                &&& !pre.db.has_table(table@) ==> (r.unwrap() matches Err(DbError::TableIsMissing(
                    n,
                )) && n@ == table@) && final(self)@ == old(self)@
                &&& pre.db.has_table(table@) ==> {
                    let idx = pre.db.index_of(table@);
                    let t = pre.db.tables[idx];
                    &&& r.unwrap() is Ok
                    &&& post.db.tables.len() == pre.db.tables.len()
                    &&& forall|j: int|
                        0 <= j < pre.db.tables.len() && j != idx ==> post.db.tables[j]
                            == pre.db.tables[j]
                    &&& index < t.rows.len() ==> post.db.tables[idx] == (SpecTable {
                        rows: t.rows.remove(index as int),
                        ..t
                    })
                    &&& index >= t.rows.len() ==> post.db.tables[idx] == t
                }
            },
    {
        match &mut self.db {
            Some(s) => match s.get_table_mut(table) {
                Ok(t) => {
                    t.remove_row(index);
                    Some(Ok(()))
                },
                Err(e) => Some(Err(e)),
            },
            None => None,
        }
    }

    /// Appends `row` to the named table iff it fits the table's schema:
    /// `IncorrectRow` on a mismatch, `TableIsMissing` if the table is
    /// absent, absent if no database is open.
    pub fn insert_row(&mut self, table: String, row: Row) -> (r: Option<Result<(), DbError>>)
        requires
            old(self).wf(),
        ensures
            final(self).wf(),
            old(self)@ is None ==> r is None && final(self)@ == old(self)@,
            old(self)@ is Some ==> r is Some && {
                let pre = old(self)@.unwrap();
                let post = final(self)@.unwrap();
                &&& final(self)@ is Some
                &&& post.path == pre.path
                &&& post.db.name == pre.db.name
                &&& !pre.db.has_table(table@) ==> (r.unwrap() matches Err(DbError::TableIsMissing(
                    n,
                )) && n@ == table@) && final(self)@ == old(self)@
                &&& pre.db.has_table(table@) ==> {
                    let idx = pre.db.index_of(table@);
                    let t = pre.db.tables[idx];
                    &&& post.db.tables.len() == pre.db.tables.len()
                    &&& forall|j: int|
                        0 <= j < pre.db.tables.len() && j != idx ==> post.db.tables[j]
                            == pre.db.tables[j]
                    &&& crate::types::spec_schema_of(row@) == t.schema ==> r.unwrap() is Ok
                        && post.db.tables[idx] == (SpecTable { rows: t.rows.push(row@), ..t })
                    &&& crate::types::spec_schema_of(row@) != t.schema ==> (r.unwrap() matches Err(
                        DbError::IncorrectRow,
                    )) && post.db.tables[idx] == t
                }
            },
    {
        match &mut self.db {
            Some(s) => match s.get_table_mut(table) {
                Ok(t) => Some(t.insert_row(row)),
                Err(e) => Some(Err(e)),
            },
            None => None,
        }
    }

    /// The named table's schema; absent when the database or the table is.
    pub fn get_table_schema(&self, table: String) -> (r: Option<Vec<DbType>>)
        requires
            self.wf(),
        ensures
            self@ is None ==> r is None,
            self@ is Some && !self@.unwrap().db.has_table(table@) ==> r is None,
            self@ is Some && self@.unwrap().db.has_table(table@) ==> r is Some && r.unwrap()@
                == self@.unwrap().db.tables[self@.unwrap().db.index_of(table@)].schema,
    {
        match &self.db {
            Some(s) => match s.get_table(table) {
                Ok(t) => Some(vstd::slice::slice_to_vec(t.schema())),
                Err(_) => None,
            },
            None => None,
        }
    }

    /// All rows of the named table, in order; absent when the database or
    /// the table is.
    pub fn get_rows(&self, table: String) -> (r: Option<Vec<Row>>)
        requires
            self.wf(),
        ensures
            self@ is None ==> r is None,
            self@ is Some && !self@.unwrap().db.has_table(table@) ==> r is None,
            self@ is Some && self@.unwrap().db.has_table(table@) ==> r is Some && crate::table::rows_view(
                r.unwrap()@,
            ) == self@.unwrap().db.tables[self@.unwrap().db.index_of(table@)].rows,
    {
        match &self.db {
            Some(s) => match s.get_table(table) {
                Ok(t) => {
                    let rows = t.rows();
                    let mut out: Vec<Row> = Vec::new();
                    let mut i: usize = 0;
                    while i < rows.len()
                        invariant
                            i <= rows@.len(),
                            out@.len() == i,
                            forall|j: int| 0 <= j < i ==> (#[trigger] out@[j])@ == rows@[j]@,
                        decreases rows@.len() - i,
                    {
                        out.push(rows[i].clone());
                        i += 1;
                    }
                    proof {
                        assert(crate::table::rows_view(out@) =~= crate::table::rows_view(rows@));
                    }
                    Some(out)
                },
                Err(_) => None,
            },
            None => None,
        }
    }

    /// Projects a table of the open database into a new one; absent when
    /// no database is open, otherwise exactly [`SavedDatabase::projection`].
    pub fn table_projection(&mut self, table: String, rows: Vec<bool>, new_table: String) -> (r:
        Option<Result<(), DbError>>)
        requires
            old(self).wf(),
        ensures
            final(self).wf(),
            old(self)@ is None ==> r is None && final(self)@ == old(self)@,
            old(self)@ is Some ==> r is Some && {
                let pre = old(self)@.unwrap();
                let post = final(self)@.unwrap();
                &&& final(self)@ is Some
                &&& post.path == pre.path
                &&& !pre.db.has_table(table@) ==> (r.unwrap() matches Err(DbError::TableIsMissing(
                    n,
                )) && n@ == table@) && final(self)@ == old(self)@
                &&& pre.db.has_table(table@) ==> {
                    let src = pre.db.tables[pre.db.index_of(table@)];
                    &&& src.schema.len() != rows@.len() ==> (r.unwrap() matches Err(
                        DbError::IncorrectRow,
                    )) && final(self)@ == old(self)@
                    &&& src.schema.len() == rows@.len() && pre.db.has_table(new_table@) ==> (
                    r.unwrap() matches Err(DbError::TableIsAlreadyPresent(n)) && n@ == new_table@)
                        && final(self)@ == old(self)@
                    &&& src.schema.len() == rows@.len() && !pre.db.has_table(new_table@)
                        ==> r.unwrap() is Ok && post.db == (crate::database::SpecDatabase {
                        name: pre.db.name,
                        tables: pre.db.tables.push(
                            crate::database::spec_projected(src, rows@, new_table@),
                        ),
                    })
                }
            },
    {
        match &mut self.db {
            Some(s) => Some(s.projection(table, rows, new_table)),
            None => None,
        }
    }
}

} // verus!
