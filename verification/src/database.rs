//! The database: a name-unique registry of tables, with creation, lookup,
//! removal, and the cross-table projection operation.

use vstd::prelude::*;

use crate::table::{rows_view, SpecTable, Table};
use crate::types::{spec_schema_of, spec_type_of, DbError, DbType, DbValue, Row, SpecValue};

verus! {

/// The mathematical value of a [`Database`]: its name and the registered
/// tables in registration order.
#[verifier::ext_equal]
pub struct SpecDatabase {
    pub name: Seq<char>,
    pub tables: Seq<SpecTable>,
}

impl SpecDatabase {
    /// Table names are unique within the database.
    pub open spec fn names_unique(self) -> bool {
        forall|i: int, j: int|
            0 <= i < j < self.tables.len() ==> (#[trigger] self.tables[i]).name != (
            #[trigger] self.tables[j]).name
    }

    /// The database's invariant: unique names, and every table satisfies
    /// its own schema invariant.
    pub open spec fn wf(self) -> bool {
        &&& self.names_unique()
        &&& forall|i: int| 0 <= i < self.tables.len() ==> (#[trigger] self.tables[i]).wf()
    }

    /// Whether a table with the given name is registered.
    pub open spec fn has_table(self, name: Seq<char>) -> bool {
        exists|i: int| 0 <= i < self.tables.len() && (#[trigger] self.tables[i]).name == name
    }

    /// The index of the table with the given name; meaningful only when
    /// `has_table` holds, and unique under `names_unique`.
    pub open spec fn index_of(self, name: Seq<char>) -> int {
        choose|i: int| 0 <= i < self.tables.len() && (#[trigger] self.tables[i]).name == name
    }

    /// When a table with the name exists, `index_of` points at it.
    pub proof fn lemma_index_of(self, name: Seq<char>)
        requires
            self.has_table(name),
        ensures
            0 <= self.index_of(name) < self.tables.len(),
            self.tables[self.index_of(name)].name == name,
    {
    }

    /// Under unique names, `index_of` is the only index with that name.
    pub proof fn lemma_index_of_unique(self, name: Seq<char>, i: int)
        requires
            self.names_unique(),
            0 <= i < self.tables.len(),
            self.tables[i].name == name,
        ensures
            self.has_table(name),
            self.index_of(name) == i,
    {
        assert(self.has_table(name));
        self.lemma_index_of(name);
    }
}

/// The tables of a database, as a sequence of table models.
pub open spec fn tables_view(ts: Seq<Table>) -> Seq<SpecTable> {
    Seq::new(ts.len(), |i: int| ts[i]@)
}

/// The sub-sequence of `s` at the positions where `mask` is true, in
/// original order; meaningful when the two sequences have equal length.
pub open spec fn mask_seq<A>(s: Seq<A>, mask: Seq<bool>) -> Seq<A>
    decreases s.len(),
{
    if s.len() == 0 || mask.len() == 0 {
        Seq::empty()
    } else {
        mask_seq(s.drop_last(), mask.drop_last()) + if mask.last() {
            seq![s.last()]
        } else {
            Seq::empty()
        }
    }
}

/// Extending both sequences by one position extends the masked result by
/// that position's element iff the mask selects it.
pub proof fn lemma_mask_step<A>(s: Seq<A>, mask: Seq<bool>, i: int)
    requires
        0 <= i < s.len(),
        s.len() == mask.len(),
    ensures
        mask_seq(s.take(i + 1), mask.take(i + 1)) == mask_seq(s.take(i), mask.take(i)) + (
        if mask[i] {
            seq![s[i]]
        } else {
            Seq::<A>::empty()
        }),
{
    assert(s.take(i + 1).drop_last() =~= s.take(i));
    assert(mask.take(i + 1).drop_last() =~= mask.take(i));
    assert(s.take(i + 1).last() == s[i]);
    assert(mask.take(i + 1).last() == mask[i]);
}

/// The table that projecting `src` through `mask` produces: the masked
/// schema, and every row masked at the same positions, in original order.
pub open spec fn spec_projected(src: SpecTable, mask: Seq<bool>, new_name: Seq<char>) -> SpecTable {
    SpecTable {
        name: new_name,
        schema: mask_seq(src.schema, mask),
        rows: Seq::new(src.rows.len(), |i: int| mask_seq(src.rows[i], mask)),
    }
}

/// Masking commutes with schema derivation: the derived schema of a masked
/// row is the equally-masked derived schema of the row.
pub proof fn lemma_mask_schema(vals: Seq<SpecValue>, mask: Seq<bool>)
    ensures
        spec_schema_of(mask_seq(vals, mask)) == mask_seq(spec_schema_of(vals), mask),
    decreases vals.len(),
{
    let tags = spec_schema_of(vals);
    assert(tags.len() == vals.len());
    if vals.len() == 0 || mask.len() == 0 {
        assert(spec_schema_of(mask_seq(vals, mask)) =~= mask_seq(tags, mask));
    } else {
        lemma_mask_schema(vals.drop_last(), mask.drop_last());
        assert(spec_schema_of(vals.drop_last()) =~= tags.drop_last());
        if mask.last() {
            assert(spec_schema_of(mask_seq(vals.drop_last(), mask.drop_last()) + seq![vals.last()])
                =~= spec_schema_of(mask_seq(vals.drop_last(), mask.drop_last()))
                + seq![spec_type_of(vals.last())]);
            assert(tags.last() == spec_type_of(vals.last()));
            assert(spec_schema_of(mask_seq(vals, mask)) =~= mask_seq(tags, mask));
        } else {
            assert(spec_schema_of(mask_seq(vals, mask)) =~= mask_seq(tags, mask));
        }
    }
}

/// The values of `row` at the positions where `mask` is true, in
/// original order.
fn mask_row(row: &Row, mask: &[bool]) -> (out: Row)
    requires
        row@.len() == mask@.len(),
    ensures
        out@ == mask_seq(row@, mask@),
{
    let mut vals: Vec<DbValue> = Vec::new();
    let mut j: usize = 0;
    while j < mask.len()
        invariant
            j <= mask@.len(),
            row@.len() == mask@.len(),
            vals.deep_view() == mask_seq(row@.take(j as int), mask@.take(j as int)),
        decreases mask@.len() - j,
    {
        let ghost pre = vals.deep_view();
        if mask[j] {
            vals.push(row.get(j));
            proof {
                assert(pre.len() == vals@.len() - 1);
                assert(vals.deep_view() =~= pre.push(row@[j as int]));
                assert(pre.push(row@[j as int]) =~= pre + seq![row@[j as int]]);
            }
        }
        proof {
            lemma_mask_step(row@, mask@, j as int);
            assert(vals.deep_view() =~= mask_seq(
                row@.take(j as int + 1),
                mask@.take(j as int + 1),
            ));
        }
        j += 1;
    }
    proof {
        assert(row@.take(row@.len() as int) =~= row@);
        assert(mask@.take(mask@.len() as int) =~= mask@);
    }
    Row(vals)
}

/// A named, name-unique registry of tables.
#[derive(Debug)]
pub struct Database {
    name: String,
    tables: Vec<Table>,
}

impl View for Database {
    type V = SpecDatabase;

    closed spec fn view(&self) -> SpecDatabase {
        SpecDatabase { name: self.name@, tables: tables_view(self.tables@) }
    }
}

impl Database {
    /// A new database with the given name and no tables.
    pub fn new(name: String) -> (d: Database)
        ensures
            d@ == (SpecDatabase { name: name@, tables: Seq::empty() }),
            d@.wf(),
    {
        let d = Database { name, tables: Vec::new() };
        proof {
            assert(d@.tables =~= Seq::<SpecTable>::empty());
            assert(d@ =~= (SpecDatabase { name: d@.name, tables: Seq::empty() }));
        }
        d
    }

    /// The database's name.
    pub fn get_name(&self) -> (n: &str)
        ensures
            n@ == self@.name,
    {
        self.name.as_str()
    }

    /// The first position holding a table with the given name, if any.
    fn find_index(&self, name: &String) -> (r: Option<usize>)
        ensures
            r is Some ==> r.unwrap() < self@.tables.len() && self@.tables[r.unwrap()
                as int].name == name@,
            r is None ==> !self@.has_table(name@),
    {
        let mut i: usize = 0;
        while i < self.tables.len()
            invariant
                i <= self.tables@.len(),
                forall|j: int| 0 <= j < i ==> (#[trigger] self@.tables[j]).name != name@,
            decreases self.tables@.len() - i,
        {
            if self.tables[i].name_matches(name) {
                proof {
                    assert(self@.tables[i as int] == self.tables@[i as int]@);
                }
                return Some(i);
            }
            proof {
                assert(self@.tables[i as int] == self.tables@[i as int]@);
            }
            i += 1;
        }
        None
    }

    /// Registers a new, empty table under `name` with the given schema iff
    /// no table with that name exists; otherwise fails with
    /// `TableIsAlreadyPresent` and changes nothing.
    pub fn create_table(&mut self, name: String, schema: Vec<DbType>) -> (r: Result<(), DbError>)
        requires
            old(self)@.wf(),
        ensures
            final(self)@.wf(),
            !old(self)@.has_table(name@) ==> r is Ok && final(self)@ == (SpecDatabase {
                name: old(self)@.name,
                tables: old(self)@.tables.push(
                    SpecTable { name: name@, schema: schema@, rows: Seq::empty() },
                ),
            }),
            old(self)@.has_table(name@) ==> (r matches Err(DbError::TableIsAlreadyPresent(n))
                && n@ == name@) && final(self)@ == old(self)@,
    {
        match self.find_index(&name) {
            Some(_) => Err(DbError::TableIsAlreadyPresent(name)),
            None => {
                let ghost pre = self@;
                let ghost name_v = name@;
                let ghost schema_v = schema@;
                let table = Table::new(name, schema);
                self.tables.push(table);
                proof {
                    assert(self@.tables =~= pre.tables.push(
                        SpecTable { name: name_v, schema: schema_v, rows: Seq::empty() },
                    ));
                    assert(self@ =~= (SpecDatabase {
                        name: pre.name,
                        tables: pre.tables.push(
                            SpecTable { name: name_v, schema: schema_v, rows: Seq::empty() },
                        ),
                    }));
                    assert forall|i: int, j: int|
                        0 <= i < j < self@.tables.len() implies (#[trigger] self@.tables[i]).name
                        != (#[trigger] self@.tables[j]).name by {
                        if j == self@.tables.len() - 1 {
                            assert(!pre.has_table(name_v));
                        }
                    }
                }
                Ok(())
            },
        }
    }

    /// The names of all registered tables. Their order carries no meaning.
    pub fn get_table_names(&self) -> (r: Vec<String>)
        ensures
            r@.len() == self@.tables.len(),
            forall|i: int| 0 <= i < r@.len() ==> (#[trigger] r@[i])@ == self@.tables[i].name,
    {
        let mut names: Vec<String> = Vec::new();
        let mut i: usize = 0;
        while i < self.tables.len()
            invariant
                i <= self.tables@.len(),
                names@.len() == i,
                forall|j: int| 0 <= j < i ==> (#[trigger] names@[j])@ == self@.tables[j].name,
            decreases self.tables@.len() - i,
        {
            names.push(self.tables[i].name().to_owned());
            proof {
                assert(self@.tables[i as int] == self.tables@[i as int]@);
            }
            i += 1;
        }
        names
    }

    /// Exclusive access to the table named `name`; fails with
    /// `TableIsMissing` if absent. The database afterwards holds whatever
    /// the caller made of the table, in its old position.
    pub fn get_table_mut(&mut self, name: String) -> (r: Result<&mut Table, DbError>)
        requires
            old(self)@.wf(),
        ensures
            old(self)@.has_table(name@) ==> {
                let idx = old(self)@.index_of(name@);
                &&& r is Ok
                &&& (*r.unwrap())@ == old(self)@.tables[idx]
                &&& final(self)@.name == old(self)@.name
                &&& final(self)@.tables.len() == old(self)@.tables.len()
                &&& forall|j: int|
                    0 <= j < old(self)@.tables.len() && j != idx
                        ==> final(self)@.tables[j] == old(self)@.tables[j]
                &&& final(self)@.tables[idx] == final(r.unwrap())@
            },
            !old(self)@.has_table(name@) ==> (r matches Err(DbError::TableIsMissing(n)) && n@
                == name@) && final(self)@ == old(self)@,
    {
        match self.find_index(&name) {
            Some(i) => {
                proof {
                    old(self)@.lemma_index_of_unique(name@, i as int);
                }
                Ok(&mut self.tables[i])
            },
            None => Err(DbError::TableIsMissing(name)),
        }
    }

    /// Read-only access to the table named `name`; fails with
    /// `TableIsMissing` if absent.
    pub fn get_table(&self, name: String) -> (r: Result<&Table, DbError>)
        requires
            self@.wf(),
        ensures
            self@.has_table(name@) ==> r is Ok && (*r.unwrap())@ == self@.tables[self@.index_of(
                name@,
            )],
            !self@.has_table(name@) ==> (r matches Err(DbError::TableIsMissing(n)) && n@
                == name@),
    {
        match self.find_index(&name) {
            Some(i) => {
                proof {
                    self@.lemma_index_of_unique(name@, i as int);
                }
                Ok(&self.tables[i])
            },
            None => Err(DbError::TableIsMissing(name)),
        }
    }

    /// Deletes the table named `name`; fails with `TableIsMissing` if
    /// absent. Later tables keep their relative order.
    pub fn remove_table(&mut self, name: String) -> (r: Result<(), DbError>)
        requires
            old(self)@.wf(),
        ensures
            final(self)@.wf(),
            old(self)@.has_table(name@) ==> r is Ok && final(self)@ == (SpecDatabase {
                name: old(self)@.name,
                tables: old(self)@.tables.remove(old(self)@.index_of(name@)),
            }),
            !old(self)@.has_table(name@) ==> (r matches Err(DbError::TableIsMissing(n)) && n@
                == name@) && final(self)@ == old(self)@,
    {
        match self.find_index(&name) {
            Some(i) => {
                proof {
                    old(self)@.lemma_index_of_unique(name@, i as int);
                }
                let ghost pre = self@;
                self.tables.remove(i);
                proof {
                    assert(self@.tables =~= pre.tables.remove(i as int));
                    assert(self@ =~= (SpecDatabase {
                        name: pre.name,
                        tables: pre.tables.remove(i as int),
                    }));
                }
                Ok(())
            },
            None => Err(DbError::TableIsMissing(name)),
        }
    }

    #[verifier::loop_isolation(false)]
    pub fn snapshot_bytes(&self) -> (out: Vec<u8>)
        ensures
            out@ == crate::codec::senc_db(self@),
            crate::codec::db_bounded(self@),
    {
        let ghost tf = |t: SpecTable| crate::codec::senc_table(t);
        let mut out: Vec<u8> = Vec::new();
        out.push(crate::codec::FORMAT_VERSION);
        proof {
            assert(out@ =~= seq![crate::codec::FORMAT_VERSION]);
        }
        crate::codec::enc_str_into(&mut out, self.name.as_str());
        crate::codec::enc_u64_into(&mut out, self.tables.len() as u64);
        let ghost mid = seq![crate::codec::FORMAT_VERSION] + crate::codec::senc_str(self@.name)
            + crate::codec::senc_u64(self@.tables.len() as u64);
        let mut i: usize = 0;
        while i < self.tables.len()
            invariant
                i <= self.tables@.len(),
                out@ == mid + crate::codec::senc_many(self@.tables.take(i as int), tf),
                forall|j: int|
                    0 <= j < i ==> crate::codec::table_bounded(#[trigger] self@.tables[j]),
            decreases self.tables@.len() - i,
        {
            crate::codec::enc_table_into(&mut out, &self.tables[i]);
            proof {
                assert(self@.tables[i as int] == self.tables@[i as int]@);
                crate::codec::lemma_senc_many_step(self@.tables, tf, i as int);
                assert(mid + crate::codec::senc_many(self@.tables.take(i as int), tf)
                    + crate::codec::senc_table(self@.tables[i as int]) =~= mid + (
                crate::codec::senc_many(self@.tables.take(i as int), tf) + tf(
                    self@.tables[i as int],
                )));
            }
            i += 1;
        }
        proof {
            assert(self@.tables.take(self@.tables.len() as int) =~= self@.tables);
            assert(mid + crate::codec::senc_many(self@.tables, tf) =~= crate::codec::senc_db(
                self@,
            ));
        }
        out
    }

    /// Creates, under `new_name`, the projection of the table named
    /// `table_name` through the column mask `rows`: the new schema is the
    /// source schema at the positions where the mask is true, and every
    /// source row is masked at the same positions, in original order.
    ///
    /// Fails with `TableIsMissing` if the source is absent, with
    /// `IncorrectRow` if the mask's length differs from the source
    /// schema's, and with `TableIsAlreadyPresent` if `new_name` is taken;
    /// any failure leaves the database unchanged.
    pub fn projection(&mut self, table_name: String, rows: Vec<bool>, new_name: String) -> (r:
        Result<(), DbError>)
        requires
            old(self)@.wf(),
        ensures
            final(self)@.wf(),
            !old(self)@.has_table(table_name@) ==> (r matches Err(DbError::TableIsMissing(n))
                && n@ == table_name@) && final(self)@ == old(self)@,
            old(self)@.has_table(table_name@) ==> {
                let src = old(self)@.tables[old(self)@.index_of(table_name@)];
                &&& src.schema.len() != rows@.len() ==> (r matches Err(DbError::IncorrectRow))
                    && final(self)@ == old(self)@
                &&& src.schema.len() == rows@.len() && old(self)@.has_table(new_name@) ==> (
                r matches Err(DbError::TableIsAlreadyPresent(n)) && n@ == new_name@)
                    && final(self)@ == old(self)@
                &&& src.schema.len() == rows@.len() && !old(self)@.has_table(new_name@) ==> r
                    is Ok && final(self)@ == (SpecDatabase {
                    name: old(self)@.name,
                    tables: old(self)@.tables.push(spec_projected(src, rows@, new_name@)),
                })
            },
    {
        let ghost pre = old(self)@;
        let ghost mask_v = rows@;
        let src_table = match self.get_table(table_name) {
            Ok(t) => t,
            Err(e) => {
                return Err(e);
            },
        };
        let ghost src_v = src_table@;
        let src_schema = src_table.schema();
        if src_schema.len() != rows.len() {
            return Err(DbError::IncorrectRow);
        }
        // The masked schema.
        let mut new_schema: Vec<DbType> = Vec::new();
        let mut i: usize = 0;
        while i < src_schema.len()
            invariant
                i <= src_schema@.len(),
                src_schema@.len() == rows@.len(),
                new_schema@ == mask_seq(src_schema@.take(i as int), rows@.take(i as int)),
            decreases src_schema@.len() - i,
        {
            let ghost sch_pre = new_schema@;
            if rows[i] {
                new_schema.push(src_schema[i]);
                proof {
                    assert(new_schema@ =~= sch_pre + seq![src_schema@[i as int]]);
                }
            }
            proof {
                lemma_mask_step(src_schema@, rows@, i as int);
                assert(new_schema@ =~= mask_seq(
                    src_schema@.take(i as int + 1),
                    rows@.take(i as int + 1),
                ));
            }
            i += 1;
        }
        proof {
            assert(src_schema@.take(src_schema@.len() as int) =~= src_schema@);
            assert(rows@.take(rows@.len() as int) =~= rows@);
        }
        // Every source row, masked at the same positions.
        let src_rows = src_table.rows();
        let mut new_rows: Vec<Row> = Vec::new();
        let mut k: usize = 0;
        while k < src_rows.len()
            invariant
                k <= src_rows@.len(),
                src_rows@.len() == src_v.rows.len(),
                rows_view(src_rows@) == src_v.rows,
                src_v.wf(),
                src_v.schema.len() == mask_v.len(),
                rows@ == mask_v,
                new_rows@.len() == k,
                forall|q: int|
                    0 <= q < k ==> (#[trigger] new_rows@[q])@ == mask_seq(src_v.rows[q], mask_v),
            decreases src_rows@.len() - k,
        {
            proof {
                assert(src_v.rows[k as int] == src_rows@[k as int]@);
                assert(spec_schema_of(src_rows@[k as int]@) == src_v.schema);
            }
            new_rows.push(mask_row(&src_rows[k], rows.as_slice()));
            k += 1;
        }
        let ghost new_name_v = new_name@;
        match self.create_table(new_name.clone(), new_schema) {
            Ok(()) => {},
            Err(e) => {
                return Err(e);
            },
        }
        proof {
            assert(pre.has_table(new_name_v) == false);
            pre.lemma_index_of_unique(table_name@, pre.index_of(table_name@));
        }
        // Insert each projected row through the normal insert path, which
        // re-checks the schema invariant constructively.
        let ghost projected = spec_projected(src_v, mask_v, new_name_v);
        let mut k2: usize = 0;
        while k2 < new_rows.len()
            invariant
                k2 <= new_rows@.len(),
                new_rows@.len() == src_v.rows.len(),
                forall|q: int|
                    0 <= q < new_rows@.len() ==> (#[trigger] new_rows@[q])@ == mask_seq(
                        src_v.rows[q],
                        mask_v,
                    ),
                src_v.wf(),
                src_v.schema.len() == mask_v.len(),
                new_name@ == new_name_v,
                projected == spec_projected(src_v, mask_v, new_name_v),
                self@.wf(),
                self@.name == pre.name,
                self@.tables.len() == pre.tables.len() + 1,
                forall|j: int| 0 <= j < pre.tables.len() ==> self@.tables[j] == pre.tables[j],
                self@.tables[pre.tables.len() as int] == (SpecTable {
                    name: new_name_v,
                    schema: mask_seq(src_v.schema, mask_v),
                    rows: projected.rows.take(k2 as int),
                }),
                !pre.has_table(new_name_v),
            decreases new_rows@.len() - k2,
        {
            let ghost db_pre = self@;
            let ghost fresh_idx = pre.tables.len() as int;
            proof {
                db_pre.lemma_index_of_unique(new_name_v, fresh_idx);
            }
            let row_k = new_rows[k2].clone();
            let ghost rv = row_k@;
            proof {
                lemma_mask_schema(src_v.rows[k2 as int], mask_v);
                assert(spec_schema_of(src_v.rows[k2 as int]) == src_v.schema);
                assert(spec_schema_of(row_k@) == mask_seq(src_v.schema, mask_v));
            }
            match self.get_table_mut(new_name.clone()) {
                Ok(t) => {
                    proof {
                        assert(db_pre.has_table(new_name_v));
                        assert(db_pre.index_of(new_name_v) == fresh_idx);
                        assert((*t)@ == db_pre.tables[fresh_idx]);
                        assert((*t)@.schema == mask_seq(src_v.schema, mask_v));
                    }
                    match t.insert_row(row_k) {
                        Ok(()) => {},
                        Err(_) => {
                            proof {
                                assert(false);
                            }
                            return Err(DbError::IncorrectRow);
                        },
                    }
                },
                Err(e) => {
                    proof {
                        assert(false);
                    }
                    return Err(e);
                },
            }
            proof {
                assert(rv == projected.rows[k2 as int]);
                assert(projected.rows.take(k2 as int + 1) =~= projected.rows.take(
                    k2 as int,
                ).push(rv));
                assert(self@.tables[fresh_idx].rows =~= projected.rows.take(k2 as int + 1));
                assert(self@.tables[fresh_idx] =~= (SpecTable {
                    name: new_name_v,
                    schema: mask_seq(src_v.schema, mask_v),
                    rows: projected.rows.take(k2 as int + 1),
                }));
            }
            k2 += 1;
        }
        proof {
            assert(projected.rows.take(projected.rows.len() as int) =~= projected.rows);
            assert(self@.tables[pre.tables.len() as int] =~= projected);
            assert(self@.tables =~= pre.tables.push(projected));
            assert(self@ =~= (SpecDatabase {
                name: pre.name,
                tables: pre.tables.push(projected),
            }));
        }
        Ok(())
    }
}

/// The mathematical value of a [`SavedDatabase`]: the bound database and
/// the location it is persisted at.
#[verifier::ext_equal]
pub struct SpecSaved {
    pub db: SpecDatabase,
    pub path: Seq<char>,
}

/// One open database bound to the file path it is persisted at.
///
/// Reading and writing that file is the caller's I/O; this type supplies
/// the snapshot bytes to write and rebuilds itself from bytes read.
#[derive(Debug)]
pub struct SavedDatabase {
    db: Database,
    path: String,
}

impl View for SavedDatabase {
    type V = SpecSaved;

    closed spec fn view(&self) -> SpecSaved {
        SpecSaved { db: self.db@, path: self.path@ }
    }
}

impl SavedDatabase {
    /// An empty database bound to `path`. The caller is expected to
    /// persist it at once by writing `save_bytes()` to the file.
    pub fn create(name: String, path: String) -> (r: SavedDatabase)
        ensures
            r@.db == (SpecDatabase { name: name@, tables: Seq::empty() }),
            r@.db.wf(),
            r@.path == path@,
    {
        SavedDatabase { db: Database::new(name), path }
    }

    /// The bytes that a save persists: the entire bound database — name,
    /// all tables, all schemas, all rows — as one snapshot blob,
    /// overwriting the file wholesale.
    pub fn save_bytes(&self) -> (out: Vec<u8>)
        ensures
            out@ == crate::codec::senc_db(self@.db),
            crate::codec::db_bounded(self@.db),
    {
        self.db.snapshot_bytes()
    }

    /// The path the database is bound to.
    pub fn path(&self) -> (p: &str)
        ensures
            p@ == self@.path,
    {
        self.path.as_str()
    }

    /// Rebuilds a binding from the bytes read from a snapshot file,
    /// validating every table; on any failure no database is produced and
    /// the error says why, as [`crate::codec::decode_database`] specifies.
    pub fn load_from_bytes(path: String, bytes: &[u8]) -> (r: Result<SavedDatabase, DbError>)
        ensures
            crate::codec::sdec_db(bytes@) is None ==> (r matches Err(DbError::Serde)),
            crate::codec::sdec_db(bytes@) matches Some(d) ==> {
                let fb = crate::codec::first_bad(d.tables);
                &&& fb == d.tables.len() ==> (r matches Ok(s) && s@.db == d && s@.db.wf()
                    && s@.path == path@)
                &&& fb < d.tables.len() && crate::codec::dup_at(d.tables, fb) ==> (r matches Err(
                    DbError::Serde,
                ))
                &&& fb < d.tables.len() && !crate::codec::dup_at(d.tables, fb) ==> (r matches Err(
                    DbError::InvalidTableState(n),
                ) && n@ == d.tables[fb].name)
            },
    {
        match crate::codec::decode_database(bytes) {
            Ok(db) => Ok(SavedDatabase { db, path }),
            Err(e) => Err(e),
        }
    }

    /// See [`Database::create_table`].
    pub fn create_table(&mut self, name: String, schema: Vec<DbType>) -> (r: Result<(), DbError>)
        requires
            old(self)@.db.wf(),
        ensures
            final(self)@.db.wf(),
            final(self)@.path == old(self)@.path,
            !old(self)@.db.has_table(name@) ==> r is Ok && final(self)@.db == (SpecDatabase {
                name: old(self)@.db.name,
                tables: old(self)@.db.tables.push(
                    SpecTable { name: name@, schema: schema@, rows: Seq::empty() },
                ),
            }),
            old(self)@.db.has_table(name@) ==> (r matches Err(DbError::TableIsAlreadyPresent(n))
                && n@ == name@) && final(self)@ == old(self)@,
    {
        self.db.create_table(name, schema)
    }

    /// See [`Database::get_table_names`].
    pub fn get_table_names(&self) -> (r: Vec<String>)
        ensures
            r@.len() == self@.db.tables.len(),
            forall|i: int| 0 <= i < r@.len() ==> (#[trigger] r@[i])@ == self@.db.tables[i].name,
    {
        self.db.get_table_names()
    }

    /// See [`Database::get_table_mut`].
    pub fn get_table_mut(&mut self, name: String) -> (r: Result<&mut Table, DbError>)
        requires
            old(self)@.db.wf(),
        ensures
            final(self)@.path == old(self)@.path,
            old(self)@.db.has_table(name@) ==> {
                let idx = old(self)@.db.index_of(name@);
                &&& r is Ok
                &&& (*r.unwrap())@ == old(self)@.db.tables[idx]
                &&& final(self)@.db.name == old(self)@.db.name
                &&& final(self)@.db.tables.len() == old(self)@.db.tables.len()
                &&& forall|j: int|
                    0 <= j < old(self)@.db.tables.len() && j != idx
                        ==> final(self)@.db.tables[j] == old(self)@.db.tables[j]
                &&& final(self)@.db.tables[idx] == final(r.unwrap())@
            },
            !old(self)@.db.has_table(name@) ==> (r matches Err(DbError::TableIsMissing(n)) && n@
                == name@) && final(self)@ == old(self)@,
    {
        self.db.get_table_mut(name)
    }

    /// See [`Database::get_table`].
    pub fn get_table(&self, name: String) -> (r: Result<&Table, DbError>)
        requires
            self@.db.wf(),
        ensures
            self@.db.has_table(name@) ==> r is Ok && (*r.unwrap())@ == self@.db.tables[self@.db.index_of(
                name@,
            )],
            !self@.db.has_table(name@) ==> (r matches Err(DbError::TableIsMissing(n)) && n@
                == name@),
    {
        self.db.get_table(name)
    }

    /// See [`Database::remove_table`].
    pub fn remove_table(&mut self, name: String) -> (r: Result<(), DbError>)
        requires
            old(self)@.db.wf(),
        ensures
            final(self)@.db.wf(),
            final(self)@.path == old(self)@.path,
            old(self)@.db.has_table(name@) ==> r is Ok && final(self)@.db == (SpecDatabase {
                name: old(self)@.db.name,
                tables: old(self)@.db.tables.remove(old(self)@.db.index_of(name@)),
            }),
            !old(self)@.db.has_table(name@) ==> (r matches Err(DbError::TableIsMissing(n)) && n@
                == name@) && final(self)@ == old(self)@,
    {
        self.db.remove_table(name)
    }

    /// See [`Database::get_name`].
    pub fn get_name(&self) -> (n: &str)
        ensures
            n@ == self@.db.name,
    {
        self.db.get_name()
    }

    /// See [`Database::projection`].
    pub fn projection(&mut self, table_name: String, rows: Vec<bool>, new_name: String) -> (r:
        Result<(), DbError>)
        requires
            old(self)@.db.wf(),
        ensures
            final(self)@.db.wf(),
            final(self)@.path == old(self)@.path,
            !old(self)@.db.has_table(table_name@) ==> (r matches Err(DbError::TableIsMissing(n))
                && n@ == table_name@) && final(self)@ == old(self)@,
            old(self)@.db.has_table(table_name@) ==> {
                let src = old(self)@.db.tables[old(self)@.db.index_of(table_name@)];
                &&& src.schema.len() != rows@.len() ==> (r matches Err(DbError::IncorrectRow))
                    && final(self)@ == old(self)@
                &&& src.schema.len() == rows@.len() && old(self)@.db.has_table(new_name@) ==> (
                r matches Err(DbError::TableIsAlreadyPresent(n)) && n@ == new_name@)
                    && final(self)@ == old(self)@
                &&& src.schema.len() == rows@.len() && !old(self)@.db.has_table(new_name@) ==> r
                    is Ok && final(self)@.db == (SpecDatabase {
                    name: old(self)@.db.name,
                    tables: old(self)@.db.tables.push(spec_projected(src, rows@, new_name@)),
                })
            },
    {
        self.db.projection(table_name, rows, new_name)
    }
}

} // verus!
