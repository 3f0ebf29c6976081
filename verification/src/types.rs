//! The value model: type tags, tagged scalar values, rows, and the error
//! taxonomy shared by every component.
//!
//! A real number is carried as the 64 bits of its IEEE 754 representation
//! and a timestamp as whole seconds plus subsecond nanoseconds since the
//! Unix epoch, so that every scalar is a plain value with bitwise equality.

use vstd::prelude::*;

verus! {

/// A column's type tag: the closed set of scalar kinds a value may have.
#[derive(Debug, Clone, Copy, PartialEq, Eq, Structural)]
pub enum DbType {
    Int,
    Real,
    Char,
    String,
    Time,
}

/// A UTC instant: whole seconds since the Unix epoch plus subsecond
/// nanoseconds. Equality is field-wise.
#[derive(Debug, Clone, Copy, PartialEq, Eq, Structural)]
pub struct Timestamp {
    pub secs: i64,
    pub nanos: u32,
}

impl Timestamp {
    pub fn new(secs: i64, nanos: u32) -> (r: Timestamp)
        ensures
            r == (Timestamp { secs, nanos }),
    {
        Timestamp { secs, nanos }
    }
}

/// The mathematical value of a [`DbValue`]: text is a sequence of
/// characters, everything else is the scalar itself.
pub enum SpecValue {
    Int(i64),
    Real(u64),
    Char(char),
    Text(Seq<char>),
    Time(Timestamp),
}

/// The type tag a value carries, at the model level.
pub open spec fn spec_type_of(v: SpecValue) -> DbType {
    match v {
        SpecValue::Int(_) => DbType::Int,
        SpecValue::Real(_) => DbType::Real,
        SpecValue::Char(_) => DbType::Char,
        SpecValue::Text(_) => DbType::String,
        SpecValue::Time(_) => DbType::Time,
    }
}

/// The derived schema of a row: its values' type tags, in order.
pub open spec fn spec_schema_of(r: Seq<SpecValue>) -> Seq<DbType> {
    r.map_values(|v: SpecValue| spec_type_of(v))
}

/// A tagged scalar: exactly one value, of exactly one [`DbType`].
///
/// `Real` holds the bits of an IEEE 754 double; two reals are equal
/// exactly when their bit patterns are.
#[derive(Debug)]
pub enum DbValue {
    Int(i64),
    Real(u64),
    Char(char),
    String(String),
    Time(Timestamp),
}

impl View for DbValue {
    type V = SpecValue;

    open spec fn view(&self) -> SpecValue {
        match self {
            DbValue::Int(x) => SpecValue::Int(*x),
            DbValue::Real(b) => SpecValue::Real(*b),
            DbValue::Char(c) => SpecValue::Char(*c),
            DbValue::String(s) => SpecValue::Text(s@),
            DbValue::Time(t) => SpecValue::Time(*t),
        }
    }
}

impl DeepView for DbValue {
    type V = SpecValue;

    open spec fn deep_view(&self) -> SpecValue {
        self@
    }
}

impl Clone for DbValue {
    fn clone(&self) -> (r: Self)
        ensures
            r@ == self@,
    {
        match self {
            DbValue::Int(x) => DbValue::Int(*x),
            DbValue::Real(b) => DbValue::Real(*b),
            DbValue::Char(c) => DbValue::Char(*c),
            DbValue::String(s) => DbValue::String(s.clone()),
            DbValue::Time(t) => DbValue::Time(*t),
        }
    }
}

impl PartialEq for DbValue {
    fn eq(&self, other: &Self) -> (r: bool) {
        match (self, other) {
            (DbValue::Int(a), DbValue::Int(b)) => *a == *b,
            (DbValue::Real(a), DbValue::Real(b)) => *a == *b,
            (DbValue::Char(a), DbValue::Char(b)) => *a == *b,
            (DbValue::String(a), DbValue::String(b)) => *a == *b,
            (DbValue::Time(a), DbValue::Time(b)) => *a == *b,
            _ => false,
        }
    }
}

impl vstd::std_specs::cmp::PartialEqSpecImpl for DbValue {
    open spec fn obeys_eq_spec() -> bool {
        true
    }

    open spec fn eq_spec(&self, other: &Self) -> bool {
        self@ == other@
    }
}

impl DbValue {
    /// The type tag this value carries; total and exhaustive.
    pub fn get_type(&self) -> (t: DbType)
        ensures
            t == spec_type_of(self@),
    {
        match self {
            DbValue::Int(_) => DbType::Int,
            DbValue::Real(_) => DbType::Real,
            DbValue::Char(_) => DbType::Char,
            DbValue::String(_) => DbType::String,
            DbValue::Time(_) => DbType::Time,
        }
    }
}

/// An ordered, fixed-arity sequence of values, positionally aligned to a
/// table's schema.
#[derive(Debug)]
pub struct Row(pub Vec<DbValue>);

impl View for Row {
    type V = Seq<SpecValue>;

    open spec fn view(&self) -> Seq<SpecValue> {
        self.0.deep_view()
    }
}

impl DeepView for Row {
    type V = Seq<SpecValue>;

    open spec fn deep_view(&self) -> Seq<SpecValue> {
        self@
    }
}

impl Clone for Row {
    fn clone(&self) -> (r: Self)
        ensures
            r@ == self@,
    {
        let mut values: Vec<DbValue> = Vec::new();
        let mut i: usize = 0;
        while i < self.0.len()
            invariant
                i <= self.0.len(),
                values.deep_view() == self@.take(i as int),
            decreases self.0.len() - i,
        {
            let ghost pre = values.deep_view();
            values.push(self.0[i].clone());
            proof {
                let post = values.deep_view();
                assert(pre.len() == i as int);
                assert(post.len() == i + 1);
                assert forall|j: int| 0 <= j < post.len() implies post[j] == self@.take(
                    (i + 1) as int,
                )[j] by {
                    if j < i as int {
                        assert(pre[j] == self@.take(i as int)[j]);
                    }
                }
                assert(values.deep_view() =~= self@.take((i + 1) as int));
            }
            i += 1;
        }
        proof {
            assert(self@.take(self.0.len() as int) =~= self@);
        }
        Row(values)
    }
}

impl PartialEq for Row {
    fn eq(&self, other: &Self) -> (r: bool) {
        if self.0.len() != other.0.len() {
            proof {
                assert(self@.len() == self.0@.len());
                assert(other@.len() == other.0@.len());
            }
            return false;
        }
        let mut i: usize = 0;
        while i < self.0.len()
            invariant
                self.0.len() == other.0.len(),
                i <= self.0.len(),
                forall|j: int| 0 <= j < i ==> self@[j] == other@[j],
            decreases self.0.len() - i,
        {
            if !(self.0[i] == other.0[i]) {
                proof {
                    assert(self@[i as int] != other@[i as int]);
                }
                return false;
            }
            i += 1;
        }
        proof {
            assert(self@ =~= other@);
        }
        true
    }
}

impl vstd::std_specs::cmp::PartialEqSpecImpl for Row {
    open spec fn obeys_eq_spec() -> bool {
        true
    }

    open spec fn eq_spec(&self, other: &Self) -> bool {
        self@ == other@
    }
}

impl Row {
    /// The value at position `idx`; positions past the end are excluded.
    pub fn get(&self, idx: usize) -> (r: DbValue)
        requires
            idx < self@.len(),
        ensures
            r@ == self@[idx as int],
    {
        self.0[idx].clone()
    }

    /// The row's derived schema: each value's type tag, in order.
    pub fn schema(&self) -> (s: Vec<DbType>)
        ensures
            s@ == spec_schema_of(self@),
    {
        let mut tags: Vec<DbType> = Vec::new();
        let mut i: usize = 0;
        while i < self.0.len()
            invariant
                i <= self.0.len(),
                tags@ == spec_schema_of(self@.take(i as int)),
            decreases self.0.len() - i,
        {
            tags.push(self.0[i].get_type());
            proof {
                assert(tags@ =~= spec_schema_of(self@.take((i + 1) as int)));
            }
            i += 1;
        }
        proof {
            assert(spec_schema_of(self@.take(self.0.len() as int)) =~= spec_schema_of(self@));
        }
        tags
    }
}

/// Everything a storage operation can fail with.
#[derive(Debug, Clone)]
pub enum DbError {
    /// A file read, write, or directory creation failed; carries the
    /// operating system's message.
    Io(String),
    /// A snapshot blob was malformed or written by an incompatible encoding.
    Serde,
    /// A row's derived schema (or a projection mask's length) did not match
    /// the table's schema.
    IncorrectRow,
    /// An update named a row position at or past the end of the table.
    IndexOutOfRange,
    /// `create_table` named a table the database already has.
    TableIsAlreadyPresent(String),
    /// A lookup or removal named a table the database does not have.
    TableIsMissing(String),
    /// A loaded table's stored rows contradict its stored schema; carries
    /// the table's name.
    InvalidTableState(String),
}

} // verus!
