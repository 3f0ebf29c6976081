//! The snapshot encoding: one database as one self-contained binary blob.
//!
//! Layout: a format-version byte, then the database name, then the table
//! count and each table (name, schema, rows). Counts and integers are
//! 64-bit little-endian, characters are 32-bit code points, and every
//! value carries a one-byte type tag. Decoding checks the version byte,
//! every scalar, that the blob is consumed exactly, that table names are
//! unique, and that every row matches its table's stored schema.

use vstd::prelude::*;

use vstd::bytes::{
    lemma_auto_spec_u32_to_from_le_bytes, lemma_auto_spec_u64_to_from_le_bytes,
    spec_u32_from_le_bytes, spec_u32_to_le_bytes, spec_u64_from_le_bytes, spec_u64_to_le_bytes,
};
use crate::database::Database;
use crate::table::{rows_view, SpecTable, Table};
use crate::types::{spec_schema_of, DbError, DbType, DbValue, Row, SpecValue, Timestamp};
use vstd::string::StrSliceExecFns;

verus! {

/// The version byte that every snapshot starts with.
pub const FORMAT_VERSION: u8 = 1;

// ---------------------------------------------------------------------
// Spec-level encoding
// ---------------------------------------------------------------------

/// A 64-bit integer, little-endian.
pub open spec fn senc_u64(x: u64) -> Seq<u8> {
    spec_u64_to_le_bytes(x)
}

/// A 32-bit integer, little-endian.
pub open spec fn senc_u32(x: u32) -> Seq<u8> {
    spec_u32_to_le_bytes(x)
}

/// A signed 64-bit integer, as its two's-complement bits.
pub open spec fn senc_i64(x: i64) -> Seq<u8> {
    senc_u64(x as u64)
}

/// A character, as its 32-bit code point.
pub open spec fn senc_char(c: char) -> Seq<u8> {
    senc_u32(c as u32)
}

/// Each element of `s` in order, encoded by `f`.
pub open spec fn senc_many<T>(s: Seq<T>, f: spec_fn(T) -> Seq<u8>) -> Seq<u8>
    decreases s.len(),
{
    if s.len() == 0 {
        Seq::empty()
    } else {
        f(s.first()) + senc_many(s.drop_first(), f)
    }
}

/// A string: its character count, then each character.
pub open spec fn senc_str(s: Seq<char>) -> Seq<u8> {
    senc_u64(s.len() as u64) + senc_many(s, |c: char| senc_char(c))
}

/// A type tag, as one byte.
pub open spec fn tag_byte(t: DbType) -> u8 {
    match t {
        DbType::Int => 0u8,
        DbType::Real => 1u8,
        DbType::Char => 2u8,
        DbType::String => 3u8,
        DbType::Time => 4u8,
    }
}

pub open spec fn senc_tag(t: DbType) -> Seq<u8> {
    seq![tag_byte(t)]
}

/// A value: its type-tag byte, then its scalar payload.
pub open spec fn senc_value(v: SpecValue) -> Seq<u8> {
    match v {
        SpecValue::Int(x) => seq![0u8] + senc_i64(x),
        SpecValue::Real(bits) => seq![1u8] + senc_u64(bits),
        SpecValue::Char(c) => seq![2u8] + senc_char(c),
        SpecValue::Text(s) => seq![3u8] + senc_str(s),
        SpecValue::Time(t) => seq![4u8] + senc_i64(t.secs) + senc_u32(t.nanos),
    }
}

/// A row: its value count, then each value.
pub open spec fn senc_row(r: Seq<SpecValue>) -> Seq<u8> {
    senc_u64(r.len() as u64) + senc_many(r, |v: SpecValue| senc_value(v))
}

/// A table: its name, its schema (count and tags), then its rows.
pub open spec fn senc_table(t: SpecTable) -> Seq<u8> {
    senc_str(t.name) + senc_u64(t.schema.len() as u64) + senc_many(
        t.schema,
        |g: DbType| senc_tag(g),
    ) + senc_u64(t.rows.len() as u64) + senc_many(t.rows, |r: Seq<SpecValue>| senc_row(r))
}

/// A whole database: the version byte, its name, then its tables.
pub open spec fn senc_db(d: crate::database::SpecDatabase) -> Seq<u8> {
    seq![FORMAT_VERSION] + senc_str(d.name) + senc_u64(d.tables.len() as u64) + senc_many(
        d.tables,
        |t: SpecTable| senc_table(t),
    )
}

// ---------------------------------------------------------------------
// Counts that fit the encoding's 64-bit length fields
// ---------------------------------------------------------------------

pub open spec fn len_bounded<T>(s: Seq<T>) -> bool {
    s.len() < 0x1_0000_0000_0000_0000
}

pub open spec fn value_bounded(v: SpecValue) -> bool {
    match v {
        SpecValue::Text(s) => len_bounded(s),
        _ => true,
    }
}

pub open spec fn row_bounded(r: Seq<SpecValue>) -> bool {
    &&& len_bounded(r)
    &&& forall|i: int| 0 <= i < r.len() ==> value_bounded(#[trigger] r[i])
}

pub open spec fn table_bounded(t: SpecTable) -> bool {
    &&& len_bounded(t.name)
    &&& len_bounded(t.schema)
    &&& len_bounded(t.rows)
    &&& forall|i: int| 0 <= i < t.rows.len() ==> row_bounded(#[trigger] t.rows[i])
}

pub open spec fn db_bounded(d: crate::database::SpecDatabase) -> bool {
    &&& len_bounded(d.name)
    &&& len_bounded(d.tables)
    &&& forall|i: int| 0 <= i < d.tables.len() ==> table_bounded(#[trigger] d.tables[i])
}

// ---------------------------------------------------------------------
// Spec-level decoding
// ---------------------------------------------------------------------

/// Whether `u` is a Unicode scalar value, the code points `char` can hold.
pub open spec fn is_code_point(u: u32) -> bool {
    u < 0xD800 || (0xE000 <= u && u <= 0x10FFFF)
}

pub open spec fn sdec_u64(b: Seq<u8>, i: int) -> Option<(u64, int)> {
    if 0 <= i && i + 8 <= b.len() {
        Some((spec_u64_from_le_bytes(b.subrange(i, i + 8)), i + 8))
    } else {
        None
    }
}

pub open spec fn sdec_u32(b: Seq<u8>, i: int) -> Option<(u32, int)> {
    if 0 <= i && i + 4 <= b.len() {
        Some((spec_u32_from_le_bytes(b.subrange(i, i + 4)), i + 4))
    } else {
        None
    }
}

pub open spec fn sdec_i64(b: Seq<u8>, i: int) -> Option<(i64, int)> {
    match sdec_u64(b, i) {
        Some((x, j)) => Some((x as i64, j)),
        None => None,
    }
}

pub open spec fn sdec_char(b: Seq<u8>, i: int) -> Option<(char, int)> {
    match sdec_u32(b, i) {
        Some((u, j)) => if is_code_point(u) {
            Some((u as char, j))
        } else {
            None
        },
        None => None,
    }
}

pub open spec fn sdec_tag(b: Seq<u8>, i: int) -> Option<(DbType, int)> {
    if 0 <= i && i < b.len() {
        if b[i] == 0u8 {
            Some((DbType::Int, i + 1))
        } else if b[i] == 1u8 {
            Some((DbType::Real, i + 1))
        } else if b[i] == 2u8 {
            Some((DbType::Char, i + 1))
        } else if b[i] == 3u8 {
            Some((DbType::String, i + 1))
        } else if b[i] == 4u8 {
            Some((DbType::Time, i + 1))
        } else {
            None
        }
    } else {
        None
    }
}

/// `n` consecutive items, each decoded by `g`.
pub open spec fn sdec_many<T>(
    b: Seq<u8>,
    i: int,
    n: nat,
    g: spec_fn(Seq<u8>, int) -> Option<(T, int)>,
) -> Option<(Seq<T>, int)>
    decreases n,
{
    if n == 0 {
        Some((Seq::empty(), i))
    } else {
        match g(b, i) {
            Some((x, j)) => match sdec_many(b, j, (n - 1) as nat, g) {
                Some((s, k)) => Some((seq![x] + s, k)),
                None => None,
            },
            None => None,
        }
    }
}

pub open spec fn sdec_char_fn() -> spec_fn(Seq<u8>, int) -> Option<(char, int)> {
    |b: Seq<u8>, i: int| sdec_char(b, i)
}

pub open spec fn sdec_str(b: Seq<u8>, i: int) -> Option<(Seq<char>, int)> {
    match sdec_u64(b, i) {
        Some((n, j)) => sdec_many(b, j, n as nat, sdec_char_fn()),
        None => None,
    }
}

pub open spec fn sdec_value(b: Seq<u8>, i: int) -> Option<(SpecValue, int)> {
    if 0 <= i && i < b.len() {
        let tag = b[i];
        let j = i + 1;
        if tag == 0u8 {
            match sdec_i64(b, j) {
                Some((x, k)) => Some((SpecValue::Int(x), k)),
                None => None,
            }
        } else if tag == 1u8 {
            match sdec_u64(b, j) {
                Some((x, k)) => Some((SpecValue::Real(x), k)),
                None => None,
            }
        } else if tag == 2u8 {
            match sdec_char(b, j) {
                Some((c, k)) => Some((SpecValue::Char(c), k)),
                None => None,
            }
        } else if tag == 3u8 {
            match sdec_str(b, j) {
                Some((s, k)) => Some((SpecValue::Text(s), k)),
                None => None,
            }
        } else if tag == 4u8 {
            match sdec_i64(b, j) {
                Some((secs, k)) => match sdec_u32(b, k) {
                    Some((nanos, m)) => Some((SpecValue::Time(Timestamp { secs, nanos }), m)),
                    None => None,
                },
                None => None,
            }
        } else {
            None
        }
    } else {
        None
    }
}

pub open spec fn sdec_value_fn() -> spec_fn(Seq<u8>, int) -> Option<(SpecValue, int)> {
    |b: Seq<u8>, i: int| sdec_value(b, i)
}

pub open spec fn sdec_tag_fn() -> spec_fn(Seq<u8>, int) -> Option<(DbType, int)> {
    |b: Seq<u8>, i: int| sdec_tag(b, i)
}

pub open spec fn sdec_row(b: Seq<u8>, i: int) -> Option<(Seq<SpecValue>, int)> {
    match sdec_u64(b, i) {
        Some((n, j)) => sdec_many(b, j, n as nat, sdec_value_fn()),
        None => None,
    }
}

pub open spec fn sdec_row_fn() -> spec_fn(Seq<u8>, int) -> Option<(Seq<SpecValue>, int)> {
    |b: Seq<u8>, i: int| sdec_row(b, i)
}

pub open spec fn sdec_schema(b: Seq<u8>, i: int) -> Option<(Seq<DbType>, int)> {
    match sdec_u64(b, i) {
        Some((n, j)) => sdec_many(b, j, n as nat, sdec_tag_fn()),
        None => None,
    }
}

pub open spec fn sdec_rows(b: Seq<u8>, i: int) -> Option<(Seq<Seq<SpecValue>>, int)> {
    match sdec_u64(b, i) {
        Some((n, j)) => sdec_many(b, j, n as nat, sdec_row_fn()),
        None => None,
    }
}

pub open spec fn sdec_table(b: Seq<u8>, i: int) -> Option<(SpecTable, int)> {
    match sdec_str(b, i) {
        Some((name, j)) => match sdec_schema(b, j) {
            Some((schema, m)) => match sdec_rows(b, m) {
                Some((rows, q)) => Some((SpecTable { name, schema, rows }, q)),
                None => None,
            },
            None => None,
        },
        None => None,
    }
}

pub open spec fn sdec_table_fn() -> spec_fn(Seq<u8>, int) -> Option<(SpecTable, int)> {
    |b: Seq<u8>, i: int| sdec_table(b, i)
}

/// The whole blob: version byte, name, tables, and nothing after them.
pub open spec fn sdec_db(b: Seq<u8>) -> Option<crate::database::SpecDatabase> {
    if b.len() < 1 || b[0] != FORMAT_VERSION {
        None
    } else {
        match sdec_str(b, 1) {
            Some((name, j)) => match sdec_u64(b, j) {
                Some((n, k)) => match sdec_many(b, k, n as nat, sdec_table_fn()) {
                    Some((tables, m)) => if m == b.len() {
                        Some(crate::database::SpecDatabase { name, tables })
                    } else {
                        None
                    },
                    None => None,
                },
                None => None,
            },
            None => None,
        }
    }
}

// ---------------------------------------------------------------------
// Decoding inverts encoding
// ---------------------------------------------------------------------

/// A byte range equal to a concatenation splits into its two parts.
proof fn lemma_split_prefix(b: Seq<u8>, i: int, a: Seq<u8>, c: Seq<u8>)
    requires
        0 <= i,
        i + a.len() + c.len() <= b.len(),
        b.subrange(i, i + a.len() + c.len()) == a + c,
    ensures
        b.subrange(i, i + a.len()) == a,
        b.subrange(i + a.len(), i + a.len() + c.len()) == c,
{
    let whole = b.subrange(i, i + a.len() + c.len());
    assert forall|k: int| 0 <= k < a.len() implies b[i + k] == a[k] by {
        assert(whole[k] == b[i + k]);
        assert((a + c)[k] == a[k]);
    }
    assert forall|k: int| 0 <= k < c.len() implies b[i + a.len() + k] == c[k] by {
        assert(whole[a.len() + k] == b[i + a.len() + k]);
        assert((a + c)[a.len() + k] == c[k]);
    }
    assert(b.subrange(i, i + a.len() as int) =~= a);
    assert(b.subrange(i + a.len(), i + a.len() + c.len()) =~= c);
}

proof fn lemma_senc_u64_len(x: u64)
    ensures
        senc_u64(x).len() == 8,
{
    lemma_auto_spec_u64_to_from_le_bytes();
    assert(spec_u64_to_le_bytes(x).len() == 8);
}

proof fn lemma_senc_u32_len(x: u32)
    ensures
        senc_u32(x).len() == 4,
{
    lemma_auto_spec_u32_to_from_le_bytes();
    assert(spec_u32_to_le_bytes(x).len() == 4);
}

proof fn lemma_round_u64(b: Seq<u8>, i: int, x: u64)
    requires
        0 <= i,
        i + 8 <= b.len(),
        b.subrange(i, i + 8) == senc_u64(x),
    ensures
        senc_u64(x).len() == 8,
        sdec_u64(b, i) == Some((x, i + 8)),
{
    lemma_auto_spec_u64_to_from_le_bytes();
    assert(spec_u64_to_le_bytes(x).len() == 8);
    assert(spec_u64_from_le_bytes(spec_u64_to_le_bytes(x)) == x);
}

proof fn lemma_round_u32(b: Seq<u8>, i: int, x: u32)
    requires
        0 <= i,
        i + 4 <= b.len(),
        b.subrange(i, i + 4) == senc_u32(x),
    ensures
        senc_u32(x).len() == 4,
        sdec_u32(b, i) == Some((x, i + 4)),
{
    lemma_auto_spec_u32_to_from_le_bytes();
    assert(spec_u32_to_le_bytes(x).len() == 4);
    assert(spec_u32_from_le_bytes(spec_u32_to_le_bytes(x)) == x);
}

proof fn lemma_round_char(b: Seq<u8>, i: int, c: char)
    requires
        0 <= i,
        i + 4 <= b.len(),
        b.subrange(i, i + 4) == senc_char(c),
    ensures
        senc_char(c).len() == 4,
        sdec_char(b, i) == Some((c, i + 4)),
{
    lemma_round_u32(b, i, c as u32);
    vstd::utf8::char_is_scalar(c);
    assert(is_code_point(c as u32));
    vstd::utf8::char_u32_cast(c, c as u32);
}

proof fn lemma_round_tag(b: Seq<u8>, i: int, t: DbType)
    requires
        0 <= i,
        i + 1 <= b.len(),
        b.subrange(i, i + 1) == senc_tag(t),
    ensures
        senc_tag(t).len() == 1,
        sdec_tag(b, i) == Some((t, i + 1)),
{
    assert(b[i] == b.subrange(i, i + 1)[0]);
}

/// If every element's encoding decodes back to it wherever it stands in
/// `b`, then the concatenated encoding decodes back to the sequence.
proof fn lemma_round_many<T>(
    b: Seq<u8>,
    i: int,
    s: Seq<T>,
    f: spec_fn(T) -> Seq<u8>,
    g: spec_fn(Seq<u8>, int) -> Option<(T, int)>,
)
    requires
        0 <= i,
        i + senc_many(s, f).len() <= b.len(),
        b.subrange(i, i + senc_many(s, f).len()) == senc_many(s, f),
        forall|k: int, j: int|
            #![trigger g(b, j), f(s[k])]
            0 <= k < s.len() && 0 <= j && j + f(s[k]).len() <= b.len() && b.subrange(
                j,
                j + f(s[k]).len(),
            ) == f(s[k]) ==> g(b, j) == Some((s[k], j + f(s[k]).len())),
    ensures
        sdec_many(b, i, s.len(), g) == Some((s, i + senc_many(s, f).len())),
    decreases s.len(),
{
    if s.len() == 0 {
        assert(s =~= Seq::<T>::empty());
    } else {
        let head = f(s[0]);
        let tail = senc_many(s.drop_first(), f);
        assert(senc_many(s, f) == head + tail);
        lemma_split_prefix(b, i, head, tail);
        assert(g(b, i) == Some((s[0], i + head.len())));
        let s2 = s.drop_first();
        assert forall|k: int, j: int|
            #![trigger g(b, j), f(s2[k])]
            0 <= k < s2.len() && 0 <= j && j + f(s2[k]).len() <= b.len() && b.subrange(
                j,
                j + f(s2[k]).len(),
            ) == f(s2[k]) implies g(b, j) == Some((s2[k], j + f(s2[k]).len())) by {
            assert(s2[k] == s[k + 1]);
            assert(f(s[k + 1]) == f(s2[k]));
        }
        lemma_round_many(b, i + head.len(), s2, f, g);
        assert(seq![s[0]] + s2 =~= s);
    }
}

proof fn lemma_round_str(b: Seq<u8>, i: int, s: Seq<char>)
    requires
        0 <= i,
        len_bounded(s),
        i + senc_str(s).len() <= b.len(),
        b.subrange(i, i + senc_str(s).len()) == senc_str(s),
    ensures
        sdec_str(b, i) == Some((s, i + senc_str(s).len())),
{
    let cf = |c: char| senc_char(c);
    let head = senc_u64(s.len() as u64);
    let tail = senc_many(s, cf);
    lemma_senc_u64_len(s.len() as u64);
    lemma_split_prefix(b, i, head, tail);
    lemma_round_u64(b, i, s.len() as u64);
    assert forall|k: int, j: int|
        #![trigger sdec_char_fn()(b, j), cf(s[k])]
        0 <= k < s.len() && 0 <= j && j + cf(s[k]).len() <= b.len() && b.subrange(
            j,
            j + cf(s[k]).len(),
        ) == cf(s[k]) implies sdec_char_fn()(b, j) == Some((s[k], j + cf(s[k]).len())) by {
        lemma_senc_u32_len(s[k] as u32);
        lemma_round_char(b, j, s[k]);
    }
    lemma_round_many(b, i + 8, s, cf, sdec_char_fn());
    assert((s.len() as u64) as nat == s.len());
}

proof fn lemma_round_value(b: Seq<u8>, i: int, v: SpecValue)
    requires
        0 <= i,
        value_bounded(v),
        i + senc_value(v).len() <= b.len(),
        b.subrange(i, i + senc_value(v).len()) == senc_value(v),
    ensures
        sdec_value(b, i) == Some((v, i + senc_value(v).len())),
{
    let enc = senc_value(v);
    assert(b[i] == b.subrange(i, i + enc.len())[0]);
    match v {
        SpecValue::Int(x) => {
            lemma_senc_u64_len(x as u64);
            lemma_split_prefix(b, i, seq![0u8], senc_i64(x));
            lemma_round_u64(b, i + 1, x as u64);
            assert(((x as u64) as i64) == x) by (bit_vector);
        },
        SpecValue::Real(bits) => {
            lemma_senc_u64_len(bits);
            lemma_split_prefix(b, i, seq![1u8], senc_u64(bits));
            lemma_round_u64(b, i + 1, bits);
        },
        SpecValue::Char(c) => {
            lemma_senc_u32_len(c as u32);
            lemma_split_prefix(b, i, seq![2u8], senc_char(c));
            lemma_round_char(b, i + 1, c);
        },
        SpecValue::Text(s) => {
            lemma_split_prefix(b, i, seq![3u8], senc_str(s));
            lemma_round_str(b, i + 1, s);
        },
        SpecValue::Time(t) => {
            lemma_senc_u64_len(t.secs as u64);
            lemma_senc_u32_len(t.nanos);
            assert(seq![4u8] + senc_i64(t.secs) + senc_u32(t.nanos) =~= seq![4u8] + (senc_i64(
                t.secs,
            ) + senc_u32(t.nanos)));
            lemma_split_prefix(b, i, seq![4u8], senc_i64(t.secs) + senc_u32(t.nanos));
            lemma_split_prefix(b, i + 1, senc_i64(t.secs), senc_u32(t.nanos));
            lemma_round_u64(b, i + 1, t.secs as u64);
            let secs = t.secs;
            assert(((secs as u64) as i64) == secs) by (bit_vector);
            lemma_round_u32(b, i + 9, t.nanos);
        },
    }
}

proof fn lemma_round_row(b: Seq<u8>, i: int, r: Seq<SpecValue>)
    requires
        0 <= i,
        row_bounded(r),
        i + senc_row(r).len() <= b.len(),
        b.subrange(i, i + senc_row(r).len()) == senc_row(r),
    ensures
        sdec_row(b, i) == Some((r, i + senc_row(r).len())),
{
    let vf = |v: SpecValue| senc_value(v);
    let head = senc_u64(r.len() as u64);
    let tail = senc_many(r, vf);
    lemma_senc_u64_len(r.len() as u64);
    lemma_split_prefix(b, i, head, tail);
    lemma_round_u64(b, i, r.len() as u64);
    assert forall|k: int, j: int|
        #![trigger sdec_value_fn()(b, j), vf(r[k])]
        0 <= k < r.len() && 0 <= j && j + vf(r[k]).len() <= b.len() && b.subrange(
            j,
            j + vf(r[k]).len(),
        ) == vf(r[k]) implies sdec_value_fn()(b, j) == Some((r[k], j + vf(r[k]).len())) by {
        lemma_round_value(b, j, r[k]);
    }
    lemma_round_many(b, i + 8, r, vf, sdec_value_fn());
    assert((r.len() as u64) as nat == r.len());
}

proof fn lemma_round_table(b: Seq<u8>, i: int, t: SpecTable)
    requires
        0 <= i,
        table_bounded(t),
        i + senc_table(t).len() <= b.len(),
        b.subrange(i, i + senc_table(t).len()) == senc_table(t),
    ensures
        sdec_table(b, i) == Some((t, i + senc_table(t).len())),
{
    let gf = |g: DbType| senc_tag(g);
    let rf = |r: Seq<SpecValue>| senc_row(r);
    let part_a = senc_str(t.name);
    let part_b = senc_u64(t.schema.len() as u64);
    let part_c = senc_many(t.schema, gf);
    let part_d = senc_u64(t.rows.len() as u64);
    let part_e = senc_many(t.rows, rf);
    lemma_senc_u64_len(t.schema.len() as u64);
    lemma_senc_u64_len(t.rows.len() as u64);
    assert(senc_table(t) =~= part_a + (part_b + (part_c + (part_d + part_e))));
    lemma_split_prefix(b, i, part_a, part_b + (part_c + (part_d + part_e)));
    let i2 = i + part_a.len();
    lemma_split_prefix(b, i2, part_b, part_c + (part_d + part_e));
    let i3 = i2 + part_b.len();
    lemma_split_prefix(b, i3, part_c, part_d + part_e);
    let i4 = i3 + part_c.len();
    lemma_split_prefix(b, i4, part_d, part_e);
    let i5 = i4 + part_d.len();
    lemma_round_str(b, i, t.name);
    lemma_round_u64(b, i2, t.schema.len() as u64);
    assert forall|k: int, j: int|
        #![trigger sdec_tag_fn()(b, j), gf(t.schema[k])]
        0 <= k < t.schema.len() && 0 <= j && j + gf(t.schema[k]).len() <= b.len() && b.subrange(
            j,
            j + gf(t.schema[k]).len(),
        ) == gf(t.schema[k]) implies sdec_tag_fn()(b, j) == Some(
        (t.schema[k], j + gf(t.schema[k]).len()),
    ) by {
        lemma_round_tag(b, j, t.schema[k]);
    }
    lemma_round_many(b, i3, t.schema, gf, sdec_tag_fn());
    lemma_round_u64(b, i4, t.rows.len() as u64);
    assert forall|k: int, j: int|
        #![trigger sdec_row_fn()(b, j), rf(t.rows[k])]
        0 <= k < t.rows.len() && 0 <= j && j + rf(t.rows[k]).len() <= b.len() && b.subrange(
            j,
            j + rf(t.rows[k]).len(),
        ) == rf(t.rows[k]) implies sdec_row_fn()(b, j) == Some(
        (t.rows[k], j + rf(t.rows[k]).len()),
    ) by {
        lemma_round_row(b, j, t.rows[k]);
    }
    lemma_round_many(b, i5, t.rows, rf, sdec_row_fn());
    assert((t.schema.len() as u64) as nat == t.schema.len());
    assert((t.rows.len() as u64) as nat == t.rows.len());
}

/// Round trip: decoding a database's snapshot yields that database.
///
/// Holds for every database whose name, table count, and per-table
/// counts fit the encoding's 64-bit length fields — which every value
/// built from in-memory vectors does.
pub proof fn lemma_snapshot_round_trip(d: crate::database::SpecDatabase)
    requires
        db_bounded(d),
    ensures
        sdec_db(senc_db(d)) == Some(d),
{
    let tf = |t: SpecTable| senc_table(t);
    let b = senc_db(d);
    let part_a = senc_str(d.name);
    let part_b = senc_u64(d.tables.len() as u64);
    let part_c = senc_many(d.tables, tf);
    lemma_senc_u64_len(d.tables.len() as u64);
    assert(b =~= seq![FORMAT_VERSION] + (part_a + (part_b + part_c)));
    assert(b.subrange(0, b.len() as int) =~= b);
    lemma_split_prefix(b, 0, seq![FORMAT_VERSION], part_a + (part_b + part_c));
    assert(b[0] == seq![FORMAT_VERSION][0]);
    lemma_split_prefix(b, 1, part_a, part_b + part_c);
    let i2: int = 1 + part_a.len() as int;
    lemma_split_prefix(b, i2, part_b, part_c);
    let i3: int = i2 + part_b.len() as int;
    lemma_round_str(b, 1, d.name);
    lemma_round_u64(b, i2, d.tables.len() as u64);
    assert forall|k: int, j: int|
        #![trigger sdec_table_fn()(b, j), tf(d.tables[k])]
        0 <= k < d.tables.len() && 0 <= j && j + tf(d.tables[k]).len() <= b.len() && b.subrange(
            j,
            j + tf(d.tables[k]).len(),
        ) == tf(d.tables[k]) implies sdec_table_fn()(b, j) == Some(
        (d.tables[k], j + tf(d.tables[k]).len()),
    ) by {
        lemma_round_table(b, j, d.tables[k]);
    }
    lemma_round_many(b, i3, d.tables, tf, sdec_table_fn());
    assert((d.tables.len() as u64) as nat == d.tables.len());
}

// ---------------------------------------------------------------------
// Executable encoding
// ---------------------------------------------------------------------

proof fn lemma_senc_many_concat<T>(a: Seq<T>, c: Seq<T>, f: spec_fn(T) -> Seq<u8>)
    ensures
        senc_many(a + c, f) == senc_many(a, f) + senc_many(c, f),
    decreases a.len(),
{
    if a.len() == 0 {
        assert(a + c =~= c);
        assert(senc_many(a, f) + senc_many(c, f) =~= senc_many(c, f));
    } else {
        assert((a + c).first() == a.first());
        assert((a + c).drop_first() =~= a.drop_first() + c);
        lemma_senc_many_concat(a.drop_first(), c, f);
        assert(f(a.first()) + (senc_many(a.drop_first(), f) + senc_many(c, f)) =~= (f(a.first())
            + senc_many(a.drop_first(), f)) + senc_many(c, f));
    }
}

pub(crate) proof fn lemma_senc_many_step<T>(s: Seq<T>, f: spec_fn(T) -> Seq<u8>, m: int)
    requires
        0 <= m < s.len(),
    ensures
        senc_many(s.take(m + 1), f) == senc_many(s.take(m), f) + f(s[m]),
{
    assert(s.take(m + 1) =~= s.take(m) + seq![s[m]]);
    lemma_senc_many_concat(s.take(m), seq![s[m]], f);
    let one = seq![s[m]];
    assert(one.drop_first() =~= Seq::<T>::empty());
    assert(one.first() == s[m]);
    assert(senc_many(one, f) == f(s[m]) + senc_many(one.drop_first(), f));
    assert(senc_many(one.drop_first(), f) == Seq::<u8>::empty());
    assert(f(s[m]) + Seq::<u8>::empty() =~= f(s[m]));
}

/// The characters of a string, in order, as a vector.
fn chars_of(s: &str) -> (out: Vec<char>)
    ensures
        out@ == s@,
{
    let n = s.unicode_len();
    let mut out: Vec<char> = Vec::new();
    let mut i: usize = 0;
    while i < n
        invariant
            n == s@.len(),
            i <= n,
            out@ == s@.take(i as int),
        decreases n - i,
    {
        out.push(s.get_char(i));
        proof {
            assert(out@ =~= s@.take(i + 1 as int));
        }
        i += 1;
    }
    proof {
        assert(s@.take(n as int) =~= s@);
    }
    out
}

pub(crate) fn enc_u64_into(out: &mut Vec<u8>, x: u64)
    ensures
        final(out)@ == old(out)@ + senc_u64(x),
{
    let mut bs = vstd::bytes::u64_to_le_bytes(x);
    out.append(&mut bs);
}

fn enc_u32_into(out: &mut Vec<u8>, x: u32)
    ensures
        final(out)@ == old(out)@ + senc_u32(x),
{
    let mut bs = vstd::bytes::u32_to_le_bytes(x);
    out.append(&mut bs);
}

#[verifier::loop_isolation(false)]
pub(crate) fn enc_str_into(out: &mut Vec<u8>, s: &str)
    ensures
        final(out)@ == old(out)@ + senc_str(s@),
        len_bounded(s@),
{
    let ghost base = out@;
    let cs = chars_of(s);
    let ghost cf = |c: char| senc_char(c);
    enc_u64_into(out, cs.len() as u64);
    let mut i: usize = 0;
    while i < cs.len()
        invariant
            cs@ == s@,
            i <= cs@.len(),
            out@ == base + senc_u64(cs@.len() as u64) + senc_many(s@.take(i as int), cf),
        decreases cs@.len() - i,
    {
        enc_u32_into(out, cs[i] as u32);
        proof {
            assert(cf(s@[i as int]) == senc_u32(s@[i as int] as u32));
            lemma_senc_many_step(s@, cf, i as int);
            assert(base + senc_u64(cs@.len() as u64) + senc_many(s@.take(i as int), cf)
                + senc_u32(s@[i as int] as u32) =~= base + senc_u64(cs@.len() as u64) + (
            senc_many(s@.take(i as int), cf) + cf(s@[i as int])));
        }
        i += 1;
    }
    proof {
        assert(s@.take(s@.len() as int) =~= s@);
        assert(base + senc_u64(s@.len() as u64) + senc_many(s@, cf) =~= base + (senc_u64(
            s@.len() as u64,
        ) + senc_many(s@, cf)));
    }
}

fn enc_value_into(out: &mut Vec<u8>, v: &DbValue)
    ensures
        final(out)@ == old(out)@ + senc_value(v@),
        value_bounded(v@),
{
    let ghost base = out@;
    match v {
        DbValue::Int(x) => {
            out.push(0u8);
            enc_u64_into(out, *x as u64);
            proof {
                assert(base.push(0u8) =~= base + seq![0u8]);
                assert(base + seq![0u8] + senc_i64(*x) =~= base + (seq![0u8] + senc_i64(*x)));
            }
        },
        DbValue::Real(bits) => {
            out.push(1u8);
            enc_u64_into(out, *bits);
            proof {
                assert(base.push(1u8) =~= base + seq![1u8]);
                assert(base + seq![1u8] + senc_u64(*bits) =~= base + (seq![1u8] + senc_u64(
                    *bits,
                )));
            }
        },
        DbValue::Char(c) => {
            out.push(2u8);
            enc_u32_into(out, *c as u32);
            proof {
                assert(base.push(2u8) =~= base + seq![2u8]);
                assert(base + seq![2u8] + senc_char(*c) =~= base + (seq![2u8] + senc_char(*c)));
            }
        },
        DbValue::String(s) => {
            out.push(3u8);
            enc_str_into(out, s.as_str());
            proof {
                assert(base.push(3u8) =~= base + seq![3u8]);
                assert(base + seq![3u8] + senc_str(s@) =~= base + (seq![3u8] + senc_str(s@)));
            }
        },
        DbValue::Time(t) => {
            out.push(4u8);
            enc_u64_into(out, t.secs as u64);
            enc_u32_into(out, t.nanos);
            proof {
                assert(base.push(4u8) =~= base + seq![4u8]);
                assert(base + seq![4u8] + senc_i64(t.secs) + senc_u32(t.nanos) =~= base + (
                seq![4u8] + senc_i64(t.secs) + senc_u32(t.nanos)));
            }
        },
    }
}

#[verifier::loop_isolation(false)]
fn enc_row_into(out: &mut Vec<u8>, r: &Row)
    ensures
        final(out)@ == old(out)@ + senc_row(r@),
        row_bounded(r@),
{
    let ghost base = out@;
    let ghost vf = |v: SpecValue| senc_value(v);
    enc_u64_into(out, r.0.len() as u64);
    let mut i: usize = 0;
    while i < r.0.len()
        invariant
            i <= r@.len(),
            out@ == base + senc_u64(r@.len() as u64) + senc_many(r@.take(i as int), vf),
            forall|j: int| 0 <= j < i ==> value_bounded(#[trigger] r@[j]),
        decreases r@.len() - i,
    {
        enc_value_into(out, &r.0[i]);
        proof {
            assert(r@[i as int] == r.0@[i as int]@);
            lemma_senc_many_step(r@, vf, i as int);
            assert(base + senc_u64(r@.len() as u64) + senc_many(r@.take(i as int), vf) + senc_value(
                r@[i as int],
            ) =~= base + senc_u64(r@.len() as u64) + (senc_many(r@.take(i as int), vf) + vf(
                r@[i as int],
            )));
        }
        i += 1;
    }
    proof {
        assert(r@.take(r@.len() as int) =~= r@);
        assert(base + senc_u64(r@.len() as u64) + senc_many(r@, vf) =~= base + (senc_u64(
            r@.len() as u64,
        ) + senc_many(r@, vf)));
    }
}

/// One byte for each type tag.
fn tag_byte_of(t: DbType) -> (b: u8)
    ensures
        b == tag_byte(t),
{
    match t {
        DbType::Int => 0u8,
        DbType::Real => 1u8,
        DbType::Char => 2u8,
        DbType::String => 3u8,
        DbType::Time => 4u8,
    }
}

#[verifier::loop_isolation(false)]
pub(crate) fn enc_table_into(out: &mut Vec<u8>, t: &Table)
    ensures
        final(out)@ == old(out)@ + senc_table(t@),
        table_bounded(t@),
{
    let ghost base = out@;
    let ghost gf = |g: DbType| senc_tag(g);
    let ghost rf = |r: Seq<SpecValue>| senc_row(r);
    enc_str_into(out, t.name());
    let schema = t.schema();
    enc_u64_into(out, schema.len() as u64);
    let ghost mid1 = base + senc_str(t@.name) + senc_u64(t@.schema.len() as u64);
    let mut i: usize = 0;
    while i < schema.len()
        invariant
            schema@ == t@.schema,
            i <= schema@.len(),
            out@ == mid1 + senc_many(t@.schema.take(i as int), gf),
        decreases schema@.len() - i,
    {
        out.push(tag_byte_of(schema[i]));
        proof {
            lemma_senc_many_step(t@.schema, gf, i as int);
            assert((mid1 + senc_many(t@.schema.take(i as int), gf)).push(
                tag_byte(t@.schema[i as int]),
            ) =~= mid1 + (senc_many(t@.schema.take(i as int), gf) + gf(t@.schema[i as int])));
        }
        i += 1;
    }
    proof {
        assert(t@.schema.take(t@.schema.len() as int) =~= t@.schema);
    }
    let rows = t.rows();
    enc_u64_into(out, rows.len() as u64);
    let ghost mid2 = mid1 + senc_many(t@.schema, gf) + senc_u64(t@.rows.len() as u64);
    let mut k: usize = 0;
    while k < rows.len()
        invariant
            crate::table::rows_view(rows@) == t@.rows,
            rows@.len() == t@.rows.len(),
            k <= rows@.len(),
            out@ == mid2 + senc_many(t@.rows.take(k as int), rf),
            forall|j: int| 0 <= j < k ==> row_bounded(#[trigger] t@.rows[j]),
        decreases rows@.len() - k,
    {
        enc_row_into(out, &rows[k]);
        proof {
            assert(t@.rows[k as int] == rows@[k as int]@);
            lemma_senc_many_step(t@.rows, rf, k as int);
            assert(mid2 + senc_many(t@.rows.take(k as int), rf) + senc_row(t@.rows[k as int]) =~=
            mid2 + (senc_many(t@.rows.take(k as int), rf) + rf(t@.rows[k as int])));
        }
        k += 1;
    }
    proof {
        assert(t@.rows.take(t@.rows.len() as int) =~= t@.rows);
        assert(mid2 + senc_many(t@.rows, rf) =~= base + senc_table(t@));
    }
}

// ---------------------------------------------------------------------
// Executable decoding
// ---------------------------------------------------------------------

/// Relies on char::from_u32: `Some` exactly for Unicode scalar values
/// (code points below 0xD800 or in 0xE000..=0x10FFFF), returning the
/// character with that code point.
#[verifier::external_body]
fn char_from_u32(u: u32) -> (r: Option<char>)
    ensures
        r is Some <==> is_code_point(u),
        r is Some ==> (r.unwrap() as u32) == u,
{
    char::from_u32(u)
}

/// Relies on String::push: appends one character at the end.
#[verifier::external_body]
fn push_char(s: &mut String, c: char)
    ensures
        final(s)@ == old(s)@.push(c),
{
    s.push(c)
}

fn dec_u64(b: &[u8], pos: usize) -> (r: Option<(u64, usize)>)
    ensures
        match r {
            Some(p) => sdec_u64(b@, pos as int) == Some((p.0, p.1 as int)) && p.1 <= b@.len(),
            None => sdec_u64(b@, pos as int) is None,
        },
{
    if pos <= b.len() && b.len() - pos >= 8 {
        let sl = vstd::slice::slice_subrange(b, pos, pos + 8);
        Some((vstd::bytes::u64_from_le_bytes(sl), pos + 8))
    } else {
        None
    }
}

fn dec_u32(b: &[u8], pos: usize) -> (r: Option<(u32, usize)>)
    ensures
        match r {
            Some(p) => sdec_u32(b@, pos as int) == Some((p.0, p.1 as int)) && p.1 <= b@.len(),
            None => sdec_u32(b@, pos as int) is None,
        },
{
    if pos <= b.len() && b.len() - pos >= 4 {
        let sl = vstd::slice::slice_subrange(b, pos, pos + 4);
        Some((vstd::bytes::u32_from_le_bytes(sl), pos + 4))
    } else {
        None
    }
}

fn dec_char(b: &[u8], pos: usize) -> (r: Option<(char, usize)>)
    ensures
        match r {
            Some(p) => sdec_char(b@, pos as int) == Some((p.0, p.1 as int)) && p.1 <= b@.len(),
            None => sdec_char(b@, pos as int) is None,
        },
{
    match dec_u32(b, pos) {
        Some((u, j)) => match char_from_u32(u) {
            Some(c) => {
                proof {
                    vstd::utf8::char_u32_cast(c, u);
                }
                Some((c, j))
            },
            None => None,
        },
        None => None,
    }
}

fn dec_tag(b: &[u8], pos: usize) -> (r: Option<(DbType, usize)>)
    ensures
        match r {
            Some(p) => sdec_tag(b@, pos as int) == Some((p.0, p.1 as int)) && p.1 <= b@.len(),
            None => sdec_tag(b@, pos as int) is None,
        },
{
    if pos < b.len() {
        let t = b[pos];
        if t == 0u8 {
            Some((DbType::Int, pos + 1))
        } else if t == 1u8 {
            Some((DbType::Real, pos + 1))
        } else if t == 2u8 {
            Some((DbType::Char, pos + 1))
        } else if t == 3u8 {
            Some((DbType::String, pos + 1))
        } else if t == 4u8 {
            Some((DbType::Time, pos + 1))
        } else {
            None
        }
    } else {
        None
    }
}

#[verifier::loop_isolation(false)]
fn dec_str(b: &[u8], pos: usize) -> (r: Option<(String, usize)>)
    ensures
        match r {
            Some(p) => sdec_str(b@, pos as int) == Some((p.0@, p.1 as int)) && p.1 <= b@.len(),
            None => sdec_str(b@, pos as int) is None,
        },
{
    let (count, start) = match dec_u64(b, pos) {
        Some(p) => p,
        None => {
            return None;
        },
    };
    let mut acc = String::new();
    let mut cur: usize = start;
    let mut m: u64 = 0;
    while m < count
        invariant
            m <= count,
            cur <= b@.len(),
            sdec_many(b@, start as int, count as nat, sdec_char_fn()) == (match sdec_many(
                b@,
                cur as int,
                (count - m) as nat,
                sdec_char_fn(),
            ) {
                Some((s, k)) => Some((acc@ + s, k)),
                None => None::<(Seq<char>, int)>,
            }),
        decreases count - m,
    {
        let ghost rem = (count - m) as nat;
        match dec_char(b, cur) {
            Some((c, j)) => {
                proof {
                    assert(sdec_char_fn()(b@, cur as int) == Some((c, j as int)));
                    let tail = sdec_many(b@, j as int, (rem - 1) as nat, sdec_char_fn());
                    assert(sdec_many(b@, cur as int, rem, sdec_char_fn()) == (match tail {
                        Some((s, k)) => Some((seq![c] + s, k)),
                        None => None::<(Seq<char>, int)>,
                    }));
                    if tail is Some {
                        let s = tail.unwrap().0;
                        assert(acc@ + (seq![c] + s) =~= acc@.push(c) + s);
                    }
                }
                push_char(&mut acc, c);
                cur = j;
                m = m + 1;
            },
            None => {
                proof {
                    assert(sdec_many(b@, cur as int, rem, sdec_char_fn()) is None);
                }
                return None;
            },
        }
    }
    proof {
        assert(sdec_many(b@, cur as int, 0, sdec_char_fn()) == Some((
            Seq::<char>::empty(),
            cur as int,
        )));
        assert(acc@ + Seq::<char>::empty() =~= acc@);
    }
    Some((acc, cur))
}

fn dec_value(b: &[u8], pos: usize) -> (r: Option<(DbValue, usize)>)
    ensures
        match r {
            Some(p) => sdec_value(b@, pos as int) == Some((p.0@, p.1 as int)) && p.1 <= b@.len(),
            None => sdec_value(b@, pos as int) is None,
        },
{
    if pos >= b.len() {
        return None;
    }
    let tag = b[pos];
    let j = pos + 1;
    if tag == 0u8 {
        match dec_u64(b, j) {
            Some((x, k)) => Some((DbValue::Int(x as i64), k)),
            None => None,
        }
    } else if tag == 1u8 {
        match dec_u64(b, j) {
            Some((x, k)) => Some((DbValue::Real(x), k)),
            None => None,
        }
    } else if tag == 2u8 {
        match dec_char(b, j) {
            Some((c, k)) => Some((DbValue::Char(c), k)),
            None => None,
        }
    } else if tag == 3u8 {
        match dec_str(b, j) {
            Some((s, k)) => Some((DbValue::String(s), k)),
            None => None,
        }
    } else if tag == 4u8 {
        match dec_u64(b, j) {
            Some((x, k)) => match dec_u32(b, k) {
                Some((nanos, m)) => Some((
                    DbValue::Time(Timestamp { secs: x as i64, nanos }),
                    m,
                )),
                None => None,
            },
            None => None,
        }
    } else {
        None
    }
}

#[verifier::loop_isolation(false)]
fn dec_row(b: &[u8], pos: usize) -> (r: Option<(Row, usize)>)
    ensures
        match r {
            Some(p) => sdec_row(b@, pos as int) == Some((p.0@, p.1 as int)) && p.1 <= b@.len(),
            None => sdec_row(b@, pos as int) is None,
        },
{
    let (count, start) = match dec_u64(b, pos) {
        Some(p) => p,
        None => {
            return None;
        },
    };
    let mut acc: Vec<DbValue> = Vec::new();
    let mut cur: usize = start;
    let mut m: u64 = 0;
    while m < count
        invariant
            m <= count,
            cur <= b@.len(),
            acc.deep_view().len() == m,
            sdec_many(b@, start as int, count as nat, sdec_value_fn()) == (match sdec_many(
                b@,
                cur as int,
                (count - m) as nat,
                sdec_value_fn(),
            ) {
                Some((s, k)) => Some((acc.deep_view() + s, k)),
                None => None::<(Seq<SpecValue>, int)>,
            }),
        decreases count - m,
    {
        let ghost rem = (count - m) as nat;
        let ghost pre = acc.deep_view();
        match dec_value(b, cur) {
            Some((v, j)) => {
                let ghost vv = v@;
                proof {
                    assert(sdec_value_fn()(b@, cur as int) == Some((vv, j as int)));
                    let tail = sdec_many(b@, j as int, (rem - 1) as nat, sdec_value_fn());
                    assert(sdec_many(b@, cur as int, rem, sdec_value_fn()) == (match tail {
                        Some((s, k)) => Some((seq![vv] + s, k)),
                        None => None::<(Seq<SpecValue>, int)>,
                    }));
                }
                acc.push(v);
                proof {
                    assert(acc.deep_view() =~= pre.push(vv));
                    let tail = sdec_many(b@, j as int, (rem - 1) as nat, sdec_value_fn());
                    if tail is Some {
                        let s = tail.unwrap().0;
                        assert(pre + (seq![vv] + s) =~= pre.push(vv) + s);
                    }
                }
                cur = j;
                m = m + 1;
            },
            None => {
                proof {
                    assert(sdec_many(b@, cur as int, rem, sdec_value_fn()) is None);
                }
                return None;
            },
        }
    }
    proof {
        assert(sdec_many(b@, cur as int, 0, sdec_value_fn()) == Some((
            Seq::<SpecValue>::empty(),
            cur as int,
        )));
        assert(acc.deep_view() + Seq::<SpecValue>::empty() =~= acc.deep_view());
    }
    Some((Row(acc), cur))
}

#[verifier::loop_isolation(false)]
fn dec_schema(b: &[u8], pos: usize) -> (r: Option<(Vec<DbType>, usize)>)
    ensures
        match r {
            Some(p) => sdec_schema(b@, pos as int) == Some((p.0@, p.1 as int)) && p.1
                <= b@.len(),
            None => sdec_schema(b@, pos as int) is None,
        },
{
    let (count, start) = match dec_u64(b, pos) {
        Some(p) => p,
        None => {
            return None;
        },
    };
    let mut acc: Vec<DbType> = Vec::new();
    let mut cur: usize = start;
    let mut m: u64 = 0;
    while m < count
        invariant
            m <= count,
            cur <= b@.len(),
            acc@.len() == m,
            sdec_many(b@, start as int, count as nat, sdec_tag_fn()) == (match sdec_many(
                b@,
                cur as int,
                (count - m) as nat,
                sdec_tag_fn(),
            ) {
                Some((s, k)) => Some((acc@ + s, k)),
                None => None::<(Seq<DbType>, int)>,
            }),
        decreases count - m,
    {
        let ghost rem = (count - m) as nat;
        let ghost pre = acc@;
        match dec_tag(b, cur) {
            Some((t, j)) => {
                proof {
                    assert(sdec_tag_fn()(b@, cur as int) == Some((t, j as int)));
                    let tail = sdec_many(b@, j as int, (rem - 1) as nat, sdec_tag_fn());
                    assert(sdec_many(b@, cur as int, rem, sdec_tag_fn()) == (match tail {
                        Some((s, k)) => Some((seq![t] + s, k)),
                        None => None::<(Seq<DbType>, int)>,
                    }));
                    if tail is Some {
                        let s = tail.unwrap().0;
                        assert(pre + (seq![t] + s) =~= pre.push(t) + s);
                    }
                }
                acc.push(t);
                cur = j;
                m = m + 1;
            },
            None => {
                proof {
                    assert(sdec_many(b@, cur as int, rem, sdec_tag_fn()) is None);
                }
                return None;
            },
        }
    }
    proof {
        assert(sdec_many(b@, cur as int, 0, sdec_tag_fn()) == Some((
            Seq::<DbType>::empty(),
            cur as int,
        )));
        assert(acc@ + Seq::<DbType>::empty() =~= acc@);
    }
    Some((acc, cur))
}

#[verifier::loop_isolation(false)]
fn dec_rows(b: &[u8], pos: usize) -> (r: Option<(Vec<Row>, usize)>)
    ensures
        match r {
            Some(p) => sdec_rows(b@, pos as int) == Some((rows_view(p.0@), p.1 as int)) && p.1
                <= b@.len(),
            None => sdec_rows(b@, pos as int) is None,
        },
{
    let (count, start) = match dec_u64(b, pos) {
        Some(p) => p,
        None => {
            return None;
        },
    };
    let mut acc: Vec<Row> = Vec::new();
    let mut cur: usize = start;
    let mut m: u64 = 0;
    while m < count
        invariant
            m <= count,
            cur <= b@.len(),
            acc@.len() == m,
            sdec_many(b@, start as int, count as nat, sdec_row_fn()) == (match sdec_many(
                b@,
                cur as int,
                (count - m) as nat,
                sdec_row_fn(),
            ) {
                Some((s, k)) => Some((rows_view(acc@) + s, k)),
                None => None::<(Seq<Seq<SpecValue>>, int)>,
            }),
        decreases count - m,
    {
        let ghost rem = (count - m) as nat;
        let ghost pre = acc@;
        match dec_row(b, cur) {
            Some((row, j)) => {
                let ghost rv = row@;
                proof {
                    assert(sdec_row_fn()(b@, cur as int) == Some((rv, j as int)));
                    let tail = sdec_many(b@, j as int, (rem - 1) as nat, sdec_row_fn());
                    assert(sdec_many(b@, cur as int, rem, sdec_row_fn()) == (match tail {
                        Some((s, k)) => Some((seq![rv] + s, k)),
                        None => None::<(Seq<Seq<SpecValue>>, int)>,
                    }));
                    if tail is Some {
                        let s = tail.unwrap().0;
                        assert(rows_view(pre.push(row)) =~= rows_view(pre).push(rv));
                        assert(rows_view(pre) + (seq![rv] + s) =~= rows_view(pre).push(rv) + s);
                    } else {
                        assert(rows_view(pre.push(row)) =~= rows_view(pre).push(rv));
                    }
                }
                acc.push(row);
                cur = j;
                m = m + 1;
            },
            None => {
                proof {
                    assert(sdec_many(b@, cur as int, rem, sdec_row_fn()) is None);
                }
                return None;
            },
        }
    }
    proof {
        assert(sdec_many(b@, cur as int, 0, sdec_row_fn()) == Some((
            Seq::<Seq<SpecValue>>::empty(),
            cur as int,
        )));
        assert(rows_view(acc@) + Seq::<Seq<SpecValue>>::empty() =~= rows_view(acc@));
    }
    Some((acc, cur))
}

fn dec_table(b: &[u8], pos: usize) -> (r: Option<((String, Vec<DbType>, Vec<Row>), usize)>)
    ensures
        match r {
            Some(p) => sdec_table(b@, pos as int) == Some(
                (
                    SpecTable {
                        name: p.0.0@,
                        schema: p.0.1@,
                        rows: rows_view(p.0.2@),
                    },
                    p.1 as int,
                ),
            ) && p.1 <= b@.len(),
            None => sdec_table(b@, pos as int) is None,
        },
{
    let (name, j) = match dec_str(b, pos) {
        Some(p) => p,
        None => {
            return None;
        },
    };
    let (schema, k) = match dec_schema(b, j) {
        Some(p) => p,
        None => {
            return None;
        },
    };
    let (rows, q) = match dec_rows(b, k) {
        Some(p) => p,
        None => {
            return None;
        },
    };
    Some(((name, schema, rows), q))
}

/// Whether the table at position `i` repeats an earlier table's name.
pub open spec fn dup_at(tables: Seq<SpecTable>, i: int) -> bool {
    exists|j: int| 0 <= j < i && (#[trigger] tables[j]).name == tables[i].name
}

/// Whether the table at position `i` can be installed: a fresh name and
/// rows that match its stored schema.
pub open spec fn table_ok(tables: Seq<SpecTable>, i: int) -> bool {
    !dup_at(tables, i) && tables[i].wf()
}

/// The position of the first table that cannot be installed, starting the
/// scan at `i`; the sequence's length when all can.
pub open spec fn first_bad_from(tables: Seq<SpecTable>, i: int) -> int
    decreases tables.len() - i,
    when 0 <= i <= tables.len()
{
    if i >= tables.len() {
        tables.len() as int
    } else if !table_ok(tables, i) {
        i
    } else {
        first_bad_from(tables, i + 1)
    }
}

/// The position of the first table that cannot be installed; the
/// sequence's length when every table can.
pub open spec fn first_bad(tables: Seq<SpecTable>) -> int {
    first_bad_from(tables, 0)
}

proof fn lemma_first_bad_at(tables: Seq<SpecTable>, k: int, i: int)
    requires
        0 <= k <= i <= tables.len(),
        forall|j: int| k <= j < i ==> #[trigger] table_ok(tables, j),
        i < tables.len() ==> !table_ok(tables, i),
    ensures
        first_bad_from(tables, k) == if i < tables.len() {
            i
        } else {
            tables.len() as int
        },
    decreases i - k,
{
    if k < i {
        assert(table_ok(tables, k));
        lemma_first_bad_at(tables, k + 1, i);
    }
}

/// Every table of a well-formed database can be installed.
pub proof fn lemma_wf_installs(d: crate::database::SpecDatabase)
    requires
        d.wf(),
    ensures
        first_bad(d.tables) == d.tables.len(),
{
    assert forall|j: int| 0 <= j < d.tables.len() implies #[trigger] table_ok(d.tables, j) by {
        assert(d.tables[j].wf());
        assert(!dup_at(d.tables, j));
    }
    lemma_first_bad_at(d.tables, 0, d.tables.len() as int);
}

/// Round trip, end to end: loading the saved snapshot of any well-formed
/// database succeeds and yields that database — equal in name, table
/// set, schemas, and row contents, order preserved.
pub proof fn lemma_save_load_round_trip(d: crate::database::SpecDatabase)
    requires
        d.wf(),
        db_bounded(d),
    ensures
        sdec_db(senc_db(d)) == Some(d),
        first_bad(d.tables) == d.tables.len(),
{
    lemma_snapshot_round_trip(d);
    lemma_wf_installs(d);
}

/// The parsed tables, as table models.
spec fn parsed_view(ps: Seq<(String, Vec<DbType>, Vec<Row>)>) -> Seq<SpecTable> {
    Seq::new(
        ps.len(),
        |i: int| SpecTable { name: ps[i].0@, schema: ps[i].1@, rows: rows_view(ps[i].2@) },
    )
}

/// Decodes one snapshot blob into a database.
///
/// Fails with `Serde` when the blob is structurally malformed (wrong
/// version byte, truncated or trailing bytes, a bad scalar, or a repeated
/// table name), and with `InvalidTableState`, naming the first offending
/// table, when a stored row contradicts that table's stored schema. On
/// success the database equals exactly what the blob describes, and its
/// invariants hold.
#[verifier::loop_isolation(false)]
#[verifier::rlimit(100)]
pub fn decode_database(bytes: &[u8]) -> (r: Result<Database, DbError>)
    ensures
        sdec_db(bytes@) is None ==> (r matches Err(DbError::Serde)),
        sdec_db(bytes@) matches Some(d) ==> {
            let fb = first_bad(d.tables);
            &&& fb == d.tables.len() ==> (r matches Ok(db) && db@ == d && db@.wf())
            &&& fb < d.tables.len() && dup_at(d.tables, fb) ==> (r matches Err(DbError::Serde))
            &&& fb < d.tables.len() && !dup_at(d.tables, fb) ==> (r matches Err(
                DbError::InvalidTableState(n),
            ) && n@ == d.tables[fb].name)
        },
{
    if bytes.len() < 1 {
        return Err(DbError::Serde);
    }
    if bytes[0] != FORMAT_VERSION {
        return Err(DbError::Serde);
    }
    let (name, j) = match dec_str(bytes, 1) {
        Some(p) => p,
        None => {
            return Err(DbError::Serde);
        },
    };
    let (ntab, k) = match dec_u64(bytes, j) {
        Some(p) => p,
        None => {
            return Err(DbError::Serde);
        },
    };
    let mut parsed: Vec<(String, Vec<DbType>, Vec<Row>)> = Vec::new();
    let mut cur: usize = k;
    let mut m: u64 = 0;
    while m < ntab
        invariant
            m <= ntab,
            cur <= bytes@.len(),
            parsed@.len() == m,
            sdec_many(bytes@, k as int, ntab as nat, sdec_table_fn()) == (match sdec_many(
                bytes@,
                cur as int,
                (ntab - m) as nat,
                sdec_table_fn(),
            ) {
                Some((s, q)) => Some((parsed_view(parsed@) + s, q)),
                None => None::<(Seq<SpecTable>, int)>,
            }),
        decreases ntab - m,
    {
        let ghost rem = (ntab - m) as nat;
        let ghost pre = parsed@;
        match dec_table(bytes, cur) {
            Some((entry, q)) => {
                let ghost tv = SpecTable {
                    name: entry.0@,
                    schema: entry.1@,
                    rows: rows_view(entry.2@),
                };
                proof {
                    assert(sdec_table_fn()(bytes@, cur as int) == Some((tv, q as int)));
                    let tail = sdec_many(bytes@, q as int, (rem - 1) as nat, sdec_table_fn());
                    assert(sdec_many(bytes@, cur as int, rem, sdec_table_fn()) == (match tail {
                        Some((s, w)) => Some((seq![tv] + s, w)),
                        None => None::<(Seq<SpecTable>, int)>,
                    }));
                    if tail is Some {
                        let s = tail.unwrap().0;
                        assert(parsed_view(pre.push(entry)) =~= parsed_view(pre).push(tv));
                        assert(parsed_view(pre) + (seq![tv] + s) =~= parsed_view(pre).push(tv)
                            + s);
                    }
                }
                parsed.push(entry);
                proof {
                    assert(parsed_view(parsed@) =~= parsed_view(pre).push(tv));
                }
                cur = q;
                m = m + 1;
            },
            None => {
                proof {
                    assert(sdec_many(bytes@, cur as int, rem, sdec_table_fn()) is None);
                }
                return Err(DbError::Serde);
            },
        }
    }
    proof {
        assert(sdec_many(bytes@, cur as int, 0, sdec_table_fn()) == Some((
            Seq::<SpecTable>::empty(),
            cur as int,
        )));
        assert(parsed_view(parsed@) + Seq::<SpecTable>::empty() =~= parsed_view(parsed@));
    }
    if cur != bytes.len() {
        return Err(DbError::Serde);
    }
    let ghost d = crate::database::SpecDatabase {
        name: name@,
        tables: parsed_view(parsed@),
    };
    proof {
        assert(sdec_db(bytes@) == Some(d));
    }
    // Install: every table through `create_table`, every row through the
    // normal insert path, so the invariants are established constructively.
    let mut db = Database::new(name);
    let mut i: usize = 0;
    while i < parsed.len()
        invariant
            i <= parsed@.len(),
            d.tables == parsed_view(parsed@),
            d.tables.len() == parsed@.len(),
            db@.wf(),
            db@.name == d.name,
            db@.tables == d.tables.take(i as int),
            forall|j: int| 0 <= j < i ==> #[trigger] table_ok(d.tables, j),
        decreases parsed@.len() - i,
    {
        let ghost db_pre = db@;
        proof {
            assert(d.tables[i as int] == (SpecTable {
                name: parsed@[i as int].0@,
                schema: parsed@[i as int].1@,
                rows: rows_view(parsed@[i as int].2@),
            }));
            assert forall|w: int| 0 <= w < i implies db_pre.tables[w] == d.tables[w] by {}
            assert(db_pre.has_table(parsed@[i as int].0@) == dup_at(d.tables, i as int));
        }
        let tname = parsed[i].0.clone();
        let tschema = vstd::slice::slice_to_vec(parsed[i].1.as_slice());
        match db.create_table(tname, tschema) {
            Ok(()) => {},
            Err(_) => {
                proof {
                    assert(dup_at(d.tables, i as int));
                    assert(!table_ok(d.tables, i as int));
                    lemma_first_bad_at(d.tables, 0, i as int);
                    assert(first_bad(d.tables) == i as int);
                }
                return Err(DbError::Serde);
            },
        }
        proof {
            assert(db@.tables =~= d.tables.take(i as int).push(
                SpecTable { name: d.tables[i as int].name, schema: d.tables[i as int].schema, rows: Seq::empty() },
            ));
        }
        let nrows = parsed[i].2.len();
        let mut q: usize = 0;
        while q < nrows
            invariant
                q <= nrows,
                i < parsed@.len(),
                nrows == parsed@[i as int].2@.len(),
                d.tables == parsed_view(parsed@),
                d.tables.len() == parsed@.len(),
                d.tables[i as int].rows.len() == nrows,
                !dup_at(d.tables, i as int),
                db@.wf(),
                db@.name == d.name,
                db@.tables.len() == i + 1,
                forall|w: int| 0 <= w < i ==> db@.tables[w] == d.tables.take(i as int)[w],
                db@.tables[i as int] == (SpecTable {
                    name: d.tables[i as int].name,
                    schema: d.tables[i as int].schema,
                    rows: d.tables[i as int].rows.take(q as int),
                }),
                forall|w: int|
                    0 <= w < q ==> spec_schema_of(#[trigger] d.tables[i as int].rows[w])
                        == d.tables[i as int].schema,
            decreases nrows - q,
        {
            let ghost inner_pre = db@;
            proof {
                inner_pre.lemma_index_of_unique(d.tables[i as int].name, i as int);
                assert(d.tables[i as int].rows[q as int] == parsed@[i as int].2@[q as int]@);
            }
            let row_q = parsed[i].2[q].clone();
            let ghost rqv = row_q@;
            match db.get_table_mut(parsed[i].0.clone()) {
                Ok(t) => {
                    proof {
                        assert((*t)@ == inner_pre.tables[i as int]);
                    }
                    match t.insert_row(row_q) {
                        Ok(()) => {
                            proof {
                                assert(rqv == d.tables[i as int].rows[q as int]);
                                assert(spec_schema_of(d.tables[i as int].rows[q as int])
                                    == d.tables[i as int].schema);
                            }
                        },
                        Err(_) => {
                            proof {
                                assert(spec_schema_of(d.tables[i as int].rows[q as int])
                                    != d.tables[i as int].schema);
                                assert(!d.tables[i as int].wf());
                                assert(!table_ok(d.tables, i as int));
                                lemma_first_bad_at(d.tables, 0, i as int);
                                assert(first_bad(d.tables) == i as int);
                                assert(parsed@[i as int].0@ == d.tables[i as int].name);
                                assert(!dup_at(d.tables, i as int));
                            }
                            return Err(DbError::InvalidTableState(parsed[i].0.clone()));
                        },
                    }
                },
                Err(_) => {
                    proof {
                        assert(false);
                    }
                    return Err(DbError::Serde);
                },
            }
            proof {
                assert(db@.tables[i as int].rows =~= d.tables[i as int].rows.take(q as int + 1));
                assert(db@.tables[i as int] =~= (SpecTable {
                    name: d.tables[i as int].name,
                    schema: d.tables[i as int].schema,
                    rows: d.tables[i as int].rows.take(q as int + 1),
                }));
            }
            q += 1;
        }
        proof {
            assert(d.tables[i as int].rows.take(d.tables[i as int].rows.len() as int)
                =~= d.tables[i as int].rows);
            assert(db@.tables[i as int] =~= d.tables[i as int]);
            assert(d.tables[i as int].wf());
            assert(table_ok(d.tables, i as int));
            assert(db@.tables =~= d.tables.take(i as int + 1));
        }
        i += 1;
    }
    proof {
        assert(d.tables.take(d.tables.len() as int) =~= d.tables);
        assert(db@ =~= d);
        lemma_first_bad_at(d.tables, 0, d.tables.len() as int);
        assert(first_bad(d.tables) == d.tables.len());
    }
    Ok(db)
}

} // verus!
