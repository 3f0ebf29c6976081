use db::{DbError, DbType, DbValue, Row, SavedDatabase, Session, Timestamp};

/// Builds a database with two tables covering every scalar kind,
/// including text outside ASCII, a negative timestamp, and real bits.
fn sample_db() -> SavedDatabase {
    let mut db = SavedDatabase::create("inventory".to_string(), "data/inventory".to_string());
    db.create_table(
        "items".to_string(),
        vec![DbType::String, DbType::Int, DbType::Real, DbType::Char, DbType::Time],
    )
    .unwrap();
    {
        let t = db.get_table_mut("items".to_string()).unwrap();
        t.insert_row(Row(vec![
            DbValue::String("café ☃".to_string()),
            DbValue::Int(-42),
            DbValue::Real((-1.5f64).to_bits()),
            DbValue::Char('λ'),
            DbValue::Time(Timestamp::new(-86400, 999_999_999)),
        ]))
        .unwrap();
        t.insert_row(Row(vec![
            DbValue::String(String::new()),
            DbValue::Int(i64::MAX),
            DbValue::Real(f64::NAN.to_bits()),
            DbValue::Char('\0'),
            DbValue::Time(Timestamp::new(i64::MIN, 0)),
        ]))
        .unwrap();
    }
    db.create_table("empty".to_string(), vec![]).unwrap();
    db
}

#[test]
fn round_trip_deep_equality() {
    let db = sample_db();
    let bytes = db.save_bytes();
    let loaded = SavedDatabase::load_from_bytes("data/inventory".to_string(), &bytes).unwrap();
    assert_eq!(loaded.get_name(), db.get_name());
    assert_eq!(loaded.get_table_names(), db.get_table_names());
    for name in db.get_table_names() {
        let a = db.get_table(name.clone()).unwrap();
        let b = loaded.get_table(name).unwrap();
        assert_eq!(a.schema(), b.schema());
        assert_eq!(a.rows(), b.rows());
    }
    // Saving the reloaded database gives the identical blob.
    assert_eq!(loaded.save_bytes(), bytes);
}

#[test]
fn schema_mismatch_rejected() {
    let mut db = SavedDatabase::create("db".to_string(), "db".to_string());
    db.create_table("t".to_string(), vec![DbType::Int]).unwrap();
    let t = db.get_table_mut("t".to_string()).unwrap();
    t.insert_row(Row(vec![DbValue::Int(1)])).unwrap();

    // Wrong kind, wrong arity, and wrong update all leave the rows alone.
    let r = t.insert_row(Row(vec![DbValue::Char('x')]));
    assert!(matches!(r, Err(DbError::IncorrectRow)));
    let r = t.insert_row(Row(vec![DbValue::Int(1), DbValue::Int(2)]));
    assert!(matches!(r, Err(DbError::IncorrectRow)));
    let r = t.update_row(0, Row(vec![DbValue::Char('x')]));
    assert!(matches!(r, Err(DbError::IncorrectRow)));
    assert_eq!(t.rows(), vec![Row(vec![DbValue::Int(1)])]);
}

#[test]
fn update_out_of_range_is_an_error() {
    let mut db = SavedDatabase::create("db".to_string(), "db".to_string());
    db.create_table("t".to_string(), vec![DbType::Int]).unwrap();
    let t = db.get_table_mut("t".to_string()).unwrap();
    t.insert_row(Row(vec![DbValue::Int(1)])).unwrap();
    let r = t.update_row(1, Row(vec![DbValue::Int(9)]));
    assert!(matches!(r, Err(DbError::IndexOutOfRange)));
    assert_eq!(t.rows(), vec![Row(vec![DbValue::Int(1)])]);
}

#[test]
fn remove_out_of_range_is_a_no_op() {
    let mut db = SavedDatabase::create("db".to_string(), "db".to_string());
    db.create_table("t".to_string(), vec![DbType::Int]).unwrap();
    let t = db.get_table_mut("t".to_string()).unwrap();
    t.insert_row(Row(vec![DbValue::Int(1)])).unwrap();
    t.insert_row(Row(vec![DbValue::Int(2)])).unwrap();
    t.remove_row(5);
    assert_eq!(t.rows(), vec![Row(vec![DbValue::Int(1)]), Row(vec![DbValue::Int(2)])]);
    t.remove_row(0);
    assert_eq!(t.rows(), vec![Row(vec![DbValue::Int(2)])]);
}

#[test]
fn validate_rows_accepts_reachable_tables() {
    let db = sample_db();
    for name in db.get_table_names() {
        assert!(db.get_table(name).unwrap().validate_rows().is_ok());
    }
}

#[test]
fn duplicate_table_name_rejected() {
    let mut db = sample_db();
    let names_before = db.get_table_names();
    let r = db.create_table("items".to_string(), vec![DbType::Int]);
    assert!(matches!(r, Err(DbError::TableIsAlreadyPresent(n)) if n == "items"));
    assert_eq!(db.get_table_names(), names_before);
    assert_eq!(db.get_table("items".to_string()).unwrap().rows().len(), 2);
}

#[test]
fn missing_lookups_fail() {
    let mut db = sample_db();
    let names_before = db.get_table_names();
    let r = db.get_table("ghost".to_string()).map(|_| ());
    assert!(matches!(r, Err(DbError::TableIsMissing(n)) if n == "ghost"));
    let r = db.get_table_mut("ghost".to_string()).map(|_| ());
    assert!(matches!(r, Err(DbError::TableIsMissing(n)) if n == "ghost"));
    let r = db.remove_table("ghost".to_string());
    assert!(matches!(r, Err(DbError::TableIsMissing(n)) if n == "ghost"));
    assert_eq!(db.get_table_names(), names_before);
}

#[test]
fn projection_wrong_mask_length() {
    let mut db = SavedDatabase::create("db".to_string(), "db".to_string());
    db.create_table("table".to_string(), vec![DbType::String, DbType::Time])
        .unwrap();
    let r = db.projection("table".to_string(), vec![true], "P2".to_string());
    assert!(matches!(r, Err(DbError::IncorrectRow)));
    assert!(matches!(
        db.get_table("P2".to_string()).map(|_| ()),
        Err(DbError::TableIsMissing(_))
    ));
}

/// One table "t" with schema [Int] and one row [Int(7)], as a blob.
fn small_blob() -> Vec<u8> {
    let mut db = SavedDatabase::create("db".to_string(), "db".to_string());
    db.create_table("t".to_string(), vec![DbType::Int]).unwrap();
    db.get_table_mut("t".to_string())
        .unwrap()
        .insert_row(Row(vec![DbValue::Int(7)]))
        .unwrap();
    db.save_bytes()
}

#[test]
fn corrupt_load_names_the_table() {
    let mut bytes = small_blob();
    // version + name ("db") + table count + table name ("t") + schema count,
    // then the one schema tag byte.
    let tag_at = 1 + (8 + 2 * 4) + 8 + (8 + 1 * 4) + 8;
    assert_eq!(bytes[tag_at], 0); // Int
    bytes[tag_at] = 1; // now claims Real; the stored row no longer fits
    let r = SavedDatabase::load_from_bytes("db".to_string(), &bytes).map(|_| ());
    assert!(matches!(r, Err(DbError::InvalidTableState(n)) if n == "t"));
}

#[test]
fn malformed_blobs_rejected() {
    let good = small_blob();

    let mut wrong_version = good.clone();
    wrong_version[0] = 9;
    let r = SavedDatabase::load_from_bytes("db".to_string(), &wrong_version).map(|_| ());
    assert!(matches!(r, Err(DbError::Serde)));

    let mut trailing = good.clone();
    trailing.push(0);
    let r = SavedDatabase::load_from_bytes("db".to_string(), &trailing).map(|_| ());
    assert!(matches!(r, Err(DbError::Serde)));

    let truncated = good[..good.len() - 1].to_vec();
    let r = SavedDatabase::load_from_bytes("db".to_string(), &truncated).map(|_| ());
    assert!(matches!(r, Err(DbError::Serde)));

    let r = SavedDatabase::load_from_bytes("db".to_string(), &[]).map(|_| ());
    assert!(matches!(r, Err(DbError::Serde)));

    // Two tables with the same stored name: structurally sound, but the
    // registry's uniqueness cannot be re-established.
    let mut duplicated = good.clone();
    let count_at = 1 + (8 + 2 * 4);
    assert_eq!(duplicated[count_at], 1);
    duplicated[count_at] = 2;
    let table_bytes = good[count_at + 8..].to_vec();
    duplicated.extend_from_slice(&table_bytes);
    let r = SavedDatabase::load_from_bytes("db".to_string(), &duplicated).map(|_| ());
    assert!(matches!(r, Err(DbError::Serde)));
}

#[test]
fn session_applies_operations_in_order() {
    let mut s = Session::new();
    assert!(s.get_name().is_none());
    assert!(s.get_table_names().is_none());
    assert!(s.save_bytes().is_none());
    assert!(s.create_table("t".to_string(), vec![DbType::Int]).is_none());

    s.install(SavedDatabase::create("db".to_string(), "p".to_string()));
    assert_eq!(s.get_name().unwrap(), "db");
    s.create_table("t".to_string(), vec![DbType::Int])
        .unwrap()
        .unwrap();
    s.insert_row("t".to_string(), Row(vec![DbValue::Int(1)]))
        .unwrap()
        .unwrap();
    s.insert_row("t".to_string(), Row(vec![DbValue::Int(2)]))
        .unwrap()
        .unwrap();
    s.remove_row("t".to_string(), 0).unwrap().unwrap();
    assert_eq!(s.get_table_schema("t".to_string()).unwrap(), vec![DbType::Int]);
    assert_eq!(
        s.get_rows("t".to_string()).unwrap(),
        vec![Row(vec![DbValue::Int(2)])]
    );
    assert!(s.get_rows("ghost".to_string()).is_none());
    let bytes = s.save_bytes().unwrap();

    // The same operations applied directly, one after another, persist to
    // the identical snapshot.
    let mut db = SavedDatabase::create("db".to_string(), "p".to_string());
    db.create_table("t".to_string(), vec![DbType::Int]).unwrap();
    let t = db.get_table_mut("t".to_string()).unwrap();
    t.insert_row(Row(vec![DbValue::Int(1)])).unwrap();
    t.insert_row(Row(vec![DbValue::Int(2)])).unwrap();
    t.remove_row(0);
    assert_eq!(db.save_bytes(), bytes);
}

#[test]
fn session_replaces_open_database() {
    let mut s = Session::new();
    s.install(SavedDatabase::create("first".to_string(), "a".to_string()));
    s.create_table("t".to_string(), vec![DbType::Int])
        .unwrap()
        .unwrap();
    // Installing another database discards the open one without a save.
    s.install(SavedDatabase::create("second".to_string(), "b".to_string()));
    assert_eq!(s.get_name().unwrap(), "second");
    assert!(s.get_table_names().unwrap().is_empty());
    // Projection through the session behaves like the database's own.
    s.create_table("src".to_string(), vec![DbType::Int, DbType::Char])
        .unwrap()
        .unwrap();
    s.insert_row(
        "src".to_string(),
        Row(vec![DbValue::Int(5), DbValue::Char('x')]),
    )
    .unwrap()
    .unwrap();
    s.table_projection("src".to_string(), vec![false, true], "just_chars".to_string())
        .unwrap()
        .unwrap();
    assert_eq!(
        s.get_rows("just_chars".to_string()).unwrap(),
        vec![Row(vec![DbValue::Char('x')])]
    );
}
