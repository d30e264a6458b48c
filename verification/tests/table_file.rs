use crustdb_core::names::NameMap;
use crustdb_core::storage::record::{encode_record, write_u32, Record};
use crustdb_core::storage::table_file::{
    append_delete, append_insert, append_update, load_rows, needs_magic, table_magic_bytes, table_path,
};
use crustdb_core::value::Value;

fn record(id: i64, username: &str) -> Record {
    let mut r = NameMap::new();
    r.insert("id".to_string(), Value::Int(id));
    r.insert("username".to_string(), Value::String(username.to_string()));
    r
}

#[test]
fn table_file_replays_insert_update_delete_operations() {
    let mut log = table_magic_bytes();

    append_insert(&mut log, 1, &record(1, "alice")).unwrap();
    append_update(&mut log, 1, &record(1, "alice2")).unwrap();
    append_insert(&mut log, 2, &record(2, "bob")).unwrap();
    append_delete(&mut log, 2).unwrap();

    let loaded = load_rows(Some(&log)).unwrap().load;

    assert_eq!(loaded.next_row_id, 3);
    assert_eq!(loaded.rows.len(), 2);
    assert_eq!(
        loaded.rows[0].record.get("username"),
        Some(&Value::String("alice2".to_string()))
    );
    assert!(!loaded.rows[0].deleted);
    assert!(loaded.rows[1].deleted);
}

#[test]
fn legacy_table_file_is_migrated_to_operation_log() {
    assert_eq!(table_path("User"), "tables/User.tbl");

    let payload = encode_record(&record(1, "alice")).unwrap();
    let mut bytes = Vec::new();
    write_u32(&mut bytes, payload.len() as u32);
    bytes.extend_from_slice(&payload);

    let loaded = load_rows(Some(&bytes)).unwrap();
    let migrated = loaded.rewrite.unwrap();

    assert_eq!(loaded.load.next_row_id, 2);
    assert_eq!(loaded.load.rows[0].row_id, 1);
    assert!(migrated.starts_with(b"CRUSTTB1"));
    let again = load_rows(Some(&migrated)).unwrap();
    assert!(again.rewrite.is_none());
    assert_eq!(again.load.rows, loaded.load.rows);
}

#[test]
fn corrupt_table_record_returns_storage_error() {
    let bytes = 99_u32.to_le_bytes().to_vec();

    let err = load_rows(Some(&bytes)).unwrap_err();

    assert!(err.to_string().contains("unexpected end of record"));
}

#[test]
fn missing_or_empty_table_file_has_no_rows() {
    for file in [None, Some(&[][..])] {
        let loaded = load_rows(file).unwrap();
        assert!(loaded.load.rows.is_empty());
        assert_eq!(loaded.load.next_row_id, 1);
        assert!(loaded.rewrite.is_none());
    }
}

#[test]
fn operations_on_unknown_or_deleted_rows_are_refused() {
    let mut log = table_magic_bytes();
    append_delete(&mut log, 4).unwrap();
    let err = load_rows(Some(&log)).unwrap_err();
    assert_eq!(err.to_string(), "Storage format error: operation references unknown row id: 4");

    let mut log = table_magic_bytes();
    append_insert(&mut log, 1, &record(1, "alice")).unwrap();
    append_delete(&mut log, 1).unwrap();
    append_update(&mut log, 1, &record(1, "again")).unwrap();
    let err = load_rows(Some(&log)).unwrap_err();
    assert_eq!(err.to_string(), "Storage format error: operation references deleted row id: 1");

    let mut log = table_magic_bytes();
    append_insert(&mut log, 1, &record(1, "alice")).unwrap();
    append_insert(&mut log, 1, &record(2, "bob")).unwrap();
    let err = load_rows(Some(&log)).unwrap_err();
    assert_eq!(err.to_string(), "Storage format error: duplicate row id in table file: 1");
}

#[test]
fn a_new_log_starts_with_its_magic() {
    assert!(needs_magic(None).unwrap());
    assert!(needs_magic(Some(&[])).unwrap());
    assert!(!needs_magic(Some(&table_magic_bytes())).unwrap());
    let err = needs_magic(Some(b"legacy bytes")).unwrap_err();
    assert_eq!(
        err.to_string(),
        "Storage format error: legacy table file must be loaded before appending operations"
    );
}

#[test]
fn table_read_errors_name_what_went_wrong() {
    let message = |b: &[u8]| load_rows(Some(b)).unwrap_err().to_string();
    let mut log = table_magic_bytes();
    log.extend_from_slice(&[9, 1, 0, 0, 0, 0, 0, 0, 0]);
    assert_eq!(message(&log), "Storage format error: unknown table operation: 9");
    let mut log = table_magic_bytes();
    log.extend_from_slice(&[2, 1, 0]);
    assert_eq!(message(&log), "Storage format error: unexpected end of record");
    let mut log = table_magic_bytes();
    log.extend_from_slice(&[1, 1, 0, 0, 0, 0, 0, 0, 0, 5, 0, 0, 0, 0, 0, 0, 0, 0]);
    assert_eq!(message(&log), "Storage format error: record has trailing bytes");
    let mut legacy = Vec::new();
    legacy.extend_from_slice(&[5, 0, 0, 0, 1, 0, 0, 0, 9]);
    assert_eq!(message(&legacy), "Storage format error: unexpected end of record");
}

#[test]
fn next_row_id_follows_the_largest_id_seen() {
    let mut log = table_magic_bytes();
    append_insert(&mut log, 41, &record(1, "alice")).unwrap();
    append_insert(&mut log, 7, &record(2, "bob")).unwrap();
    let loaded = load_rows(Some(&log)).unwrap().load;
    assert_eq!(loaded.next_row_id, 42);
}
