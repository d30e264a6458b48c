use crustdb_core::engine::{RowId, StoredRow};
use crustdb_core::index::memory::TableIndexes;
use crustdb_core::names::NameMap;
use crustdb_core::schema::{DataType, FieldSchema, ModelSchema};
use crustdb_core::storage::record::Record;
use crustdb_core::value::Value;

fn field(data_type: DataType, id: bool, unique: bool) -> FieldSchema {
    FieldSchema { data_type, id, unique, required: true, range: None, default: None }
}

fn schema() -> ModelSchema {
    let mut fields = NameMap::new();
    fields.insert("id".to_string(), field(DataType::Int, true, false));
    fields.insert("username".to_string(), field(DataType::String, false, true));
    fields.insert("age".to_string(), field(DataType::Int, false, false));
    ModelSchema { name: "User".to_string(), fields }
}

fn record(id: i64, username: &str, age: i64) -> Record {
    let mut r = NameMap::new();
    r.insert("id".to_string(), Value::Int(id));
    r.insert("username".to_string(), Value::String(username.to_string()));
    r.insert("age".to_string(), Value::Int(age));
    r
}

fn stored(row_id: RowId, record: Record) -> StoredRow {
    StoredRow { row_id, record, deleted: false }
}

#[test]
fn builds_indexes_for_id_and_unique_fields_only() {
    let schema = schema();
    let indexes = TableIndexes::build(&schema, &[stored(7, record(1, "alice", 25))]).unwrap();

    assert!(indexes.indexes_field("id"));
    assert!(indexes.indexes_field("username"));
    assert!(!indexes.indexes_field("age"));
    assert_eq!(indexes.lookup("id", &Value::Int(1)), Some(7));
    assert_eq!(
        indexes.lookup("username", &Value::String("alice".to_string())),
        Some(7)
    );
}

#[test]
fn rejects_duplicate_indexed_values_while_building() {
    let schema = schema();
    let err = TableIndexes::build(
        &schema,
        &[
            stored(7, record(1, "alice", 25)),
            stored(8, record(1, "bob", 30)),
        ],
    )
    .unwrap_err();

    assert_eq!(err.to_string(), "Duplicate value for unique field: id");
}

#[test]
fn ignores_same_row_id_when_checking_unique_values() {
    let schema = schema();
    let indexes = TableIndexes::build(&schema, &[stored(7, record(1, "alice", 25))]).unwrap();

    indexes
        .check_unique(&schema, &record(1, "alice", 26), Some(7))
        .unwrap();
}

#[test]
fn remove_deletes_indexed_values_for_that_row_only() {
    let schema = schema();
    let mut indexes =
        TableIndexes::build(&schema, &[stored(7, record(1, "alice", 25))]).unwrap();

    indexes.remove(&schema, 8, &record(1, "alice", 25));
    assert_eq!(indexes.lookup("id", &Value::Int(1)), Some(7));

    indexes.remove(&schema, 7, &record(1, "alice", 25));
    assert_eq!(indexes.lookup("id", &Value::Int(1)), None);
}

#[test]
fn builds_from_persisted_entries() {
    let schema = schema();
    let indexes = TableIndexes::from_entries(
        &schema,
        &[
            ("id".to_string(), vec![(Value::Int(1), 7)]),
            (
                "username".to_string(),
                vec![(Value::String("alice".to_string()), 7)],
            ),
        ],
    )
    .unwrap();

    assert_eq!(indexes.lookup("id", &Value::Int(1)), Some(7));
    assert_eq!(
        indexes.lookup("username", &Value::String("alice".to_string())),
        Some(7)
    );
}

#[test]
fn deleted_rows_are_left_out_of_built_indexes() {
    let schema = schema();
    let mut gone = stored(7, record(1, "alice", 25));
    gone.deleted = true;
    let indexes = TableIndexes::build(&schema, &[gone, stored(8, record(1, "alice", 30))]).unwrap();
    assert_eq!(indexes.lookup("id", &Value::Int(1)), Some(8));
}

#[test]
fn check_unique_names_the_first_conflicting_field() {
    let schema = schema();
    let indexes = TableIndexes::build(&schema, &[stored(7, record(1, "alice", 25))]).unwrap();
    let err = indexes.check_unique(&schema, &record(1, "alice", 26), Some(8)).unwrap_err();
    assert_eq!(err.to_string(), "Duplicate value for unique field: id");
    let err = indexes.check_unique(&schema, &record(2, "alice", 26), None).unwrap_err();
    assert_eq!(err.to_string(), "Duplicate value for unique field: username");
    indexes.check_unique(&schema, &record(2, "bob", 26), None).unwrap();
}

#[test]
fn persisted_entries_for_an_unknown_field_or_twice_the_same_value_are_refused() {
    let schema = schema();
    let err = TableIndexes::from_entries(&schema, &[("age".to_string(), vec![(Value::Int(25), 7)])]).unwrap_err();
    assert_eq!(err.to_string(), "Storage format error: unexpected persisted index field: age");
    let err = TableIndexes::from_entries(
        &schema,
        &[("id".to_string(), vec![(Value::Int(1), 7), (Value::Int(1), 8)])],
    )
    .unwrap_err();
    assert_eq!(err.to_string(), "Storage format error: duplicate key in persisted index: id");
}

#[test]
fn insert_then_entries_for_field_lists_the_value() {
    let schema = schema();
    let mut indexes = TableIndexes::for_schema(&schema);
    indexes.insert(&schema, 3, &record(5, "carol", 40));
    assert_eq!(indexes.entries_for_field("id"), vec![(Value::Int(5), 3)]);
    assert_eq!(indexes.entries_for_field("age"), vec![]);
    let names = TableIndexes::indexed_field_names(&schema);
    assert_eq!(names, vec!["id".to_string(), "username".to_string()]);
}
