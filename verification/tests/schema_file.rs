use crustdb_core::names::NameMap;
use crustdb_core::schema::{DataType, FieldSchema, ModelSchema};
use crustdb_core::storage::schema_file::{load_schemas, save_schemas};
use crustdb_core::value::Value;

fn user_schema() -> ModelSchema {
    let mut fields = NameMap::new();
    fields.insert(
        "id".to_string(),
        FieldSchema {
            data_type: DataType::Int,
            id: true,
            unique: false,
            required: true,
            range: None,
            default: None,
        },
    );
    fields.insert(
        "name".to_string(),
        FieldSchema {
            data_type: DataType::String,
            id: false,
            unique: true,
            required: true,
            range: None,
            default: Some(Value::String("untitled".to_string())),
        },
    );
    ModelSchema { name: "User".to_string(), fields }
}

#[test]
fn schema_file_save_load_roundtrip() {
    let schema = user_schema();

    let file = save_schemas(&[&schema]).unwrap();
    let loaded = load_schemas(Some(&file)).unwrap();

    assert_eq!(loaded.len(), 1);
    assert_eq!(loaded.get("User"), Some(&schema));
}

#[test]
fn missing_schema_file_holds_no_model() {
    assert_eq!(load_schemas(None).unwrap().len(), 0);
}

#[test]
fn schema_file_with_ranges_and_several_models() {
    let mut other_fields = NameMap::new();
    other_fields.insert(
        "age".to_string(),
        FieldSchema {
            data_type: DataType::Int,
            id: false,
            unique: false,
            required: false,
            range: Some((-3, 120)),
            default: Some(Value::Int(18)),
        },
    );
    let other = ModelSchema { name: "Account".to_string(), fields: other_fields };
    let user = user_schema();
    let file = save_schemas(&[&other, &user]).unwrap();
    assert_eq!(&file[..8], b"CRUSTSC1");
    let loaded = load_schemas(Some(&file)).unwrap();
    assert_eq!(loaded.len(), 2);
    assert_eq!(loaded.get("Account"), Some(&other));
    assert_eq!(loaded.get("User"), Some(&user));
    // Models are written in name order, whatever order they are given in.
    assert_eq!(save_schemas(&[&user, &other]).unwrap(), file);
    assert_eq!(&file[12..14], &[7, 0]);
    assert_eq!(&file[14..21], b"Account");
}

#[test]
fn damaged_schema_files_are_refused() {
    let file = save_schemas(&[&user_schema()]).unwrap();
    let err = load_schemas(Some(&file[..file.len() - 1])).unwrap_err();
    assert!(err.to_string().starts_with("Storage format error: "));
    let mut extra = file.clone();
    extra.push(0);
    let err = load_schemas(Some(&extra)).unwrap_err();
    assert_eq!(err.to_string(), "Storage format error: schema file has trailing bytes");
    let err = load_schemas(Some(b"NOTASCHEMA")).unwrap_err();
    assert_eq!(err.to_string(), "Storage format error: invalid schema file magic");
    let err = load_schemas(Some(&file[..file.len() - 1])).unwrap_err();
    assert_eq!(err.to_string(), "Storage format error: unexpected end of record");
}

#[test]
fn schema_read_errors_name_the_bad_byte() {
    // magic, one model "M" with one field "a"
    let head = |rest: &[u8]| {
        let mut b = b"CRUSTSC1".to_vec();
        b.extend_from_slice(&[1, 0, 0, 0, 1, 0, b'M', 1, 0, 0, 0, 1, 0, b'a']);
        b.extend_from_slice(rest);
        b
    };
    let message = |b: Vec<u8>| load_schemas(Some(&b)).unwrap_err().to_string();
    assert_eq!(message(head(&[7])), "Storage format error: unknown schema field type: 7");
    assert_eq!(message(head(&[1, 2])), "Storage format error: invalid id bool: 2");
    assert_eq!(message(head(&[1, 0, 5])), "Storage format error: invalid unique bool: 5");
    assert_eq!(message(head(&[1, 0, 0, 5])), "Storage format error: invalid required bool: 5");
    assert_eq!(message(head(&[1, 0, 0, 0, 5])), "Storage format error: invalid range marker bool: 5");
    assert_eq!(message(head(&[1, 0, 0, 0, 0, 5])), "Storage format error: invalid default marker bool: 5");
    assert_eq!(message(head(&[1, 0, 0, 0, 0, 1, 9])), "Storage format error: unknown value tag: 9");
    assert_eq!(message(head(&[1, 0, 0, 0, 1, 0])), "Storage format error: unexpected end of record");
}

#[test]
fn a_model_name_too_long_cannot_be_saved() {
    let mut schema = user_schema();
    schema.name = "m".repeat(70_000);
    let err = save_schemas(&[&schema]).unwrap_err();
    assert_eq!(err.to_string(), "Storage format error: string length is too large for this storage format");
}
