use crustdb_core::engine::{Engine, RowId, StoredRow, Table};
use crustdb_core::error::CrustDbError;
use crustdb_core::index::disk::{load_or_rebuild_all, load_or_rebuild_model, save_model, ModelIndexInput};
use crustdb_core::index::file::{lookup_index, lookup_step, LookupStep, PAGE_SIZE};
use crustdb_core::index::manifest::{is_clean, manifest_path, mark_clean, mark_dirty};
use crustdb_core::index::memory::TableIndexes;
use crustdb_core::names::NameMap;
use crustdb_core::schema::{DataType, FieldSchema, ModelSchema};
use crustdb_core::storage::manifest::load_or_create;
use crustdb_core::storage::record::Record;
use crustdb_core::storage::schema_file::load_schemas;
use crustdb_core::storage::table_file::{
    append_delete, append_insert, append_update, needs_magic, table_magic_bytes, table_path,
};
use crustdb_core::value::Value;
use std::collections::BTreeMap;

type Files = BTreeMap<String, Vec<u8>>;

/// A database over files kept in memory, driving the library the way the
/// program drives it over a directory.
struct Db {
    files: Files,
    engine: Engine,
}

fn file<'a>(files: &'a Files, path: &str) -> Option<&'a [u8]> {
    files.get(path).map(|b| b.as_slice())
}

fn index_files(files: &Files, model: &str, schema: &ModelSchema) -> Vec<Option<Vec<u8>>> {
    TableIndexes::indexed_field_names(schema)
        .iter()
        .map(|field| files.get(&format!("indexes/{model}/{field}.idx")).cloned())
        .collect()
}

impl std::fmt::Debug for Db {
    fn fmt(&self, f: &mut std::fmt::Formatter<'_>) -> std::fmt::Result {
        f.debug_struct("Db").field("files", &self.files.keys().collect::<Vec<_>>()).finish()
    }
}

fn open_table(files: &mut Files, schema: ModelSchema) -> Result<Table, CrustDbError> {
    let path = table_path(&schema.name);
    let (table, rewrite) = Table::open(schema, file(files, &path))?;
    if let Some(rewrite) = rewrite {
        files.insert(path, rewrite);
    }
    Ok(table)
}

impl Db {
    fn open(mut files: Files) -> Result<Db, CrustDbError> {
        if let Some(bytes) = load_or_create(file(&files, "manifest.crust"))? {
            files.insert("manifest.crust".to_string(), bytes);
        }
        let schemas = load_schemas(file(&files, "schema.crust"))?;
        let mut tables = Vec::new();
        for i in 0..schemas.len() {
            let schema = schemas.value_at(i).clone();
            tables.push(open_table(&mut files, schema)?);
        }
        let clean = is_clean(file(&files, &manifest_path()));
        let all_files: Vec<Vec<Option<Vec<u8>>>> =
            tables.iter().map(|t| index_files(&files, &t.schema().name, t.schema())).collect();
        let inputs: Vec<ModelIndexInput> = tables
            .iter()
            .zip(all_files.iter())
            .map(|(t, f)| ModelIndexInput { name: &t.schema().name, schema: t.schema(), files: f, rows: t.rows() })
            .collect();
        let (_, rebuilt) = load_or_rebuild_all(clean, &inputs)?;
        drop(inputs);
        if rebuilt {
            files.insert(manifest_path(), mark_dirty());
            for t in &tables {
                for (path, bytes) in save_model(&t.schema().name, t.schema(), t.indexes())? {
                    files.insert(path, bytes);
                }
            }
            files.insert(manifest_path(), mark_clean());
        }
        let mut engine = Engine::new();
        for t in tables {
            engine.add_table(t);
        }
        Ok(Db { files, engine })
    }

    fn rewrite_indexes(files: &mut Files, table: &Table) -> Result<(), CrustDbError> {
        files.insert(manifest_path(), mark_dirty());
        for (path, bytes) in save_model(&table.schema().name, table.schema(), table.indexes())? {
            files.insert(path, bytes);
        }
        files.insert(manifest_path(), mark_clean());
        Ok(())
    }

    fn register_schema(&mut self, schema: ModelSchema) -> Result<(), CrustDbError> {
        let is_new = self.engine.check_schema(&schema)?;
        let name = schema.name.clone();
        let clean = is_clean(file(&self.files, &manifest_path()));
        let files = index_files(&self.files, &name, &schema);
        if is_new {
            let bytes = self.engine.schema_file_with(&schema)?;
            self.files.insert("schema.crust".to_string(), bytes);
            let table = open_table(&mut self.files, schema)?;
            let (_, rebuilt) = load_or_rebuild_model(clean, &name, table.schema(), &files, table.rows())?;
            if rebuilt {
                Self::rewrite_indexes(&mut self.files, &table)?;
            }
            self.engine.add_table(table);
        } else {
            let table = self.engine.table(&name).unwrap();
            let (_, rebuilt) = load_or_rebuild_model(clean, &name, table.schema(), &files, table.rows())?;
            if rebuilt {
                Self::rewrite_indexes(&mut self.files, table)?;
            }
        }
        Ok(())
    }

    fn append(&mut self, model: &str, op: impl FnOnce(&mut Vec<u8>) -> Result<(), CrustDbError>) -> Result<(), CrustDbError> {
        let path = table_path(model);
        let mut log = if needs_magic(file(&self.files, &path))? {
            table_magic_bytes()
        } else {
            self.files.get(&path).cloned().unwrap()
        };
        op(&mut log)?;
        self.files.insert(path, log);
        Ok(())
    }

    fn save_indexes(&mut self, model: &str) -> Result<(), CrustDbError> {
        let table = self.engine.table(model).unwrap();
        for (path, bytes) in save_model(model, table.schema(), table.indexes())? {
            self.files.insert(path, bytes);
        }
        self.files.insert(manifest_path(), mark_clean());
        Ok(())
    }

    fn insert(&mut self, model: &str, values: Record) -> Result<Record, CrustDbError> {
        let row = self.engine.prepare_insert(model, &values)?;
        let row_id = self.engine.table(model).unwrap().next_row_id();
        self.files.insert(manifest_path(), mark_dirty());
        self.append(model, |log| append_insert(log, row_id, &row))?;
        self.engine.commit_insert(model, row.clone());
        self.save_indexes(model)?;
        Ok(row)
    }

    fn index_file(&self, model: &str, filters: &Record) -> Option<&[u8]> {
        self.engine.index_file_for(model, filters).and_then(|path| file(&self.files, &path))
    }

    /// The lookup a find makes in its index file, one page at a time.
    fn lookup_by_pages(&self, model: &str, filters: &Record) -> Option<Result<Option<RowId>, CrustDbError>> {
        let bytes = self.index_file(model, filters)?;
        let header = &bytes[..bytes.len().min(PAGE_SIZE)];
        let (mut walk, mut step) = match self.engine.start_index_lookup(model, filters, header, bytes.len() as u64) {
            Ok(started) => started,
            Err(e) => return Some(Err(e)),
        };
        loop {
            match step {
                LookupStep::Done(found) => return Some(Ok(found)),
                LookupStep::Read(id) => {
                    let at = (id as usize + 1) * PAGE_SIZE;
                    step = match lookup_step(&mut walk, &bytes[at..at + PAGE_SIZE]) {
                        Ok(next) => next,
                        Err(e) => return Some(Err(e)),
                    };
                }
            }
        }
    }

    fn find(&self, model: &str, filters: &Record) -> Result<Option<Record>, CrustDbError> {
        let by_pages = self.engine.find_given(model, filters, self.lookup_by_pages(model, filters));
        let whole = self.engine.find(model, filters, self.index_file(model, filters));
        match (&by_pages, &whole) {
            (Ok(a), Ok(b)) => assert_eq!(a, b),
            (Err(a), Err(b)) => assert_eq!(a.to_string(), b.to_string()),
            _ => panic!("a lookup page by page and a read of the whole file disagree"),
        }
        by_pages
    }

    fn delete(&mut self, model: &str, filters: &Record) -> Result<bool, CrustDbError> {
        let Some(pos) = self.engine.prepare_delete_given(model, filters, self.lookup_by_pages(model, filters))? else {
            return Ok(false);
        };
        let row_id = self.engine.table(model).unwrap().rows()[pos].row_id;
        self.files.insert(manifest_path(), mark_dirty());
        self.append(model, |log| append_delete(log, row_id))?;
        self.engine.commit_delete(model, pos);
        self.save_indexes(model)?;
        Ok(true)
    }

    fn update(&mut self, model: &str, filters: &Record, values: Record) -> Result<Option<Record>, CrustDbError> {
        let Some((pos, row)) = self.engine.prepare_update_given(model, filters, &values, self.lookup_by_pages(model, filters))? else {
            return Ok(None);
        };
        let row_id = self.engine.table(model).unwrap().rows()[pos].row_id;
        self.files.insert(manifest_path(), mark_dirty());
        self.append(model, |log| append_update(log, row_id, &row))?;
        self.engine.commit_update(model, pos, row.clone());
        self.save_indexes(model)?;
        Ok(Some(row))
    }

    fn lookup(&self, model: &str, field: &str, value: &Value) -> Option<RowId> {
        self.engine.table(model).unwrap().indexes().lookup(field, value)
    }
}

fn new_db() -> Db {
    Db::open(Files::new()).unwrap()
}

fn field(data_type: DataType, id: bool, unique: bool, range: Option<(i64, i64)>) -> FieldSchema {
    FieldSchema { data_type, id, unique, required: true, range, default: None }
}

fn user_schema() -> ModelSchema {
    let mut fields = NameMap::new();
    fields.insert("id".to_string(), field(DataType::Int, true, false, None));
    fields.insert("username".to_string(), field(DataType::String, false, true, None));
    fields.insert("age".to_string(), field(DataType::Int, false, false, Some((0, 120))));
    ModelSchema { name: "User".to_string(), fields }
}

fn rec(pairs: &[(&str, Value)]) -> Record {
    let mut r = NameMap::new();
    for (name, value) in pairs {
        r.insert(name.to_string(), value.clone());
    }
    r
}

fn user(id: i64, username: &str, age: i64) -> Record {
    rec(&[
        ("id", Value::Int(id)),
        ("username", Value::String(username.to_string())),
        ("age", Value::Int(age)),
    ])
}

fn by_id(id: i64) -> Record {
    rec(&[("id", Value::Int(id))])
}

#[test]
fn validates_insert_and_find() {
    let mut db = new_db();
    db.register_schema(user_schema()).unwrap();

    db.insert("User", user(1, "alice", 25)).unwrap();

    let row = db.find("User", &by_id(1)).unwrap().unwrap();

    assert_eq!(row.get("username"), Some(&Value::String("alice".to_string())));
}

#[test]
fn rejects_range_violation() {
    let mut db = new_db();
    db.register_schema(user_schema()).unwrap();

    let err = db.insert("User", user(1, "alice", 121)).unwrap_err();

    assert_eq!(err.to_string(), "age must be between 0 and 120");
}

#[test]
fn reloads_existing_rows_after_reopen() {
    let files = {
        let mut db = new_db();
        db.register_schema(user_schema()).unwrap();
        db.insert("User", user(1, "alice", 25)).unwrap();
        db.files
    };

    let mut reopened = Db::open(files).unwrap();
    reopened.register_schema(user_schema()).unwrap();
    let row = reopened.find("User", &by_id(1)).unwrap().unwrap();

    assert_eq!(row.get("age"), Some(&Value::Int(25)));
}

#[test]
fn rejects_incompatible_schema_on_register() {
    let mut db = new_db();
    db.register_schema(user_schema()).unwrap();

    let mut incompatible = user_schema();
    let mut age = incompatible.fields.get("age").unwrap().clone();
    age.data_type = DataType::String;
    incompatible.fields.insert("age".to_string(), age);

    let err = db.register_schema(incompatible).unwrap_err();

    assert!(err.to_string().contains("incompatible"));
}

#[test]
fn builds_indexes_for_registered_unique_fields() {
    let mut db = new_db();
    db.register_schema(user_schema()).unwrap();
    db.insert("User", user(1, "alice", 25)).unwrap();

    let indexes = db.engine.table("User").unwrap().indexes();

    assert!(indexes.indexes_field("id"));
    assert!(indexes.indexes_field("username"));
    assert!(!indexes.indexes_field("age"));
    assert_eq!(indexes.lookup("id", &Value::Int(1)), Some(1));
    assert_eq!(indexes.lookup("username", &Value::String("alice".to_string())), Some(1));
}

#[test]
fn rejects_duplicate_primary_key_through_index() {
    let mut db = new_db();
    db.register_schema(user_schema()).unwrap();
    db.insert("User", user(1, "alice", 25)).unwrap();

    let err = db.insert("User", user(1, "bob", 30)).unwrap_err();

    assert_eq!(err.to_string(), "Duplicate value for unique field: id");
}

#[test]
fn non_indexed_find_still_scans_rows() {
    let mut db = new_db();
    db.register_schema(user_schema()).unwrap();
    db.insert("User", user(1, "alice", 25)).unwrap();

    let row = db.find("User", &rec(&[("age", Value::Int(25))])).unwrap().unwrap();

    assert_eq!(row.get("username"), Some(&Value::String("alice".to_string())));
}

#[test]
fn indexes_rebuild_after_reopen() {
    let files = {
        let mut db = new_db();
        db.register_schema(user_schema()).unwrap();
        db.insert("User", user(1, "alice", 25)).unwrap();
        db.files
    };

    let reopened = Db::open(files).unwrap();

    assert_eq!(reopened.lookup("User", "id", &Value::Int(1)), Some(1));
    assert_eq!(reopened.lookup("User", "username", &Value::String("alice".to_string())), Some(1));
}

#[test]
fn disk_index_files_are_written_after_insert() {
    let mut db = new_db();
    db.register_schema(user_schema()).unwrap();
    db.insert("User", user(1, "alice", 25)).unwrap();

    assert!(db.files.contains_key("indexes/manifest.crustix"));
    assert!(db.files.contains_key("indexes/User/id.idx"));
    assert!(db.files.contains_key("indexes/User/username.idx"));
    assert!(!db.files.contains_key("indexes/User/age.idx"));
    let id_file = db.files.get("indexes/User/id.idx").unwrap();
    assert_eq!(lookup_index(Some(id_file), "User", "id", &Value::Int(1)).unwrap(), Some(1));
}

#[test]
fn duplicate_persisted_index_value_is_rejected_on_open() {
    let mut files = {
        let mut db = new_db();
        db.register_schema(user_schema()).unwrap();
        db.insert("User", user(1, "alice", 25)).unwrap();
        db.files
    };

    let log = files.get_mut("tables/User.tbl").unwrap();
    append_insert(log, 2, &user(1, "bob", 30)).unwrap();
    files.insert(manifest_path(), mark_dirty());

    let err = Db::open(files).unwrap_err();

    assert_eq!(err.to_string(), "Duplicate value for unique field: id");
}

#[test]
fn missing_index_file_rebuilds_from_table_log_on_open() {
    let mut files = {
        let mut db = new_db();
        db.register_schema(user_schema()).unwrap();
        db.insert("User", user(1, "alice", 25)).unwrap();
        db.files
    };

    files.remove("indexes/User/id.idx");

    let reopened = Db::open(files).unwrap();

    assert_eq!(reopened.lookup("User", "id", &Value::Int(1)), Some(1));
    assert!(reopened.files.contains_key("indexes/User/id.idx"));
}

#[test]
fn dirty_index_manifest_rebuilds_from_table_log_on_open() {
    let mut files = {
        let mut db = new_db();
        db.register_schema(user_schema()).unwrap();
        db.insert("User", user(1, "alice", 25)).unwrap();
        db.files
    };

    files.insert(manifest_path(), mark_dirty());
    let log = files.get_mut("tables/User.tbl").unwrap();
    append_update(log, 1, &user(1, "alice2", 26)).unwrap();

    let reopened = Db::open(files).unwrap();

    assert_eq!(reopened.lookup("User", "username", &Value::String("alice".to_string())), None);
    assert_eq!(reopened.lookup("User", "username", &Value::String("alice2".to_string())), Some(1));
}

#[test]
fn row_ids_continue_after_reopen() {
    let files = {
        let mut db = new_db();
        db.register_schema(user_schema()).unwrap();
        db.insert("User", user(1, "alice", 25)).unwrap();
        db.files
    };

    let mut reopened = Db::open(files).unwrap();
    reopened.register_schema(user_schema()).unwrap();
    reopened.insert("User", user(2, "bob", 30)).unwrap();

    assert_eq!(reopened.lookup("User", "id", &Value::Int(1)), Some(1));
    assert_eq!(reopened.lookup("User", "id", &Value::Int(2)), Some(2));
}

#[test]
fn delete_removes_row_from_find_and_indexes() {
    let mut db = new_db();
    db.register_schema(user_schema()).unwrap();
    db.insert("User", user(1, "alice", 25)).unwrap();

    let deleted = db.delete("User", &by_id(1)).unwrap();

    assert!(deleted);
    assert!(db.find("User", &by_id(1)).unwrap().is_none());
    assert_eq!(db.lookup("User", "id", &Value::Int(1)), None);
}

#[test]
fn deleted_unique_values_can_be_reused() {
    let mut db = new_db();
    db.register_schema(user_schema()).unwrap();
    db.insert("User", user(1, "alice", 25)).unwrap();
    db.delete("User", &by_id(1)).unwrap();

    db.insert("User", user(2, "alice", 30)).unwrap();

    let row = db.find("User", &by_id(2)).unwrap().unwrap();
    assert_eq!(row.get("username"), Some(&Value::String("alice".to_string())));
}

#[test]
fn delete_persists_after_reopen() {
    let files = {
        let mut db = new_db();
        db.register_schema(user_schema()).unwrap();
        db.insert("User", user(1, "alice", 25)).unwrap();
        db.delete("User", &by_id(1)).unwrap();
        db.files
    };

    let reopened = Db::open(files).unwrap();
    assert!(reopened.find("User", &by_id(1)).unwrap().is_none());
}

#[test]
fn update_changes_non_indexed_fields() {
    let mut db = new_db();
    db.register_schema(user_schema()).unwrap();
    db.insert("User", user(1, "alice", 25)).unwrap();

    let row = db.update("User", &by_id(1), rec(&[("age", Value::Int(26))])).unwrap().unwrap();

    assert_eq!(row.get("age"), Some(&Value::Int(26)));
}

#[test]
fn update_changes_indexed_fields() {
    let mut db = new_db();
    db.register_schema(user_schema()).unwrap();
    db.insert("User", user(1, "alice", 25)).unwrap();

    db.update("User", &by_id(1), rec(&[("username", Value::String("alice2".to_string()))])).unwrap();

    assert_eq!(db.lookup("User", "username", &Value::String("alice".to_string())), None);
    assert_eq!(db.lookup("User", "username", &Value::String("alice2".to_string())), Some(1));
}

#[test]
fn update_rejects_duplicate_unique_values() {
    let mut db = new_db();
    db.register_schema(user_schema()).unwrap();
    db.insert("User", user(1, "alice", 25)).unwrap();
    db.insert("User", user(2, "bob", 30)).unwrap();

    let err = db
        .update("User", &by_id(2), rec(&[("username", Value::String("alice".to_string()))]))
        .unwrap_err();

    assert_eq!(err.to_string(), "Duplicate value for unique field: username");
}

#[test]
fn update_allows_unchanged_unique_values_on_same_row() {
    let mut db = new_db();
    db.register_schema(user_schema()).unwrap();
    db.insert("User", user(1, "alice", 25)).unwrap();

    let row = db.update("User", &by_id(1), rec(&[("age", Value::Int(26))])).unwrap().unwrap();

    assert_eq!(row.get("username"), Some(&Value::String("alice".to_string())));
}

#[test]
fn update_persists_after_reopen() {
    let files = {
        let mut db = new_db();
        db.register_schema(user_schema()).unwrap();
        db.insert("User", user(1, "alice", 25)).unwrap();
        db.update("User", &by_id(1), rec(&[("age", Value::Int(26))])).unwrap();
        db.files
    };

    let reopened = Db::open(files).unwrap();
    let row = reopened.find("User", &by_id(1)).unwrap().unwrap();

    assert_eq!(row.get("age"), Some(&Value::Int(26)));
}

#[test]
fn find_and_update_refuse_bad_requests() {
    let mut db = new_db();
    db.register_schema(user_schema()).unwrap();
    let err = db.find("User", &rec(&[])).unwrap_err();
    assert_eq!(err.to_string(), "find requires at least one field filter");
    let err = db.find("User", &rec(&[("nope", Value::Null), ("zzz", Value::Null)])).unwrap_err();
    assert_eq!(err.to_string(), "Unknown field(s): nope, zzz");
    let err = db.find("Other", &by_id(1)).unwrap_err();
    assert_eq!(err.to_string(), "Unknown model: Other");
    let err = db.update("User", &by_id(1), rec(&[])).unwrap_err();
    assert_eq!(err.to_string(), "update requires at least one value");
    assert!(db.update("User", &by_id(1), rec(&[("age", Value::Int(3))])).unwrap().is_none());
    assert!(!db.delete("User", &by_id(1)).unwrap());
}

#[test]
fn insert_validation_messages() {
    let mut db = new_db();
    db.register_schema(user_schema()).unwrap();
    let err = db.insert("User", rec(&[("id", Value::Int(1)), ("age", Value::Int(3))])).unwrap_err();
    assert_eq!(err.to_string(), "Missing required field: username");
    let err = db
        .insert("User", rec(&[("id", Value::String("x".to_string())), ("username", Value::Null), ("age", Value::Int(3))]))
        .unwrap_err();
    assert_eq!(err.to_string(), "id must be Int, got String");
    let err = db.insert("User", rec(&[("extra", Value::Bool(true))])).unwrap_err();
    assert_eq!(err.to_string(), "Unknown field(s): extra");
}

#[test]
fn row_ids_count_from_one() {
    let mut db = new_db();
    db.register_schema(user_schema()).unwrap();
    db.insert("User", user(10, "a", 1)).unwrap();
    db.insert("User", user(20, "b", 2)).unwrap();
    let rows: Vec<&StoredRow> = db.engine.table("User").unwrap().rows().iter().collect();
    assert_eq!(rows.iter().map(|r| r.row_id).collect::<Vec<_>>(), vec![1, 2]);
}

#[test]
fn lookup_on_an_indexed_field_reads_its_index_file() {
    let mut db = new_db();
    db.register_schema(user_schema()).unwrap();
    db.insert("User", user(1, "alice", 30)).unwrap();
    assert_eq!(db.engine.index_file_for("User", &by_id(1)), Some("indexes/User/id.idx".to_string()));
    assert_eq!(db.engine.index_file_for("User", &rec(&[("age", Value::Int(30))])), None);
    assert_eq!(db.engine.index_file_for("User", &rec(&[("nope", Value::Int(30))])), None);
    assert_eq!(db.engine.index_file_for("Other", &by_id(1)), None);

    db.files.remove("indexes/User/id.idx");
    let err = db.find("User", &by_id(1)).unwrap_err();
    assert_eq!(err.to_string(), "Storage format error: missing index file: User.id");
    assert!(db.delete("User", &by_id(1)).is_err());

    db.files.insert("indexes/User/id.idx".to_string(), vec![0u8; 10]);
    assert!(matches!(db.find("User", &by_id(1)), Err(CrustDbError::StorageFormat(_))));
    assert!(db.update("User", &by_id(1), rec(&[("age", Value::Int(31))])).is_err());

    let row = db.find("User", &rec(&[("age", Value::Int(30))])).unwrap().unwrap();
    assert_eq!(row.get("username"), Some(&Value::String("alice".to_string())));
    let row = db.find("User", &rec(&[("username", Value::String("alice".to_string()))])).unwrap().unwrap();
    assert_eq!(row.get("id"), Some(&Value::Int(1)));
}

#[test]
fn registering_again_rebuilds_a_missing_index_file() {
    let mut db = new_db();
    db.register_schema(user_schema()).unwrap();
    db.insert("User", user(1, "alice", 30)).unwrap();
    db.files.remove("indexes/User/id.idx");
    db.register_schema(user_schema()).unwrap();
    assert!(db.files.contains_key("indexes/User/id.idx"));
    assert!(db.find("User", &by_id(1)).unwrap().is_some());
}

#[test]
fn a_registered_schema_loads_back_under_its_name() {
    let mut db = new_db();
    db.register_schema(user_schema()).unwrap();
    let schemas = load_schemas(db.files.get("schema.crust").map(|b| b.as_slice())).unwrap();
    assert_eq!(schemas.get("User"), Some(&user_schema()));
    assert_eq!(schemas.len(), 1);
}

#[test]
fn row_ids_are_not_reused_after_a_delete_and_reopen() {
    let mut db = new_db();
    db.register_schema(user_schema()).unwrap();
    db.insert("User", user(1, "a", 1)).unwrap();
    db.insert("User", user(2, "b", 2)).unwrap();
    assert!(db.delete("User", &by_id(2)).unwrap());
    let mut reopened = Db::open(db.files).unwrap();
    reopened.register_schema(user_schema()).unwrap();
    reopened.insert("User", user(3, "c", 3)).unwrap();
    let ids: Vec<RowId> = reopened.engine.table("User").unwrap().rows().iter().map(|r| r.row_id).collect();
    assert_eq!(ids, vec![1, 2, 3]);
}

#[test]
fn an_opened_table_indexes_its_rows_and_follows_its_largest_id() {
    let mut log = table_magic_bytes();
    append_insert(&mut log, 4, &user(1, "alice", 30)).unwrap();
    append_insert(&mut log, 9, &user(2, "bob", 31)).unwrap();
    append_delete(&mut log, 9).unwrap();
    let (table, rewrite) = Table::open(user_schema(), Some(&log)).unwrap();
    assert!(rewrite.is_none());
    assert_eq!(table.next_row_id(), 10);
    assert_eq!(table.rows().len(), 2);
    assert_eq!(table.indexes().lookup("id", &Value::Int(1)), Some(4));
    assert_eq!(table.indexes().lookup("username", &Value::String("alice".to_string())), Some(4));
    assert_eq!(table.indexes().lookup("id", &Value::Int(2)), None);
    assert_eq!(table.schema(), &user_schema());
}

#[test]
fn a_missing_table_file_opens_as_an_empty_table() {
    let (table, rewrite) = Table::open(user_schema(), None).unwrap();
    assert!(rewrite.is_none());
    assert_eq!(table.next_row_id(), 1);
    assert!(table.rows().is_empty());
    assert_eq!(table.indexes().lookup("id", &Value::Int(1)), None);
}

#[test]
fn a_log_holding_a_unique_value_twice_is_refused() {
    let mut log = table_magic_bytes();
    append_insert(&mut log, 1, &user(1, "alice", 30)).unwrap();
    append_insert(&mut log, 2, &user(2, "alice", 31)).unwrap();
    let err = Table::open(user_schema(), Some(&log)).err().unwrap();
    assert!(matches!(err, CrustDbError::UniqueConstraint(_)));
    assert_eq!(err.to_string(), "Duplicate value for unique field: username");
}

#[test]
fn a_table_of_the_old_format_opens_with_its_rewrite() {
    let mut bytes = Vec::new();
    for r in [user(1, "alice", 30), user(2, "bob", 31)] {
        let payload = crustdb_core::storage::record::encode_record(&r).unwrap();
        crustdb_core::storage::record::write_u32(&mut bytes, payload.len() as u32);
        bytes.extend_from_slice(&payload);
    }
    let (table, rewrite) = Table::open(user_schema(), Some(&bytes)).unwrap();
    let rewrite = rewrite.unwrap();
    assert_eq!(table.next_row_id(), 3);
    assert_eq!(table.indexes().lookup("username", &Value::String("bob".to_string())), Some(2));
    let (again, none) = Table::open(user_schema(), Some(&rewrite)).unwrap();
    assert!(none.is_none());
    assert_eq!(again.rows(), table.rows());
    assert_eq!(again.next_row_id(), 3);
}

#[test]
fn a_reopened_engine_answers_like_the_one_dropped() {
    let mut db = new_db();
    db.register_schema(user_schema()).unwrap();
    db.insert("User", user(1, "alice", 30)).unwrap();
    db.insert("User", user(2, "bob", 31)).unwrap();
    db.update("User", &by_id(1), rec(&[("username", Value::String("carol".to_string()))])).unwrap();
    assert!(db.delete("User", &by_id(2)).unwrap());
    let mut reopened = Db::open(db.files.clone()).unwrap();
    for filters in [by_id(1), by_id(2), rec(&[("username", Value::String("carol".to_string()))]), rec(&[("age", Value::Int(30))])] {
        assert_eq!(reopened.find("User", &filters).unwrap(), db.find("User", &filters).unwrap());
    }
    assert_eq!(reopened.engine.table("User").unwrap().rows(), db.engine.table("User").unwrap().rows());
    assert_eq!(reopened.engine.table("User").unwrap().next_row_id(), 3);
    reopened.register_schema(user_schema()).unwrap();
    let err = reopened.insert("User", user(3, "carol", 5)).unwrap_err();
    assert_eq!(err.to_string(), "Duplicate value for unique field: username");
}
