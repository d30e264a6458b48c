use crate::error::{join, CrustDbError, Result};
use crate::index::file::{
    index_file_of, index_path, lemma_lookup_after_save, lookup_index, lookup_spec, missing_index, missing_index_message, row_of,
    start_lookup, values_distinct, header_spec, lookup_error, lookup_from, walk_error, IndexWalk, LookupStep, PAGE_SIZE,
};
use crate::index::key::enc_key;
use crate::index::memory::{after_insert, after_remove, duplicate_message, first_conflict, FieldsModel, IndexModel, RowMap, TableIndexes};
use crate::names::{as_map, has_name, lemma_as_map_update, lemma_index_of, lemma_sorted_distinct, lemma_sorted_unique, lemma_sorted_update, names_sorted, value_of, NameMap};
use crate::order::name_lt;
use crate::schema::{DataType, FieldModel, FieldSchema, ModelModel, ModelSchema};
use crate::storage::record::{enc_record, record_fits, Record, RecordModel};
use crate::storage::table_file::{
    enc_op, id_position, lemma_load_next_id, lemma_replay_after_delete, lemma_replay_after_insert, lemma_replay_after_update,
    lemma_loaded_ids_distinct, lemma_replay_spec_max, load_rows, load_rows_error, load_spec, inserts_of, max_id, max_with,
    op_fits, record_of_map, replay_spec, rows_fit, rows_match, starts_with, table_magic, LogRow, OP_DELETE, OP_INSERT, OP_UPDATE,
};
use crate::storage::schema_file::{
    decode_schemas_spec, enc_schemas, in_name_order, lemma_saved_schemas_load, model_fits, model_holds, ref_models, save_schemas,
    save_schemas_error,
};
use crate::text::{comma_list, decimal, int_text, join_comma};
use crate::value::{kind_name_of, Duplicate, Value, ValueModel};
use vstd::prelude::*;

verus! {

/// The stable identity of a row within its table.
pub type RowId = u64;

/// A row as the engine keeps it: deleted rows stay, marked.
#[derive(Clone, Debug, PartialEq, Eq)]
pub struct StoredRow {
    pub row_id: RowId,
    pub record: Record,
    pub deleted: bool,
}

pub struct StoredRowModel {
    pub row_id: RowId,
    pub record: RecordModel,
    pub deleted: bool,
}

impl View for StoredRow {
    type V = StoredRowModel;

    open spec fn view(&self) -> StoredRowModel {
        StoredRowModel { row_id: self.row_id, record: self.record@, deleted: self.deleted }
    }
}

impl Duplicate for StoredRow {
    fn duplicate(&self) -> (r: StoredRow) {
        StoredRow { row_id: self.row_id, record: self.record.duplicate(), deleted: self.deleted }
    }
}


// ---------------------------------------------------------------------------
// Validation of values against a schema.
// ---------------------------------------------------------------------------

pub open spec fn missing_message(name: Seq<char>) -> Seq<char> {
    "Missing required field: "@ + name
}

pub open spec fn range_message(name: Seq<char>, lo: i64, hi: i64) -> Seq<char> {
    name + " must be between "@ + decimal(lo as int) + " and "@ + decimal(hi as int)
}

pub open spec fn type_message(name: Seq<char>, expected: Seq<char>, v: ValueModel) -> Seq<char> {
    name + " must be "@ + expected + ", got "@ + kind_name_of(v)
}

/// Why `v` is not a valid value of the field, if it is not.
pub open spec fn value_error(name: Seq<char>, field: FieldModel, v: ValueModel) -> Option<Seq<char>> {
    match v {
        ValueModel::Null => if field.required { Some(missing_message(name)) } else { None },
        ValueModel::Int(x) => match field.data_type {
            DataType::Int => match field.range {
                Some((lo, hi)) => if x < lo || x > hi { Some(range_message(name, lo, hi)) } else { None },
                None => None,
            },
            DataType::String => Some(type_message(name, "String"@, v)),
        },
        ValueModel::Str(_) => match field.data_type {
            DataType::Int => Some(type_message(name, "Int"@, v)),
            DataType::String => None,
        },
        ValueModel::Bool(_) => match field.data_type {
            DataType::Int => Some(type_message(name, "Int"@, v)),
            DataType::String => Some(type_message(name, "String"@, v)),
        },
    }
}

/// The stored value of one field: the given value, else the default, else `Null`
/// when the field is optional; or why there is none.
pub open spec fn field_result(name: Seq<char>, field: FieldModel, values: RowMap) -> core::result::Result<ValueModel, Seq<char>> {
    let chosen = if values.contains_key(name) {
        Some(values[name])
    } else {
        match field.default {
            Some(d) => Some(d),
            None => if field.required { None } else { Some(ValueModel::Null) },
        }
    };
    match chosen {
        None => Err(missing_message(name)),
        Some(v) => match value_error(name, field, v) {
            Some(m) => Err(m),
            None => Ok(v),
        },
    }
}

/// The first `n` fields of the stored row, or the first refusal.
pub open spec fn normalize_upto(fields: FieldsModel, values: RowMap, n: int) -> core::result::Result<RecordModel, Seq<char>>
    decreases n,
{
    if n <= 0 {
        Ok(Seq::empty())
    } else {
        match normalize_upto(fields, values, n - 1) {
            Ok(r) => match field_result(fields[n - 1].0, fields[n - 1].1, values) {
                Ok(v) => Ok(r.push((fields[n - 1].0, v))),
                Err(m) => Err(m),
            },
            Err(m) => Err(m),
        }
    }
}

/// The row stored for the given values: every field of the schema, in name order.
pub open spec fn normalize_spec(fields: FieldsModel, values: RowMap) -> core::result::Result<RecordModel, Seq<char>> {
    normalize_upto(fields, values, fields.len() as int)
}

/// The names, among `names`, that are no field of the schema, in order.
pub open spec fn unknown_of(names: Seq<Seq<char>>, fields: FieldsModel) -> Seq<Seq<char>>
    decreases names.len(),
{
    if names.len() == 0 {
        Seq::empty()
    } else if has_name(fields, names.last()) {
        unknown_of(names.drop_last(), fields)
    } else {
        unknown_of(names.drop_last(), fields).push(names.last())
    }
}

pub open spec fn names_of(r: RecordModel) -> Seq<Seq<char>> {
    r.map_values(|e: (Seq<char>, ValueModel)| e.0)
}

pub open spec fn unknown_message(unknown: Seq<Seq<char>>) -> Seq<char> {
    "Unknown field(s): "@ + comma_list(unknown)
}

/// Refuses a value that the field does not accept.
pub fn validate_value(field_name: &str, field: &FieldSchema, value: &Value) -> (r: Result<()>)
    ensures
        match value_error(field_name@, field@, value@) {
            None => r is Ok,
            Some(m) => r matches Err(CrustDbError::Validation(x)) && x@ == m,
        },
{
    match value {
        Value::Null => {
            if field.required {
                return Err(CrustDbError::Validation(join("Missing required field: ", field_name)));
            }
            Ok(())
        },
        Value::Int(x) => match field.data_type {
            DataType::Int => match field.range {
                Some((lo, hi)) => {
                    if *x < lo || *x > hi {
                        let a = join(field_name, " must be between ");
                        let lo_text = int_text(lo);
                        let b = join(a.as_str(), lo_text.as_str());
                        let c = join(b.as_str(), " and ");
                        let hi_text = int_text(hi);
                        let d = join(c.as_str(), hi_text.as_str());
                        Err(CrustDbError::Validation(d))
                    } else {
                        Ok(())
                    }
                },
                None => Ok(()),
            },
            DataType::String => Err(CrustDbError::Validation(type_text(field_name, "String", value))),
        },
        Value::String(_) => match field.data_type {
            DataType::Int => Err(CrustDbError::Validation(type_text(field_name, "Int", value))),
            DataType::String => Ok(()),
        },
        Value::Bool(_) => match field.data_type {
            DataType::Int => Err(CrustDbError::Validation(type_text(field_name, "Int", value))),
            DataType::String => Err(CrustDbError::Validation(type_text(field_name, "String", value))),
        },
    }
}

fn type_text(field_name: &str, expected: &str, value: &Value) -> (r: String)
    ensures
        r@ == type_message(field_name@, expected@, value@),
{
    let a = join(field_name, " must be ");
    let b = join(a.as_str(), expected);
    let c = join(b.as_str(), ", got ");
    join(c.as_str(), value.kind_name())
}

/// The names of `record` that are no field of the schema, in order.
pub fn unknown_fields(record: &Record, schema: &ModelSchema) -> (r: Vec<String>)
    requires
        schema.wf(),
    ensures
        r@.map_values(|s: String| s@) == unknown_of(names_of(record@), schema@.fields),
{
    let ghost names = names_of(record@);
    let mut out: Vec<String> = Vec::new();
    let mut i: usize = 0;
    assert(names.take(0) =~= Seq::<Seq<char>>::empty());
    while i < record.len()
        invariant
            schema.wf(),
            names == names_of(record@),
            i <= names.len(),
            out@.map_values(|s: String| s@) == unknown_of(names.take(i as int), schema@.fields),
        decreases names.len() - i,
    {
        assert(names.take(i + 1).drop_last() =~= names.take(i as int));
        let name = record.name_at(i);
        let (_, known) = schema.fields.position(name.as_str());
        if !known {
            out.push(name.clone());
            assert(out@.map_values(|s: String| s@) =~= unknown_of(names.take(i as int), schema@.fields).push(names[i as int]));
        }
        i = i + 1;
    }
    assert(names.take(i as int) =~= names);
    out
}

/// The stored row for `values`: each field of the schema with its given value,
/// its default, or `Null`; refused when a field is missing or holds a wrong value.
pub fn normalize_row(schema: &ModelSchema, values: &Record) -> (r: Result<Record>)
    requires
        schema.wf(),
        values.wf(),
    ensures
        match normalize_spec(schema@.fields, values.map()) {
            Ok(row) => r is Ok && r.unwrap().wf() && r.unwrap()@ == row,
            Err(m) => r matches Err(CrustDbError::Validation(x)) && x@ == m,
        },
{
    let ghost fields = schema@.fields;
    let ghost vm = values.map();
    let mut row: Record = NameMap::new();
    let mut i: usize = 0;
    while i < schema.fields.len()
        invariant
            schema.wf(),
            values.wf(),
            fields == schema@.fields,
            vm == values.map(),
            i <= fields.len(),
            row.wf(),
            normalize_upto(fields, vm, i as int) == Ok::<RecordModel, Seq<char>>(row@),
            row@.len() == i,
            forall|j: int| 0 <= j < i ==> (#[trigger] row@[j]).0 == fields[j].0,
        decreases fields.len() - i,
    {
        let field_name = schema.fields.name_at(i);
        let field = schema.fields.value_at(i);
        let value = match values.get(field_name.as_str()) {
            Some(value) => value.duplicate(),
            None => match &field.default {
                Some(d) => d.duplicate(),
                None => {
                    if field.required {
                        proof { lemma_normalize_err(fields, vm, i as int + 1); }
                        return Err(CrustDbError::Validation(join("Missing required field: ", field_name.as_str())));
                    }
                    Value::Null
                },
            },
        };
        let checked = validate_value(field_name.as_str(), field, &value);
        if checked.is_err() {
            proof { lemma_normalize_err(fields, vm, i as int + 1); }
            return Err(checked.unwrap_err());
        }
        proof {
            assert forall|j: int| 0 <= j < row@.len() implies name_lt(#[trigger] row@[j].0, field_name@) by {
                assert(name_lt(fields[j].0, fields[i as int].0));
            }
        }
        row.push(field_name.clone(), value);
        i = i + 1;
    }
    Ok(row)
}

proof fn lemma_normalize_err(fields: FieldsModel, values: RowMap, k: int)
    requires
        0 <= k <= fields.len(),
        normalize_upto(fields, values, k) is Err,
    ensures
        normalize_spec(fields, values) == normalize_upto(fields, values, k),
    decreases fields.len() - k,
{
    if k < fields.len() {
        lemma_normalize_err(fields, values, k + 1);
    }
}


// ---------------------------------------------------------------------------
// Finding rows.
// ---------------------------------------------------------------------------

/// The record holds every filtered field with the filtered value.
pub open spec fn matches_filters(record: RecordModel, filters: RecordModel) -> bool {
    forall|i: int| 0 <= i < filters.len() ==> as_map(record).contains_key(#[trigger] filters[i].0)
        && as_map(record)[filters[i].0] == filters[i].1
}

/// The position of the first live row, from `i` on, that matches the filters.
pub open spec fn first_match(rows: Seq<StoredRowModel>, filters: RecordModel, i: int) -> Option<int>
    decreases rows.len() - i,
{
    if i < 0 || i >= rows.len() {
        None
    } else if !rows[i].deleted && matches_filters(rows[i].record, filters) {
        Some(i)
    } else {
        first_match(rows, filters, i + 1)
    }
}

/// The position of the first live row, from `i` on, with the given id.
pub open spec fn live_position(rows: Seq<StoredRowModel>, id: RowId, i: int) -> Option<int>
    decreases rows.len() - i,
{
    if i < 0 || i >= rows.len() {
        None
    } else if rows[i].row_id == id && !rows[i].deleted {
        Some(i)
    } else {
        live_position(rows, id, i + 1)
    }
}

/// Why a write is refused.
pub enum Refusal {
    Validation(Seq<char>),
    Unique(Seq<char>),
}

/// The result `r` is the error that the refusal names.
pub open spec fn refused<T>(r: Result<T>, e: Refusal) -> bool {
    match e {
        Refusal::Validation(m) => r matches Err(CrustDbError::Validation(x)) && x@ == m,
        Refusal::Unique(m) => r matches Err(CrustDbError::UniqueConstraint(x)) && x@ == m,
    }
}

/// The row id after `id`, saturating at the largest.
pub open spec fn next_after(id: RowId) -> RowId {
    if id == u64::MAX { u64::MAX } else { (id + 1) as u64 }
}

/// A position read as an integer.
pub open spec fn as_int(p: Option<usize>) -> Option<int> {
    match p {
        Some(x) => Some(x as int),
        None => None,
    }
}

/// A table as the engine holds it: schema, rows, indexes and the next row id,
/// with the operations its file holds. A table is made only by `open` and
/// changed only by the `commit_*` methods, so every table keeps `wf`.
pub struct Table {
    schema: ModelSchema,
    rows: Vec<StoredRow>,
    indexes: TableIndexes,
    next_row_id: RowId,
    log: Ghost<Seq<u8>>,
}

/// The content of a table.
pub struct TableModel {
    pub schema: ModelModel,
    pub rows: Seq<StoredRowModel>,
    pub indexes: IndexModel,
    pub next_row_id: RowId,
    /// The operations that the table's file holds after its magic: those it was
    /// opened with, then one for each insert, update and delete since, as the
    /// `append_*` functions encode them.
    pub log: Seq<u8>,
}

impl View for Table {
    type V = TableModel;

    closed spec fn view(&self) -> TableModel {
        TableModel {
            schema: self.schema@,
            rows: self.rows@.map_values(|r: StoredRow| r@),
            indexes: self.indexes@,
            next_row_id: self.next_row_id,
            log: self.log@,
        }
    }
}

/// The row id a find settles on: by the index for one filter on an indexed
/// field, kept only when that row is live; else the id of the first live row
/// that matches, scanning in order. Or why the filters are refused.
pub open spec fn find_spec(t: TableModel, filters: RecordModel) -> core::result::Result<Option<RowId>, Seq<char>> {
    if filters.len() == 0 {
        Err("find"@ + " requires at least one field filter"@)
    } else if unknown_of(names_of(filters), t.schema.fields).len() > 0 {
        Err(unknown_message(unknown_of(names_of(filters), t.schema.fields)))
    } else if filters.len() == 1 && t.indexes.contains_key(filters[0].0) {
        let idx = t.indexes[filters[0].0];
        if idx.contains_key(filters[0].1) && live_position(t.rows, idx[filters[0].1], 0) is Some {
            Ok(Some(idx[filters[0].1]))
        } else {
            Ok(None)
        }
    } else {
        match first_match(t.rows, filters, 0) {
            Some(i) => Ok(Some(t.rows[i].row_id)),
            None => Ok(None),
        }
    }
}

/// A find goes through the index file of the field: one filter, on an indexed
/// field, and nothing in the filters to refuse.
pub open spec fn uses_index_file(t: TableModel, filters: RecordModel) -> bool {
    &&& filters.len() == 1
    &&& unknown_of(names_of(filters), t.schema.fields).len() == 0
    &&& t.indexes.contains_key(filters[0].0)
}

/// Why a find fails.
pub enum FindFailure {
    /// The filters are refused, with this message.
    Refused(Seq<char>),
    /// The index file to read is missing, with this message.
    MissingFile(Seq<char>),
    /// The index file does not read as the index of the field.
    BadFile,
    /// Reading the index file page by page failed with this error.
    Unreadable(CrustDbError),
}

/// The bytes of a file that may be missing.
pub open spec fn file_view(file: Option<&[u8]>) -> Option<Seq<u8>> {
    match file {
        Some(b) => Some(b@),
        None => None,
    }
}

/// The row id a find settles on when the lookup on an indexed field reads the
/// field's index file (`None` when it is missing): the id found there, kept
/// only when that row is live. Every other find goes as `find_spec` says.
pub open spec fn find_in_file_spec(t: TableModel, filters: RecordModel, file: Option<Seq<u8>>) -> core::result::Result<Option<RowId>, FindFailure> {
    if uses_index_file(t, filters) {
        match file {
            None => Err(FindFailure::MissingFile(missing_index_message(t.schema.name, filters[0].0))),
            Some(f) => match lookup_spec(f, t.schema.name, filters[0].0, enc_key(filters[0].1)) {
                None => Err(FindFailure::BadFile),
                Some(None) => Ok(None),
                Some(Some(id)) => if live_position(t.rows, id, 0) is Some {
                    Ok(Some(id))
                } else {
                    Ok(None)
                },
            },
        }
    } else {
        match find_spec(t, filters) {
            Ok(found) => Ok(found),
            Err(m) => Err(FindFailure::Refused(m)),
        }
    }
}

/// The row id a find settles on when the lookup on an indexed field was made
/// page by page in the field's index file, `looked` being what it gave: `None`
/// when the file is missing, else the row id found there (none when the value is
/// not there) or the error reading it failed with; the id found is kept only
/// when that row is live. Every other find goes as `find_spec` says.
pub open spec fn find_given_spec(
    t: TableModel,
    filters: RecordModel,
    looked: Option<Result<Option<RowId>>>,
) -> core::result::Result<Option<RowId>, FindFailure> {
    if uses_index_file(t, filters) {
        match looked {
            None => Err(FindFailure::MissingFile(missing_index_message(t.schema.name, filters[0].0))),
            Some(Err(e)) => Err(FindFailure::Unreadable(e)),
            Some(Ok(None)) => Ok(None),
            Some(Ok(Some(id))) => if live_position(t.rows, id, 0) is Some {
                Ok(Some(id))
            } else {
                Ok(None)
            },
        }
    } else {
        match find_spec(t, filters) {
            Ok(found) => Ok(found),
            Err(m) => Err(FindFailure::Refused(m)),
        }
    }
}

/// A lookup made page by page that gave what the index file gives read whole
/// settles a find as reading the whole file does; where the file does not read,
/// both fail with a storage format error.
pub proof fn lemma_given_matches_file(t: TableModel, filters: RecordModel, file: Option<Seq<u8>>, looked: Option<Result<Option<RowId>>>)
    requires
        uses_index_file(t, filters) ==> match file {
            None => looked is None,
            Some(f) => looked matches Some(x) && match lookup_spec(f, t.schema.name, filters[0].0, enc_key(filters[0].1)) {
                Some(found) => x == Ok::<Option<RowId>, CrustDbError>(found),
                None => x matches Err(CrustDbError::StorageFormat(_)),
            },
        },
    ensures
        match find_in_file_spec(t, filters, file) {
            Err(FindFailure::BadFile) => find_given_spec(t, filters, looked) matches Err(
                FindFailure::Unreadable(CrustDbError::StorageFormat(_)),
            ),
            other => find_given_spec(t, filters, looked) == other,
        },
{
}

/// The result `r` is the error that the failure names.
pub open spec fn failed_as<T>(r: Result<T>, e: FindFailure) -> bool {
    match e {
        FindFailure::Refused(m) => r matches Err(CrustDbError::Validation(x)) && x@ == m,
        FindFailure::MissingFile(m) => r matches Err(CrustDbError::StorageFormat(x)) && x@ == m,
        FindFailure::BadFile => r matches Err(CrustDbError::StorageFormat(_)),
        FindFailure::Unreadable(e) => r matches Err(x) && x == e,
    }
}

/// A find that reads an index file saved from the field's index settles as
/// the find by the index itself.
pub proof fn lemma_find_in_saved_file(t: TableModel, filters: RecordModel, file: Seq<u8>, entries: Seq<(ValueModel, RowId)>)
    requires
        uses_index_file(t, filters) ==> index_file_of(file, t.schema.name, filters[0].0, entries)
            && as_map(entries) == t.indexes[filters[0].0],
    ensures
        find_in_file_spec(t, filters, Some(file)) == match find_spec(t, filters) {
            Ok(found) => Ok::<Option<RowId>, FindFailure>(found),
            Err(m) => Err(FindFailure::Refused(m)),
        },
{
    if uses_index_file(t, filters) {
        let f = filters[0].0;
        let v = filters[0].1;
        lemma_lookup_after_save(file, t.schema.name, f, entries, v);
        lemma_row_of_map(entries, v);
    }
}

/// Read from entries with distinct values, `row_of` is the map they make.
proof fn lemma_row_of_map(entries: Seq<(ValueModel, RowId)>, v: ValueModel)
    requires
        values_distinct(entries),
    ensures
        row_of(entries, v) == (if as_map(entries).contains_key(v) { Some(as_map(entries)[v]) } else { None }),
{
    if exists|i: int| 0 <= i < entries.len() && (#[trigger] entries[i]).0 == v {
        let i = choose|i: int| 0 <= i < entries.len() && (#[trigger] entries[i]).0 == v;
        assert(crate::names::keys_distinct(entries)) by {
            assert forall|a: int, b: int| 0 <= a < b < entries.len() implies #[trigger] entries[a].0 != #[trigger] entries[b].0 by {
                assert(entries[a].0 != entries[b].0);
            }
        }
        lemma_index_of(entries, i);
    } else {
        assert(!has_name(entries, v));
    }
}

/// A live row is found by its id.
proof fn lemma_live_position_found(rows: Seq<StoredRowModel>, i: int, k: int)
    requires
        0 <= k <= i < rows.len(),
        !rows[i].deleted,
    ensures
        live_position(rows, rows[i].row_id, k) is Some,
    decreases i - k,
{
    if k < i && !(rows[k].row_id == rows[i].row_id && !rows[k].deleted) {
        lemma_live_position_found(rows, i, k + 1);
    }
}

/// The first live row from `k` on matches the filters.
proof fn lemma_first_match_live(rows: Seq<StoredRowModel>, filters: RecordModel, k: int)
    requires
        0 <= k,
        first_match(rows, filters, k) is Some,
    ensures
        0 <= first_match(rows, filters, k).unwrap() < rows.len(),
        !rows[first_match(rows, filters, k).unwrap()].deleted,
    decreases rows.len() - k,
{
    if k < rows.len() && !(!rows[k].deleted && matches_filters(rows[k].record, filters)) {
        lemma_first_match_live(rows, filters, k + 1);
    }
}

/// Where a live row id sits.
proof fn lemma_live_position_range(rows: Seq<StoredRowModel>, id: RowId, k: int)
    requires
        0 <= k,
        live_position(rows, id, k) is Some,
    ensures
        0 <= live_position(rows, id, k).unwrap() < rows.len(),
        rows[live_position(rows, id, k).unwrap()].row_id == id,
        !rows[live_position(rows, id, k).unwrap()].deleted,
    decreases rows.len() - k,
{
    if k < rows.len() && !(rows[k].row_id == id && !rows[k].deleted) {
        lemma_live_position_range(rows, id, k + 1);
    }
}

pub open spec fn new_row(id: RowId, record: RecordModel) -> StoredRowModel {
    StoredRowModel { row_id: id, record, deleted: false }
}

/// The table after `row` is stored under its next row id.
pub open spec fn table_after_insert(t: TableModel, row: RecordModel) -> TableModel {
    TableModel {
        schema: t.schema,
        rows: t.rows.push(new_row(t.next_row_id, row)),
        indexes: after_insert(t.indexes, t.schema.fields, as_map(row), t.next_row_id),
        next_row_id: next_after(t.next_row_id),
        log: t.log + enc_op(OP_INSERT, t.next_row_id, Some(row)),
    }
}

/// The table after the row at `p` takes the content `row`.
pub open spec fn table_after_update(t: TableModel, p: int, row: RecordModel) -> TableModel {
    let old_row = t.rows[p];
    TableModel {
        schema: t.schema,
        rows: t.rows.update(p, StoredRowModel { row_id: old_row.row_id, record: row, deleted: old_row.deleted }),
        indexes: after_insert(
            after_remove(t.indexes, t.schema.fields, as_map(old_row.record), old_row.row_id),
            t.schema.fields,
            as_map(row),
            old_row.row_id,
        ),
        next_row_id: t.next_row_id,
        log: t.log + enc_op(OP_UPDATE, old_row.row_id, Some(row)),
    }
}

/// The table after the row at `p` is marked deleted.
pub open spec fn table_after_delete(t: TableModel, p: int) -> TableModel {
    let old_row = t.rows[p];
    TableModel {
        schema: t.schema,
        rows: t.rows.update(p, StoredRowModel { row_id: old_row.row_id, record: old_row.record, deleted: true }),
        indexes: after_remove(t.indexes, t.schema.fields, as_map(old_row.record), old_row.row_id),
        next_row_id: t.next_row_id,
        log: t.log + enc_op(OP_DELETE, old_row.row_id, None),
    }
}

/// The row an insert stores for `values`, or why it refuses them.
pub open spec fn insert_spec(t: TableModel, values: RecordModel) -> core::result::Result<RecordModel, Refusal> {
    let unknown = unknown_of(names_of(values), t.schema.fields);
    if unknown.len() > 0 {
        Err(Refusal::Validation(unknown_message(unknown)))
    } else {
        match normalize_spec(t.schema.fields, as_map(values)) {
            Err(m) => Err(Refusal::Validation(m)),
            Ok(row) => match first_conflict(t.indexes, t.schema.fields, as_map(row), None, 0) {
                Some(f) => Err(Refusal::Unique(duplicate_message(f))),
                None => Ok(row),
            },
        }
    }
}

/// The position and new content of the row an update changes, `None` when no
/// live row matches, or why it refuses.
pub open spec fn update_spec(t: TableModel, filters: RecordModel, values: RecordModel) -> core::result::Result<Option<(int, RecordModel)>, Refusal> {
    match find_spec(t, filters) {
        Err(m) => Err(Refusal::Validation(m)),
        Ok(None) => Ok(None),
        Ok(Some(id)) => {
            let p = live_position(t.rows, id, 0).unwrap();
            match update_at_spec(t, p, values) {
                Ok(row) => Ok(Some((p, row))),
                Err(e) => Err(e),
            }
        },
    }
}

/// The new content an update gives the row at position `p`, or why it refuses.
pub open spec fn update_at_spec(t: TableModel, p: int, values: RecordModel) -> core::result::Result<RecordModel, Refusal> {
    let unknown = unknown_of(names_of(values), t.schema.fields);
    if unknown.len() > 0 {
        Err(Refusal::Validation(unknown_message(unknown)))
    } else {
        let merged = as_map(t.rows[p].record).union_prefer_right(as_map(values));
        match normalize_spec(t.schema.fields, merged) {
            Err(m) => Err(Refusal::Validation(m)),
            Ok(row) => match first_conflict(t.indexes, t.schema.fields, as_map(row), Some(t.rows[p].row_id), 0) {
                Some(f) => Err(Refusal::Unique(duplicate_message(f))),
                None => Ok(row),
            },
        }
    }
}

/// An insert operation for each row, in order.
pub open spec fn insert_ops(rows: Seq<StoredRowModel>) -> Seq<u8>
    decreases rows.len(),
{
    if rows.len() == 0 {
        Seq::empty()
    } else {
        insert_ops(rows.drop_last()) + enc_op(OP_INSERT, rows.last().row_id, Some(rows.last().record))
    }
}

proof fn lemma_insert_ops(rows: Seq<StoredRow>)
    ensures
        inserts_of(rows) == insert_ops(rows.map_values(|r: StoredRow| r@)),
    decreases rows.len(),
{
    if rows.len() > 0 {
        lemma_insert_ops(rows.drop_last());
        assert(rows.drop_last().map_values(|r: StoredRow| r@) =~= rows.map_values(|r: StoredRow| r@).drop_last());
    }
}

/// The log rows that a table's rows read back as.
pub open spec fn log_rows(rows: Seq<StoredRowModel>) -> Seq<LogRow> {
    rows.map_values(|r: StoredRowModel| LogRow { row_id: r.row_id, record: as_map(r.record), deleted: r.deleted })
}

/// The operations a table file holds after its magic once it is opened: none for
/// a missing or empty file, what follows the magic, or, for a file of the old
/// format, an insert for each of its rows, as its rewrite holds them.
pub open spec fn opened_ops(file: Option<Seq<u8>>, rows: Seq<StoredRowModel>) -> Seq<u8> {
    match file {
        None => Seq::empty(),
        Some(b) => if b.len() == 0 {
            Seq::empty()
        } else if starts_with(b, table_magic()) {
            b.skip(8)
        } else {
            insert_ops(rows)
        },
    }
}

/// An insert for each of some live rows with distinct ids replays to those rows.
proof fn lemma_replay_insert_ops(rows: Seq<StoredRowModel>)
    requires
        forall|i: int| 0 <= i < rows.len() ==> names_sorted(#[trigger] rows[i].record) && op_fits(rows[i].record)
            && !rows[i].deleted,
        forall|i: int, j: int| 0 <= i < j < rows.len() ==> (#[trigger] rows[i]).row_id != (#[trigger] rows[j]).row_id,
    ensures
        replay_spec(insert_ops(rows)) == Some((log_rows(rows), max_row_id(rows))),
    decreases rows.len(),
{
    if rows.len() == 0 {
        assert(log_rows(rows) =~= Seq::<LogRow>::empty());
        assert(replay_spec(Seq::empty()) == Some((Seq::<LogRow>::empty(), 0u64)));
    } else {
        let init = rows.drop_last();
        let last = rows.last();
        assert forall|i: int| 0 <= i < init.len() implies names_sorted(#[trigger] init[i].record) && op_fits(init[i].record)
            && !init[i].deleted by {
            assert(init[i] == rows[i]);
        }
        assert forall|i: int, j: int| 0 <= i < j < init.len() implies (#[trigger] init[i]).row_id != (#[trigger] init[j]).row_id by {
            assert(init[i] == rows[i] && init[j] == rows[j]);
        }
        lemma_replay_insert_ops(init);
        assert(last == rows[rows.len() - 1]);
        assert forall|i: int| 0 <= i < log_rows(init).len() implies (#[trigger] log_rows(init)[i]).row_id != last.row_id by {
            assert(init[i] == rows[i]);
        }
        lemma_id_absent(log_rows(init), last.row_id, 0);
        lemma_replay_after_insert(insert_ops(init), last.row_id, last.record);
        assert(log_rows(init).push(LogRow { row_id: last.row_id, record: as_map(last.record), deleted: false }) =~= log_rows(rows));
    }
}

/// A table opened from a file, whose rows have distinct ids, is held by the
/// operations the file holds after its magic once opened.
proof fn lemma_opened_log_holds(file: Option<Seq<u8>>, t: TableModel)
    requires
        opened_from(t, t.schema, file),
        next_id_holds(t),
        forall|i: int, j: int| 0 <= i < j < t.rows.len() ==> (#[trigger] t.rows[i]).row_id != (#[trigger] t.rows[j]).row_id,
        load_spec(file).unwrap().2 ==> rows_fit(load_spec(file).unwrap().0),
        load_spec(file).unwrap().2 ==> forall|i: int| 0 <= i < load_spec(file).unwrap().0.len()
            ==> !(#[trigger] load_spec(file).unwrap().0[i]).deleted,
    ensures
        log_holds(opened_ops(file, t.rows), t),
{
    let log = load_spec(file).unwrap().0;
    match file {
        None => {
            assert(replay_spec(Seq::empty()) == Some((Seq::<LogRow>::empty(), 0u64)));
        },
        Some(b) => if b.len() == 0 {
            assert(replay_spec(Seq::empty()) == Some((Seq::<LogRow>::empty(), 0u64)));
        } else if starts_with(b, table_magic()) {
        } else {
            assert forall|i: int| 0 <= i < t.rows.len() implies names_sorted(#[trigger] t.rows[i].record)
                && op_fits(t.rows[i].record) && !t.rows[i].deleted by {
                assert(record_of_map(t.rows[i].record, log[i].record));
            }
            lemma_replay_insert_ops(t.rows);
        },
    }
}

/// The rows hold the log rows and keep their fields in name order.
pub open spec fn rows_of_log(rows: Seq<StoredRowModel>, log: Seq<LogRow>) -> bool {
    &&& rows_hold_log(rows, log)
    &&& forall|i: int| 0 <= i < rows.len() ==> names_sorted(#[trigger] rows[i].record)
}

/// The table that a table file holds under `schema`: the rows it loads to, in
/// order, its next row id, and the indexes that building them from the rows gives.
pub open spec fn opened_from(t: TableModel, schema: ModelModel, file: Option<Seq<u8>>) -> bool {
    &&& load_spec(file) is Some
    &&& t.schema == schema
    &&& rows_of_log(t.rows, load_spec(file).unwrap().0)
    &&& t.next_row_id == load_spec(file).unwrap().1
    &&& crate::index::memory::build_spec(schema.fields, t.rows) == Ok::<IndexModel, Seq<char>>(t.indexes)
}

proof fn lemma_take_push_map(s: RecordModel, i: int)
    requires
        names_sorted(s),
        0 <= i < s.len(),
    ensures
        as_map(s.take(i + 1)) == as_map(s.take(i)).insert(s[i].0, s[i].1),
{
    let t = s.take(i);
    assert(s.take(i + 1) =~= t.push((s[i].0, s[i].1)));
    lemma_sorted_distinct(s);
    assert(crate::names::keys_distinct(t)) by {
        assert forall|a: int, b: int| 0 <= a < b < t.len() implies #[trigger] t[a].0 != #[trigger] t[b].0 by {
            assert(t[a] == s[a] && t[b] == s[b]);
        }
    }
    assert(!has_name(t, s[i].0)) by {
        if has_name(t, s[i].0) {
            let j = choose|j: int| 0 <= j < t.len() && #[trigger] t[j].0 == s[i].0;
            assert(t[j] == s[j]);
            assert(s[j].0 != s[i].0);
        }
    }
    crate::names::lemma_as_map_push(t, s[i].0, s[i].1);
}

impl Table {
    /// The table is well formed: its schema, indexes and records are, and it
    /// holds what every table holds (`table_inv`).
    pub closed spec fn wf(&self) -> bool {
        &&& self.schema.wf()
        &&& self.indexes.wf()
        &&& forall|i: int| 0 <= i < self.rows@.len() ==> (#[trigger] self.rows@[i]).record.wf()
        &&& table_inv(self@)
        &&& max_row_id(self@.rows) < u64::MAX ==> log_holds(self@.log, self@)
    }

    /// A table opened from the bytes of its table file (`None` when there is
    /// none): the rows the file loads to, its next row id, and indexes built
    /// from the rows; with the bytes to store in the file's place when it was of
    /// the old format. Refused when the file does not load, or when two live
    /// rows hold the same value in an id or unique field.
    #[verifier::spinoff_prover]
    pub fn open(schema: ModelSchema, file: Option<&[u8]>) -> (r: Result<(Table, Option<Vec<u8>>)>)
        requires
            schema.wf(),
        ensures
            r matches Ok((t, w)) ==> t.wf() && opened_from(t@, schema@, file_view(file))
                && t@.log == opened_ops(file_view(file), t@.rows)
                && (w is Some == load_spec(file_view(file)).unwrap().2)
                && (w is Some ==> w.unwrap()@ == table_magic() + insert_ops(t@.rows)),
            load_spec(file_view(file)) is None ==> r is Err,
            load_spec(file_view(file)) matches Some((log, _, migrated)) && (!migrated || rows_fit(log))
                && (forall|rows: Seq<StoredRowModel>| rows_of_log(rows, log)
                    ==> (#[trigger] crate::index::memory::build_spec(schema@.fields, rows)) is Ok) ==> r is Ok,
            r matches Err(e) ==> (e is StorageFormat || e is UniqueConstraint),
            r matches Err(CrustDbError::StorageFormat(m)) ==> load_rows_error(file_view(file), m@),
            r matches Err(CrustDbError::UniqueConstraint(m)) ==> load_spec(file_view(file)) is Some && exists|rows: Seq<StoredRowModel>|
                rows_of_log(rows, load_spec(file_view(file)).unwrap().0)
                && (#[trigger] crate::index::memory::build_spec(schema@.fields, rows)) is Err
                && m@ == duplicate_message(crate::index::memory::build_spec(schema@.fields, rows)->Err_0),
    {
        let ghost fv = file_view(file);
        proof {
            assert(fv == match file { Some(b) => Some(b@), None => None });
        }
        let loaded = load_rows(file)?;
        let rows = loaded.load.rows;
        let next_row_id = loaded.load.next_row_id;
        let ghost log = load_spec(fv).unwrap().0;
        let ghost models = rows@.map_values(|x: StoredRow| x@);
        proof {
            assert forall|i: int| 0 <= i < models.len() implies names_sorted(#[trigger] models[i].record)
                && models[i].row_id == log[i].row_id && models[i].deleted == log[i].deleted
                && as_map(models[i].record) == log[i].record by {
                assert(rows@[i].record.wf());
            }
            assert(rows_of_log(models, log));
            assert(crate::index::memory::row_models(rows@) == models);
        }
        let indexes = TableIndexes::build(&schema, rows.as_slice())?;
        let count: usize = rows.len();
        let ghost ops = opened_ops(fv, models);
        let t = Table { schema, rows, indexes, next_row_id, log: Ghost(ops) };
        proof {
            assert(t@.rows == models);
            lemma_loaded_next_id(fv, t.rows@, next_row_id);
            if max_row_id(models) < u64::MAX {
                lemma_max_row_id_bound(models);
                assert(log.len() == count);
                lemma_loaded_ids_distinct(fv);
                assert forall|i: int, j: int| 0 <= i < j < models.len() implies (#[trigger] models[i]).row_id
                    != (#[trigger] models[j]).row_id by {
                    assert(log[i].row_id != log[j].row_id);
                }
                lemma_build_consistent(t@.schema, models, next_row_id, ops);
                lemma_opened_log_holds(fv, t@);
            }
            if loaded.rewrite is Some {
                lemma_insert_ops(t.rows@);
            }
        }
        Ok((t, loaded.rewrite))
    }

    /// Every well-formed table holds `table_inv`: its next row id follows the
    /// largest id it holds and, while ids are not exhausted, its indexes agree
    /// with its rows.
    pub proof fn lemma_inv(&self)
        requires
            self.wf(),
        ensures
            table_inv(self@),
            max_row_id(self@.rows) < u64::MAX ==> table_consistent(self@) && log_holds(self@.log, self@),
            forall|i: int| 0 <= i < self@.rows.len() ==> names_sorted(#[trigger] self@.rows[i].record),
    {
        assert forall|i: int| 0 <= i < self@.rows.len() implies names_sorted(#[trigger] self@.rows[i].record) by {
            assert(self.rows@[i].record.wf());
        }
    }

    /// The schema of the table.
    pub fn schema(&self) -> (r: &ModelSchema)
        requires
            self.wf(),
        ensures
            r.wf(),
            r@ == self@.schema,
    {
        &self.schema
    }

    /// The rows of the table, live and deleted, in the order they were stored.
    pub fn rows(&self) -> (r: &Vec<StoredRow>)
        requires
            self.wf(),
        ensures
            r@.map_values(|x: StoredRow| x@) == self@.rows,
            forall|i: int| 0 <= i < r@.len() ==> (#[trigger] r@[i]).record.wf(),
    {
        &self.rows
    }

    /// The indexes of the table's id and unique fields.
    pub fn indexes(&self) -> (r: &TableIndexes)
        requires
            self.wf(),
        ensures
            r.wf(),
            r@ == self@.indexes,
    {
        &self.indexes
    }

    /// The id the next stored row gets.
    pub fn next_row_id(&self) -> (r: RowId)
        ensures
            r == self@.next_row_id,
    {
        self.next_row_id
    }

    /// Whether the record holds every filtered field with the filtered value.
    fn record_matches(record: &Record, filters: &Record) -> (r: bool)
        requires
            record.wf(),
            filters.wf(),
        ensures
            r == matches_filters(record@, filters@),
    {
        let mut i: usize = 0;
        while i < filters.len()
            invariant
                record.wf(),
                filters.wf(),
                i <= filters@.len(),
                forall|j: int| 0 <= j < i ==> as_map(record@).contains_key(#[trigger] filters@[j].0)
                    && as_map(record@)[filters@[j].0] == filters@[j].1,
            decreases filters@.len() - i,
        {
            let name = filters.name_at(i);
            match record.get(name.as_str()) {
                Some(v) => {
                    if !v.same(filters.value_at(i)) {
                        return false;
                    }
                },
                None => {
                    return false;
                },
            }
            i = i + 1;
        }
        true
    }

    /// The position of the first live row with id `row_id`.
    pub fn live_row_position(&self, row_id: RowId) -> (r: Option<usize>)
        ensures
            as_int(r) == live_position(self@.rows, row_id, 0),
            r is Some ==> r.unwrap() < self@.rows.len(),
    {
        let mut i: usize = 0;
        while i < self.rows.len()
            invariant
                i <= self.rows@.len(),
                live_position(self@.rows, row_id, 0) == live_position(self@.rows, row_id, i as int),
            decreases self.rows@.len() - i,
        {
            if self.rows[i].row_id == row_id && !self.rows[i].deleted {
                return Some(i);
            }
            i = i + 1;
        }
        None
    }

    /// The row id a find settles on, with the position of the first live row
    /// with that id. A lookup on an indexed field reads `file`, the bytes of
    /// the field's index file (`None` when it is missing); other finds do not
    /// read it.
    pub fn find_row(&self, filters: &Record, file: Option<&[u8]>) -> (r: Result<Option<(RowId, usize)>>)
        requires
            self.wf(),
            filters.wf(),
        ensures
            match find_in_file_spec(self@, filters@, file_view(file)) {
                Ok(None) => r matches Ok(None),
                Ok(Some(id)) => r matches Ok(Some((x, p))) && x == id && live_position(self@.rows, id, 0) == Some(p as int),
                Err(e) => failed_as(r, e),
            },
            r matches Ok(Some((x, p))) ==> p < self@.rows.len() && self@.rows[p as int].row_id == x
                && !self@.rows[p as int].deleted,
    {
        let looked = if self.uses_index(filters) {
            match file {
                None => None,
                Some(b) => Some(lookup_index(Some(b), self.schema.name.as_str(), filters.name_at(0).as_str(), filters.value_at(0))),
            }
        } else {
            None
        };
        self.find_row_given(filters, looked)
    }

    /// Whether a find with these filters looks its value up in the index file
    /// of the one filtered field.
    pub fn uses_index(&self, filters: &Record) -> (r: bool)
        requires
            self.wf(),
            filters.wf(),
        ensures
            r == uses_index_file(self@, filters@),
    {
        if filters.len() != 1 {
            return false;
        }
        let unknown = unknown_fields(filters, &self.schema);
        if unknown.len() > 0 {
            return false;
        }
        let name = filters.name_at(0);
        self.indexes.indexes_field(name.as_str())
    }

    /// The row id a find settles on, with the position of the first live row
    /// with that id, when a lookup on an indexed field gave `looked` (see
    /// `find_given_spec`); other finds do not use it.
    pub fn find_row_given(&self, filters: &Record, looked: Option<Result<Option<RowId>>>) -> (r: Result<Option<(RowId, usize)>>)
        requires
            self.wf(),
            filters.wf(),
        ensures
            match find_given_spec(self@, filters@, looked) {
                Ok(None) => r matches Ok(None),
                Ok(Some(id)) => r matches Ok(Some((x, p))) && x == id && live_position(self@.rows, id, 0) == Some(p as int),
                Err(e) => failed_as(r, e),
            },
            r matches Ok(Some((x, p))) ==> p < self@.rows.len() && self@.rows[p as int].row_id == x
                && !self@.rows[p as int].deleted,
    {
        if filters.len() == 0 {
            return Err(CrustDbError::Validation(join("find", " requires at least one field filter")));
        }
        let unknown = unknown_fields(filters, &self.schema);
        if unknown.len() > 0 {
            let list = join_comma(&unknown);
            return Err(CrustDbError::Validation(join("Unknown field(s): ", list.as_str())));
        }
        if filters.len() == 1 {
            let name = filters.name_at(0);
            if self.indexes.indexes_field(name.as_str()) {
                let found = match looked {
                    None => {
                        return Err(missing_index(self.schema.name.as_str(), name.as_str()));
                    },
                    Some(Err(e)) => {
                        return Err(e);
                    },
                    Some(Ok(found)) => found,
                };
                return match found {
                    Some(row_id) => match self.live_row_position(row_id) {
                        Some(p) => {
                            proof { lemma_live_position_range(self@.rows, row_id, 0); }
                            Ok(Some((row_id, p)))
                        },
                        None => Ok(None),
                    },
                    None => Ok(None),
                };
            }
        }
        assert(!uses_index_file(self@, filters@));
        let ghost scan = first_match(self@.rows, filters@, 0);
        assert(find_spec(self@, filters@) == match scan {
            Some(i) => Ok::<Option<RowId>, Seq<char>>(Some(self@.rows[i].row_id)),
            None => Ok::<Option<RowId>, Seq<char>>(None),
        });
        let mut i: usize = 0;
        while i < self.rows.len()
            invariant
                self.wf(),
                filters.wf(),
                i <= self.rows@.len(),
                scan == first_match(self@.rows, filters@, 0),
                !uses_index_file(self@, filters@),
                find_spec(self@, filters@) == match scan {
                    Some(i) => Ok::<Option<RowId>, Seq<char>>(Some(self@.rows[i].row_id)),
                    None => Ok::<Option<RowId>, Seq<char>>(None),
                },
                first_match(self@.rows, filters@, 0) == first_match(self@.rows, filters@, i as int),
            decreases self.rows@.len() - i,
        {
            let row = &self.rows[i];
            if !row.deleted && Self::record_matches(&row.record, filters) {
                let row_id = row.row_id;
                proof { lemma_live_position_found(self@.rows, i as int, 0); }
                let p = self.live_row_position(row_id);
                proof { lemma_live_position_range(self@.rows, row_id, 0); }
                return Ok(Some((row_id, p.unwrap())));
            }
            i = i + 1;
        }
        Ok(None)
    }

    /// The row an insert would store for `values`, or why it is refused.
    pub fn prepare_insert(&self, values: &Record) -> (r: Result<Record>)
        requires
            self.wf(),
            values.wf(),
        ensures
            match insert_spec(self@, values@) {
                Ok(row) => r is Ok && r.unwrap().wf() && r.unwrap()@ == row,
                Err(e) => refused(r, e),
            },
    {
        let unknown = unknown_fields(values, &self.schema);
        if unknown.len() > 0 {
            let list = join_comma(&unknown);
            return Err(CrustDbError::Validation(join("Unknown field(s): ", list.as_str())));
        }
        let row = normalize_row(&self.schema, values)?;
        self.indexes.check_unique(&self.schema, &row, None)?;
        Ok(row)
    }

    /// Stores `row` as a new live row under the next row id, and indexes it.
    pub fn commit_insert(&mut self, row: Record) -> (r: RowId)
        requires
            old(self).wf(),
            row.wf(),
            first_conflict(old(self)@.indexes, old(self)@.schema.fields, as_map(row@), None, 0) is None,
            op_fits(row@),
        ensures
            final(self).wf(),
            r == old(self)@.next_row_id,
            final(self)@ == table_after_insert(old(self)@, row@),
    {
        proof {
            lemma_insert_keeps_inv(self@, row@);
            lemma_max_row_id_push(self@.rows, new_row(self@.next_row_id, row@));
            if max_row_id(table_after_insert(self@, row@).rows) < u64::MAX {
                lemma_log_after_insert(self.log@, self@, row@);
            }
        }
        let row_id = self.next_row_id;
        self.indexes.insert(&self.schema, row_id, &row);
        let ghost rv = row@;
        self.rows.push(StoredRow { row_id, record: row, deleted: false });
        self.next_row_id = if row_id == u64::MAX { u64::MAX } else { row_id + 1 };
        self.log = Ghost(self.log@ + enc_op(OP_INSERT, row_id, Some(rv)));
        assert(self@.rows =~= old(self)@.rows.push(new_row(row_id, rv)));
        row_id
    }

    /// The new content an update gives the row at `pos`, or why it is refused.
    pub fn prepare_update_at(&self, pos: usize, values: &Record) -> (r: Result<Record>)
        requires
            self.wf(),
            values.wf(),
            pos < self@.rows.len(),
        ensures
            match update_at_spec(self@, pos as int, values@) {
                Ok(row) => r is Ok && r.unwrap().wf() && r.unwrap()@ == row,
                Err(e) => refused(r, e),
            },
    {
        let unknown = unknown_fields(values, &self.schema);
        if unknown.len() > 0 {
            let list = join_comma(&unknown);
            return Err(CrustDbError::Validation(join("Unknown field(s): ", list.as_str())));
        }
        let existing = &self.rows[pos].record;
        let mut merged = existing.duplicate();
        let mut i: usize = 0;
        while i < values.len()
            invariant
                self.wf(),
                values.wf(),
                merged.wf(),
                pos < self@.rows.len(),
                existing@ == self@.rows[pos as int].record,
                unknown_of(names_of(values@), self@.schema.fields).len() == 0,
                i <= values@.len(),
                merged.map() == as_map(existing@).union_prefer_right(as_map(values@.take(i as int))),
            decreases values@.len() - i,
        {
            proof { lemma_take_push_map(values@, i as int); }
            merged.insert(values.name_at(i).clone(), values.value_at(i).duplicate());
            assert(merged.map() =~= as_map(existing@).union_prefer_right(as_map(values@.take(i + 1))));
            i = i + 1;
        }
        assert(values@.take(i as int) =~= values@);
        assert(existing@ == self@.rows[pos as int].record);
        assert(merged.map() == as_map(self@.rows[pos as int].record).union_prefer_right(as_map(values@)));
        assert(unknown_of(names_of(values@), self@.schema.fields).len() == 0);
        let row = normalize_row(&self.schema, &merged)?;
        let row_id = self.rows[pos].row_id;
        self.indexes.check_unique(&self.schema, &row, Some(row_id))?;
        Ok(row)
    }

    /// Replaces the content of the row at `pos` and moves its index entries.
    pub fn commit_update(&mut self, pos: usize, row: Record)
        requires
            old(self).wf(),
            row.wf(),
            pos < old(self)@.rows.len(),
            !old(self)@.rows[pos as int].deleted,
            first_conflict(
                old(self)@.indexes,
                old(self)@.schema.fields,
                as_map(row@),
                Some(old(self)@.rows[pos as int].row_id),
                0,
            ) is None,
            op_fits(row@),
        ensures
            final(self).wf(),
            final(self)@ == table_after_update(old(self)@, pos as int, row@),
    {
        proof {
            lemma_update_keeps_inv(self@, pos as int, row@);
            lemma_max_row_id_same_ids(table_after_update(self@, pos as int, row@).rows, self@.rows);
            if max_row_id(self@.rows) < u64::MAX {
                lemma_log_after_update(self.log@, self@, pos as int, row@);
            }
        }
        let row_id = self.rows[pos].row_id;
        self.indexes.remove(&self.schema, row_id, &self.rows[pos].record);
        self.indexes.insert(&self.schema, row_id, &row);
        let ghost rv = row@;
        self.log = Ghost(self.log@ + enc_op(OP_UPDATE, row_id, Some(rv)));
        self.rows[pos].record = row;
        assert(self@.rows =~= table_after_update(old(self)@, pos as int, rv).rows);
        assert forall|i: int| 0 <= i < self.rows@.len() implies (#[trigger] self.rows@[i]).record.wf() by {
            if i != pos {
                assert(self.rows@[i] == old(self).rows@[i]);
            }
        }
    }

    /// Marks the row at `pos` deleted and drops its index entries.
    pub fn commit_delete(&mut self, pos: usize)
        requires
            old(self).wf(),
            pos < old(self)@.rows.len(),
            !old(self)@.rows[pos as int].deleted,
        ensures
            final(self).wf(),
            final(self)@ == table_after_delete(old(self)@, pos as int),
    {
        proof {
            lemma_delete_keeps_inv(self@, pos as int);
            lemma_max_row_id_same_ids(table_after_delete(self@, pos as int).rows, self@.rows);
            if max_row_id(self@.rows) < u64::MAX {
                lemma_log_after_delete(self.log@, self@, pos as int);
            }
        }
        let row_id = self.rows[pos].row_id;
        self.log = Ghost(self.log@ + enc_op(OP_DELETE, row_id, None));
        self.indexes.remove(&self.schema, row_id, &self.rows[pos].record);
        self.rows[pos].deleted = true;
        assert(self@.rows =~= table_after_delete(old(self)@, pos as int).rows);
        assert forall|i: int| 0 <= i < self.rows@.len() implies (#[trigger] self.rows@[i]).record.wf() by {
            if i != pos {
                assert(self.rows@[i] == old(self).rows@[i]);
            }
        }
    }
}


pub open spec fn unknown_model<T>(r: Result<T>, model: Seq<char>) -> bool {
    r matches Err(CrustDbError::UnknownModel(m)) && m@ == model
}

fn unknown_model_error(model: &str) -> (r: CrustDbError)
    ensures
        r matches CrustDbError::UnknownModel(m) && m@ == model@,
{
    let m = model.to_string();
    proof {
        broadcast use vstd::string::group_string_axioms;
    }
    CrustDbError::UnknownModel(m)
}

/// The state of the engine: one table per registered model.
pub struct Engine {
    tables: NameMap<Table>,
}

/// The content of the engine: each model name with its table.
pub type EngineModel = Map<Seq<char>, TableModel>;

impl View for Engine {
    type V = EngineModel;

    closed spec fn view(&self) -> EngineModel {
        self.tables.map()
    }
}

impl Table {
    /// A table with nothing in it, used while another is taken out.
    fn placeholder_named(model: &str) -> (r: Table)
        ensures
            r.wf(),
            r.schema@.name == model@,
    {
        let name = model.to_string();
        proof {
            broadcast use vstd::string::group_string_axioms;
        }
        let schema = ModelSchema { name, fields: NameMap::new() };
        let indexes = TableIndexes::for_schema(&schema);
        let t = Table { schema, rows: Vec::new(), indexes, next_row_id: 1, log: Ghost(Seq::empty()) };
        proof {
            lemma_new_table_consistent(t@.schema, t@.indexes, 1, Seq::empty());
            assert(t@.rows =~= Seq::<StoredRowModel>::empty());
            assert(replay_spec(Seq::empty()) == Some((Seq::<LogRow>::empty(), 0u64)));
        }
        t
    }
}

impl Engine {
    pub closed spec fn wf(&self) -> bool {
        &&& self.tables.wf()
        &&& forall|i: int| 0 <= i < self.tables.items().len() ==> (#[trigger] self.tables.items()[i]).1.wf()
            && self.tables.items()[i].1.schema.name@ == self.tables@[i].0
    }

    /// An engine with no model.
    pub fn new() -> (r: Engine)
        ensures
            r.wf(),
            r@ == Map::<Seq<char>, TableModel>::empty(),
            r.model_names() == Seq::<Seq<char>>::empty(),
    {
        let r = Engine { tables: NameMap::new() };
        assert(r@ =~= Map::<Seq<char>, TableModel>::empty());
        assert(r.model_names() =~= Seq::<Seq<char>>::empty());
        r
    }

    /// Every table the engine holds holds `table_inv`, keeps its fields in name
    /// order and, while its ids are not exhausted, has indexes that agree with
    /// its rows and a log that holds it.
    pub proof fn lemma_held(&self, model: Seq<char>)
        requires
            self.wf(),
            self@.contains_key(model),
        ensures
            table_inv(self@[model]),
            forall|i: int| 0 <= i < self@[model].rows.len() ==> names_sorted(#[trigger] self@[model].rows[i].record),
            max_row_id(self@[model].rows) < u64::MAX ==> table_consistent(self@[model]) && log_holds(
                self@[model].log,
                self@[model],
            ),
    {
        lemma_sorted_distinct(self.tables@);
        let i = choose|i: int| 0 <= i < self.tables@.len() && #[trigger] self.tables@[i].0 == model;
        lemma_index_of(self.tables@, i);
        let t = self.tables.items()[i].1;
        assert(t.wf());
        assert(self.tables@[i].1 == t@);
        t.lemma_inv();
    }

    /// Opening the engine again gives it back: an engine whose tables are, for
    /// each model of this one, the table opened with the model's schema from a
    /// file that holds the magic and then that table's log, is this engine
    /// again; so every find, insert, update, delete and schema registration
    /// answers as before.
    #[verifier::spinoff_prover]
    pub proof fn lemma_reopen_engine(&self, e2: &Engine)
        requires
            self.wf(),
            e2.wf(),
            e2@.dom() == self@.dom(),
            forall|m: Seq<char>| #[trigger] self@.contains_key(m) ==> max_row_id(self@[m].rows) < u64::MAX
                && opened_from(e2@[m], self@[m].schema, Some(table_magic() + self@[m].log))
                && e2@[m].log == opened_ops(Some(table_magic() + self@[m].log), e2@[m].rows),
        ensures
            e2@ == self@,
    {
        assert forall|m: Seq<char>| #[trigger] self@.contains_key(m) implies e2@[m] == self@[m] by {
            self.lemma_held(m);
            e2.lemma_held(m);
            lemma_reopen_same_ids(self@[m], e2@[m]);
            lemma_reopen(self@[m], e2@[m]);
        }
        assert(e2@ =~= self@);
    }

    /// The table of `model`.
    pub fn table(&self, model: &str) -> (r: Option<&Table>)
        requires
            self.wf(),
        ensures
            r is Some == self@.contains_key(model@),
            r is Some ==> r.unwrap().wf() && r.unwrap()@ == self@[model@] && r.unwrap()@.schema.name == model@,
    {
        let (pos, found) = self.tables.position(model);
        if found {
            proof {
                lemma_sorted_distinct(self.tables@);
                lemma_index_of(self.tables@, pos as int);
            }
            let t = self.tables.value_at(pos);
            assert(self.tables.items()[pos as int].1.wf());
            Some(t)
        } else {
            None
        }
    }

    /// The registered model names, in name order.
    pub closed spec fn model_names(&self) -> Seq<Seq<char>> {
        self.tables@.map_values(|e: (Seq<char>, TableModel)| e.0)
    }

    /// The number of models.
    pub fn model_count(&self) -> (r: usize)
        ensures
            r == self.model_names().len(),
    {
        self.tables.len()
    }

    /// The table at position `i`, models being in name order.
    pub fn table_at(&self, i: usize) -> (r: &Table)
        requires
            self.wf(),
            i < self.model_names().len(),
        ensures
            r.wf(),
            r@.schema.name == self.model_names()[i as int],
            self@.contains_key(r@.schema.name),
            self@[r@.schema.name] == r@,
    {
        proof {
            lemma_sorted_distinct(self.tables@);
            lemma_index_of(self.tables@, i as int);
        }
        let t = self.tables.value_at(i);
        assert(self.tables.items()[i as int].1.wf());
        t
    }

    /// Puts `t` at position `pos` and hands back what was there.
    fn replace_table(&mut self, pos: usize, t: Table) -> (r: Table)
        requires
            old(self).wf(),
            pos < old(self).tables@.len(),
            t.wf(),
            t.schema@.name == old(self).tables@[pos as int].0,
        ensures
            final(self).wf(),
            final(self)@ == old(self)@.insert(old(self).tables@[pos as int].0, t@),
            final(self).tables@.len() == old(self).tables@.len(),
            forall|i: int| 0 <= i < old(self).tables@.len() ==> (#[trigger] final(self).tables@[i]).0 == old(self).tables@[i].0,
            r.wf(),
            r@ == old(self).tables@[pos as int].1,
            r.schema@.name == old(self).tables@[pos as int].0,
    {
        let ghost old_view = self.tables@;
        let mut t = t;
        self.tables.swap_value_at(pos, &mut t);
        proof {
            lemma_sorted_update(old_view, pos as int, self.tables@[pos as int].1);
            lemma_sorted_distinct(old_view);
            lemma_as_map_update(old_view, pos as int, self.tables@[pos as int].1);
            assert forall|i: int| 0 <= i < self.tables.items().len() implies (#[trigger] self.tables.items()[i]).1.wf()
                && self.tables.items()[i].1.schema.name@ == self.tables@[i].0 by {
                if i != pos {
                    assert(self.tables.items()[i] == old(self).tables.items()[i]);
                }
            }
            assert(old(self).tables.items()[pos as int].1.wf());
            assert(old(self).tables.items()[pos as int].1.schema.name@ == old(self).tables@[pos as int].0);
        }
        t
    }

    /// Where `model` is, when registered.
    fn locate(&self, model: &str) -> (r: Option<usize>)
        requires
            self.wf(),
        ensures
            r is Some == self@.contains_key(model@),
            r is Some ==> r.unwrap() < self.tables@.len() && self.tables@[r.unwrap() as int].0 == model@,
    {
        let (pos, found) = self.tables.position(model);
        if found {
            Some(pos)
        } else {
            None
        }
    }

    /// The path, under the database directory, of the index file that a find
    /// of `model` with these filters reads; `None` when it reads none.
    pub fn index_file_for(&self, model: &str, filters: &Record) -> (r: Option<String>)
        requires
            self.wf(),
            filters.wf(),
        ensures
            r is Some <==> self@.contains_key(model@) && uses_index_file(self@[model@], filters@),
            r is Some ==> r.unwrap()@ == "indexes/"@ + model@ + "/"@ + filters@[0].0 + ".idx"@,
    {
        let t = match self.table(model) {
            Some(t) => t,
            None => {
                return None;
            },
        };
        if t.uses_index(filters) {
            let name = filters.name_at(0);
            Some(index_path(model, name.as_str()))
        } else {
            None
        }
    }

    /// The first live row that the filters select, as a copy. A lookup on an
    /// indexed field reads `file`, the bytes of the index file that
    /// `index_file_for` names (`None` when it is missing).
    pub fn find(&self, model: &str, filters: &Record, file: Option<&[u8]>) -> (r: Result<Option<Record>>)
        requires
            self.wf(),
            filters.wf(),
        ensures
            !self@.contains_key(model@) ==> unknown_model(r, model@),
            self@.contains_key(model@) ==> match find_in_file_spec(self@[model@], filters@, file_view(file)) {
                Err(e) => failed_as(r, e),
                Ok(None) => r matches Ok(None),
                Ok(Some(id)) => r matches Ok(Some(rec)) && rec.wf()
                    && rec@ == self@[model@].rows[live_position(self@[model@].rows, id, 0).unwrap()].record,
            },
    {
        let t = match self.table(model) {
            Some(t) => t,
            None => {
                return Err(unknown_model_error(model));
            },
        };
        match t.find_row(filters, file)? {
            Some((_, p)) => Ok(Some(t.rows[p].record.duplicate())),
            None => Ok(None),
        }
    }

    /// The first live row that the filters select, as a copy, when the lookup
    /// on an indexed field was made page by page and gave `looked` (see
    /// `find_given_spec`).
    pub fn find_given(&self, model: &str, filters: &Record, looked: Option<Result<Option<RowId>>>) -> (r: Result<Option<Record>>)
        requires
            self.wf(),
            filters.wf(),
        ensures
            !self@.contains_key(model@) ==> unknown_model(r, model@),
            self@.contains_key(model@) ==> match find_given_spec(self@[model@], filters@, looked) {
                Err(e) => failed_as(r, e),
                Ok(None) => r matches Ok(None),
                Ok(Some(id)) => r matches Ok(Some(rec)) && rec.wf()
                    && rec@ == self@[model@].rows[live_position(self@[model@].rows, id, 0).unwrap()].record,
            },
    {
        let t = match self.table(model) {
            Some(t) => t,
            None => {
                return Err(unknown_model_error(model));
            },
        };
        match t.find_row_given(filters, looked)? {
            Some((_, p)) => Ok(Some(t.rows[p].record.duplicate())),
            None => Ok(None),
        }
    }

    /// Starts the lookup that a find of `model` with these filters makes in the
    /// index file that `index_file_for` names, from that file's length and its
    /// header page, as `start_lookup` does for the filtered field and value.
    pub fn start_index_lookup(&self, model: &str, filters: &Record, header: &[u8], file_len: u64) -> (r: Result<(IndexWalk, LookupStep)>)
        requires
            self.wf(),
            filters.wf(),
            self@.contains_key(model@),
            uses_index_file(self@[model@], filters@),
            file_len >= PAGE_SIZE ==> header@.len() == PAGE_SIZE,
        ensures
            forall|f: Seq<u8>| f.len() == file_len && (file_len >= PAGE_SIZE ==> f.take(PAGE_SIZE as int) == header@) ==> {
                let k = enc_key(filters@[0].1);
                match r {
                    Ok((w, LookupStep::Done(x))) => lookup_spec(f, model@, filters@[0].0, k) == Some(x),
                    Ok((w, LookupStep::Read(id))) => {
                        &&& header_spec(f, model@, filters@[0].0) matches Some((root, count, n))
                        &&& n != 0 && id == root && w.page_count == count && w.fuel == count && w.key@ == k
                        &&& lookup_spec(f, model@, filters@[0].0, k) == lookup_from(f, count, root, k, count as nat)
                        &&& lookup_error(f, model@, filters@[0].0, k) == walk_error(f, count, root, k, count as nat)
                    },
                    Err(e) => lookup_spec(f, model@, filters@[0].0, k) is None
                        && (e matches CrustDbError::StorageFormat(m) && m@ == lookup_error(f, model@, filters@[0].0, k)),
                }
            },
            r matches Ok((w, LookupStep::Read(id))) ==> id == w.next && w.next < w.page_count && w.fuel > 0,
    {
        let name = filters.name_at(0);
        start_lookup(header, file_len, model, name.as_str(), filters.value_at(0))
    }

    /// The row an insert into `model` would store, or why it is refused.
    pub fn prepare_insert(&self, model: &str, values: &Record) -> (r: Result<Record>)
        requires
            self.wf(),
            values.wf(),
        ensures
            !self@.contains_key(model@) ==> unknown_model(r, model@),
            self@.contains_key(model@) ==> match insert_spec(self@[model@], values@) {
                Ok(row) => r is Ok && r.unwrap().wf() && r.unwrap()@ == row,
                Err(e) => refused(r, e),
            },
            self@.contains_key(model@) && max_row_id(self@[model@].rows) < u64::MAX ==> match insert_by_rows(
                self@[model@],
                values@,
            ) {
                Ok(row) => r is Ok && r.unwrap()@ == row,
                Err(e) => refused(r, e),
            },
    {
        proof {
            if self@.contains_key(model@) {
                self.lemma_held(model@);
                if max_row_id(self@[model@].rows) < u64::MAX {
                    lemma_insert_unique_exactly(self@[model@], values@);
                }
            }
        }
        match self.table(model) {
            Some(t) => t.prepare_insert(values),
            None => Err(unknown_model_error(model)),
        }
    }

    /// Stores `row` in `model` under the table's next row id.
    pub fn commit_insert(&mut self, model: &str, row: Record) -> (r: RowId)
        requires
            old(self).wf(),
            old(self)@.contains_key(model@),
            row.wf(),
            first_conflict(old(self)@[model@].indexes, old(self)@[model@].schema.fields, as_map(row@), None, 0) is None,
            op_fits(row@),
        ensures
            final(self).wf(),
            r == old(self)@[model@].next_row_id,
            final(self)@ == old(self)@.insert(model@, table_after_insert(old(self)@[model@], row@)),
            max_row_id(old(self)@[model@].rows) < u64::MAX ==> r == max_row_id(old(self)@[model@].rows) + 1
                && forall|i: int| 0 <= i < old(self)@[model@].rows.len() ==> (#[trigger] old(self)@[model@].rows[i]).row_id < r,
    {
        proof {
            self.lemma_held(model@);
            if max_row_id(self@[model@].rows) < u64::MAX {
                lemma_insert_row_id(self@[model@], row@);
            }
        }
        let pos = self.locate(model).unwrap();
        proof {
            lemma_sorted_distinct(self.tables@);
            lemma_index_of(self.tables@, pos as int);
        }
        let mut t = self.replace_table(pos, Table::placeholder_named(model));
        let id = t.commit_insert(row);
        self.replace_table(pos, t);
        id
    }

    /// The position and new content of the row an update of `model` changes,
    /// `None` when no live row matches, or why it is refused. The row is found
    /// as `find` finds it, reading `file` the same way.
    pub fn prepare_update(&self, model: &str, filters: &Record, values: &Record, file: Option<&[u8]>) -> (r: Result<Option<(usize, Record)>>)
        requires
            self.wf(),
            filters.wf(),
            values.wf(),
        ensures
            values@.len() == 0 ==> (r matches Err(CrustDbError::Validation(x)) && x@ == "update requires at least one value"@),
            values@.len() > 0 && !self@.contains_key(model@) ==> unknown_model(r, model@),
            values@.len() > 0 && self@.contains_key(model@) ==> match find_in_file_spec(self@[model@], filters@, file_view(file)) {
                Err(e) => failed_as(r, e),
                Ok(None) => r matches Ok(None),
                Ok(Some(id)) => {
                    let p = live_position(self@[model@].rows, id, 0).unwrap();
                    match update_at_spec(self@[model@], p, values@) {
                        Ok(row) => r matches Ok(Some((q, x))) && q == p && x.wf() && x@ == row,
                        Err(e) => refused(r, e),
                    }
                },
            },
            r matches Ok(Some((q, x))) ==> self@.contains_key(model@) && q < self@[model@].rows.len(),
    {
        if values.is_empty() {
            let m = "update requires at least one value".to_string();
            proof {
                broadcast use vstd::string::group_string_axioms;
            }
            return Err(CrustDbError::Validation(m));
        }
        let t = match self.table(model) {
            Some(t) => t,
            None => {
                return Err(unknown_model_error(model));
            },
        };
        match t.find_row(filters, file)? {
            Some((_, p)) => {
                let row = t.prepare_update_at(p, values)?;
                Ok(Some((p, row)))
            },
            None => Ok(None),
        }
    }

    /// As `prepare_update`, when the lookup on an indexed field was made page by
    /// page and gave `looked` (see `find_given_spec`).
    pub fn prepare_update_given(&self, model: &str, filters: &Record, values: &Record, looked: Option<Result<Option<RowId>>>) -> (r: Result<Option<(usize, Record)>>)
        requires
            self.wf(),
            filters.wf(),
            values.wf(),
        ensures
            values@.len() == 0 ==> (r matches Err(CrustDbError::Validation(x)) && x@ == "update requires at least one value"@),
            values@.len() > 0 && !self@.contains_key(model@) ==> unknown_model(r, model@),
            values@.len() > 0 && self@.contains_key(model@) ==> match find_given_spec(self@[model@], filters@, looked) {
                Err(e) => failed_as(r, e),
                Ok(None) => r matches Ok(None),
                Ok(Some(id)) => {
                    let p = live_position(self@[model@].rows, id, 0).unwrap();
                    match update_at_spec(self@[model@], p, values@) {
                        Ok(row) => r matches Ok(Some((q, x))) && q == p && x.wf() && x@ == row,
                        Err(e) => refused(r, e),
                    }
                },
            },
            r matches Ok(Some((q, x))) ==> self@.contains_key(model@) && q < self@[model@].rows.len(),
    {
        if values.is_empty() {
            let m = "update requires at least one value".to_string();
            proof {
                broadcast use vstd::string::group_string_axioms;
            }
            return Err(CrustDbError::Validation(m));
        }
        let t = match self.table(model) {
            Some(t) => t,
            None => {
                return Err(unknown_model_error(model));
            },
        };
        match t.find_row_given(filters, looked)? {
            Some((_, p)) => {
                let row = t.prepare_update_at(p, values)?;
                Ok(Some((p, row)))
            },
            None => Ok(None),
        }
    }

    /// Gives the row at `pos` of `model` the content `row`.
    pub fn commit_update(&mut self, model: &str, pos: usize, row: Record)
        requires
            old(self).wf(),
            old(self)@.contains_key(model@),
            pos < old(self)@[model@].rows.len(),
            row.wf(),
            !old(self)@[model@].rows[pos as int].deleted,
            first_conflict(
                old(self)@[model@].indexes,
                old(self)@[model@].schema.fields,
                as_map(row@),
                Some(old(self)@[model@].rows[pos as int].row_id),
                0,
            ) is None,
            op_fits(row@),
        ensures
            final(self).wf(),
            final(self)@ == old(self)@.insert(model@, table_after_update(old(self)@[model@], pos as int, row@)),
    {
        let at = self.locate(model).unwrap();
        proof {
            lemma_sorted_distinct(self.tables@);
            lemma_index_of(self.tables@, at as int);
        }
        let mut t = self.replace_table(at, Table::placeholder_named(model));
        t.commit_update(pos, row);
        self.replace_table(at, t);
    }

    /// The position of the live row a delete from `model` removes, `None` when no
    /// live row matches, or why it is refused. The row is found as `find`
    /// finds it, reading `file` the same way.
    pub fn prepare_delete(&self, model: &str, filters: &Record, file: Option<&[u8]>) -> (r: Result<Option<usize>>)
        requires
            self.wf(),
            filters.wf(),
        ensures
            !self@.contains_key(model@) ==> unknown_model(r, model@),
            self@.contains_key(model@) ==> match find_in_file_spec(self@[model@], filters@, file_view(file)) {
                Err(e) => failed_as(r, e),
                Ok(None) => r matches Ok(None),
                Ok(Some(id)) => r matches Ok(Some(p)) && live_position(self@[model@].rows, id, 0) == Some(p as int),
            },
            r matches Ok(Some(p)) ==> self@.contains_key(model@) && p < self@[model@].rows.len(),
    {
        let t = match self.table(model) {
            Some(t) => t,
            None => {
                return Err(unknown_model_error(model));
            },
        };
        match t.find_row(filters, file)? {
            Some((_, p)) => Ok(Some(p)),
            None => Ok(None),
        }
    }

    /// As `prepare_delete`, when the lookup on an indexed field was made page by
    /// page and gave `looked` (see `find_given_spec`).
    pub fn prepare_delete_given(&self, model: &str, filters: &Record, looked: Option<Result<Option<RowId>>>) -> (r: Result<Option<usize>>)
        requires
            self.wf(),
            filters.wf(),
        ensures
            !self@.contains_key(model@) ==> unknown_model(r, model@),
            self@.contains_key(model@) ==> match find_given_spec(self@[model@], filters@, looked) {
                Err(e) => failed_as(r, e),
                Ok(None) => r matches Ok(None),
                Ok(Some(id)) => r matches Ok(Some(p)) && live_position(self@[model@].rows, id, 0) == Some(p as int),
            },
            r matches Ok(Some(p)) ==> self@.contains_key(model@) && p < self@[model@].rows.len(),
    {
        let t = match self.table(model) {
            Some(t) => t,
            None => {
                return Err(unknown_model_error(model));
            },
        };
        match t.find_row_given(filters, looked)? {
            Some((_, p)) => Ok(Some(p)),
            None => Ok(None),
        }
    }

    /// Marks the row at `pos` of `model` deleted.
    pub fn commit_delete(&mut self, model: &str, pos: usize)
        requires
            old(self).wf(),
            old(self)@.contains_key(model@),
            pos < old(self)@[model@].rows.len(),
            !old(self)@[model@].rows[pos as int].deleted,
        ensures
            final(self).wf(),
            final(self)@ == old(self)@.insert(model@, table_after_delete(old(self)@[model@], pos as int)),
    {
        let at = self.locate(model).unwrap();
        proof {
            lemma_sorted_distinct(self.tables@);
            lemma_index_of(self.tables@, at as int);
        }
        let mut t = self.replace_table(at, Table::placeholder_named(model));
        t.commit_delete(pos);
        self.replace_table(at, t);
    }

    /// Whether `schema` is new (`true`) or already registered as it is (`false`);
    /// refused when a model of that name is registered with another schema.
    pub fn check_schema(&self, schema: &ModelSchema) -> (r: Result<bool>)
        requires
            self.wf(),
        ensures
            !self@.contains_key(schema@.name) ==> r == Ok::<bool, CrustDbError>(true),
            self@.contains_key(schema@.name) && self@[schema@.name].schema == schema@ ==> r == Ok::<bool, CrustDbError>(false),
            self@.contains_key(schema@.name) && self@[schema@.name].schema != schema@ ==>
                (r matches Err(CrustDbError::IncompatibleSchema(m)) && m@ == incompatible_message(schema@.name)),
    {
        match self.table(schema.name.as_str()) {
            None => Ok(true),
            Some(t) => {
                if t.schema.same(schema) {
                    Ok(false)
                } else {
                    let a = join("Schema for ", schema.name.as_str());
                    Err(CrustDbError::IncompatibleSchema(join(a.as_str(), " is incompatible with persisted schema")))
                }
            },
        }
    }

    /// The schemas of the models, in name order.
    pub closed spec fn schemas(&self) -> Seq<ModelModel> {
        self.tables@.map_values(|e: (Seq<char>, TableModel)| e.1.schema)
    }

    /// The bytes of the schema file once `schema` is registered beside the
    /// models: their schemas and it, in name order. Loading the file maps each
    /// registered model's name to its schema, the new name to `schema`, and no
    /// other name to anything.
    pub fn schema_file_with(&self, schema: &ModelSchema) -> (r: Result<Vec<u8>>)
        requires
            self.wf(),
            schema.wf(),
            !self@.contains_key(schema@.name),
        ensures
            r is Ok == (self.schemas().len() + 1 <= u32::MAX && model_fits(schema@)
                && forall|i: int| 0 <= i < self.schemas().len() ==> model_fits(#[trigger] self.schemas()[i])),
            r is Ok ==> exists|order: Seq<ModelModel>| in_name_order(order, self.schemas().push(schema@))
                && r.unwrap()@ == enc_schemas(order),
            r is Ok ==> decode_schemas_spec(Some(r.unwrap()@)) is Some && {
                let m = decode_schemas_spec(Some(r.unwrap()@)).unwrap();
                &&& m.dom() == self@.dom().insert(schema@.name)
                &&& model_holds(schema@, m[schema@.name])
                &&& forall|n: Seq<char>| #[trigger] self@.contains_key(n) ==> model_holds(self@[n].schema, m[n])
            },
            r is Err ==> r matches Err(CrustDbError::StorageFormat(_)),
            r matches Err(CrustDbError::StorageFormat(m)) ==> save_schemas_error(self.schemas().push(schema@), m@),
    {
        let mut refs: Vec<&ModelSchema> = Vec::new();
        let ghost ms = self.schemas();
        let mut i: usize = 0;
        proof {
            lemma_sorted_distinct(self.tables@);
        }
        while i < self.tables.len()
            invariant
                self.wf(),
                ms == self.schemas(),
                i <= self.tables@.len(),
                ref_models(refs@) == ms.take(i as int),
            decreases self.tables@.len() - i,
        {
            let t = self.tables.value_at(i);
            proof {
                assert(self.tables.items()[i as int].1.wf());
            }
            assert(ms[i as int] == self.tables@[i as int].1.schema);
            assert(t@.schema == t.schema@);
            let ghost before = refs@;
            refs.push(&t.schema);
            assert(refs@ == before.push(&t.schema));
            assert(ref_models(refs@) =~= ref_models(before).push(t.schema@));
            assert(ms.take(i + 1) =~= ms.take(i as int).push(ms[i as int]));
            i = i + 1;
        }
        refs.push(schema);
        let ghost all = ms.push(schema@);
        assert(ms.take(i as int) =~= ms);
        assert(ref_models(refs@) =~= all);
        proof {
            assert forall|j: int| 0 <= j < ms.len() implies (#[trigger] ms[j]).name == self.tables@[j].0
                && self@.contains_key(ms[j].name) && self@[ms[j].name].schema == ms[j]
                && ms[j].fields == self.tables.items()[j].1.schema@.fields && self.tables.items()[j].1.wf() by {
                assert(self.tables.items()[j].1.wf());
                lemma_index_of(self.tables@, j);
            }
            assert forall|a: int, b: int| 0 <= a < b < all.len() implies (#[trigger] all[a]).name != (#[trigger] all[b]).name by {
                if b < ms.len() {
                    assert(self.tables@[a].0 != self.tables@[b].0);
                } else {
                    assert(self@.contains_key(ms[a].name));
                }
            }
        }
        let r = save_schemas(refs.as_slice());
        proof {
            if r is Ok {
                let order = choose|order: Seq<ModelModel>| in_name_order(order, all) && r.unwrap()@ == enc_schemas(order);
                assert forall|j: int| 0 <= j < all.len() implies model_fits(#[trigger] all[j]) && crate::names::names_sorted(all[j].fields) by {
                    if j < ms.len() {
                        assert(model_fits(refs@[j]@));
                    } else {
                        assert(model_fits(refs@[j]@));
                    }
                }
                lemma_saved_schemas_load(all, order);
                let m = decode_schemas_spec(Some(r.unwrap()@)).unwrap();
                assert forall|n: Seq<char>| #[trigger] self@.contains_key(n) implies model_holds(self@[n].schema, m[n]) by {
                    assert(crate::names::has_name(self.tables@, n));
                    let j = choose|j: int| 0 <= j < self.tables@.len() && #[trigger] self.tables@[j].0 == n;
                    assert(all[j] == ms[j]);
                }
                assert(all[ms.len() as int] == schema@);
                assert forall|n: Seq<char>| m.contains_key(n) <==> self@.dom().insert(schema@.name).contains(n) by {
                    if m.contains_key(n) {
                        let j = choose|j: int| 0 <= j < all.len() && (#[trigger] all[j]).name == n;
                        if j < ms.len() {
                            assert(self@.contains_key(ms[j].name));
                        }
                    }
                    if self@.contains_key(n) {
                        assert(crate::names::has_name(self.tables@, n));
                        let j = choose|j: int| 0 <= j < self.tables@.len() && #[trigger] self.tables@[j].0 == n;
                        assert(all[j].name == n);
                    }
                    if n == schema@.name {
                        assert(all[ms.len() as int].name == n);
                    }
                }
                assert(m.dom() =~= self@.dom().insert(schema@.name));
            }
            assert((forall|j: int| 0 <= j < refs@.len() ==> model_fits((#[trigger] refs@[j])@))
                == (model_fits(schema@) && forall|j: int| 0 <= j < ms.len() ==> model_fits(#[trigger] ms[j]))) by {
                assert forall|j: int| 0 <= j < refs@.len() implies (#[trigger] refs@[j])@ == all[j] by {
                    assert(ref_models(refs@)[j] == refs@[j]@);
                }
                if forall|j: int| 0 <= j < refs@.len() ==> model_fits((#[trigger] refs@[j])@) {
                    assert(model_fits(refs@[ms.len() as int]@));
                    assert forall|j: int| 0 <= j < ms.len() implies model_fits(#[trigger] ms[j]) by {
                        assert(model_fits(refs@[j]@));
                        assert(all[j] == ms[j]);
                    }
                }
                if model_fits(schema@) && forall|j: int| 0 <= j < ms.len() ==> model_fits(#[trigger] ms[j]) {
                    assert forall|j: int| 0 <= j < refs@.len() implies model_fits((#[trigger] refs@[j])@) by {
                        if j < ms.len() {
                            assert(model_fits(ms[j]));
                            assert(all[j] == ms[j]);
                        }
                    }
                }
            }
        }
        r
    }

    /// Registers a table; a table of the same model is replaced.
    pub fn add_table(&mut self, table: Table)
        requires
            old(self).wf(),
            table.wf(),
        ensures
            final(self).wf(),
            final(self)@ == old(self)@.insert(table@.schema.name, table@),
    {
        let name = table.schema.name.clone();
        let ghost tv = table@;
        let ghost items = self.tables.items();
        let ghost t_copy = table;
        let ghost n_copy = name;
        self.tables.insert(name, table);
        assert forall|i: int| 0 <= i < self.tables.items().len() implies (#[trigger] self.tables.items()[i]).1.wf()
            && self.tables.items()[i].1.schema.name@ == self.tables@[i].0 by {
            if self.tables.items()[i] != (n_copy, t_copy) {
                let k = choose|k: int| 0 <= k < items.len() && items[k] == self.tables.items()[i];
                assert(items[k].1.wf());
                assert(old(self).tables.items()[k].1.schema.name@ == old(self).tables@[k].0);
            }
        }
    }
}

pub open spec fn incompatible_message(name: Seq<char>) -> Seq<char> {
    "Schema for "@ + name + " is incompatible with persisted schema"@
}

// ---------------------------------------------------------------------------
// Laws: the indexes of a table agree with its rows, and writes keep it so.
// ---------------------------------------------------------------------------

/// Row `i` is live, has the id that index `f` gives for `v`, and holds `v` in `f`.
pub open spec fn indexed_row(t: TableModel, f: Seq<char>, v: ValueModel, i: int) -> bool {
    &&& 0 <= i < t.rows.len()
    &&& !t.rows[i].deleted
    &&& t.rows[i].row_id == t.indexes[f][v]
    &&& as_map(t.rows[i].record).contains_key(f)
    &&& as_map(t.rows[i].record)[f] == v
}

/// The indexes of a table agree with its rows: exactly the id and unique fields
/// are indexed; row ids are distinct and below the next row id; every indexed
/// value leads to a live row that holds it; and every live row's values in those
/// fields are indexed and lead to it.
pub open spec fn table_consistent(t: TableModel) -> bool {
    &&& names_sorted(t.schema.fields)
    &&& forall|f: Seq<char>| #[trigger] t.indexes.contains_key(f) <==> crate::index::memory::unique_field(t.schema.fields, f)
    &&& forall|i: int| 0 <= i < t.rows.len() ==> (#[trigger] t.rows[i]).row_id < t.next_row_id
    &&& forall|i: int, j: int| 0 <= i < j < t.rows.len() ==> (#[trigger] t.rows[i]).row_id != (#[trigger] t.rows[j]).row_id
    &&& forall|f: Seq<char>, v: ValueModel| t.indexes.contains_key(f) && #[trigger] t.indexes[f].contains_key(v)
        ==> exists|i: int| #[trigger] indexed_row(t, f, v, i)
    &&& forall|i: int, f: Seq<char>| #![trigger t.rows[i], t.indexes[f]] 0 <= i < t.rows.len() && !t.rows[i].deleted
        && t.indexes.contains_key(f) && as_map(t.rows[i].record).contains_key(f)
        ==> t.indexes[f].contains_key(as_map(t.rows[i].record)[f]) && t.indexes[f][as_map(t.rows[i].record)[f]]
            == t.rows[i].row_id
}

proof fn lemma_first_conflict_none(idx: IndexModel, fields: FieldsModel, row: RowMap, ignore: Option<RowId>, i: int, k: int)
    requires
        0 <= i <= k < fields.len(),
        first_conflict(idx, fields, row, ignore, i) is None,
    ensures
        !crate::index::memory::conflict_at(idx, fields, row, ignore, k),
    decreases k - i,
{
    if i < k {
        lemma_first_conflict_none(idx, fields, row, ignore, i + 1, k);
    }
}

/// Without a conflict, a unique field's value is not indexed, or only for `ignore`.
proof fn lemma_no_conflict(idx: IndexModel, fields: FieldsModel, row: RowMap, ignore: Option<RowId>, f: Seq<char>)
    requires
        first_conflict(idx, fields, row, ignore, 0) is None,
        names_sorted(fields),
        crate::index::memory::unique_field(fields, f),
        row.contains_key(f),
        idx.contains_key(f),
    ensures
        !idx[f].contains_key(row[f]) || ignore == Some(idx[f][row[f]]),
{
    lemma_sorted_distinct(fields);
    let k = crate::names::index_of(fields, f);
    lemma_index_of(fields, k);
    lemma_first_conflict_none(idx, fields, row, ignore, 0, k);
}

/// A live row is found by its id when ids are distinct.
proof fn lemma_live_position_distinct(rows: Seq<StoredRowModel>, i: int)
    requires
        0 <= i < rows.len(),
        !rows[i].deleted,
        forall|a: int, b: int| 0 <= a < b < rows.len() ==> (#[trigger] rows[a]).row_id != (#[trigger] rows[b]).row_id,
    ensures
        live_position(rows, rows[i].row_id, 0) == Some(i),
{
    lemma_live_position_found(rows, i, 0);
    lemma_live_position_range(rows, rows[i].row_id, 0);
    let j = live_position(rows, rows[i].row_id, 0).unwrap();
    if j < i {
        assert(rows[j].row_id != rows[i].row_id);
    } else if j > i {
        assert(rows[i].row_id != rows[j].row_id);
    }
}

/// Finding by one indexed field goes through its index.
proof fn lemma_find_by_index(t: TableModel, f: Seq<char>, v: ValueModel)
    requires
        t.indexes.contains_key(f),
        has_name(t.schema.fields, f),
    ensures
        find_spec(t, seq![(f, v)]) == (if t.indexes[f].contains_key(v) && live_position(t.rows, t.indexes[f][v], 0) is Some {
            Ok::<Option<RowId>, Seq<char>>(Some(t.indexes[f][v]))
        } else {
            Ok::<Option<RowId>, Seq<char>>(None)
        }),
{
    let filters = seq![(f, v)];
    assert(names_of(filters) =~= seq![f]);
    let names = seq![f];
    assert(names.drop_last() =~= Seq::<Seq<char>>::empty());
    assert(names.last() == f);
    assert(unknown_of(names.drop_last(), t.schema.fields) == Seq::<Seq<char>>::empty());
    assert(unknown_of(names, t.schema.fields) == unknown_of(names.drop_last(), t.schema.fields));
}

/// The rows keep their ids and their order when one is added or changed.
proof fn lemma_insert_consistent(t: TableModel, row: RecordModel)
    requires
        table_consistent(t),
        t.next_row_id < u64::MAX,
        first_conflict(t.indexes, t.schema.fields, as_map(row), None, 0) is None,
    ensures
        table_consistent(table_after_insert(t, row)),
{
    let t2 = table_after_insert(t, row);
    let id = t.next_row_id;
    let r = as_map(row);
    let n = t.rows.len() as int;
    assert(t2.rows[n] == new_row(id, row));
    assert forall|f: Seq<char>| #[trigger] t2.indexes.contains_key(f) <==> crate::index::memory::unique_field(t2.schema.fields, f) by {
        assert(t2.indexes.contains_key(f) == t.indexes.contains_key(f));
    }
    assert forall|i: int| 0 <= i < t2.rows.len() implies (#[trigger] t2.rows[i]).row_id < t2.next_row_id by {
        if i < n {
            assert(t2.rows[i] == t.rows[i]);
        }
    }
    assert forall|i: int, j: int| 0 <= i < j < t2.rows.len() implies (#[trigger] t2.rows[i]).row_id != (#[trigger] t2.rows[j]).row_id by {
        assert(t2.rows[i] == t.rows[i]);
        if j < n {
            assert(t2.rows[j] == t.rows[j]);
        }
    }
    assert forall|f: Seq<char>, v: ValueModel| t2.indexes.contains_key(f) && #[trigger] t2.indexes[f].contains_key(v)
        implies exists|i: int| #[trigger] indexed_row(t2, f, v, i) by {
        if crate::index::memory::unique_field(t.schema.fields, f) && r.contains_key(f) && v == r[f] {
            assert(indexed_row(t2, f, v, n));
        } else {
            assert(t2.indexes[f] == if crate::index::memory::unique_field(t.schema.fields, f) && r.contains_key(f) {
                t.indexes[f].insert(r[f], id)
            } else {
                t.indexes[f]
            });
            assert(t.indexes[f].contains_key(v));
            let i = choose|i: int| #[trigger] indexed_row(t, f, v, i);
            assert(t2.rows[i] == t.rows[i]);
            assert(indexed_row(t2, f, v, i));
        }
    }
    assert forall|i: int, f: Seq<char>| #![trigger t2.rows[i], t2.indexes[f]] 0 <= i < t2.rows.len() && !t2.rows[i].deleted
        && t2.indexes.contains_key(f) && as_map(t2.rows[i].record).contains_key(f)
        implies t2.indexes[f].contains_key(as_map(t2.rows[i].record)[f])
            && t2.indexes[f][as_map(t2.rows[i].record)[f]] == t2.rows[i].row_id by {
        if i == n {
        } else {
            assert(t2.rows[i] == t.rows[i]);
            let x = as_map(t.rows[i].record)[f];
            assert(t.indexes[f].contains_key(x) && t.indexes[f][x] == t.rows[i].row_id);
            if r.contains_key(f) {
                lemma_no_conflict(t.indexes, t.schema.fields, r, None, f);
            }
        }
    }
}

/// A stored row is found again by the value of any of its id or unique fields:
/// after an insert, finding by such a value gives the new row, and the indexes
/// still agree with the rows.
pub proof fn lemma_find_after_insert(t: TableModel, values: RecordModel, row: RecordModel, f: Seq<char>)
    requires
        table_inv(t),
        max_row_id(t.rows) < u64::MAX,
        t.next_row_id < u64::MAX,
        insert_spec(t, values) == Ok::<RecordModel, Refusal>(row),
        crate::index::memory::unique_field(t.schema.fields, f),
        as_map(row).contains_key(f),
    ensures
        find_spec(table_after_insert(t, row), seq![(f, as_map(row)[f])]) == Ok::<Option<RowId>, Seq<char>>(Some(t.next_row_id)),
        table_after_insert(t, row).rows[live_position(table_after_insert(t, row).rows, t.next_row_id, 0).unwrap()].record == row,
        table_consistent(table_after_insert(t, row)),
{
    lemma_insert_consistent(t, row);
    let t2 = table_after_insert(t, row);
    let n = t.rows.len() as int;
    let v = as_map(row)[f];
    assert(t2.indexes[f] == t.indexes[f].insert(v, t.next_row_id));
    lemma_live_position_distinct(t2.rows, n);
    lemma_find_by_index(t2, f, v);
}

/// The indexes of row `p`'s values point at row `p`, which is live.
proof fn lemma_row_indexed(t: TableModel, p: int, f: Seq<char>)
    requires
        table_consistent(t),
        0 <= p < t.rows.len(),
        !t.rows[p].deleted,
        crate::index::memory::unique_field(t.schema.fields, f),
        as_map(t.rows[p].record).contains_key(f),
    ensures
        t.indexes.contains_key(f),
        t.indexes[f].contains_key(as_map(t.rows[p].record)[f]),
        t.indexes[f][as_map(t.rows[p].record)[f]] == t.rows[p].row_id,
{
    assert(t.indexes.contains_key(f));
    assert(t.rows[p] == t.rows[p] && t.indexes[f] == t.indexes[f]);
}

/// Deleting a live row keeps the indexes in agreement with the rows.
proof fn lemma_delete_consistent(t: TableModel, p: int)
    requires
        table_consistent(t),
        0 <= p < t.rows.len(),
        !t.rows[p].deleted,
    ensures
        table_consistent(table_after_delete(t, p)),
{
    let t2 = table_after_delete(t, p);
    let rp = as_map(t.rows[p].record);
    let idp = t.rows[p].row_id;
    assert forall|f: Seq<char>| #[trigger] t2.indexes.contains_key(f) <==> crate::index::memory::unique_field(t2.schema.fields, f) by {
        assert(t2.indexes.contains_key(f) == t.indexes.contains_key(f));
    }
    assert forall|i: int| 0 <= i < t2.rows.len() implies (#[trigger] t2.rows[i]).row_id < t2.next_row_id by {
        assert(t2.rows[i].row_id == t.rows[i].row_id);
    }
    assert forall|i: int, j: int| 0 <= i < j < t2.rows.len() implies (#[trigger] t2.rows[i]).row_id != (#[trigger] t2.rows[j]).row_id by {
        assert(t2.rows[i].row_id == t.rows[i].row_id && t2.rows[j].row_id == t.rows[j].row_id);
    }
    assert forall|f: Seq<char>, v: ValueModel| t2.indexes.contains_key(f) && #[trigger] t2.indexes[f].contains_key(v)
        implies exists|i: int| #[trigger] indexed_row(t2, f, v, i) by {
        assert(t.indexes.contains_key(f));
        if rp.contains_key(f) {
            lemma_row_indexed(t, p, f);
        }
        assert(t.indexes[f].contains_key(v));
        let i = choose|i: int| #[trigger] indexed_row(t, f, v, i);
        if i == p {
            assert(rp.contains_key(f) && rp[f] == v);
        }
        assert(t2.rows[i] == t.rows[i]);
        assert(indexed_row(t2, f, v, i));
    }
    assert forall|i: int, f: Seq<char>| #![trigger t2.rows[i], t2.indexes[f]] 0 <= i < t2.rows.len() && !t2.rows[i].deleted
        && t2.indexes.contains_key(f) && as_map(t2.rows[i].record).contains_key(f)
        implies t2.indexes[f].contains_key(as_map(t2.rows[i].record)[f])
            && t2.indexes[f][as_map(t2.rows[i].record)[f]] == t2.rows[i].row_id by {
        assert(i != p);
        assert(t2.rows[i] == t.rows[i]);
        let x = as_map(t.rows[i].record)[f];
        assert(t.indexes[f].contains_key(x) && t.indexes[f][x] == t.rows[i].row_id);
        if rp.contains_key(f) {
            lemma_row_indexed(t, p, f);
            if x == rp[f] {
                assert(t.rows[i].row_id == idp);
                if i < p {
                    assert(t.rows[i].row_id != t.rows[p].row_id);
                } else {
                    assert(t.rows[p].row_id != t.rows[i].row_id);
                }
            }
        }
    }
}

/// After a delete, the row's values in its id and unique fields find nothing,
/// and the indexes still agree with the rows.
pub proof fn lemma_find_after_delete(t: TableModel, p: int, f: Seq<char>)
    requires
        table_inv(t),
        max_row_id(t.rows) < u64::MAX,
        0 <= p < t.rows.len(),
        !t.rows[p].deleted,
        crate::index::memory::unique_field(t.schema.fields, f),
        as_map(t.rows[p].record).contains_key(f),
    ensures
        find_spec(table_after_delete(t, p), seq![(f, as_map(t.rows[p].record)[f])]) == Ok::<Option<RowId>, Seq<char>>(None),
        table_consistent(table_after_delete(t, p)),
{
    lemma_delete_consistent(t, p);
    lemma_row_indexed(t, p, f);
    let t2 = table_after_delete(t, p);
    let v = as_map(t.rows[p].record)[f];
    assert(t2.indexes[f] == t.indexes[f].remove(v));
    lemma_find_by_index(t2, f, v);
}

/// No field from position `i` on conflicts, so none is the first to.
proof fn lemma_first_conflict_from(idx: IndexModel, fields: FieldsModel, row: RowMap, ignore: Option<RowId>, i: int)
    requires
        0 <= i,
        forall|k: int| i <= k < fields.len() ==> !crate::index::memory::conflict_at(idx, fields, row, ignore, k),
    ensures
        first_conflict(idx, fields, row, ignore, i) is None,
    decreases fields.len() - i,
{
    if i < fields.len() {
        lemma_first_conflict_from(idx, fields, row, ignore, i + 1);
    }
}

/// The largest row id among the rows, live or deleted; 0 when there are none.
pub open spec fn max_row_id(rows: Seq<StoredRowModel>) -> RowId
    decreases rows.len(),
{
    if rows.len() == 0 {
        0
    } else if rows.last().row_id > max_row_id(rows.drop_last()) {
        rows.last().row_id
    } else {
        max_row_id(rows.drop_last())
    }
}

/// The table's next row id is one past the largest id it holds, deleted rows
/// included (1 for no rows, and the largest id again once it is `u64::MAX`).
pub open spec fn next_id_holds(t: TableModel) -> bool {
    t.next_row_id == next_after(max_row_id(t.rows))
}

/// What every table holds: its next row id follows the largest id it holds, and,
/// while ids are not exhausted, its indexes agree with its rows.
pub open spec fn table_inv(t: TableModel) -> bool {
    &&& next_id_holds(t)
    &&& max_row_id(t.rows) < u64::MAX ==> table_consistent(t)
}

proof fn lemma_max_row_id_push(rows: Seq<StoredRowModel>, r: StoredRowModel)
    ensures
        max_row_id(rows.push(r)) == if r.row_id > max_row_id(rows) { r.row_id } else { max_row_id(rows) },
{
    assert(rows.push(r).drop_last() =~= rows);
}

/// A stored row without conflict keeps what every table holds.
proof fn lemma_insert_keeps_inv(t: TableModel, row: RecordModel)
    requires
        table_inv(t),
        first_conflict(t.indexes, t.schema.fields, as_map(row), None, 0) is None,
    ensures
        table_inv(table_after_insert(t, row)),
{
    let t2 = table_after_insert(t, row);
    lemma_max_row_id_push(t.rows, new_row(t.next_row_id, row));
    if max_row_id(t.rows) < u64::MAX {
        lemma_insert_row_id(t, row);
        if t.next_row_id < u64::MAX {
            lemma_insert_consistent(t, row);
        }
    }
}

/// Changing a live row without conflict keeps what every table holds.
proof fn lemma_update_keeps_inv(t: TableModel, p: int, row: RecordModel)
    requires
        table_inv(t),
        0 <= p < t.rows.len(),
        !t.rows[p].deleted,
        first_conflict(t.indexes, t.schema.fields, as_map(row), Some(t.rows[p].row_id), 0) is None,
    ensures
        table_inv(table_after_update(t, p, row)),
{
    lemma_change_keeps_next_id(t, p, row);
    lemma_max_row_id_same_ids(table_after_update(t, p, row).rows, t.rows);
    if max_row_id(t.rows) < u64::MAX {
        lemma_update_consistent(t, p, row);
    }
}

/// Deleting a live row keeps what every table holds.
proof fn lemma_delete_keeps_inv(t: TableModel, p: int)
    requires
        table_inv(t),
        0 <= p < t.rows.len(),
        !t.rows[p].deleted,
    ensures
        table_inv(table_after_delete(t, p)),
{
    lemma_change_keeps_next_id(t, p, Seq::empty());
    lemma_max_row_id_same_ids(table_after_delete(t, p).rows, t.rows);
    if max_row_id(t.rows) < u64::MAX {
        lemma_delete_consistent(t, p);
    }
}

proof fn lemma_max_row_id_bound(rows: Seq<StoredRowModel>)
    ensures
        forall|i: int| 0 <= i < rows.len() ==> (#[trigger] rows[i]).row_id <= max_row_id(rows),
    decreases rows.len(),
{
    if rows.len() > 0 {
        lemma_max_row_id_bound(rows.drop_last());
        assert forall|i: int| 0 <= i < rows.len() implies (#[trigger] rows[i]).row_id <= max_row_id(rows) by {
            if i < rows.len() - 1 {
                assert(rows.drop_last()[i] == rows[i]);
            }
        }
    }
}

proof fn lemma_max_row_id_same_ids(a: Seq<StoredRowModel>, b: Seq<StoredRowModel>)
    requires
        a.len() == b.len(),
        forall|i: int| 0 <= i < a.len() ==> (#[trigger] a[i]).row_id == b[i].row_id,
    ensures
        max_row_id(a) == max_row_id(b),
    decreases a.len(),
{
    if a.len() > 0 {
        assert forall|i: int| 0 <= i < a.drop_last().len() implies (#[trigger] a.drop_last()[i]).row_id == b.drop_last()[i].row_id by {
            assert(a.drop_last()[i] == a[i] && b.drop_last()[i] == b[i]);
        }
        lemma_max_row_id_same_ids(a.drop_last(), b.drop_last());
        assert(a.last().row_id == b.last().row_id);
    }
}

/// An insert gives the new row the id one past the largest held, above every
/// id held, deleted rows included, so ids are never reused; and the next id
/// again follows the largest.
pub proof fn lemma_insert_row_id(t: TableModel, row: RecordModel)
    requires
        next_id_holds(t),
        max_row_id(t.rows) < u64::MAX,
    ensures
        t.next_row_id == max_row_id(t.rows) + 1,
        forall|i: int| 0 <= i < t.rows.len() ==> (#[trigger] t.rows[i]).row_id < t.next_row_id,
        table_after_insert(t, row).rows.last().row_id == t.next_row_id,
        next_id_holds(table_after_insert(t, row)),
{
    lemma_max_row_id_bound(t.rows);
    let t2 = table_after_insert(t, row);
    assert(t2.rows.drop_last() =~= t.rows);
}

proof fn lemma_max_row_id_log(rows: Seq<StoredRow>, log: Seq<LogRow>)
    requires
        rows_match(rows, log),
    ensures
        max_row_id(rows.map_values(|r: StoredRow| r@)) == max_id(log),
    decreases rows.len(),
{
    if rows.len() > 0 {
        let v = rows.map_values(|r: StoredRow| r@);
        assert(v.drop_last() =~= rows.drop_last().map_values(|r: StoredRow| r@));
        assert forall|i: int| 0 <= i < rows.drop_last().len() implies (#[trigger] rows.drop_last()[i]).record.wf()
            && rows.drop_last()[i].row_id == log.drop_last()[i].row_id && rows.drop_last()[i].deleted == log.drop_last()[i].deleted
            && rows.drop_last()[i].record.map() == log.drop_last()[i].record by {
            assert(rows.drop_last()[i] == rows[i] && log.drop_last()[i] == log[i]);
        }
        lemma_max_row_id_log(rows.drop_last(), log.drop_last());
        assert(v.last().row_id == rows.last().row_id);
        assert(rows.last().row_id == log[log.len() - 1].row_id);
    }
}

/// A table made from what its file loads to holds its next row id one past the
/// largest id among its rows, deleted rows included.
pub proof fn lemma_loaded_next_id(file: Option<Seq<u8>>, rows: Seq<StoredRow>, next: RowId)
    requires
        load_spec(file) is Some,
        next == load_spec(file).unwrap().1,
        rows_match(rows, load_spec(file).unwrap().0),
    ensures
        next == next_after(max_row_id(rows.map_values(|r: StoredRow| r@))),
{
    lemma_load_next_id(file);
    lemma_max_row_id_log(rows, load_spec(file).unwrap().0);
}

/// Updating or deleting a row keeps the next id one past the largest.
pub proof fn lemma_change_keeps_next_id(t: TableModel, p: int, row: RecordModel)
    requires
        next_id_holds(t),
        0 <= p < t.rows.len(),
    ensures
        next_id_holds(table_after_update(t, p, row)),
        next_id_holds(table_after_delete(t, p)),
{
    lemma_max_row_id_same_ids(table_after_update(t, p, row).rows, t.rows);
    lemma_max_row_id_same_ids(table_after_delete(t, p).rows, t.rows);
}

/// Indexes that agree with the rows are the only ones that do: two tables with
/// the same schema and rows whose indexes both agree with them have the same
/// indexes.
pub proof fn lemma_consistent_indexes_unique(t1: TableModel, t2: TableModel)
    requires
        table_inv(t1),
        max_row_id(t1.rows) < u64::MAX,
        table_inv(t2),
        max_row_id(t2.rows) < u64::MAX,
        t1.schema == t2.schema,
        t1.rows == t2.rows,
    ensures
        t1.indexes == t2.indexes,
{
    assert forall|f: Seq<char>| t1.indexes.contains_key(f) <==> t2.indexes.contains_key(f) by {
        assert(t1.indexes.contains_key(f) == crate::index::memory::unique_field(t1.schema.fields, f));
        assert(t2.indexes.contains_key(f) == crate::index::memory::unique_field(t2.schema.fields, f));
    }
    assert forall|f: Seq<char>| #[trigger] t1.indexes.contains_key(f) implies t1.indexes[f] == t2.indexes[f] by {
        assert forall|v: ValueModel| t1.indexes[f].contains_key(v) implies t2.indexes[f].contains_key(v)
            && t2.indexes[f][v] == t1.indexes[f][v] by {
            let i = choose|i: int| #[trigger] indexed_row(t1, f, v, i);
            assert(t2.rows[i] == t1.rows[i]);
            assert(t2.indexes[f].contains_key(as_map(t2.rows[i].record)[f]));
        }
        assert forall|v: ValueModel| t2.indexes[f].contains_key(v) implies t1.indexes[f].contains_key(v) by {
            let i = choose|i: int| #[trigger] indexed_row(t2, f, v, i);
            assert(t2.rows[i] == t1.rows[i]);
            assert(t1.indexes[f].contains_key(as_map(t1.rows[i].record)[f]));
        }
        assert(t1.indexes[f] =~= t2.indexes[f]);
    }
    assert(t1.indexes =~= t2.indexes);
}

/// A table opened again, with the same schema, rows and next row id and indexes
/// that agree with its rows, is the same table: it answers every find, insert,
/// update and delete alike.
pub proof fn lemma_reopened_table_same(t1: TableModel, t2: TableModel)
    requires
        table_inv(t1),
        max_row_id(t1.rows) < u64::MAX,
        table_inv(t2),
        max_row_id(t2.rows) < u64::MAX,
        t1.schema == t2.schema,
        t1.rows == t2.rows,
        t1.next_row_id == t2.next_row_id,
        t1.log == t2.log,
    ensures
        t1 == t2,
        forall|filters: RecordModel| find_spec(t1, filters) == find_spec(t2, filters),
{
    lemma_consistent_indexes_unique(t1, t2);
}

/// The id of the first live row that matches the filters, scanning in order.
pub open spec fn scan_find(t: TableModel, filters: RecordModel) -> Option<RowId> {
    match first_match(t.rows, filters, 0) {
        Some(i) => Some(t.rows[i].row_id),
        None => None,
    }
}

proof fn lemma_first_match_found(rows: Seq<StoredRowModel>, filters: RecordModel, k: int, i: int)
    requires
        0 <= k <= i < rows.len(),
        !rows[i].deleted && matches_filters(rows[i].record, filters),
    ensures
        first_match(rows, filters, k) matches Some(j) && k <= j <= i && !rows[j].deleted && matches_filters(rows[j].record, filters),
    decreases i - k,
{
    if k < i && !(!rows[k].deleted && matches_filters(rows[k].record, filters)) {
        lemma_first_match_found(rows, filters, k + 1, i);
    }
}

proof fn lemma_first_match_none(rows: Seq<StoredRowModel>, filters: RecordModel, k: int)
    requires
        0 <= k,
        forall|i: int| k <= i < rows.len() ==> !(!(#[trigger] rows[i]).deleted && matches_filters(rows[i].record, filters)),
    ensures
        first_match(rows, filters, k) is None,
    decreases rows.len() - k,
{
    if k < rows.len() {
        lemma_first_match_none(rows, filters, k + 1);
    }
}

/// On a table whose indexes agree with its rows, a find by the index of a
/// field settles on the same row id as a scan of the rows in order.
pub proof fn lemma_index_find_is_scan(t: TableModel, filters: RecordModel)
    requires
        table_inv(t),
        max_row_id(t.rows) < u64::MAX,
        uses_index_file(t, filters),
    ensures
        find_spec(t, filters) == Ok::<Option<RowId>, Seq<char>>(scan_find(t, filters)),
{
    let f = filters[0].0;
    let v = filters[0].1;
    let idx = t.indexes[f];
    assert forall|r: RecordModel| matches_filters(r, filters) <==> (as_map(r).contains_key(f) && as_map(r)[f] == v) by {
        if as_map(r).contains_key(f) && as_map(r)[f] == v {
            assert forall|i: int| 0 <= i < filters.len() implies as_map(r).contains_key(#[trigger] filters[i].0)
                && as_map(r)[filters[i].0] == filters[i].1 by {
                assert(i == 0);
            }
        }
        if matches_filters(r, filters) {
            assert(as_map(r).contains_key(filters[0].0));
        }
    }
    assert(crate::index::memory::unique_field(t.schema.fields, f));
    if idx.contains_key(v) {
        let i = choose|i: int| #[trigger] indexed_row(t, f, v, i);
        lemma_live_position_found(t.rows, i, 0);
        lemma_first_match_found(t.rows, filters, 0, i);
        let j = first_match(t.rows, filters, 0).unwrap();
        lemma_row_indexed(t, j, f);
    } else {
        assert forall|i: int| 0 <= i < t.rows.len() implies !(!(#[trigger] t.rows[i]).deleted && matches_filters(t.rows[i].record, filters)) by {
            if !t.rows[i].deleted && matches_filters(t.rows[i].record, filters) {
                lemma_row_indexed(t, i, f);
            }
        }
        lemma_first_match_none(t.rows, filters, 0);
    }
}

// ---------------------------------------------------------------------------
// Laws: the table log holds the table, and opening it again gives it back.
// ---------------------------------------------------------------------------

/// The log rows hold the table's rows: the same ids, deleted marks, fields and
/// values, in the same order.
pub open spec fn rows_hold_log(rows: Seq<StoredRowModel>, log: Seq<LogRow>) -> bool {
    &&& rows.len() == log.len()
    &&& forall|i: int| 0 <= i < rows.len() ==> (#[trigger] rows[i]).row_id == log[i].row_id
        && rows[i].deleted == log[i].deleted && as_map(rows[i].record) == log[i].record
}

/// The operations of a table's log (what follows its magic) replay to the
/// table's rows, and the table's next row id follows the largest id they
/// report.
pub open spec fn log_holds(ops: Seq<u8>, t: TableModel) -> bool {
    &&& replay_spec(ops) is Some
    &&& rows_hold_log(t.rows, replay_spec(ops).unwrap().0)
    &&& t.next_row_id == next_after(replay_spec(ops).unwrap().1)
}

proof fn lemma_id_absent(rows: Seq<LogRow>, id: RowId, k: int)
    requires
        0 <= k,
        forall|i: int| k <= i < rows.len() ==> (#[trigger] rows[i]).row_id != id,
    ensures
        id_position(rows, id, k) is None,
    decreases rows.len() - k,
{
    if k < rows.len() {
        lemma_id_absent(rows, id, k + 1);
    }
}

proof fn lemma_id_at(rows: Seq<LogRow>, id: RowId, p: int, k: int)
    requires
        0 <= k <= p < rows.len(),
        rows[p].row_id == id,
        forall|i: int| k <= i < p ==> (#[trigger] rows[i]).row_id != id,
    ensures
        id_position(rows, id, k) == Some(p),
    decreases p - k,
{
    if k < p {
        lemma_id_at(rows, id, p, k + 1);
    }
}

/// Row `p`'s id is found at `p` in a log that holds the table's rows.
proof fn lemma_log_position(ops: Seq<u8>, t: TableModel, p: int)
    requires
        log_holds(ops, t),
        table_consistent(t),
        0 <= p < t.rows.len(),
    ensures
        id_position(replay_spec(ops).unwrap().0, t.rows[p].row_id, 0) == Some(p),
        t.rows[p].row_id <= replay_spec(ops).unwrap().1,
{
    let log = replay_spec(ops).unwrap().0;
    assert forall|i: int| 0 <= i < p implies (#[trigger] log[i]).row_id != t.rows[p].row_id by {
        assert(t.rows[i].row_id != t.rows[p].row_id);
    }
    assert(log[p].row_id == t.rows[p].row_id);
    lemma_id_at(log, t.rows[p].row_id, p, 0);
    lemma_replay_spec_max(ops);
}

/// Appending the insert to the log keeps it holding the table.
pub proof fn lemma_log_after_insert(ops: Seq<u8>, t: TableModel, row: RecordModel)
    requires
        log_holds(ops, t),
        table_inv(t),
        max_row_id(t.rows) < u64::MAX,
        names_sorted(row),
        record_fits(row),
        enc_record(row).len() <= u32::MAX,
    ensures
        log_holds(ops + enc_op(OP_INSERT, t.next_row_id, Some(row)), table_after_insert(t, row)),
{
    let log = replay_spec(ops).unwrap().0;
    let m = replay_spec(ops).unwrap().1;
    let id = t.next_row_id;
    lemma_replay_spec_max(ops);
    assert forall|i: int| 0 <= i < log.len() implies (#[trigger] log[i]).row_id != id by {
        assert(log[i].row_id == t.rows[i].row_id);
    }
    lemma_id_absent(log, id, 0);
    lemma_replay_after_insert(ops, id, row);
    if m != 0 {
        let i = choose|i: int| 0 <= i < log.len() && (#[trigger] log[i]).row_id == m;
        assert(t.rows[i].row_id == m);
    }
    assert(max_with(m, id) == id);
    let t2 = table_after_insert(t, row);
    let log2 = log.push(LogRow { row_id: id, record: as_map(row), deleted: false });
    assert forall|i: int| 0 <= i < t2.rows.len() implies (#[trigger] t2.rows[i]).row_id == log2[i].row_id
        && t2.rows[i].deleted == log2[i].deleted && as_map(t2.rows[i].record) == log2[i].record by {
        if i < t.rows.len() {
            assert(t2.rows[i] == t.rows[i] && log2[i] == log[i]);
        }
    }
}

/// Appending the update of live row `p` to the log keeps it holding the table.
pub proof fn lemma_log_after_update(ops: Seq<u8>, t: TableModel, p: int, row: RecordModel)
    requires
        log_holds(ops, t),
        table_inv(t),
        max_row_id(t.rows) < u64::MAX,
        0 <= p < t.rows.len(),
        !t.rows[p].deleted,
        names_sorted(row),
        record_fits(row),
        enc_record(row).len() <= u32::MAX,
    ensures
        log_holds(ops + enc_op(OP_UPDATE, t.rows[p].row_id, Some(row)), table_after_update(t, p, row)),
{
    let log = replay_spec(ops).unwrap().0;
    let id = t.rows[p].row_id;
    lemma_log_position(ops, t, p);
    lemma_replay_after_update(ops, id, row);
    let t2 = table_after_update(t, p, row);
    let log2 = log.update(p, LogRow { row_id: id, record: as_map(row), deleted: false });
    assert forall|i: int| 0 <= i < t2.rows.len() implies (#[trigger] t2.rows[i]).row_id == log2[i].row_id
        && t2.rows[i].deleted == log2[i].deleted && as_map(t2.rows[i].record) == log2[i].record by {
        if i != p {
            assert(t2.rows[i] == t.rows[i] && log2[i] == log[i]);
        }
    }
}

/// Appending the delete of live row `p` to the log keeps it holding the table.
pub proof fn lemma_log_after_delete(ops: Seq<u8>, t: TableModel, p: int)
    requires
        log_holds(ops, t),
        table_inv(t),
        max_row_id(t.rows) < u64::MAX,
        0 <= p < t.rows.len(),
        !t.rows[p].deleted,
    ensures
        log_holds(ops + enc_op(OP_DELETE, t.rows[p].row_id, None), table_after_delete(t, p)),
{
    let log = replay_spec(ops).unwrap().0;
    let id = t.rows[p].row_id;
    lemma_log_position(ops, t, p);
    lemma_replay_after_delete(ops, id);
    let t2 = table_after_delete(t, p);
    let log2 = log.update(p, LogRow { row_id: id, record: log[p].record, deleted: true });
    assert forall|i: int| 0 <= i < t2.rows.len() implies (#[trigger] t2.rows[i]).row_id == log2[i].row_id
        && t2.rows[i].deleted == log2[i].deleted && as_map(t2.rows[i].record) == log2[i].record by {
        if i != p {
            assert(t2.rows[i] == t.rows[i] && log2[i] == log[i]);
        }
    }
}

/// A table opened from a file that holds the magic and then another table's
/// log has rows with the same ids, so the same largest id.
proof fn lemma_reopen_same_ids(t: TableModel, t2: TableModel)
    requires
        log_holds(t.log, t),
        opened_from(t2, t.schema, Some(table_magic() + t.log)),
    ensures
        max_row_id(t2.rows) == max_row_id(t.rows),
{
    let b = table_magic() + t.log;
    assert(b.take(8) =~= table_magic());
    assert(b.skip(8) =~= t.log);
    assert(starts_with(b, table_magic()));
    assert forall|i: int| 0 <= i < t2.rows.len() implies (#[trigger] t2.rows[i]).row_id == t.rows[i].row_id by {}
    lemma_max_row_id_same_ids(t2.rows, t.rows);
}

/// Opening a table again gives it back: a table whose file holds the magic and
/// then the table's log, opened with the same schema, is the very table; so every
/// find, insert, update and delete answers as before.
pub proof fn lemma_reopen(t: TableModel, t2: TableModel)
    requires
        table_inv(t),
        max_row_id(t.rows) < u64::MAX,
        log_holds(t.log, t),
        forall|i: int| 0 <= i < t.rows.len() ==> names_sorted(#[trigger] t.rows[i].record),
        opened_from(t2, t.schema, Some(table_magic() + t.log)),
        t2.log == opened_ops(Some(table_magic() + t.log), t2.rows),
        table_inv(t2),
    ensures
        t2 == t,
        forall|filters: RecordModel| find_spec(t2, filters) == find_spec(t, filters),
{
    let b = table_magic() + t.log;
    assert(b.take(8) =~= table_magic());
    assert(b.skip(8) =~= t.log);
    assert(starts_with(b, table_magic()));
    let log = replay_spec(t.log).unwrap().0;
    assert(load_spec(Some(b)) == Some((log, next_after(replay_spec(t.log).unwrap().1), false)));
    assert forall|i: int| 0 <= i < t2.rows.len() implies t2.rows[i] == t.rows[i] by {
        lemma_sorted_unique(t2.rows[i].record, t.rows[i].record);
    }
    assert(t2.rows =~= t.rows);
    lemma_reopened_table_same(t2, t);
}

/// Field `i` of the schema is an id or unique field whose value in `row` a live
/// row of the table holds.
pub open spec fn live_conflict_at(t: TableModel, row: RowMap, i: int) -> bool {
    let f = t.schema.fields[i].0;
    &&& t.schema.fields[i].1.is_unique()
    &&& row.contains_key(f)
    &&& exists|j: int| 0 <= j < t.rows.len() && !t.rows[j].deleted && as_map(t.rows[j].record).contains_key(f)
        && #[trigger] as_map(t.rows[j].record)[f] == row[f]
}

/// The first field, from position `i` on in name order, whose value in `row` a
/// live row holds.
pub open spec fn first_live_conflict(t: TableModel, row: RowMap, i: int) -> Option<Seq<char>>
    decreases t.schema.fields.len() - i,
{
    if i < 0 || i >= t.schema.fields.len() {
        None
    } else if live_conflict_at(t, row, i) {
        Some(t.schema.fields[i].0)
    } else {
        first_live_conflict(t, row, i + 1)
    }
}

proof fn lemma_conflict_is_live(t: TableModel, row: RowMap, i: int)
    requires
        table_consistent(t),
    ensures
        first_conflict(t.indexes, t.schema.fields, row, None, i) == first_live_conflict(t, row, i),
    decreases t.schema.fields.len() - i,
{
    if 0 <= i < t.schema.fields.len() {
        let f = t.schema.fields[i].0;
        lemma_sorted_distinct(t.schema.fields);
        lemma_index_of(t.schema.fields, i);
        if crate::index::memory::conflict_at(t.indexes, t.schema.fields, row, None, i) {
            let j = choose|j: int| #[trigger] indexed_row(t, f, row[f], j);
            assert(as_map(t.rows[j].record)[f] == row[f]);
        }
        if live_conflict_at(t, row, i) {
            let j = choose|j: int| 0 <= j < t.rows.len() && !t.rows[j].deleted && as_map(t.rows[j].record).contains_key(f)
                && #[trigger] as_map(t.rows[j].record)[f] == row[f];
            assert(t.indexes.contains_key(f));
            lemma_row_indexed(t, j, f);
        }
        lemma_conflict_is_live(t, row, i + 1);
    }
}

/// What an insert of `values` gives, read off the live rows: the row it would
/// store, or why it is refused; for a duplicate, the first id or unique field,
/// in name order, whose value in that row a live row already holds.
pub open spec fn insert_by_rows(t: TableModel, values: RecordModel) -> core::result::Result<RecordModel, Refusal> {
    let unknown = unknown_of(names_of(values), t.schema.fields);
    if unknown.len() > 0 {
        Err(Refusal::Validation(unknown_message(unknown)))
    } else {
        match normalize_spec(t.schema.fields, as_map(values)) {
            Err(m) => Err(Refusal::Validation(m)),
            Ok(row) => match first_live_conflict(t, as_map(row), 0) {
                Some(f) => Err(Refusal::Unique(duplicate_message(f))),
                None => Ok(row),
            },
        }
    }
}

/// An insert is refused for a duplicate exactly when the row it would store
/// holds, in an id or unique field, a value that a live row holds; the field
/// named is the first such in name order.
pub proof fn lemma_insert_unique_exactly(t: TableModel, values: RecordModel)
    requires
        table_inv(t),
        max_row_id(t.rows) < u64::MAX,
    ensures
        insert_spec(t, values) == insert_by_rows(t, values),
{
    match normalize_spec(t.schema.fields, as_map(values)) {
        Ok(row) => {
            lemma_conflict_is_live(t, as_map(row), 0);
        },
        Err(_) => {},
    }
}

/// The unique values of a deleted row are free again: a row with the same
/// values meets no unique conflict.
pub proof fn lemma_delete_frees_values(t: TableModel, p: int)
    requires
        table_inv(t),
        max_row_id(t.rows) < u64::MAX,
        0 <= p < t.rows.len(),
        !t.rows[p].deleted,
    ensures
        first_conflict(table_after_delete(t, p).indexes, t.schema.fields, as_map(t.rows[p].record), None, 0) is None,
{
    let t2 = table_after_delete(t, p);
    let r = as_map(t.rows[p].record);
    assert forall|k: int| 0 <= k < t.schema.fields.len() implies !crate::index::memory::conflict_at(t2.indexes, t.schema.fields, r, None, k) by {
        let f = t.schema.fields[k].0;
        if t.schema.fields[k].1.is_unique() && r.contains_key(f) && t2.indexes.contains_key(f) {
            lemma_sorted_distinct(t.schema.fields);
            lemma_index_of(t.schema.fields, k);
            lemma_row_indexed(t, p, f);
            assert(t2.indexes[f] == t.indexes[f].remove(r[f]));
        }
    }
    lemma_first_conflict_from(t2.indexes, t.schema.fields, r, None, 0);
}

/// An update that keeps a live row's unique values meets no unique conflict:
/// the values it keeps are held by that very row.
pub proof fn lemma_update_keeps_own_values(t: TableModel, p: int, row: RowMap)
    requires
        table_inv(t),
        max_row_id(t.rows) < u64::MAX,
        0 <= p < t.rows.len(),
        !t.rows[p].deleted,
        forall|f: Seq<char>| #[trigger] t.indexes.contains_key(f) && row.contains_key(f)
            ==> as_map(t.rows[p].record).contains_key(f) && as_map(t.rows[p].record)[f] == row[f],
    ensures
        first_conflict(t.indexes, t.schema.fields, row, Some(t.rows[p].row_id), 0) is None,
{
    let r = as_map(t.rows[p].record);
    assert forall|k: int| 0 <= k < t.schema.fields.len()
        implies !crate::index::memory::conflict_at(t.indexes, t.schema.fields, row, Some(t.rows[p].row_id), k) by {
        let f = t.schema.fields[k].0;
        if t.schema.fields[k].1.is_unique() && row.contains_key(f) && t.indexes.contains_key(f) {
            lemma_sorted_distinct(t.schema.fields);
            lemma_index_of(t.schema.fields, k);
            lemma_row_indexed(t, p, f);
        }
    }
    lemma_first_conflict_from(t.indexes, t.schema.fields, row, Some(t.rows[p].row_id), 0);
}

/// The row an update changes is live, and its new values conflict with no
/// other row.
proof fn lemma_update_target(t: TableModel, filters: RecordModel, values: RecordModel, p: int, row: RecordModel)
    requires
        update_spec(t, filters, values) == Ok::<Option<(int, RecordModel)>, Refusal>(Some((p, row))),
    ensures
        0 <= p < t.rows.len(),
        !t.rows[p].deleted,
        first_conflict(t.indexes, t.schema.fields, as_map(row), Some(t.rows[p].row_id), 0) is None,
{
    let id = find_spec(t, filters)->Ok_0.unwrap();
    if !(filters.len() == 1 && t.indexes.contains_key(filters[0].0)) {
        let i = first_match(t.rows, filters, 0).unwrap();
        lemma_first_match_live(t.rows, filters, 0);
        lemma_live_position_found(t.rows, i, 0);
    }
    lemma_live_position_range(t.rows, id, 0);
}

/// Changing a live row's content, without conflict with other rows, keeps the
/// indexes in agreement with the rows.
proof fn lemma_update_consistent(t: TableModel, p: int, row: RecordModel)
    requires
        table_consistent(t),
        0 <= p < t.rows.len(),
        !t.rows[p].deleted,
        first_conflict(t.indexes, t.schema.fields, as_map(row), Some(t.rows[p].row_id), 0) is None,
    ensures
        table_consistent(table_after_update(t, p, row)),
{
    let t2 = table_after_update(t, p, row);
    let rp = as_map(t.rows[p].record);
    let r = as_map(row);
    let idp = t.rows[p].row_id;
    let mid = after_remove(t.indexes, t.schema.fields, rp, idp);
    assert(t2.indexes == after_insert(mid, t.schema.fields, r, idp));
    assert forall|f: Seq<char>| #[trigger] t2.indexes.contains_key(f) <==> crate::index::memory::unique_field(t2.schema.fields, f) by {
        assert(t2.indexes.contains_key(f) == t.indexes.contains_key(f));
    }
    assert forall|i: int| 0 <= i < t2.rows.len() implies (#[trigger] t2.rows[i]).row_id < t2.next_row_id by {
        assert(t2.rows[i].row_id == t.rows[i].row_id);
    }
    assert forall|i: int, j: int| 0 <= i < j < t2.rows.len() implies (#[trigger] t2.rows[i]).row_id != (#[trigger] t2.rows[j]).row_id by {
        assert(t2.rows[i].row_id == t.rows[i].row_id && t2.rows[j].row_id == t.rows[j].row_id);
    }
    assert forall|f: Seq<char>, v: ValueModel| t2.indexes.contains_key(f) && #[trigger] t2.indexes[f].contains_key(v)
        implies exists|i: int| #[trigger] indexed_row(t2, f, v, i) by {
        assert(t.indexes.contains_key(f));
        if r.contains_key(f) && v == r[f] {
            assert(t2.rows[p].record == row);
            assert(indexed_row(t2, f, v, p));
        } else {
            if rp.contains_key(f) {
                lemma_row_indexed(t, p, f);
            }
            assert(t.indexes[f].contains_key(v));
            let i = choose|i: int| #[trigger] indexed_row(t, f, v, i);
            if i == p {
                assert(rp.contains_key(f) && rp[f] == v);
            }
            assert(t2.rows[i] == t.rows[i]);
            assert(indexed_row(t2, f, v, i));
        }
    }
    assert forall|i: int, f: Seq<char>| #![trigger t2.rows[i], t2.indexes[f]] 0 <= i < t2.rows.len() && !t2.rows[i].deleted
        && t2.indexes.contains_key(f) && as_map(t2.rows[i].record).contains_key(f)
        implies t2.indexes[f].contains_key(as_map(t2.rows[i].record)[f])
            && t2.indexes[f][as_map(t2.rows[i].record)[f]] == t2.rows[i].row_id by {
        if i == p {
            assert(t2.rows[p].record == row);
        } else {
            assert(t2.rows[i] == t.rows[i]);
            let x = as_map(t.rows[i].record)[f];
            assert(t.indexes[f].contains_key(x) && t.indexes[f][x] == t.rows[i].row_id);
            assert(t.rows[i].row_id != idp) by {
                if i < p {
                    assert(t.rows[i].row_id != t.rows[p].row_id);
                } else {
                    assert(t.rows[p].row_id != t.rows[i].row_id);
                }
            }
            if rp.contains_key(f) {
                lemma_row_indexed(t, p, f);
            }
            if r.contains_key(f) {
                lemma_no_conflict(t.indexes, t.schema.fields, r, Some(idp), f);
            }
        }
    }
}

/// After an update, the row is found by the new value of any of its id or
/// unique fields, no longer by an old value that changed, and the indexes still
/// agree with the rows.
pub proof fn lemma_find_after_update(t: TableModel, filters: RecordModel, values: RecordModel, p: int, row: RecordModel, f: Seq<char>)
    requires
        table_inv(t),
        max_row_id(t.rows) < u64::MAX,
        update_spec(t, filters, values) == Ok::<Option<(int, RecordModel)>, Refusal>(Some((p, row))),
        crate::index::memory::unique_field(t.schema.fields, f),
        as_map(row).contains_key(f),
    ensures
        find_spec(table_after_update(t, p, row), seq![(f, as_map(row)[f])]) == Ok::<Option<RowId>, Seq<char>>(Some(t.rows[p].row_id)),
        table_after_update(t, p, row).rows[p].record == row,
        as_map(t.rows[p].record).contains_key(f) && as_map(t.rows[p].record)[f] != as_map(row)[f] ==> find_spec(
            table_after_update(t, p, row),
            seq![(f, as_map(t.rows[p].record)[f])],
        ) == Ok::<Option<RowId>, Seq<char>>(None),
        table_consistent(table_after_update(t, p, row)),
{
    lemma_update_target(t, filters, values, p, row);
    lemma_update_consistent(t, p, row);
    let t2 = table_after_update(t, p, row);
    let v = as_map(row)[f];
    let idp = t.rows[p].row_id;
    let rp = as_map(t.rows[p].record);
    let mid = after_remove(t.indexes, t.schema.fields, rp, idp);
    assert(t.indexes.contains_key(f));
    assert(t2.indexes[f] == mid[f].insert(v, idp));
    assert(t2.rows[p].row_id == idp);
    lemma_live_position_distinct(t2.rows, p);
    lemma_find_by_index(t2, f, v);
    if rp.contains_key(f) && rp[f] != v {
        lemma_row_indexed(t, p, f);
        assert(mid[f] == t.indexes[f].remove(rp[f]));
        lemma_find_by_index(t2, f, rp[f]);
    }
}

/// A table with no rows agrees with its empty indexes.
pub proof fn lemma_new_table_consistent(schema: ModelModel, indexes: IndexModel, next_row_id: RowId, log: Seq<u8>)
    requires
        names_sorted(schema.fields),
        indexes == crate::index::memory::schema_indexes(schema.fields),
    ensures
        table_consistent(TableModel { schema, rows: Seq::empty(), indexes, next_row_id, log }),
{
}

/// The table with one more row, live or deleted, under a fresh id, and the
/// indexes that a rebuild gives for it.
pub open spec fn with_rebuilt_row(t: TableModel, r: StoredRowModel) -> TableModel {
    TableModel {
        schema: t.schema,
        rows: t.rows.push(r),
        indexes: if r.deleted {
            t.indexes
        } else {
            after_insert(t.indexes, t.schema.fields, as_map(r.record), r.row_id)
        },
        next_row_id: t.next_row_id,
        log: t.log,
    }
}

proof fn lemma_push_consistent(t: TableModel, r: StoredRowModel)
    requires
        table_consistent(t),
        r.row_id < t.next_row_id,
        forall|i: int| 0 <= i < t.rows.len() ==> (#[trigger] t.rows[i]).row_id != r.row_id,
        !r.deleted ==> first_conflict(t.indexes, t.schema.fields, as_map(r.record), None, 0) is None,
    ensures
        table_consistent(with_rebuilt_row(t, r)),
{
    let t2 = with_rebuilt_row(t, r);
    let n = t.rows.len() as int;
    let rr = as_map(r.record);
    assert(t2.rows[n] == r);
    assert forall|f: Seq<char>| #[trigger] t2.indexes.contains_key(f) <==> crate::index::memory::unique_field(t2.schema.fields, f) by {
        assert(t2.indexes.contains_key(f) == t.indexes.contains_key(f));
    }
    assert forall|i: int| 0 <= i < t2.rows.len() implies (#[trigger] t2.rows[i]).row_id < t2.next_row_id by {
        if i < n {
            assert(t2.rows[i] == t.rows[i]);
        }
    }
    assert forall|i: int, j: int| 0 <= i < j < t2.rows.len() implies (#[trigger] t2.rows[i]).row_id != (#[trigger] t2.rows[j]).row_id by {
        assert(t2.rows[i] == t.rows[i]);
        if j < n {
            assert(t2.rows[j] == t.rows[j]);
        }
    }
    assert forall|f: Seq<char>, v: ValueModel| t2.indexes.contains_key(f) && #[trigger] t2.indexes[f].contains_key(v)
        implies exists|i: int| #[trigger] indexed_row(t2, f, v, i) by {
        if !r.deleted && crate::index::memory::unique_field(t.schema.fields, f) && rr.contains_key(f) && v == rr[f] {
            assert(indexed_row(t2, f, v, n));
        } else {
            assert(t.indexes[f].contains_key(v));
            let i = choose|i: int| #[trigger] indexed_row(t, f, v, i);
            assert(t2.rows[i] == t.rows[i]);
            assert(indexed_row(t2, f, v, i));
        }
    }
    assert forall|i: int, f: Seq<char>| #![trigger t2.rows[i], t2.indexes[f]] 0 <= i < t2.rows.len() && !t2.rows[i].deleted
        && t2.indexes.contains_key(f) && as_map(t2.rows[i].record).contains_key(f)
        implies t2.indexes[f].contains_key(as_map(t2.rows[i].record)[f])
            && t2.indexes[f][as_map(t2.rows[i].record)[f]] == t2.rows[i].row_id by {
        if i < n {
            assert(t2.rows[i] == t.rows[i]);
            let x = as_map(t.rows[i].record)[f];
            assert(t.indexes[f].contains_key(x) && t.indexes[f][x] == t.rows[i].row_id);
            if !r.deleted && rr.contains_key(f) {
                lemma_no_conflict(t.indexes, t.schema.fields, rr, None, f);
            }
        }
    }
}

/// Indexes rebuilt from the rows agree with the rows, when the rows have
/// distinct ids below the next row id.
pub proof fn lemma_build_consistent(schema: ModelModel, rows: Seq<StoredRowModel>, next_row_id: RowId, log: Seq<u8>)
    requires
        names_sorted(schema.fields),
        crate::index::memory::build_spec(schema.fields, rows) is Ok,
        forall|i: int| 0 <= i < rows.len() ==> (#[trigger] rows[i]).row_id < next_row_id,
        forall|i: int, j: int| 0 <= i < j < rows.len() ==> (#[trigger] rows[i]).row_id != (#[trigger] rows[j]).row_id,
    ensures
        table_consistent(TableModel {
            schema,
            rows,
            indexes: crate::index::memory::build_spec(schema.fields, rows)->Ok_0,
            next_row_id,
            log,
        }),
    decreases rows.len(),
{
    if rows.len() == 0 {
        lemma_new_table_consistent(schema, crate::index::memory::schema_indexes(schema.fields), next_row_id, log);
        assert(rows =~= Seq::<StoredRowModel>::empty());
    } else {
        let init = rows.drop_last();
        let last = rows.last();
        assert forall|i: int| 0 <= i < init.len() implies (#[trigger] init[i]).row_id < next_row_id by {
            assert(init[i] == rows[i]);
        }
        assert forall|i: int, j: int| 0 <= i < j < init.len() implies (#[trigger] init[i]).row_id != (#[trigger] init[j]).row_id by {
            assert(init[i] == rows[i] && init[j] == rows[j]);
        }
        lemma_build_consistent(schema, init, next_row_id, log);
        let t = TableModel {
            schema,
            rows: init,
            indexes: crate::index::memory::build_spec(schema.fields, init)->Ok_0,
            next_row_id,
            log,
        };
        assert forall|i: int| 0 <= i < t.rows.len() implies (#[trigger] t.rows[i]).row_id != last.row_id by {
            assert(init[i] == rows[i]);
            assert(rows[i].row_id != rows[rows.len() - 1].row_id);
        }
        assert(rows[rows.len() - 1].row_id < next_row_id);
        lemma_push_consistent(t, last);
        assert(init.push(last) =~= rows);
    }
}

// ---------------------------------------------------------------------------
// Laws: what a find selects.
// ---------------------------------------------------------------------------

/// A find that accepts its filters settles as a scan of the rows in order does.
proof fn lemma_find_is_scan(t: TableModel, filters: RecordModel)
    requires
        table_inv(t),
        max_row_id(t.rows) < u64::MAX,
        find_spec(t, filters) is Ok,
    ensures
        find_spec(t, filters) == match first_match(t.rows, filters, 0) {
            Some(i) => Ok::<Option<RowId>, Seq<char>>(Some(t.rows[i].row_id)),
            None => Ok::<Option<RowId>, Seq<char>>(None),
        },
{
    if uses_index_file(t, filters) {
        lemma_index_find_is_scan(t, filters);
    }
}

/// The row a find settles on (the row that `find` returns and that an update or
/// a delete acts on) is live and holds, for every filter, exactly the filtered
/// value in the filtered field.
pub proof fn lemma_found_row_holds_filters(t: TableModel, filters: RecordModel, id: RowId)
    requires
        table_inv(t),
        max_row_id(t.rows) < u64::MAX,
        find_spec(t, filters) == Ok::<Option<RowId>, Seq<char>>(Some(id)),
    ensures
        live_position(t.rows, id, 0) is Some,
        !t.rows[live_position(t.rows, id, 0).unwrap()].deleted,
        t.rows[live_position(t.rows, id, 0).unwrap()].row_id == id,
        forall|i: int| 0 <= i < filters.len() ==> as_map(t.rows[live_position(t.rows, id, 0).unwrap()].record).contains_key(
            #[trigger] filters[i].0,
        ) && as_map(t.rows[live_position(t.rows, id, 0).unwrap()].record)[filters[i].0] == filters[i].1,
{
    lemma_find_is_scan(t, filters);
    lemma_first_match_live(t.rows, filters, 0);
    let j = first_match(t.rows, filters, 0).unwrap();
    lemma_first_match_holds(t.rows, filters, 0);
    lemma_live_position_distinct(t.rows, j);
}

proof fn lemma_first_match_holds(rows: Seq<StoredRowModel>, filters: RecordModel, k: int)
    requires
        0 <= k,
        first_match(rows, filters, k) is Some,
    ensures
        matches_filters(rows[first_match(rows, filters, k).unwrap()].record, filters),
    decreases rows.len() - k,
{
    if k < rows.len() && !(!rows[k].deleted && matches_filters(rows[k].record, filters)) {
        lemma_first_match_holds(rows, filters, k + 1);
    }
}

/// When a live row holds every filtered value and no live row before it does, a
/// find that accepts the filters settles on that row.
pub proof fn lemma_find_first_holding(t: TableModel, filters: RecordModel, j: int)
    requires
        table_inv(t),
        max_row_id(t.rows) < u64::MAX,
        find_spec(t, filters) is Ok,
        0 <= j < t.rows.len(),
        !t.rows[j].deleted,
        forall|i: int| 0 <= i < filters.len() ==> as_map(t.rows[j].record).contains_key(#[trigger] filters[i].0)
            && as_map(t.rows[j].record)[filters[i].0] == filters[i].1,
        forall|k: int| 0 <= k < j && !(#[trigger] t.rows[k]).deleted ==> exists|i: int| 0 <= i < filters.len()
            && !(as_map(t.rows[k].record).contains_key(#[trigger] filters[i].0) && as_map(t.rows[k].record)[filters[i].0]
            == filters[i].1),
    ensures
        find_spec(t, filters) == Ok::<Option<RowId>, Seq<char>>(Some(t.rows[j].row_id)),
{
    lemma_find_is_scan(t, filters);
    assert(matches_filters(t.rows[j].record, filters));
    lemma_first_match_found(t.rows, filters, 0, j);
    let m = first_match(t.rows, filters, 0).unwrap();
    lemma_first_match_holds(t.rows, filters, 0);
    if m < j {
        let i = choose|i: int| 0 <= i < filters.len() && !(as_map(t.rows[m].record).contains_key(#[trigger] filters[i].0)
            && as_map(t.rows[m].record)[filters[i].0] == filters[i].1);
        assert(as_map(t.rows[m].record).contains_key(filters[i].0));
    }
}

/// A find that accepts its filters and settles on no row leaves no live row
/// that holds every filtered value.
pub proof fn lemma_find_none_holds_none(t: TableModel, filters: RecordModel, j: int)
    requires
        table_inv(t),
        max_row_id(t.rows) < u64::MAX,
        find_spec(t, filters) == Ok::<Option<RowId>, Seq<char>>(None),
        0 <= j < t.rows.len(),
        !t.rows[j].deleted,
    ensures
        exists|i: int| 0 <= i < filters.len() && !(as_map(t.rows[j].record).contains_key(#[trigger] filters[i].0)
            && as_map(t.rows[j].record)[filters[i].0] == filters[i].1),
{
    lemma_find_is_scan(t, filters);
    if matches_filters(t.rows[j].record, filters) {
        lemma_first_match_found(t.rows, filters, 0, j);
    }
}

// ---------------------------------------------------------------------------
// Laws: what an insert stores, and what it refuses.
// ---------------------------------------------------------------------------

proof fn lemma_normalize_fields(fields: FieldsModel, vals: RowMap, n: int)
    requires
        0 <= n <= fields.len(),
    ensures
        normalize_upto(fields, vals, n) is Ok ==> normalize_upto(fields, vals, n)->Ok_0.len() == n && forall|k: int|
            0 <= k < n ==> (#[trigger] normalize_upto(fields, vals, n)->Ok_0[k]).0 == fields[k].0
                && field_result(fields[k].0, fields[k].1, vals) == Ok::<ValueModel, Seq<char>>(
                normalize_upto(fields, vals, n)->Ok_0[k].1,
            ),
        (forall|k: int| 0 <= k < n ==> (#[trigger] field_result(fields[k].0, fields[k].1, vals)) is Ok) ==> normalize_upto(
            fields,
            vals,
            n,
        ) is Ok,
    decreases n,
{
    if n > 0 {
        lemma_normalize_fields(fields, vals, n - 1);
        if normalize_upto(fields, vals, n) is Ok {
            let r = normalize_upto(fields, vals, n - 1)->Ok_0;
            let r2 = normalize_upto(fields, vals, n)->Ok_0;
            assert forall|k: int| 0 <= k < n implies (#[trigger] r2[k]).0 == fields[k].0
                && field_result(fields[k].0, fields[k].1, vals) == Ok::<ValueModel, Seq<char>>(r2[k].1) by {
                if k < n - 1 {
                    assert(r2[k] == r[k]);
                }
            }
        }
        if forall|k: int| 0 <= k < n ==> (#[trigger] field_result(fields[k].0, fields[k].1, vals)) is Ok {
            assert(field_result(fields[n - 1].0, fields[n - 1].1, vals) is Ok);
        }
    }
}

/// The row an insert stores holds every field of the schema, in the schema's
/// order: the given value where one is given, else the field's default, else
/// `Null`; and each such value is one the field accepts: never `Null` in a
/// required field, an `Int` only in an `Int` field and within its range, a
/// string only in a `String` field, never a `Bool`.
pub proof fn lemma_insert_stores_values(t: TableModel, values: RecordModel, row: RecordModel)
    requires
        insert_spec(t, values) == Ok::<RecordModel, Refusal>(row),
    ensures
        forall|i: int| 0 <= i < values.len() ==> has_name(t.schema.fields, #[trigger] values[i].0),
        row.len() == t.schema.fields.len(),
        forall|k: int| #![trigger t.schema.fields[k]] 0 <= k < t.schema.fields.len() ==> {
            let f = t.schema.fields[k].0;
            let field = t.schema.fields[k].1;
            let v = if as_map(values).contains_key(f) {
                as_map(values)[f]
            } else if field.default is Some {
                field.default.unwrap()
            } else {
                ValueModel::Null
            };
            &&& row[k].0 == f
            &&& row[k].1 == v
            &&& v == ValueModel::Null ==> !field.required
            &&& v matches ValueModel::Int(x) ==> field.data_type == DataType::Int && (field.range matches Some((lo, hi)) ==> lo <= x
                <= hi)
            &&& v matches ValueModel::Str(_) ==> field.data_type == DataType::String
            &&& !(v is Bool)
        },
{
    let fields = t.schema.fields;
    let vals = as_map(values);
    lemma_no_unknown(names_of(values), fields);
    assert forall|i: int| 0 <= i < values.len() implies has_name(fields, #[trigger] values[i].0) by {
        assert(names_of(values)[i] == values[i].0);
    }
    lemma_normalize_fields(fields, vals, fields.len() as int);
    assert forall|k: int| #![trigger fields[k]] 0 <= k < fields.len() implies field_result(fields[k].0, fields[k].1, vals)
        == Ok::<ValueModel, Seq<char>>(row[k].1) && row[k].0 == fields[k].0 by {
        assert(row[k] == normalize_upto(fields, vals, fields.len() as int)->Ok_0[k]);
    }
}

/// An insert whose fields are all of the schema, and whose every field gets a
/// value the field accepts (the given value, else the default, else `Null`),
/// passes validation: it is stored, or refused only as a duplicate.
pub proof fn lemma_insert_accepts_values(t: TableModel, values: RecordModel)
    requires
        unknown_of(names_of(values), t.schema.fields).len() == 0,
        forall|k: int| #![trigger t.schema.fields[k]] 0 <= k < t.schema.fields.len() ==> {
            let f = t.schema.fields[k].0;
            let field = t.schema.fields[k].1;
            let v = if as_map(values).contains_key(f) {
                as_map(values)[f]
            } else if field.default is Some {
                field.default.unwrap()
            } else {
                ValueModel::Null
            };
            &&& v == ValueModel::Null ==> !field.required
            &&& v matches ValueModel::Int(x) ==> field.data_type == DataType::Int && (field.range matches Some((lo, hi)) ==> lo <= x
                <= hi)
            &&& v matches ValueModel::Str(_) ==> field.data_type == DataType::String
            &&& !(v is Bool)
        },
    ensures
        normalize_spec(t.schema.fields, as_map(values)) is Ok,
        insert_spec(t, values) is Ok || insert_spec(t, values) matches Err(Refusal::Unique(_)),
{
    let fields = t.schema.fields;
    let vals = as_map(values);
    assert forall|k: int| 0 <= k < fields.len() implies (#[trigger] field_result(fields[k].0, fields[k].1, vals)) is Ok by {
        assert(fields[k] == fields[k]);
    }
    lemma_normalize_fields(fields, vals, fields.len() as int);
}

/// A `Null` given for a required field is refused as invalid: no row is stored.
pub proof fn lemma_required_null_refused(t: TableModel, values: RecordModel, k: int)
    requires
        0 <= k < t.schema.fields.len(),
        t.schema.fields[k].1.required,
        as_map(values).contains_key(t.schema.fields[k].0),
        as_map(values)[t.schema.fields[k].0] == ValueModel::Null,
    ensures
        insert_spec(t, values) matches Err(Refusal::Validation(_)),
{
    let fields = t.schema.fields;
    let vals = as_map(values);
    lemma_normalize_fields(fields, vals, fields.len() as int);
    if normalize_spec(fields, vals) is Ok {
        let row = normalize_spec(fields, vals)->Ok_0;
        assert(field_result(fields[k].0, fields[k].1, vals) == Ok::<ValueModel, Seq<char>>(row[k].1));
    }
}

// ---------------------------------------------------------------------------
// Laws: what an update stores.
// ---------------------------------------------------------------------------

proof fn lemma_no_unknown(names: Seq<Seq<char>>, fields: FieldsModel)
    requires
        unknown_of(names, fields).len() == 0,
    ensures
        forall|j: int| 0 <= j < names.len() ==> has_name(fields, #[trigger] names[j]),
    decreases names.len(),
{
    if names.len() > 0 {
        if !has_name(fields, names.last()) {
            assert(unknown_of(names, fields).len() > 0);
        }
        lemma_no_unknown(names.drop_last(), fields);
        assert forall|j: int| 0 <= j < names.len() implies has_name(fields, #[trigger] names[j]) by {
            if j < names.len() - 1 {
                assert(names.drop_last()[j] == names[j]);
            }
        }
    }
}

/// The row stored for fields whose values are given in `vals`: each field of the
/// schema holds its value in `vals`.
proof fn lemma_stored_at(fields: FieldsModel, vals: RowMap, row: RecordModel, f: Seq<char>)
    requires
        names_sorted(fields),
        normalize_spec(fields, vals) == Ok::<RecordModel, Seq<char>>(row),
        has_name(fields, f),
        vals.contains_key(f),
    ensures
        as_map(row).contains_key(f),
        as_map(row)[f] == vals[f],
{
    lemma_normalize_fields(fields, vals, fields.len() as int);
    lemma_sorted_distinct(fields);
    let k = choose|k: int| 0 <= k < fields.len() && #[trigger] fields[k].0 == f;
    assert(row[k].0 == f);
    assert(field_result(fields[k].0, fields[k].1, vals) == Ok::<ValueModel, Seq<char>>(row[k].1));
    assert(crate::names::keys_distinct(row)) by {
        assert forall|a: int, b: int| 0 <= a < b < row.len() implies #[trigger] row[a].0 != #[trigger] row[b].0 by {
            assert(row[a].0 == fields[a].0 && row[b].0 == fields[b].0);
        }
    }
    lemma_index_of(row, k);
}

/// An update stores, in every field it is given, exactly the given value, and
/// keeps in every other field of the schema the value the row held.
pub proof fn lemma_update_sets_values(t: TableModel, p: int, values: RecordModel, row: RecordModel)
    requires
        names_sorted(t.schema.fields),
        names_sorted(values),
        0 <= p < t.rows.len(),
        update_at_spec(t, p, values) == Ok::<RecordModel, Refusal>(row),
    ensures
        forall|i: int| 0 <= i < values.len() ==> as_map(row).contains_key(#[trigger] values[i].0)
            && as_map(row)[values[i].0] == values[i].1,
        forall|f: Seq<char>| has_name(t.schema.fields, f) && !as_map(values).contains_key(f) && #[trigger] as_map(
            t.rows[p].record,
        ).contains_key(f) ==> as_map(row).contains_key(f) && as_map(row)[f] == as_map(t.rows[p].record)[f],
        forall|i: int| 0 <= i < values.len() ==> has_name(t.schema.fields, #[trigger] values[i].0),
        row.len() == t.schema.fields.len(),
        forall|k: int| #![trigger t.schema.fields[k]] 0 <= k < t.schema.fields.len() ==> {
            let field = t.schema.fields[k].1;
            let v = row[k].1;
            &&& row[k].0 == t.schema.fields[k].0
            &&& v == ValueModel::Null ==> !field.required
            &&& v matches ValueModel::Int(x) ==> field.data_type == DataType::Int && (field.range matches Some((lo, hi)) ==> lo <= x
                <= hi)
            &&& v matches ValueModel::Str(_) ==> field.data_type == DataType::String
            &&& !(v is Bool)
        },
{
    let fields = t.schema.fields;
    let old_map = as_map(t.rows[p].record);
    let vals = as_map(values);
    let merged = old_map.union_prefer_right(vals);
    lemma_no_unknown(names_of(values), fields);
    lemma_sorted_distinct(values);
    assert forall|i: int| 0 <= i < values.len() implies as_map(row).contains_key(#[trigger] values[i].0)
        && as_map(row)[values[i].0] == values[i].1 by {
        assert(names_of(values)[i] == values[i].0);
        lemma_index_of(values, i);
        lemma_stored_at(fields, merged, row, values[i].0);
    }
    assert forall|f: Seq<char>| has_name(fields, f) && !vals.contains_key(f) && #[trigger] old_map.contains_key(f)
        implies as_map(row).contains_key(f) && as_map(row)[f] == old_map[f] by {
        lemma_stored_at(fields, merged, row, f);
    }
    assert forall|i: int| 0 <= i < values.len() implies has_name(fields, #[trigger] values[i].0) by {
        assert(names_of(values)[i] == values[i].0);
    }
    lemma_normalize_fields(fields, merged, fields.len() as int);
    assert forall|k: int| #![trigger fields[k]] 0 <= k < fields.len() implies field_result(fields[k].0, fields[k].1, merged)
        == Ok::<ValueModel, Seq<char>>(row[k].1) && row[k].0 == fields[k].0 by {
        assert(row[k] == normalize_upto(fields, merged, fields.len() as int)->Ok_0[k]);
    }
}

// ---------------------------------------------------------------------------
// Laws: what an insert refuses as a duplicate.
// ---------------------------------------------------------------------------

proof fn lemma_first_conflict_some(idx: IndexModel, fields: FieldsModel, row: RowMap, ignore: Option<RowId>, i: int)
    requires
        0 <= i,
        first_conflict(idx, fields, row, ignore, i) is Some,
    ensures
        exists|k: int| i <= k < fields.len() && #[trigger] crate::index::memory::conflict_at(idx, fields, row, ignore, k),
    decreases fields.len() - i,
{
    if i < fields.len() && !crate::index::memory::conflict_at(idx, fields, row, ignore, i) {
        lemma_first_conflict_some(idx, fields, row, ignore, i + 1);
    }
}

/// A row an insert stores shares, in no id or unique field, its value with a
/// live row.
pub proof fn lemma_insert_stored_unique(t: TableModel, values: RecordModel, row: RecordModel)
    requires
        table_inv(t),
        max_row_id(t.rows) < u64::MAX,
        insert_spec(t, values) == Ok::<RecordModel, Refusal>(row),
    ensures
        forall|k: int, j: int| #![trigger t.schema.fields[k], t.rows[j]] 0 <= k < t.schema.fields.len() && t.schema.fields[k].1.is_unique()
            && 0 <= j < t.rows.len() && !t.rows[j].deleted && as_map(t.rows[j].record).contains_key(t.schema.fields[k].0)
            && as_map(row).contains_key(t.schema.fields[k].0) ==> as_map(t.rows[j].record)[t.schema.fields[k].0] != as_map(
            row,
        )[t.schema.fields[k].0],
{
    let fields = t.schema.fields;
    lemma_sorted_distinct(fields);
    assert forall|k: int, j: int| #![trigger fields[k], t.rows[j]] 0 <= k < fields.len() && fields[k].1.is_unique()
        && 0 <= j < t.rows.len() && !t.rows[j].deleted && as_map(t.rows[j].record).contains_key(fields[k].0)
        && as_map(row).contains_key(fields[k].0) implies as_map(t.rows[j].record)[fields[k].0] != as_map(row)[fields[k].0] by {
        let f = fields[k].0;
        lemma_index_of(fields, k);
        assert(crate::index::memory::unique_field(fields, f));
        lemma_row_indexed(t, j, f);
        lemma_first_conflict_none(t.indexes, fields, as_map(row), None, 0, k);
    }
}

/// An insert refused as a duplicate would have stored a row that shares, in an
/// id or unique field, its value with a live row.
pub proof fn lemma_insert_duplicate_is_held(t: TableModel, values: RecordModel)
    requires
        table_inv(t),
        max_row_id(t.rows) < u64::MAX,
        insert_spec(t, values) matches Err(Refusal::Unique(_)),
    ensures
        normalize_spec(t.schema.fields, as_map(values)) is Ok,
        exists|k: int, j: int| #![trigger t.schema.fields[k], t.rows[j]] 0 <= k < t.schema.fields.len() && t.schema.fields[k].1.is_unique()
            && 0 <= j < t.rows.len() && !t.rows[j].deleted && as_map(t.rows[j].record).contains_key(t.schema.fields[k].0)
            && as_map(normalize_spec(t.schema.fields, as_map(values))->Ok_0).contains_key(t.schema.fields[k].0)
            && as_map(t.rows[j].record)[t.schema.fields[k].0] == as_map(normalize_spec(t.schema.fields, as_map(values))->Ok_0)[t.schema.fields[k].0],
{
    let fields = t.schema.fields;
    let row = as_map(normalize_spec(fields, as_map(values))->Ok_0);
    lemma_first_conflict_some(t.indexes, fields, row, None, 0);
    let k = choose|k: int| 0 <= k < fields.len() && #[trigger] crate::index::memory::conflict_at(t.indexes, fields, row, None, k);
    let f = fields[k].0;
    let j = choose|j: int| #[trigger] indexed_row(t, f, row[f], j);
    assert(t.rows[j] == t.rows[j] && fields[k] == fields[k]);
}

/// A row an update stores shares, in no id or unique field, its value with any
/// other live row.
pub proof fn lemma_update_stored_unique(t: TableModel, p: int, values: RecordModel, row: RecordModel)
    requires
        table_inv(t),
        max_row_id(t.rows) < u64::MAX,
        0 <= p < t.rows.len(),
        update_at_spec(t, p, values) == Ok::<RecordModel, Refusal>(row),
    ensures
        forall|k: int, j: int| #![trigger t.schema.fields[k], t.rows[j]] 0 <= k < t.schema.fields.len() && t.schema.fields[k].1.is_unique()
            && 0 <= j < t.rows.len() && j != p && !t.rows[j].deleted && as_map(t.rows[j].record).contains_key(t.schema.fields[k].0)
            && as_map(row).contains_key(t.schema.fields[k].0) ==> as_map(t.rows[j].record)[t.schema.fields[k].0] != as_map(
            row,
        )[t.schema.fields[k].0],
{
    let fields = t.schema.fields;
    lemma_sorted_distinct(fields);
    assert forall|k: int, j: int| #![trigger fields[k], t.rows[j]] 0 <= k < fields.len() && fields[k].1.is_unique()
        && 0 <= j < t.rows.len() && j != p && !t.rows[j].deleted && as_map(t.rows[j].record).contains_key(fields[k].0)
        && as_map(row).contains_key(fields[k].0) implies as_map(t.rows[j].record)[fields[k].0] != as_map(row)[fields[k].0] by {
        let f = fields[k].0;
        lemma_index_of(fields, k);
        assert(crate::index::memory::unique_field(fields, f));
        lemma_row_indexed(t, j, f);
        lemma_first_conflict_none(t.indexes, fields, as_map(row), Some(t.rows[p].row_id), 0, k);
        if j < p {
            assert(t.rows[j].row_id != t.rows[p].row_id);
        } else {
            assert(t.rows[p].row_id != t.rows[j].row_id);
        }
    }
}

} // verus!
