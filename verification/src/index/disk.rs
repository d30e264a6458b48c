use crate::engine::{RowId, StoredRow};
use crate::error::{CrustDbError, Result};
use crate::index::file::{
    entries_fit, header_fits, index_file_of, index_path, key_fits, key_message, least_unfit_key, load_error, load_index, load_spec, missing_index_message, save_error,
    save_index, value_rows, values_distinct, PAGE_SIZE,
};
use crate::index::key::enc_key;
use crate::order::bytes_lt;
use crate::storage::record::{str_fits, too_large_message};
use crate::index::memory::{build_spec, duplicate_message, entry_models, from_entries_spec, row_models, unique_names, IndexModel, TableIndexes};
use crate::names::{as_map, has_name, keys_distinct};
use crate::schema::ModelSchema;
use crate::value::{Value, ValueModel};
use vstd::prelude::*;

verus! {

/// The entries read from each index file, field by field; none where a file is
/// missing or does not read back.
pub open spec fn loaded_entries(
    model: Seq<char>,
    names: Seq<Seq<char>>,
    files: Seq<Option<Seq<u8>>>,
) -> Option<Seq<(Seq<char>, Seq<(ValueModel, RowId)>)>>
    decreases names.len(),
{
    if names.len() == 0 || files.len() != names.len() {
        if names.len() == 0 && files.len() == 0 {
            Some(Seq::empty())
        } else {
            None
        }
    } else {
        match loaded_entries(model, names.drop_last(), files.drop_last()) {
            Some(done) => match files.last() {
                Some(bytes) => match load_spec(bytes, model, names.last()) {
                    Some(es) => Some(done.push((names.last(), es))),
                    None => None,
                },
                None => None,
            },
            None => None,
        }
    }
}

/// The indexes of a model read back from its index files, or none where they
/// cannot be.
pub open spec fn load_model_spec(
    model: Seq<char>,
    schema: crate::schema::ModelModel,
    files: Seq<Option<Seq<u8>>>,
) -> Option<IndexModel> {
    match loaded_entries(model, unique_names(schema.fields), files) {
        Some(input) => match from_entries_spec(schema.fields, input) {
            Ok(m) => Some(m),
            Err(_) => None,
        },
        None => None,
    }
}

/// Why reading the index files fails at the first one that is missing or does
/// not read back; none when each reads back.
pub open spec fn first_load_error(model: Seq<char>, names: Seq<Seq<char>>, files: Seq<Option<Seq<u8>>>) -> Option<Seq<char>>
    decreases names.len(),
{
    if names.len() == 0 || files.len() == 0 {
        None
    } else {
        match files[0] {
            None => Some(missing_index_message(model, names[0])),
            Some(b) => match load_spec(b, model, names[0]) {
                None => Some(load_error(b, model, names[0])),
                Some(_) => first_load_error(model, names.drop_first(), files.drop_first()),
            },
        }
    }
}

/// Why the indexes of a model cannot be read back from its index files.
pub open spec fn load_model_error(model: Seq<char>, schema: crate::schema::ModelModel, files: Seq<Option<Seq<u8>>>) -> Seq<char> {
    let names = unique_names(schema.fields);
    if names.len() != files.len() {
        "index file list does not match the indexed fields"@
    } else {
        match first_load_error(model, names, files) {
            Some(m) => m,
            None => match loaded_entries(model, names, files) {
                Some(input) => match from_entries_spec(schema.fields, input) {
                    Err(m) => m,
                    Ok(_) => Seq::empty(),
                },
                None => Seq::empty(),
            },
        }
    }
}

pub open spec fn file_views(files: Seq<Option<Vec<u8>>>) -> Seq<Option<Seq<u8>>> {
    files.map_values(|f: Option<Vec<u8>>| match f {
        Some(b) => Some(b@),
        None => None,
    })
}

/// Reads the indexes of a model from its index files: `files` holds, for each
/// field that `TableIndexes::indexed_field_names` lists, in that order, the
/// bytes of its index file where there is one.
pub fn load_model(model_name: &str, schema: &ModelSchema, files: &[Option<Vec<u8>>]) -> (r: Result<TableIndexes>)
    requires
        schema.wf(),
    ensures
        r is Ok == load_model_spec(model_name@, schema@, file_views(files@)) is Some,
        r is Ok ==> r.unwrap().wf() && Some(r.unwrap()@) == load_model_spec(model_name@, schema@, file_views(files@)),
        r is Err ==> r matches Err(CrustDbError::StorageFormat(_)),
        r matches Err(CrustDbError::StorageFormat(m)) ==> m@ == load_model_error(model_name@, schema@, file_views(files@)),
{
    let names = TableIndexes::indexed_field_names(schema);
    let ghost nv = names@.map_values(|s: String| s@);
    let ghost fv = file_views(files@);
    if names.len() != files.len() {
        proof {
            assert(nv.len() != fv.len());
            if nv.len() == 0 {
                assert(fv.len() != 0);
            }
        }
        return Err(CrustDbError::format("index file list does not match the indexed fields"));
    }
    let mut entries_by_field: Vec<(String, Vec<(Value, RowId)>)> = Vec::new();
    let mut i: usize = 0;
    assert(nv.take(0) =~= Seq::<Seq<char>>::empty());
    assert(fv.take(0) =~= Seq::<Option<Seq<u8>>>::empty());
    assert(nv.skip(0) =~= nv);
    assert(fv.skip(0) =~= fv);
    assert(entry_models(entries_by_field@) =~= Seq::<(Seq<char>, Seq<(ValueModel, RowId)>)>::empty());
    while i < names.len()
        invariant
            nv == names@.map_values(|s: String| s@),
            nv == unique_names(schema@.fields),
            fv == file_views(files@),
            nv.len() == fv.len(),
            i <= nv.len(),
            loaded_entries(model_name@, nv.take(i as int), fv.take(i as int)) == Some(entry_models(entries_by_field@)),
            first_load_error(model_name@, nv, fv) == first_load_error(model_name@, nv.skip(i as int), fv.skip(i as int)),
        decreases nv.len() - i,
    {
        let ghost done = entry_models(entries_by_field@);
        proof {
            assert(nv.take(i + 1).drop_last() =~= nv.take(i as int));
            assert(fv.take(i + 1).drop_last() =~= fv.take(i as int));
            assert(nv.take(i + 1).last() == nv[i as int]);
            assert(fv.take(i + 1).last() == fv[i as int]);
            assert(nv.skip(i as int)[0] == nv[i as int]);
            assert(fv.skip(i as int)[0] == fv[i as int]);
            assert(nv.skip(i as int).drop_first() =~= nv.skip(i + 1));
            assert(fv.skip(i as int).drop_first() =~= fv.skip(i + 1));
        }
        let file = match &files[i] {
            Some(b) => Some(b.as_slice()),
            None => None,
        };
        let loaded = match load_index(file, model_name, names[i].as_str()) {
            Ok(es) => es,
            Err(e) => {
                proof {
                    lemma_loaded_fail(model_name@, nv, fv, (i + 1) as nat);
                }
                return Err(e);
            },
        };
        let ghost x = (nv[i as int], value_rows(loaded@));
        entries_by_field.push((names[i].clone(), loaded));
        proof {
            assert(entry_models(entries_by_field@) =~= done.push(x));
        }
        i = i + 1;
    }
    proof {
        assert(nv.take(i as int) =~= nv);
        assert(fv.take(i as int) =~= fv);
        assert(nv.skip(i as int) =~= Seq::<Seq<char>>::empty());
    }
    TableIndexes::from_entries(schema, entries_by_field.as_slice())
}

proof fn lemma_loaded_fail(model: Seq<char>, names: Seq<Seq<char>>, files: Seq<Option<Seq<u8>>>, k: nat)
    requires
        names.len() == files.len(),
        1 <= k <= names.len(),
        loaded_entries(model, names.take(k as int), files.take(k as int)) is None,
    ensures
        loaded_entries(model, names, files) is None,
    decreases names.len() - k,
{
    if k < names.len() {
        assert(names.take((k + 1) as int).drop_last() =~= names.take(k as int));
        assert(files.take((k + 1) as int).drop_last() =~= files.take(k as int));
        lemma_loaded_fail(model, names, files, k + 1);
    } else {
        assert(names.take(k as int) =~= names);
        assert(files.take(k as int) =~= files);
    }
}

/// The indexes of a model: read back from its index files when the manifest is
/// clean and they read back; otherwise built again from the rows, with `true`
/// to say that the files must be written again.
pub fn load_or_rebuild_model(
    clean: bool,
    model_name: &str,
    schema: &ModelSchema,
    files: &[Option<Vec<u8>>],
    rows: &[StoredRow],
) -> (r: Result<(TableIndexes, bool)>)
    requires
        schema.wf(),
        forall|j: int| 0 <= j < rows@.len() ==> (#[trigger] rows@[j]).record.wf(),
    ensures
        clean && load_model_spec(model_name@, schema@, file_views(files@)) is Some ==> (r is Ok && !r.unwrap().1
            && r.unwrap().0.wf() && Some(r.unwrap().0@) == load_model_spec(model_name@, schema@, file_views(files@))),
        !(clean && load_model_spec(model_name@, schema@, file_views(files@)) is Some) ==> match build_spec(schema@.fields, row_models(rows@)) {
            Ok(m) => r is Ok && r.unwrap().1 && r.unwrap().0.wf() && r.unwrap().0@ == m,
            Err(f) => r matches Err(CrustDbError::UniqueConstraint(m)) && m@ == duplicate_message(f),
        },
{
    if clean {
        match load_model(model_name, schema, files) {
            Ok(indexes) => {
                return Ok((indexes, false));
            },
            Err(_) => {},
        }
    }
    let indexes = TableIndexes::build(schema, rows)?;
    Ok((indexes, true))
}

/// The index of `name` among the indexes, empty when there is none.
pub open spec fn field_index(indexes: IndexModel, name: Seq<char>) -> Map<ValueModel, RowId> {
    if indexes.contains_key(name) { indexes[name] } else { Map::<ValueModel, RowId>::empty() }
}

/// Every key of the index fits a page on its own.
pub open spec fn index_keys_fit(idx: Map<ValueModel, RowId>) -> bool {
    forall|v: ValueModel| #[trigger] idx.contains_key(v) ==> enc_key(v).len() + 23 <= PAGE_SIZE
}

/// The index of `field` can be saved as an index file of `model`.
pub open spec fn saves(model: Seq<char>, field: Seq<char>, idx: Map<ValueModel, RowId>) -> bool {
    index_keys_fit(idx) && header_fits(model, field)
}

/// `k` is the least of the keys of the index that do not fit a page.
pub open spec fn least_unfit_in(idx: Map<ValueModel, RowId>, k: Seq<u8>) -> bool {
    &&& !key_fits(k)
    &&& exists|v: ValueModel| #[trigger] idx.contains_key(v) && enc_key(v) == k
    &&& forall|v: ValueModel| #[trigger] idx.contains_key(v) && !key_fits(enc_key(v)) ==> enc_key(v) == k || bytes_lt(k, enc_key(v))
}

/// `m` says why the index of `field` cannot be saved: the least key that is
/// too long, else a name too long for a string, else names too long for the
/// header page.
pub open spec fn save_index_error(m: Seq<char>, model: Seq<char>, field: Seq<char>, idx: Map<ValueModel, RowId>) -> bool {
    if !index_keys_fit(idx) {
        exists|k: Seq<u8>| #[trigger] least_unfit_in(idx, k) && m == key_message(k)
    } else if !str_fits(model) || !str_fits(field) {
        m == too_large_message("string length"@)
    } else {
        m == "index header is too large for a page"@
    }
}

/// The index of `names[i]` is the first that cannot be saved.
pub open spec fn first_unsaved(model: Seq<char>, names: Seq<Seq<char>>, indexes: IndexModel, i: int) -> bool {
    &&& 0 <= i < names.len()
    &&& !saves(model, names[i], field_index(indexes, names[i]))
    &&& forall|j: int| 0 <= j < i ==> saves(model, #[trigger] names[j], field_index(indexes, names[j]))
}

/// Entries with distinct values that make the map `idx` can be saved just when
/// the index can, and fail for the same reason.
proof fn lemma_entries_save(e: Seq<(ValueModel, RowId)>, idx: Map<ValueModel, RowId>, model: Seq<char>, field: Seq<char>, m: Seq<char>)
    requires
        keys_distinct(e),
        as_map(e) == idx,
    ensures
        values_distinct(e),
        entries_fit(e) == index_keys_fit(idx),
        values_distinct(e) && !(entries_fit(e) && header_fits(model, field)) ==> (save_error(m, model, field, e)
            == save_index_error(m, model, field, idx)),
{
    assert forall|i: int, j: int| 0 <= i < j < e.len() implies (#[trigger] e[i]).0 != (#[trigger] e[j]).0 by {
        assert(e[i].0 != e[j].0);
    }
    if entries_fit(e) {
        assert forall|v: ValueModel| #[trigger] idx.contains_key(v) implies enc_key(v).len() + 23 <= PAGE_SIZE by {
            assert(has_name(e, v));
            let i = choose|i: int| 0 <= i < e.len() && #[trigger] e[i].0 == v;
            assert(enc_key(e[i].0).len() + 23 <= PAGE_SIZE);
        }
    }
    assert forall|k: Seq<u8>| least_unfit_key(e, k) == least_unfit_in(idx, k) by {
        if least_unfit_key(e, k) {
            let i = choose|i: int| 0 <= i < e.len() && enc_key((#[trigger] e[i]).0) == k;
            assert(has_name(e, e[i].0));
            assert(idx.contains_key(e[i].0));
            assert forall|v: ValueModel| #[trigger] idx.contains_key(v) && !key_fits(enc_key(v)) implies enc_key(v) == k
                || bytes_lt(k, enc_key(v)) by {
                assert(has_name(e, v));
                let j = choose|j: int| 0 <= j < e.len() && #[trigger] e[j].0 == v;
                assert(enc_key(e[j].0) == enc_key(v));
            }
        }
        if least_unfit_in(idx, k) {
            let v = choose|v: ValueModel| #[trigger] idx.contains_key(v) && enc_key(v) == k;
            assert(has_name(e, v));
            let i = choose|i: int| 0 <= i < e.len() && #[trigger] e[i].0 == v;
            assert(enc_key(e[i].0) == k);
            assert forall|j: int| 0 <= j < e.len() && !key_fits(enc_key((#[trigger] e[j]).0)) implies enc_key(e[j].0) == k
                || bytes_lt(k, enc_key(e[j].0)) by {
                assert(e[j].0 == e[j].0);
                assert(has_name(e, e[j].0));
                assert(idx.contains_key(e[j].0));
            }
        }
    }
    if index_keys_fit(idx) {
        assert forall|i: int| 0 <= i < e.len() implies enc_key((#[trigger] e[i]).0).len() + 23 <= PAGE_SIZE by {
            assert(e[i].0 == e[i].0);
            assert(has_name(e, e[i].0));
            assert(idx.contains_key(e[i].0));
        }
    }
}

/// The index files of a model: for each indexed field, its path and its bytes.
pub fn save_model(model_name: &str, schema: &ModelSchema, indexes: &TableIndexes) -> (r: Result<Vec<(String, Vec<u8>)>>)
    requires
        schema.wf(),
        indexes.wf(),
    ensures
        r is Ok ==> r.unwrap()@.len() == unique_names(schema@.fields).len(),
        r is Ok ==> forall|i: int| 0 <= i < r.unwrap()@.len() ==> {
            let name = #[trigger] unique_names(schema@.fields)[i];
            &&& r.unwrap()@[i].0@ == "indexes/"@ + model_name@ + "/"@ + name + ".idx"@
            &&& exists|e: Seq<(ValueModel, RowId)>| index_file_of(r.unwrap()@[i].1@, model_name@, name, e)
                && keys_distinct(e)
                && as_map(e) == (if indexes@.contains_key(name) { indexes@[name] } else { Map::<ValueModel, RowId>::empty() })
        },
        r is Ok <==> forall|i: int| 0 <= i < unique_names(schema@.fields).len()
            ==> saves(model_name@, #[trigger] unique_names(schema@.fields)[i], field_index(indexes@, unique_names(schema@.fields)[i])),
        r is Err ==> r matches Err(CrustDbError::StorageFormat(_)),
        r matches Err(CrustDbError::StorageFormat(m)) ==> exists|i: int| first_unsaved(model_name@, unique_names(schema@.fields), indexes@, i)
            && save_index_error(m@, model_name@, unique_names(schema@.fields)[i], field_index(indexes@, unique_names(schema@.fields)[i])),
{
    let names = TableIndexes::indexed_field_names(schema);
    let ghost nv = names@.map_values(|s: String| s@);
    let mut out: Vec<(String, Vec<u8>)> = Vec::new();
    let mut i: usize = 0;
    while i < names.len()
        invariant
            indexes.wf(),
            nv == names@.map_values(|s: String| s@),
            nv == unique_names(schema@.fields),
            i <= nv.len(),
            out@.len() == i,
            forall|j: int| 0 <= j < i ==> {
                let name = #[trigger] nv[j];
                &&& out@[j].0@ == "indexes/"@ + model_name@ + "/"@ + name + ".idx"@
                &&& exists|e: Seq<(ValueModel, RowId)>| index_file_of(out@[j].1@, model_name@, name, e)
                    && keys_distinct(e)
                    && as_map(e) == (if indexes@.contains_key(name) { indexes@[name] } else { Map::<ValueModel, RowId>::empty() })
            },
            forall|j: int| 0 <= j < i ==> saves(model_name@, #[trigger] nv[j], field_index(indexes@, nv[j])),
        decreases nv.len() - i,
    {
        let name = names[i].as_str();
        let entries = indexes.entries_for_field(name);
        proof {
            lemma_entries_save(value_rows(entries@), field_index(indexes@, nv[i as int]), model_name@, nv[i as int], Seq::empty());
            assert(value_rows(entries@) =~= entries@.map_values(|e: (Value, RowId)| (e.0@, e.1)));
        }
        let saved = save_index(model_name, name, entries.as_slice());
        let bytes = match saved {
            Ok(b) => b,
            Err(e) => {
                proof {
                    let ev = value_rows(entries@);
                    let idx = field_index(indexes@, nv[i as int]);
                    assert(!saves(model_name@, nv[i as int], idx));
                    assert(first_unsaved(model_name@, nv, indexes@, i as int));
                    if let CrustDbError::StorageFormat(m) = &e {
                        lemma_entries_save(ev, idx, model_name@, nv[i as int], m@);
                        assert(save_index_error(m@, model_name@, nv[i as int], idx));
                    }
                }
                return Err(e);
            },
        };
        let path = index_path(model_name, name);
        proof {
            let e = value_rows(entries@);
            assert(index_file_of(bytes@, model_name@, nv[i as int], e));
        }
        out.push((path, bytes));
        i = i + 1;
    }
    assert forall|j: int| 0 <= j < out@.len() implies {
        let name = #[trigger] unique_names(schema@.fields)[j];
        &&& out@[j].0@ == "indexes/"@ + model_name@ + "/"@ + name + ".idx"@
        &&& exists|e: Seq<(ValueModel, RowId)>| index_file_of(out@[j].1@, model_name@, name, e)
            && keys_distinct(e)
            && as_map(e) == (if indexes@.contains_key(name) { indexes@[name] } else { Map::<ValueModel, RowId>::empty() })
    } by {
        assert(nv[j] == unique_names(schema@.fields)[j]);
    }
    Ok(out)
}

/// What the indexes of one model are made from: its name, schema, index files
/// (as for `load_model`) and rows.
pub struct ModelIndexInput<'a> {
    pub name: &'a str,
    pub schema: &'a ModelSchema,
    pub files: &'a [Option<Vec<u8>>],
    pub rows: &'a [StoredRow],
}

pub open spec fn input_ok(m: ModelIndexInput) -> bool {
    &&& m.schema.wf()
    &&& forall|j: int| 0 <= j < m.rows@.len() ==> (#[trigger] m.rows@[j]).record.wf()
}

pub open spec fn loads(m: ModelIndexInput) -> bool {
    load_model_spec(m.name@, m.schema@, file_views(m.files@)) is Some
}

/// The indexes of `models[i]` are the first that cannot be built from the rows.
pub open spec fn first_unbuilt(models: Seq<ModelIndexInput>, i: int) -> bool {
    &&& 0 <= i < models.len()
    &&& build_spec(models[i].schema@.fields, row_models(models[i].rows@)) is Err
    &&& forall|j: int| 0 <= j < i ==> build_spec((#[trigger] models[j]).schema@.fields, row_models(models[j].rows@)) is Ok
}

/// The indexes of all models: all read back from their files when the manifest
/// is clean and every model's files read back; otherwise all built again from
/// the rows, with `true` to say that the files must be written again.
pub fn load_or_rebuild_all(clean: bool, models: &[ModelIndexInput]) -> (r: Result<(Vec<TableIndexes>, bool)>)
    requires
        forall|i: int| 0 <= i < models@.len() ==> input_ok(#[trigger] models@[i]),
    ensures
        r is Ok ==> r.unwrap().0@.len() == models@.len()
            && forall|i: int| 0 <= i < models@.len() ==> (#[trigger] r.unwrap().0@[i]).wf(),
        clean && (forall|i: int| 0 <= i < models@.len() ==> loads(#[trigger] models@[i])) ==> (r is Ok && !r.unwrap().1
            && forall|i: int| 0 <= i < models@.len() ==> Some((#[trigger] r.unwrap().0@[i])@) == load_model_spec(
                models@[i].name@,
                models@[i].schema@,
                file_views(models@[i].files@),
            )),
        !(clean && (forall|i: int| 0 <= i < models@.len() ==> loads(#[trigger] models@[i]))) ==> (
            (forall|i: int| 0 <= i < models@.len() ==> build_spec((#[trigger] models@[i]).schema@.fields, row_models(models@[i].rows@)) is Ok)
            ==> (r is Ok && r.unwrap().1 && forall|i: int| 0 <= i < models@.len() ==> Ok::<IndexModel, Seq<char>>((#[trigger] r.unwrap().0@[i])@)
                == build_spec(models@[i].schema@.fields, row_models(models@[i].rows@)))),
        !(clean && (forall|i: int| 0 <= i < models@.len() ==> loads(#[trigger] models@[i]))) ==> (
            !(forall|i: int| 0 <= i < models@.len() ==> build_spec((#[trigger] models@[i]).schema@.fields, row_models(models@[i].rows@)) is Ok)
            ==> r matches Err(CrustDbError::UniqueConstraint(_))),
        r matches Err(CrustDbError::UniqueConstraint(m)) ==> exists|i: int| #[trigger] first_unbuilt(models@, i)
            && (build_spec(models@[i].schema@.fields, row_models(models@[i].rows@)) matches Err(f) && m@ == duplicate_message(f)),
{
    if clean {
        let mut loaded: Vec<TableIndexes> = Vec::new();
        let mut i: usize = 0;
        let mut ok = true;
        while i < models.len()
            invariant
                forall|j: int| 0 <= j < models@.len() ==> input_ok(#[trigger] models@[j]),
                i <= models@.len(),
                ok ==> loaded@.len() == i,
                ok ==> forall|j: int| 0 <= j < i ==> (#[trigger] loaded@[j]).wf() && Some(loaded@[j]@) == load_model_spec(
                    models@[j].name@,
                    models@[j].schema@,
                    file_views(models@[j].files@),
                ),
                ok ==> forall|j: int| 0 <= j < i ==> loads(#[trigger] models@[j]),
                !ok ==> !(forall|j: int| 0 <= j < models@.len() ==> loads(#[trigger] models@[j])),
            decreases models@.len() - i,
        {
            let m = &models[i];
            assert(input_ok(models@[i as int]));
            match load_model(m.name, m.schema, m.files) {
                Ok(indexes) => {
                    if ok {
                        loaded.push(indexes);
                    }
                },
                Err(_) => {
                    ok = false;
                    assert(!loads(models@[i as int]));
                },
            }
            i = i + 1;
        }
        if ok {
            return Ok((loaded, false));
        }
    }
    let mut built: Vec<TableIndexes> = Vec::new();
    let mut i: usize = 0;
    while i < models.len()
        invariant
            forall|j: int| 0 <= j < models@.len() ==> input_ok(#[trigger] models@[j]),
            !(clean && (forall|j: int| 0 <= j < models@.len() ==> loads(#[trigger] models@[j]))),
            i <= models@.len(),
            built@.len() == i,
            forall|j: int| 0 <= j < i ==> (#[trigger] built@[j]).wf() && Ok::<IndexModel, Seq<char>>(built@[j]@)
                == build_spec(models@[j].schema@.fields, row_models(models@[j].rows@)),
        decreases models@.len() - i,
    {
        let m = &models[i];
        assert(input_ok(models@[i as int]));
        let indexes = match TableIndexes::build(m.schema, m.rows) {
            Ok(x) => x,
            Err(e) => {
                assert(build_spec(models@[i as int].schema@.fields, row_models(models@[i as int].rows@)) is Err);
                assert forall|j: int| 0 <= j < i implies build_spec((#[trigger] models@[j]).schema@.fields, row_models(models@[j].rows@)) is Ok by {
                    assert(Ok::<IndexModel, Seq<char>>(built@[j]@) == build_spec(models@[j].schema@.fields, row_models(models@[j].rows@)));
                }
                assert(first_unbuilt(models@, i as int));
                return Err(e);
            },
        };
        built.push(indexes);
        i = i + 1;
    }
    assert forall|j: int| 0 <= j < models@.len() implies build_spec((#[trigger] models@[j]).schema@.fields, row_models(models@[j].rows@)) is Ok by {
        assert(Ok::<IndexModel, Seq<char>>(built@[j]@) == build_spec(models@[j].schema@.fields, row_models(models@[j].rows@)));
    }
    Ok((built, true))
}

} // verus!
