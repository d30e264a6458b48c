use crate::engine::{RowId, StoredRow, StoredRowModel};
use crate::error::{join, CrustDbError, Result};
use crate::names::{
    as_map, has_name, keys_distinct, lemma_as_map_push, lemma_as_map_update, lemma_index_of,
    lemma_sorted_distinct, lemma_sorted_update, value_of, NameMap,
};
use crate::schema::{FieldModel, ModelSchema};
use crate::storage::record::Record;
use crate::value::{Duplicate, Value, ValueModel};
use vstd::prelude::*;

verus! {

/// An exact-match index on one field: each indexed value and the row that holds it.
#[derive(Clone, Debug, PartialEq, Eq)]
pub struct FieldIndex {
    entries: Vec<(Value, RowId)>,
}

impl View for FieldIndex {
    type V = Map<ValueModel, RowId>;

    open spec fn view(&self) -> Map<ValueModel, RowId> {
        as_map(self.pairs())
    }
}

impl FieldIndex {
    /// The entries as (value content, row id), in storage order.
    pub closed spec fn pairs(&self) -> Seq<(ValueModel, RowId)> {
        self.entries@.map_values(|e: (Value, RowId)| (e.0@, e.1))
    }

    pub open spec fn wf(&self) -> bool {
        keys_distinct(self.pairs())
    }

    pub fn new() -> (r: Self)
        ensures
            r.wf(),
            r@ == Map::<ValueModel, RowId>::empty(),
            r.pairs() == Seq::<(ValueModel, RowId)>::empty(),
    {
        let r = FieldIndex { entries: Vec::new() };
        assert(r.pairs() =~= Seq::<(ValueModel, RowId)>::empty());
        assert(r@ =~= Map::<ValueModel, RowId>::empty());
        r
    }

    pub fn len(&self) -> (r: usize)
        requires
            self.wf(),
        ensures
            r == self.pairs().len(),
    {
        self.entries.len()
    }

    /// Where `value` is held, if it is.
    fn find(&self, value: &Value) -> (r: Option<usize>)
        requires
            self.wf(),
        ensures
            r is Some ==> r.unwrap() < self.pairs().len() && self.pairs()[r.unwrap() as int].0 == value@,
            r is None ==> !has_name(self.pairs(), value@),
    {
        let mut i: usize = 0;
        while i < self.entries.len()
            invariant
                i <= self.pairs().len(),
                self.pairs().len() == self.entries@.len(),
                forall|j: int| 0 <= j < i ==> (#[trigger] self.pairs()[j]).0 != value@,
            decreases self.entries@.len() - i,
        {
            if self.entries[i].0.same(value) {
                return Some(i);
            }
            i = i + 1;
        }
        None
    }

    /// The row that holds `value`.
    pub fn get(&self, value: &Value) -> (r: Option<RowId>)
        requires
            self.wf(),
        ensures
            r == (if self@.contains_key(value@) { Some(self@[value@]) } else { None::<RowId> }),
    {
        match self.find(value) {
            Some(i) => {
                proof { lemma_index_of(self.pairs(), i as int); }
                Some(self.entries[i].1)
            },
            None => None,
        }
    }

    /// Records that `row_id` holds `value`; says whether the value was held before.
    pub fn insert(&mut self, value: Value, row_id: RowId) -> (r: bool)
        requires
            old(self).wf(),
        ensures
            final(self).wf(),
            final(self)@ == old(self)@.insert(value@, row_id),
            r == old(self)@.contains_key(value@),
    {
        let ghost old_pairs = self.pairs();
        let ghost vv = value@;
        match self.find(&value) {
            Some(i) => {
                self.entries.set(i, (value, row_id));
                proof {
                    assert(self.pairs() =~= old_pairs.update(i as int, (vv, row_id)));
                    assert forall|a: int, b: int| 0 <= a < b < self.pairs().len() implies #[trigger] self.pairs()[a].0 != #[trigger] self.pairs()[b].0 by {
                        assert(old_pairs[a].0 != old_pairs[b].0);
                    }
                    lemma_index_of(old_pairs, i as int);
                    assert forall|k: ValueModel| #[trigger] self@.contains_key(k) == as_map(old_pairs).insert(vv, row_id).contains_key(k) by {
                        if has_name(self.pairs(), k) {
                            let j = choose|j: int| 0 <= j < self.pairs().len() && #[trigger] self.pairs()[j].0 == k;
                            assert(old_pairs[j].0 == k);
                        }
                        if has_name(old_pairs, k) {
                            let j = choose|j: int| 0 <= j < old_pairs.len() && #[trigger] old_pairs[j].0 == k;
                            assert(self.pairs()[j].0 == k);
                        }
                    }
                    assert forall|k: ValueModel| #[trigger] self@.contains_key(k) implies self@[k] == as_map(old_pairs).insert(vv, row_id)[k] by {
                        let j = choose|j: int| 0 <= j < self.pairs().len() && #[trigger] self.pairs()[j].0 == k;
                        lemma_index_of(self.pairs(), j);
                        if j != i {
                            lemma_index_of(old_pairs, j);
                        }
                    }
                    assert(self@ =~= as_map(old_pairs).insert(vv, row_id));
                }
                true
            },
            None => {
                self.entries.push((value, row_id));
                proof {
                    assert(self.pairs() =~= old_pairs.push((vv, row_id)));
                    lemma_as_map_push(old_pairs, vv, row_id);
                }
                false
            },
        }
    }

    /// Forgets `value`.
    pub fn remove(&mut self, value: &Value)
        requires
            old(self).wf(),
        ensures
            final(self).wf(),
            final(self)@ == old(self)@.remove(value@),
    {
        let ghost old_pairs = self.pairs();
        match self.find(value) {
            Some(i) => {
                self.entries.remove(i);
                proof {
                    assert(self.pairs() =~= old_pairs.remove(i as int));
                    assert forall|a: int, b: int| 0 <= a < b < self.pairs().len() implies #[trigger] self.pairs()[a].0 != #[trigger] self.pairs()[b].0 by {
                        let oa = if a < i { a } else { a + 1 };
                        let ob = if b < i { b } else { b + 1 };
                        assert(self.pairs()[a] == old_pairs[oa] && self.pairs()[b] == old_pairs[ob]);
                        assert(old_pairs[oa].0 != old_pairs[ob].0);
                    }
                    assert forall|k: ValueModel| #[trigger] self@.contains_key(k) == as_map(old_pairs).remove(value@).contains_key(k) by {
                        if has_name(self.pairs(), k) {
                            let j = choose|j: int| 0 <= j < self.pairs().len() && #[trigger] self.pairs()[j].0 == k;
                            let oj = if j < i { j } else { j + 1 };
                            assert(old_pairs[oj].0 == k);
                            assert(old_pairs[oj].0 != old_pairs[i as int].0);
                        }
                        if has_name(old_pairs, k) && k != value@ {
                            let j = choose|j: int| 0 <= j < old_pairs.len() && #[trigger] old_pairs[j].0 == k;
                            if j < i {
                                assert(self.pairs()[j].0 == k);
                            } else {
                                assert(self.pairs()[j - 1].0 == k);
                            }
                        }
                    }
                    assert forall|k: ValueModel| #[trigger] self@.contains_key(k) implies self@[k] == as_map(old_pairs).remove(value@)[k] by {
                        let j = choose|j: int| 0 <= j < self.pairs().len() && #[trigger] self.pairs()[j].0 == k;
                        lemma_index_of(self.pairs(), j);
                        let oj = if j < i { j } else { j + 1 };
                        lemma_index_of(old_pairs, oj);
                    }
                    assert(self@ =~= as_map(old_pairs).remove(value@));
                }
            },
            None => {
                assert(self@ =~= old(self)@.remove(value@));
            },
        }
    }

    /// A copy of the entries, each value with its row.
    pub fn entries(&self) -> (r: Vec<(Value, RowId)>)
        requires
            self.wf(),
        ensures
            r@.map_values(|e: (Value, RowId)| (e.0@, e.1)) == self.pairs(),
            keys_distinct(self.pairs()),
            as_map(self.pairs()) == self@,
    {
        let mut out: Vec<(Value, RowId)> = Vec::new();
        let mut i: usize = 0;
        while i < self.entries.len()
            invariant
                i <= self.entries@.len(),
                self.pairs().len() == self.entries@.len(),
                out@.len() == i,
                forall|j: int| 0 <= j < i ==> ((#[trigger] out@[j]).0@, out@[j].1) == self.pairs()[j],
            decreases self.entries@.len() - i,
        {
            out.push((self.entries[i].0.duplicate(), self.entries[i].1));
            i = i + 1;
        }
        assert(out@.map_values(|e: (Value, RowId)| (e.0@, e.1)) =~= self.pairs());
        out
    }
}


/// The content of a table's indexes: for each indexed field, its value-to-row map.
pub type IndexModel = Map<Seq<char>, Map<ValueModel, RowId>>;

/// The fields of a schema, in name order.
pub type FieldsModel = Seq<(Seq<char>, FieldModel)>;

/// A record read as a map from field names to values.
pub type RowMap = Map<Seq<char>, ValueModel>;

/// Whether `f` is an id or unique field of the schema.
pub open spec fn unique_field(fields: FieldsModel, f: Seq<char>) -> bool {
    has_name(fields, f) && value_of(fields, f).is_unique()
}

/// The indexes of a schema before any row: one empty index per id or unique field.
pub open spec fn schema_indexes(fields: FieldsModel) -> IndexModel {
    Map::new(|f: Seq<char>| unique_field(fields, f), |f: Seq<char>| Map::<ValueModel, RowId>::empty())
}

/// The indexes after `row` is recorded under `id`.
pub open spec fn after_insert(idx: IndexModel, fields: FieldsModel, row: RowMap, id: RowId) -> IndexModel {
    Map::new(
        |f: Seq<char>| idx.contains_key(f),
        |f: Seq<char>| if unique_field(fields, f) && row.contains_key(f) {
            idx[f].insert(row[f], id)
        } else {
            idx[f]
        },
    )
}

/// The indexes after the entries of `row` that point at `id` are dropped.
pub open spec fn after_remove(idx: IndexModel, fields: FieldsModel, row: RowMap, id: RowId) -> IndexModel {
    Map::new(
        |f: Seq<char>| idx.contains_key(f),
        |f: Seq<char>| if unique_field(fields, f) && row.contains_key(f) && idx[f].contains_key(row[f])
            && idx[f][row[f]] == id {
            idx[f].remove(row[f])
        } else {
            idx[f]
        },
    )
}

/// The `i`-th field of the schema is unique and `row`'s value for it is held by
/// another row than `ignore`.
pub open spec fn conflict_at(idx: IndexModel, fields: FieldsModel, row: RowMap, ignore: Option<RowId>, i: int) -> bool {
    let f = fields[i].0;
    &&& fields[i].1.is_unique()
    &&& row.contains_key(f)
    &&& idx.contains_key(f)
    &&& idx[f].contains_key(row[f])
    &&& ignore != Some(idx[f][row[f]])
}

/// The first field, from position `i` on in name order, at which `row` conflicts.
pub open spec fn first_conflict(idx: IndexModel, fields: FieldsModel, row: RowMap, ignore: Option<RowId>, i: int) -> Option<Seq<char>>
    decreases fields.len() - i,
{
    if i < 0 || i >= fields.len() {
        None
    } else if conflict_at(idx, fields, row, ignore, i) {
        Some(fields[i].0)
    } else {
        first_conflict(idx, fields, row, ignore, i + 1)
    }
}

pub open spec fn duplicate_message(f: Seq<char>) -> Seq<char> {
    "Duplicate value for unique field: "@ + f
}

/// Indexing the live rows one after another, refusing the first duplicate: the
/// indexes, or the field on which a duplicate came.
pub open spec fn build_spec(fields: FieldsModel, rows: Seq<StoredRowModel>) -> core::result::Result<IndexModel, Seq<char>>
    decreases rows.len(),
{
    if rows.len() == 0 {
        Ok(schema_indexes(fields))
    } else {
        match build_spec(fields, rows.drop_last()) {
            Ok(idx) => {
                let r = rows.last();
                if r.deleted {
                    Ok(idx)
                } else {
                    match first_conflict(idx, fields, as_map(r.record), None, 0) {
                        Some(f) => Err(f),
                        None => Ok(after_insert(idx, fields, as_map(r.record), r.row_id)),
                    }
                }
            },
            Err(f) => Err(f),
        }
    }
}

/// The names of the id and unique fields, in name order.
pub open spec fn unique_names(fields: FieldsModel) -> Seq<Seq<char>>
    decreases fields.len(),
{
    if fields.len() == 0 {
        Seq::empty()
    } else if fields.last().1.is_unique() {
        unique_names(fields.drop_last()).push(fields.last().0)
    } else {
        unique_names(fields.drop_last())
    }
}

/// Adding the pairs one after another to `m`, refusing a value that is already there.
pub open spec fn insert_all(m: Map<ValueModel, RowId>, es: Seq<(ValueModel, RowId)>) -> Option<Map<ValueModel, RowId>>
    decreases es.len(),
{
    if es.len() == 0 {
        Some(m)
    } else {
        match insert_all(m, es.drop_last()) {
            Some(m2) => if m2.contains_key(es.last().0) {
                None
            } else {
                Some(m2.insert(es.last().0, es.last().1))
            },
            None => None,
        }
    }
}

/// Indexes read back from persisted entries, field list by field list: the
/// indexes, or the message of the first refusal.
pub open spec fn from_entries_spec(
    fields: FieldsModel,
    input: Seq<(Seq<char>, Seq<(ValueModel, RowId)>)>,
) -> core::result::Result<IndexModel, Seq<char>>
    decreases input.len(),
{
    if input.len() == 0 {
        Ok(schema_indexes(fields))
    } else {
        match from_entries_spec(fields, input.drop_last()) {
            Ok(idx) => {
                let (f, es) = input.last();
                if !idx.contains_key(f) {
                    Err("unexpected persisted index field: "@ + f)
                } else {
                    match insert_all(idx[f], es) {
                        Some(m) => Ok(idx.insert(f, m)),
                        None => Err("duplicate key in persisted index: "@ + f),
                    }
                }
            },
            Err(m) => Err(m),
        }
    }
}

pub open spec fn entry_models(input: Seq<(String, Vec<(Value, RowId)>)>) -> Seq<(Seq<char>, Seq<(ValueModel, RowId)>)> {
    input.map_values(|e: (String, Vec<(Value, RowId)>)| (e.0@, e.1@.map_values(|p: (Value, RowId)| (p.0@, p.1))))
}

proof fn lemma_build_spec_err(fields: FieldsModel, rows: Seq<StoredRowModel>, k: int)
    requires
        0 <= k <= rows.len(),
        build_spec(fields, rows.take(k)) is Err,
    ensures
        build_spec(fields, rows) == build_spec(fields, rows.take(k)),
    decreases rows.len() - k,
{
    if k < rows.len() {
        assert(rows.take(k + 1).drop_last() =~= rows.take(k));
        lemma_build_spec_err(fields, rows, k + 1);
    } else {
        assert(rows.take(k) =~= rows);
    }
}

proof fn lemma_from_entries_err(fields: FieldsModel, input: Seq<(Seq<char>, Seq<(ValueModel, RowId)>)>, k: int)
    requires
        0 <= k <= input.len(),
        from_entries_spec(fields, input.take(k)) is Err,
    ensures
        from_entries_spec(fields, input) == from_entries_spec(fields, input.take(k)),
    decreases input.len() - k,
{
    if k < input.len() {
        assert(input.take(k + 1).drop_last() =~= input.take(k));
        lemma_from_entries_err(fields, input, k + 1);
    } else {
        assert(input.take(k) =~= input);
    }
}

proof fn lemma_insert_all_none(m: Map<ValueModel, RowId>, es: Seq<(ValueModel, RowId)>, k: int)
    requires
        0 <= k <= es.len(),
        insert_all(m, es.take(k)) is None,
    ensures
        insert_all(m, es) is None,
    decreases es.len() - k,
{
    if k < es.len() {
        assert(es.take(k + 1).drop_last() =~= es.take(k));
        lemma_insert_all_none(m, es, k + 1);
    } else {
        assert(es.take(k) =~= es);
    }
}

pub open spec fn row_models(rows: Seq<StoredRow>) -> Seq<StoredRowModel> {
    rows.map_values(|r: StoredRow| r@)
}

proof fn lemma_unique_field_at(fields: FieldsModel, i: int)
    requires
        keys_distinct(fields),
        0 <= i < fields.len(),
    ensures
        unique_field(fields, fields[i].0) == fields[i].1.is_unique(),
{
    lemma_index_of(fields, i);
}

/// The exact-match indexes of one table: one per id or unique field.
#[derive(Clone, Debug, PartialEq, Eq)]
pub struct TableIndexes {
    by_field: NameMap<FieldIndex>,
}

impl View for TableIndexes {
    type V = IndexModel;

    closed spec fn view(&self) -> IndexModel {
        self.by_field.map()
    }
}

impl TableIndexes {
    pub closed spec fn fields_wf(&self) -> bool {
        forall|i: int| 0 <= i < self.by_field.items().len() ==> (#[trigger] self.by_field.items()[i]).1.wf()
    }

    pub closed spec fn wf(&self) -> bool {
        self.by_field.wf() && self.fields_wf()
    }

    /// Puts `fi` at position `pos` and hands back what was there.
    fn replace_field(&mut self, pos: usize, fi: FieldIndex) -> (r: FieldIndex)
        requires
            old(self).wf(),
            pos < old(self).by_field@.len(),
            fi.wf(),
        ensures
            final(self).wf(),
            final(self)@ == old(self)@.insert(old(self).by_field@[pos as int].0, fi@),
            final(self).by_field@.len() == old(self).by_field@.len(),
            forall|i: int| 0 <= i < final(self).by_field@.len() ==> (#[trigger] final(self).by_field@[i]).0 == old(self).by_field@[i].0,
            r.wf(),
            r@ == old(self).by_field@[pos as int].1,
    {
        let ghost old_view = self.by_field@;
        let mut fi = fi;
        self.by_field.swap_value_at(pos, &mut fi);
        proof {
            lemma_sorted_update(old_view, pos as int, self.by_field@[pos as int].1);
            lemma_sorted_distinct(old_view);
            lemma_as_map_update(old_view, pos as int, self.by_field@[pos as int].1);
            assert(self.fields_wf()) by {
                assert forall|i: int| 0 <= i < self.by_field.items().len() implies (#[trigger] self.by_field.items()[i]).1.wf() by {
                    if i != pos {
                        assert(self.by_field.items()[i] == old(self).by_field.items()[i]);
                    }
                }
            }
            assert(old(self).by_field.items()[pos as int].1.wf());
        }
        fi
    }

    /// Empty indexes for the id and unique fields of the schema.
    pub fn for_schema(schema: &ModelSchema) -> (r: Self)
        requires
            schema.wf(),
        ensures
            r.wf(),
            r@ == schema_indexes(schema@.fields),
    {
        let ghost fields = schema@.fields;
        proof { lemma_sorted_distinct(fields); }
        let mut by_field: NameMap<FieldIndex> = NameMap::new();
        let mut i: usize = 0;
        while i < schema.fields.len()
            invariant
                fields == schema@.fields,
                keys_distinct(fields),
                i <= fields.len(),
                by_field.wf(),
                forall|j: int| 0 <= j < by_field.items().len() ==> (#[trigger] by_field.items()[j]).1.wf(),
                by_field.map() == Map::new(
                    |f: Seq<char>| exists|j: int| 0 <= j < i && #[trigger] fields[j].0 == f && fields[j].1.is_unique(),
                    |f: Seq<char>| Map::<ValueModel, RowId>::empty(),
                ),
            decreases fields.len() - i,
        {
            let ghost prev = by_field.map();
            let ghost fi_name = fields[i as int].0;
            if schema.fields.value_at(i).is_unique() {
                let name = schema.fields.name_at(i).clone();
                let ghost prev_items = by_field.items();
                let empty = FieldIndex::new();
                by_field.insert(name, empty);
                assert forall|j: int| 0 <= j < by_field.items().len() implies (#[trigger] by_field.items()[j]).1.wf() by {
                    if by_field.items()[j].1 != empty {
                        assert(by_field.items()[j] != (name, empty));
                        let k = choose|k: int| 0 <= k < prev_items.len() && prev_items[k] == by_field.items()[j];
                        assert(prev_items[k].1.wf());
                    }
                }
            }
            proof {
                let target = Map::new(
                    |f: Seq<char>| exists|j: int| 0 <= j < i + 1 && #[trigger] fields[j].0 == f && fields[j].1.is_unique(),
                    |f: Seq<char>| Map::<ValueModel, RowId>::empty(),
                );
                assert forall|f: Seq<char>| #[trigger] by_field.map().contains_key(f) == target.contains_key(f) by {
                    if target.contains_key(f) {
                        let j = choose|j: int| 0 <= j < i + 1 && #[trigger] fields[j].0 == f && fields[j].1.is_unique();
                        if j < i {
                            assert(prev.contains_key(f));
                        }
                    }
                    if prev.contains_key(f) {
                        let j = choose|j: int| 0 <= j < i && #[trigger] fields[j].0 == f && fields[j].1.is_unique();
                        assert(target.contains_key(f));
                    }
                    if f == fi_name && fields[i as int].1.is_unique() {
                        assert(fields[i as int].0 == f);
                        assert(target.contains_key(f));
                    }
                }
                assert(by_field.map() =~= target);
            }
            i = i + 1;
        }
        let r = TableIndexes { by_field };
        proof {
            assert forall|f: Seq<char>| #[trigger] r@.contains_key(f) == schema_indexes(fields).contains_key(f) by {
                if r@.contains_key(f) {
                    let j = choose|j: int| 0 <= j < fields.len() && #[trigger] fields[j].0 == f && fields[j].1.is_unique();
                    lemma_unique_field_at(fields, j);
                }
                if unique_field(fields, f) {
                    let j = choose|j: int| 0 <= j < fields.len() && #[trigger] fields[j].0 == f;
                    lemma_unique_field_at(fields, j);
                }
            }
            assert(r@ =~= schema_indexes(fields));
        }
        r
    }

    /// Whether `field_name` has an index.
    pub fn indexes_field(&self, field_name: &str) -> (r: bool)
        requires
            self.wf(),
        ensures
            r == self@.contains_key(field_name@),
    {
        self.by_field.contains_key(field_name)
    }

    /// The index of `field_name`, when there is one.
    fn field(&self, field_name: &str) -> (r: Option<&FieldIndex>)
        requires
            self.wf(),
        ensures
            r is Some == self@.contains_key(field_name@),
            r is Some ==> r.unwrap().wf() && r.unwrap()@ == self@[field_name@],
    {
        let (pos, found) = self.by_field.position(field_name);
        if found {
            proof {
                lemma_sorted_distinct(self.by_field@);
                lemma_index_of(self.by_field@, pos as int);
            }
            let fi = self.by_field.value_at(pos);
            assert(self.by_field.items()[pos as int].1.wf());
            Some(fi)
        } else {
            None
        }
    }

    /// The row holding `value` in the index of `field_name`.
    pub fn lookup(&self, field_name: &str, value: &Value) -> (r: Option<RowId>)
        requires
            self.wf(),
        ensures
            r == (if self@.contains_key(field_name@) && self@[field_name@].contains_key(value@) {
                Some(self@[field_name@][value@])
            } else {
                None::<RowId>
            }),
    {
        match self.field(field_name) {
            Some(fi) => fi.get(value),
            None => None,
        }
    }

    /// Refuses `row` when one of its id or unique values is held by another row than
    /// `ignore_row_id`, naming the first such field.
    pub fn check_unique(&self, schema: &ModelSchema, row: &Record, ignore_row_id: Option<RowId>) -> (r: Result<()>)
        requires
            self.wf(),
            schema.wf(),
            row.wf(),
        ensures
            match first_conflict(self@, schema@.fields, row.map(), ignore_row_id, 0) {
                None => r is Ok,
                Some(f) => r matches Err(CrustDbError::UniqueConstraint(m)) && m@ == duplicate_message(f),
            },
    {
        let ghost fields = schema@.fields;
        let mut i: usize = 0;
        while i < schema.fields.len()
            invariant
                self.wf(),
                schema.wf(),
                row.wf(),
                fields == schema@.fields,
                i <= fields.len(),
                first_conflict(self@, fields, row.map(), ignore_row_id, 0) == first_conflict(self@, fields, row.map(), ignore_row_id, i as int),
            decreases fields.len() - i,
        {
            let field = schema.fields.value_at(i);
            if field.is_unique() {
                let name = schema.fields.name_at(i);
                match row.get(name.as_str()) {
                    Some(value) => {
                        match self.field(name.as_str()) {
                            Some(fi) => {
                                match fi.get(value) {
                                    Some(existing) => {
                                        let ignored = match ignore_row_id {
                                            Some(x) => x == existing,
                                            None => false,
                                        };
                                        if !ignored {
                                            assert(conflict_at(self@, fields, row.map(), ignore_row_id, i as int));
                                            return Err(CrustDbError::UniqueConstraint(
                                                join("Duplicate value for unique field: ", name.as_str()),
                                            ));
                                        }
                                    },
                                    None => {},
                                }
                            },
                            None => {},
                        }
                    },
                    None => {},
                }
            }
            i = i + 1;
        }
        Ok(())
    }

    /// Records `row`'s id and unique values as held by `row_id`.
    pub fn insert(&mut self, schema: &ModelSchema, row_id: RowId, row: &Record)
        requires
            old(self).wf(),
            schema.wf(),
            row.wf(),
        ensures
            final(self).wf(),
            final(self)@ == after_insert(old(self)@, schema@.fields, row.map(), row_id),
    {
        let ghost fields = schema@.fields;
        let ghost start = self@;
        let ghost rm = row.map();
        proof { lemma_sorted_distinct(fields); }
        let mut i: usize = 0;
        while i < schema.fields.len()
            invariant
                self.wf(),
                schema.wf(),
                row.wf(),
                fields == schema@.fields,
                keys_distinct(fields),
                rm == row.map(),
                i <= fields.len(),
                self@ == Map::new(
                    |f: Seq<char>| start.contains_key(f),
                    |f: Seq<char>| if (exists|j: int| 0 <= j < i && #[trigger] fields[j].0 == f && fields[j].1.is_unique())
                        && rm.contains_key(f) {
                        start[f].insert(rm[f], row_id)
                    } else {
                        start[f]
                    },
                ),
            decreases fields.len() - i,
        {
            let ghost prev = self@;
            let ghost name_i = fields[i as int].0;
            let field = schema.fields.value_at(i);
            if field.is_unique() {
                let name = schema.fields.name_at(i);
                match row.get(name.as_str()) {
                    Some(value) => {
                        let (pos, found) = self.by_field.position(name.as_str());
                        if found {
                            proof {
                                lemma_sorted_distinct(self.by_field@);
                                lemma_index_of(self.by_field@, pos as int);
                            }
                            let mut fi = self.replace_field(pos, FieldIndex::new());
                            fi.insert(value.duplicate(), row_id);
                            self.replace_field(pos, fi);
                            assert(self@ == prev.insert(name_i, prev[name_i].insert(rm[name_i], row_id)));
                        }
                    },
                    None => {},
                }
            }
            proof {
                assert forall|j: int| 0 <= j < i implies #[trigger] fields[j].0 != name_i by {
                    assert(fields[j].0 != fields[i as int].0);
                }
                let target = Map::new(
                    |f: Seq<char>| start.contains_key(f),
                    |f: Seq<char>| if (exists|j: int| 0 <= j < i + 1 && #[trigger] fields[j].0 == f && fields[j].1.is_unique())
                        && rm.contains_key(f) {
                        start[f].insert(rm[f], row_id)
                    } else {
                        start[f]
                    },
                );
                assert forall|f: Seq<char>| #[trigger] self@.contains_key(f) implies self@[f] == target[f] by {
                    if f == name_i {
                        if !(exists|j: int| 0 <= j < i && #[trigger] fields[j].0 == f && fields[j].1.is_unique()) {
                        }
                    } else {
                        if exists|j: int| 0 <= j < i + 1 && #[trigger] fields[j].0 == f && fields[j].1.is_unique() {
                            let j = choose|j: int| 0 <= j < i + 1 && #[trigger] fields[j].0 == f && fields[j].1.is_unique();
                            assert(j < i);
                        }
                    }
                }
                assert(self@ =~= target);
            }
            i = i + 1;
        }
        proof {
            assert forall|f: Seq<char>| #[trigger] self@.contains_key(f) implies self@[f] == after_insert(start, fields, rm, row_id)[f] by {
                if exists|j: int| 0 <= j < fields.len() && #[trigger] fields[j].0 == f && fields[j].1.is_unique() {
                    let j = choose|j: int| 0 <= j < fields.len() && #[trigger] fields[j].0 == f && fields[j].1.is_unique();
                    lemma_unique_field_at(fields, j);
                }
                if unique_field(fields, f) {
                    let j = choose|j: int| 0 <= j < fields.len() && #[trigger] fields[j].0 == f;
                    lemma_unique_field_at(fields, j);
                }
            }
            assert(self@ =~= after_insert(start, fields, rm, row_id));
        }
    }

    /// Drops the entries of `row` that point at `row_id`; entries that point at
    /// another row stay.
    pub fn remove(&mut self, schema: &ModelSchema, row_id: RowId, row: &Record)
        requires
            old(self).wf(),
            schema.wf(),
            row.wf(),
        ensures
            final(self).wf(),
            final(self)@ == after_remove(old(self)@, schema@.fields, row.map(), row_id),
    {
        let ghost fields = schema@.fields;
        let ghost start = self@;
        let ghost rm = row.map();
        proof { lemma_sorted_distinct(fields); }
        let mut i: usize = 0;
        while i < schema.fields.len()
            invariant
                self.wf(),
                schema.wf(),
                row.wf(),
                fields == schema@.fields,
                keys_distinct(fields),
                rm == row.map(),
                i <= fields.len(),
                self@ == Map::new(
                    |f: Seq<char>| start.contains_key(f),
                    |f: Seq<char>| if (exists|j: int| 0 <= j < i && #[trigger] fields[j].0 == f && fields[j].1.is_unique())
                        && rm.contains_key(f) && start[f].contains_key(rm[f]) && start[f][rm[f]] == row_id {
                        start[f].remove(rm[f])
                    } else {
                        start[f]
                    },
                ),
            decreases fields.len() - i,
        {
            let ghost prev = self@;
            let ghost name_i = fields[i as int].0;
            let field = schema.fields.value_at(i);
            if field.is_unique() {
                let name = schema.fields.name_at(i);
                match row.get(name.as_str()) {
                    Some(value) => {
                        let (pos, found) = self.by_field.position(name.as_str());
                        if found {
                            proof {
                                lemma_sorted_distinct(self.by_field@);
                                lemma_index_of(self.by_field@, pos as int);
                            }
                            let held = self.by_field.value_at(pos).get(value);
                            assert(self.by_field.items()[pos as int].1.wf());
                            let points_here = match held {
                                Some(x) => x == row_id,
                                None => false,
                            };
                            if points_here {
                                let mut fi = self.replace_field(pos, FieldIndex::new());
                                fi.remove(value);
                                self.replace_field(pos, fi);
                                assert(self@ == prev.insert(name_i, prev[name_i].remove(rm[name_i])));
                            }
                        }
                    },
                    None => {},
                }
            }
            proof {
                assert forall|j: int| 0 <= j < i implies #[trigger] fields[j].0 != name_i by {
                    assert(fields[j].0 != fields[i as int].0);
                }
                let target = Map::new(
                    |f: Seq<char>| start.contains_key(f),
                    |f: Seq<char>| if (exists|j: int| 0 <= j < i + 1 && #[trigger] fields[j].0 == f && fields[j].1.is_unique())
                        && rm.contains_key(f) && start[f].contains_key(rm[f]) && start[f][rm[f]] == row_id {
                        start[f].remove(rm[f])
                    } else {
                        start[f]
                    },
                );
                assert forall|f: Seq<char>| #[trigger] self@.contains_key(f) implies self@[f] == target[f] by {
                    if f != name_i {
                        if exists|j: int| 0 <= j < i + 1 && #[trigger] fields[j].0 == f && fields[j].1.is_unique() {
                            let j = choose|j: int| 0 <= j < i + 1 && #[trigger] fields[j].0 == f && fields[j].1.is_unique();
                            assert(j < i);
                        }
                    }
                }
                assert(self@ =~= target);
            }
            i = i + 1;
        }
        proof {
            assert forall|f: Seq<char>| #[trigger] self@.contains_key(f) implies self@[f] == after_remove(start, fields, rm, row_id)[f] by {
                if exists|j: int| 0 <= j < fields.len() && #[trigger] fields[j].0 == f && fields[j].1.is_unique() {
                    let j = choose|j: int| 0 <= j < fields.len() && #[trigger] fields[j].0 == f && fields[j].1.is_unique();
                    lemma_unique_field_at(fields, j);
                }
                if unique_field(fields, f) {
                    let j = choose|j: int| 0 <= j < fields.len() && #[trigger] fields[j].0 == f;
                    lemma_unique_field_at(fields, j);
                }
            }
            assert(self@ =~= after_remove(start, fields, rm, row_id));
        }
    }

    /// Indexes for the live rows, refusing the first duplicate id or unique value.
    pub fn build(schema: &ModelSchema, rows: &[StoredRow]) -> (r: Result<Self>)
        requires
            schema.wf(),
            forall|j: int| 0 <= j < rows@.len() ==> (#[trigger] rows@[j]).record.wf(),
        ensures
            match build_spec(schema@.fields, row_models(rows@)) {
                Ok(m) => r is Ok && r.unwrap().wf() && r.unwrap()@ == m,
                Err(f) => r matches Err(CrustDbError::UniqueConstraint(msg)) && msg@ == duplicate_message(f),
            },
    {
        let ghost fields = schema@.fields;
        let ghost all = row_models(rows@);
        let mut indexes = Self::for_schema(schema);
        let mut i: usize = 0;
        assert(all.take(0) =~= Seq::<StoredRowModel>::empty());
        while i < rows.len()
            invariant
                schema.wf(),
                fields == schema@.fields,
                all == row_models(rows@),
                forall|j: int| 0 <= j < rows@.len() ==> (#[trigger] rows@[j]).record.wf(),
                i <= rows@.len(),
                indexes.wf(),
                build_spec(fields, all.take(i as int)) == Ok::<IndexModel, Seq<char>>(indexes@),
            decreases rows@.len() - i,
        {
            let row = &rows[i];
            assert(all.take(i + 1).drop_last() =~= all.take(i as int));
            assert(all.take(i + 1).last() == row@);
            if !row.deleted {
                let checked = indexes.check_unique(schema, &row.record, None);
                if checked.is_err() {
                    proof { lemma_build_spec_err(fields, all, i as int + 1); }
                    return Err(checked.unwrap_err());
                }
                indexes.insert(schema, row.row_id, &row.record);
            }
            i = i + 1;
        }
        assert(all.take(i as int) =~= all);
        Ok(indexes)
    }

    /// The names of the indexed fields of the schema, in name order.
    pub fn indexed_field_names(schema: &ModelSchema) -> (r: Vec<String>)
        requires
            schema.wf(),
        ensures
            r@.map_values(|s: String| s@) == unique_names(schema@.fields),
    {
        let ghost fields = schema@.fields;
        let mut out: Vec<String> = Vec::new();
        let mut i: usize = 0;
        assert(fields.take(0) =~= Seq::<(Seq<char>, FieldModel)>::empty());
        while i < schema.fields.len()
            invariant
                fields == schema@.fields,
                i <= fields.len(),
                out@.map_values(|s: String| s@) == unique_names(fields.take(i as int)),
            decreases fields.len() - i,
        {
            assert(fields.take(i + 1).drop_last() =~= fields.take(i as int));
            if schema.fields.value_at(i).is_unique() {
                out.push(schema.fields.name_at(i).clone());
                assert(out@.map_values(|s: String| s@) =~= unique_names(fields.take(i as int)).push(fields[i as int].0));
            }
            i = i + 1;
        }
        assert(fields.take(i as int) =~= fields);
        out
    }

    /// The entries of the index of `field_name`; none when it has no index.
    pub fn entries_for_field(&self, field_name: &str) -> (r: Vec<(Value, RowId)>)
        requires
            self.wf(),
        ensures
            keys_distinct(r@.map_values(|e: (Value, RowId)| (e.0@, e.1))),
            as_map(r@.map_values(|e: (Value, RowId)| (e.0@, e.1))) == (if self@.contains_key(field_name@) {
                self@[field_name@]
            } else {
                Map::<ValueModel, RowId>::empty()
            }),
    {
        match self.field(field_name) {
            Some(fi) => fi.entries(),
            None => {
                let r: Vec<(Value, RowId)> = Vec::new();
                assert(r@.map_values(|e: (Value, RowId)| (e.0@, e.1)) =~= Seq::<(ValueModel, RowId)>::empty());
                assert(as_map(Seq::<(ValueModel, RowId)>::empty()) =~= Map::<ValueModel, RowId>::empty());
                r
            },
        }
    }

    /// Indexes read back from persisted entries, field by field.
    pub fn from_entries(schema: &ModelSchema, entries_by_field: &[(String, Vec<(Value, RowId)>)]) -> (r: Result<Self>)
        requires
            schema.wf(),
        ensures
            match from_entries_spec(schema@.fields, entry_models(entries_by_field@)) {
                Ok(m) => r is Ok && r.unwrap().wf() && r.unwrap()@ == m,
                Err(msg) => r matches Err(CrustDbError::StorageFormat(x)) && x@ == msg,
            },
    {
        let ghost fields = schema@.fields;
        let ghost input = entry_models(entries_by_field@);
        let mut indexes = Self::for_schema(schema);
        let mut i: usize = 0;
        assert(input.take(0) =~= Seq::<(Seq<char>, Seq<(ValueModel, RowId)>)>::empty());
        while i < entries_by_field.len()
            invariant
                schema.wf(),
                fields == schema@.fields,
                input == entry_models(entries_by_field@),
                i <= input.len(),
                indexes.wf(),
                from_entries_spec(fields, input.take(i as int)) == Ok::<IndexModel, Seq<char>>(indexes@),
            decreases input.len() - i,
        {
            assert(input.take(i + 1).drop_last() =~= input.take(i as int));
            assert(input.take(i + 1).last() == input[i as int]);
            let name = &entries_by_field[i].0;
            let list = &entries_by_field[i].1;
            let ghost es = input[i as int].1;
            let (pos, found) = indexes.by_field.position(name.as_str());
            if !found {
                proof { lemma_from_entries_err(fields, input, i as int + 1); }
                return Err(CrustDbError::StorageFormat(join("unexpected persisted index field: ", name.as_str())));
            }
            proof {
                lemma_sorted_distinct(indexes.by_field@);
                lemma_index_of(indexes.by_field@, pos as int);
            }
            let ghost prev = indexes@;
            let mut fi = indexes.replace_field(pos, FieldIndex::new());
            let ghost fi_start = fi@;
            assert(fi_start == prev[name@]);
            let mut k: usize = 0;
            assert(es.take(0) =~= Seq::<(ValueModel, RowId)>::empty());
            while k < list.len()
                invariant
                    i < input.len(),
                    input == entry_models(entries_by_field@),
                    from_entries_spec(fields, input.take(i as int)) == Ok::<IndexModel, Seq<char>>(prev),
                    input.take(i + 1).drop_last() == input.take(i as int),
                    input.take(i + 1).last() == input[i as int],
                    es == input[i as int].1,
                    name@ == input[i as int].0,
                    prev.contains_key(name@),
                    fi_start == prev[name@],
                    fields == schema@.fields,
                    indexes.wf(),
                    pos < indexes.by_field@.len(),
                    indexes.by_field@[pos as int].0 == name@,
                    fi.wf(),
                    es == list@.map_values(|e: (Value, RowId)| (e.0@, e.1)),
                    k <= es.len(),
                    insert_all(fi_start, es.take(k as int)) == Some(fi@),
                decreases es.len() - k,
            {
                assert(es.take(k + 1).drop_last() =~= es.take(k as int));
                assert(es.take(k + 1).last() == es[k as int]);
                let existed = fi.insert(list[k].0.duplicate(), list[k].1);
                if existed {
                    proof {
                        lemma_insert_all_none(fi_start, es, k as int + 1);
                        assert(from_entries_spec(fields, input.take(i + 1)) == Err::<IndexModel, Seq<char>>(
                            "duplicate key in persisted index: "@ + name@));
                        lemma_from_entries_err(fields, input, i as int + 1);
                    }
                    return Err(CrustDbError::StorageFormat(join("duplicate key in persisted index: ", name.as_str())));
                }
                k = k + 1;
            }
            assert(es.take(k as int) =~= es);
            indexes.replace_field(pos, fi);
            assert(indexes@ =~= prev.insert(name@, fi@));
            i = i + 1;
        }
        assert(input.take(i as int) =~= input);
        Ok(indexes)
    }
}

} // verus!
