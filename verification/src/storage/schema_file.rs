use crate::error::{join, CrustDbError, Result};
use crate::names::NameMap;
use crate::schema::{DataType, FieldModel, FieldSchema, ModelModel, ModelSchema};
use crate::storage::record::{
    lemma_i64_u64_roundtrip, lemma_pairs_to_map_sorted, lemma_parse_str_enc, lemma_parse_u32_enc, lemma_parse_u64_enc,
    lemma_parse_value_enc, enc_str, enc_value, pairs_to_map, parse_i64, parse_str, parse_u32, parse_u8, parse_value, str_fits, usize_to_u32,
    short_read, str_error, too_large_message, value_error, value_fits, write_i64, write_string, write_u32, write_value, Cursor,
};
use crate::storage::table_file::{has_prefix, starts_with};
use crate::order::{compare_names, lemma_name_lt_total, lemma_name_lt_transitive, name_lt, Order};
use crate::text::decimal;
use crate::value::{Value, ValueModel};
use vstd::bytes::{spec_u32_to_le_bytes, spec_u64_to_le_bytes};
use vstd::prelude::*;

verus! {

pub const TYPE_INT: u8 = 1;
pub const TYPE_STRING: u8 = 2;

/// The first bytes of the schema file: "CRUSTSC1".
pub open spec fn schema_magic() -> Seq<u8> {
    seq![67u8, 82, 85, 83, 84, 83, 67, 49]
}

fn schema_magic_bytes() -> (r: Vec<u8>)
    ensures
        r@ == schema_magic(),
{
    let r = vec![67u8, 82, 85, 83, 84, 83, 67, 49];
    assert(r@ =~= schema_magic());
    r
}

pub open spec fn parse_flag(b: Seq<u8>) -> Option<(bool, Seq<u8>)> {
    match parse_u8(b) {
        Some((x, r)) => if x == 0 {
            Some((false, r))
        } else if x == 1 {
            Some((true, r))
        } else {
            None
        },
        None => None,
    }
}

pub open spec fn parse_type(b: Seq<u8>) -> Option<(DataType, Seq<u8>)> {
    match parse_u8(b) {
        Some((x, r)) => if x == TYPE_INT {
            Some((DataType::Int, r))
        } else if x == TYPE_STRING {
            Some((DataType::String, r))
        } else {
            None
        },
        None => None,
    }
}

pub open spec fn parse_range(b: Seq<u8>) -> Option<(Option<(i64, i64)>, Seq<u8>)> {
    match parse_flag(b) {
        Some((has, r)) => if has {
            match parse_i64(r) {
                Some((lo, r2)) => match parse_i64(r2) {
                    Some((hi, r3)) => Some((Some((lo, hi)), r3)),
                    None => None,
                },
                None => None,
            }
        } else {
            Some((None, r))
        },
        None => None,
    }
}

pub open spec fn parse_default(b: Seq<u8>) -> Option<(Option<ValueModel>, Seq<u8>)> {
    match parse_flag(b) {
        Some((has, r)) => if has {
            match parse_value(r) {
                Some((v, r2)) => Some((Some(v), r2)),
                None => None,
            }
        } else {
            Some((None, r))
        },
        None => None,
    }
}

/// One field: name, type, the id, unique and required flags, an optional range and
/// an optional default.
#[verifier::opaque]
pub open spec fn parse_field(b: Seq<u8>) -> Option<((Seq<char>, FieldModel), Seq<u8>)> {
    match parse_str(b) {
        Some((name, r1)) => match parse_type(r1) {
            Some((t, r2)) => match parse_flag(r2) {
                Some((id, r3)) => match parse_flag(r3) {
                    Some((unique, r4)) => match parse_flag(r4) {
                        Some((required, r5)) => match parse_range(r5) {
                            Some((range, r6)) => match parse_default(r6) {
                                Some((default, r7)) => Some((
                                    (name, FieldModel { data_type: t, id, unique, required, range, default }),
                                    r7,
                                )),
                                None => None,
                            },
                            None => None,
                        },
                        None => None,
                    },
                    None => None,
                },
                None => None,
            },
            None => None,
        },
        None => None,
    }
}

pub open spec fn parse_field_list(b: Seq<u8>, n: nat) -> Option<(Seq<(Seq<char>, FieldModel)>, Seq<u8>)>
    decreases n,
{
    if n == 0 {
        Some((Seq::empty(), b))
    } else {
        match parse_field(b) {
            Some((f, r)) => match parse_field_list(r, (n - 1) as nat) {
                Some((rest, r2)) => Some((seq![f] + rest, r2)),
                None => None,
            },
            None => None,
        }
    }
}

/// A decoded model: its name and its fields, a later field replacing an earlier one
/// of the same name.
pub struct DecodedModel {
    pub name: Seq<char>,
    pub fields: Map<Seq<char>, FieldModel>,
}

pub open spec fn parse_model(b: Seq<u8>) -> Option<(DecodedModel, Seq<u8>)> {
    match parse_str(b) {
        Some((name, r1)) => match parse_u32(r1) {
            Some((n, r2)) => match parse_field_list(r2, n as nat) {
                Some((fields, r3)) => Some((DecodedModel { name, fields: pairs_to_map(fields) }, r3)),
                None => None,
            },
            None => None,
        },
        None => None,
    }
}

pub open spec fn parse_model_list(b: Seq<u8>, n: nat) -> Option<(Seq<DecodedModel>, Seq<u8>)>
    decreases n,
{
    if n == 0 {
        Some((Seq::empty(), b))
    } else {
        match parse_model(b) {
            Some((m, r)) => match parse_model_list(r, (n - 1) as nat) {
                Some((rest, r2)) => Some((seq![m] + rest, r2)),
                None => None,
            },
            None => None,
        }
    }
}

/// The decoded models by name, a later model replacing an earlier one of the same name.
pub open spec fn models_by_name(models: Seq<DecodedModel>) -> Map<Seq<char>, DecodedModel>
    decreases models.len(),
{
    if models.len() == 0 {
        Map::empty()
    } else {
        models_by_name(models.drop_last()).insert(models.last().name, models.last())
    }
}

/// What the schema file decodes to: its magic, a model count, the models, and
/// nothing after them. A missing file holds no model.
pub open spec fn decode_schemas_spec(file: Option<Seq<u8>>) -> Option<Map<Seq<char>, DecodedModel>> {
    match file {
        None => Some(Map::empty()),
        Some(b) => if !starts_with(b, schema_magic()) {
            None
        } else {
            match parse_u32(b.skip(8)) {
                Some((n, r)) => match parse_model_list(r, n as nat) {
                    Some((models, rest)) => if rest.len() == 0 { Some(models_by_name(models)) } else { None },
                    None => None,
                },
                None => None,
            }
        },
    }
}


pub open spec fn enc_flag(x: bool) -> Seq<u8> {
    seq![if x { 1u8 } else { 0u8 }]
}

pub open spec fn enc_type(t: DataType) -> Seq<u8> {
    match t {
        DataType::Int => seq![TYPE_INT],
        DataType::String => seq![TYPE_STRING],
    }
}

pub open spec fn enc_range(range: Option<(i64, i64)>) -> Seq<u8> {
    match range {
        Some((lo, hi)) => seq![1u8] + spec_u64_to_le_bytes(lo as u64) + spec_u64_to_le_bytes(hi as u64),
        None => seq![0u8],
    }
}

pub open spec fn enc_default(default: Option<ValueModel>) -> Seq<u8> {
    match default {
        Some(v) => seq![1u8] + enc_value(v),
        None => seq![0u8],
    }
}

pub open spec fn enc_field(name: Seq<char>, f: FieldModel) -> Seq<u8> {
    enc_str(name) + enc_type(f.data_type) + enc_flag(f.id) + enc_flag(f.unique) + enc_flag(f.required)
        + enc_range(f.range) + enc_default(f.default)
}

pub open spec fn field_fits(name: Seq<char>, f: FieldModel) -> bool {
    str_fits(name) && match f.default {
        Some(v) => value_fits(v),
        None => true,
    }
}

pub open spec fn enc_field_list(fields: Seq<(Seq<char>, FieldModel)>) -> Seq<u8>
    decreases fields.len(),
{
    if fields.len() == 0 {
        Seq::empty()
    } else {
        enc_field_list(fields.drop_last()) + enc_field(fields.last().0, fields.last().1)
    }
}

pub open spec fn enc_model(m: ModelModel) -> Seq<u8> {
    enc_str(m.name) + spec_u32_to_le_bytes(m.fields.len() as u32) + enc_field_list(m.fields)
}

pub open spec fn model_fits(m: ModelModel) -> bool {
    &&& str_fits(m.name)
    &&& m.fields.len() <= u32::MAX
    &&& forall|i: int| 0 <= i < m.fields.len() ==> field_fits(#[trigger] m.fields[i].0, m.fields[i].1)
}

/// Why a model does not fit the format: its name too long, else too many
/// fields, else a field's name or default too long.
pub open spec fn model_write_error(m: ModelModel) -> Seq<char> {
    if !str_fits(m.name) {
        too_large_message("string length"@)
    } else if m.fields.len() > u32::MAX {
        too_large_message("field count"@)
    } else {
        too_large_message("string length"@)
    }
}

pub open spec fn enc_model_list(models: Seq<ModelModel>) -> Seq<u8>
    decreases models.len(),
{
    if models.len() == 0 {
        Seq::empty()
    } else {
        enc_model_list(models.drop_last()) + enc_model(models.last())
    }
}

/// The bytes of the schema file for the models, in the order given.
pub open spec fn enc_schemas(models: Seq<ModelModel>) -> Seq<u8> {
    schema_magic() + spec_u32_to_le_bytes(models.len() as u32) + enc_model_list(models)
}

fn write_flag(out: &mut Vec<u8>, x: bool)
    ensures
        final(out)@ == old(out)@ + enc_flag(x),
{
    out.push(if x { 1u8 } else { 0u8 });
    assert(final(out)@ =~= old(out)@ + enc_flag(x));
}

fn write_range(out: &mut Vec<u8>, range: Option<(i64, i64)>)
    ensures
        final(out)@ == old(out)@ + enc_range(range),
{
    let ghost start = out@;
    match range {
        Some((lo, hi)) => {
            out.push(1u8);
            write_i64(out, lo);
            write_i64(out, hi);
        },
        None => {
            out.push(0u8);
        },
    }
    assert(out@ =~= start + enc_range(range));
}

fn write_default(out: &mut Vec<u8>, default: &Option<Value>) -> (r: Result<()>)
    ensures
        r is Ok == match default {
            Some(v) => value_fits(v@),
            None => true,
        },
        r is Ok ==> final(out)@ == old(out)@ + enc_default(match default {
            Some(v) => Some(v@),
            None => None,
        }),
        r is Err ==> r matches Err(CrustDbError::StorageFormat(_)),
        r matches Err(CrustDbError::StorageFormat(m)) ==> m@ == too_large_message("string length"@),
{
    let ghost start = out@;
    match default {
        Some(v) => {
            out.push(1u8);
            write_value(out, v)?;
        },
        None => {
            out.push(0u8);
        },
    }
    assert(out@ =~= start + enc_default(match default {
        Some(v) => Some(v@),
        None => None,
    }));
    Ok(())
}

fn write_field(out: &mut Vec<u8>, name: &String, field: &FieldSchema) -> (r: Result<()>)
    ensures
        r is Ok == field_fits(name@, field@),
        r is Ok ==> final(out)@ == old(out)@ + enc_field(name@, field@),
        r is Err ==> r matches Err(CrustDbError::StorageFormat(_)),
        r matches Err(CrustDbError::StorageFormat(m)) ==> m@ == too_large_message("string length"@),
{
    let mut buf: Vec<u8> = Vec::new();
    write_string(&mut buf, name.as_str())?;
    assert(buf@ =~= enc_str(name@));
    buf.push(match field.data_type {
        DataType::Int => TYPE_INT,
        DataType::String => TYPE_STRING,
    });
    assert(buf@ =~= enc_str(name@) + enc_type(field.data_type));
    write_flag(&mut buf, field.id);
    write_flag(&mut buf, field.unique);
    write_flag(&mut buf, field.required);
    write_range(&mut buf, field.range);
    write_default(&mut buf, &field.default)?;
    assert(buf@ == enc_field(name@, field@));
    out.extend_from_slice(buf.as_slice());
    Ok(())
}

fn write_model(out: &mut Vec<u8>, schema: &ModelSchema) -> (r: Result<()>)
    ensures
        r is Ok == model_fits(schema@),
        r is Ok ==> final(out)@ == old(out)@ + enc_model(schema@),
        r is Err ==> r matches Err(CrustDbError::StorageFormat(_)),
        r matches Err(CrustDbError::StorageFormat(m)) ==> m@ == model_write_error(schema@),
{
    let ghost start = out@;
    let ghost fields = schema@.fields;
    write_string(out, schema.name.as_str())?;
    let count = usize_to_u32(schema.fields.len(), "field count")?;
    write_u32(out, count);
    let ghost head = out@;
    let mut i: usize = 0;
    assert(fields.take(0) =~= Seq::<(Seq<char>, FieldModel)>::empty());
    while i < schema.fields.len()
        invariant
            fields == schema@.fields,
            i <= fields.len(),
            str_fits(schema@.name),
            fields.len() <= u32::MAX,
            head == start + enc_str(schema@.name) + spec_u32_to_le_bytes(fields.len() as u32),
            out@ == head + enc_field_list(fields.take(i as int)),
            forall|j: int| 0 <= j < i ==> field_fits(#[trigger] fields[j].0, fields[j].1),
        decreases fields.len() - i,
    {
        assert(fields.take(i + 1).drop_last() =~= fields.take(i as int));
        let written = write_field(out, schema.fields.name_at(i), schema.fields.value_at(i));
        if written.is_err() {
            return Err(written.unwrap_err());
        }
        assert(out@ =~= head + enc_field_list(fields.take(i + 1)));
        i = i + 1;
    }
    assert(fields.take(i as int) =~= fields);
    assert(out@ =~= start + enc_model(schema@));
    Ok(())
}

/// The bytes of the schema file for the models, in the order given.
fn encode_schemas(schemas: &[&ModelSchema]) -> (r: Result<Vec<u8>>)
    ensures
        r is Ok == (schemas@.len() <= u32::MAX && forall|i: int| 0 <= i < schemas@.len() ==> model_fits((#[trigger] schemas@[i])@)),
        r is Ok ==> r.unwrap()@ == enc_schemas(schemas@.map_values(|s: &ModelSchema| s@)),
        r is Err ==> r matches Err(CrustDbError::StorageFormat(_)),
        r matches Err(CrustDbError::StorageFormat(m)) ==> if schemas@.len() > u32::MAX {
            m@ == too_large_message("model count"@)
        } else {
            exists|i: int| 0 <= i < schemas@.len() && !model_fits((#[trigger] schemas@[i])@)
                && (forall|j: int| 0 <= j < i ==> model_fits((#[trigger] schemas@[j])@))
                && m@ == model_write_error(schemas@[i]@)
        },
{
    let ghost models = schemas@.map_values(|s: &ModelSchema| s@);
    let mut out = schema_magic_bytes();
    let count = usize_to_u32(schemas.len(), "model count")?;
    write_u32(&mut out, count);
    let ghost head = out@;
    let mut i: usize = 0;
    assert(models.take(0) =~= Seq::<ModelModel>::empty());
    while i < schemas.len()
        invariant
            models == schemas@.map_values(|s: &ModelSchema| s@),
            i <= schemas@.len(),
            schemas@.len() <= u32::MAX,
            head == schema_magic() + spec_u32_to_le_bytes(schemas@.len() as u32),
            out@ == head + enc_model_list(models.take(i as int)),
            forall|j: int| 0 <= j < i ==> model_fits((#[trigger] schemas@[j])@),
        decreases schemas@.len() - i,
    {
        assert(models.take(i + 1).drop_last() =~= models.take(i as int));
        let written = write_model(&mut out, schemas[i]);
        if written.is_err() {
            return Err(written.unwrap_err());
        }
        assert(out@ =~= head + enc_model_list(models.take(i + 1)));
        i = i + 1;
    }
    assert(models.take(i as int) =~= models);
    Ok(out)
}


/// The names of the models are pairwise different.
pub open spec fn names_distinct(models: Seq<ModelModel>) -> bool {
    forall|a: int, b: int| 0 <= a < b < models.len() ==> (#[trigger] models[a]).name != (#[trigger] models[b]).name
}

/// `order` holds the models, in increasing name order.
pub open spec fn in_name_order(order: Seq<ModelModel>, models: Seq<ModelModel>) -> bool {
    &&& order.len() == models.len()
    &&& forall|a: int, b: int| 0 <= a < b < order.len() ==> name_lt((#[trigger] order[a]).name, (#[trigger] order[b]).name)
    &&& forall|x: ModelModel| order.contains(x) <==> models.contains(x)
}

pub open spec fn ref_models(schemas: Seq<&ModelSchema>) -> Seq<ModelModel> {
    schemas.map_values(|s: &ModelSchema| s@)
}

/// Whether name `a` comes strictly before name `b`.
fn name_before(a: &str, b: &str) -> (r: bool)
    ensures
        r == name_lt(a@, b@),
{
    match compare_names(a, b) {
        Order::Less => true,
        _ => false,
    }
}

/// The models, in increasing name order.
fn by_name<'a>(schemas: &[&'a ModelSchema]) -> (r: Vec<&'a ModelSchema>)
    requires
        names_distinct(ref_models(schemas@)),
    ensures
        in_name_order(ref_models(r@), ref_models(schemas@)),
{
    let ghost models = ref_models(schemas@);
    let mut out: Vec<&'a ModelSchema> = Vec::new();
    let mut i: usize = 0;
    while i < schemas.len()
        invariant
            models == ref_models(schemas@),
            names_distinct(models),
            i <= schemas@.len(),
            out@.len() == i,
            forall|a: int, b: int| 0 <= a < b < out@.len() ==> name_lt((#[trigger] ref_models(out@)[a]).name, (#[trigger] ref_models(out@)[b]).name),
            forall|x: ModelModel| ref_models(out@).contains(x) <==> models.take(i as int).contains(x),
        decreases schemas@.len() - i,
    {
        let ghost ov = ref_models(out@);
        let s = schemas[i];
        let ghost x = s@;
        assert(x == models[i as int]);
        let mut pos: usize = 0;
        while pos < out.len() && name_before(out[pos].name.as_str(), s.name.as_str())
            invariant
                ov == ref_models(out@),
                pos <= out@.len(),
                forall|j: int| 0 <= j < pos ==> name_lt((#[trigger] ov[j]).name, x.name),
                x == s@,
            decreases out@.len() - pos,
        {
            assert(ov[pos as int] == out@[pos as int]@);
            pos = pos + 1;
        }
        proof {
            if pos < ov.len() {
                assert(ov.contains(ov[pos as int]));
                assert(models.take(i as int).contains(ov[pos as int]));
                let j = choose|j: int| 0 <= j < i && models.take(i as int)[j] == ov[pos as int];
                assert(models[j] == ov[pos as int]);
                assert(models[j].name != models[i as int].name);
                lemma_name_lt_total(ov[pos as int].name, x.name);
            }
        }
        out.insert(pos, s);
        proof {
            let nv = ref_models(out@);
            assert(nv =~= ov.insert(pos as int, x));
            assert forall|a: int, b: int| 0 <= a < b < nv.len() implies name_lt((#[trigger] nv[a]).name, (#[trigger] nv[b]).name) by {
                if b < pos {
                    assert(nv[a] == ov[a] && nv[b] == ov[b]);
                } else if b == pos {
                    assert(nv[a] == ov[a]);
                } else if a < pos {
                    assert(nv[a] == ov[a] && nv[b] == ov[b - 1]);
                    if b - 1 > pos {
                        lemma_name_lt_transitive(x.name, ov[pos as int].name, ov[b - 1].name);
                    }
                    lemma_name_lt_transitive(ov[a].name, x.name, ov[b - 1].name);
                } else if a == pos {
                    assert(nv[b] == ov[b - 1]);
                    if b - 1 > pos {
                        lemma_name_lt_transitive(x.name, ov[pos as int].name, ov[b - 1].name);
                    }
                } else {
                    assert(nv[a] == ov[a - 1] && nv[b] == ov[b - 1]);
                }
            }
            assert forall|y: ModelModel| nv.contains(y) <==> models.take(i + 1).contains(y) by {
                lemma_seq_insert_contains(ov, pos as int, x, y);
                let t1 = models.take(i + 1);
                let t0 = models.take(i as int);
                assert(t1 =~= t0.push(x));
                if t1.contains(y) && y != x {
                    let j = choose|j: int| 0 <= j < t1.len() && t1[j] == y;
                    assert(t0[j] == y);
                }
                if t0.contains(y) {
                    let j = choose|j: int| 0 <= j < t0.len() && t0[j] == y;
                    assert(t1[j] == y);
                }
                assert(t1[i as int] == x);
            }
        }
        i = i + 1;
    }
    assert(models.take(i as int) =~= models);
    out
}

proof fn lemma_seq_insert_contains<A>(s: Seq<A>, pos: int, x: A, y: A)
    requires
        0 <= pos <= s.len(),
    ensures
        s.insert(pos, x).contains(y) <==> (s.contains(y) || y == x),
{
    let t = s.insert(pos, x);
    if s.contains(y) {
        let i = choose|i: int| 0 <= i < s.len() && s[i] == y;
        if i < pos {
            assert(t[i] == y);
        } else {
            assert(t[i + 1] == y);
        }
    }
    if y == x {
        assert(t[pos] == x);
    }
    if t.contains(y) {
        let i = choose|i: int| 0 <= i < t.len() && t[i] == y;
        if i < pos {
            assert(s[i] == y);
        } else if i > pos {
            assert(s[i - 1] == y);
        }
    }
}

/// `m` says why the schema file for the models cannot be written: too many
/// models, else the first model in name order that does not fit.
pub open spec fn save_schemas_error(models: Seq<ModelModel>, m: Seq<char>) -> bool {
    if models.len() > u32::MAX {
        m == too_large_message("model count"@)
    } else {
        exists|order: Seq<ModelModel>, i: int| in_name_order(order, models) && 0 <= i < order.len()
            && !model_fits(#[trigger] order[i]) && (forall|j: int| 0 <= j < i ==> model_fits(#[trigger] order[j]))
            && m == model_write_error(order[i])
    }
}

/// The bytes of the schema file for the models, which have different names:
/// their count, then each model in increasing name order.
pub fn save_schemas(schemas: &[&ModelSchema]) -> (r: Result<Vec<u8>>)
    requires
        names_distinct(ref_models(schemas@)),
    ensures
        r is Ok == (schemas@.len() <= u32::MAX && forall|i: int| 0 <= i < schemas@.len() ==> model_fits((#[trigger] schemas@[i])@)),
        r is Ok ==> exists|order: Seq<ModelModel>| in_name_order(order, ref_models(schemas@)) && r.unwrap()@ == enc_schemas(order),
        r is Err ==> r matches Err(CrustDbError::StorageFormat(_)),
        r matches Err(CrustDbError::StorageFormat(m)) ==> save_schemas_error(ref_models(schemas@), m@),
{
    let ordered = by_name(schemas);
    let ghost order = ref_models(ordered@);
    let ghost models = ref_models(schemas@);
    assert(ordered@.map_values(|s: &ModelSchema| s@) == order);
    proof {
        assert forall|i: int| 0 <= i < ordered@.len() implies (#[trigger] ordered@[i])@ == order[i] by {}
        assert((forall|i: int| 0 <= i < schemas@.len() ==> model_fits((#[trigger] schemas@[i])@))
            == (forall|i: int| 0 <= i < ordered@.len() ==> model_fits((#[trigger] ordered@[i])@))) by {
            if forall|i: int| 0 <= i < schemas@.len() ==> model_fits((#[trigger] schemas@[i])@) {
                assert forall|i: int| 0 <= i < ordered@.len() implies model_fits((#[trigger] ordered@[i])@) by {
                    assert(order.contains(order[i]));
                    let j = choose|j: int| 0 <= j < models.len() && models[j] == order[i];
                    assert(models[j] == schemas@[j]@);
                }
            }
            if forall|i: int| 0 <= i < ordered@.len() ==> model_fits((#[trigger] ordered@[i])@) {
                assert forall|i: int| 0 <= i < schemas@.len() implies model_fits((#[trigger] schemas@[i])@) by {
                    assert(models[i] == schemas@[i]@);
                    assert(models.contains(models[i]));
                    let j = choose|j: int| 0 <= j < order.len() && order[j] == models[i];
                    assert(ordered@[j]@ == order[j]);
                }
            }
        }
    }
    let r = encode_schemas(ordered.as_slice());
    proof {
        if let Err(CrustDbError::StorageFormat(m)) = &r {
            if schemas@.len() <= u32::MAX {
                let i = choose|i: int| 0 <= i < ordered@.len() && !model_fits((#[trigger] ordered@[i])@)
                    && (forall|j: int| 0 <= j < i ==> model_fits((#[trigger] ordered@[j])@))
                    && m@ == model_write_error(ordered@[i]@);
                assert(!model_fits(order[i]));
                assert forall|j: int| 0 <= j < i implies model_fits(#[trigger] order[j]) by {
                    assert(model_fits(ordered@[j]@));
                }
            }
        }
    }
    r
}

// ---------------------------------------------------------------------------
// Why the schema file does not read: the message of the first read or check
// that fails, for bytes `b` that are what is left of `total` bytes.
// ---------------------------------------------------------------------------

/// Why a flag named `name` cannot be read.
pub open spec fn flag_error(total: int, b: Seq<u8>, name: Seq<char>) -> Seq<char> {
    match parse_u8(b) {
        None => short_read(total, b, 1),
        Some((x, _)) => "invalid "@ + name + " bool: "@ + decimal(x as int),
    }
}

/// Why the optional range and the optional default of a field cannot be read.
pub open spec fn tail_error(total: int, b: Seq<u8>) -> Seq<char> {
    match parse_flag(b) {
        None => flag_error(total, b, "range marker"@),
        Some((has, r)) => {
            let after: core::result::Result<Seq<u8>, Seq<char>> = if has {
                match parse_i64(r) {
                    None => Err(short_read(total, r, 8)),
                    Some((_, r2)) => match parse_i64(r2) {
                        None => Err(short_read(total, r2, 8)),
                        Some((_, r3)) => Ok(r3),
                    },
                }
            } else {
                Ok(r)
            };
            match after {
                Err(m) => m,
                Ok(r4) => match parse_flag(r4) {
                    None => flag_error(total, r4, "default marker"@),
                    Some((_, r5)) => value_error(total, r5),
                },
            }
        },
    }
}

/// Why a field cannot be read.
#[verifier::opaque]
pub open spec fn field_error(total: int, b: Seq<u8>) -> Seq<char> {
    match parse_str(b) {
        None => str_error(total, b),
        Some((_, r1)) => match parse_u8(r1) {
            None => short_read(total, r1, 1),
            Some((t, r2)) => if t != TYPE_INT && t != TYPE_STRING {
                "unknown schema field type: "@ + decimal(t as int)
            } else {
                match parse_flag(r2) {
                    None => flag_error(total, r2, "id"@),
                    Some((_, r3)) => match parse_flag(r3) {
                        None => flag_error(total, r3, "unique"@),
                        Some((_, r4)) => match parse_flag(r4) {
                            None => flag_error(total, r4, "required"@),
                            Some((_, r5)) => tail_error(total, r5),
                        },
                    },
                }
            },
        },
    }
}

/// Why `n` fields cannot be read.
pub open spec fn field_list_error(total: int, b: Seq<u8>, n: nat) -> Seq<char>
    decreases n,
{
    if n == 0 {
        Seq::empty()
    } else {
        match parse_field(b) {
            None => field_error(total, b),
            Some((_, r)) => field_list_error(total, r, (n - 1) as nat),
        }
    }
}

/// Why a model cannot be read.
pub open spec fn model_error(total: int, b: Seq<u8>) -> Seq<char> {
    match parse_str(b) {
        None => str_error(total, b),
        Some((_, r1)) => match parse_u32(r1) {
            None => short_read(total, r1, 4),
            Some((n, r2)) => field_list_error(total, r2, n as nat),
        },
    }
}

/// Why `n` models cannot be read.
pub open spec fn model_list_error(total: int, b: Seq<u8>, n: nat) -> Seq<char>
    decreases n,
{
    if n == 0 {
        Seq::empty()
    } else {
        match parse_model(b) {
            None => model_error(total, b),
            Some((_, r)) => model_list_error(total, r, (n - 1) as nat),
        }
    }
}

/// Why the contents of a schema file do not read.
pub open spec fn schemas_error(b: Seq<u8>) -> Seq<char> {
    if !starts_with(b, schema_magic()) {
        "invalid schema file magic"@
    } else {
        match parse_u32(b.skip(8)) {
            None => short_read(b.len() as int, b.skip(8), 4),
            Some((n, r)) => match parse_model_list(r, n as nat) {
                None => model_list_error(b.len() as int, r, n as nat),
                Some(_) => "schema file has trailing bytes"@,
            },
        }
    }
}

/// The schema holds the decoded model: same name, fields sorted by name and the
/// same fields.
pub open spec fn model_holds(m: ModelModel, d: DecodedModel) -> bool {
    m.name == d.name && crate::names::names_sorted(m.fields) && crate::names::as_map(m.fields) == d.fields
}

fn read_flag(cursor: &mut Cursor, name: &str) -> (r: Result<bool>)
    requires
        old(cursor).wf(),
    ensures
        final(cursor).wf(),
        final(cursor).bytes() == old(cursor).bytes(),
        r is Ok == parse_flag(old(cursor).rest()) is Some,
        r is Ok ==> parse_flag(old(cursor).rest()) == Some((r.unwrap(), final(cursor).rest())),
        r is Err ==> r matches Err(CrustDbError::StorageFormat(_)),
        r matches Err(CrustDbError::StorageFormat(m)) ==> m@ == flag_error(old(cursor).bytes().len() as int, old(cursor).rest(), name@),
{
    let x = cursor.read_u8()?;
    if x == 0 {
        Ok(false)
    } else if x == 1 {
        Ok(true)
    } else {
        let a = join("invalid ", name);
        let b = join(a.as_str(), " bool: ");
        let c = join(b.as_str(), crate::text::int_text(x as i64).as_str());
        Err(CrustDbError::StorageFormat(c))
    }
}

fn read_field(cursor: &mut Cursor) -> (r: Result<(String, FieldSchema)>)
    requires
        old(cursor).wf(),
    ensures
        final(cursor).wf(),
        final(cursor).bytes() == old(cursor).bytes(),
        r is Ok == parse_field(old(cursor).rest()) is Some,
        r is Ok ==> parse_field(old(cursor).rest()) == Some(((r.unwrap().0@, r.unwrap().1@), final(cursor).rest())),
        r is Err ==> r matches Err(CrustDbError::StorageFormat(_)),
        r matches Err(CrustDbError::StorageFormat(m)) ==> m@ == field_error(old(cursor).bytes().len() as int, old(cursor).rest()),
{
    proof {
        reveal(parse_field);
        reveal(field_error);
    }
    let name = cursor.read_string()?;
    let t = cursor.read_u8()?;
    let data_type = if t == TYPE_INT {
        DataType::Int
    } else if t == TYPE_STRING {
        DataType::String
    } else {
        return Err(CrustDbError::StorageFormat(join("unknown schema field type: ", crate::text::u64_text(t as u64).as_str())));
    };
    let id = read_flag(cursor, "id")?;
    let unique = read_flag(cursor, "unique")?;
    let required = read_flag(cursor, "required")?;
    let has_range = read_flag(cursor, "range marker")?;
    let range = if has_range {
        let lo = cursor.read_i64()?;
        let hi = cursor.read_i64()?;
        Some((lo, hi))
    } else {
        None
    };
    let has_default = read_flag(cursor, "default marker")?;
    let default = if has_default {
        Some(cursor.read_value()?)
    } else {
        None
    };
    Ok((name, FieldSchema { data_type, id, unique, required, range, default }))
}

#[verifier::rlimit(30)]
fn read_model(cursor: &mut Cursor) -> (r: Result<ModelSchema>)
    requires
        old(cursor).wf(),
    ensures
        final(cursor).wf(),
        final(cursor).bytes() == old(cursor).bytes(),
        r is Ok == parse_model(old(cursor).rest()) is Some,
        r is Ok ==> r.unwrap().wf() && (parse_model(old(cursor).rest()) matches Some((d, rest))
            && rest == final(cursor).rest() && model_holds(r.unwrap()@, d)),
        r is Err ==> r matches Err(CrustDbError::StorageFormat(_)),
        r matches Err(CrustDbError::StorageFormat(m)) ==> m@ == model_error(old(cursor).bytes().len() as int, old(cursor).rest()),
{
    let ghost start = cursor.rest();
    let model_name = cursor.read_string()?;
    let ghost r1 = cursor.rest();
    let field_count = cursor.read_u32()?;
    let ghost after_count = cursor.rest();
    let ghost n = field_count as nat;
    let mut fields: NameMap<FieldSchema> = NameMap::new();
    let ghost mut done: Seq<(Seq<char>, FieldModel)> = Seq::empty();
    let mut i: u32 = 0;
    while i < field_count
        invariant
            cursor.wf(),
            cursor.bytes() == old(cursor).bytes(),
            start == old(cursor).rest(),
            parse_str(start) == Some((model_name@, r1)),
            parse_u32(r1) == Some((field_count, after_count)),
            n == field_count as nat,
            i <= field_count,
            fields.wf(),
            fields.map() == pairs_to_map(done),
            match parse_field_list(cursor.rest(), (n - i) as nat) {
                Some((p, rr)) => parse_field_list(after_count, n) == Some((done + p, rr)),
                None => parse_field_list(after_count, n) is None,
            },
            field_list_error(cursor.bytes().len() as int, after_count, n)
                == field_list_error(cursor.bytes().len() as int, cursor.rest(), (n - i) as nat),
        decreases field_count - i,
    {
        let ghost before = cursor.rest();
        let (name, field) = match read_field(cursor) {
            Ok(f) => f,
            Err(e) => {
                assert(parse_field_list(before, (n - i) as nat) is None);
                assert(parse_model(start) is None);
                return Err(e);
            },
        };
        let ghost x = (name@, field@);
        fields.insert(name, field);
        proof {
            let m = (n - i) as nat;
            assert(parse_field_list(before, m) == match parse_field_list(cursor.rest(), (m - 1) as nat) {
                Some((p, rr)) => Some((seq![x] + p, rr)),
                None => None,
            });
            match parse_field_list(cursor.rest(), (m - 1) as nat) {
                Some((p, rr)) => {
                    assert(done + (seq![x] + p) =~= done.push(x) + p);
                },
                None => {},
            }
            assert(done.push(x).drop_last() =~= done);
            done = done.push(x);
        }
        i = i + 1;
    }
    assert(done + Seq::<(Seq<char>, FieldModel)>::empty() =~= done);
    let schema = ModelSchema { name: model_name, fields };
    proof {
        crate::names::lemma_sorted_distinct(schema@.fields);
        crate::storage::record::lemma_pairs_to_map_sorted(schema@.fields);
    }
    Ok(schema)
}


/// The schemas hold the decoded models, by name.
pub open spec fn schemas_hold(r: NameMap<ModelSchema>, m: Map<Seq<char>, DecodedModel>) -> bool {
    &&& r.wf()
    &&& forall|i: int| 0 <= i < r.items().len() ==> (#[trigger] r.items()[i]).1.wf() && r.items()[i].1@.name == r@[i].0
    &&& r.map().dom() == m.dom()
    &&& forall|k: Seq<char>| #[trigger] m.contains_key(k) ==> model_holds(r.map()[k], m[k])
}

/// The models of the schema file, by name; none when there is no file.
pub fn load_schemas(file: Option<&[u8]>) -> (r: Result<NameMap<ModelSchema>>)
    ensures
        match decode_schemas_spec(match file { Some(b) => Some(b@), None => None }) {
            Some(m) => r is Ok && schemas_hold(r.unwrap(), m),
            None => r matches Err(CrustDbError::StorageFormat(x)) && x@ == schemas_error(file.unwrap()@),
        },
{
    let mut schemas: NameMap<ModelSchema> = NameMap::new();
    let bytes = match file {
        None => {
            assert(schemas.map() =~= Map::<Seq<char>, ModelModel>::empty());
            return Ok(schemas);
        },
        Some(bytes) => bytes,
    };
    if !has_prefix(bytes, &schema_magic_bytes()) {
        return Err(CrustDbError::format("invalid schema file magic"));
    }
    let mut cursor = Cursor::new(bytes);
    let _ = cursor.read_exact(8);
    let model_count = cursor.read_u32()?;
    let ghost after_count = cursor.rest();
    let ghost n = model_count as nat;
    let ghost mut done: Seq<DecodedModel> = Seq::empty();
    assert(schemas.map() =~= Map::<Seq<char>, ModelModel>::empty());
    let mut i: u32 = 0;
    while i < model_count
        invariant
            cursor.wf(),
            cursor.bytes() == bytes@,
            file == Some(bytes),
            starts_with(bytes@, schema_magic()),
            parse_u32(bytes@.skip(8)) == Some((model_count, after_count)),
            n == model_count as nat,
            i <= model_count,
            schemas.wf(),
            forall|j: int| 0 <= j < schemas.items().len() ==> (#[trigger] schemas.items()[j]).1.wf()
                && schemas.items()[j].1@.name == schemas@[j].0,
            schemas.map().dom() == models_by_name(done).dom(),
            forall|k: Seq<char>| #[trigger] models_by_name(done).contains_key(k) ==> model_holds(schemas.map()[k], models_by_name(done)[k]),
            match parse_model_list(cursor.rest(), (n - i) as nat) {
                Some((p, rr)) => parse_model_list(after_count, n) == Some((done + p, rr)),
                None => parse_model_list(after_count, n) is None,
            },
            model_list_error(bytes@.len() as int, after_count, n)
                == model_list_error(bytes@.len() as int, cursor.rest(), (n - i) as nat),
        decreases model_count - i,
    {
        let ghost before = cursor.rest();
        let ghost before_items = schemas.items();
        let model = match read_model(&mut cursor) {
            Ok(m) => m,
            Err(e) => {
                assert(parse_model_list(before, (n - i) as nat) is None);
                return Err(e);
            },
        };
        let ghost d = parse_model(before).unwrap().0;
        let ghost mv = model;
        let name = model.name.clone();
        let ghost nv = name;
        schemas.insert(name, model);
        proof {
            let m = (n - i) as nat;
            assert(parse_model_list(before, m) == match parse_model_list(cursor.rest(), (m - 1) as nat) {
                Some((p, rr)) => Some((seq![d] + p, rr)),
                None => None,
            });
            match parse_model_list(cursor.rest(), (m - 1) as nat) {
                Some((p, rr)) => {
                    assert(done + (seq![d] + p) =~= done.push(d) + p);
                },
                None => {},
            }
            assert(done.push(d).drop_last() =~= done);
            assert forall|j: int| 0 <= j < schemas.items().len() implies (#[trigger] schemas.items()[j]).1.wf()
                && schemas.items()[j].1@.name == schemas@[j].0 by {
                if schemas.items()[j] != (nv, mv) {
                    let k = choose|k: int| 0 <= k < before_items.len() && before_items[k] == schemas.items()[j];
                    assert(before_items[k].1.wf());
                }
            }
            let new_map = models_by_name(done.push(d));
            assert(schemas.map().dom() =~= new_map.dom());
            assert forall|k: Seq<char>| #[trigger] new_map.contains_key(k) implies model_holds(schemas.map()[k], new_map[k]) by {
                if k != d.name {
                    assert(models_by_name(done).contains_key(k));
                }
            }
            done = done.push(d);
        }
        i = i + 1;
    }
    assert(done + Seq::<DecodedModel>::empty() =~= done);
    if !cursor.is_finished() {
        return Err(CrustDbError::format("schema file has trailing bytes"));
    }
    Ok(schemas)
}

// ---------------------------------------------------------------------------
// The schema file reads back what was written.
// ---------------------------------------------------------------------------

proof fn lemma_parse_flag_enc(x: bool, rest: Seq<u8>)
    ensures
        parse_flag(enc_flag(x) + rest) == Some((x, rest)),
{
    assert((enc_flag(x) + rest).skip(1) =~= rest);
}

proof fn lemma_parse_type_enc(t: DataType, rest: Seq<u8>)
    ensures
        parse_type(enc_type(t) + rest) == Some((t, rest)),
{
    assert((enc_type(t) + rest).skip(1) =~= rest);
}

proof fn lemma_parse_range_enc(range: Option<(i64, i64)>, rest: Seq<u8>)
    ensures
        parse_range(enc_range(range) + rest) == Some((range, rest)),
{
    let b = enc_range(range) + rest;
    match range {
        Some((lo, hi)) => {
            let t = spec_u64_to_le_bytes(hi as u64) + rest;
            assert(b =~= seq![1u8] + (spec_u64_to_le_bytes(lo as u64) + t));
            assert(b.skip(1) =~= spec_u64_to_le_bytes(lo as u64) + t);
            lemma_parse_u64_enc(lo as u64, t);
            lemma_parse_u64_enc(hi as u64, rest);
            lemma_i64_u64_roundtrip(lo);
            lemma_i64_u64_roundtrip(hi);
        },
        None => {
            assert(b.skip(1) =~= rest);
        },
    }
}

proof fn lemma_parse_default_enc(default: Option<ValueModel>, rest: Seq<u8>)
    requires
        match default {
            Some(v) => value_fits(v),
            None => true,
        },
    ensures
        parse_default(enc_default(default) + rest) == Some((default, rest)),
{
    let b = enc_default(default) + rest;
    match default {
        Some(v) => {
            assert(b.skip(1) =~= enc_value(v) + rest);
            lemma_parse_value_enc(v, rest);
        },
        None => {
            assert(b.skip(1) =~= rest);
        },
    }
}

#[verifier::rlimit(80)]
proof fn lemma_parse_field_enc(name: Seq<char>, f: FieldModel, rest: Seq<u8>)
    requires
        field_fits(name, f),
    ensures
        parse_field(enc_field(name, f) + rest) == Some(((name, f), rest)),
{
    reveal(parse_field);
    let r7 = rest;
    let r6 = enc_default(f.default) + r7;
    let r5 = enc_range(f.range) + r6;
    let r4 = enc_flag(f.required) + r5;
    let r3 = enc_flag(f.unique) + r4;
    let r2 = enc_flag(f.id) + r3;
    let r1 = enc_type(f.data_type) + r2;
    assert(enc_field(name, f) + rest =~= enc_str(name) + r1);
    lemma_parse_str_enc(name, r1);
    lemma_parse_type_enc(f.data_type, r2);
    lemma_parse_flag_enc(f.id, r3);
    lemma_parse_flag_enc(f.unique, r4);
    lemma_parse_flag_enc(f.required, r5);
    lemma_parse_range_enc(f.range, r6);
    lemma_parse_default_enc(f.default, r7);
}

proof fn lemma_field_list_first(fs: Seq<(Seq<char>, FieldModel)>)
    requires
        fs.len() > 0,
    ensures
        enc_field_list(fs) == enc_field(fs[0].0, fs[0].1) + enc_field_list(fs.drop_first()),
    decreases fs.len(),
{
    if fs.len() > 1 {
        lemma_field_list_first(fs.drop_last());
        assert(fs.drop_last().drop_first() =~= fs.drop_first().drop_last());
        assert(fs.drop_first().last() == fs.last());
    } else {
        assert(fs.drop_last() =~= Seq::<(Seq<char>, FieldModel)>::empty());
        assert(fs.drop_first() =~= Seq::<(Seq<char>, FieldModel)>::empty());
    }
}

#[verifier::rlimit(80)]
proof fn lemma_parse_field_list_enc(fs: Seq<(Seq<char>, FieldModel)>, rest: Seq<u8>)
    requires
        forall|i: int| 0 <= i < fs.len() ==> field_fits(#[trigger] fs[i].0, fs[i].1),
    ensures
        parse_field_list(enc_field_list(fs) + rest, fs.len()) == Some((fs, rest)),
    decreases fs.len(),
{
    if fs.len() == 0 {
        assert(enc_field_list(fs) + rest =~= rest);
    } else {
        lemma_field_list_first(fs);
        let tail = fs.drop_first();
        assert(field_fits(fs[0].0, fs[0].1));
        assert forall|i: int| 0 <= i < tail.len() implies field_fits(#[trigger] tail[i].0, tail[i].1) by {
            assert(tail[i] == fs[i + 1]);
        }
        lemma_parse_field_list_enc(tail, rest);
        let r = enc_field_list(tail) + rest;
        assert(enc_field_list(fs) + rest =~= enc_field(fs[0].0, fs[0].1) + r);
        lemma_parse_field_enc(fs[0].0, fs[0].1, r);
        assert(seq![fs[0]] + tail =~= fs);
    }
}

/// What a model written to the schema file decodes to.
pub open spec fn decoded_of(m: ModelModel) -> DecodedModel {
    DecodedModel { name: m.name, fields: crate::names::as_map(m.fields) }
}

#[verifier::rlimit(80)]
proof fn lemma_parse_model_enc(m: ModelModel, rest: Seq<u8>)
    requires
        model_fits(m),
        crate::names::names_sorted(m.fields),
    ensures
        parse_model(enc_model(m) + rest) == Some((decoded_of(m), rest)),
{
    let r2 = enc_field_list(m.fields) + rest;
    let r1 = spec_u32_to_le_bytes(m.fields.len() as u32) + r2;
    assert(enc_model(m) + rest =~= enc_str(m.name) + r1);
    lemma_parse_str_enc(m.name, r1);
    lemma_parse_u32_enc(m.fields.len() as u32, r2);
    lemma_parse_field_list_enc(m.fields, rest);
    lemma_pairs_to_map_sorted(m.fields);
}

proof fn lemma_model_list_first(ms: Seq<ModelModel>)
    requires
        ms.len() > 0,
    ensures
        enc_model_list(ms) == enc_model(ms[0]) + enc_model_list(ms.drop_first()),
    decreases ms.len(),
{
    if ms.len() > 1 {
        lemma_model_list_first(ms.drop_last());
        assert(ms.drop_last().drop_first() =~= ms.drop_first().drop_last());
        assert(ms.drop_first().last() == ms.last());
    } else {
        assert(ms.drop_last() =~= Seq::<ModelModel>::empty());
        assert(ms.drop_first() =~= Seq::<ModelModel>::empty());
    }
}

#[verifier::rlimit(80)]
proof fn lemma_parse_model_list_enc(ms: Seq<ModelModel>, rest: Seq<u8>)
    requires
        forall|i: int| 0 <= i < ms.len() ==> model_fits(#[trigger] ms[i]) && crate::names::names_sorted(ms[i].fields),
    ensures
        parse_model_list(enc_model_list(ms) + rest, ms.len()) == Some((ms.map_values(|m: ModelModel| decoded_of(m)), rest)),
    decreases ms.len(),
{
    if ms.len() == 0 {
        assert(enc_model_list(ms) + rest =~= rest);
        assert(ms.map_values(|m: ModelModel| decoded_of(m)) =~= Seq::<DecodedModel>::empty());
    } else {
        lemma_model_list_first(ms);
        let tail = ms.drop_first();
        assert(model_fits(ms[0]) && crate::names::names_sorted(ms[0].fields));
        assert forall|i: int| 0 <= i < tail.len() implies model_fits(#[trigger] tail[i]) && crate::names::names_sorted(tail[i].fields) by {
            assert(tail[i] == ms[i + 1]);
        }
        lemma_parse_model_list_enc(tail, rest);
        let r = enc_model_list(tail) + rest;
        assert(enc_model_list(ms) + rest =~= enc_model(ms[0]) + r);
        lemma_parse_model_enc(ms[0], r);
        assert(seq![decoded_of(ms[0])] + tail.map_values(|m: ModelModel| decoded_of(m)) =~= ms.map_values(|m: ModelModel| decoded_of(m)));
    }
}

/// The schema file written for some models reads back as those models, by name.
pub proof fn lemma_schemas_roundtrip(models: Seq<ModelModel>)
    requires
        models.len() <= u32::MAX,
        forall|i: int| 0 <= i < models.len() ==> model_fits(#[trigger] models[i]) && crate::names::names_sorted(models[i].fields),
    ensures
        decode_schemas_spec(Some(enc_schemas(models))) == Some(models_by_name(models.map_values(|m: ModelModel| decoded_of(m)))),
{
    let b = enc_schemas(models);
    let r = enc_model_list(models) + Seq::<u8>::empty();
    assert(b.take(8) =~= schema_magic());
    assert(b.skip(8) =~= spec_u32_to_le_bytes(models.len() as u32) + r);
    lemma_parse_u32_enc(models.len() as u32, r);
    lemma_parse_model_list_enc(models, Seq::<u8>::empty());
    assert(r =~= enc_model_list(models));
}


/// With different names, each decoded model is found under its name.
proof fn lemma_models_by_name_at(ds: Seq<DecodedModel>, i: int)
    requires
        0 <= i < ds.len(),
        forall|a: int, b: int| 0 <= a < b < ds.len() ==> (#[trigger] ds[a]).name != (#[trigger] ds[b]).name,
    ensures
        models_by_name(ds).contains_key(ds[i].name),
        models_by_name(ds)[ds[i].name] == ds[i],
    decreases ds.len(),
{
    if i < ds.len() - 1 {
        let d2 = ds.drop_last();
        assert(ds.last() == ds[ds.len() - 1]);
        assert(ds[i].name != ds[ds.len() - 1].name);
        assert forall|a: int, b: int| 0 <= a < b < d2.len() implies (#[trigger] d2[a]).name != (#[trigger] d2[b]).name by {
            assert(d2[a] == ds[a] && d2[b] == ds[b]);
        }
        assert(d2[i] == ds[i]);
        lemma_models_by_name_at(d2, i);
    }
}

/// Every name of the decoded models is the name of one of them.
proof fn lemma_models_by_name_dom(ds: Seq<DecodedModel>, n: Seq<char>)
    requires
        models_by_name(ds).contains_key(n),
    ensures
        exists|i: int| 0 <= i < ds.len() && (#[trigger] ds[i]).name == n,
    decreases ds.len(),
{
    if ds.len() > 0 && ds.last().name != n {
        lemma_models_by_name_dom(ds.drop_last(), n);
        let i = choose|i: int| 0 <= i < ds.drop_last().len() && (#[trigger] ds.drop_last()[i]).name == n;
        assert(ds[i] == ds.drop_last()[i]);
    } else if ds.len() > 0 {
        assert(ds[ds.len() - 1].name == n);
    }
}

/// Loading the schema file saved for models with different names maps each
/// model's name to that model, and no other name to anything.
pub proof fn lemma_saved_schemas_load(models: Seq<ModelModel>, order: Seq<ModelModel>)
    requires
        names_distinct(models),
        in_name_order(order, models),
        models.len() <= u32::MAX,
        forall|i: int| 0 <= i < models.len() ==> model_fits(#[trigger] models[i]) && crate::names::names_sorted(models[i].fields),
    ensures
        decode_schemas_spec(Some(enc_schemas(order))) is Some,
        forall|i: int| 0 <= i < models.len() ==> decode_schemas_spec(Some(enc_schemas(order))).unwrap().contains_key(
            (#[trigger] models[i]).name) && model_holds(models[i], decode_schemas_spec(Some(enc_schemas(order))).unwrap()[models[i].name]),
        forall|n: Seq<char>| #[trigger] decode_schemas_spec(Some(enc_schemas(order))).unwrap().contains_key(n)
            ==> exists|i: int| 0 <= i < models.len() && (#[trigger] models[i]).name == n,
{
    assert forall|i: int| 0 <= i < order.len() implies model_fits(#[trigger] order[i]) && crate::names::names_sorted(order[i].fields) by {
        assert(order.contains(order[i]));
        let j = choose|j: int| 0 <= j < models.len() && models[j] == order[i];
        assert(model_fits(models[j]));
    }
    lemma_schemas_roundtrip(order);
    let ds = order.map_values(|m: ModelModel| decoded_of(m));
    assert forall|a: int, b: int| 0 <= a < b < ds.len() implies (#[trigger] ds[a]).name != (#[trigger] ds[b]).name by {
        lemma_name_lt_total(order[a].name, order[b].name);
    }
    let m = decode_schemas_spec(Some(enc_schemas(order))).unwrap();
    assert forall|i: int| 0 <= i < models.len() implies m.contains_key((#[trigger] models[i]).name)
        && model_holds(models[i], m[models[i].name]) by {
        assert(models.contains(models[i]));
        let j = choose|j: int| 0 <= j < order.len() && order[j] == models[i];
        lemma_models_by_name_at(ds, j);
    }
    assert forall|n: Seq<char>| #[trigger] m.contains_key(n) implies exists|i: int| 0 <= i < models.len() && (#[trigger] models[i]).name == n by {
        lemma_models_by_name_dom(ds, n);
        let j = choose|j: int| 0 <= j < ds.len() && (#[trigger] ds[j]).name == n;
        assert(order.contains(order[j]));
        let i = choose|i: int| 0 <= i < models.len() && models[i] == order[j];
        assert(models[i].name == n);
    }
}

} // verus!
