use crate::error::{join, CrustDbError, Result};
use crate::storage::record::string_from_utf8;
use crate::text::{decimal, u64_text};
use crate::order::{bytes_lt, lemma_bytes_lt_skip, name_bytes, name_lt};
use crate::value::{Value, ValueModel};
use vstd::prelude::*;
use vstd::utf8::{decode_utf8, valid_utf8};

verus! {

pub const KEY_NULL: u8 = 0;
pub const KEY_INT: u8 = 1;
pub const KEY_STRING: u8 = 2;
pub const KEY_BOOL: u8 = 3;

/// The bit that turns two's-complement order into unsigned order.
pub const SIGN_FLIP: u64 = 0x8000_0000_0000_0000;

/// Byte `k` (0 is the most significant) of a `u64`.
pub open spec fn be_byte(x: u64, k: u64) -> u8 {
    ((x >> ((56 - 8 * k) as u64)) & 0xff) as u8
}

/// A `u64` as 8 big-endian bytes.
pub open spec fn be64(x: u64) -> Seq<u8> {
    seq![be_byte(x, 0), be_byte(x, 1), be_byte(x, 2), be_byte(x, 3), be_byte(x, 4), be_byte(x, 5), be_byte(x, 6), be_byte(x, 7)]
}

/// The `u64` that 8 big-endian bytes spell.
pub open spec fn from_be64(b: Seq<u8>) -> u64 {
    (b[0] as u64) << 56 | (b[1] as u64) << 48 | (b[2] as u64) << 40 | (b[3] as u64) << 32
        | (b[4] as u64) << 24 | (b[5] as u64) << 16 | (b[6] as u64) << 8 | (b[7] as u64)
}

/// The sortable form of an integer: its bits with the sign bit flipped.
pub open spec fn sortable(v: i64) -> u64 {
    (v as u64) ^ SIGN_FLIP
}

/// The index key of a value: a type tag, then a payload that sorts as the value does.
pub open spec fn enc_key(v: ValueModel) -> Seq<u8> {
    match v {
        ValueModel::Null => seq![KEY_NULL],
        ValueModel::Int(x) => seq![KEY_INT] + be64(sortable(x)),
        ValueModel::Str(s) => seq![KEY_STRING] + name_bytes(s),
        ValueModel::Bool(b) => seq![KEY_BOOL, if b { 1u8 } else { 0u8 }],
    }
}

/// The value an index key stands for, if the bytes are a key at all.
pub open spec fn dec_key(b: Seq<u8>) -> Option<ValueModel> {
    if b.len() == 0 {
        None
    } else {
        let tag = b[0];
        let payload = b.skip(1);
        if tag == KEY_NULL && payload.len() == 0 {
            Some(ValueModel::Null)
        } else if tag == KEY_INT && payload.len() == 8 {
            Some(ValueModel::Int((from_be64(payload) ^ SIGN_FLIP) as i64))
        } else if tag == KEY_STRING {
            if valid_utf8(payload) {
                Some(ValueModel::Str(decode_utf8(payload)))
            } else {
                None
            }
        } else if tag == KEY_BOOL && payload.len() == 1 {
            if payload[0] == 0 {
                Some(ValueModel::Bool(false))
            } else if payload[0] == 1 {
                Some(ValueModel::Bool(true))
            } else {
                None
            }
        } else {
            None
        }
    }
}

/// Why bytes that are no index key are refused.
pub open spec fn key_error(b: Seq<u8>) -> Seq<char> {
    if b.len() == 0 {
        "empty index key"@
    } else if b[0] == KEY_STRING {
        "index string key is not UTF-8"@
    } else if b[0] == KEY_BOOL && b.len() == 2 {
        "invalid index bool key: "@ + decimal(b[1] as int)
    } else {
        "invalid index key tag or payload: "@ + decimal(b[0] as int)
    }
}

proof fn lemma_be64_roundtrip(x: u64)
    ensures
        from_be64(be64(x)) == x,
{
    let b = be64(x);
    assert(b[0] == be_byte(x, 0) && b[1] == be_byte(x, 1) && b[2] == be_byte(x, 2) && b[3] == be_byte(x, 3));
    assert(b[4] == be_byte(x, 4) && b[5] == be_byte(x, 5) && b[6] == be_byte(x, 6) && b[7] == be_byte(x, 7));
    assert(((((x >> 56) & 0xff) as u8) as u64) << 56 | ((((x >> 48) & 0xff) as u8) as u64) << 48
        | ((((x >> 40) & 0xff) as u8) as u64) << 40 | ((((x >> 32) & 0xff) as u8) as u64) << 32
        | ((((x >> 24) & 0xff) as u8) as u64) << 24 | ((((x >> 16) & 0xff) as u8) as u64) << 16
        | ((((x >> 8) & 0xff) as u8) as u64) << 8 | ((((x >> 0) & 0xff) as u8) as u64) == x) by (bit_vector);
}

proof fn lemma_sortable_roundtrip(v: i64)
    ensures
        (sortable(v) ^ SIGN_FLIP) as i64 == v,
{
    assert((((v as u64) ^ 0x8000_0000_0000_0000u64) ^ 0x8000_0000_0000_0000u64) as i64 == v) by (bit_vector);
}

/// Every value decodes from its own key.
pub proof fn lemma_key_roundtrip(v: ValueModel)
    ensures
        dec_key(enc_key(v)) == Some(v),
{
    let b = enc_key(v);
    match v {
        ValueModel::Null => {},
        ValueModel::Int(x) => {
            assert(b.skip(1) =~= be64(sortable(x)));
            lemma_be64_roundtrip(sortable(x));
            lemma_sortable_roundtrip(x);
        },
        ValueModel::Str(s) => {
            assert(b.skip(1) =~= name_bytes(s));
            vstd::utf8::encode_utf8_valid_utf8(s);
            vstd::utf8::encode_utf8_decode_utf8(s);
        },
        ValueModel::Bool(x) => {
            assert(b.skip(1) =~= seq![if x { 1u8 } else { 0u8 }]);
        },
    }
}

/// Different values have different keys: values of different types never collide.
pub proof fn lemma_key_injective(a: ValueModel, b: ValueModel)
    ensures
        enc_key(a) == enc_key(b) <==> a == b,
{
    lemma_key_roundtrip(a);
    lemma_key_roundtrip(b);
}

/// Byte strings of one length order by their first difference.
pub proof fn lemma_bytes_lt_at(a: Seq<u8>, b: Seq<u8>, i: int)
    requires
        0 <= i < a.len(),
        i < b.len(),
        a.subrange(0, i) == b.subrange(0, i),
        a[i] < b[i],
    ensures
        bytes_lt(a, b),
{
    lemma_bytes_lt_skip(a, b, i);
    assert(a.skip(i)[0] == a[i]);
    assert(b.skip(i)[0] == b[i]);
}

proof fn lemma_first_difference(a: Seq<u8>, b: Seq<u8>, k: int)
    requires
        a.len() == 8,
        b.len() == 8,
        0 <= k < 8,
        forall|j: int| 0 <= j < k ==> a[j] == b[j],
        a[k] < b[k],
    ensures
        bytes_lt(a, b),
{
    assert(a.subrange(0, k) =~= b.subrange(0, k));
    lemma_bytes_lt_at(a, b, k);
}

proof fn lemma_be64_order(x: u64, y: u64)
    requires
        x < y,
    ensures
        bytes_lt(be64(x), be64(y)),
{
    let a = be64(x);
    let b = be64(y);
    assert(
        be_byte(x, 0) < be_byte(y, 0)
        || (be_byte(x, 0) == be_byte(y, 0) && be_byte(x, 1) < be_byte(y, 1))
        || (be_byte(x, 0) == be_byte(y, 0) && be_byte(x, 1) == be_byte(y, 1) && be_byte(x, 2) < be_byte(y, 2))
        || (be_byte(x, 0) == be_byte(y, 0) && be_byte(x, 1) == be_byte(y, 1) && be_byte(x, 2) == be_byte(y, 2)
            && be_byte(x, 3) < be_byte(y, 3))
        || (be_byte(x, 0) == be_byte(y, 0) && be_byte(x, 1) == be_byte(y, 1) && be_byte(x, 2) == be_byte(y, 2)
            && be_byte(x, 3) == be_byte(y, 3) && be_byte(x, 4) < be_byte(y, 4))
        || (be_byte(x, 0) == be_byte(y, 0) && be_byte(x, 1) == be_byte(y, 1) && be_byte(x, 2) == be_byte(y, 2)
            && be_byte(x, 3) == be_byte(y, 3) && be_byte(x, 4) == be_byte(y, 4) && be_byte(x, 5) < be_byte(y, 5))
        || (be_byte(x, 0) == be_byte(y, 0) && be_byte(x, 1) == be_byte(y, 1) && be_byte(x, 2) == be_byte(y, 2)
            && be_byte(x, 3) == be_byte(y, 3) && be_byte(x, 4) == be_byte(y, 4) && be_byte(x, 5) == be_byte(y, 5)
            && be_byte(x, 6) < be_byte(y, 6))
        || (be_byte(x, 0) == be_byte(y, 0) && be_byte(x, 1) == be_byte(y, 1) && be_byte(x, 2) == be_byte(y, 2)
            && be_byte(x, 3) == be_byte(y, 3) && be_byte(x, 4) == be_byte(y, 4) && be_byte(x, 5) == be_byte(y, 5)
            && be_byte(x, 6) == be_byte(y, 6) && be_byte(x, 7) < be_byte(y, 7))
    ) by (bit_vector)
        requires
            x < y,
    ;
    if be_byte(x, 0) < be_byte(y, 0) {
        lemma_first_difference(a, b, 0);
    } else if be_byte(x, 1) < be_byte(y, 1) && be_byte(x, 0) == be_byte(y, 0) {
        lemma_first_difference(a, b, 1);
    } else if be_byte(x, 2) < be_byte(y, 2) && be_byte(x, 0) == be_byte(y, 0) && be_byte(x, 1) == be_byte(y, 1) {
        lemma_first_difference(a, b, 2);
    } else if be_byte(x, 3) < be_byte(y, 3) && be_byte(x, 0) == be_byte(y, 0) && be_byte(x, 1) == be_byte(y, 1)
        && be_byte(x, 2) == be_byte(y, 2) {
        lemma_first_difference(a, b, 3);
    } else if be_byte(x, 4) < be_byte(y, 4) && be_byte(x, 0) == be_byte(y, 0) && be_byte(x, 1) == be_byte(y, 1)
        && be_byte(x, 2) == be_byte(y, 2) && be_byte(x, 3) == be_byte(y, 3) {
        lemma_first_difference(a, b, 4);
    } else if be_byte(x, 5) < be_byte(y, 5) && be_byte(x, 0) == be_byte(y, 0) && be_byte(x, 1) == be_byte(y, 1)
        && be_byte(x, 2) == be_byte(y, 2) && be_byte(x, 3) == be_byte(y, 3) && be_byte(x, 4) == be_byte(y, 4) {
        lemma_first_difference(a, b, 5);
    } else if be_byte(x, 6) < be_byte(y, 6) && be_byte(x, 0) == be_byte(y, 0) && be_byte(x, 1) == be_byte(y, 1)
        && be_byte(x, 2) == be_byte(y, 2) && be_byte(x, 3) == be_byte(y, 3) && be_byte(x, 4) == be_byte(y, 4)
        && be_byte(x, 5) == be_byte(y, 5) {
        lemma_first_difference(a, b, 6);
    } else {
        lemma_first_difference(a, b, 7);
    }
}

/// Integer keys sort as the integers do.
pub proof fn lemma_int_key_order(x: i64, y: i64)
    requires
        x < y,
    ensures
        bytes_lt(enc_key(ValueModel::Int(x)), enc_key(ValueModel::Int(y))),
{
    assert(((x as u64) ^ 0x8000_0000_0000_0000u64) < ((y as u64) ^ 0x8000_0000_0000_0000u64)) by (bit_vector)
        requires
            x < y,
    ;
    lemma_be64_order(sortable(x), sortable(y));
    let a = enc_key(ValueModel::Int(x));
    let b = enc_key(ValueModel::Int(y));
    assert(a.subrange(0, 1) =~= b.subrange(0, 1));
    lemma_bytes_lt_skip(a, b, 1);
    assert(a.skip(1) =~= be64(sortable(x)));
    assert(b.skip(1) =~= be64(sortable(y)));
}

/// String keys sort as the strings do.
pub proof fn lemma_string_key_order(x: Seq<char>, y: Seq<char>)
    requires
        name_lt(x, y),
    ensures
        bytes_lt(enc_key(ValueModel::Str(x)), enc_key(ValueModel::Str(y))),
{
    let a = enc_key(ValueModel::Str(x));
    let b = enc_key(ValueModel::Str(y));
    assert(a.subrange(0, 1) =~= b.subrange(0, 1));
    lemma_bytes_lt_skip(a, b, 1);
    assert(a.skip(1) =~= name_bytes(x));
    assert(b.skip(1) =~= name_bytes(y));
}

/// Appends `x` as 8 big-endian bytes.
fn write_be64(out: &mut Vec<u8>, x: u64)
    ensures
        final(out)@ == old(out)@ + be64(x),
{
    let ghost start = out@;
    out.push(((x >> 56) & 0xff) as u8);
    out.push(((x >> 48) & 0xff) as u8);
    out.push(((x >> 40) & 0xff) as u8);
    out.push(((x >> 32) & 0xff) as u8);
    out.push(((x >> 24) & 0xff) as u8);
    out.push(((x >> 16) & 0xff) as u8);
    out.push(((x >> 8) & 0xff) as u8);
    out.push((x & 0xff) as u8);
    assert(x & 0xff == (x >> 0) & 0xff) by (bit_vector);
    assert(out@ =~= start + be64(x));
}

/// The index key of a value.
pub fn encode_key(value: &Value) -> (r: Vec<u8>)
    ensures
        r@ == enc_key(value@),
{
    let mut out = Vec::new();
    match value {
        Value::Null => {
            out.push(KEY_NULL);
        },
        Value::Int(v) => {
            out.push(KEY_INT);
            let s = (*v as u64) ^ SIGN_FLIP;
            write_be64(&mut out, s);
        },
        Value::String(s) => {
            out.push(KEY_STRING);
            out.extend_from_slice(s.as_str().as_bytes());
        },
        Value::Bool(b) => {
            out.push(KEY_BOOL);
            out.push(if *b { 1u8 } else { 0u8 });
        },
    }
    assert(out@ =~= enc_key(value@));
    out
}

/// The value an index key stands for.
pub fn decode_key(bytes: &[u8]) -> (r: Result<Value>)
    ensures
        r is Ok == dec_key(bytes@) is Some,
        r is Ok ==> dec_key(bytes@) == Some(r.unwrap()@),
        r is Err ==> r matches Err(CrustDbError::StorageFormat(_)),
        r matches Err(CrustDbError::StorageFormat(m)) ==> m@ == key_error(bytes@),
{
    if bytes.len() == 0 {
        return Err(CrustDbError::format("empty index key"));
    }
    let tag = bytes[0];
    let payload = vstd::slice::slice_subrange(bytes, 1, bytes.len());
    assert(payload@ =~= bytes@.skip(1));
    if tag == KEY_NULL && payload.len() == 0 {
        Ok(Value::Null)
    } else if tag == KEY_INT && payload.len() == 8 {
        let s = (payload[0] as u64) << 56 | (payload[1] as u64) << 48 | (payload[2] as u64) << 40
            | (payload[3] as u64) << 32 | (payload[4] as u64) << 24 | (payload[5] as u64) << 16
            | (payload[6] as u64) << 8 | (payload[7] as u64);
        Ok(Value::Int((s ^ SIGN_FLIP) as i64))
    } else if tag == KEY_STRING {
        match string_from_utf8(vstd::slice::slice_to_vec(payload)) {
            Some(s) => {
                proof { vstd::utf8::encode_utf8_decode_utf8(s@); }
                Ok(Value::String(s))
            },
            None => Err(CrustDbError::format("index string key is not UTF-8")),
        }
    } else if tag == KEY_BOOL && payload.len() == 1 {
        if payload[0] == 0 {
            Ok(Value::Bool(false))
        } else if payload[0] == 1 {
            Ok(Value::Bool(true))
        } else {
            Err(CrustDbError::StorageFormat(join("invalid index bool key: ", u64_text(payload[0] as u64).as_str())))
        }
    } else {
        Err(CrustDbError::StorageFormat(join("invalid index key tag or payload: ", u64_text(tag as u64).as_str())))
    }
}

} // verus!
