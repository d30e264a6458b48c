use crate::error::{join, CrustDbError, Result};
use crate::names::{as_map, names_sorted, NameMap};
use crate::order::name_bytes;
use crate::text::{decimal, u64_text};
use crate::value::{Value, ValueModel};
use vstd::bytes::{
    spec_u16_from_le_bytes, spec_u16_to_le_bytes, spec_u32_from_le_bytes, spec_u32_to_le_bytes,
    spec_u64_from_le_bytes, spec_u64_to_le_bytes,
};
use vstd::prelude::*;
use vstd::utf8::{decode_utf8, encode_utf8, valid_utf8};

verus! {

/// A row of a table: field names and their values, in name order.
pub type Record = NameMap<Value>;

/// The content of a record: its fields in name order.
pub type RecordModel = Seq<(Seq<char>, ValueModel)>;

pub const VALUE_NULL: u8 = 0;
pub const VALUE_INT: u8 = 1;
pub const VALUE_STRING: u8 = 2;
pub const VALUE_BOOL: u8 = 3;

// ---------------------------------------------------------------------------
// The byte format, stated as encoders and as parsers over what is left to read.
// ---------------------------------------------------------------------------

pub open spec fn parse_u8(b: Seq<u8>) -> Option<(u8, Seq<u8>)> {
    if b.len() >= 1 { Some((b[0], b.skip(1))) } else { None }
}

pub open spec fn parse_u16(b: Seq<u8>) -> Option<(u16, Seq<u8>)> {
    if b.len() >= 2 { Some((spec_u16_from_le_bytes(b.take(2)), b.skip(2))) } else { None }
}

pub open spec fn parse_u32(b: Seq<u8>) -> Option<(u32, Seq<u8>)> {
    if b.len() >= 4 { Some((spec_u32_from_le_bytes(b.take(4)), b.skip(4))) } else { None }
}

pub open spec fn parse_u64(b: Seq<u8>) -> Option<(u64, Seq<u8>)> {
    if b.len() >= 8 { Some((spec_u64_from_le_bytes(b.take(8)), b.skip(8))) } else { None }
}

pub open spec fn parse_i64(b: Seq<u8>) -> Option<(i64, Seq<u8>)> {
    match parse_u64(b) {
        Some((x, r)) => Some((x as i64, r)),
        None => None,
    }
}

/// A string: its byte length as a little-endian `u16`, then its UTF-8 bytes.
pub open spec fn parse_str(b: Seq<u8>) -> Option<(Seq<char>, Seq<u8>)> {
    match parse_u16(b) {
        Some((n, r)) => if n <= r.len() && valid_utf8(r.take(n as int)) {
            Some((decode_utf8(r.take(n as int)), r.skip(n as int)))
        } else {
            None
        },
        None => None,
    }
}

/// A value: a tag byte, then its payload.
pub open spec fn parse_value(b: Seq<u8>) -> Option<(ValueModel, Seq<u8>)> {
    match parse_u8(b) {
        Some((tag, r)) => if tag == VALUE_NULL {
            Some((ValueModel::Null, r))
        } else if tag == VALUE_INT {
            match parse_i64(r) {
                Some((x, r2)) => Some((ValueModel::Int(x), r2)),
                None => None,
            }
        } else if tag == VALUE_STRING {
            match parse_str(r) {
                Some((s, r2)) => Some((ValueModel::Str(s), r2)),
                None => None,
            }
        } else if tag == VALUE_BOOL {
            match parse_u8(r) {
                Some((x, r2)) => if x == 0 {
                    Some((ValueModel::Bool(false), r2))
                } else if x == 1 {
                    Some((ValueModel::Bool(true), r2))
                } else {
                    None
                },
                None => None,
            }
        } else {
            None
        },
        None => None,
    }
}

/// `n` fields, each a name then a value, in the order they are stored.
pub open spec fn parse_fields(b: Seq<u8>, n: nat) -> Option<(RecordModel, Seq<u8>)>
    decreases n,
{
    if n == 0 {
        Some((Seq::empty(), b))
    } else {
        match parse_str(b) {
            Some((name, r)) => match parse_value(r) {
                Some((v, r2)) => match parse_fields(r2, (n - 1) as nat) {
                    Some((rest, r3)) => Some((seq![(name, v)] + rest, r3)),
                    None => None,
                },
                None => None,
            },
            None => None,
        }
    }
}

/// The map that results from storing the pairs one after another, a later pair
/// replacing an earlier one with the same name.
pub open spec fn pairs_to_map<W>(p: Seq<(Seq<char>, W)>) -> Map<Seq<char>, W>
    decreases p.len(),
{
    if p.len() == 0 {
        Map::empty()
    } else {
        pairs_to_map(p.drop_last()).insert(p.last().0, p.last().1)
    }
}

/// What the bytes of a record decode to: a field count, the fields, and nothing after.
pub open spec fn spec_decode_record(b: Seq<u8>) -> Option<Map<Seq<char>, ValueModel>> {
    match parse_u32(b) {
        Some((n, r)) => match parse_fields(r, n as nat) {
            Some((pairs, rest)) => if rest.len() == 0 {
                Some(pairs_to_map(pairs))
            } else {
                None
            },
            None => None,
        },
        None => None,
    }
}

// ---------------------------------------------------------------------------
// Why a read fails. Each message is that of the first read that fails, for
// bytes `b` that are what is left of `total` bytes.
// ---------------------------------------------------------------------------

/// A read of `len` more bytes runs past the end.
pub open spec fn short_read(total: int, b: Seq<u8>, len: int) -> Seq<char> {
    if total - b.len() + len > usize::MAX {
        "record cursor overflow"@
    } else {
        "unexpected end of record"@
    }
}

/// Why a string cannot be read from `b`.
pub open spec fn str_error(total: int, b: Seq<u8>) -> Seq<char> {
    match parse_u16(b) {
        None => short_read(total, b, 2),
        Some((n, r)) => if n > r.len() {
            short_read(total, r, n as int)
        } else {
            "string value is not valid UTF-8"@
        },
    }
}

/// Why a value cannot be read from `b`.
pub open spec fn value_error(total: int, b: Seq<u8>) -> Seq<char> {
    match parse_u8(b) {
        None => short_read(total, b, 1),
        Some((tag, r)) => if tag == VALUE_INT {
            short_read(total, r, 8)
        } else if tag == VALUE_STRING {
            str_error(total, r)
        } else if tag == VALUE_BOOL {
            match parse_u8(r) {
                None => short_read(total, r, 1),
                Some((x, _)) => "invalid bool payload: "@ + decimal(x as int),
            }
        } else {
            "unknown value tag: "@ + decimal(tag as int)
        },
    }
}

/// Why `n` fields cannot be read from `b`.
pub open spec fn fields_error(total: int, b: Seq<u8>, n: nat) -> Seq<char>
    decreases n,
{
    if n == 0 {
        Seq::empty()
    } else {
        match parse_str(b) {
            None => str_error(total, b),
            Some((_, r)) => match parse_value(r) {
                None => value_error(total, r),
                Some((_, r2)) => fields_error(total, r2, (n - 1) as nat),
            },
        }
    }
}

/// Why `b` does not read as a record.
pub open spec fn record_error(b: Seq<u8>) -> Seq<char> {
    match parse_u32(b) {
        None => short_read(b.len() as int, b, 4),
        Some((n, r)) => match parse_fields(r, n as nat) {
            None => fields_error(b.len() as int, r, n as nat),
            Some(_) => "record has trailing bytes"@,
        },
    }
}

/// The message of a string or a field count too long for the format.
pub open spec fn too_large_message(name: Seq<char>) -> Seq<char> {
    name + " is too large for this storage format"@
}

/// Why a record does not fit the format: too many fields, else a string too long.
pub open spec fn encode_error(r: RecordModel) -> Seq<char> {
    if r.len() > u32::MAX {
        too_large_message("record field count"@)
    } else {
        too_large_message("string length"@)
    }
}

pub open spec fn str_fits(s: Seq<char>) -> bool {
    name_bytes(s).len() <= u16::MAX
}

pub open spec fn enc_str(s: Seq<char>) -> Seq<u8> {
    spec_u16_to_le_bytes(name_bytes(s).len() as u16) + name_bytes(s)
}

pub open spec fn value_fits(v: ValueModel) -> bool {
    match v {
        ValueModel::Str(s) => str_fits(s),
        _ => true,
    }
}

pub open spec fn enc_value(v: ValueModel) -> Seq<u8> {
    match v {
        ValueModel::Null => seq![VALUE_NULL],
        ValueModel::Int(x) => seq![VALUE_INT] + spec_u64_to_le_bytes(x as u64),
        ValueModel::Str(s) => seq![VALUE_STRING] + enc_str(s),
        ValueModel::Bool(x) => seq![VALUE_BOOL, if x { 1u8 } else { 0u8 }],
    }
}

pub open spec fn enc_fields(p: RecordModel) -> Seq<u8>
    decreases p.len(),
{
    if p.len() == 0 {
        Seq::empty()
    } else {
        enc_str(p[0].0) + enc_value(p[0].1) + enc_fields(p.drop_first())
    }
}

/// A record can be stored when it has at most `u32::MAX` fields and every name and
/// string value is at most `u16::MAX` bytes long.
pub open spec fn record_fits(p: RecordModel) -> bool {
    &&& p.len() <= u32::MAX
    &&& forall|i: int| 0 <= i < p.len() ==> str_fits(#[trigger] p[i].0) && value_fits(p[i].1)
}

pub open spec fn enc_record(p: RecordModel) -> Seq<u8> {
    spec_u32_to_le_bytes(p.len() as u32) + enc_fields(p)
}

// ---------------------------------------------------------------------------
// Lemmas on the format.
// ---------------------------------------------------------------------------

pub proof fn lemma_parse_u16_enc(x: u16, rest: Seq<u8>)
    ensures
        parse_u16(spec_u16_to_le_bytes(x) + rest) == Some((x, rest)),
{
    vstd::bytes::lemma_auto_spec_u16_to_from_le_bytes();
    let b = spec_u16_to_le_bytes(x) + rest;
    assert(b.take(2) =~= spec_u16_to_le_bytes(x));
    assert(b.skip(2) =~= rest);
}

pub proof fn lemma_parse_u32_enc(x: u32, rest: Seq<u8>)
    ensures
        parse_u32(spec_u32_to_le_bytes(x) + rest) == Some((x, rest)),
{
    vstd::bytes::lemma_auto_spec_u32_to_from_le_bytes();
    let b = spec_u32_to_le_bytes(x) + rest;
    assert(b.take(4) =~= spec_u32_to_le_bytes(x));
    assert(b.skip(4) =~= rest);
}

pub proof fn lemma_parse_u64_enc(x: u64, rest: Seq<u8>)
    ensures
        parse_u64(spec_u64_to_le_bytes(x) + rest) == Some((x, rest)),
{
    vstd::bytes::lemma_auto_spec_u64_to_from_le_bytes();
    let b = spec_u64_to_le_bytes(x) + rest;
    assert(b.take(8) =~= spec_u64_to_le_bytes(x));
    assert(b.skip(8) =~= rest);
}

pub proof fn lemma_i64_u64_roundtrip(x: i64)
    ensures
        (x as u64) as i64 == x,
{
    assert((x as u64) as i64 == x) by (bit_vector);
}

pub proof fn lemma_parse_str_enc(s: Seq<char>, rest: Seq<u8>)
    requires
        str_fits(s),
    ensures
        parse_str(enc_str(s) + rest) == Some((s, rest)),
{
    let nb = name_bytes(s);
    let n = nb.len() as u16;
    lemma_parse_u16_enc(n, nb + rest);
    assert(enc_str(s) + rest =~= spec_u16_to_le_bytes(n) + (nb + rest));
    assert((nb + rest).take(n as int) =~= nb);
    assert((nb + rest).skip(n as int) =~= rest);
    vstd::utf8::encode_utf8_valid_utf8(s);
    vstd::utf8::encode_utf8_decode_utf8(s);
}

pub proof fn lemma_parse_value_enc(v: ValueModel, rest: Seq<u8>)
    requires
        value_fits(v),
    ensures
        parse_value(enc_value(v) + rest) == Some((v, rest)),
{
    let b = enc_value(v) + rest;
    match v {
        ValueModel::Null => {
            assert(b.skip(1) =~= rest);
        },
        ValueModel::Int(x) => {
            assert(b.skip(1) =~= spec_u64_to_le_bytes(x as u64) + rest);
            lemma_parse_u64_enc(x as u64, rest);
            lemma_i64_u64_roundtrip(x);
        },
        ValueModel::Str(s) => {
            assert(b.skip(1) =~= enc_str(s) + rest);
            lemma_parse_str_enc(s, rest);
        },
        ValueModel::Bool(x) => {
            assert(b.skip(1) =~= seq![if x { 1u8 } else { 0u8 }] + rest);
            assert(b.skip(1).skip(1) =~= rest);
        },
    }
}

pub proof fn lemma_parse_fields_enc(p: RecordModel, rest: Seq<u8>)
    requires
        forall|i: int| 0 <= i < p.len() ==> str_fits(#[trigger] p[i].0) && value_fits(p[i].1),
    ensures
        parse_fields(enc_fields(p) + rest, p.len()) == Some((p, rest)),
    decreases p.len(),
{
    if p.len() > 0 {
        let tail = p.drop_first();
        assert forall|i: int| 0 <= i < tail.len() implies str_fits(#[trigger] tail[i].0) && value_fits(tail[i].1) by {
            assert(tail[i] == p[i + 1]);
        }
        assert(str_fits(p[0].0) && value_fits(p[0].1));
        lemma_parse_fields_enc(tail, rest);
        let after_value = enc_fields(tail) + rest;
        lemma_parse_value_enc(p[0].1, after_value);
        lemma_parse_str_enc(p[0].0, enc_value(p[0].1) + after_value);
        assert(enc_fields(p) + rest =~= enc_str(p[0].0) + (enc_value(p[0].1) + after_value));
        assert(seq![(p[0].0, p[0].1)] + tail =~= p);
    }
}

pub proof fn lemma_enc_fields_push(p: RecordModel, x: (Seq<char>, ValueModel))
    ensures
        enc_fields(p.push(x)) == enc_fields(p) + (enc_str(x.0) + enc_value(x.1)),
    decreases p.len(),
{
    if p.len() == 0 {
        assert(p.push(x).drop_first() =~= Seq::<(Seq<char>, ValueModel)>::empty());
        assert(enc_fields(Seq::<(Seq<char>, ValueModel)>::empty()) == Seq::<u8>::empty());
        assert(p.push(x)[0] == x);
        assert(enc_fields(p.push(x)) =~= enc_fields(p) + (enc_str(x.0) + enc_value(x.1)));
    } else {
        lemma_enc_fields_push(p.drop_first(), x);
        assert(p.push(x).drop_first() =~= p.drop_first().push(x));
        assert(enc_fields(p.push(x)) =~= enc_fields(p) + (enc_str(x.0) + enc_value(x.1)));
    }
}

pub proof fn lemma_pairs_to_map_sorted<W>(p: Seq<(Seq<char>, W)>)
    requires
        names_sorted(p),
    ensures
        pairs_to_map(p) == as_map(p),
    decreases p.len(),
{
    if p.len() == 0 {
        assert(as_map(p) =~= Map::<Seq<char>, W>::empty());
    } else {
        let init = p.drop_last();
        let last = p.last();
        assert(names_sorted(init)) by {
            assert forall|i: int, j: int| 0 <= i < j < init.len() implies crate::order::name_lt(#[trigger] init[i].0, #[trigger] init[j].0) by {
                assert(init[i] == p[i] && init[j] == p[j]);
            }
        }
        lemma_pairs_to_map_sorted(init);
        assert(!crate::names::has_name(init, last.0)) by {
            if crate::names::has_name(init, last.0) {
                let i = choose|i: int| 0 <= i < init.len() && #[trigger] init[i].0 == last.0;
                assert(init[i] == p[i]);
                assert(crate::order::name_lt(p[i].0, p[p.len() - 1].0));
                crate::order::lemma_name_lt_total(last.0, last.0);
            }
        }
        assert(init.push((last.0, last.1)) =~= p);
        crate::names::lemma_sorted_distinct(init);
        crate::names::lemma_as_map_push(init, last.0, last.1);
    }
}

/// A record that fits decodes from its own encoding to the map it holds.
pub proof fn lemma_record_roundtrip(p: RecordModel)
    requires
        names_sorted(p),
        record_fits(p),
    ensures
        spec_decode_record(enc_record(p)) == Some(as_map(p)),
{
    lemma_parse_u32_enc(p.len() as u32, enc_fields(p));
    lemma_parse_fields_enc(p, Seq::empty());
    assert(enc_fields(p) + Seq::<u8>::empty() =~= enc_fields(p));
    lemma_pairs_to_map_sorted(p);
}

// ---------------------------------------------------------------------------
// Writing.
// ---------------------------------------------------------------------------

/// Appends `value` as a little-endian `u16`.
pub fn write_u16(out: &mut Vec<u8>, value: u16)
    ensures
        final(out)@ == old(out)@ + spec_u16_to_le_bytes(value),
{
    let bytes = vstd::bytes::u16_to_le_bytes(value);
    out.extend_from_slice(bytes.as_slice());
}

/// Appends `value` as a little-endian `u32`.
pub fn write_u32(out: &mut Vec<u8>, value: u32)
    ensures
        final(out)@ == old(out)@ + spec_u32_to_le_bytes(value),
{
    let bytes = vstd::bytes::u32_to_le_bytes(value);
    out.extend_from_slice(bytes.as_slice());
}

/// Appends `value` as a little-endian `u64`.
pub fn write_u64(out: &mut Vec<u8>, value: u64)
    ensures
        final(out)@ == old(out)@ + spec_u64_to_le_bytes(value),
{
    let bytes = vstd::bytes::u64_to_le_bytes(value);
    out.extend_from_slice(bytes.as_slice());
}

/// Appends `value` as a little-endian two's-complement `i64`.
pub fn write_i64(out: &mut Vec<u8>, value: i64)
    ensures
        final(out)@ == old(out)@ + spec_u64_to_le_bytes(value as u64),
{
    write_u64(out, value as u64);
}

/// `value` as a `u16`, or a storage format error that names what was too large.
pub fn usize_to_u16(value: usize, name: &str) -> (r: Result<u16>)
    ensures
        value <= u16::MAX ==> r == Ok::<u16, CrustDbError>(value as u16),
        value > u16::MAX ==> (r matches Err(CrustDbError::StorageFormat(m))
            && m@ == name@ + " is too large for this storage format"@),
{
    if value <= 0xffff {
        Ok(value as u16)
    } else {
        Err(CrustDbError::StorageFormat(join(name, " is too large for this storage format")))
    }
}

/// `value` as a `u32`, or a storage format error that names what was too large.
pub fn usize_to_u32(value: usize, name: &str) -> (r: Result<u32>)
    ensures
        value <= u32::MAX ==> r == Ok::<u32, CrustDbError>(value as u32),
        value > u32::MAX ==> (r matches Err(CrustDbError::StorageFormat(m))
            && m@ == name@ + " is too large for this storage format"@),
{
    if value <= 0xffff_ffff {
        Ok(value as u32)
    } else {
        Err(CrustDbError::StorageFormat(join(name, " is too large for this storage format")))
    }
}

/// Appends `value` as a string: its byte length, then its bytes.
pub fn write_string(out: &mut Vec<u8>, value: &str) -> (r: Result<()>)
    ensures
        r is Ok == str_fits(value@),
        r is Ok ==> final(out)@ == old(out)@ + enc_str(value@),
        r is Err ==> final(out)@ == old(out)@ && r matches Err(CrustDbError::StorageFormat(_)),
        r matches Err(CrustDbError::StorageFormat(m)) ==> m@ == too_large_message("string length"@),
{
    let bytes = value.as_bytes();
    let len = usize_to_u16(bytes.len(), "string length")?;
    write_u16(out, len);
    out.extend_from_slice(bytes);
    Ok(())
}

/// Appends a value: its tag, then its payload.
pub fn write_value(out: &mut Vec<u8>, value: &Value) -> (r: Result<()>)
    ensures
        r is Ok == value_fits(value@),
        r is Ok ==> final(out)@ == old(out)@ + enc_value(value@),
        r is Err ==> r matches Err(CrustDbError::StorageFormat(_)),
        r matches Err(CrustDbError::StorageFormat(m)) ==> m@ == too_large_message("string length"@),
{
    let ghost start = out@;
    match value {
        Value::Null => {
            out.push(VALUE_NULL);
            assert(out@ =~= start + enc_value(value@));
        },
        Value::Int(x) => {
            out.push(VALUE_INT);
            write_i64(out, *x);
            assert(out@ =~= start + enc_value(value@));
        },
        Value::String(s) => {
            out.push(VALUE_STRING);
            write_string(out, s.as_str())?;
            assert(out@ =~= start + enc_value(value@));
        },
        Value::Bool(b) => {
            out.push(VALUE_BOOL);
            out.push(if *b { 1u8 } else { 0u8 });
            assert(out@ =~= start + enc_value(value@));
        },
    }
    Ok(())
}

/// The bytes of a record: its field count, then each name and value in name order.
pub fn encode_record(record: &Record) -> (r: Result<Vec<u8>>)
    ensures
        r is Ok == record_fits(record@),
        r is Ok ==> r.unwrap()@ == enc_record(record@),
        r is Err ==> r matches Err(CrustDbError::StorageFormat(_)),
        r matches Err(CrustDbError::StorageFormat(m)) ==> m@ == encode_error(record@),
{
    let mut out = Vec::new();
    let count = usize_to_u32(record.len(), "record field count")?;
    write_u32(&mut out, count);
    let ghost p = record@;
    let mut i: usize = 0;
    assert(p.take(0) =~= Seq::<(Seq<char>, ValueModel)>::empty());
    while i < record.len()
        invariant
            p == record@,
            p.len() <= u32::MAX,
            count == p.len(),
            i <= p.len(),
            out@ == spec_u32_to_le_bytes(count) + enc_fields(p.take(i as int)),
            forall|j: int| 0 <= j < i ==> str_fits(#[trigger] p[j].0) && value_fits(p[j].1),
        decreases p.len() - i,
    {
        let name = record.name_at(i);
        let value = record.value_at(i);
        let ghost before = out@;
        let r1 = write_string(&mut out, name.as_str());
        if r1.is_err() {
            return Err(r1.unwrap_err());
        }
        let r2 = write_value(&mut out, value);
        if r2.is_err() {
            return Err(r2.unwrap_err());
        }
        proof {
            lemma_enc_fields_push(p.take(i as int), p[i as int]);
            assert(p.take(i as int).push(p[i as int]) =~= p.take(i + 1));
            assert(out@ =~= spec_u32_to_le_bytes(count) + enc_fields(p.take(i + 1)));
        }
        i = i + 1;
    }
    assert(p.take(i as int) =~= p);
    Ok(out)
}

// ---------------------------------------------------------------------------
// Reading.
// ---------------------------------------------------------------------------

/// `String::from_utf8`, which takes a byte vector as a string when it is valid
/// UTF-8 and refuses it otherwise; the string it gives holds those very bytes.
#[verifier::external_body]
pub(crate) fn string_from_utf8(bytes: Vec<u8>) -> (r: Option<String>)
    ensures
        r is Some <==> valid_utf8(bytes@),
        r is Some ==> encode_utf8(r.unwrap()@) == bytes@,
{
    String::from_utf8(bytes).ok()
}

/// A reading position in a byte slice.
pub struct Cursor<'a> {
    bytes: &'a [u8],
    position: usize,
}

impl<'a> Cursor<'a> {
    pub closed spec fn bytes(&self) -> Seq<u8> {
        self.bytes@
    }

    pub closed spec fn pos(&self) -> int {
        self.position as int
    }

    /// What is left to read.
    pub open spec fn rest(&self) -> Seq<u8> {
        self.bytes().skip(self.pos())
    }

    pub open spec fn wf(&self) -> bool {
        0 <= self.pos() <= self.bytes().len()
    }

    pub fn new(bytes: &'a [u8]) -> (r: Self)
        ensures
            r.wf(),
            r.bytes() == bytes@,
            r.pos() == 0,
            r.rest() == bytes@,
    {
        let r = Cursor { bytes, position: 0 };
        assert(r.rest() =~= bytes@);
        r
    }

    pub fn position(&self) -> (r: usize)
        ensures
            r == self.pos(),
    {
        self.position
    }

    pub fn is_finished(&self) -> (r: bool)
        requires
            self.wf(),
        ensures
            r == (self.rest().len() == 0),
    {
        self.position == self.bytes.len()
    }

    /// The next `len` bytes.
    pub fn read_exact(&mut self, len: usize) -> (r: Result<&'a [u8]>)
        requires
            old(self).wf(),
        ensures
            final(self).wf(),
            final(self).bytes() == old(self).bytes(),
            r is Ok == (len <= old(self).rest().len()),
            r is Ok ==> r.unwrap()@ == old(self).rest().take(len as int) && final(self).rest()
                == old(self).rest().skip(len as int) && final(self).pos() == old(self).pos() + len,
            r is Err ==> r matches Err(CrustDbError::StorageFormat(_)),
            r matches Err(CrustDbError::StorageFormat(m)) ==> m@ == short_read(old(self).bytes().len() as int, old(self).rest(), len as int),
    {
        let total = self.bytes.len();
        let end = match self.position.checked_add(len) {
            Some(end) => end,
            None => {
                return Err(CrustDbError::format("record cursor overflow"));
            },
        };
        if end > self.bytes.len() {
            return Err(CrustDbError::format("unexpected end of record"));
        }
        let slice = vstd::slice::slice_subrange(self.bytes, self.position, end);
        proof {
            let b = self.bytes@;
            let p = self.position as int;
            assert(slice@ =~= b.skip(p).take(len as int));
            assert(b.skip(end as int) =~= b.skip(p).skip(len as int));
        }
        self.position = end;
        Ok(slice)
    }

    pub fn read_u8(&mut self) -> (r: Result<u8>)
        requires
            old(self).wf(),
        ensures
            final(self).wf(),
            final(self).bytes() == old(self).bytes(),
            r is Ok == parse_u8(old(self).rest()) is Some,
            r is Ok ==> parse_u8(old(self).rest()) == Some((r.unwrap(), final(self).rest())),
            r is Err ==> r matches Err(CrustDbError::StorageFormat(_)),
            r matches Err(CrustDbError::StorageFormat(m)) ==> m@ == short_read(old(self).bytes().len() as int, old(self).rest(), 1),
    {
        let bytes = self.read_exact(1)?;
        Ok(bytes[0])
    }

    pub fn read_u16(&mut self) -> (r: Result<u16>)
        requires
            old(self).wf(),
        ensures
            final(self).wf(),
            final(self).bytes() == old(self).bytes(),
            r is Ok == parse_u16(old(self).rest()) is Some,
            r is Ok ==> parse_u16(old(self).rest()) == Some((r.unwrap(), final(self).rest())),
            r is Err ==> r matches Err(CrustDbError::StorageFormat(_)),
            r matches Err(CrustDbError::StorageFormat(m)) ==> m@ == short_read(old(self).bytes().len() as int, old(self).rest(), 2),
    {
        let bytes = self.read_exact(2)?;
        Ok(vstd::bytes::u16_from_le_bytes(bytes))
    }

    pub fn read_u32(&mut self) -> (r: Result<u32>)
        requires
            old(self).wf(),
        ensures
            final(self).wf(),
            final(self).bytes() == old(self).bytes(),
            r is Ok == parse_u32(old(self).rest()) is Some,
            r is Ok ==> parse_u32(old(self).rest()) == Some((r.unwrap(), final(self).rest())),
            r is Err ==> r matches Err(CrustDbError::StorageFormat(_)),
            r matches Err(CrustDbError::StorageFormat(m)) ==> m@ == short_read(old(self).bytes().len() as int, old(self).rest(), 4),
    {
        let bytes = self.read_exact(4)?;
        Ok(vstd::bytes::u32_from_le_bytes(bytes))
    }

    pub fn read_u64(&mut self) -> (r: Result<u64>)
        requires
            old(self).wf(),
        ensures
            final(self).wf(),
            final(self).bytes() == old(self).bytes(),
            r is Ok == parse_u64(old(self).rest()) is Some,
            r is Ok ==> parse_u64(old(self).rest()) == Some((r.unwrap(), final(self).rest())),
            r is Err ==> r matches Err(CrustDbError::StorageFormat(_)),
            r matches Err(CrustDbError::StorageFormat(m)) ==> m@ == short_read(old(self).bytes().len() as int, old(self).rest(), 8),
    {
        let bytes = self.read_exact(8)?;
        Ok(vstd::bytes::u64_from_le_bytes(bytes))
    }

    pub fn read_i64(&mut self) -> (r: Result<i64>)
        requires
            old(self).wf(),
        ensures
            final(self).wf(),
            final(self).bytes() == old(self).bytes(),
            r is Ok == parse_i64(old(self).rest()) is Some,
            r is Ok ==> parse_i64(old(self).rest()) == Some((r.unwrap(), final(self).rest())),
            r is Err ==> r matches Err(CrustDbError::StorageFormat(_)),
            r matches Err(CrustDbError::StorageFormat(m)) ==> m@ == short_read(old(self).bytes().len() as int, old(self).rest(), 8),
    {
        let x = self.read_u64()?;
        Ok(x as i64)
    }

    pub fn read_string(&mut self) -> (r: Result<String>)
        requires
            old(self).wf(),
        ensures
            final(self).wf(),
            final(self).bytes() == old(self).bytes(),
            r is Ok == parse_str(old(self).rest()) is Some,
            r is Ok ==> parse_str(old(self).rest()) == Some((r.unwrap()@, final(self).rest())),
            r is Err ==> r matches Err(CrustDbError::StorageFormat(_)),
            r matches Err(CrustDbError::StorageFormat(m)) ==> m@ == str_error(old(self).bytes().len() as int, old(self).rest()),
    {
        let ghost start = self.rest();
        let len = self.read_u16()?;
        let ghost after_len = self.rest();
        let bytes = self.read_exact(len as usize)?;
        let owned = vstd::slice::slice_to_vec(bytes);
        match string_from_utf8(owned) {
            Some(s) => {
                proof {
                    vstd::utf8::encode_utf8_decode_utf8(s@);
                }
                Ok(s)
            },
            None => Err(CrustDbError::format("string value is not valid UTF-8")),
        }
    }

    pub fn read_value(&mut self) -> (r: Result<Value>)
        requires
            old(self).wf(),
        ensures
            final(self).wf(),
            final(self).bytes() == old(self).bytes(),
            r is Ok == parse_value(old(self).rest()) is Some,
            r is Ok ==> parse_value(old(self).rest()) == Some((r.unwrap()@, final(self).rest())),
            r is Err ==> r matches Err(CrustDbError::StorageFormat(_)),
            r matches Err(CrustDbError::StorageFormat(m)) ==> m@ == value_error(old(self).bytes().len() as int, old(self).rest()),
    {
        let tag = self.read_u8()?;
        if tag == VALUE_NULL {
            Ok(Value::Null)
        } else if tag == VALUE_INT {
            Ok(Value::Int(self.read_i64()?))
        } else if tag == VALUE_STRING {
            Ok(Value::String(self.read_string()?))
        } else if tag == VALUE_BOOL {
            let b = self.read_u8()?;
            if b == 0 {
                Ok(Value::Bool(false))
            } else if b == 1 {
                Ok(Value::Bool(true))
            } else {
                Err(CrustDbError::StorageFormat(join("invalid bool payload: ", u64_text(b as u64).as_str())))
            }
        } else {
            Err(CrustDbError::StorageFormat(join("unknown value tag: ", u64_text(tag as u64).as_str())))
        }
    }
}

/// Reads a record: its field count, then that many names and values, and nothing more.
/// A later field replaces an earlier one with the same name.
pub fn decode_record(bytes: &[u8]) -> (r: Result<Record>)
    ensures
        r is Ok == spec_decode_record(bytes@) is Some,
        r is Ok ==> r.unwrap().wf() && spec_decode_record(bytes@) == Some(r.unwrap().map()),
        r is Err ==> r matches Err(CrustDbError::StorageFormat(_)),
        r matches Err(CrustDbError::StorageFormat(m)) ==> m@ == record_error(bytes@),
{
    let mut cursor = Cursor::new(bytes);
    let count = cursor.read_u32()?;
    let ghost after_count = cursor.rest();
    let ghost n = count as nat;
    let mut record: Record = NameMap::new();
    let ghost mut done: RecordModel = Seq::empty();
    let mut i: u32 = 0;
    while i < count
        invariant
            cursor.wf(),
            cursor.bytes() == bytes@,
            parse_u32(bytes@) == Some((count, after_count)),
            n == count as nat,
            i <= count,
            record.wf(),
            record.map() == pairs_to_map(done),
            match parse_fields(cursor.rest(), (n - i) as nat) {
                Some((p, rr)) => parse_fields(after_count, n) == Some((done + p, rr)),
                None => parse_fields(after_count, n) is None,
            },
            parse_fields(after_count, n) is None ==> fields_error(bytes@.len() as int, after_count, n)
                == fields_error(bytes@.len() as int, cursor.rest(), (n - i) as nat),
        decreases count - i,
    {
        let ghost before = cursor.rest();
        let name = match cursor.read_string() {
            Ok(name) => name,
            Err(e) => {
                return Err(e);
            },
        };
        let value = match cursor.read_value() {
            Ok(value) => value,
            Err(e) => {
                return Err(e);
            },
        };
        let ghost x = (name@, value@);
        record.insert(name, value);
        proof {
            let m = (n - i) as nat;
            assert(fields_error(bytes@.len() as int, before, m) == fields_error(bytes@.len() as int, cursor.rest(), (m - 1) as nat));
            assert(parse_fields(before, m) == match parse_fields(cursor.rest(), (m - 1) as nat) {
                Some((p, rr)) => Some((seq![x] + p, rr)),
                None => None,
            });
            match parse_fields(cursor.rest(), (m - 1) as nat) {
                Some((p, rr)) => {
                    assert(done + (seq![x] + p) =~= done.push(x) + p);
                },
                None => {},
            }
            assert(done.push(x).drop_last() =~= done);
            done = done.push(x);
        }
        i = i + 1;
    }
    assert(parse_fields(cursor.rest(), 0) == Some((Seq::<(Seq<char>, ValueModel)>::empty(), cursor.rest())));
    assert(done + Seq::<(Seq<char>, ValueModel)>::empty() =~= done);
    if !cursor.is_finished() {
        return Err(CrustDbError::format("record has trailing bytes"));
    }
    Ok(record)
}

} // verus!
