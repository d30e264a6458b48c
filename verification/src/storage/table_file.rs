use crate::engine::{next_after, RowId, StoredRow};
use crate::error::{join, CrustDbError, Result};
use crate::names::{as_map, lemma_sorted_unique, names_sorted, NameMap};
use crate::storage::record::{
    decode_record, enc_record, encode_error, encode_record, lemma_parse_u32_enc, lemma_parse_u64_enc, lemma_record_roundtrip,
    parse_u32, parse_u64, parse_u8, record_error, record_fits, short_read, spec_decode_record, too_large_message, usize_to_u32,
    write_u32, write_u64, Cursor, Record, RecordModel,
};
use crate::text::decimal;
use crate::value::{Duplicate, ValueModel};
use vstd::bytes::{spec_u32_to_le_bytes, spec_u64_to_le_bytes};
use vstd::prelude::*;

verus! {

/// The first bytes of a table operation log.
pub open spec fn table_magic() -> Seq<u8> {
    seq![67u8, 82, 85, 83, 84, 84, 66, 49]
}

pub const OP_INSERT: u8 = 1;
pub const OP_DELETE: u8 = 2;
pub const OP_UPDATE: u8 = 3;

/// The bytes of "CRUSTTB1".
pub fn table_magic_bytes() -> (r: Vec<u8>)
    ensures
        r@ == table_magic(),
{
    let r = vec![67u8, 82, 85, 83, 84, 84, 66, 49];
    assert(r@ =~= table_magic());
    r
}

/// Where the operation log of a model lies, relative to the database directory.
pub fn table_path(model_name: &str) -> (r: String)
    ensures
        r@ == "tables/"@ + model_name@ + ".tbl"@,
{
    let a = join("tables/", model_name);
    join(a.as_str(), ".tbl")
}

/// A row as the log leaves it: its id, its fields, and whether it was deleted.
pub struct LogRow {
    pub row_id: RowId,
    pub record: Map<Seq<char>, ValueModel>,
    pub deleted: bool,
}

/// The position of the row with id `id`, from `i` on.
pub open spec fn id_position(rows: Seq<LogRow>, id: RowId, i: int) -> Option<int>
    decreases rows.len() - i,
{
    if i < 0 || i >= rows.len() {
        None
    } else if rows[i].row_id == id {
        Some(i)
    } else {
        id_position(rows, id, i + 1)
    }
}

proof fn lemma_id_position(rows: Seq<LogRow>, id: RowId, k: int)
    requires
        0 <= k,
        id_position(rows, id, k) is Some,
    ensures
        0 <= id_position(rows, id, k).unwrap() < rows.len(),
        rows[id_position(rows, id, k).unwrap()].row_id == id,
    decreases rows.len() - k,
{
    if k < rows.len() && rows[k].row_id != id {
        lemma_id_position(rows, id, k + 1);
    }
}

/// A record payload: its length as a `u32`, then its bytes.
pub open spec fn parse_payload(b: Seq<u8>) -> Option<(Map<Seq<char>, ValueModel>, Seq<u8>)> {
    match parse_u32(b) {
        Some((n, r)) => if n <= r.len() {
            match spec_decode_record(r.take(n as int)) {
                Some(m) => Some((m, r.skip(n as int))),
                None => None,
            }
        } else {
            None
        },
        None => None,
    }
}

/// Replays the operations in `b` on `rows`, `max_id` being the largest row id seen:
/// the rows and the largest id after them, or `None` when an operation is malformed
/// or names a row it cannot apply to.
pub open spec fn replay_from(b: Seq<u8>, rows: Seq<LogRow>, max_id: RowId) -> Option<(Seq<LogRow>, RowId)>
    decreases b.len(),
{
    if b.len() == 0 {
        Some((rows, max_id))
    } else if b.len() < 9 {
        None
    } else {
        let op = b[0];
        let id = parse_u64(b.skip(1)).unwrap().0;
        let rest = b.skip(9);
        let m = if id > max_id { id } else { max_id };
        if op == OP_INSERT {
            match parse_payload(rest) {
                Some((rec, after)) => if id_position(rows, id, 0) is Some {
                    None
                } else {
                    replay_from(after, rows.push(LogRow { row_id: id, record: rec, deleted: false }), m)
                },
                None => None,
            }
        } else if op == OP_DELETE {
            match id_position(rows, id, 0) {
                Some(p) => if rows[p].deleted {
                    None
                } else {
                    replay_from(rest, rows.update(p, LogRow { row_id: id, record: rows[p].record, deleted: true }), m)
                },
                None => None,
            }
        } else if op == OP_UPDATE {
            match parse_payload(rest) {
                Some((rec, after)) => match id_position(rows, id, 0) {
                    Some(p) => if rows[p].deleted {
                        None
                    } else {
                        replay_from(after, rows.update(p, LogRow { row_id: id, record: rec, deleted: false }), m)
                    },
                    None => None,
                },
                None => None,
            }
        } else {
            None
        }
    }
}

/// Why a record payload cannot be read from `b`, what is left of `total` bytes.
pub open spec fn payload_error(total: int, b: Seq<u8>) -> Seq<char> {
    match parse_u32(b) {
        None => short_read(total, b, 4),
        Some((n, r)) => if n > r.len() {
            short_read(total, r, n as int)
        } else {
            record_error(r.take(n as int))
        },
    }
}

/// Why replaying the operations in `b` on `rows` fails: the message of the
/// first operation that cannot be read or applied.
pub open spec fn replay_error(total: int, b: Seq<u8>, rows: Seq<LogRow>) -> Seq<char>
    decreases b.len(),
{
    if b.len() == 0 {
        Seq::empty()
    } else if b.len() < 9 {
        short_read(total, b.skip(1), 8)
    } else {
        let op = b[0];
        let id = parse_u64(b.skip(1)).unwrap().0;
        let rest = b.skip(9);
        if op == OP_INSERT {
            match parse_payload(rest) {
                Some((rec, after)) => if id_position(rows, id, 0) is Some {
                    "duplicate row id in table file: "@ + decimal(id as int)
                } else {
                    replay_error(total, after, rows.push(LogRow { row_id: id, record: rec, deleted: false }))
                },
                None => payload_error(total, rest),
            }
        } else if op == OP_DELETE {
            match id_position(rows, id, 0) {
                Some(p) => if rows[p].deleted {
                    "operation references deleted row id: "@ + decimal(id as int)
                } else {
                    replay_error(total, rest, rows.update(p, LogRow { row_id: id, record: rows[p].record, deleted: true }))
                },
                None => "operation references unknown row id: "@ + decimal(id as int),
            }
        } else if op == OP_UPDATE {
            match parse_payload(rest) {
                Some((rec, after)) => match id_position(rows, id, 0) {
                    Some(p) => if rows[p].deleted {
                        "operation references deleted row id: "@ + decimal(id as int)
                    } else {
                        replay_error(total, after, rows.update(p, LogRow { row_id: id, record: rec, deleted: false }))
                    },
                    None => "operation references unknown row id: "@ + decimal(id as int),
                },
                None => payload_error(total, rest),
            }
        } else {
            "unknown table operation: "@ + decimal(op as int)
        }
    }
}

/// The rows an operation log (without its magic) replays to, with the largest row id.
pub open spec fn replay_spec(b: Seq<u8>) -> Option<(Seq<LogRow>, RowId)> {
    replay_from(b, Seq::empty(), 0)
}

/// The bytes of one operation: its code, the row id, and for an insert or update
/// the record's length and bytes.
pub open spec fn enc_op(op: u8, id: RowId, record: Option<RecordModel>) -> Seq<u8> {
    seq![op] + spec_u64_to_le_bytes(id) + match record {
        Some(r) => spec_u32_to_le_bytes(enc_record(r).len() as u32) + enc_record(r),
        None => Seq::empty(),
    }
}

/// The rows read from a log, as the engine keeps them.
#[derive(Debug)]
pub struct TableLoad {
    pub rows: Vec<StoredRow>,
    pub next_row_id: RowId,
}

/// The stored rows hold the log rows.
pub open spec fn rows_match(rows: Seq<StoredRow>, log: Seq<LogRow>) -> bool {
    &&& rows.len() == log.len()
    &&& forall|i: int| 0 <= i < rows.len() ==> (#[trigger] rows[i]).record.wf()
        && rows[i].row_id == log[i].row_id && rows[i].deleted == log[i].deleted
        && rows[i].record.map() == log[i].record
}

/// A record that an operation can carry.
pub open spec fn op_fits(rec: RecordModel) -> bool {
    record_fits(rec) && enc_record(rec).len() <= u32::MAX
}

/// Why an operation with this record cannot be written.
pub open spec fn append_error(rec: RecordModel) -> Seq<char> {
    if !record_fits(rec) {
        encode_error(rec)
    } else {
        too_large_message("record length"@)
    }
}

fn append_operation(out: &mut Vec<u8>, operation: u8, row_id: RowId, record: Option<&Record>) -> (r: Result<()>)
    requires
        record is Some ==> record.unwrap().wf(),
    ensures
        match record {
            None => r is Ok && final(out)@ == old(out)@ + enc_op(operation, row_id, None),
            Some(rec) => {
                &&& r is Ok <==> record_fits(rec@) && enc_record(rec@).len() <= u32::MAX
                &&& r is Ok ==> final(out)@ == old(out)@ + enc_op(operation, row_id, Some(rec@))
                &&& (r matches Err(CrustDbError::StorageFormat(m)) ==> m@ == append_error(rec@))
                &&& r is Err ==> r matches Err(CrustDbError::StorageFormat(_))
            },
        },
{
    let ghost start = out@;
    let mut bytes = Vec::new();
    bytes.push(operation);
    write_u64(&mut bytes, row_id);
    match record {
        Some(record) => {
            let payload = encode_record(record)?;
            let len = usize_to_u32(payload.len(), "record length")?;
            write_u32(&mut bytes, len);
            bytes.extend_from_slice(payload.as_slice());
        },
        None => {},
    }
    out.extend_from_slice(bytes.as_slice());
    assert(out@ =~= start + enc_op(operation, row_id, match record { Some(r) => Some(r@), None => None }));
    Ok(())
}

/// Appends an insert of `record` under `row_id` to a log.
pub fn append_insert(out: &mut Vec<u8>, row_id: RowId, record: &Record) -> (r: Result<()>)
    requires
        record.wf(),
    ensures
        r is Ok <==> record_fits(record@) && enc_record(record@).len() <= u32::MAX,
        r is Ok ==> final(out)@ == old(out)@ + enc_op(OP_INSERT, row_id, Some(record@)),
        r is Err ==> r matches Err(CrustDbError::StorageFormat(_)),
        r matches Err(CrustDbError::StorageFormat(m)) ==> m@ == append_error(record@),
{
    append_operation(out, OP_INSERT, row_id, Some(record))
}

/// Appends an update of row `row_id` to `record` to a log.
pub fn append_update(out: &mut Vec<u8>, row_id: RowId, record: &Record) -> (r: Result<()>)
    requires
        record.wf(),
    ensures
        r is Ok <==> record_fits(record@) && enc_record(record@).len() <= u32::MAX,
        r is Ok ==> final(out)@ == old(out)@ + enc_op(OP_UPDATE, row_id, Some(record@)),
        r is Err ==> r matches Err(CrustDbError::StorageFormat(_)),
        r matches Err(CrustDbError::StorageFormat(m)) ==> m@ == append_error(record@),
{
    append_operation(out, OP_UPDATE, row_id, Some(record))
}

/// Appends a delete of row `row_id` to a log.
pub fn append_delete(out: &mut Vec<u8>, row_id: RowId) -> (r: Result<()>)
    ensures
        r is Ok,
        final(out)@ == old(out)@ + enc_op(OP_DELETE, row_id, None),
{
    append_operation(out, OP_DELETE, row_id, None)
}

/// Whether a log must first be started with its magic (`true`) before operations are
/// appended; refused when the file holds a log of the old format.
pub fn needs_magic(existing: Option<&[u8]>) -> (r: Result<bool>)
    ensures
        match existing {
            None => r == Ok::<bool, CrustDbError>(true),
            Some(b) => if b@.len() == 0 {
                r == Ok::<bool, CrustDbError>(true)
            } else if starts_with(b@, table_magic()) {
                r == Ok::<bool, CrustDbError>(false)
            } else {
                r matches Err(CrustDbError::StorageFormat(m))
                    && m@ == "legacy table file must be loaded before appending operations"@
            },
        },
{
    match existing {
        None => Ok(true),
        Some(bytes) => {
            if bytes.len() == 0 {
                Ok(true)
            } else if has_prefix(bytes, &table_magic_bytes()) {
                Ok(false)
            } else {
                Err(CrustDbError::format("legacy table file must be loaded before appending operations"))
            }
        },
    }
}

pub open spec fn starts_with(b: Seq<u8>, prefix: Seq<u8>) -> bool {
    prefix.len() <= b.len() && b.take(prefix.len() as int) == prefix
}

/// Whether `bytes` begin with `prefix`.
pub fn has_prefix(bytes: &[u8], prefix: &Vec<u8>) -> (r: bool)
    ensures
        r == starts_with(bytes@, prefix@),
{
    if prefix.len() > bytes.len() {
        return false;
    }
    let mut i: usize = 0;
    while i < prefix.len()
        invariant
            prefix@.len() <= bytes@.len(),
            i <= prefix@.len(),
            forall|j: int| 0 <= j < i ==> bytes@[j] == prefix@[j],
        decreases prefix@.len() - i,
    {
        if bytes[i] != prefix[i] {
            assert(bytes@.take(prefix@.len() as int)[i as int] != prefix@[i as int]);
            return false;
        }
        i = i + 1;
    }
    assert(bytes@.take(prefix@.len() as int) =~= prefix@);
    true
}


/// Reads a record payload: its length, then the record.
pub fn read_operation_record(cursor: &mut Cursor) -> (r: Result<Record>)
    requires
        old(cursor).wf(),
    ensures
        final(cursor).wf(),
        final(cursor).bytes() == old(cursor).bytes(),
        r is Ok == parse_payload(old(cursor).rest()) is Some,
        r is Ok ==> r.unwrap().wf() && parse_payload(old(cursor).rest()) == Some((r.unwrap().map(), final(cursor).rest())),
        r is Err ==> r matches Err(CrustDbError::StorageFormat(_)),
        r matches Err(CrustDbError::StorageFormat(m)) ==> m@ == payload_error(old(cursor).bytes().len() as int, old(cursor).rest()),
{
    let ghost start = cursor.rest();
    let record_len = cursor.read_u32()?;
    let ghost after_len = cursor.rest();
    let payload = cursor.read_exact(record_len as usize)?;
    decode_record(payload)
}

/// Where the row with id `row_id` lies among the rows.
fn position_of(rows: &Vec<StoredRow>, row_id: RowId, Ghost(log): Ghost<Seq<LogRow>>) -> (r: Option<usize>)
    requires
        rows_match(rows@, log),
    ensures
        r is Some ==> id_position(log, row_id, 0) == Some(r.unwrap() as int) && r.unwrap() < rows@.len(),
        r is None ==> id_position(log, row_id, 0) is None,
{
    let mut i: usize = 0;
    while i < rows.len()
        invariant
            rows_match(rows@, log),
            i <= rows@.len(),
            id_position(log, row_id, 0) == id_position(log, row_id, i as int),
        decreases rows@.len() - i,
    {
        if rows[i].row_id == row_id {
            return Some(i);
        }
        i = i + 1;
    }
    None
}

/// Replays an operation log (the bytes after its magic) into rows.
/// A storage format error: the message followed by a number.
fn id_error(prefix: &str, n: u64) -> (r: CrustDbError)
    ensures
        r matches CrustDbError::StorageFormat(m) && m@ == prefix@ + decimal(n as int),
{
    let t = crate::text::u64_text(n);
    CrustDbError::StorageFormat(join(prefix, t.as_str()))
}

pub fn replay_operations(bytes: &[u8]) -> (r: Result<TableLoad>)
    ensures
        match replay_spec(bytes@) {
            Some((log, max_id)) => r is Ok && rows_match(r.unwrap().rows@, log) && r.unwrap().next_row_id == next_after(max_id),
            None => r matches Err(CrustDbError::StorageFormat(m)) && m@ == replay_error(bytes@.len() as int, bytes@, Seq::empty()),
        },
{
    let mut cursor = Cursor::new(bytes);
    let mut rows: Vec<StoredRow> = Vec::new();
    let mut max_row_id: RowId = 0;
    let ghost mut log: Seq<LogRow> = Seq::empty();
    while !cursor.is_finished()
        invariant
            cursor.wf(),
            cursor.bytes() == bytes@,
            rows_match(rows@, log),
            replay_spec(bytes@) == replay_from(cursor.rest(), log, max_row_id),
            replay_spec(bytes@) is None ==> replay_error(bytes@.len() as int, bytes@, Seq::empty())
                == replay_error(bytes@.len() as int, cursor.rest(), log),
        decreases cursor.rest().len(),
    {
        let ghost b = cursor.rest();
        let ghost before_rows = rows@;
        let operation = cursor.read_u8()?;
        let row_id = cursor.read_u64()?;
        proof {
            assert(b.skip(1).skip(8) =~= b.skip(9));
            assert(b.skip(1) == b.subrange(1, b.len() as int));
        }
        max_row_id = if row_id > max_row_id { row_id } else { max_row_id };
        if operation == OP_INSERT {
            let record = read_operation_record(&mut cursor)?;
            if position_of(&rows, row_id, Ghost(log)).is_some() {
                return Err(id_error("duplicate row id in table file: ", row_id));
            }
            let ghost rm = record.map();
            rows.push(StoredRow { row_id, record, deleted: false });
            proof {
                let new_log = log.push(LogRow { row_id, record: rm, deleted: false });
                assert forall|i: int| 0 <= i < rows@.len() implies (#[trigger] rows@[i]).record.wf()
                    && rows@[i].row_id == new_log[i].row_id && rows@[i].deleted == new_log[i].deleted
                    && rows@[i].record.map() == new_log[i].record by {
                    if i < log.len() {
                        assert(rows@[i] == before_rows[i]);
                    }
                }
                log = new_log;
            }
        } else if operation == OP_DELETE {
            let position = match position_of(&rows, row_id, Ghost(log)) {
                Some(p) => p,
                None => {
                    return Err(id_error("operation references unknown row id: ", row_id));
                },
            };
            if rows[position].deleted {
                return Err(id_error("operation references deleted row id: ", row_id));
            }
            rows[position].deleted = true;
            proof {
                let p = position as int;
                lemma_id_position(log, row_id, 0);
                let new_log = log.update(p, LogRow { row_id, record: log[p].record, deleted: true });
                assert forall|i: int| 0 <= i < rows@.len() implies (#[trigger] rows@[i]).record.wf()
                    && rows@[i].row_id == new_log[i].row_id && rows@[i].deleted == new_log[i].deleted
                    && rows@[i].record.map() == new_log[i].record by {
                    if i != p {
                        assert(rows@[i] == before_rows[i]);
                    }
                }
                log = new_log;
            }
        } else if operation == OP_UPDATE {
            let record = read_operation_record(&mut cursor)?;
            let position = match position_of(&rows, row_id, Ghost(log)) {
                Some(p) => p,
                None => {
                    return Err(id_error("operation references unknown row id: ", row_id));
                },
            };
            if rows[position].deleted {
                return Err(id_error("operation references deleted row id: ", row_id));
            }
            let ghost rm = record.map();
            rows[position].record = record;
            proof {
                let p = position as int;
                lemma_id_position(log, row_id, 0);
                let new_log = log.update(p, LogRow { row_id, record: rm, deleted: false });
                assert forall|i: int| 0 <= i < rows@.len() implies (#[trigger] rows@[i]).record.wf()
                    && rows@[i].row_id == new_log[i].row_id && rows@[i].deleted == new_log[i].deleted
                    && rows@[i].record.map() == new_log[i].record by {
                    if i != p {
                        assert(rows@[i] == before_rows[i]);
                    }
                }
                log = new_log;
            }
        } else {
            return Err(id_error("unknown table operation: ", operation as u64));
        }
    }
    let next_row_id = if max_row_id == u64::MAX { u64::MAX } else { max_row_id + 1 };
    Ok(TableLoad { rows, next_row_id })
}


/// The rows of a log of the old format: records one after another, numbered from 1.
pub open spec fn legacy_from(b: Seq<u8>, rows: Seq<LogRow>) -> Option<Seq<LogRow>>
    decreases b.len(),
{
    if b.len() == 0 {
        Some(rows)
    } else {
        match parse_payload(b) {
            Some((rec, rest)) => legacy_from(rest, rows.push(LogRow { row_id: (rows.len() + 1) as u64, record: rec, deleted: false })),
            None => None,
        }
    }
}

/// Why the records of a log of the old format cannot be read from `b`, what is
/// left of `total` bytes.
pub open spec fn legacy_error(total: int, b: Seq<u8>) -> Seq<char>
    decreases b.len(),
{
    if b.len() == 0 {
        Seq::empty()
    } else {
        match parse_payload(b) {
            Some((_, rest)) => legacy_error(total, rest),
            None => payload_error(total, b),
        }
    }
}

/// The largest row id of the rows, 0 when there are none.
pub open spec fn max_id(rows: Seq<LogRow>) -> RowId
    decreases rows.len(),
{
    if rows.len() == 0 {
        0
    } else if rows.last().row_id > max_id(rows.drop_last()) {
        rows.last().row_id
    } else {
        max_id(rows.drop_last())
    }
}

/// The rows of a log of the old format.
pub fn load_legacy_records(bytes: &[u8]) -> (r: Result<Vec<StoredRow>>)
    ensures
        match legacy_from(bytes@, Seq::empty()) {
            Some(log) => r is Ok && rows_match(r.unwrap()@, log),
            None => r matches Err(CrustDbError::StorageFormat(m)) && m@ == legacy_error(bytes@.len() as int, bytes@),
        },
{
    let total = bytes.len();
    let mut cursor = Cursor::new(bytes);
    let mut rows: Vec<StoredRow> = Vec::new();
    let ghost mut log: Seq<LogRow> = Seq::empty();
    while !cursor.is_finished()
        invariant
            cursor.wf(),
            cursor.bytes() == bytes@,
            total == bytes@.len(),
            rows_match(rows@, log),
            rows@.len() * 4 <= cursor.pos(),
            legacy_from(bytes@, Seq::empty()) == legacy_from(cursor.rest(), log),
            legacy_from(bytes@, Seq::empty()) is None ==> legacy_error(total as int, bytes@) == legacy_error(total as int, cursor.rest()),
        decreases cursor.rest().len(),
    {
        let ghost before_rows = rows@;
        let ghost before_rest = cursor.rest();
        let record = read_operation_record(&mut cursor)?;
        proof {
            assert(cursor.rest().len() + 4 <= before_rest.len());
            assert(cursor.rest().len() == bytes@.len() - cursor.pos());
            assert(before_rest.len() == bytes@.len() - (cursor.pos() - (before_rest.len() - cursor.rest().len())));
        }
        let row_id = rows.len() as RowId + 1;
        let ghost rm = record.map();
        rows.push(StoredRow { row_id, record, deleted: false });
        proof {
            let new_log = log.push(LogRow { row_id: (log.len() + 1) as u64, record: rm, deleted: false });
            assert forall|i: int| 0 <= i < rows@.len() implies (#[trigger] rows@[i]).record.wf()
                && rows@[i].row_id == new_log[i].row_id && rows@[i].deleted == new_log[i].deleted
                && rows@[i].record.map() == new_log[i].record by {
                if i < log.len() {
                    assert(rows@[i] == before_rows[i]);
                }
            }
            log = new_log;
        }
    }
    Ok(rows)
}

/// The next row id after the rows: one past the largest, at least 1.
pub fn next_row_id(rows: &[StoredRow], Ghost(log): Ghost<Seq<LogRow>>) -> (r: RowId)
    requires
        rows_match(rows@, log),
    ensures
        r == next_after(max_id(log)),
{
    let mut max: RowId = 0;
    let mut i: usize = 0;
    assert(log.take(0) =~= Seq::<LogRow>::empty());
    while i < rows.len()
        invariant
            rows_match(rows@, log),
            i <= rows@.len(),
            max == max_id(log.take(i as int)),
        decreases rows@.len() - i,
    {
        assert(log.take(i + 1).drop_last() =~= log.take(i as int));
        if rows[i].row_id > max {
            max = rows[i].row_id;
        }
        i = i + 1;
    }
    assert(log.take(i as int) =~= log);
    if max == u64::MAX { u64::MAX } else { max + 1 }
}

/// The log of the old format rewritten as an operation log: its magic, then an
/// insert per row.
pub fn rewrite_as_operation_log(rows: &[StoredRow]) -> (r: Result<Vec<u8>>)
    requires
        forall|i: int| 0 <= i < rows@.len() ==> (#[trigger] rows@[i]).record.wf(),
    ensures
        r is Ok <==> forall|i: int| 0 <= i < rows@.len() ==> record_fits((#[trigger] rows@[i]).record@)
            && enc_record(rows@[i].record@).len() <= u32::MAX,
        r is Ok ==> r.unwrap()@ == table_magic() + inserts_of(rows@),
        r is Err ==> r matches Err(CrustDbError::StorageFormat(_)),
        r matches Err(CrustDbError::StorageFormat(m)) ==> exists|j: int| 0 <= j < rows@.len()
            && !op_fits(#[trigger] rows@[j].record@) && m@ == append_error(rows@[j].record@)
            && forall|k: int| 0 <= k < j ==> op_fits(#[trigger] rows@[k].record@),
{
    let mut out = table_magic_bytes();
    let mut i: usize = 0;
    assert(rows@.take(0) =~= Seq::<StoredRow>::empty());
    while i < rows.len()
        invariant
            forall|j: int| 0 <= j < rows@.len() ==> (#[trigger] rows@[j]).record.wf(),
            i <= rows@.len(),
            out@ == table_magic() + inserts_of(rows@.take(i as int)),
            forall|j: int| 0 <= j < i ==> record_fits((#[trigger] rows@[j]).record@)
                && enc_record(rows@[j].record@).len() <= u32::MAX,
        decreases rows@.len() - i,
    {
        assert(rows@.take(i + 1).drop_last() =~= rows@.take(i as int));
        let appended = append_insert(&mut out, rows[i].row_id, &rows[i].record);
        if appended.is_err() {
            return Err(appended.unwrap_err());
        }
        assert(out@ =~= table_magic() + inserts_of(rows@.take(i + 1)));
        i = i + 1;
    }
    assert(rows@.take(i as int) =~= rows@);
    Ok(out)
}

/// An insert operation for each row, in order.
pub open spec fn inserts_of(rows: Seq<StoredRow>) -> Seq<u8>
    decreases rows.len(),
{
    if rows.len() == 0 {
        Seq::empty()
    } else {
        inserts_of(rows.drop_last()) + enc_op(OP_INSERT, rows.last().row_id, Some(rows.last().record@))
    }
}

/// A table file read back: its rows, and the bytes to store in its place when it
/// was of the old format.
#[derive(Debug)]
pub struct LoadedTable {
    pub load: TableLoad,
    pub rewrite: Option<Vec<u8>>,
}

/// What the contents of a table file (or its absence) load to.
pub open spec fn load_spec(file: Option<Seq<u8>>) -> Option<(Seq<LogRow>, RowId, bool)> {
    match file {
        None => Some((Seq::empty(), 1, false)),
        Some(b) => if b.len() == 0 {
            Some((Seq::empty(), 1, false))
        } else if starts_with(b, table_magic()) {
            match replay_spec(b.skip(8)) {
                Some((log, m)) => Some((log, next_after(m), false)),
                None => None,
            }
        } else {
            match legacy_from(b, Seq::empty()) {
                Some(log) => Some((log, next_after(max_id(log)), true)),
                None => None,
            }
        },
    }
}

/// Why the contents of a table file do not load.
pub open spec fn load_error(b: Seq<u8>) -> Seq<char> {
    if starts_with(b, table_magic()) {
        replay_error(b.len() - 8, b.skip(8), Seq::empty())
    } else {
        legacy_error(b.len() as int, b)
    }
}

/// `rec` holds the fields of the map, in name order.
pub open spec fn record_of_map(rec: RecordModel, m: Map<Seq<char>, ValueModel>) -> bool {
    names_sorted(rec) && as_map(rec) == m
}

/// Every row's record can be carried by an operation.
pub open spec fn rows_fit(log: Seq<LogRow>) -> bool {
    forall|i: int, rec: RecordModel| 0 <= i < log.len() && #[trigger] record_of_map(rec, log[i].record) ==> op_fits(rec)
}

/// Row `i` of the log, whose record is `rec`, is the first whose record an
/// operation cannot carry.
pub open spec fn first_unfit_row(log: Seq<LogRow>, i: int, rec: RecordModel) -> bool {
    &&& 0 <= i < log.len()
    &&& record_of_map(rec, log[i].record)
    &&& !op_fits(rec)
    &&& forall|j: int, r: RecordModel| 0 <= j < i && #[trigger] record_of_map(r, log[j].record) ==> op_fits(r)
}

/// `m` says why the contents of a table file do not load: the file does not
/// read, or the first of the rows it holds whose record an operation cannot
/// carry.
pub open spec fn load_rows_error(file: Option<Seq<u8>>, m: Seq<char>) -> bool {
    match load_spec(file) {
        None => m == load_error(file.unwrap()),
        Some((log, _, _)) => exists|i: int, rec: RecordModel| #[trigger] first_unfit_row(log, i, rec) && m == append_error(rec),
    }
}

/// The first row whose record does not fit, among rows that hold the records
/// of a log, gives the message of the log's first such row.
proof fn lemma_rewrite_error(fv: Option<Seq<u8>>, log: Seq<LogRow>, rows: Seq<StoredRow>, m: Seq<char>)
    requires
        load_spec(fv) is Some && load_spec(fv).unwrap().0 == log,
        rows_match(rows, log),
        exists|j: int| 0 <= j < rows.len() && !op_fits((#[trigger] rows[j]).record@)
            && (forall|k: int| 0 <= k < j ==> op_fits((#[trigger] rows[k]).record@)) && m == append_error(rows[j].record@),
    ensures
        load_rows_error(fv, m),
{
    let j = choose|j: int| 0 <= j < rows.len() && !op_fits((#[trigger] rows[j]).record@)
        && (forall|k: int| 0 <= k < j ==> op_fits((#[trigger] rows[k]).record@)) && m == append_error(rows[j].record@);
    assert forall|k: int, r: RecordModel| 0 <= k < j && #[trigger] record_of_map(r, log[k].record) implies op_fits(r) by {
        lemma_sorted_unique(r, rows[k].record@);
    }
    assert(record_of_map(rows[j].record@, log[j].record));
    assert(first_unfit_row(log, j, rows[j].record@));
}

/// The rows of a table file: replayed from an operation log, or read from the old
/// format together with its rewrite as an operation log.
#[verifier::spinoff_prover]
#[verifier::rlimit(40)]
pub fn load_rows(file: Option<&[u8]>) -> (r: Result<LoadedTable>)
    ensures
        match load_spec(match file { Some(b) => Some(b@), None => None }) {
            Some((log, next, migrated)) => r matches Ok(t) ==> rows_match(t.load.rows@, log)
                && t.load.next_row_id == next && t.rewrite is Some == migrated
                && (migrated ==> t.rewrite.unwrap()@ == table_magic() + inserts_of(t.load.rows@)),
            None => r matches Err(CrustDbError::StorageFormat(_)),
        },
        r is Err ==> r matches Err(CrustDbError::StorageFormat(_)),
        r matches Err(CrustDbError::StorageFormat(m)) ==> load_rows_error(match file { Some(b) => Some(b@), None => None }, m@),
        match load_spec(match file { Some(b) => Some(b@), None => None }) {
            Some((log, _, migrated)) => r is Ok <==> (!migrated || rows_fit(log)),
            None => true,
        },
{
    let bytes = match file {
        None => {
            return Ok(LoadedTable { load: TableLoad { rows: Vec::new(), next_row_id: 1 }, rewrite: None });
        },
        Some(bytes) => bytes,
    };
    if bytes.len() == 0 {
        return Ok(LoadedTable { load: TableLoad { rows: Vec::new(), next_row_id: 1 }, rewrite: None });
    }
    if has_prefix(bytes, &table_magic_bytes()) {
        let body = vstd::slice::slice_subrange(bytes, 8, bytes.len());
        assert(body@ =~= bytes@.skip(8));
        let load = replay_operations(body)?;
        return Ok(LoadedTable { load, rewrite: None });
    }
    let rows = load_legacy_records(bytes)?;
    let ghost log = legacy_from(bytes@, Seq::empty()).unwrap();
    proof {
        assert forall|i: int, rec: RecordModel| 0 <= i < log.len() && #[trigger] record_of_map(rec, log[i].record)
            implies rec == rows@[i].record@ by {
            lemma_sorted_unique(rec, rows@[i].record@);
        }
    }
    let rewrite = match rewrite_as_operation_log(rows.as_slice()) {
        Ok(w) => w,
        Err(e) => {
            proof {
                let fv = match file { Some(b) => Some(b@), None => None };
                assert(load_spec(fv) == Some((log, next_after(max_id(log)), true)));
                let m = e->StorageFormat_0;
                lemma_rewrite_error(fv, log, rows@, m@);
                assert(!rows_fit(log)) by {
                    let j = choose|j: int| 0 <= j < rows@.len() && !op_fits((#[trigger] rows@[j]).record@);
                    assert(record_of_map(rows@[j].record@, log[j].record));
                }
            }
            return Err(e);
        },
    };
    proof {
        assert(rows_fit(log));
    }
    let next_row_id = next_row_id(rows.as_slice(), Ghost(log));
    Ok(LoadedTable { load: TableLoad { rows, next_row_id }, rewrite: Some(rewrite) })
}

// ---------------------------------------------------------------------------
// Laws of the operation log.
// ---------------------------------------------------------------------------

proof fn lemma_payload_extend(x: Seq<u8>, y: Seq<u8>)
    requires
        parse_payload(x) is Some,
    ensures
        parse_payload(x + y) == Some((parse_payload(x).unwrap().0, parse_payload(x).unwrap().1 + y)),
{
    let (n, r) = parse_u32(x).unwrap();
    assert((x + y).take(4) =~= x.take(4));
    assert((x + y).skip(4) =~= r + y);
    assert((r + y).take(n as int) =~= r.take(n as int));
    assert((r + y).skip(n as int) =~= r.skip(n as int) + y);
}

/// Replaying two logs one after the other is replaying the first, then the
/// second from where the first left off.
proof fn lemma_replay_concat(b1: Seq<u8>, b2: Seq<u8>, rows: Seq<LogRow>, m: RowId)
    requires
        replay_from(b1, rows, m) is Some,
    ensures
        replay_from(b1 + b2, rows, m) == replay_from(b2, replay_from(b1, rows, m).unwrap().0, replay_from(b1, rows, m).unwrap().1),
    decreases b1.len(),
{
    if b1.len() == 0 {
        assert(b1 + b2 =~= b2);
    } else {
        let b = b1 + b2;
        assert(b[0] == b1[0]);
        assert(b.skip(1).take(8) =~= b1.skip(1).take(8));
        assert(b.skip(9) =~= b1.skip(9) + b2);
        let op = b1[0];
        let id = parse_u64(b1.skip(1)).unwrap().0;
        let rest = b1.skip(9);
        let m2 = if id > m { id } else { m };
        if op == OP_INSERT {
            lemma_payload_extend(rest, b2);
            let (rec, after) = parse_payload(rest).unwrap();
            lemma_replay_concat(after, b2, rows.push(LogRow { row_id: id, record: rec, deleted: false }), m2);
        } else if op == OP_DELETE {
            let p = id_position(rows, id, 0).unwrap();
            lemma_replay_concat(rest, b2, rows.update(p, LogRow { row_id: id, record: rows[p].record, deleted: true }), m2);
        } else if op == OP_UPDATE {
            lemma_payload_extend(rest, b2);
            let (rec, after) = parse_payload(rest).unwrap();
            let p = id_position(rows, id, 0).unwrap();
            lemma_replay_concat(after, b2, rows.update(p, LogRow { row_id: id, record: rec, deleted: false }), m2);
        }
    }
}

proof fn lemma_op_header(op: u8, id: RowId, tail: Seq<u8>)
    ensures
        (seq![op] + spec_u64_to_le_bytes(id) + tail).len() >= 9,
        (seq![op] + spec_u64_to_le_bytes(id) + tail)[0] == op,
        parse_u64((seq![op] + spec_u64_to_le_bytes(id) + tail).skip(1)).unwrap().0 == id,
        (seq![op] + spec_u64_to_le_bytes(id) + tail).skip(9) == tail,
{
    let b = seq![op] + spec_u64_to_le_bytes(id) + tail;
    vstd::bytes::lemma_auto_spec_u64_to_from_le_bytes();
    assert(b.skip(1) =~= spec_u64_to_le_bytes(id) + tail);
    lemma_parse_u64_enc(id, tail);
    assert(b.skip(9) =~= tail);
}

proof fn lemma_payload_of(rec: RecordModel)
    requires
        names_sorted(rec),
        record_fits(rec),
        enc_record(rec).len() <= u32::MAX,
    ensures
        parse_payload(spec_u32_to_le_bytes(enc_record(rec).len() as u32) + enc_record(rec)) == Some((as_map(rec), Seq::<u8>::empty())),
{
    let e = enc_record(rec);
    lemma_parse_u32_enc(e.len() as u32, e);
    assert(e.take(e.len() as int) =~= e);
    assert(e.skip(e.len() as int) =~= Seq::<u8>::empty());
    lemma_record_roundtrip(rec);
}

/// The largest of a log's largest row id and another row id.
pub open spec fn max_with(m: RowId, id: RowId) -> RowId {
    if id > m { id } else { m }
}

/// A log that replays, with an insert of a new row appended, replays to the same
/// rows and the new live row after them; it is refused where the id is taken.
pub proof fn lemma_replay_after_insert(log: Seq<u8>, id: RowId, rec: RecordModel)
    requires
        replay_spec(log) is Some,
        names_sorted(rec),
        record_fits(rec),
        enc_record(rec).len() <= u32::MAX,
    ensures
        replay_spec(log + enc_op(OP_INSERT, id, Some(rec))) == (if id_position(replay_spec(log).unwrap().0, id, 0) is Some {
            None
        } else {
            Some((
                replay_spec(log).unwrap().0.push(LogRow { row_id: id, record: as_map(rec), deleted: false }),
                max_with(replay_spec(log).unwrap().1, id),
            ))
        }),
{
    let (rows, m) = replay_spec(log).unwrap();
    lemma_replay_concat(log, enc_op(OP_INSERT, id, Some(rec)), Seq::empty(), 0);
    let payload = spec_u32_to_le_bytes(enc_record(rec).len() as u32) + enc_record(rec);
    lemma_op_header(OP_INSERT, id, payload);
    lemma_payload_of(rec);
    let rows2 = rows.push(LogRow { row_id: id, record: as_map(rec), deleted: false });
    assert(replay_from(Seq::<u8>::empty(), rows2, max_with(m, id)) == Some((rows2, max_with(m, id))));
}

/// A log that replays, with an update of a live row appended, replays to the same
/// rows with that row's fields replaced; it is refused where no live row has the id.
pub proof fn lemma_replay_after_update(log: Seq<u8>, id: RowId, rec: RecordModel)
    requires
        replay_spec(log) is Some,
        names_sorted(rec),
        record_fits(rec),
        enc_record(rec).len() <= u32::MAX,
    ensures
        replay_spec(log + enc_op(OP_UPDATE, id, Some(rec))) == (match id_position(replay_spec(log).unwrap().0, id, 0) {
            Some(p) => if replay_spec(log).unwrap().0[p].deleted {
                None
            } else {
                Some((
                    replay_spec(log).unwrap().0.update(p, LogRow { row_id: id, record: as_map(rec), deleted: false }),
                    max_with(replay_spec(log).unwrap().1, id),
                ))
            },
            None => None,
        }),
{
    let (rows, m) = replay_spec(log).unwrap();
    lemma_replay_concat(log, enc_op(OP_UPDATE, id, Some(rec)), Seq::empty(), 0);
    let payload = spec_u32_to_le_bytes(enc_record(rec).len() as u32) + enc_record(rec);
    lemma_op_header(OP_UPDATE, id, payload);
    lemma_payload_of(rec);
    match id_position(rows, id, 0) {
        Some(p) => {
            let rows2 = rows.update(p, LogRow { row_id: id, record: as_map(rec), deleted: false });
            assert(replay_from(Seq::<u8>::empty(), rows2, max_with(m, id)) == Some((rows2, max_with(m, id))));
        },
        None => {},
    }
}

/// A log that replays, with a delete of a live row appended, replays to the same
/// rows with that row kept as deleted; it is refused where no live row has the id.
pub proof fn lemma_replay_after_delete(log: Seq<u8>, id: RowId)
    requires
        replay_spec(log) is Some,
    ensures
        replay_spec(log + enc_op(OP_DELETE, id, None)) == (match id_position(replay_spec(log).unwrap().0, id, 0) {
            Some(p) => if replay_spec(log).unwrap().0[p].deleted {
                None
            } else {
                Some((
                    replay_spec(log).unwrap().0.update(
                        p,
                        LogRow { row_id: id, record: replay_spec(log).unwrap().0[p].record, deleted: true },
                    ),
                    max_with(replay_spec(log).unwrap().1, id),
                ))
            },
            None => None,
        }),
{
    let (rows, m) = replay_spec(log).unwrap();
    lemma_replay_concat(log, enc_op(OP_DELETE, id, None), Seq::empty(), 0);
    lemma_op_header(OP_DELETE, id, Seq::empty());
    assert(enc_op(OP_DELETE, id, None) =~= seq![OP_DELETE] + spec_u64_to_le_bytes(id) + Seq::<u8>::empty());
    match id_position(rows, id, 0) {
        Some(p) => {
            let rows2 = rows.update(p, LogRow { row_id: id, record: rows[p].record, deleted: true });
            assert(replay_from(Seq::<u8>::empty(), rows2, max_with(m, id)) == Some((rows2, max_with(m, id))));
        },
        None => {},
    }
}

/// Row ids are pairwise different and at most `m`.
pub open spec fn ids_below(rows: Seq<LogRow>, m: RowId) -> bool {
    &&& forall|i: int, j: int| 0 <= i < j < rows.len() ==> (#[trigger] rows[i]).row_id != (#[trigger] rows[j]).row_id
    &&& forall|i: int| 0 <= i < rows.len() ==> (#[trigger] rows[i]).row_id <= m
}

proof fn lemma_id_position_none(rows: Seq<LogRow>, id: RowId, k: int)
    requires
        0 <= k,
        id_position(rows, id, k) is None,
    ensures
        forall|i: int| k <= i < rows.len() ==> (#[trigger] rows[i]).row_id != id,
    decreases rows.len() - k,
{
    if k < rows.len() {
        lemma_id_position_none(rows, id, k + 1);
    }
}

proof fn lemma_replay_ids(b: Seq<u8>, rows: Seq<LogRow>, m: RowId)
    requires
        replay_from(b, rows, m) is Some,
        ids_below(rows, m),
    ensures
        ids_below(replay_from(b, rows, m).unwrap().0, replay_from(b, rows, m).unwrap().1),
    decreases b.len(),
{
    if b.len() > 0 {
        let op = b[0];
        let id = parse_u64(b.skip(1)).unwrap().0;
        let rest = b.skip(9);
        let m2 = if id > m { id } else { m };
        if op == OP_INSERT {
            let (rec, after) = parse_payload(rest).unwrap();
            lemma_id_position_none(rows, id, 0);
            let r2 = rows.push(LogRow { row_id: id, record: rec, deleted: false });
            assert forall|i: int, j: int| 0 <= i < j < r2.len() implies (#[trigger] r2[i]).row_id != (#[trigger] r2[j]).row_id by {
                assert(r2[i] == rows[i]);
                if j < rows.len() {
                    assert(r2[j] == rows[j]);
                }
            }
            assert forall|i: int| 0 <= i < r2.len() implies (#[trigger] r2[i]).row_id <= m2 by {
                if i < rows.len() {
                    assert(r2[i] == rows[i]);
                }
            }
            lemma_replay_ids(after, r2, m2);
        } else if op == OP_DELETE {
            let p = id_position(rows, id, 0).unwrap();
            lemma_id_position(rows, id, 0);
            let r2 = rows.update(p, LogRow { row_id: id, record: rows[p].record, deleted: true });
            assert forall|i: int, j: int| 0 <= i < j < r2.len() implies (#[trigger] r2[i]).row_id != (#[trigger] r2[j]).row_id by {
                assert(r2[i].row_id == rows[i].row_id && r2[j].row_id == rows[j].row_id);
            }
            assert forall|i: int| 0 <= i < r2.len() implies (#[trigger] r2[i]).row_id <= m2 by {
                assert(r2[i].row_id == rows[i].row_id);
            }
            lemma_replay_ids(rest, r2, m2);
        } else if op == OP_UPDATE {
            let (rec, after) = parse_payload(rest).unwrap();
            let p = id_position(rows, id, 0).unwrap();
            lemma_id_position(rows, id, 0);
            let r2 = rows.update(p, LogRow { row_id: id, record: rec, deleted: false });
            assert forall|i: int, j: int| 0 <= i < j < r2.len() implies (#[trigger] r2[i]).row_id != (#[trigger] r2[j]).row_id by {
                assert(r2[i].row_id == rows[i].row_id && r2[j].row_id == rows[j].row_id);
            }
            assert forall|i: int| 0 <= i < r2.len() implies (#[trigger] r2[i]).row_id <= m2 by {
                assert(r2[i].row_id == rows[i].row_id);
            }
            lemma_replay_ids(after, r2, m2);
        }
    }
}

proof fn lemma_max_id_bound(rows: Seq<LogRow>)
    ensures
        forall|i: int| 0 <= i < rows.len() ==> (#[trigger] rows[i]).row_id <= max_id(rows),
    decreases rows.len(),
{
    if rows.len() > 0 {
        lemma_max_id_bound(rows.drop_last());
        assert forall|i: int| 0 <= i < rows.len() implies (#[trigger] rows[i]).row_id <= max_id(rows) by {
            if i < rows.len() - 1 {
                assert(rows.drop_last()[i] == rows[i]);
            }
        }
    }
}

proof fn lemma_max_id_same_ids(a: Seq<LogRow>, b: Seq<LogRow>)
    requires
        a.len() == b.len(),
        forall|i: int| 0 <= i < a.len() ==> (#[trigger] a[i]).row_id == b[i].row_id,
    ensures
        max_id(a) == max_id(b),
    decreases a.len(),
{
    if a.len() > 0 {
        assert forall|i: int| 0 <= i < a.drop_last().len() implies (#[trigger] a.drop_last()[i]).row_id == b.drop_last()[i].row_id by {
            assert(a.drop_last()[i] == a[i] && b.drop_last()[i] == b[i]);
        }
        lemma_max_id_same_ids(a.drop_last(), b.drop_last());
        assert(a.last().row_id == b.last().row_id);
    }
}

proof fn lemma_replay_max(b: Seq<u8>, rows: Seq<LogRow>, m: RowId)
    requires
        replay_from(b, rows, m) is Some,
        m == max_id(rows),
    ensures
        replay_from(b, rows, m).unwrap().1 == max_id(replay_from(b, rows, m).unwrap().0),
    decreases b.len(),
{
    if b.len() > 0 {
        let op = b[0];
        let id = parse_u64(b.skip(1)).unwrap().0;
        let rest = b.skip(9);
        let m2 = if id > m { id } else { m };
        if op == OP_INSERT {
            let (rec, after) = parse_payload(rest).unwrap();
            let r2 = rows.push(LogRow { row_id: id, record: rec, deleted: false });
            assert(r2.drop_last() =~= rows);
            lemma_replay_max(after, r2, m2);
        } else if op == OP_DELETE {
            let p = id_position(rows, id, 0).unwrap();
            lemma_id_position(rows, id, 0);
            lemma_max_id_bound(rows);
            let r2 = rows.update(p, LogRow { row_id: id, record: rows[p].record, deleted: true });
            lemma_max_id_same_ids(r2, rows);
            lemma_replay_max(rest, r2, m2);
        } else if op == OP_UPDATE {
            let (rec, after) = parse_payload(rest).unwrap();
            let p = id_position(rows, id, 0).unwrap();
            lemma_id_position(rows, id, 0);
            lemma_max_id_bound(rows);
            let r2 = rows.update(p, LogRow { row_id: id, record: rec, deleted: false });
            lemma_max_id_same_ids(r2, rows);
            lemma_replay_max(after, r2, m2);
        }
    }
}

/// The largest id a log reports, once it replays, is the largest id among the
/// rows it replays to: 0 for none, else the id of one of them, and none above it.
pub proof fn lemma_replay_spec_max(log: Seq<u8>)
    requires
        replay_spec(log) is Some,
    ensures
        replay_spec(log).unwrap().1 == max_id(replay_spec(log).unwrap().0),
        forall|i: int| 0 <= i < replay_spec(log).unwrap().0.len() ==> (#[trigger] replay_spec(log).unwrap().0[i]).row_id
            <= replay_spec(log).unwrap().1,
        replay_spec(log).unwrap().1 == 0 || exists|i: int| 0 <= i < replay_spec(log).unwrap().0.len()
            && (#[trigger] replay_spec(log).unwrap().0[i]).row_id == replay_spec(log).unwrap().1,
{
    lemma_replay_max(log, Seq::empty(), 0);
    lemma_max_id_bound(replay_spec(log).unwrap().0);
    lemma_max_id_attained(replay_spec(log).unwrap().0);
}

proof fn lemma_max_id_attained(rows: Seq<LogRow>)
    ensures
        max_id(rows) == 0 || exists|i: int| 0 <= i < rows.len() && (#[trigger] rows[i]).row_id == max_id(rows),
    decreases rows.len(),
{
    if rows.len() > 0 {
        lemma_max_id_attained(rows.drop_last());
        if rows.last().row_id <= max_id(rows.drop_last()) && max_id(rows.drop_last()) != 0 {
            let i = choose|i: int| 0 <= i < rows.drop_last().len() && (#[trigger] rows.drop_last()[i]).row_id == max_id(rows.drop_last());
            assert(rows[i] == rows.drop_last()[i]);
        } else {
            assert(rows[rows.len() - 1] == rows.last());
        }
    }
}

/// Whatever a table file loads to, its next row id is one past the largest id
/// among the rows it holds, deleted rows included (1 when there are none).
pub proof fn lemma_load_next_id(file: Option<Seq<u8>>)
    requires
        load_spec(file) is Some,
    ensures
        load_spec(file).unwrap().1 == next_after(max_id(load_spec(file).unwrap().0)),
{
    match file {
        Some(b) => if b.len() > 0 && starts_with(b, table_magic()) {
            lemma_replay_max(b.skip(8), Seq::empty(), 0);
        },
        None => {},
    }
}

/// The rows a log replays to have pairwise different ids, none above the largest
/// id the log reports; so every row id is below the next row id that a load
/// gives, unless the largest id is `u64::MAX`.
pub proof fn lemma_replayed_ids_distinct(log: Seq<u8>)
    requires
        replay_spec(log) is Some,
    ensures
        ids_below(replay_spec(log).unwrap().0, replay_spec(log).unwrap().1),
        replay_spec(log).unwrap().1 < u64::MAX ==> forall|i: int| 0 <= i < replay_spec(log).unwrap().0.len()
            ==> (#[trigger] replay_spec(log).unwrap().0[i]).row_id < next_after(replay_spec(log).unwrap().1),
{
    lemma_replay_ids(log, Seq::empty(), 0);
}

proof fn lemma_legacy_ids(b: Seq<u8>, rows: Seq<LogRow>)
    requires
        legacy_from(b, rows) is Some,
        forall|i: int| 0 <= i < rows.len() ==> (#[trigger] rows[i]).row_id == (i + 1) as u64 && !rows[i].deleted,
    ensures
        legacy_from(b, rows).unwrap().len() >= rows.len(),
        forall|i: int| 0 <= i < legacy_from(b, rows).unwrap().len() ==> (#[trigger] legacy_from(b, rows).unwrap()[i]).row_id
            == (i + 1) as u64 && !legacy_from(b, rows).unwrap()[i].deleted,
    decreases b.len(),
{
    if b.len() > 0 {
        let (rec, rest) = parse_payload(b).unwrap();
        let r2 = rows.push(LogRow { row_id: (rows.len() + 1) as u64, record: rec, deleted: false });
        assert forall|i: int| 0 <= i < r2.len() implies (#[trigger] r2[i]).row_id == (i + 1) as u64 && !r2[i].deleted by {
            if i < rows.len() {
                assert(r2[i] == rows[i]);
            }
        }
        lemma_legacy_ids(rest, r2);
    }
}

/// The rows a table file loads to have pairwise different ids; those of a file
/// of the old format are all live.
pub proof fn lemma_loaded_ids_distinct(file: Option<Seq<u8>>)
    requires
        load_spec(file) is Some,
        load_spec(file).unwrap().0.len() <= u64::MAX,
    ensures
        forall|i: int, j: int| 0 <= i < j < load_spec(file).unwrap().0.len() ==> (#[trigger] load_spec(file).unwrap().0[i]).row_id
            != (#[trigger] load_spec(file).unwrap().0[j]).row_id,
        load_spec(file).unwrap().2 ==> forall|i: int| 0 <= i < load_spec(file).unwrap().0.len()
            ==> !(#[trigger] load_spec(file).unwrap().0[i]).deleted,
{
    match file {
        Some(b) => if b.len() > 0 {
            if starts_with(b, table_magic()) {
                lemma_replayed_ids_distinct(b.skip(8));
            } else {
                lemma_legacy_ids(b, Seq::empty());
                let log = load_spec(file).unwrap().0;
                assert forall|i: int, j: int| 0 <= i < j < log.len() implies (#[trigger] log[i]).row_id
                    != (#[trigger] log[j]).row_id by {
                    assert(log[i].row_id == (i + 1) as u64);
                    assert(log[j].row_id == (j + 1) as u64);
                }
            }
        },
        None => {},
    }
}

} // verus!
