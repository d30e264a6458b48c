use crate::engine::RowId;
use crate::error::{join, CrustDbError, Result};
use crate::text::{decimal, u64_text};
use crate::index::key::{dec_key, decode_key, enc_key, encode_key, key_error, lemma_key_injective, lemma_key_roundtrip};
use crate::order::{bytes_lt, compare_bytes, compare_names, lemma_bytes_lt_asymmetric, lemma_bytes_lt_irreflexive, lemma_bytes_lt_total, lemma_bytes_lt_transitive, Order};
use crate::storage::record::{
    enc_str, lemma_parse_str_enc, lemma_parse_u16_enc, lemma_parse_u32_enc, lemma_parse_u64_enc, parse_str, parse_u16, parse_u32, parse_u64, parse_u8, short_read, str_error, str_fits, too_large_message, usize_to_u16, write_string, write_u16,
    write_u32, write_u64, Cursor,
};
use crate::value::{Value, ValueModel};
use vstd::bytes::{spec_u16_to_le_bytes, spec_u32_to_le_bytes, spec_u64_to_le_bytes};
use vstd::prelude::*;

verus! {

pub const INDEX_VERSION: u8 = 1;
pub const PAGE_SIZE: usize = 4096;
pub const PAGE_SIZE_U64: u64 = 4096;
pub const PAGE_KIND_LEAF: u8 = 1;
pub const PAGE_KIND_INTERNAL: u8 = 2;
pub const NO_PAGE: u64 = 0xffff_ffff_ffff_ffff;
pub const PAGE_HEADER_LEN: usize = 5;
pub const LEAF_HEADER_LEN: usize = 13;
pub const INTERNAL_HEADER_LEN: usize = 13;

/// "CRUSTBT1", the first bytes of an index file.
pub open spec fn index_magic() -> Seq<u8> {
    seq![67u8, 82, 85, 83, 84, 66, 84, 49]
}

/// An index entry: the encoded key and its row.
pub type EntryModel = (Seq<u8>, RowId);

/// Keys strictly increasing.
pub open spec fn strictly_sorted(es: Seq<EntryModel>) -> bool {
    forall|i: int, j: int| #![trigger es[i], es[j]] 0 <= i < j < es.len() ==> bytes_lt(es[i].0, es[j].0)
}

// ---------------------------------------------------------------------------
// Pages as bytes.
// ---------------------------------------------------------------------------

/// A key with its length in front, then a `u64`: one leaf entry or one separator.
pub open spec fn enc_keyed(key: Seq<u8>, x: u64) -> Seq<u8> {
    spec_u16_to_le_bytes(key.len() as u16) + key + spec_u64_to_le_bytes(x)
}

pub open spec fn enc_keyed_list(es: Seq<EntryModel>) -> Seq<u8>
    decreases es.len(),
{
    if es.len() == 0 {
        Seq::empty()
    } else {
        enc_keyed_list(es.drop_last()) + enc_keyed(es.last().0, es.last().1)
    }
}

/// A page: kind, count, used length, a `u64`, then the keyed items; zeros fill the
/// rest of the 4096 bytes.
pub open spec fn page_body(kind: u8, count: nat, head: u64, items: Seq<EntryModel>) -> Seq<u8> {
    seq![kind] + spec_u16_to_le_bytes(count as u16) + spec_u16_to_le_bytes((13 + enc_keyed_list(items).len()) as u16)
        + spec_u64_to_le_bytes(head) + enc_keyed_list(items)
}

pub open spec fn padded(b: Seq<u8>) -> Seq<u8> {
    b + Seq::new((PAGE_SIZE - b.len()) as nat, |i: int| 0u8)
}

pub open spec fn next_code(next: Option<u64>) -> u64 {
    match next {
        Some(p) => p,
        None => NO_PAGE,
    }
}

/// A leaf page with its entries and the page id of the next leaf.
pub open spec fn leaf_page(entries: Seq<EntryModel>, next: Option<u64>) -> Seq<u8> {
    padded(page_body(PAGE_KIND_LEAF, entries.len(), next_code(next), entries))
}

/// An internal page: its first child, then each further child with its separator key.
pub open spec fn internal_page(first_child: u64, separators: Seq<EntryModel>) -> Seq<u8> {
    padded(page_body(PAGE_KIND_INTERNAL, separators.len() + 1, first_child, separators))
}

/// A page can hold these items: each key at most `u16::MAX` bytes, at most
/// `u16::MAX` items, and the used part within the page.
pub open spec fn fits_page(count: nat, items: Seq<EntryModel>) -> bool {
    &&& count <= u16::MAX
    &&& 13 + enc_keyed_list(items).len() <= PAGE_SIZE
    &&& forall|i: int| 0 <= i < items.len() ==> (#[trigger] items[i]).0.len() <= u16::MAX
}

// ---------------------------------------------------------------------------
// Reading pages.
// ---------------------------------------------------------------------------

pub open spec fn parse_keyed(b: Seq<u8>) -> Option<(EntryModel, Seq<u8>)> {
    match parse_u16(b) {
        Some((n, r)) => if n <= r.len() {
            match parse_u64(r.skip(n as int)) {
                Some((x, r2)) => Some(((r.take(n as int), x), r2)),
                None => None,
            }
        } else {
            None
        },
        None => None,
    }
}

pub open spec fn parse_keyed_list(b: Seq<u8>, n: nat) -> Option<(Seq<EntryModel>, Seq<u8>)>
    decreases n,
{
    if n == 0 {
        Some((Seq::empty(), b))
    } else {
        match parse_keyed_list(b, (n - 1) as nat) {
            Some((es, r)) => match parse_keyed(r) {
                Some((e, r2)) => Some((es.push(e), r2)),
                None => None,
            },
            None => None,
        }
    }
}

/// The count and used length of a page of the given kind.
pub open spec fn page_head(page: Seq<u8>, kind: u8) -> Option<(u16, nat)> {
    match parse_u8(page) {
        Some((k, r)) => if k != kind {
            None
        } else {
            match parse_u16(r) {
                Some((count, r2)) => match parse_u16(r2) {
                    Some((used, _)) => if PAGE_HEADER_LEN <= used && used <= PAGE_SIZE {
                        Some((count, used as nat))
                    } else {
                        None
                    },
                    None => None,
                },
                None => None,
            }
        },
        None => None,
    }
}

/// The `u64` and the keyed items of a page with `n` items, read from its used
/// part: items strictly sorted by key, nothing after them.
pub open spec fn page_items(page: Seq<u8>, used: nat, n: nat) -> Option<(u64, Seq<EntryModel>)> {
    if used > page.len() {
        None
    } else {
        match parse_u64(page.take(used as int).skip(5)) {
            Some((head, r)) => match parse_keyed_list(r, n) {
                Some((items, rest)) => if rest.len() == 0 && strictly_sorted(items) {
                    Some((head, items))
                } else {
                    None
                },
                None => None,
            },
            None => None,
        }
    }
}

/// A leaf page read back: the next leaf and the entries.
pub open spec fn parse_leaf_spec(page: Seq<u8>) -> Option<(Option<u64>, Seq<EntryModel>)> {
    match page_head(page, PAGE_KIND_LEAF) {
        Some((count, used)) => match page_items(page, used, count as nat) {
            Some((next, es)) => Some((if next == NO_PAGE { None } else { Some(next) }, es)),
            None => None,
        },
        None => None,
    }
}

/// An internal page read back: the first child and the separators.
pub open spec fn parse_internal_spec(page: Seq<u8>) -> Option<(u64, Seq<EntryModel>)> {
    match page_head(page, PAGE_KIND_INTERNAL) {
        Some((count, used)) => if count == 0 {
            None
        } else {
            page_items(page, used, (count - 1) as nat)
        },
        None => None,
    }
}

// ---------------------------------------------------------------------------
// Why a page is refused: the message of the first check that fails, each read
// being within the bytes that hold `b` at their end, `total` long.
// ---------------------------------------------------------------------------

/// Why a keyed item cannot be read.
pub open spec fn keyed_read_error(total: int, b: Seq<u8>) -> Seq<char> {
    match parse_u16(b) {
        None => short_read(total, b, 2),
        Some((len, r)) => if len > r.len() {
            short_read(total, r, len as int)
        } else {
            short_read(total, r.skip(len as int), 8)
        },
    }
}

/// Why `n` keyed items, each key strictly after `prev` and the keys before it,
/// cannot be read.
pub open spec fn keyed_error(total: int, b: Seq<u8>, n: nat, prev: Option<Seq<u8>>, unsorted: Seq<char>) -> Seq<char>
    decreases n,
{
    if n == 0 {
        Seq::empty()
    } else {
        match parse_keyed(b) {
            None => keyed_read_error(total, b),
            Some((e, r)) => if prev is Some && !bytes_lt(prev.unwrap(), e.0) {
                unsorted
            } else {
                keyed_error(total, r, (n - 1) as nat, Some(e.0), unsorted)
            },
        }
    }
}

/// `n` keyed items can be read from `b`, in strictly increasing key order.
pub open spec fn keyed_ok(b: Seq<u8>, n: nat) -> bool {
    parse_keyed_list(b, n) matches Some((es, _)) && strictly_sorted(es)
}

/// Why a page is not of the expected kind with a sound used length.
pub open spec fn page_head_error(page: Seq<u8>, kind: u8) -> Seq<char> {
    match parse_u8(page) {
        None => short_read(page.len() as int, page, 1),
        Some((k, r)) => if k != kind {
            "unexpected index page kind: expected "@ + decimal(kind as int) + ", got "@ + decimal(k as int)
        } else {
            match parse_u16(r) {
                None => short_read(page.len() as int, r, 2),
                Some((_, r2)) => match parse_u16(r2) {
                    None => short_read(page.len() as int, r2, 2),
                    Some((used, _)) => "invalid index page used length: "@ + decimal(used as int),
                },
            }
        },
    }
}

/// Why the items of a page with `n` items, in its used part, cannot be read.
pub open spec fn items_error(page: Seq<u8>, used: nat, n: nat, unsorted: Seq<char>, trailing: Seq<char>) -> Seq<char> {
    let part = page.take(used as int);
    match parse_u64(part.skip(5)) {
        None => short_read(used as int, part.skip(5), 8),
        Some((_, r)) => if keyed_ok(r, n) {
            trailing
        } else {
            keyed_error(used as int, r, n, None, unsorted)
        },
    }
}

/// Why a page does not read as a leaf page.
pub open spec fn leaf_error(page: Seq<u8>) -> Seq<char> {
    match page_head(page, PAGE_KIND_LEAF) {
        None => page_head_error(page, PAGE_KIND_LEAF),
        Some((count, used)) => items_error(page, used, count as nat,
            "leaf index keys are not strictly sorted"@, "leaf index page has trailing bytes"@),
    }
}

/// Why a page does not read as an internal page.
pub open spec fn internal_error(page: Seq<u8>) -> Seq<char> {
    match page_head(page, PAGE_KIND_INTERNAL) {
        None => page_head_error(page, PAGE_KIND_INTERNAL),
        Some((count, used)) => if count == 0 {
            "internal index page has no children"@
        } else {
            items_error(page, used, (count - 1) as nat,
                "internal index keys are not strictly sorted"@, "internal index page has trailing bytes"@)
        },
    }
}

// ---------------------------------------------------------------------------
// Entries and page encoding.
// ---------------------------------------------------------------------------

/// An encoded key with the number that goes with it: a row id in a leaf page, a
/// child page id in an internal page.
pub struct EncodedEntry {
    pub key: Vec<u8>,
    pub row_id: u64,
}

impl View for EncodedEntry {
    type V = EntryModel;

    open spec fn view(&self) -> EntryModel {
        (self.key@, self.row_id)
    }
}

pub open spec fn entries_view(v: Seq<EncodedEntry>) -> Seq<EntryModel> {
    v.map_values(|e: EncodedEntry| e@)
}

/// A copy of the bytes.
fn copy_bytes(b: &[u8]) -> (r: Vec<u8>)
    ensures
        r@ == b@,
{
    vstd::slice::slice_to_vec(b)
}

proof fn lemma_keyed_list_push(es: Seq<EntryModel>, e: EntryModel)
    ensures
        enc_keyed_list(es.push(e)) == enc_keyed_list(es) + enc_keyed(e.0, e.1),
        enc_keyed_list(es.push(e)).len() == enc_keyed_list(es).len() + 10 + e.0.len(),
{
    vstd::bytes::lemma_auto_spec_u16_to_from_le_bytes();
    vstd::bytes::lemma_auto_spec_u64_to_from_le_bytes();
    assert(es.push(e).drop_last() =~= es);
}


/// Appends zeros up to the page size.
fn pad_page(out: &mut Vec<u8>)
    requires
        old(out)@.len() <= PAGE_SIZE,
    ensures
        final(out)@ == padded(old(out)@),
{
    let ghost start = out@;
    while out.len() < PAGE_SIZE
        invariant
            start.len() <= out@.len() <= PAGE_SIZE,
            out@ == start + Seq::new((out@.len() - start.len()) as nat, |i: int| 0u8),
        decreases PAGE_SIZE - out@.len(),
    {
        out.push(0);
        assert(out@ =~= start + Seq::new((out@.len() - start.len()) as nat, |i: int| 0u8));
    }
}

/// A page of the given kind: its header, the `u64` that follows it, then the
/// keyed items; refused when a count or key length does not fit a `u16` or the
/// page would be larger than the page size.
fn encode_page(kind: u8, count: usize, head: u64, items: &[EncodedEntry]) -> (r: Result<Vec<u8>>)
    ensures
        r is Ok == fits_page(count as nat, entries_view(items@)),
        r is Ok ==> r.unwrap()@ == padded(page_body(kind, count as nat, head, entries_view(items@))),
        r is Err ==> r matches Err(CrustDbError::StorageFormat(_)),
{
    let ghost ev = entries_view(items@);
    let count16 = usize_to_u16(count, "index page entry count")?;
    let mut body: Vec<u8> = Vec::new();
    let mut i: usize = 0;
    assert(ev.take(0) =~= Seq::<EntryModel>::empty());
    while i < items.len()
        invariant
            ev == entries_view(items@),
            i <= items.len(),
            body@ == enc_keyed_list(ev.take(i as int)),
            forall|j: int| 0 <= j < i ==> (#[trigger] ev[j]).0.len() <= u16::MAX,
        decreases items.len() - i,
    {
        let key = items[i].key.as_slice();
        let len = match usize_to_u16(key.len(), "index key length") {
            Ok(len) => len,
            Err(e) => {
                assert(ev[i as int].0.len() > u16::MAX);
                return Err(e);
            },
        };
        write_u16(&mut body, len);
        body.extend_from_slice(key);
        write_u64(&mut body, items[i].row_id);
        proof {
            lemma_keyed_list_push(ev.take(i as int), ev[i as int]);
            assert(ev.take(i + 1) =~= ev.take(i as int).push(ev[i as int]));
        }
        i = i + 1;
    }
    assert(ev.take(i as int) =~= ev);
    if body.len() > PAGE_SIZE - 13 {
        return Err(CrustDbError::format("index page is larger than the configured page size"));
    }
    let used: u16 = (13 + body.len()) as u16;
    let mut out: Vec<u8> = Vec::new();
    out.push(kind);
    write_u16(&mut out, count16);
    write_u16(&mut out, used);
    write_u64(&mut out, head);
    out.extend_from_slice(body.as_slice());
    proof {
        vstd::bytes::lemma_auto_spec_u16_to_from_le_bytes();
        vstd::bytes::lemma_auto_spec_u64_to_from_le_bytes();
    }
    assert(out@ =~= page_body(kind, count as nat, head, ev));
    pad_page(&mut out);
    Ok(out)
}

/// A leaf page: the entries and the id of the next leaf, `NO_PAGE` for the last.
fn encode_leaf_page(entries: &[EncodedEntry], next_leaf: Option<u64>) -> (r: Result<Vec<u8>>)
    ensures
        r is Ok == fits_page(entries@.len(), entries_view(entries@)),
        r is Ok ==> r.unwrap()@ == leaf_page(entries_view(entries@), next_leaf),
        r is Err ==> r matches Err(CrustDbError::StorageFormat(_)),
{
    let next = match next_leaf {
        Some(p) => p,
        None => NO_PAGE,
    };
    encode_page(PAGE_KIND_LEAF, entries.len(), next, entries)
}

/// A reference to a built page: its id and the first key under it (none for
/// the one leaf of an empty index).
pub struct PageRef {
    pub page_id: u64,
    pub first_key: Option<Vec<u8>>,
}

/// An internal page over the given children: the first child's id, then for
/// each further child its first key and its id.
fn encode_internal_page(children: &[PageRef]) -> (r: Result<Vec<u8>>)
    ensures
        r is Ok == (children@.len() > 0
            && (forall|j: int| 1 <= j < children@.len() ==> (#[trigger] children@[j]).first_key is Some)
            && fits_page(children@.len(), separators_of(children@))),
        r is Ok ==> r.unwrap()@ == internal_page(children@[0].page_id, separators_of(children@)),
        r is Err ==> r matches Err(CrustDbError::StorageFormat(_)),
{
    if children.len() == 0 {
        return Err(CrustDbError::format("internal index page must have at least one child"));
    }
    let mut seps: Vec<EncodedEntry> = Vec::new();
    let mut i: usize = 1;
    while i < children.len()
        invariant
            1 <= i <= children@.len(),
            seps@.len() == i - 1,
            forall|j: int| 1 <= j < i ==> (#[trigger] children@[j]).first_key is Some,
            forall|j: int| 0 <= j < i - 1 ==> (#[trigger] seps@[j])@ == ref_separator(children@[j + 1]),
        decreases children@.len() - i,
    {
        match &children[i].first_key {
            Some(k) => {
                seps.push(EncodedEntry { key: copy_bytes(k.as_slice()), row_id: children[i].page_id });
            },
            None => {
                return Err(CrustDbError::format("internal index child is missing a separator key"));
            },
        }
        i = i + 1;
    }
    assert(entries_view(seps@) =~= separators_of(children@));
    encode_page(PAGE_KIND_INTERNAL, children.len(), children[0].page_id, seps.as_slice())
}

/// The separator a child stands for in its parent: its first key and its id.
pub open spec fn ref_separator(c: PageRef) -> EntryModel {
    (c.first_key.unwrap()@, c.page_id)
}

/// The separators of an internal page over these children: all but the first.
pub open spec fn separators_of(children: Seq<PageRef>) -> Seq<EntryModel> {
    Seq::new((children.len() - 1) as nat, |j: int| ref_separator(children[j + 1]))
}

// ---------------------------------------------------------------------------
// Page decoding.
// ---------------------------------------------------------------------------

/// A message followed by a number in decimal.
fn with_number(prefix: &str, n: u64) -> (r: String)
    ensures
        r@ == prefix@ + decimal(n as int),
{
    let t = u64_text(n);
    join(prefix, t.as_str())
}

proof fn lemma_keyed_len(b: Seq<u8>, m: nat)
    requires
        parse_keyed_list(b, m) is Some,
    ensures
        parse_keyed_list(b, m).unwrap().0.len() == m,
    decreases m,
{
    if m > 0 {
        lemma_keyed_len(b, (m - 1) as nat);
    }
}

proof fn lemma_keyed_prefix(b: Seq<u8>, i: nat, m: nat)
    requires
        i <= m,
        parse_keyed_list(b, m) is Some,
    ensures
        parse_keyed_list(b, i) is Some,
        parse_keyed_list(b, i).unwrap().0 == parse_keyed_list(b, m).unwrap().0.take(i as int),
    decreases m,
{
    lemma_keyed_len(b, m);
    if i == m {
        assert(parse_keyed_list(b, m).unwrap().0.take(i as int) =~= parse_keyed_list(b, m).unwrap().0);
    } else {
        lemma_keyed_prefix(b, i, (m - 1) as nat);
        lemma_keyed_len(b, (m - 1) as nat);
        let prev = parse_keyed_list(b, (m - 1) as nat).unwrap().0;
        assert(prev.take(i as int) =~= parse_keyed_list(b, m).unwrap().0.take(i as int));
    }
}

proof fn lemma_keyed_fail(b: Seq<u8>, i: nat, m: nat)
    requires
        i <= m,
        parse_keyed_list(b, i) is None,
    ensures
        parse_keyed_list(b, m) is None,
{
    if parse_keyed_list(b, m) is Some {
        lemma_keyed_prefix(b, i, m);
    }
}

/// Reads `n` keyed items, each key strictly after the one before.
fn read_keyed_items(cursor: &mut Cursor, n: u16, unsorted: &str) -> (r: Result<Vec<EncodedEntry>>)
    requires
        old(cursor).wf(),
    ensures
        final(cursor).wf(),
        final(cursor).bytes() == old(cursor).bytes(),
        r is Ok == (parse_keyed_list(old(cursor).rest(), n as nat) matches Some((es, _)) && strictly_sorted(es)),
        r is Ok ==> parse_keyed_list(old(cursor).rest(), n as nat) == Some((entries_view(r.unwrap()@), final(cursor).rest())),
        r is Err ==> r matches Err(CrustDbError::StorageFormat(_)),
        r matches Err(CrustDbError::StorageFormat(m)) ==> m@ == keyed_error(old(cursor).bytes().len() as int, old(cursor).rest(), n as nat, None, unsorted@),
{
    let ghost start = cursor.rest();
    let ghost bytes0 = cursor.bytes();
    let mut out: Vec<EncodedEntry> = Vec::new();
    let mut i: u16 = 0;
    assert(entries_view(out@) =~= Seq::<EntryModel>::empty());
    while i < n
        invariant
            cursor.wf(),
            cursor.bytes() == bytes0,
            bytes0 == old(cursor).bytes(),
            start == old(cursor).rest(),
            i <= n,
            out@.len() == i,
            parse_keyed_list(start, i as nat) == Some((entries_view(out@), cursor.rest())),
            strictly_sorted(entries_view(out@)),
            keyed_error(bytes0.len() as int, start, n as nat, None, unsorted@) == keyed_error(bytes0.len() as int, cursor.rest(),
                (n - i) as nat, if i == 0 { None } else { Some(entries_view(out@).last().0) }, unsorted@),
        decreases n - i,
    {
        let ghost before = cursor.rest();
        let ghost done = entries_view(out@);
        let len = match cursor.read_u16() {
            Ok(len) => len,
            Err(e) => {
                proof { lemma_keyed_fail(start, (i + 1) as nat, n as nat); }
                return Err(e);
            },
        };
        let ghost after_len = cursor.rest();
        let key_slice = match cursor.read_exact(len as usize) {
            Ok(k) => k,
            Err(e) => {
                proof { lemma_keyed_fail(start, (i + 1) as nat, n as nat); }
                return Err(e);
            },
        };
        let key = copy_bytes(key_slice);
        let row_id = match cursor.read_u64() {
            Ok(x) => x,
            Err(e) => {
                proof { lemma_keyed_fail(start, (i + 1) as nat, n as nat); }
                return Err(e);
            },
        };
        let ghost e: EntryModel = (key@, row_id);
        assert(parse_keyed(before) == Some((e, cursor.rest())));
        assert(parse_keyed_list(start, (i + 1) as nat) == Some((done.push(e), cursor.rest())));
        if out.len() > 0 {
            let last = out.len() - 1;
            match compare_bytes(out[last].key.as_slice(), key.as_slice()) {
                Order::Less => {},
                _ => {
                    proof {
                        if parse_keyed_list(start, n as nat) is Some {
                            lemma_keyed_prefix(start, (i + 1) as nat, n as nat);
                            lemma_keyed_len(start, n as nat);
                            let all = parse_keyed_list(start, n as nat).unwrap().0;
                            assert(all.take(i + 1) == done.push(e));
                            assert(all.take(i + 1)[last as int] == all[last as int]);
                            assert(all.take(i + 1)[i as int] == all[i as int]);
                        }
                    }
                    return Err(CrustDbError::format(unsorted));
                },
            }
        }
        proof {
            let d2 = done.push(e);
            assert forall|a: int, b: int| 0 <= a < b < d2.len() implies bytes_lt(d2[a].0, d2[b].0) by {
                if b == d2.len() - 1 && a < b - 1 {
                    lemma_bytes_lt_transitive(d2[a].0, d2[b - 1].0, d2[b].0);
                }
            }
        }
        out.push(EncodedEntry { key, row_id });
        assert(entries_view(out@) =~= done.push(e));
        i = i + 1;
    }
    Ok(out)
}

/// A leaf page as read back.
pub struct LeafPage {
    pub next_leaf: Option<u64>,
    pub entries: Vec<EncodedEntry>,
}

/// An internal page as read back.
pub struct InternalPage {
    pub first_child: u64,
    pub separators: Vec<EncodedEntry>,
}

/// The entry count and used length of a page of the expected kind.
fn parse_page_header(page: &[u8], expected_kind: u8) -> (r: Result<(u16, usize)>)
    ensures
        r is Ok == page_head(page@, expected_kind) is Some,
        r is Ok ==> page_head(page@, expected_kind) == Some((r.unwrap().0, r.unwrap().1 as nat)),
        r is Err ==> r matches Err(CrustDbError::StorageFormat(_)),
        r matches Err(CrustDbError::StorageFormat(m)) ==> m@ == page_head_error(page@, expected_kind),
{
    let mut cursor = Cursor::new(page);
    let kind = cursor.read_u8()?;
    if kind != expected_kind {
        let a = with_number("unexpected index page kind: expected ", expected_kind as u64);
        let b = join(a.as_str(), ", got ");
        let t = u64_text(kind as u64);
        return Err(CrustDbError::StorageFormat(join(b.as_str(), t.as_str())));
    }
    let count = cursor.read_u16()?;
    let used = cursor.read_u16()?;
    if used < 5 || used > 4096 {
        return Err(CrustDbError::StorageFormat(with_number("invalid index page used length: ", used as u64)));
    }
    Ok((count, used as usize))
}

/// Reads a leaf page: its next leaf (none where it holds `NO_PAGE`) and its
/// entries, strictly sorted by key, with nothing after them in the used part.
fn parse_leaf_page(page: &[u8]) -> (r: Result<LeafPage>)
    requires
        page@.len() == PAGE_SIZE,
    ensures
        r is Ok == parse_leaf_spec(page@) is Some,
        r is Ok ==> parse_leaf_spec(page@) == Some((r.unwrap().next_leaf, entries_view(r.unwrap().entries@))),
        r is Err ==> r matches Err(CrustDbError::StorageFormat(_)),
        r matches Err(CrustDbError::StorageFormat(m)) ==> m@ == leaf_error(page@),
{
    let (count, used) = parse_page_header(page, PAGE_KIND_LEAF)?;
    let part = vstd::slice::slice_subrange(page, 0, used);
    assert(part@ =~= page@.take(used as int));
    let mut cursor = Cursor::new(part);
    let _ = cursor.read_exact(PAGE_HEADER_LEN)?;
    let next = cursor.read_u64()?;
    let entries = read_keyed_items(&mut cursor, count, "leaf index keys are not strictly sorted")?;
    if !cursor.is_finished() {
        return Err(CrustDbError::format("leaf index page has trailing bytes"));
    }
    let next_leaf = if next == NO_PAGE { None } else { Some(next) };
    Ok(LeafPage { next_leaf, entries })
}

/// Reads an internal page: its first child and its separators, strictly sorted
/// by key, with nothing after them in the used part.
fn parse_internal_page(page: &[u8]) -> (r: Result<InternalPage>)
    requires
        page@.len() == PAGE_SIZE,
    ensures
        r is Ok == parse_internal_spec(page@) is Some,
        r is Ok ==> parse_internal_spec(page@) == Some((r.unwrap().first_child, entries_view(r.unwrap().separators@))),
        r is Err ==> r matches Err(CrustDbError::StorageFormat(_)),
        r matches Err(CrustDbError::StorageFormat(m)) ==> m@ == internal_error(page@),
{
    let (count, used) = parse_page_header(page, PAGE_KIND_INTERNAL)?;
    if count == 0 {
        return Err(CrustDbError::format("internal index page has no children"));
    }
    let part = vstd::slice::slice_subrange(page, 0, used);
    assert(part@ =~= page@.take(used as int));
    let mut cursor = Cursor::new(part);
    let _ = cursor.read_exact(PAGE_HEADER_LEN)?;
    let first_child = cursor.read_u64()?;
    let separators = read_keyed_items(&mut cursor, count - 1, "internal index keys are not strictly sorted")?;
    if !cursor.is_finished() {
        return Err(CrustDbError::format("internal index page has trailing bytes"));
    }
    Ok(InternalPage { first_child, separators })
}

// ---------------------------------------------------------------------------
// The header page.
// ---------------------------------------------------------------------------

/// The used part of the header page: magic, version, page size, root page id,
/// page count, entry count, then the model and field names.
pub open spec fn header_bytes(model: Seq<char>, field: Seq<char>, root: u64, count: u64, n: u64) -> Seq<u8> {
    index_magic() + seq![INDEX_VERSION] + spec_u32_to_le_bytes(4096) + spec_u64_to_le_bytes(root)
        + spec_u64_to_le_bytes(count) + spec_u64_to_le_bytes(n) + enc_str(model) + enc_str(field)
}

/// What a file's header page says, for an index of `model.field`: the root page
/// id, the page count and the entry count; none where the header is damaged,
/// names another index, or disagrees with the file's length.
pub open spec fn header_spec(file: Seq<u8>, model: Seq<char>, field: Seq<char>) -> Option<(u64, u64, u64)> {
    if file.len() < PAGE_SIZE {
        None
    } else {
        let page = file.take(PAGE_SIZE as int);
        if page.take(8) != index_magic() || page[8] != INDEX_VERSION {
            None
        } else {
            match parse_u32(page.skip(9)) {
                Some((size, r1)) => if size != 4096 {
                    None
                } else {
                    match parse_u64(r1) {
                        Some((root, r2)) => match parse_u64(r2) {
                            Some((count, r3)) => match parse_u64(r3) {
                                Some((n, r4)) => match parse_str(r4) {
                                    Some((m, r5)) => match parse_str(r5) {
                                        Some((f, _)) => if m != model || f != field || count == 0 || root >= count
                                            || file.len() != PAGE_SIZE * (count + 1) {
                                            None
                                        } else {
                                            Some((root, count, n))
                                        },
                                        None => None,
                                    },
                                    None => None,
                                },
                                None => None,
                            },
                            None => None,
                        },
                        None => None,
                    }
                },
                None => None,
            }
        }
    }
}

/// Why the header page of a file is refused for an index of `model.field`:
/// the message of the first check that fails, in the order they are made.
pub open spec fn header_error(file: Seq<u8>, model: Seq<char>, field: Seq<char>) -> Seq<char> {
    if file.len() < PAGE_SIZE {
        "index file is smaller than the header page"@
    } else {
        let page = file.take(PAGE_SIZE as int);
        if page.take(8) != index_magic() {
            "invalid index file magic"@
        } else if page[8] != INDEX_VERSION {
            "unsupported index file version: "@ + decimal(page[8] as int)
        } else {
            let size = parse_u32(page.skip(9)).unwrap().0;
            let r1 = parse_u32(page.skip(9)).unwrap().1;
            if size != 4096 {
                "unsupported index page size: "@ + decimal(size as int)
            } else {
                let root = parse_u64(r1).unwrap().0;
                let count = parse_u64(parse_u64(r1).unwrap().1).unwrap().0;
                let r4 = parse_u64(parse_u64(parse_u64(r1).unwrap().1).unwrap().1).unwrap().1;
                match parse_str(r4) {
                    None => str_error(PAGE_SIZE as int, r4),
                    Some((m, r5)) => match parse_str(r5) {
                        None => str_error(PAGE_SIZE as int, r5),
                        Some((f, _)) => if m != model || f != field {
                            "index file identity mismatch: expected "@ + model + "."@ + field + ", got "@ + m + "."@ + f
                        } else if count == 0 {
                            "index file has no pages"@
                        } else if root >= count {
                            "index root page is out of range: "@ + decimal(root as int)
                        } else if count * 4096 > u64::MAX {
                            "index file page count overflow"@
                        } else if count * 4096 + 4096 > u64::MAX {
                            "index file length overflow"@
                        } else {
                            "index file length mismatch: expected "@ + decimal(count * 4096 + 4096) + ", got "@
                                + decimal(file.len() as int)
                        },
                    },
                }
            }
        }
    }
}

/// The bytes of the page with the given id: pages follow the header page.
pub open spec fn page_at(file: Seq<u8>, id: u64) -> Seq<u8> {
    file.subrange(PAGE_SIZE * (id + 1), PAGE_SIZE * (id + 2))
}

/// What the header page of an index file says.
#[derive(Debug)]
pub struct Header {
    pub root_page_id: u64,
    pub page_count: u64,
    pub entry_count: u64,
}

fn index_magic_bytes() -> (r: Vec<u8>)
    ensures
        r@ == index_magic(),
{
    let r: Vec<u8> = vec![67u8, 82, 85, 83, 84, 66, 84, 49];
    assert(r@ =~= index_magic());
    r
}

/// The header page: refused where a name does not fit a string or the header
/// does not fit a page.
fn encode_header_page(model_name: &str, field_name: &str, root_page_id: u64, page_count: u64, entry_count: u64) -> (r: Result<Vec<u8>>)
    ensures
        r is Ok == (str_fits(model_name@) && str_fits(field_name@)
            && header_bytes(model_name@, field_name@, root_page_id, page_count, entry_count).len() <= PAGE_SIZE),
        r is Ok ==> r.unwrap()@ == padded(header_bytes(model_name@, field_name@, root_page_id, page_count, entry_count)),
        r is Err ==> r matches Err(CrustDbError::StorageFormat(_)),
        r matches Err(CrustDbError::StorageFormat(m)) ==> m@ == (if !str_fits(model_name@) || !str_fits(field_name@) {
            too_large_message("string length"@)
        } else {
            "index header is too large for a page"@
        }),
{
    let mut out = index_magic_bytes();
    out.push(INDEX_VERSION);
    write_u32(&mut out, 4096);
    write_u64(&mut out, root_page_id);
    write_u64(&mut out, page_count);
    write_u64(&mut out, entry_count);
    write_string(&mut out, model_name)?;
    write_string(&mut out, field_name)?;
    assert(out@ =~= header_bytes(model_name@, field_name@, root_page_id, page_count, entry_count));
    if out.len() > PAGE_SIZE {
        return Err(CrustDbError::format("index header is too large for a page"));
    }
    pad_page(&mut out);
    Ok(out)
}

/// The files whose header page is `page` and whose length is `len`.
pub open spec fn file_with_header(f: Seq<u8>, page: Seq<u8>, len: u64) -> bool {
    f.len() == len && f.take(PAGE_SIZE as int) == page
}

/// Reads and checks the header page of an index file for `model_name.field_name`,
/// given the page and the file's length: what it says of every file with that
/// header page and length.
pub fn read_header_page(page: &[u8], file_len: u64, model_name: &str, field_name: &str) -> (r: Result<Header>)
    requires
        page@.len() == PAGE_SIZE,
        file_len >= PAGE_SIZE,
    ensures
        forall|f: Seq<u8>| #[trigger] file_with_header(f, page@, file_len) ==> {
            &&& r is Ok == header_spec(f, model_name@, field_name@) is Some
            &&& r is Ok ==> header_spec(f, model_name@, field_name@) == Some(
                (r.unwrap().root_page_id, r.unwrap().page_count, r.unwrap().entry_count),
            )
            &&& r matches Err(CrustDbError::StorageFormat(m)) ==> m@ == header_error(f, model_name@, field_name@)
        },
        r is Err ==> r matches Err(CrustDbError::StorageFormat(_)),
{
    let mut cursor = Cursor::new(page);
    let magic = cursor.read_exact(8)?;
    let expected = index_magic_bytes();
    match compare_bytes(magic, expected.as_slice()) {
        Order::Equal => {},
        _ => {
            return Err(CrustDbError::format("invalid index file magic"));
        },
    }
    let version = cursor.read_u8()?;
    assert(page@.skip(8)[0] == page@[8]);
    if version != INDEX_VERSION {
        return Err(CrustDbError::StorageFormat(with_number("unsupported index file version: ", version as u64)));
    }
    assert(page@.skip(8).skip(1) =~= page@.skip(9));
    let page_size = cursor.read_u32()?;
    if page_size != 4096 {
        return Err(CrustDbError::StorageFormat(with_number("unsupported index page size: ", page_size as u64)));
    }
    let root_page_id = cursor.read_u64()?;
    let page_count = cursor.read_u64()?;
    let entry_count = cursor.read_u64()?;
    let stored_model = cursor.read_string()?;
    let stored_field = cursor.read_string()?;
    let same_model = match compare_names(stored_model.as_str(), model_name) {
        Order::Equal => true,
        _ => false,
    };
    let same_field = match compare_names(stored_field.as_str(), field_name) {
        Order::Equal => true,
        _ => false,
    };
    if !same_model || !same_field {
        let a = join("index file identity mismatch: expected ", model_name);
        let b = join(a.as_str(), ".");
        let c = join(b.as_str(), field_name);
        let d = join(c.as_str(), ", got ");
        let e = join(d.as_str(), stored_model.as_str());
        let f = join(e.as_str(), ".");
        return Err(CrustDbError::StorageFormat(join(f.as_str(), stored_field.as_str())));
    }
    if page_count == 0 {
        return Err(CrustDbError::format("index file has no pages"));
    }
    if root_page_id >= page_count {
        return Err(CrustDbError::StorageFormat(with_number("index root page is out of range: ", root_page_id)));
    }
    let pages_len = match page_count.checked_mul(PAGE_SIZE_U64) {
        Some(x) => x,
        None => {
            assert forall|f: Seq<u8>| f.len() == file_len implies f.len() != PAGE_SIZE * (page_count + 1) by {
                assert(f.len() != PAGE_SIZE * (page_count + 1)) by (nonlinear_arith)
                    requires
                        page_count * 4096 > u64::MAX,
                        f.len() == file_len,
                        file_len <= u64::MAX,
                ;
            }
            return Err(CrustDbError::format("index file page count overflow"));
        },
    };
    let expected_len = match pages_len.checked_add(PAGE_SIZE_U64) {
        Some(x) => x,
        None => {
            return Err(CrustDbError::format("index file length overflow"));
        },
    };
    let actual_len = file_len;
    if actual_len != expected_len {
        let a = with_number("index file length mismatch: expected ", expected_len);
        let b = join(a.as_str(), ", got ");
        let t = u64_text(actual_len);
        return Err(CrustDbError::StorageFormat(join(b.as_str(), t.as_str())));
    }
    Ok(Header { root_page_id, page_count, entry_count })
}

/// Reads and checks the header page of an index file for `model_name.field_name`.
pub fn read_header(file: &[u8], model_name: &str, field_name: &str) -> (r: Result<Header>)
    ensures
        r is Ok == header_spec(file@, model_name@, field_name@) is Some,
        r is Ok ==> header_spec(file@, model_name@, field_name@) == Some(
            (r.unwrap().root_page_id, r.unwrap().page_count, r.unwrap().entry_count),
        ),
        r is Err ==> r matches Err(CrustDbError::StorageFormat(_)),
        r matches Err(CrustDbError::StorageFormat(m)) ==> m@ == header_error(file@, model_name@, field_name@),
{
    if file.len() < PAGE_SIZE {
        return Err(CrustDbError::format("index file is smaller than the header page"));
    }
    let page = vstd::slice::slice_subrange(file, 0, PAGE_SIZE);
    assert(page@ =~= file@.take(PAGE_SIZE as int));
    let len = file.len() as u64;
    let r = read_header_page(page, len, model_name, field_name);
    assert(file_with_header(file@, page@, len));
    r
}

/// The bytes of a page of a checked file, or an error where the id is out of range.
fn read_page<'a>(file: &'a [u8], page_count: u64, page_id: u64) -> (r: Result<&'a [u8]>)
    requires
        file@.len() == PAGE_SIZE * (page_count + 1),
    ensures
        r is Ok == (page_id < page_count),
        r is Ok ==> r.unwrap()@ == page_at(file@, page_id),
        r is Err ==> r matches Err(CrustDbError::StorageFormat(_)),
        r matches Err(CrustDbError::StorageFormat(m)) ==> m@ == "index page id is out of range: "@ + decimal(page_id as int),
{
    if page_id >= page_count {
        return Err(CrustDbError::StorageFormat(with_number("index page id is out of range: ", page_id)));
    }
    assert(page_id * 4096 + 8192 <= 4096 * (page_count + 1)) by (nonlinear_arith)
        requires
            page_id < page_count,
    ;
    assert(page_id * 4096 + 8192 <= file@.len());
    assert(page_id <= page_id * 4096) by (nonlinear_arith);
    let total = file.len();
    assert(file@.len() <= usize::MAX);
    let pid = page_id as usize;
    assert(pid == page_id);
    assert(pid * 4096 + 4096 <= usize::MAX);
    let start: usize = pid * 4096 + 4096;
    let page = vstd::slice::slice_subrange(file, start, start + PAGE_SIZE);
    Ok(page)
}

// ---------------------------------------------------------------------------
// Walking the tree.
// ---------------------------------------------------------------------------

/// The child of an internal page that a key goes down to: the child after the
/// last separator that is not after the key.
pub open spec fn child_for(first: u64, seps: Seq<EntryModel>, k: Seq<u8>) -> u64
    decreases seps.len(),
{
    if seps.len() == 0 || bytes_lt(k, seps[0].0) {
        first
    } else {
        child_for(seps[0].1, seps.drop_first(), k)
    }
}

/// The number stored with key `k` among the entries, if any (the last such).
pub open spec fn find_row(es: Seq<EntryModel>, k: Seq<u8>) -> Option<u64>
    decreases es.len(),
{
    if es.len() == 0 {
        None
    } else if es.last().0 == k {
        Some(es.last().1)
    } else {
        find_row(es.drop_last(), k)
    }
}

/// A lookup of key `k` from page `id`, going down at most `fuel` pages: the row
/// found in the leaf it reaches, or none where a page is damaged, out of range,
/// or the walk is longer than the file has pages.
pub open spec fn lookup_from(file: Seq<u8>, count: u64, id: u64, k: Seq<u8>, fuel: nat) -> Option<Option<u64>>
    decreases fuel,
{
    if fuel == 0 || id >= count {
        None
    } else {
        let page = page_at(file, id);
        if page[0] == PAGE_KIND_LEAF {
            match parse_leaf_spec(page) {
                Some((_, es)) => Some(find_row(es, k)),
                None => None,
            }
        } else if page[0] == PAGE_KIND_INTERNAL {
            match parse_internal_spec(page) {
                Some((first, seps)) => lookup_from(file, count, child_for(first, seps, k), k, (fuel - 1) as nat),
                None => None,
            }
        } else {
            None
        }
    }
}

/// Why a lookup of key `k` from page `id` fails, going down at most `fuel`
/// more pages.
pub open spec fn walk_error(file: Seq<u8>, count: u64, id: u64, k: Seq<u8>, fuel: nat) -> Seq<char>
    decreases fuel,
{
    if fuel == 0 {
        "index tree traversal contains a cycle"@
    } else if id >= count {
        "index page id is out of range: "@ + decimal(id as int)
    } else {
        let page = page_at(file, id);
        if page[0] == PAGE_KIND_LEAF {
            leaf_error(page)
        } else if page[0] == PAGE_KIND_INTERNAL {
            match parse_internal_spec(page) {
                Some((first, seps)) => walk_error(file, count, child_for(first, seps, k), k, (fuel - 1) as nat),
                None => internal_error(page),
            }
        } else {
            "unknown index page kind: "@ + decimal(page[0] as int)
        }
    }
}

/// Why a lookup of key `k` in an index file of `model.field` fails.
pub open spec fn lookup_error(file: Seq<u8>, model: Seq<char>, field: Seq<char>, k: Seq<u8>) -> Seq<char> {
    match header_spec(file, model, field) {
        Some((root, count, _)) => walk_error(file, count, root, k, count as nat),
        None => header_error(file, model, field),
    }
}

/// A lookup of key `k` in an index file of `model.field`: none where the file
/// is damaged; no row where the index is empty.
pub open spec fn lookup_spec(file: Seq<u8>, model: Seq<char>, field: Seq<char>, k: Seq<u8>) -> Option<Option<u64>> {
    match header_spec(file, model, field) {
        Some((root, count, n)) => if n == 0 {
            Some(None)
        } else {
            lookup_from(file, count, root, k, count as nat)
        },
        None => None,
    }
}

/// The leaf reached from page `id` by first children.
pub open spec fn leftmost_from(file: Seq<u8>, count: u64, id: u64, fuel: nat) -> Option<u64>
    decreases fuel,
{
    if fuel == 0 || id >= count {
        None
    } else {
        let page = page_at(file, id);
        if page[0] == PAGE_KIND_LEAF {
            Some(id)
        } else if page[0] == PAGE_KIND_INTERNAL {
            match parse_internal_spec(page) {
                Some((first, _)) => leftmost_from(file, count, first, (fuel - 1) as nat),
                None => None,
            }
        } else {
            None
        }
    }
}

/// The entries of the leaves chained from page `id`, in chain order.
pub open spec fn leaf_chain(file: Seq<u8>, count: u64, id: u64, fuel: nat) -> Option<Seq<EntryModel>>
    decreases fuel,
{
    if fuel == 0 || id >= count {
        None
    } else {
        match parse_leaf_spec(page_at(file, id)) {
            Some((next, es)) => match next {
                None => Some(es),
                Some(nx) => match leaf_chain(file, count, nx, (fuel - 1) as nat) {
                    Some(rest) => Some(es + rest),
                    None => None,
                },
            },
            None => None,
        }
    }
}

/// Why the walk by first children from page `id` fails, going down at most
/// `fuel` more pages.
pub open spec fn leftmost_error(file: Seq<u8>, count: u64, id: u64, fuel: nat) -> Seq<char>
    decreases fuel,
{
    if fuel == 0 {
        "index leftmost traversal contains a cycle"@
    } else if id >= count {
        "index page id is out of range: "@ + decimal(id as int)
    } else {
        let page = page_at(file, id);
        if page[0] == PAGE_KIND_LEAF {
            Seq::empty()
        } else if page[0] == PAGE_KIND_INTERNAL {
            match parse_internal_spec(page) {
                Some((first, _)) => leftmost_error(file, count, first, (fuel - 1) as nat),
                None => internal_error(page),
            }
        } else {
            "unknown index page kind: "@ + decimal(page[0] as int)
        }
    }
}

/// Why the entries of a leaf, read after the key `prev`, are refused: a key not
/// strictly after the one before it, or one that does not decode.
pub open spec fn entries_error(es: Seq<EntryModel>, prev: Option<Seq<u8>>) -> Option<Seq<char>>
    decreases es.len(),
{
    if es.len() == 0 {
        None
    } else if prev is Some && !bytes_lt(prev.unwrap(), es[0].0) {
        Some("index keys are not strictly sorted"@)
    } else if dec_key(es[0].0) is None {
        Some(key_error(es[0].0))
    } else {
        entries_error(es.drop_first(), Some(es[0].0))
    }
}

/// Why reading the leaf chain from page `id` fails, after `seen` entries whose
/// last key is `prev`, `n` entries being expected in all.
pub open spec fn chain_error(file: Seq<u8>, count: u64, id: u64, fuel: nat, prev: Option<Seq<u8>>, seen: nat, n: u64) -> Seq<char>
    decreases fuel,
{
    if fuel == 0 {
        "index leaf chain contains a cycle"@
    } else if id >= count {
        "index page id is out of range: "@ + decimal(id as int)
    } else {
        match parse_leaf_spec(page_at(file, id)) {
            None => leaf_error(page_at(file, id)),
            Some((next, es)) => match entries_error(es, prev) {
                Some(m) => m,
                None => {
                    let prev2 = if es.len() > 0 { Some(es.last().0) } else { prev };
                    match next {
                        None => "index entry count mismatch: expected "@ + decimal(n as int) + ", got "@
                            + decimal((seen + es.len()) as int),
                        Some(nx) => chain_error(file, count, nx, (fuel - 1) as nat, prev2, seen + es.len(), n),
                    }
                },
            },
        }
    }
}

/// Why reading all entries of an index file of `model.field` fails.
pub open spec fn load_error(file: Seq<u8>, model: Seq<char>, field: Seq<char>) -> Seq<char> {
    match header_spec(file, model, field) {
        None => header_error(file, model, field),
        Some((root, count, n)) => match leftmost_from(file, count, root, count as nat) {
            None => leftmost_error(file, count, root, count as nat),
            Some(first) => if n > usize::MAX {
                "index entry count is too large for this platform"@
            } else {
                chain_error(file, count, first, count as nat, None, 0, n)
            },
        },
    }
}

pub open spec fn all_decode(es: Seq<EntryModel>) -> bool {
    forall|i: int| 0 <= i < es.len() ==> (#[trigger] dec_key(es[i].0)) is Some
}

pub open spec fn decoded(es: Seq<EntryModel>) -> Seq<(ValueModel, RowId)> {
    es.map_values(|e: EntryModel| (dec_key(e.0).unwrap(), e.1))
}

pub open spec fn value_rows(v: Seq<(Value, RowId)>) -> Seq<(ValueModel, RowId)> {
    v.map_values(|p: (Value, RowId)| (p.0@, p.1))
}

/// The entries of an index file of `model.field`, in key order: none where the
/// file is damaged, its keys are out of order or do not decode, or their number
/// is not the one in the header.
pub open spec fn load_spec(file: Seq<u8>, model: Seq<char>, field: Seq<char>) -> Option<Seq<(ValueModel, RowId)>> {
    match header_spec(file, model, field) {
        Some((root, count, n)) => match leftmost_from(file, count, root, count as nat) {
            Some(first) => match leaf_chain(file, count, first, count as nat) {
                Some(es) => if n <= usize::MAX && strictly_sorted(es) && all_decode(es) && es.len() == n {
                    Some(decoded(es))
                } else {
                    None
                },
                None => None,
            },
            None => None,
        },
        None => None,
    }
}

/// The message for an index file that is not there.
pub open spec fn missing_index_message(model: Seq<char>, field: Seq<char>) -> Seq<char> {
    "missing index file: "@ + model + "."@ + field
}

proof fn lemma_find_row_at(es: Seq<EntryModel>, k: Seq<u8>, i: int)
    requires
        strictly_sorted(es),
        0 <= i < es.len(),
        es[i].0 == k,
    ensures
        find_row(es, k) == Some(es[i].1),
    decreases es.len(),
{
    if i < es.len() - 1 {
        lemma_bytes_lt_irreflexive(k);
        assert(bytes_lt(es[i].0, es[es.len() - 1].0));
        lemma_find_row_at(es.drop_last(), k, i);
    }
}

proof fn lemma_find_row_none(es: Seq<EntryModel>, k: Seq<u8>)
    requires
        forall|i: int| 0 <= i < es.len() ==> (#[trigger] es[i]).0 != k,
    ensures
        find_row(es, k) is None,
    decreases es.len(),
{
    if es.len() > 0 {
        assert(es[es.len() - 1].0 != k);
        lemma_find_row_none(es.drop_last(), k);
    }
}

/// The row stored with the key in a leaf, by binary search.
fn find_in_leaf(leaf: &LeafPage, target_key: &[u8]) -> (r: Option<RowId>)
    requires
        strictly_sorted(entries_view(leaf.entries@)),
    ensures
        r == find_row(entries_view(leaf.entries@), target_key@),
{
    let ghost es = entries_view(leaf.entries@);
    let ghost k = target_key@;
    let mut lo: usize = 0;
    let mut hi: usize = leaf.entries.len();
    while lo < hi
        invariant
            es == entries_view(leaf.entries@),
            strictly_sorted(es),
            k == target_key@,
            lo <= hi <= es.len(),
            forall|i: int| 0 <= i < lo ==> bytes_lt(#[trigger] es[i].0, k),
            forall|i: int| hi <= i < es.len() ==> bytes_lt(k, #[trigger] es[i].0),
        decreases hi - lo,
    {
        let mid = lo + (hi - lo) / 2;
        match compare_bytes(leaf.entries[mid].key.as_slice(), target_key) {
            Order::Equal => {
                proof { lemma_find_row_at(es, k, mid as int); }
                return Some(leaf.entries[mid].row_id);
            },
            Order::Less => {
                proof {
                    assert forall|i: int| 0 <= i < mid + 1 implies bytes_lt(#[trigger] es[i].0, k) by {
                        if i < mid {
                            lemma_bytes_lt_transitive(es[i].0, es[mid as int].0, k);
                        }
                    }
                }
                lo = mid + 1;
            },
            Order::Greater => {
                proof {
                    assert forall|i: int| mid <= i < es.len() implies bytes_lt(k, #[trigger] es[i].0) by {
                        if i > mid {
                            lemma_bytes_lt_transitive(k, es[mid as int].0, es[i].0);
                        }
                    }
                }
                hi = mid;
            },
        }
    }
    proof {
        assert forall|i: int| 0 <= i < es.len() implies (#[trigger] es[i]).0 != k by {
            lemma_bytes_lt_irreflexive(k);
        }
        lemma_find_row_none(es, k);
    }
    None
}

/// The child page an internal page sends the key to.
fn child_for_key(internal: &InternalPage, target_key: &[u8]) -> (r: u64)
    ensures
        r == child_for(internal.first_child, entries_view(internal.separators@), target_key@),
{
    let ghost seps = entries_view(internal.separators@);
    let ghost k = target_key@;
    let mut child = internal.first_child;
    let mut i: usize = 0;
    assert(seps.skip(0) =~= seps);
    while i < internal.separators.len()
        invariant
            seps == entries_view(internal.separators@),
            k == target_key@,
            i <= seps.len(),
            child_for(internal.first_child, seps, k) == child_for(child, seps.skip(i as int), k),
        decreases seps.len() - i,
    {
        let sep = &internal.separators[i];
        assert(seps.skip(i as int)[0] == seps[i as int]);
        match compare_bytes(target_key, sep.key.as_slice()) {
            Order::Less => {
                return child;
            },
            _ => {
                assert(seps.skip(i as int).drop_first() =~= seps.skip(i + 1));
                child = sep.row_id;
            },
        }
        i = i + 1;
    }
    child
}

fn page_kind(page: &[u8]) -> (r: Result<u8>)
    ensures
        r is Ok == (page@.len() > 0),
        r is Ok ==> r.unwrap() == page@[0],
        r is Err ==> r matches Err(CrustDbError::StorageFormat(_)),
{
    if page.len() == 0 {
        return Err(CrustDbError::format("empty index page"));
    }
    Ok(page[0])
}

pub(crate) fn missing_index(model_name: &str, field_name: &str) -> (r: CrustDbError)
    ensures
        r matches CrustDbError::StorageFormat(m) && m@ == missing_index_message(model_name@, field_name@),
{
    let a = join("missing index file: ", model_name);
    let b = join(a.as_str(), ".");
    CrustDbError::StorageFormat(join(b.as_str(), field_name))
}

fn unknown_kind(kind: u8) -> (r: CrustDbError)
    ensures
        r matches CrustDbError::StorageFormat(m) && m@ == "unknown index page kind: "@ + decimal(kind as int),
{
    CrustDbError::StorageFormat(with_number("unknown index page kind: ", kind as u64))
}

/// A lookup under way in an index file, one page at a time: the key sought, the
/// file's number of pages, the page to read next and how many more pages may be
/// read before the walk is taken for a cycle.
#[derive(Debug)]
pub struct IndexWalk {
    pub key: Vec<u8>,
    pub page_count: u64,
    pub next: u64,
    pub fuel: u64,
}

/// What a lookup asks for: the page with this id, or nothing more, with the row
/// id found (none when the key is not in the index).
#[derive(Debug)]
pub enum LookupStep {
    Read(u64),
    Done(Option<RowId>),
}

/// Starts a lookup of `value` in the index file of `model_name.field_name`, from
/// the file's length and its header page (its first `PAGE_SIZE` bytes; any bytes
/// when it is shorter): the walk and what it asks for first, or why the file
/// does not read. What it says holds of every file with that length and header
/// page.
pub fn start_lookup(header: &[u8], file_len: u64, model_name: &str, field_name: &str, value: &Value) -> (r: Result<(IndexWalk, LookupStep)>)
    requires
        file_len >= PAGE_SIZE ==> header@.len() == PAGE_SIZE,
    ensures
        forall|f: Seq<u8>| f.len() == file_len && (file_len >= PAGE_SIZE ==> f.take(PAGE_SIZE as int) == header@) ==> {
            let k = enc_key(value@);
            match r {
                Ok((w, LookupStep::Done(x))) => lookup_spec(f, model_name@, field_name@, k) == Some(x),
                Ok((w, LookupStep::Read(id))) => {
                    &&& header_spec(f, model_name@, field_name@) matches Some((root, count, n))
                    &&& n != 0 && id == root && w.page_count == count && w.fuel == count && w.key@ == k
                    &&& lookup_spec(f, model_name@, field_name@, k) == lookup_from(f, count, root, k, count as nat)
                    &&& lookup_error(f, model_name@, field_name@, k) == walk_error(f, count, root, k, count as nat)
                },
                Err(e) => lookup_spec(f, model_name@, field_name@, k) is None
                    && (e matches CrustDbError::StorageFormat(m) && m@ == lookup_error(f, model_name@, field_name@, k)),
            }
        },
        r matches Ok((w, LookupStep::Read(id))) ==> id == w.next && w.next < w.page_count && w.fuel > 0,
{
    let ghost k = enc_key(value@);
    if file_len < PAGE_SIZE_U64 {
        return Err(CrustDbError::format("index file is smaller than the header page"));
    }
    let h = match read_header_page(header, file_len, model_name, field_name) {
        Ok(h) => h,
        Err(e) => {
            proof {
                assert forall|f: Seq<u8>| f.len() == file_len && (file_len >= PAGE_SIZE ==> f.take(PAGE_SIZE as int) == header@)
                    implies lookup_spec(f, model_name@, field_name@, k) is None && (e matches CrustDbError::StorageFormat(m)
                    && m@ == lookup_error(f, model_name@, field_name@, k)) by {
                    assert(file_with_header(f, header@, file_len));
                }
            }
            return Err(e);
        },
    };
    proof {
        let pad = Seq::new((file_len - PAGE_SIZE) as nat, |i: int| 0u8);
        let g = header@ + pad;
        assert(g.take(PAGE_SIZE as int) =~= header@);
        assert(file_with_header(g, header@, file_len));
        assert forall|f: Seq<u8>| f.len() == file_len && (file_len >= PAGE_SIZE ==> f.take(PAGE_SIZE as int) == header@)
            implies header_spec(f, model_name@, field_name@) == Some((h.root_page_id, h.page_count, h.entry_count)) by {
            assert(file_with_header(f, header@, file_len));
        }
    }
    if h.entry_count == 0 {
        return Ok((IndexWalk { key: Vec::new(), page_count: h.page_count, next: h.root_page_id, fuel: h.page_count }, LookupStep::Done(None)));
    }
    let key = encode_key(value);
    let root = h.root_page_id;
    Ok((IndexWalk { key, page_count: h.page_count, next: root, fuel: h.page_count }, LookupStep::Read(root)))
}

/// Takes the page the walk asked for (the bytes of page `walk.next`) one step
/// down the tree: what the walk asks for next, or why the page does not read.
/// What it says holds of every file whose page `walk.next` is `page`.
pub fn lookup_step(walk: &mut IndexWalk, page: &[u8]) -> (r: Result<LookupStep>)
    requires
        old(walk).next < old(walk).page_count,
        old(walk).fuel > 0,
        page@.len() == PAGE_SIZE,
    ensures
        final(walk).key == old(walk).key,
        final(walk).page_count == old(walk).page_count,
        r matches Ok(LookupStep::Read(id)) ==> id == final(walk).next && final(walk).next < final(walk).page_count
            && final(walk).fuel == old(walk).fuel - 1 && final(walk).fuel > 0,
        forall|f: Seq<u8>| #[trigger] page_at(f, old(walk).next) == page@ ==> match r {
            Ok(LookupStep::Done(x)) => lookup_from(f, old(walk).page_count, old(walk).next, old(walk).key@, old(walk).fuel as nat)
                == Some(x),
            Ok(LookupStep::Read(n)) => lookup_from(f, old(walk).page_count, old(walk).next, old(walk).key@, old(walk).fuel as nat)
                == lookup_from(f, old(walk).page_count, n, old(walk).key@, (old(walk).fuel - 1) as nat)
                && walk_error(f, old(walk).page_count, old(walk).next, old(walk).key@, old(walk).fuel as nat)
                == walk_error(f, old(walk).page_count, n, old(walk).key@, (old(walk).fuel - 1) as nat),
            Err(e) => lookup_from(f, old(walk).page_count, old(walk).next, old(walk).key@, old(walk).fuel as nat) is None
                && (e matches CrustDbError::StorageFormat(m)
                && m@ == walk_error(f, old(walk).page_count, old(walk).next, old(walk).key@, old(walk).fuel as nat)),
        },
{
    let kind = page_kind(page)?;
    if kind == PAGE_KIND_LEAF {
        let leaf = parse_leaf_page(page)?;
        Ok(LookupStep::Done(find_in_leaf(&leaf, walk.key.as_slice())))
    } else if kind == PAGE_KIND_INTERNAL {
        let internal = parse_internal_page(page)?;
        let child = child_for_key(&internal, walk.key.as_slice());
        let ghost count = walk.page_count;
        let ghost k = walk.key@;
        if walk.fuel == 1 {
            proof {
                assert forall|f: Seq<u8>| #[trigger] page_at(f, old(walk).next) == page@ implies lookup_from(f, count, child, k, 0)
                    is None && walk_error(f, count, child, k, 0) == "index tree traversal contains a cycle"@ by {}
            }
            return Err(CrustDbError::format("index tree traversal contains a cycle"));
        }
        if child >= walk.page_count {
            let fuel = walk.fuel;
            proof {
                assert forall|f: Seq<u8>| #[trigger] page_at(f, old(walk).next) == page@ implies lookup_from(
                    f,
                    count,
                    child,
                    k,
                    (fuel - 1) as nat,
                ) is None && walk_error(f, count, child, k, (fuel - 1) as nat) == "index page id is out of range: "@ + decimal(
                    child as int,
                ) by {}
            }
            return Err(CrustDbError::StorageFormat(with_number("index page id is out of range: ", child)));
        }
        walk.next = child;
        walk.fuel = walk.fuel - 1;
        Ok(LookupStep::Read(child))
    } else {
        Err(unknown_kind(kind))
    }
}

/// Looks `value` up in the index file of `model_name.field_name` (none where the
/// file is missing), going down the tree from the root to one leaf.
pub fn lookup_index(file: Option<&[u8]>, model_name: &str, field_name: &str, value: &Value) -> (r: Result<Option<RowId>>)
    ensures
        file is None ==> (r matches Err(CrustDbError::StorageFormat(m)) && m@ == missing_index_message(model_name@, field_name@)),
        file is Some ==> (r is Ok == lookup_spec(file.unwrap()@, model_name@, field_name@, enc_key(value@)) is Some),
        file is Some && r is Ok ==> lookup_spec(file.unwrap()@, model_name@, field_name@, enc_key(value@)) == Some(r.unwrap()),
        r is Err ==> r matches Err(CrustDbError::StorageFormat(_)),
        file is Some ==> (r matches Err(CrustDbError::StorageFormat(m)) ==> m@ == lookup_error(file.unwrap()@, model_name@, field_name@, enc_key(value@))),
{
    let bytes = match file {
        Some(b) => b,
        None => {
            return Err(missing_index(model_name, field_name));
        },
    };
    let len = bytes.len() as u64;
    let header = if bytes.len() < PAGE_SIZE { bytes } else { vstd::slice::slice_subrange(bytes, 0, PAGE_SIZE) };
    let ghost k = enc_key(value@);
    let (mut walk, first) = start_lookup(header, len, model_name, field_name, value)?;
    proof {
        if bytes@.len() >= PAGE_SIZE {
            assert(header@ =~= bytes@.take(PAGE_SIZE as int));
        }
    }
    let mut id = match first {
        LookupStep::Done(found) => {
            return Ok(found);
        },
        LookupStep::Read(id) => id,
    };
    loop
        invariant
            file == Some(bytes),
            k == enc_key(value@),
            id == walk.next && walk.next < walk.page_count && walk.fuel > 0 && walk.key@ == k,
            bytes@.len() == PAGE_SIZE * (walk.page_count + 1),
            lookup_spec(bytes@, model_name@, field_name@, k) == lookup_from(bytes@, walk.page_count, walk.next, k, walk.fuel as nat),
            lookup_error(bytes@, model_name@, field_name@, k) == walk_error(bytes@, walk.page_count, walk.next, k, walk.fuel as nat),
        decreases walk.fuel,
    {
        let page = read_page(bytes, walk.page_count, id)?;
        match lookup_step(&mut walk, page)? {
            LookupStep::Done(found) => {
                return Ok(found);
            },
            LookupStep::Read(next) => {
                id = next;
            },
        }
    }
}

/// The leaf reached from the root by first children.
fn leftmost_leaf_page_id(file: &[u8], header: &Header) -> (r: Result<u64>)
    requires
        file@.len() == PAGE_SIZE * (header.page_count + 1),
    ensures
        r is Ok == leftmost_from(file@, header.page_count, header.root_page_id, header.page_count as nat) is Some,
        r is Ok ==> leftmost_from(file@, header.page_count, header.root_page_id, header.page_count as nat) == Some(r.unwrap()),
        r is Err ==> r matches Err(CrustDbError::StorageFormat(_)),
        r matches Err(CrustDbError::StorageFormat(m)) ==> m@ == leftmost_error(file@, header.page_count, header.root_page_id, header.page_count as nat),
{
    let ghost count = header.page_count;
    let mut page_id = header.root_page_id;
    let mut depth: u64 = 0;
    loop
        invariant
            file@.len() == PAGE_SIZE * (header.page_count + 1),
            count == header.page_count,
            depth <= count,
            leftmost_from(file@, count, header.root_page_id, count as nat) == leftmost_from(file@, count, page_id, (count - depth) as nat),
            leftmost_error(file@, count, header.root_page_id, count as nat) == leftmost_error(file@, count, page_id, (count - depth) as nat),
        decreases count - depth,
    {
        if depth >= header.page_count {
            return Err(CrustDbError::format("index leftmost traversal contains a cycle"));
        }
        depth = depth + 1;
        let page = read_page(file, header.page_count, page_id)?;
        let kind = page_kind(page)?;
        if kind == PAGE_KIND_LEAF {
            return Ok(page_id);
        } else if kind == PAGE_KIND_INTERNAL {
            let internal = parse_internal_page(page)?;
            page_id = internal.first_child;
        } else {
            return Err(unknown_kind(kind));
        }
    }
}

proof fn lemma_sorted_prefix(a: Seq<EntryModel>, b: Seq<EntryModel>)
    requires
        strictly_sorted(a + b),
    ensures
        strictly_sorted(a),
{
    assert forall|i: int, j: int| 0 <= i < j < a.len() implies bytes_lt(a[i].0, a[j].0) by {
        assert((a + b)[i] == a[i] && (a + b)[j] == a[j]);
    }
}

proof fn lemma_decode_prefix(a: Seq<EntryModel>, b: Seq<EntryModel>)
    requires
        all_decode(a + b),
    ensures
        all_decode(a),
{
    assert forall|i: int| 0 <= i < a.len() implies (#[trigger] dec_key(a[i].0)) is Some by {
        assert((a + b)[i] == a[i]);
    }
}

/// Appends a leaf's entries with their decoded values, checking that each key is
/// strictly after the one before it.
fn append_leaf_entries(
    entries: &mut Vec<(Value, RowId)>,
    previous_key: &mut Option<Vec<u8>>,
    leaf: &LeafPage,
    Ghost(acc): Ghost<Seq<EntryModel>>,
) -> (r: Result<()>)
    requires
        strictly_sorted(acc),
        all_decode(acc),
        value_rows(old(entries)@) == decoded(acc),
        (*old(previous_key)) is Some <==> acc.len() > 0,
        (*old(previous_key)) is Some ==> (*old(previous_key)).unwrap()@ == acc.last().0,
    ensures
        r is Ok ==> strictly_sorted(acc + entries_view(leaf.entries@)) && all_decode(acc + entries_view(leaf.entries@))
            && value_rows(final(entries)@) == decoded(acc + entries_view(leaf.entries@))
            && ((*final(previous_key)) is Some <==> (acc + entries_view(leaf.entries@)).len() > 0)
            && ((*final(previous_key)) is Some ==> (*final(previous_key)).unwrap()@ == (acc + entries_view(leaf.entries@)).last().0),
        r is Err ==> !(strictly_sorted(acc + entries_view(leaf.entries@)) && all_decode(acc + entries_view(leaf.entries@))),
        r is Err ==> r matches Err(CrustDbError::StorageFormat(_)),
        r is Ok ==> entries_error(entries_view(leaf.entries@), if acc.len() > 0 { Some(acc.last().0) } else { None }) is None,
        r matches Err(CrustDbError::StorageFormat(m)) ==> entries_error(entries_view(leaf.entries@),
            if acc.len() > 0 { Some(acc.last().0) } else { None }) == Some(m@),
{
    let ghost es = entries_view(leaf.entries@);
    let mut j: usize = 0;
    assert(acc + es.take(0) =~= acc);
    assert(es.skip(0) =~= es);
    while j < leaf.entries.len()
        invariant
            es == entries_view(leaf.entries@),
            j <= es.len(),
            strictly_sorted(acc + es.take(j as int)),
            all_decode(acc + es.take(j as int)),
            value_rows(entries@) == decoded(acc + es.take(j as int)),
            (*previous_key) is Some <==> (acc + es.take(j as int)).len() > 0,
            (*previous_key) is Some ==> (*previous_key).unwrap()@ == (acc + es.take(j as int)).last().0,
            entries_error(es, if acc.len() > 0 { Some(acc.last().0) } else { None }) == entries_error(es.skip(j as int),
                if (acc + es.take(j as int)).len() > 0 { Some((acc + es.take(j as int)).last().0) } else { None }),
        decreases es.len() - j,
    {
        let ghost done = acc + es.take(j as int);
        let ghost next = done.push(es[j as int]);
        assert(next =~= acc + es.take(j + 1));
        assert(es.skip(j as int)[0] == es[j as int]);
        assert(es.skip(j as int).drop_first() =~= es.skip(j + 1));
        let entry = &leaf.entries[j];
        let sorted_ok = match &*previous_key {
            Some(prev) => match compare_bytes(prev.as_slice(), entry.key.as_slice()) {
                Order::Less => true,
                _ => false,
            },
            None => true,
        };
        if !sorted_ok {
            proof {
                assert(next[done.len() - 1] == done.last());
                assert(next[done.len() as int] == es[j as int]);
                if strictly_sorted(acc + es) {
                    assert(acc + es =~= next + es.skip(j + 1));
                    lemma_sorted_prefix(next, es.skip(j + 1));
                }
            }
            return Err(CrustDbError::format("index keys are not strictly sorted"));
        }
        *previous_key = Some(copy_bytes(entry.key.as_slice()));
        let value = match decode_key(entry.key.as_slice()) {
            Ok(v) => v,
            Err(e) => {
                proof {
                    assert(next[done.len() as int] == es[j as int]);
                    assert(dec_key(next[done.len() as int].0) is None);
                    if all_decode(acc + es) {
                        assert(acc + es =~= next + es.skip(j + 1));
                        lemma_decode_prefix(next, es.skip(j + 1));
                    }
                }
                return Err(e);
            },
        };
        let ghost old_entries = entries@;
        let ghost old_rows = value_rows(entries@);
        assert(old_rows.len() == old_entries.len());
        assert(decoded(done).len() == done.len());
        assert(old_rows.len() == done.len());
        entries.push((value, entry.row_id));
        proof {
            assert(entries@ == old_entries.push((value, entry.row_id)));
            assert(value_rows(entries@).len() == next.len());
            assert forall|i: int| 0 <= i < next.len() implies value_rows(entries@)[i] == decoded(next)[i] by {
                if i < done.len() {
                    assert(entries@[i] == old_entries[i]);
                    assert(value_rows(entries@)[i] == old_rows[i]);
                    assert(next[i] == done[i]);
                    assert(decoded(done)[i] == decoded(next)[i]);
                }
            }
            assert forall|a: int, b: int| 0 <= a < b < next.len() implies bytes_lt(next[a].0, next[b].0) by {
                if b == next.len() - 1 && a < b - 1 {
                    lemma_bytes_lt_transitive(next[a].0, next[b - 1].0, next[b].0);
                }
            }
            assert forall|i: int| 0 <= i < next.len() implies (#[trigger] dec_key(next[i].0)) is Some by {
                if i < done.len() {
                    assert(next[i] == done[i]);
                }
            }
            assert(value_rows(entries@) =~= decoded(next));
        }
        j = j + 1;
    }
    assert(es.take(j as int) =~= es);
    assert(es.skip(j as int) =~= Seq::<EntryModel>::empty());
    Ok(())
}

/// Reads all entries of the index file of `model_name.field_name` (none where the
/// file is missing): down to the leftmost leaf, then along the leaf chain.
pub fn load_index(file: Option<&[u8]>, model_name: &str, field_name: &str) -> (r: Result<Vec<(Value, RowId)>>)
    ensures
        file is None ==> (r matches Err(CrustDbError::StorageFormat(m)) && m@ == missing_index_message(model_name@, field_name@)),
        file is Some ==> (r is Ok == load_spec(file.unwrap()@, model_name@, field_name@) is Some),
        file is Some && r is Ok ==> load_spec(file.unwrap()@, model_name@, field_name@) == Some(value_rows(r.unwrap()@)),
        r is Err ==> r matches Err(CrustDbError::StorageFormat(_)),
        file is Some ==> (r matches Err(CrustDbError::StorageFormat(m)) ==> m@ == load_error(file.unwrap()@, model_name@, field_name@)),
{
    let bytes = match file {
        Some(b) => b,
        None => {
            return Err(missing_index(model_name, field_name));
        },
    };
    let header = read_header(bytes, model_name, field_name)?;
    let first = leftmost_leaf_page_id(bytes, &header)?;
    if header.entry_count > usize::MAX as u64 {
        return Err(CrustDbError::format("index entry count is too large for this platform"));
    }
    let ghost count = header.page_count;
    let ghost n = header.entry_count;
    let ghost b = bytes@;
    let mut entries: Vec<(Value, RowId)> = Vec::new();
    let mut previous_key: Option<Vec<u8>> = None;
    let ghost mut acc: Seq<EntryModel> = Seq::empty();
    let mut page_id = first;
    let mut visited: u64 = 0;
    assert(acc + Seq::<EntryModel>::empty() =~= acc);
    assert(value_rows(entries@) =~= decoded(acc));
    loop
        invariant
            b == bytes@,
            file == Some(bytes),
            b.len() == PAGE_SIZE * (header.page_count + 1),
            count == header.page_count,
            n == header.entry_count,
            n <= usize::MAX,
            header_spec(b, model_name@, field_name@) == Some((header.root_page_id, count, n)),
            leftmost_from(b, count, header.root_page_id, count as nat) == Some(first),
            visited <= count,
            leaf_chain(b, count, first, count as nat) == (match leaf_chain(b, count, page_id, (count - visited) as nat) {
                Some(rest) => Some(acc + rest),
                None => None,
            }),
            strictly_sorted(acc),
            all_decode(acc),
            value_rows(entries@) == decoded(acc),
            previous_key is Some <==> acc.len() > 0,
            previous_key is Some ==> previous_key.unwrap()@ == acc.last().0,
            load_error(b, model_name@, field_name@) == chain_error(b, count, page_id, (count - visited) as nat,
                if acc.len() > 0 { Some(acc.last().0) } else { None }, acc.len(), n),
        decreases count - visited,
    {
        if visited >= header.page_count {
            return Err(CrustDbError::format("index leaf chain contains a cycle"));
        }
        let ghost fuel = (count - visited) as nat;
        visited = visited + 1;
        let page = read_page(bytes, header.page_count, page_id)?;
        let leaf = parse_leaf_page(page)?;
        let ghost es = entries_view(leaf.entries@);
        let appended = append_leaf_entries(&mut entries, &mut previous_key, &leaf, Ghost(acc));
        if appended.is_err() {
            proof {
                match leaf_chain(b, count, page_id, fuel) {
                    Some(rest) => {
                        let tail = rest.skip(es.len() as int);
                        assert(rest =~= es + tail);
                        assert(acc + rest =~= (acc + es) + tail);
                        if strictly_sorted(acc + rest) {
                            lemma_sorted_prefix(acc + es, tail);
                        }
                        if all_decode(acc + rest) {
                            lemma_decode_prefix(acc + es, tail);
                        }
                    },
                    None => {},
                }
            }
            return Err(appended.unwrap_err());
        }
        let ghost acc0 = acc;
        proof {
            acc = acc + es;
        }
        match leaf.next_leaf {
            None => {
                assert(leaf_chain(b, count, first, count as nat) == Some(acc));
                assert(value_rows(entries@).len() == entries@.len());
                assert(entries@.len() == acc.len());
                if entries.len() as u64 != header.entry_count {
                    let a = with_number("index entry count mismatch: expected ", header.entry_count);
                    let c = join(a.as_str(), ", got ");
                    let t = u64_text(entries.len() as u64);
                    return Err(CrustDbError::StorageFormat(join(c.as_str(), t.as_str())));
                }
                return Ok(entries);
            },
            Some(next) => {
                proof {
                    match leaf_chain(b, count, next, (fuel - 1) as nat) {
                        Some(rest) => {
                            assert(acc0 + (es + rest) =~= acc + rest);
                        },
                        None => {},
                    }
                }
                page_id = next;
            },
        }
    }
}

// ---------------------------------------------------------------------------
// Building an index file.
// ---------------------------------------------------------------------------

/// An entry with its value replaced by its index key.
pub open spec fn keyed(e: (ValueModel, RowId)) -> EntryModel {
    (enc_key(e.0), e.1)
}

/// No two entries have the same value.
pub open spec fn values_distinct(entries: Seq<(ValueModel, RowId)>) -> bool {
    forall|i: int, j: int| 0 <= i < j < entries.len() ==> (#[trigger] entries[i]).0 != (#[trigger] entries[j]).0
}

/// `es` holds the entries with their values replaced by index keys, strictly
/// sorted by key.
pub open spec fn sorted_keys_of(es: Seq<EntryModel>, entries: Seq<(ValueModel, RowId)>) -> bool {
    &&& strictly_sorted(es)
    &&& es.len() == entries.len()
    &&& forall|x: EntryModel| es.contains(x) <==> entries.map_values(|e: (ValueModel, RowId)| keyed(e)).contains(x)
}

proof fn lemma_insert_contains<A>(s: Seq<A>, pos: int, x: A, y: A)
    requires
        0 <= pos <= s.len(),
    ensures
        s.insert(pos, x).contains(y) <==> (s.contains(y) || y == x),
{
    let t = s.insert(pos, x);
    if s.contains(y) {
        let i = choose|i: int| 0 <= i < s.len() && s[i] == y;
        if i < pos {
            assert(t[i] == y);
        } else {
            assert(t[i + 1] == y);
        }
    }
    if y == x {
        assert(t[pos] == x);
    }
    if t.contains(y) {
        let i = choose|i: int| 0 <= i < t.len() && t[i] == y;
        if i < pos {
            assert(s[i] == y);
        } else if i > pos {
            assert(s[i - 1] == y);
        }
    }
}

/// Whether key `a` comes strictly before key `b`.
fn key_before(a: &[u8], b: &[u8]) -> (r: bool)
    ensures
        r == bytes_lt(a@, b@),
{
    match compare_bytes(a, b) {
        Order::Less => true,
        _ => false,
    }
}

/// The entries with encoded keys, sorted by key; refused where two entries have
/// the same value.
fn sorted_encoded_entries(entries: &[(Value, RowId)]) -> (r: Result<Vec<EncodedEntry>>)
    ensures
        r is Ok == values_distinct(value_rows(entries@)),
        r is Ok ==> sorted_keys_of(entries_view(r.unwrap()@), value_rows(entries@)),
        r is Err ==> r matches Err(CrustDbError::StorageFormat(_)),
        r matches Err(CrustDbError::StorageFormat(m)) ==> m@ == "duplicate key in index entries"@,
{
    let ghost all = value_rows(entries@);
    let ghost mapped = all.map_values(|e: (ValueModel, RowId)| keyed(e));
    let mut out: Vec<EncodedEntry> = Vec::new();
    let mut i: usize = 0;
    while i < entries.len()
        invariant
            all == value_rows(entries@),
            mapped == all.map_values(|e: (ValueModel, RowId)| keyed(e)),
            i <= entries@.len(),
            out@.len() == i,
            strictly_sorted(entries_view(out@)),
            values_distinct(all.take(i as int)),
            forall|x: EntryModel| entries_view(out@).contains(x) <==> mapped.take(i as int).contains(x),
        decreases entries@.len() - i,
    {
        let ghost ov = entries_view(out@);
        let key = encode_key(&entries[i].0);
        let ghost e = keyed(all[i as int]);
        assert(key@ == e.0);
        let mut pos: usize = 0;
        while pos < out.len() && key_before(out[pos].key.as_slice(), key.as_slice())
            invariant
                ov == entries_view(out@),
                pos <= out@.len(),
                forall|j: int| 0 <= j < pos ==> bytes_lt(#[trigger] ov[j].0, key@),
            decreases out@.len() - pos,
        {
            pos = pos + 1;
        }
        if pos < out.len() {
            match compare_bytes(out[pos].key.as_slice(), key.as_slice()) {
                Order::Equal => {
                    proof {
                        assert(ov.contains(ov[pos as int]));
                        assert(mapped.take(i as int).contains(ov[pos as int]));
                        let j = choose|j: int| 0 <= j < i && mapped.take(i as int)[j] == ov[pos as int];
                        assert(mapped[j] == keyed(all[j]));
                        lemma_key_injective(all[j].0, all[i as int].0);
                        assert(all[j].0 == all[i as int].0);
                    }
                    return Err(CrustDbError::format("duplicate key in index entries"));
                },
                _ => {},
            }
        }
        let ghost x: EntryModel = (key@, entries@[i as int].1);
        assert(x == e);
        proof {
            if pos < ov.len() {
                lemma_bytes_lt_total(ov[pos as int].0, key@);
                assert(bytes_lt(key@, ov[pos as int].0));
            }
        }
        out.insert(pos, EncodedEntry { key, row_id: entries[i].1 });
        proof {
            let nv = entries_view(out@);
            assert(nv =~= ov.insert(pos as int, x));
            assert forall|a: int, b: int| 0 <= a < b < nv.len() implies bytes_lt(nv[a].0, nv[b].0) by {
                if b < pos {
                } else if b == pos {
                } else if a < pos {
                    assert(nv[b] == ov[b - 1]);
                    if b - 1 > pos {
                        lemma_bytes_lt_transitive(key@, ov[pos as int].0, ov[b - 1].0);
                    }
                    lemma_bytes_lt_transitive(ov[a].0, key@, ov[b - 1].0);
                } else if a == pos {
                    assert(nv[b] == ov[b - 1]);
                    if b - 1 > pos {
                        lemma_bytes_lt_transitive(key@, ov[pos as int].0, ov[b - 1].0);
                    }
                } else {
                    assert(nv[a] == ov[a - 1] && nv[b] == ov[b - 1]);
                }
            }
            assert(mapped.take(i + 1) =~= mapped.take(i as int).push(e));
            assert forall|y: EntryModel| nv.contains(y) <==> mapped.take(i + 1).contains(y) by {
                lemma_insert_contains(ov, pos as int, x, y);
                let t = mapped.take(i as int);
                if t.push(e).contains(y) {
                    let k = choose|k: int| 0 <= k < t.len() + 1 && t.push(e)[k] == y;
                    if k < t.len() {
                        assert(t[k] == y);
                    }
                }
                if t.contains(y) {
                    let k = choose|k: int| 0 <= k < t.len() && t[k] == y;
                    assert(t.push(e)[k] == y);
                }
                if y == e {
                    assert(t.push(e)[t.len() as int] == y);
                }
            }
            assert forall|a: int, b: int| 0 <= a < b < i + 1 implies (#[trigger] all.take(i + 1)[a]).0 != (#[trigger] all.take(i + 1)[b]).0 by {
                if b == i {
                    if all[a].0 == all[b].0 {
                        assert(mapped.take(i as int)[a] == keyed(all[a]));
                        assert(mapped.take(i as int).contains(keyed(all[a])));
                        assert(ov.contains(keyed(all[a])));
                        let c = choose|c: int| 0 <= c < ov.len() && ov[c] == keyed(all[a]);
                        assert(ov[c].0 == key@);
                        if c < pos {
                            lemma_bytes_lt_irreflexive(key@);
                        } else {
                            if c > pos {
                                lemma_bytes_lt_transitive(key@, ov[pos as int].0, ov[c].0);
                            }
                            lemma_bytes_lt_irreflexive(key@);
                        }
                    }
                } else {
                    assert(all.take(i as int)[a] == all[a] && all.take(i as int)[b] == all[b]);
                }
            }
        }
        i = i + 1;
    }
    proof {
        assert(all.take(i as int) =~= all);
        assert(mapped.take(i as int) =~= mapped);
    }
    Ok(out)
}

pub open spec fn page_views(pages: Seq<Vec<u8>>) -> Seq<Seq<u8>> {
    pages.map_values(|p: Vec<u8>| p@)
}

/// Every key fits a page on its own.
pub open spec fn keys_fit(es: Seq<EntryModel>) -> bool {
    forall|i: int| 0 <= i < es.len() ==> (#[trigger] es[i]).0.len() + 23 <= PAGE_SIZE
}

pub open spec fn leaf_next(g: int, m: int) -> Option<u64> {
    if g + 1 < m { Some((g + 1) as u64) } else { None }
}

proof fn lemma_keyed_list_min_len(es: Seq<EntryModel>)
    ensures
        enc_keyed_list(es).len() >= 10 * es.len(),
    decreases es.len(),
{
    if es.len() > 0 {
        lemma_keyed_list_min_len(es.drop_last());
        lemma_keyed_list_push(es.drop_last(), es.last());
        assert(es.drop_last().push(es.last()) =~= es);
    }
}

proof fn lemma_keys_fit_page(es: Seq<EntryModel>)
    requires
        keys_fit(es),
        13 + enc_keyed_list(es).len() <= PAGE_SIZE,
    ensures
        fits_page(es.len(), es),
{
    lemma_keyed_list_min_len(es);
}

/// The entries from `a` up to `b` fit one page.
pub open spec fn group_fits(es: Seq<EntryModel>, a: int, b: int) -> bool {
    13 + enc_keyed_list(es.subrange(a, b)).len() <= PAGE_SIZE
}

/// The entries from `a` up to `b`, and the one after, do not fit one page.
pub open spec fn group_full(es: Seq<EntryModel>, a: int, b: int) -> bool {
    13 + enc_keyed_list(es.subrange(a, b + 1)).len() > PAGE_SIZE
}

/// `bs` cuts the entries into groups that each fit a page and that each, but the
/// last, would not fit with one more entry.
pub open spec fn greedy_bounds(es: Seq<EntryModel>, bs: Seq<int>) -> bool {
    let m = bs.len() - 1;
    &&& m >= 1
    &&& bs[0] == 0
    &&& bs[m] == es.len()
    &&& forall|a: int, b: int| 0 <= a < b <= m ==> bs[a] < bs[b]
    &&& forall|g: int| #![trigger bs[g]] 0 <= g < m ==> group_fits(es, bs[g], bs[g + 1])
    &&& forall|g: int| #![trigger bs[g]] 0 <= g < m - 1 ==> group_full(es, bs[g], bs[g + 1])
}

pub open spec fn usizes(s: Seq<usize>) -> Seq<int> {
    s.map_values(|x: usize| x as int)
}

/// The groups cut so far by `cs`, all but the one that `cs.last()` starts,
/// fit a page and would not fit with one more entry.
pub open spec fn prefix_greedy(es: Seq<EntryModel>, cs: Seq<int>) -> bool {
    &&& cs.len() >= 1
    &&& cs[0] == 0
    &&& forall|a: int, b: int| 0 <= a < b < cs.len() ==> cs[a] < cs[b]
    &&& forall|g: int| #![trigger cs[g]] 0 <= g < cs.len() - 1 ==> group_fits(es, cs[g], cs[g + 1]) && group_full(es, cs[g], cs[g + 1])
}

proof fn lemma_prefix_greedy_push(es: Seq<EntryModel>, cs: Seq<int>, i: int)
    requires
        prefix_greedy(es, cs),
        cs.last() < i,
        group_fits(es, cs.last(), i),
        group_full(es, cs.last(), i),
    ensures
        prefix_greedy(es, cs.push(i)),
{
    let c2 = cs.push(i);
    assert forall|a: int, b: int| 0 <= a < b < c2.len() implies c2[a] < c2[b] by {
        if b == c2.len() - 1 && a < b - 1 {
            assert(cs[a] < cs[cs.len() - 1]);
        }
    }
    assert forall|g: int| #![trigger c2[g]] 0 <= g < c2.len() - 1 implies group_fits(es, c2[g], c2[g + 1]) && group_full(es, c2[g], c2[g + 1]) by {
        if g < cs.len() - 1 {
            assert(c2[g] == cs[g] && c2[g + 1] == cs[g + 1]);
        }
    }
}

proof fn lemma_prefix_greedy_close(es: Seq<EntryModel>, cs: Seq<int>)
    requires
        prefix_greedy(es, cs),
        cs.last() < es.len(),
        group_fits(es, cs.last(), es.len() as int),
    ensures
        greedy_bounds(es, cs.push(es.len() as int)),
{
    let bs = cs.push(es.len() as int);
    assert forall|a: int, b: int| 0 <= a < b < bs.len() implies bs[a] < bs[b] by {
        if b == bs.len() - 1 && a < b - 1 {
            assert(cs[a] < cs[cs.len() - 1]);
        }
    }
    assert forall|g: int| #![trigger bs[g]] 0 <= g < bs.len() - 1 implies group_fits(es, bs[g], bs[g + 1]) by {
        if g < cs.len() - 1 {
            assert(bs[g] == cs[g] && bs[g + 1] == cs[g + 1]);
        }
    }
    assert forall|g: int| #![trigger bs[g]] 0 <= g < bs.len() - 2 implies group_full(es, bs[g], bs[g + 1]) by {
        assert(bs[g] == cs[g] && bs[g + 1] == cs[g + 1]);
    }
}

proof fn lemma_keys_fit_extend(es: Seq<EntryModel>, i: int)
    requires
        0 <= i < es.len(),
        keys_fit(es.take(i)),
        es[i].0.len() + 23 <= PAGE_SIZE,
    ensures
        keys_fit(es.take(i + 1)),
{
    assert forall|j: int| 0 <= j < i + 1 implies (#[trigger] es.take(i + 1)[j]).0.len() + 23 <= PAGE_SIZE by {
        if j < i {
            assert(es.take(i + 1)[j] == es.take(i)[j]);
        }
    }
}

/// One entry more: either it starts a new leaf, closing the current one, which
/// it would overflow, or it joins the current leaf.
proof fn lemma_leaf_step(es: Seq<EntryModel>, cs: Seq<int>, s: int, i: int, len: int)
    requires
        prefix_greedy(es, cs),
        cs.last() == s,
        0 <= s <= i < es.len(),
        i > 0 ==> s < i,
        len == 13 + enc_keyed_list(es.subrange(s, i)).len(),
        len <= PAGE_SIZE,
        es[i].0.len() + 23 <= PAGE_SIZE,
    ensures
        s < i && len + 10 + es[i].0.len() > PAGE_SIZE ==> prefix_greedy(es, cs.push(i))
            && 13 + 10 + es[i].0.len() == 13 + enc_keyed_list(es.subrange(i, i + 1)).len(),
        !(s < i && len + 10 + es[i].0.len() > PAGE_SIZE) ==> len + 10 + es[i].0.len() == 13
            + enc_keyed_list(es.subrange(s, i + 1)).len() && len + 10 + es[i].0.len() <= PAGE_SIZE,
{
    lemma_keyed_list_push(es.subrange(s, i), es[i]);
    assert(es.subrange(s, i + 1) =~= es.subrange(s, i).push(es[i]));
    if s < i && len + 10 + es[i].0.len() > PAGE_SIZE {
        lemma_prefix_greedy_push(es, cs, i);
        assert(es.subrange(i, i) =~= Seq::<EntryModel>::empty());
        lemma_keyed_list_push(es.subrange(i, i), es[i]);
        assert(es.subrange(i, i + 1) =~= es.subrange(i, i).push(es[i]));
    } else if s == i {
        assert(es.subrange(i, i) =~= Seq::<EntryModel>::empty());
    }
}

/// Where each leaf starts: entries are taken in order while they fit.
#[verifier::rlimit(50)]
#[verifier::spinoff_prover]
fn leaf_starts(entries: &[EncodedEntry]) -> (r: Result<Vec<usize>>)
    requires
        entries@.len() > 0,
    ensures
        r is Ok == keys_fit(entries_view(entries@)),
        r is Ok ==> greedy_bounds(entries_view(entries@), usizes(r.unwrap()@).push(entries@.len() as int)),
        r is Err ==> r matches Err(CrustDbError::StorageFormat(_)),
        r matches Err(CrustDbError::StorageFormat(m)) ==> unfit_error(entries_view(entries@), m@),
{
    let ghost es = entries_view(entries@);
    let n = entries.len();
    let mut starts: Vec<usize> = Vec::new();
    let mut current_start: usize = 0;
    let mut current_len: usize = 13;
    let mut i: usize = 0;
    let ghost mut cs: Seq<int> = seq![0int];
    assert(es.subrange(0, 0) =~= Seq::<EntryModel>::empty());
    assert(es.take(0) =~= Seq::<EntryModel>::empty());
    assert(usizes(starts@).push(0) =~= cs);
    while i < n
        invariant
            es == entries_view(entries@),
            n == es.len(),
            n > 0,
            i <= n,
            current_start <= i,
            (i > 0 ==> current_start < i),
            current_len == 13 + enc_keyed_list(es.subrange(current_start as int, i as int)).len(),
            current_len <= PAGE_SIZE,
            keys_fit(es.take(i as int)),
            cs == usizes(starts@).push(current_start as int),
            prefix_greedy(es, cs),
        decreases n - i,
    {
        let key_len = entries[i].key.len();
        proof {
            assert forall|j: int| 0 <= j < i implies key_fits(#[trigger] es[j].0) by {
                assert(es.take(i as int)[j] == es[j]);
            }
        }
        if key_len > 0xffff {
            assert(es[i as int].0.len() + 23 > PAGE_SIZE);
            assert(!keys_fit(es));
            assert(first_unfit(es, i as int));
            return Err(CrustDbError::StorageFormat(crate::error::join("index key length", " is too large for this storage format")));
        }
        let entry_len = 2 + key_len + 8;
        if 13 + entry_len > PAGE_SIZE {
            assert(es[i as int].0.len() + 23 > PAGE_SIZE);
            assert(!keys_fit(es));
            assert(first_unfit(es, i as int));
            return Err(CrustDbError::format("index key is too large for a leaf page"));
        }
        proof {
            lemma_keys_fit_extend(es, i as int);
            lemma_leaf_step(es, cs, current_start as int, i as int, current_len as int);
        }
        if i > current_start && current_len + entry_len > PAGE_SIZE {
            proof {
                cs = cs.push(i as int);
            }
            starts.push(current_start);
            current_start = i;
            current_len = 13;
            assert(usizes(starts@).push(current_start as int) =~= cs);
        }
        current_len = current_len + entry_len;
        i = i + 1;
    }
    starts.push(current_start);
    proof {
        assert(es.take(n as int) =~= es);
        assert(usizes(starts@) =~= cs);
        lemma_prefix_greedy_close(es, cs);
    }
    Ok(starts)
}

/// The leaf level over sorted entries: `m` leaves chained in order, leaf `g`
/// holding the entries from `bs[g]` up to `bs[g + 1]`; with a reference to each.
#[verifier::opaque]
pub open spec fn leaf_level_ok(es: Seq<EntryModel>, pv: Seq<Seq<u8>>, refs: Seq<PageRef>, bs: Seq<int>) -> bool {
    let m = pv.len() as int;
    &&& refs.len() == m
    &&& bs.len() == m + 1
    &&& (if es.len() == 0 { m == 1 && bs == seq![0int, 0int] } else { greedy_bounds(es, bs) })
    &&& forall|g: int| #![trigger pv[g]] 0 <= g < m ==> pv[g] == leaf_page(es.subrange(bs[g], bs[g + 1]), leaf_next(g, m))
        && fits_page((bs[g + 1] - bs[g]) as nat, es.subrange(bs[g], bs[g + 1]))
    &&& forall|g: int| 0 <= g < m ==> (#[trigger] refs[g]).page_id == g && (if es.len() > 0 {
        refs[g].first_key is Some && refs[g].first_key.unwrap()@ == es[bs[g]].0
    } else {
        refs[g].first_key is None
    })
}

/// Encodes the leaves that `starts` marks out.
#[verifier::spinoff_prover]
fn encode_leaves(entries: &[EncodedEntry], starts: &Vec<usize>) -> (r: (Vec<Vec<u8>>, Vec<PageRef>))
    requires
        entries@.len() > 0,
        keys_fit(entries_view(entries@)),
        greedy_bounds(entries_view(entries@), usizes(starts@).push(entries@.len() as int)),
    ensures
        leaf_level_ok(entries_view(entries@), page_views(r.0@), r.1@, usizes(starts@).push(entries@.len() as int)),
{
    reveal(leaf_level_ok);
    let ghost es = entries_view(entries@);
    let n = entries.len();
    let ghost bs = usizes(starts@).push(n as int);
    let m = starts.len();
    let mut pages: Vec<Vec<u8>> = Vec::new();
    let mut refs: Vec<PageRef> = Vec::new();
    let mut g: usize = 0;
    while g < m
        invariant
            es == entries_view(entries@),
            n == es.len(),
            n > 0,
            m == starts@.len(),
            bs == usizes(starts@).push(n as int),
            greedy_bounds(es, bs),
            keys_fit(es),
            g <= m,
            pages@.len() == g,
            refs@.len() == g,
            forall|h: int| #![trigger page_views(pages@)[h]] 0 <= h < g ==> page_views(pages@)[h] == leaf_page(
                es.subrange(bs[h], bs[h + 1]),
                leaf_next(h, m as int),
            ) && fits_page((bs[h + 1] - bs[h]) as nat, es.subrange(bs[h], bs[h + 1])),
            forall|h: int| 0 <= h < g ==> (#[trigger] refs@[h]).page_id == h && refs@[h].first_key is Some
                && refs@[h].first_key.unwrap()@ == es[bs[h]].0,
        decreases m - g,
    {
        let s = starts[g];
        let e = if g + 1 < m { starts[g + 1] } else { n };
        assert(s == bs[g as int] && e == bs[g + 1]);
        assert(bs[g as int] < bs[g + 1]);
        let group = vstd::slice::slice_subrange(entries, s, e);
        let ghost part = es.subrange(s as int, e as int);
        assert(entries_view(group@) =~= part);
        proof {
            assert(group_fits(es, bs[g as int], bs[g + 1]));
            assert(keys_fit(part));
            lemma_keys_fit_page(part);
        }
        let next_leaf = if g + 1 < m { Some((g + 1) as u64) } else { None };
        let page = match encode_leaf_page(group, next_leaf) {
            Ok(p) => p,
            Err(_) => {
                assert(false);
                Vec::new()
            },
        };
        let ghost old_pages = page_views(pages@);
        pages.push(page);
        refs.push(PageRef { page_id: g as u64, first_key: Some(copy_bytes(entries[s].key.as_slice())) });
        proof {
            assert(page_views(pages@) =~= old_pages.push(page@));
        }
        g = g + 1;
    }
    (pages, refs)
}

/// The leaf pages over sorted entries, each filled in order until the next
/// entry would not fit, chained first to last; with a reference to each.
fn build_leaf_level(entries: &[EncodedEntry]) -> (r: Result<(Vec<Vec<u8>>, Vec<PageRef>, Ghost<Seq<int>>)>)
    requires
        strictly_sorted(entries_view(entries@)),
    ensures
        r is Ok == keys_fit(entries_view(entries@)),
        r is Ok ==> leaf_level_ok(entries_view(entries@), page_views(r.unwrap().0@), r.unwrap().1@, r.unwrap().2@),
        r is Err ==> r matches Err(CrustDbError::StorageFormat(_)),
        r matches Err(CrustDbError::StorageFormat(m)) ==> unfit_error(entries_view(entries@), m@),
{
    let ghost es = entries_view(entries@);
    if entries.len() == 0 {
        let page = encode_leaf_page(entries, None)?;
        let mut pages: Vec<Vec<u8>> = Vec::new();
        pages.push(page);
        let mut refs: Vec<PageRef> = Vec::new();
        refs.push(PageRef { page_id: 0, first_key: None });
        let ghost b0: Seq<int> = seq![0int, 0int];
        proof {
            reveal(leaf_level_ok);
            assert(es.subrange(0, 0) =~= es);
            assert(page_views(pages@) =~= seq![leaf_page(es, None)]);
        }
        let bounds: Ghost<Seq<int>> = Ghost(b0);
        return Ok((pages, refs, bounds));
    }
    let starts = leaf_starts(entries)?;
    let (pages, refs) = encode_leaves(entries, &starts);
    let ghost bs = usizes(starts@).push(entries@.len() as int);
    let bounds: Ghost<Seq<int>> = Ghost(bs);
    Ok((pages, refs, bounds))
}

// ---------------------------------------------------------------------------
// Internal levels.
// ---------------------------------------------------------------------------

/// Each child's separator, the first child's included.
pub open spec fn ref_seps(children: Seq<PageRef>) -> Seq<EntryModel> {
    children.map_values(|c: PageRef| ref_separator(c))
}

/// `bs` cuts the children into groups whose separators (all but the first
/// child's) fit a page, each but the last full: one more child would not fit.
pub open spec fn sep_greedy_bounds(xs: Seq<EntryModel>, bs: Seq<int>) -> bool {
    let m = bs.len() - 1;
    &&& m >= 1
    &&& bs[0] == 0
    &&& bs[m] == xs.len()
    &&& forall|a: int, b: int| 0 <= a < b <= m ==> bs[a] < bs[b]
    &&& forall|g: int| #![trigger bs[g]] 0 <= g < m ==> group_fits(xs, bs[g] + 1, bs[g + 1])
    &&& forall|g: int| #![trigger bs[g]] 0 <= g < m - 1 ==> group_full(xs, bs[g] + 1, bs[g + 1])
}

pub open spec fn sep_prefix_greedy(xs: Seq<EntryModel>, cs: Seq<int>) -> bool {
    &&& cs.len() >= 1
    &&& cs[0] == 0
    &&& forall|a: int, b: int| 0 <= a < b < cs.len() ==> cs[a] < cs[b]
    &&& forall|g: int| #![trigger cs[g]] 0 <= g < cs.len() - 1 ==> group_fits(xs, cs[g] + 1, cs[g + 1]) && group_full(xs, cs[g] + 1, cs[g + 1])
}

proof fn lemma_sep_prefix_push(xs: Seq<EntryModel>, cs: Seq<int>, i: int)
    requires
        sep_prefix_greedy(xs, cs),
        cs.last() < i,
        group_fits(xs, cs.last() + 1, i),
        group_full(xs, cs.last() + 1, i),
    ensures
        sep_prefix_greedy(xs, cs.push(i)),
{
    let c2 = cs.push(i);
    assert forall|a: int, b: int| 0 <= a < b < c2.len() implies c2[a] < c2[b] by {
        if b == c2.len() - 1 && a < b - 1 {
            assert(cs[a] < cs[cs.len() - 1]);
        }
    }
    assert forall|g: int| #![trigger c2[g]] 0 <= g < c2.len() - 1 implies group_fits(xs, c2[g] + 1, c2[g + 1])
        && group_full(xs, c2[g] + 1, c2[g + 1]) by {
        if g < cs.len() - 1 {
            assert(c2[g] == cs[g] && c2[g + 1] == cs[g + 1]);
        }
    }
}

proof fn lemma_sep_prefix_close(xs: Seq<EntryModel>, cs: Seq<int>)
    requires
        sep_prefix_greedy(xs, cs),
        cs.last() < xs.len(),
        group_fits(xs, cs.last() + 1, xs.len() as int),
    ensures
        sep_greedy_bounds(xs, cs.push(xs.len() as int)),
{
    let bs = cs.push(xs.len() as int);
    assert forall|a: int, b: int| 0 <= a < b < bs.len() implies bs[a] < bs[b] by {
        if b == bs.len() - 1 && a < b - 1 {
            assert(cs[a] < cs[cs.len() - 1]);
        }
    }
    assert forall|g: int| #![trigger bs[g]] 0 <= g < bs.len() - 1 implies group_fits(xs, bs[g] + 1, bs[g + 1]) by {
        if g < cs.len() - 1 {
            assert(bs[g] == cs[g] && bs[g + 1] == cs[g + 1]);
        }
    }
    assert forall|g: int| #![trigger bs[g]] 0 <= g < bs.len() - 2 implies group_full(xs, bs[g] + 1, bs[g + 1]) by {
        assert(bs[g] == cs[g] && bs[g + 1] == cs[g + 1]);
    }
}

/// Where each internal page of the next level starts among the children: the
/// children are taken in order while their separators fit. Every group but the
/// last takes at least two children, so the level shrinks.
#[verifier::rlimit(40)]
#[verifier::spinoff_prover]
fn internal_starts(children: &[PageRef]) -> (r: Vec<usize>)
    requires
        children@.len() >= 2,
        forall|j: int| 0 <= j < children@.len() ==> (#[trigger] children@[j]).first_key is Some
            && children@[j].first_key.unwrap()@.len() + 23 <= PAGE_SIZE,
    ensures
        sep_greedy_bounds(ref_seps(children@), usizes(r@).push(children@.len() as int)),
        r@.len() < children@.len(),
{
    let ghost xs = ref_seps(children@);
    let k = children.len();
    let mut starts: Vec<usize> = Vec::new();
    let mut current_start: usize = 0;
    let mut current_len: usize = 13;
    let mut j: usize = 1;
    let ghost mut cs: Seq<int> = seq![0int];
    assert(xs.subrange(1, 1) =~= Seq::<EntryModel>::empty());
    assert(usizes(starts@).push(0) =~= cs);
    while j < k
        invariant
            xs == ref_seps(children@),
            k == children@.len(),
            k >= 2,
            forall|i: int| 0 <= i < children@.len() ==> (#[trigger] children@[i]).first_key is Some
                && children@[i].first_key.unwrap()@.len() + 23 <= PAGE_SIZE,
            1 <= j <= k,
            current_start < j,
            current_len == 13 + enc_keyed_list(xs.subrange(current_start + 1, j as int)).len(),
            current_len <= PAGE_SIZE,
            cs == usizes(starts@).push(current_start as int),
            sep_prefix_greedy(xs, cs),
            2 * starts@.len() <= current_start,
        decreases k - j,
    {
        let key_len = match &children[j].first_key {
            Some(key) => key.len(),
            None => 0,
        };
        assert(xs[j as int] == ref_separator(children@[j as int]));
        let child_len = 2 + key_len + 8;
        proof {
            lemma_keyed_list_push(xs.subrange(current_start + 1, j as int), xs[j as int]);
            assert(xs.subrange(current_start + 1, j + 1) =~= xs.subrange(current_start + 1, j as int).push(xs[j as int]));
        }
        if current_len + child_len > PAGE_SIZE {
            proof {
                if j == current_start + 1 {
                    assert(xs.subrange(current_start + 1, j as int) =~= Seq::<EntryModel>::empty());
                }
                lemma_sep_prefix_push(xs, cs, j as int);
                cs = cs.push(j as int);
                assert(xs.subrange(j + 1, j + 1) =~= Seq::<EntryModel>::empty());
            }
            starts.push(current_start);
            current_start = j;
            current_len = 13;
            assert(usizes(starts@).push(current_start as int) =~= cs);
        } else {
            current_len = current_len + child_len;
        }
        j = j + 1;
    }
    starts.push(current_start);
    proof {
        assert(usizes(starts@) =~= cs);
        lemma_sep_prefix_close(xs, cs);
    }
    starts
}

// ---------------------------------------------------------------------------
// The shape of a built tree.
// ---------------------------------------------------------------------------

/// What a built page holds. A leaf holds the entries from `lo` up to `hi` and
/// the id of the next leaf. An internal page holds its first child and its
/// separators; child `j` covers the entries from `bounds[j]` up to `bounds[j + 1]`.
pub struct Shape {
    pub leaf: bool,
    pub next: Option<u64>,
    pub first: u64,
    pub seps: Seq<EntryModel>,
    pub bounds: Seq<int>,
    pub lo: int,
    pub hi: int,
}

/// The child page ids of an internal page.
pub open spec fn children_of(s: Shape) -> Seq<u64> {
    seq![s.first] + s.seps.map_values(|e: EntryModel| e.1)
}

/// The bytes of a page of this shape.
pub open spec fn shape_bytes(es: Seq<EntryModel>, s: Shape) -> Seq<u8> {
    if s.leaf {
        leaf_page(es.subrange(s.lo, s.hi), s.next)
    } else {
        internal_page(s.first, s.seps)
    }
}

/// Page `p` is well built: a leaf fits its page; an internal page fits its page,
/// its children come before it and cover its entries in order, and each
/// separator is the first key of its child.
pub open spec fn shape_ok(es: Seq<EntryModel>, shapes: Seq<Shape>, p: int) -> bool {
    let s = shapes[p];
    &&& 0 <= s.lo <= s.hi <= es.len()
    &&& if s.leaf {
        fits_page((s.hi - s.lo) as nat, es.subrange(s.lo, s.hi)) && s.next != Some(NO_PAGE)
    } else {
        let cs = children_of(s);
        &&& fits_page(cs.len(), s.seps)
        &&& strictly_sorted(s.seps)
        &&& s.bounds.len() == cs.len() + 1
        &&& s.bounds[0] == s.lo
        &&& s.bounds[cs.len() as int] == s.hi
        &&& forall|a: int, b: int| 0 <= a < b <= cs.len() ==> s.bounds[a] < s.bounds[b]
        &&& forall|j: int| #![trigger cs[j]] 0 <= j < cs.len() ==> cs[j] < p && shapes[cs[j] as int].lo == s.bounds[j]
            && shapes[cs[j] as int].hi == s.bounds[j + 1]
        &&& forall|j: int| #![trigger s.seps[j]] 0 <= j < s.seps.len() ==> s.seps[j].0 == es[s.bounds[j + 1]].0
    }
}

/// The pages are well built over the sorted entries: the first `m` pages are
/// the leaves, chained in order and covering the entries in order; the rest are
/// internal pages.
#[verifier::opaque]
pub open spec fn pages_ok(es: Seq<EntryModel>, pv: Seq<Seq<u8>>, shapes: Seq<Shape>, m: int) -> bool {
    &&& pv.len() == shapes.len()
    &&& 1 <= m <= shapes.len()
    &&& forall|p: int| #![trigger shapes[p]] 0 <= p < shapes.len() ==> pv[p] == shape_bytes(es, shapes[p]) && shape_ok(es, shapes, p)
    &&& forall|p: int| #![trigger shapes[p]] 0 <= p < shapes.len() ==> (shapes[p].leaf <==> p < m)
    &&& forall|p: int| #![trigger shapes[p]] 0 <= p < m ==> shapes[p].next == leaf_next(p, m)
    &&& shapes[0].lo == 0
    &&& shapes[m - 1].hi == es.len()
    &&& forall|p: int| #![trigger shapes[p]] 0 <= p < m - 1 ==> shapes[p].hi == shapes[p + 1].lo
    &&& es.len() > 0 ==> forall|p: int, q: int| 0 <= p < q < m ==> shapes[p].lo < shapes[q].lo
    &&& es.len() == 0 ==> m == 1 && shapes.len() == 1
}

/// The leaves, the first `m` pages, cut the entries greedily: each leaf takes
/// entries in order while they fit, and the next starts where one more would not.
pub open spec fn leaves_greedy(es: Seq<EntryModel>, shapes: Seq<Shape>, m: int) -> bool {
    es.len() > 0 ==> greedy_bounds(es, Seq::new((m + 1) as nat, |g: int| if g < m { shapes[g].lo } else { es.len() as int }))
}

/// Where level `k` of the tree starts among the pages: after all the pages of
/// the levels below, `ns` holding the page count of each level.
pub open spec fn level_start(ns: Seq<int>, k: int) -> int
    decreases k,
{
    if k <= 0 {
        0
    } else {
        level_start(ns, k - 1) + ns[k - 1]
    }
}

/// The separators of the `n` pages that follow the first `base` ones: each
/// page's first key with its page id.
pub open spec fn level_seps(es: Seq<EntryModel>, shapes: Seq<Shape>, base: int, n: int) -> Seq<EntryModel> {
    Seq::new(n as nat, |j: int| (es[shapes[base + j].lo].0, (base + j) as u64))
}

/// The `n` pages that follow the first `base` ones, a level of at least two
/// pages, are grouped greedily by `cut` into the pages of the next level,
/// which follow right after them: each takes its group's first page as first
/// child and the other pages' separators.
#[verifier::opaque]
pub open spec fn level_built(es: Seq<EntryModel>, shapes: Seq<Shape>, base: int, n: int, cut: Seq<int>) -> bool {
    let xs = level_seps(es, shapes, base, n);
    &&& n >= 2
    &&& sep_greedy_bounds(xs, cut)
    &&& forall|g: int| #![trigger cut[g]] 0 <= g < cut.len() - 1 ==> shapes[base + n + g].first == (base + cut[g]) as u64
        && shapes[base + n + g].seps == xs.subrange(cut[g] + 1, cut[g + 1])
}

/// The levels so far, from the `m` leaves up to the last one built: `ns` holds
/// their page counts and `cuts` how each level below the last was grouped.
pub open spec fn levels_so_far(es: Seq<EntryModel>, shapes: Seq<Shape>, m: int, ns: Seq<int>, cuts: Seq<Seq<int>>) -> bool {
    &&& ns.len() >= 1
    &&& ns[0] == m
    &&& forall|k: int| 0 <= k < ns.len() ==> #[trigger] ns[k] >= 1
    &&& cuts.len() == ns.len() - 1
    &&& shapes.len() == level_start(ns, ns.len() as int)
    &&& forall|k: int| 0 <= k < cuts.len() ==> #[trigger] cuts[k].len() == ns[k + 1] + 1
        && level_built(es, shapes, level_start(ns, k), ns[k], cuts[k])
}

/// Above the `m` leaves, each level groups the pages of the level below
/// greedily, its pages numbered right after theirs, up to a level of one page:
/// the root.
pub open spec fn tree_greedy(es: Seq<EntryModel>, shapes: Seq<Shape>, m: int, root: int) -> bool {
    exists|ns: Seq<int>, cuts: Seq<Seq<int>>| {
        &&& levels_so_far(es, shapes, m, ns, cuts)
        &&& ns[ns.len() - 1] == 1
        &&& root == level_start(ns, ns.len() - 1)
    }
}

proof fn lemma_level_start_push(ns: Seq<int>, x: int, k: int)
    requires
        0 <= k <= ns.len(),
    ensures
        level_start(ns.push(x), k) == level_start(ns, k),
    decreases k,
{
    if k > 0 {
        lemma_level_start_push(ns, x, k - 1);
    }
}

proof fn lemma_level_start_mono(ns: Seq<int>, a: int, b: int)
    requires
        0 <= a <= b <= ns.len(),
        forall|k: int| 0 <= k < ns.len() ==> #[trigger] ns[k] >= 1,
    ensures
        level_start(ns, a) <= level_start(ns, b),
    decreases b - a,
{
    if a < b {
        lemma_level_start_mono(ns, a, b - 1);
    }
}

/// A level stays built when pages are only added after the ones it speaks of.
proof fn lemma_level_built_prefix(es: Seq<EntryModel>, shapes: Seq<Shape>, sh2: Seq<Shape>, base: int, n: int, cut: Seq<int>)
    requires
        level_built(es, shapes, base, n, cut),
        0 <= base,
        base + n + cut.len() - 1 <= shapes.len() <= sh2.len(),
        sh2.take(shapes.len() as int) == shapes,
    ensures
        level_built(es, sh2, base, n, cut),
{
    reveal(level_built);
    assert(level_seps(es, sh2, base, n) =~= level_seps(es, shapes, base, n)) by {
        assert forall|i: int| base <= i < base + n implies #[trigger] sh2[i] == shapes[i] by {
            assert(sh2.take(shapes.len() as int)[i] == sh2[i]);
        }
    }
    assert forall|g: int| #![trigger cut[g]] 0 <= g < cut.len() - 1 implies sh2[base + n + g] == shapes[base + n + g] by {
        assert(sh2.take(shapes.len() as int)[base + n + g] == sh2[base + n + g]);
    }
}

/// Building the next level from the current one, the last of the levels so
/// far, adds it to them.
proof fn lemma_level_step(
    es: Seq<EntryModel>,
    shapes: Seq<Shape>,
    sh2: Seq<Shape>,
    m: int,
    level: Seq<PageRef>,
    lb: Seq<int>,
    next: Seq<PageRef>,
    cut: Seq<int>,
    ns: Seq<int>,
    cuts: Seq<Seq<int>>,
)
    requires
        es.len() > 0,
        levels_so_far(es, shapes, m, ns, cuts),
        level.len() == ns[ns.len() - 1],
        forall|j: int| 0 <= j < level.len() ==> (#[trigger] level[j]).page_id == level_start(ns, ns.len() - 1) + j,
        level.len() >= 2,
        level_ok(es, shapes, level, lb),
        sep_greedy_bounds(ref_seps(level), cut),
        cut.len() == next.len() + 1,
        next.len() >= 1,
        sh2.len() == shapes.len() + next.len(),
        sh2.take(shapes.len() as int) == shapes,
        forall|h: int| 0 <= h < next.len() ==> #[trigger] group_built(sh2, shapes.len() as int, level, cut, next, h),
    ensures
        levels_so_far(es, sh2, m, ns.push(next.len() as int), cuts.push(cut)),
        forall|j: int| 0 <= j < next.len() ==> (#[trigger] next[j]).page_id == level_start(ns.push(next.len() as int), ns.len() as int) + j,
{
    let ns2 = ns.push(next.len() as int);
    let cuts2 = cuts.push(cut);
    let last = ns.len() - 1;
    let base = level_start(ns, last);
    let n = level.len() as int;
    lemma_level_start_push(ns, next.len() as int, ns.len() as int);
    lemma_level_start_push(ns, next.len() as int, last);
    assert(level_start(ns2, ns2.len() as int) == level_start(ns2, ns.len() as int) + next.len());
    assert(shapes.len() == base + n);
    // The earlier levels keep their pages.
    assert forall|k: int| 0 <= k < cuts2.len() implies #[trigger] cuts2[k].len() == ns2[k + 1] + 1
        && level_built(es, sh2, level_start(ns2, k), ns2[k], cuts2[k]) by {
        lemma_level_start_push(ns, next.len() as int, k);
        if k < cuts.len() {
            assert(cuts2[k] == cuts[k]);
            assert(ns2[k] == ns[k] && ns2[k + 1] == ns[k + 1]);
            lemma_level_start_push(ns, next.len() as int, k + 1);
            lemma_level_start_mono(ns, k + 2, ns.len() as int);
            lemma_level_start_mono(ns, 0, k);
            assert(level_start(ns, k + 2) == level_start(ns, k) + ns[k] + ns[k + 1]);
            lemma_level_built_prefix(es, shapes, sh2, level_start(ns, k), ns[k], cuts[k]);
        } else {
            assert(k == last);
            assert(cuts2[k] == cut);
            reveal(level_ok);
            reveal(level_built);
            reveal(group_built);
            let xs = level_seps(es, sh2, base, n);
            assert(xs =~= ref_seps(level)) by {
                assert forall|j: int| 0 <= j < n implies xs[j] == ref_seps(level)[j] by {
                    assert(level[j].page_id == base + j);
                    assert(sh2.take(shapes.len() as int)[base + j] == sh2[base + j]);
                }
            }
            assert forall|g: int| #![trigger cut[g]] 0 <= g < cut.len() - 1 implies sh2[base + n + g].first == (base + cut[g]) as u64
                && sh2[base + n + g].seps == xs.subrange(cut[g] + 1, cut[g + 1]) by {
                assert(group_built(sh2, shapes.len() as int, level, cut, next, g));
                assert(cut[g] < cut[cut.len() - 1]);
                assert(level[cut[g]].page_id == base + cut[g]);
            }
        }
    }
    assert forall|k: int| 0 <= k < ns2.len() implies #[trigger] ns2[k] >= 1 by {
        if k < ns.len() {
            assert(ns2[k] == ns[k]);
        }
    }
    assert forall|j: int| 0 <= j < next.len() implies (#[trigger] next[j]).page_id == level_start(ns2, ns.len() as int) + j by {
        reveal(group_built);
        assert(group_built(sh2, shapes.len() as int, level, cut, next, j));
    }
}

/// The pages form a tree over the sorted entries whose root covers them all.
pub open spec fn tree_ok(es: Seq<EntryModel>, pv: Seq<Seq<u8>>, shapes: Seq<Shape>, m: int, root: int) -> bool {
    &&& pages_ok(es, pv, shapes, m)
    &&& 0 <= root < shapes.len()
    &&& shapes[root].lo == 0
    &&& shapes[root].hi == es.len()
}

/// A level of references: reference `j` is to a page covering the entries from
/// `lb[j]` up to `lb[j + 1]`, with their first key.
#[verifier::opaque]
pub open spec fn level_ok(es: Seq<EntryModel>, shapes: Seq<Shape>, refs: Seq<PageRef>, lb: Seq<int>) -> bool {
    &&& refs.len() >= 1
    &&& lb.len() == refs.len() + 1
    &&& lb[0] == 0
    &&& lb[refs.len() as int] == es.len()
    &&& es.len() > 0 ==> forall|a: int, b: int| 0 <= a < b <= refs.len() ==> lb[a] < lb[b]
    &&& es.len() == 0 ==> refs.len() == 1
    &&& forall|j: int| #![trigger refs[j]] 0 <= j < refs.len() ==> refs[j].page_id < shapes.len()
        && shapes[refs[j].page_id as int].lo == lb[j] && shapes[refs[j].page_id as int].hi == lb[j + 1]
    &&& es.len() > 0 ==> forall|j: int| #![trigger refs[j]] 0 <= j < refs.len() ==> refs[j].first_key is Some
        && refs[j].first_key.unwrap()@ == es[lb[j]].0
}

proof fn lemma_shape_ok_push(es: Seq<EntryModel>, shapes: Seq<Shape>, x: Shape, p: int)
    requires
        0 <= p < shapes.len(),
        shape_ok(es, shapes, p),
    ensures
        shape_ok(es, shapes.push(x), p),
{
    let s2 = shapes.push(x);
    assert(s2[p] == shapes[p]);
    let s = shapes[p];
    if !s.leaf {
        let cs = children_of(s);
        assert forall|j: int| #![trigger cs[j]] 0 <= j < cs.len() implies cs[j] < p && s2[cs[j] as int].lo == s.bounds[j]
            && s2[cs[j] as int].hi == s.bounds[j + 1] by {
            assert(s2[cs[j] as int] == shapes[cs[j] as int]);
        }
    }
}

proof fn lemma_level_ok_push(es: Seq<EntryModel>, shapes: Seq<Shape>, x: Shape, refs: Seq<PageRef>, lb: Seq<int>)
    requires
        level_ok(es, shapes, refs, lb),
    ensures
        level_ok(es, shapes.push(x), refs, lb),
{
    reveal(level_ok);
    let s2 = shapes.push(x);
    assert forall|j: int| #![trigger refs[j]] 0 <= j < refs.len() implies refs[j].page_id < s2.len()
        && s2[refs[j].page_id as int].lo == lb[j] && s2[refs[j].page_id as int].hi == lb[j + 1] by {
        assert(s2[refs[j].page_id as int] == shapes[refs[j].page_id as int]);
    }
}

/// The internal page over the children of `level` from `s` up to `e`.
fn encode_group(
    level: &Vec<PageRef>,
    s: usize,
    e: usize,
    page_id: u64,
    Ghost(es): Ghost<Seq<EntryModel>>,
    Ghost(shapes): Ghost<Seq<Shape>>,
    Ghost(lb): Ghost<Seq<int>>,
) -> (r: (Vec<u8>, PageRef, Ghost<Shape>))
    requires
        es.len() > 0,
        strictly_sorted(es),
        keys_fit(es),
        level_ok(es, shapes, level@, lb),
        0 <= s < e <= level@.len(),
        group_fits(ref_seps(level@), s + 1, e as int),
        page_id == shapes.len(),
    ensures
        r.0@ == shape_bytes(es, r.2@),
        shape_ok(es, shapes.push(r.2@), shapes.len() as int),
        !r.2@.leaf,
        r.2@.lo == lb[s as int],
        r.2@.hi == lb[e as int],
        r.1.page_id == page_id,
        r.1.first_key is Some && r.1.first_key.unwrap()@ == es[lb[s as int]].0,
        r.2@.first == level@[s as int].page_id,
        r.2@.seps == ref_seps(level@).subrange(s + 1, e as int),
{
    proof {
        reveal(level_ok);
    }
    let children = vstd::slice::slice_subrange(level.as_slice(), s, e);
    let ghost cv = children@;
    let ghost seps = separators_of(cv);
    let ghost xs = ref_seps(level@);
    proof {
        assert(cv =~= level@.subrange(s as int, e as int));
        assert(xs.subrange(s + 1, e as int) =~= seps);
        assert forall|j: int| 1 <= j < cv.len() implies (#[trigger] cv[j]).first_key is Some by {
            assert(cv[j] == level@[s + j]);
        }
        assert forall|t: int| 0 <= t < seps.len() implies (#[trigger] seps[t]).0 == es[lb[s + t + 1]].0
            && seps[t].1 == level@[s + t + 1].page_id by {
            assert(cv[t + 1] == level@[s + t + 1]);
        }
        assert(keys_fit(seps)) by {
            assert forall|t: int| 0 <= t < seps.len() implies (#[trigger] seps[t]).0.len() + 23 <= PAGE_SIZE by {
                assert(seps[t].0 == es[lb[s + t + 1]].0);
            }
        }
        lemma_keys_fit_page(seps);
        lemma_keyed_list_min_len(seps);
        assert(fits_page(cv.len(), seps));
    }
    let page = match encode_internal_page(children) {
        Ok(p) => p,
        Err(_) => {
            assert(false);
            Vec::new()
        },
    };
    let first_key = match &level[s].first_key {
        Some(k) => copy_bytes(k.as_slice()),
        None => {
            assert(false);
            Vec::new()
        },
    };
    let ghost shape = Shape {
        leaf: false,
        next: None,
        first: level@[s as int].page_id,
        seps: seps,
        bounds: lb.subrange(s as int, e + 1),
        lo: lb[s as int],
        hi: lb[e as int],
    };
    proof {
        let s2 = shapes.push(shape);
        let p = shapes.len() as int;
        assert(s2[p] == shape);
        let cs = children_of(shape);
        assert(cs.len() == e - s);
        assert forall|j: int| #![trigger cs[j]] 0 <= j < cs.len() implies cs[j] == level@[s + j].page_id by {
            if j > 0 {
                assert(cs[j] == seps[j - 1].1);
            }
        }
        assert forall|j: int| #![trigger cs[j]] 0 <= j < cs.len() implies cs[j] < p && s2[cs[j] as int].lo == shape.bounds[j]
            && s2[cs[j] as int].hi == shape.bounds[j + 1] by {
            assert(level@[s + j] == level@[s + j]);
            assert(s2[cs[j] as int] == shapes[cs[j] as int]);
        }
        assert forall|a: int, b: int| 0 <= a < b <= cs.len() implies shape.bounds[a] < shape.bounds[b] by {
            assert(lb[s + a] < lb[s + b]);
        }
        assert forall|a: int, b: int| 0 <= a < b < seps.len() implies bytes_lt(seps[a].0, seps[b].0) by {
            assert(lb[s + a + 1] < lb[s + b + 1]);
        }
        assert forall|j: int| #![trigger shape.seps[j]] 0 <= j < shape.seps.len() implies shape.seps[j].0 == es[shape.bounds[j + 1]].0 by {
            assert(shape.bounds[j + 1] == lb[s + j + 1]);
        }
        assert(0 <= lb[s as int] <= lb[e as int] <= es.len()) by {
            if e < level@.len() {
                assert(lb[e as int] < lb[level@.len() as int]);
            }
        }
    }
    let pr = PageRef { page_id, first_key: Some(first_key) };
    let gs: Ghost<Shape> = Ghost(shape);
    (page, pr, gs)
}

proof fn lemma_pages_ok_push(es: Seq<EntryModel>, pv: Seq<Seq<u8>>, shapes: Seq<Shape>, m: int, page: Seq<u8>, x: Shape)
    requires
        pages_ok(es, pv, shapes, m),
        page == shape_bytes(es, x),
        shape_ok(es, shapes.push(x), shapes.len() as int),
        !x.leaf,
    ensures
        pages_ok(es, pv.push(page), shapes.push(x), m),
{
    reveal(pages_ok);
    let s2 = shapes.push(x);
    let p2 = pv.push(page);
    assert forall|p: int| #![trigger s2[p]] 0 <= p < s2.len() implies p2[p] == shape_bytes(es, s2[p]) && shape_ok(es, s2, p) by {
        if p < shapes.len() {
            assert(s2[p] == shapes[p]);
            assert(p2[p] == pv[p]);
            lemma_shape_ok_push(es, shapes, x, p);
        }
    }
    assert forall|p: int| #![trigger s2[p]] 0 <= p < s2.len() implies (s2[p].leaf <==> p < m) by {
        if p < shapes.len() {
            assert(s2[p] == shapes[p]);
        }
    }
    assert forall|p: int| #![trigger s2[p]] 0 <= p < m implies s2[p].next == leaf_next(p, m) by {
        assert(s2[p] == shapes[p]);
    }
    assert forall|p: int| #![trigger s2[p]] 0 <= p < m - 1 implies s2[p].hi == s2[p + 1].lo by {
        assert(s2[p] == shapes[p] && s2[p + 1] == shapes[p + 1]);
    }
    assert(s2[0] == shapes[0] && s2[m - 1] == shapes[m - 1]);
    if es.len() > 0 {
        assert forall|p: int, q: int| 0 <= p < q < m implies s2[p].lo < s2[q].lo by {
            assert(s2[p] == shapes[p] && s2[q] == shapes[q]);
        }
    }
}

/// Builds the next level up: one internal page for each group of children of
/// the current level, appended to the pages.
#[verifier::rlimit(100)]
#[verifier::spinoff_prover]
fn build_next_level(
    pages: &mut Vec<Vec<u8>>,
    level: &Vec<PageRef>,
    Ghost(es): Ghost<Seq<EntryModel>>,
    Ghost(shapes): Ghost<Seq<Shape>>,
    Ghost(m): Ghost<int>,
    Ghost(lb): Ghost<Seq<int>>,
) -> (r: (Vec<PageRef>, Ghost<(Seq<Shape>, Seq<int>, Seq<int>)>))
    requires
        es.len() > 0,
        strictly_sorted(es),
        keys_fit(es),
        pages_ok(es, page_views(old(pages)@), shapes, m),
        old(pages)@.len() == shapes.len(),
        level_ok(es, shapes, level@, lb),
        level@.len() >= 2,
    ensures
        pages_ok(es, page_views(final(pages)@), r.1@.0, m),
        final(pages)@.len() == r.1@.0.len(),
        level_ok(es, r.1@.0, r.0@, r.1@.1),
        1 <= r.0@.len() < level@.len(),
        shapes.len() <= r.1@.0.len(),
        r.1@.0.take(shapes.len() as int) == shapes,
        sep_greedy_bounds(ref_seps(level@), r.1@.2),
        r.1@.2.len() == r.0@.len() + 1,
        r.1@.0.len() == shapes.len() + r.0@.len(),
        forall|h: int| 0 <= h < r.0@.len() ==> #[trigger] group_built(r.1@.0, shapes.len() as int, level@, r.1@.2, r.0@, h),
{
    let k = level.len();
    proof {
        reveal(level_ok);
        assert forall|j: int| 0 <= j < level@.len() implies (#[trigger] level@[j]).first_key is Some
            && level@[j].first_key.unwrap()@.len() + 23 <= PAGE_SIZE by {
            assert(lb[j] < lb[k as int]);
            assert(es[lb[j]].0.len() + 23 <= PAGE_SIZE);
        }
    }
    let starts = internal_starts(level.as_slice());
    let ghost bs2 = usizes(starts@).push(k as int);
    let ghost xs = ref_seps(level@);
    let groups = starts.len();
    let mut next_level: Vec<PageRef> = Vec::new();
    let ghost mut sh = shapes;
    assert(sh.take(shapes.len() as int) =~= shapes);
    let mut g: usize = 0;
    while g < groups
        invariant
            es.len() > 0,
            strictly_sorted(es),
            keys_fit(es),
            k == level@.len(),
            groups == starts@.len(),
            bs2 == usizes(starts@).push(k as int),
            xs == ref_seps(level@),
            sep_greedy_bounds(xs, bs2),
            pages_ok(es, page_views(pages@), sh, m),
            pages@.len() == sh.len(),
            level_ok(es, sh, level@, lb),
            shapes.len() <= sh.len(),
            sh.take(shapes.len() as int) == shapes,
            sh.len() == shapes.len() + g,
            forall|h: int| 0 <= h < g ==> #[trigger] group_built(sh, shapes.len() as int, level@, bs2, next_level@, h),
            g <= groups,
            next_level@.len() == g,
            forall|h: int| #![trigger next_level@[h]] 0 <= h < g ==> next_level@[h].page_id < sh.len()
                && sh[next_level@[h].page_id as int].lo == lb[bs2[h]] && sh[next_level@[h].page_id as int].hi == lb[bs2[h + 1]]
                && next_level@[h].first_key is Some && next_level@[h].first_key.unwrap()@ == es[lb[bs2[h]]].0,
        decreases groups - g,
    {
        let s = starts[g];
        let e = if g + 1 < groups { starts[g + 1] } else { k };
        assert(s == bs2[g as int] && e == bs2[g + 1]);
        assert(bs2[g as int] < bs2[g + 1]);
        assert(group_fits(xs, bs2[g as int] + 1, bs2[g + 1]));
        let page_id = pages.len() as u64;
        assert(page_views(pages@).len() == pages@.len());
        let (page, pr, Ghost(shape)) = encode_group(level, s, e, page_id, Ghost(es), Ghost(sh), Ghost(lb));
        let ghost old_pv = page_views(pages@);
        let ghost old_sh = sh;
        let ghost old_next = next_level@;
        pages.push(page);
        next_level.push(pr);
        proof {
            assert(next_level@ == old_next.push(pr));
            assert(page_views(pages@) =~= old_pv.push(page@));
            lemma_pages_ok_push(es, old_pv, old_sh, m, page@, shape);
            lemma_level_ok_push(es, old_sh, shape, level@, lb);
            sh = old_sh.push(shape);
            assert(sh.take(shapes.len() as int) =~= old_sh.take(shapes.len() as int));
            assert forall|h: int| 0 <= h < g + 1 implies #[trigger] group_built(sh, shapes.len() as int, level@, bs2, next_level@, h) by {
                reveal(group_built);
                if h < g {
                    assert(group_built(old_sh, shapes.len() as int, level@, bs2, old_next, h));
                    assert(next_level@[h] == old_next[h]);
                    assert(sh[shapes.len() + h] == old_sh[shapes.len() + h]);
                } else {
                    assert(next_level@[h] == pr);
                    assert(sh[shapes.len() + h] == shape);
                }
            }
            assert forall|h: int| #![trigger next_level@[h]] 0 <= h < g + 1 implies next_level@[h].page_id < sh.len()
                && sh[next_level@[h].page_id as int].lo == lb[bs2[h]] && sh[next_level@[h].page_id as int].hi == lb[bs2[h + 1]]
                && next_level@[h].first_key is Some && next_level@[h].first_key.unwrap()@ == es[lb[bs2[h]]].0 by {
                if h < g {
                    assert(next_level@[h] == old_next[h]);
                    assert(sh[next_level@[h].page_id as int] == old_sh[next_level@[h].page_id as int]);
                } else {
                    assert(next_level@[h] == pr);
                    assert(sh[old_sh.len() as int] == shape);
                }
            }
        }
        g = g + 1;
    }
    let ghost lb2 = Seq::new((groups + 1) as nat, |h: int| lb[bs2[h]]);
    proof {
        reveal(level_ok);
        assert forall|a: int, b: int| 0 <= a < b <= groups implies lb2[a] < lb2[b] by {
            assert(bs2[a] < bs2[b]);
        }
        assert forall|j: int| #![trigger next_level@[j]] 0 <= j < next_level@.len() implies next_level@[j].page_id < sh.len()
            && sh[next_level@[j].page_id as int].lo == lb2[j] && sh[next_level@[j].page_id as int].hi == lb2[j + 1] by {
        }
        assert forall|j: int| #![trigger next_level@[j]] 0 <= j < next_level@.len() implies next_level@[j].first_key is Some
            && next_level@[j].first_key.unwrap()@ == es[lb2[j]].0 by {
        }
    }
    let result: Ghost<(Seq<Shape>, Seq<int>, Seq<int>)> = Ghost((sh, lb2, bs2));
    (next_level, result)
}

/// The page after the first `base` ones, for group `h` of the cut `bs` of a
/// level, is the internal page over that group: reached by reference `h` of
/// the next level, it takes the group's first page as first child and the
/// others' separators.
#[verifier::opaque]
pub open spec fn group_built(shapes: Seq<Shape>, base: int, level: Seq<PageRef>, bs: Seq<int>, next: Seq<PageRef>, h: int) -> bool {
    &&& next[h].page_id == base + h
    &&& shapes[base + h].first == level[bs[h]].page_id
    &&& shapes[base + h].seps == ref_seps(level).subrange(bs[h] + 1, bs[h + 1])
}

pub open spec fn leaf_shape(bs: Seq<int>, g: int, m: int) -> Shape {
    Shape { leaf: true, next: leaf_next(g, m), first: 0, seps: Seq::empty(), bounds: Seq::empty(), lo: bs[g], hi: bs[g + 1] }
}

pub open spec fn leaf_shapes(bs: Seq<int>, m: int) -> Seq<Shape> {
    Seq::new(m as nat, |g: int| leaf_shape(bs, g, m))
}

proof fn lemma_leaf_level_tree(es: Seq<EntryModel>, pv: Seq<Seq<u8>>, refs: Seq<PageRef>, bs: Seq<int>)
    requires
        leaf_level_ok(es, pv, refs, bs),
        pv.len() <= usize::MAX,
    ensures
        pages_ok(es, pv, leaf_shapes(bs, pv.len() as int), pv.len() as int),
        level_ok(es, leaf_shapes(bs, pv.len() as int), refs, bs),
        refs.len() == pv.len(),
        pv.len() >= 1,
        es.len() == 0 ==> refs.len() == 1,
{
    reveal(pages_ok);
    reveal(level_ok);
    reveal(leaf_level_ok);
    let m = pv.len() as int;
    let shapes = leaf_shapes(bs, m);
    assert forall|p: int| #![trigger shapes[p]] 0 <= p < shapes.len() implies pv[p] == shape_bytes(es, shapes[p]) && shape_ok(es, shapes, p) by {
        assert(pv[p] == leaf_page(es.subrange(bs[p], bs[p + 1]), leaf_next(p, m)));
        if es.len() > 0 {
            assert(bs[p] < bs[p + 1]);
            assert(bs[p + 1] <= bs[m]);
            assert(0 <= bs[0] <= bs[p]);
        }
    }
    if es.len() > 0 {
        assert forall|p: int, q: int| 0 <= p < q < m implies shapes[p].lo < shapes[q].lo by {
            assert(bs[p] < bs[q]);
        }
    }
    assert forall|j: int| #![trigger refs[j]] 0 <= j < refs.len() implies refs[j].page_id < shapes.len()
        && shapes[refs[j].page_id as int].lo == bs[j] && shapes[refs[j].page_id as int].hi == bs[j + 1] by {
    }
}

proof fn lemma_single_level_root(es: Seq<EntryModel>, shapes: Seq<Shape>, refs: Seq<PageRef>, lb: Seq<int>)
    requires
        level_ok(es, shapes, refs, lb),
        refs.len() == 1,
    ensures
        refs[0].page_id < shapes.len(),
        shapes[refs[0].page_id as int].lo == 0,
        shapes[refs[0].page_id as int].hi == es.len(),
{
    reveal(level_ok);
}

/// The pages of an index over sorted entries: the leaves, then each internal
/// level up to a single root; with the root's id.
#[verifier::rlimit(60)]
#[verifier::spinoff_prover]
fn build_index_pages(entries: &[EncodedEntry]) -> (r: Result<(Vec<Vec<u8>>, u64, Ghost<(Seq<Shape>, int)>)>)
    requires
        strictly_sorted(entries_view(entries@)),
    ensures
        r is Ok == keys_fit(entries_view(entries@)),
        r is Ok ==> tree_ok(entries_view(entries@), page_views(r.unwrap().0@), r.unwrap().2@.0, r.unwrap().2@.1, r.unwrap().1 as int),
        r is Ok ==> leaves_greedy(entries_view(entries@), r.unwrap().2@.0, r.unwrap().2@.1),
        r is Ok ==> tree_greedy(entries_view(entries@), r.unwrap().2@.0, r.unwrap().2@.1, r.unwrap().1 as int),
        r is Err ==> r matches Err(CrustDbError::StorageFormat(_)),
        r matches Err(CrustDbError::StorageFormat(m)) ==> unfit_error(entries_view(entries@), m@),
{
    let ghost es = entries_view(entries@);
    let (mut pages, mut level, Ghost(bs)) = build_leaf_level(entries)?;
    let ghost m = pages@.len() as int;
    let ghost mut shapes = leaf_shapes(bs, m);
    let ghost mut lb = bs;
    let ghost mut ns: Seq<int> = seq![m];
    let ghost mut cuts: Seq<Seq<int>> = Seq::empty();
    let np = pages.len();
    proof {
        assert(page_views(pages@).len() == np);
        lemma_leaf_level_tree(es, page_views(pages@), level@, bs);
        reveal(leaf_level_ok);
        assert(shapes.take(m) =~= leaf_shapes(bs, m));
        assert(level_start(ns, 0) == 0);
        assert(level_start(ns, 1) == m);
    }
    while level.len() > 1
        invariant
            es == entries_view(entries@),
            strictly_sorted(es),
            keys_fit(es),
            bs.len() == m + 1,
            es.len() > 0 ==> greedy_bounds(es, bs),
            m <= shapes.len(),
            shapes.take(m) == leaf_shapes(bs, m),
            pages_ok(es, page_views(pages@), shapes, m),
            pages@.len() == shapes.len(),
            level_ok(es, shapes, level@, lb),
            level@.len() >= 1,
            es.len() == 0 ==> level@.len() == 1,
            levels_so_far(es, shapes, m, ns, cuts),
            level@.len() == ns[ns.len() - 1],
            forall|j: int| 0 <= j < level@.len() ==> (#[trigger] level@[j]).page_id == level_start(ns, ns.len() - 1) + j,
        decreases level@.len(),
    {
        let (next, Ghost(built)) = build_next_level(&mut pages, &level, Ghost(es), Ghost(shapes), Ghost(m), Ghost(lb));
        proof {
            lemma_level_step(es, shapes, built.0, m, level@, lb, next@, built.2, ns, cuts);
            ns = ns.push(next@.len() as int);
            cuts = cuts.push(built.2);
        }
        level = next;
        proof {
            assert(built.0.take(m) =~= built.0.take(shapes.len() as int).take(m));
            shapes = built.0;
            lb = built.1;
        }
    }
    let root = level[0].page_id;
    proof {
        lemma_single_level_root(es, shapes, level@, lb);
        assert(tree_greedy(es, shapes, m, root as int)) by {
            assert(levels_so_far(es, shapes, m, ns, cuts) && ns[ns.len() - 1] == 1
                && root as int == level_start(ns, ns.len() - 1));
        }
        if es.len() > 0 {
            let cut = Seq::new((m + 1) as nat, |g: int| if g < m { shapes[g].lo } else { es.len() as int });
            assert forall|g: int| 0 <= g < m implies shapes[g].lo == bs[g] by {
                assert(shapes.take(m)[g] == leaf_shapes(bs, m)[g]);
            }
            assert(cut =~= bs);
        }
    }
    let result: Ghost<(Seq<Shape>, int)> = Ghost((shapes, m));
    Ok((pages, root, result))
}

// ---------------------------------------------------------------------------
// Saving.
// ---------------------------------------------------------------------------

/// The pages one after another.
pub open spec fn concat_pages(pv: Seq<Seq<u8>>) -> Seq<u8>
    decreases pv.len(),
{
    if pv.len() == 0 {
        Seq::empty()
    } else {
        concat_pages(pv.drop_last()) + pv.last()
    }
}

/// A key fits a leaf page on its own.
pub open spec fn key_fits(k: Seq<u8>) -> bool {
    k.len() + 23 <= PAGE_SIZE
}

/// Why a key does not fit: too long for its length field, else for a page.
pub open spec fn key_message(k: Seq<u8>) -> Seq<char> {
    if k.len() > u16::MAX {
        too_large_message("index key length"@)
    } else {
        "index key is too large for a leaf page"@
    }
}

/// `es[i]` is the first entry whose key does not fit.
pub open spec fn first_unfit(es: Seq<EntryModel>, i: int) -> bool {
    &&& 0 <= i < es.len()
    &&& !key_fits(es[i].0)
    &&& forall|j: int| 0 <= j < i ==> key_fits(#[trigger] es[j].0)
}

/// `m` says why the first key that does not fit, in the order of `es`, does not.
pub open spec fn unfit_error(es: Seq<EntryModel>, m: Seq<char>) -> bool {
    exists|i: int| #[trigger] first_unfit(es, i) && m == key_message(es[i].0)
}

/// `k` is the least of the keys of the entries that do not fit.
pub open spec fn least_unfit_key(entries: Seq<(ValueModel, RowId)>, k: Seq<u8>) -> bool {
    &&& !key_fits(k)
    &&& exists|i: int| 0 <= i < entries.len() && enc_key((#[trigger] entries[i]).0) == k
    &&& forall|i: int| 0 <= i < entries.len() && !key_fits(enc_key((#[trigger] entries[i]).0))
        ==> enc_key(entries[i].0) == k || bytes_lt(k, enc_key(entries[i].0))
}

/// `m` says why the entries cannot be saved as an index file of `model.field`:
/// two entries with the same value, else the least key that is too long, else
/// a name too long for a string, else names too long for the header page.
pub open spec fn save_error(m: Seq<char>, model: Seq<char>, field: Seq<char>, entries: Seq<(ValueModel, RowId)>) -> bool {
    if !values_distinct(entries) {
        m == "duplicate key in index entries"@
    } else if !entries_fit(entries) {
        exists|k: Seq<u8>| #[trigger] least_unfit_key(entries, k) && m == key_message(k)
    } else if !str_fits(model) || !str_fits(field) {
        m == too_large_message("string length"@)
    } else {
        m == "index header is too large for a page"@
    }
}

/// Every entry's key fits a page on its own.
pub open spec fn entries_fit(entries: Seq<(ValueModel, RowId)>) -> bool {
    forall|i: int| 0 <= i < entries.len() ==> enc_key((#[trigger] entries[i]).0).len() + 23 <= PAGE_SIZE
}

/// The names fit the header page.
pub open spec fn header_fits(model: Seq<char>, field: Seq<char>) -> bool {
    str_fits(model) && str_fits(field) && header_bytes(model, field, 0, 0, 0).len() <= PAGE_SIZE
}

/// `file` is an index file of `model.field` over the entries: a header page,
/// then pages that form a tree over the entries with their values replaced by
/// index keys, sorted by key: the leaves first, filled greedily in key order,
/// then each level above, grouping the pages of the level below greedily, up
/// to the root.
pub open spec fn index_file_of(file: Seq<u8>, model: Seq<char>, field: Seq<char>, entries: Seq<(ValueModel, RowId)>) -> bool {
    exists|es: Seq<EntryModel>, pv: Seq<Seq<u8>>, shapes: Seq<Shape>, m: int, root: int| {
        &&& values_distinct(entries)
        &&& sorted_keys_of(es, entries)
        &&& keys_fit(es)
        &&& tree_ok(es, pv, shapes, m, root)
        &&& leaves_greedy(es, shapes, m)
        &&& tree_greedy(es, shapes, m, root)
        &&& header_fits(model, field)
        &&& pv.len() <= u64::MAX
        &&& es.len() <= usize::MAX
        &&& file == padded(header_bytes(model, field, root as u64, pv.len() as u64, es.len() as u64)) + concat_pages(pv)
    }
}

proof fn lemma_header_len(model: Seq<char>, field: Seq<char>, root: u64, count: u64, n: u64)
    ensures
        header_bytes(model, field, root, count, n).len() == header_bytes(model, field, 0, 0, 0).len(),
{
    vstd::bytes::lemma_auto_spec_u32_to_from_le_bytes();
    vstd::bytes::lemma_auto_spec_u64_to_from_le_bytes();
}

proof fn lemma_keys_fit_of(es: Seq<EntryModel>, entries: Seq<(ValueModel, RowId)>)
    requires
        sorted_keys_of(es, entries),
    ensures
        keys_fit(es) == entries_fit(entries),
{
    let mapped = entries.map_values(|e: (ValueModel, RowId)| keyed(e));
    if keys_fit(es) {
        assert forall|i: int| 0 <= i < entries.len() implies enc_key((#[trigger] entries[i]).0).len() + 23 <= PAGE_SIZE by {
            assert(mapped[i] == keyed(entries[i]));
            assert(mapped.contains(mapped[i]));
            assert(es.contains(mapped[i]));
        }
    }
    if entries_fit(entries) {
        assert forall|i: int| 0 <= i < es.len() implies (#[trigger] es[i]).0.len() + 23 <= PAGE_SIZE by {
            assert(es.contains(es[i]));
            assert(mapped.contains(es[i]));
            let j = choose|j: int| 0 <= j < mapped.len() && mapped[j] == es[i];
            assert(mapped[j] == keyed(entries[j]));
        }
    }
}

/// The index file of `model_name.field_name` over the entries: a header page,
/// then a B-tree of fixed-size pages over the entries sorted by key. Refused
/// where two entries have the same value, a key does not fit a page, or the
/// names do not fit the header.
pub fn save_index(model_name: &str, field_name: &str, entries: &[(Value, RowId)]) -> (r: Result<Vec<u8>>)
    ensures
        r is Ok == (values_distinct(value_rows(entries@)) && entries_fit(value_rows(entries@))
            && header_fits(model_name@, field_name@)),
        r is Ok ==> index_file_of(r.unwrap()@, model_name@, field_name@, value_rows(entries@)),
        r is Err ==> r matches Err(CrustDbError::StorageFormat(_)),
        r matches Err(CrustDbError::StorageFormat(m)) ==> save_error(m@, model_name@, field_name@, value_rows(entries@)),
{
    let encoded = sorted_encoded_entries(entries)?;
    let ghost es = entries_view(encoded@);
    proof {
        lemma_keys_fit_of(es, value_rows(entries@));
    }
    let (pages, root, Ghost(tree)) = match build_index_pages(encoded.as_slice()) {
        Ok(built) => built,
        Err(e) => {
            proof {
                if let CrustDbError::StorageFormat(m) = &e {
                    let i = choose|i: int| #[trigger] first_unfit(es, i) && m@ == key_message(es[i].0);
                    lemma_least_unfit(es, value_rows(entries@), i);
                }
            }
            return Err(e);
        },
    };
    let page_count = pages.len() as u64;
    let entry_count = encoded.len() as u64;
    proof {
        lemma_header_len(model_name@, field_name@, root, page_count, entry_count);
    }
    let mut out = encode_header_page(model_name, field_name, root, page_count, entry_count)?;
    let ghost head = out@;
    let mut i: usize = 0;
    assert(page_views(pages@).take(0) =~= Seq::<Seq<u8>>::empty());
    while i < pages.len()
        invariant
            i <= pages@.len(),
            out@ == head + concat_pages(page_views(pages@).take(i as int)),
        decreases pages@.len() - i,
    {
        out.extend_from_slice(pages[i].as_slice());
        proof {
            let pv = page_views(pages@);
            assert(pv.take(i + 1).drop_last() =~= pv.take(i as int));
            assert(pv.take(i + 1).last() == pages@[i as int]@);
        }
        i = i + 1;
    }
    proof {
        let pv = page_views(pages@);
        assert(pv.take(i as int) =~= pv);
        assert(pv.len() == pages@.len());
        assert(page_count == pv.len());
        assert(entry_count == es.len());
        let (shapes, m) = tree;
        assert(index_file_of(out@, model_name@, field_name@, value_rows(entries@))) by {
            assert(keys_fit(es));
        }
    }
    Ok(out)
}

/// The first key, in key order, that does not fit is the least such key of
/// the entries.
proof fn lemma_least_unfit(es: Seq<EntryModel>, entries: Seq<(ValueModel, RowId)>, i: int)
    requires
        sorted_keys_of(es, entries),
        first_unfit(es, i),
    ensures
        least_unfit_key(entries, es[i].0),
{
    let mapped = entries.map_values(|e: (ValueModel, RowId)| keyed(e));
    assert(es.contains(es[i]));
    assert(mapped.contains(es[i]));
    let j = choose|j: int| 0 <= j < mapped.len() && mapped[j] == es[i];
    assert(enc_key(entries[j].0) == es[i].0);
    assert forall|t: int| 0 <= t < entries.len() && !key_fits(enc_key((#[trigger] entries[t]).0))
        implies enc_key(entries[t].0) == es[i].0 || bytes_lt(es[i].0, enc_key(entries[t].0)) by {
        assert(mapped[t] == keyed(entries[t]));
        assert(mapped.contains(keyed(entries[t])));
        assert(es.contains(keyed(entries[t])));
        let u = choose|u: int| 0 <= u < es.len() && es[u] == keyed(entries[t]);
        if u < i {
            assert(key_fits(es[u].0));
        } else if u > i {
            assert(bytes_lt(es[i].0, es[u].0));
        }
    }
}

/// Where the index of `model_name.field_name` is kept, below the database
/// directory.
pub fn index_path(model_name: &str, field_name: &str) -> (r: String)
    ensures
        r@ == "indexes/"@ + model_name@ + "/"@ + field_name@ + ".idx"@,
{
    let a = join("indexes/", model_name);
    let b = join(a.as_str(), "/");
    let c = join(b.as_str(), field_name);
    join(c.as_str(), ".idx")
}

// ---------------------------------------------------------------------------
// Reading back what was written.
// ---------------------------------------------------------------------------

proof fn lemma_parse_keyed_enc(k: Seq<u8>, x: u64, rest: Seq<u8>)
    requires
        k.len() <= u16::MAX,
    ensures
        parse_keyed(enc_keyed(k, x) + rest) == Some(((k, x), rest)),
{
    let n = k.len() as u16;
    let r = k + (spec_u64_to_le_bytes(x) + rest);
    lemma_parse_u16_enc(n, r);
    assert(enc_keyed(k, x) + rest =~= spec_u16_to_le_bytes(n) + r);
    assert(r.take(n as int) =~= k);
    assert(r.skip(n as int) =~= spec_u64_to_le_bytes(x) + rest);
    lemma_parse_u64_enc(x, rest);
}

proof fn lemma_parse_keyed_list_enc(items: Seq<EntryModel>, rest: Seq<u8>)
    requires
        forall|i: int| 0 <= i < items.len() ==> (#[trigger] items[i]).0.len() <= u16::MAX,
    ensures
        parse_keyed_list(enc_keyed_list(items) + rest, items.len()) == Some((items, rest)),
    decreases items.len(),
{
    if items.len() > 0 {
        let init = items.drop_last();
        let last = items.last();
        let r2 = enc_keyed(last.0, last.1) + rest;
        assert(enc_keyed_list(items) + rest =~= enc_keyed_list(init) + r2);
        lemma_parse_keyed_list_enc(init, r2);
        lemma_parse_keyed_enc(last.0, last.1, rest);
        assert(init.push(last) =~= items);
    } else {
        assert(enc_keyed_list(items) + rest =~= rest);
    }
}

proof fn lemma_page_body_len(kind: u8, count: nat, head: u64, items: Seq<EntryModel>)
    ensures
        page_body(kind, count, head, items).len() == 13 + enc_keyed_list(items).len(),
{
    vstd::bytes::lemma_auto_spec_u16_to_from_le_bytes();
    vstd::bytes::lemma_auto_spec_u64_to_from_le_bytes();
}

/// A page written with these items reads back as its kind, count, head and items.
proof fn lemma_page_roundtrip(kind: u8, count: nat, head: u64, items: Seq<EntryModel>, n: nat)
    requires
        fits_page(count, items),
        strictly_sorted(items),
        n == items.len(),
    ensures
        padded(page_body(kind, count, head, items)).len() == PAGE_SIZE,
        padded(page_body(kind, count, head, items))[0] == kind,
        page_head(padded(page_body(kind, count, head, items)), kind) == Some(
            (count as u16, (13 + enc_keyed_list(items).len()) as nat),
        ),
        page_items(padded(page_body(kind, count, head, items)), (13 + enc_keyed_list(items).len()) as nat, n)
            == Some((head, items)),
{
    let body = page_body(kind, count, head, items);
    let page = padded(body);
    let used = 13 + enc_keyed_list(items).len();
    lemma_page_body_len(kind, count, head, items);
    vstd::bytes::lemma_auto_spec_u16_to_from_le_bytes();
    assert(page[0] == kind);
    assert(page.skip(1).take(2) =~= spec_u16_to_le_bytes(count as u16));
    assert(page.skip(1).skip(2).take(2) =~= spec_u16_to_le_bytes(used as u16));
    assert(page.take(used as int).skip(5) =~= spec_u64_to_le_bytes(head) + (enc_keyed_list(items) + Seq::<u8>::empty()));
    lemma_parse_u64_enc(head, enc_keyed_list(items) + Seq::<u8>::empty());
    lemma_parse_keyed_list_enc(items, Seq::<u8>::empty());
}

proof fn lemma_leaf_roundtrip(es: Seq<EntryModel>, next: Option<u64>)
    requires
        fits_page(es.len(), es),
        strictly_sorted(es),
        next != Some(NO_PAGE),
    ensures
        leaf_page(es, next).len() == PAGE_SIZE,
        leaf_page(es, next)[0] == PAGE_KIND_LEAF,
        parse_leaf_spec(leaf_page(es, next)) == Some((next, es)),
{
    lemma_page_roundtrip(PAGE_KIND_LEAF, es.len(), next_code(next), es, es.len());
}

proof fn lemma_internal_roundtrip(first: u64, seps: Seq<EntryModel>)
    requires
        fits_page(seps.len() + 1, seps),
        strictly_sorted(seps),
    ensures
        internal_page(first, seps).len() == PAGE_SIZE,
        internal_page(first, seps)[0] == PAGE_KIND_INTERNAL,
        parse_internal_spec(internal_page(first, seps)) == Some((first, seps)),
{
    lemma_page_roundtrip(PAGE_KIND_INTERNAL, seps.len() + 1, first, seps, seps.len());
}

proof fn lemma_concat_pages(pv: Seq<Seq<u8>>)
    requires
        forall|i: int| 0 <= i < pv.len() ==> (#[trigger] pv[i]).len() == PAGE_SIZE,
    ensures
        concat_pages(pv).len() == PAGE_SIZE * pv.len(),
        forall|i: int| 0 <= i < pv.len() ==> concat_pages(pv).subrange(PAGE_SIZE * i, PAGE_SIZE * (i + 1)) == #[trigger] pv[i],
    decreases pv.len(),
{
    if pv.len() > 0 {
        let init = pv.drop_last();
        lemma_concat_pages(init);
        let c = concat_pages(pv);
        let ci = concat_pages(init);
        assert(c == ci + pv.last());
        assert(ci.len() == PAGE_SIZE * init.len());
        assert(PAGE_SIZE * pv.len() == PAGE_SIZE * init.len() + PAGE_SIZE) by (nonlinear_arith)
            requires
                pv.len() == init.len() + 1,
        ;
        assert forall|i: int| 0 <= i < pv.len() implies c.subrange(PAGE_SIZE * i, PAGE_SIZE * (i + 1)) == #[trigger] pv[i] by {
            assert(PAGE_SIZE * (i + 1) == PAGE_SIZE * i + PAGE_SIZE) by (nonlinear_arith);
            if i < init.len() {
                assert(PAGE_SIZE * (i + 1) <= PAGE_SIZE * init.len()) by (nonlinear_arith)
                    requires
                        i + 1 <= init.len(),
                ;
                assert(0 <= PAGE_SIZE * i) by (nonlinear_arith)
                    requires
                        0 <= i,
                ;
                assert(c.subrange(PAGE_SIZE * i, PAGE_SIZE * (i + 1)) =~= ci.subrange(PAGE_SIZE * i, PAGE_SIZE * (i + 1)));
                assert(init[i] == pv[i]);
            } else {
                assert(c.subrange(PAGE_SIZE * i, PAGE_SIZE * (i + 1)) =~= pv.last());
            }
        }
    }
}

/// A header page reads back as what was written into it.
proof fn lemma_header_roundtrip(model: Seq<char>, field: Seq<char>, root: u64, count: u64, n: u64, rest: Seq<u8>)
    requires
        header_fits(model, field),
        1 <= count,
        root < count,
        PAGE_SIZE + rest.len() == PAGE_SIZE * (count + 1),
    ensures
        header_spec(padded(header_bytes(model, field, root, count, n)) + rest, model, field) == Some((root, count, n)),
{
    let hb = header_bytes(model, field, root, count, n);
    let head = padded(hb);
    let file = head + rest;
    lemma_header_len(model, field, root, count, n);
    assert(head.len() == PAGE_SIZE);
    let page = file.take(PAGE_SIZE as int);
    assert(page =~= head);
    let zeros = Seq::new((PAGE_SIZE - hb.len()) as nat, |i: int| 0u8);
    assert(page.take(8) =~= index_magic());
    assert(page[8] == INDEX_VERSION);
    let r5 = enc_str(field) + zeros;
    let r4 = enc_str(model) + r5;
    let r3 = spec_u64_to_le_bytes(n) + r4;
    let r2 = spec_u64_to_le_bytes(count) + r3;
    let r1 = spec_u64_to_le_bytes(root) + r2;
    assert(page.skip(9) =~= spec_u32_to_le_bytes(4096) + r1);
    lemma_parse_u32_enc(4096, r1);
    lemma_parse_u64_enc(root, r2);
    lemma_parse_u64_enc(count, r3);
    lemma_parse_u64_enc(n, r4);
    lemma_parse_str_enc(model, r5);
    lemma_parse_str_enc(field, zeros);
}

/// A file written as a header page and pages reads back as that header, and
/// page `id` as the page written at that place.
proof fn lemma_file_layout(model: Seq<char>, field: Seq<char>, root: u64, n: u64, pv: Seq<Seq<u8>>)
    requires
        header_fits(model, field),
        1 <= pv.len() <= u64::MAX,
        root < pv.len(),
        forall|i: int| 0 <= i < pv.len() ==> (#[trigger] pv[i]).len() == PAGE_SIZE,
    ensures
        ({
            let file = padded(header_bytes(model, field, root, pv.len() as u64, n)) + concat_pages(pv);
            &&& header_spec(file, model, field) == Some((root, pv.len() as u64, n))
            &&& file.len() == PAGE_SIZE * (pv.len() + 1)
            &&& forall|id: u64| id < pv.len() ==> page_at(file, id) == #[trigger] pv[id as int]
        }),
{
    let count = pv.len() as u64;
    let hb = header_bytes(model, field, root, count, n);
    let head = padded(hb);
    let file = head + concat_pages(pv);
    lemma_header_len(model, field, root, count, n);
    lemma_concat_pages(pv);
    assert(head.len() == PAGE_SIZE);
    assert(file.len() == PAGE_SIZE * (pv.len() + 1)) by (nonlinear_arith)
        requires
            file.len() == PAGE_SIZE + PAGE_SIZE * pv.len(),
    ;
    lemma_header_roundtrip(model, field, root, count, n, concat_pages(pv));
    assert forall|id: u64| id < pv.len() implies page_at(file, id) == #[trigger] pv[id as int] by {
        let i = id as int;
        assert(PAGE_SIZE * (id + 1) == PAGE_SIZE + PAGE_SIZE * i) by (nonlinear_arith)
            requires
                i == id,
        ;
        assert(PAGE_SIZE * (id + 2) == PAGE_SIZE + PAGE_SIZE * (i + 1)) by (nonlinear_arith)
            requires
                i == id,
        ;
        assert(PAGE_SIZE * (i + 1) <= PAGE_SIZE * pv.len()) by (nonlinear_arith)
            requires
                i + 1 <= pv.len(),
        ;
        assert(0 <= PAGE_SIZE * i) by (nonlinear_arith)
            requires
                0 <= i,
        ;
        assert(page_at(file, id) =~= concat_pages(pv).subrange(PAGE_SIZE * i, PAGE_SIZE * (i + 1)));
    }
}

proof fn lemma_sorted_subrange(es: Seq<EntryModel>, a: int, b: int)
    requires
        strictly_sorted(es),
        0 <= a <= b <= es.len(),
    ensures
        strictly_sorted(es.subrange(a, b)),
{
    let t = es.subrange(a, b);
    assert forall|i: int, j: int| 0 <= i < j < t.len() implies bytes_lt(t[i].0, t[j].0) by {
        assert(t[i] == es[a + i] && t[j] == es[a + j]);
    }
}

/// What page `p` of a well-built tree holds and how it reads back.
proof fn lemma_page_facts(es: Seq<EntryModel>, pv: Seq<Seq<u8>>, shapes: Seq<Shape>, m: int, p: int)
    requires
        pages_ok(es, pv, shapes, m),
        strictly_sorted(es),
        0 <= p < pv.len(),
    ensures
        shape_ok(es, shapes, p),
        pv[p].len() == PAGE_SIZE,
        shapes[p].leaf <==> p < m,
        p < m ==> pv[p][0] == PAGE_KIND_LEAF && parse_leaf_spec(pv[p]) == Some(
            (shapes[p].next, es.subrange(shapes[p].lo, shapes[p].hi)),
        ) && shapes[p].next == leaf_next(p, m),
        p >= m ==> pv[p][0] == PAGE_KIND_INTERNAL && parse_internal_spec(pv[p]) == Some((shapes[p].first, shapes[p].seps)),
{
    reveal(pages_ok);
    let s = shapes[p];
    assert(pv[p] == shape_bytes(es, s) && shape_ok(es, shapes, p));
    if p < m {
        lemma_sorted_subrange(es, s.lo, s.hi);
        lemma_leaf_roundtrip(es.subrange(s.lo, s.hi), s.next);
    } else {
        lemma_internal_roundtrip(s.first, s.seps);
    }
}

proof fn lemma_child_for(first: u64, seps: Seq<EntryModel>, k: Seq<u8>) -> (j: int)
    ensures
        0 <= j <= seps.len(),
        child_for(first, seps, k) == (if j == 0 { first } else { seps[j - 1].1 }),
        j > 0 ==> !bytes_lt(k, seps[j - 1].0),
        j < seps.len() ==> bytes_lt(k, seps[j].0),
    decreases seps.len(),
{
    if seps.len() == 0 || bytes_lt(k, seps[0].0) {
        0
    } else {
        let rest = seps.drop_first();
        let j2 = lemma_child_for(seps[0].1, rest, k);
        if j2 > 0 {
            assert(rest[j2 - 1] == seps[j2]);
        }
        if j2 < rest.len() {
            assert(rest[j2] == seps[j2 + 1]);
        }
        j2 + 1
    }
}

proof fn lemma_find_row_child(es: Seq<EntryModel>, k: Seq<u8>, lo: int, hi: int, clo: int, chi: int)
    requires
        strictly_sorted(es),
        0 <= lo <= clo < chi <= hi <= es.len(),
        clo > lo ==> !bytes_lt(k, es[clo].0),
        chi < hi ==> bytes_lt(k, es[chi].0),
    ensures
        find_row(es.subrange(lo, hi), k) == find_row(es.subrange(clo, chi), k),
{
    lemma_sorted_subrange(es, lo, hi);
    lemma_sorted_subrange(es, clo, chi);
    let outer = es.subrange(lo, hi);
    let inner = es.subrange(clo, chi);
    if exists|i: int| lo <= i < hi && es[i].0 == k {
        let i = choose|i: int| lo <= i < hi && es[i].0 == k;
        lemma_bytes_lt_irreflexive(k);
        if i < clo {
            assert(bytes_lt(es[i].0, es[clo].0));
        }
        if i >= chi {
            if i > chi {
                assert(bytes_lt(es[chi].0, es[i].0));
                lemma_bytes_lt_asymmetric(k, es[chi].0);
            }
        }
        assert(outer[i - lo] == es[i]);
        assert(inner[i - clo] == es[i]);
        lemma_find_row_at(outer, k, i - lo);
        lemma_find_row_at(inner, k, i - clo);
    } else {
        assert forall|i: int| 0 <= i < outer.len() implies (#[trigger] outer[i]).0 != k by {
            assert(outer[i] == es[lo + i]);
        }
        assert forall|i: int| 0 <= i < inner.len() implies (#[trigger] inner[i]).0 != k by {
            assert(inner[i] == es[clo + i]);
        }
        lemma_find_row_none(outer, k);
        lemma_find_row_none(inner, k);
    }
}

/// A lookup from page `p` of a well-built tree finds the key among the entries
/// that page covers.
proof fn lemma_lookup_walk(
    es: Seq<EntryModel>,
    pv: Seq<Seq<u8>>,
    shapes: Seq<Shape>,
    m: int,
    file: Seq<u8>,
    count: u64,
    p: int,
    k: Seq<u8>,
    fuel: nat,
)
    requires
        pages_ok(es, pv, shapes, m),
        strictly_sorted(es),
        count == pv.len(),
        forall|id: u64| id < pv.len() ==> page_at(file, id) == #[trigger] pv[id as int],
        0 <= p < pv.len(),
        fuel > p,
    ensures
        lookup_from(file, count, p as u64, k, fuel) == Some(find_row(es.subrange(shapes[p].lo, shapes[p].hi), k)),
    decreases p,
{
    lemma_page_facts(es, pv, shapes, m, p);
    assert(page_at(file, p as u64) == pv[p]);
    let s = shapes[p];
    if p >= m {
        let j = lemma_child_for(s.first, s.seps, k);
        let cs = children_of(s);
        let c = child_for(s.first, s.seps, k);
        assert(c == cs[j]) by {
            if j > 0 {
                assert(cs[j] == s.seps[j - 1].1);
            }
        }
        assert(cs[j] < p && shapes[cs[j] as int].lo == s.bounds[j] && shapes[cs[j] as int].hi == s.bounds[j + 1]);
        lemma_lookup_walk(es, pv, shapes, m, file, count, c as int, k, (fuel - 1) as nat);
        let clo = s.bounds[j];
        let chi = s.bounds[j + 1];
        assert(s.bounds[0] <= clo) by {
            if j > 0 {
                assert(s.bounds[0] < s.bounds[j]);
            }
        }
        assert(chi <= s.bounds[cs.len() as int]) by {
            if j + 1 < cs.len() {
                assert(s.bounds[j + 1] < s.bounds[cs.len() as int]);
            }
        }
        assert(clo < chi);
        if j > 0 {
            assert(s.seps[j - 1].0 == es[s.bounds[j]].0);
            assert(s.bounds[0] < s.bounds[j]);
        }
        if j < s.seps.len() {
            assert(s.seps[j].0 == es[s.bounds[j + 1]].0);
            assert(s.bounds[j + 1] < s.bounds[cs.len() as int]);
        }
        lemma_find_row_child(es, k, s.lo, s.hi, clo, chi);
    }
}

/// Going down first children from a page that covers the first entries reaches
/// the first leaf.
proof fn lemma_leftmost_walk(
    es: Seq<EntryModel>,
    pv: Seq<Seq<u8>>,
    shapes: Seq<Shape>,
    m: int,
    file: Seq<u8>,
    count: u64,
    p: int,
    fuel: nat,
)
    requires
        pages_ok(es, pv, shapes, m),
        strictly_sorted(es),
        count == pv.len(),
        forall|id: u64| id < pv.len() ==> page_at(file, id) == #[trigger] pv[id as int],
        0 <= p < pv.len(),
        shapes[p].lo == 0,
        fuel > p,
    ensures
        leftmost_from(file, count, p as u64, fuel) == Some(0u64),
    decreases p,
{
    lemma_page_facts(es, pv, shapes, m, p);
    assert(page_at(file, p as u64) == pv[p]);
    let s = shapes[p];
    if p < m {
        reveal(pages_ok);
        if p > 0 {
            if es.len() > 0 {
                assert(shapes[0].lo < shapes[p].lo);
            }
        }
    } else {
        let cs = children_of(s);
        assert(cs[0] == s.first);
        assert(cs[0] < p && shapes[cs[0] as int].lo == s.bounds[0]);
        lemma_leftmost_walk(es, pv, shapes, m, file, count, s.first as int, (fuel - 1) as nat);
    }
}

proof fn lemma_leaf_links(es: Seq<EntryModel>, pv: Seq<Seq<u8>>, shapes: Seq<Shape>, m: int, p: int)
    requires
        pages_ok(es, pv, shapes, m),
        0 <= p < m,
    ensures
        m <= pv.len(),
        shapes[0].lo == 0,
        es.len() == 0 ==> m == 1 && pv.len() == 1,
        p + 1 < m ==> shapes[p].hi == shapes[p + 1].lo,
        p + 1 == m ==> shapes[p].hi == es.len(),
{
    reveal(pages_ok);
    assert(shapes[p] == shapes[p]);
}

/// Following the leaf chain from leaf `p` gives the entries from the first one
/// that leaf holds to the last entry.
proof fn lemma_chain_walk(
    es: Seq<EntryModel>,
    pv: Seq<Seq<u8>>,
    shapes: Seq<Shape>,
    m: int,
    file: Seq<u8>,
    count: u64,
    p: int,
    fuel: nat,
)
    requires
        pages_ok(es, pv, shapes, m),
        strictly_sorted(es),
        count == pv.len(),
        pv.len() <= u64::MAX,
        forall|id: u64| id < pv.len() ==> page_at(file, id) == #[trigger] pv[id as int],
        0 <= p < m,
        fuel >= m - p,
    ensures
        leaf_chain(file, count, p as u64, fuel) == Some(es.subrange(shapes[p].lo, es.len() as int)),
    decreases m - p,
{
    lemma_leaf_links(es, pv, shapes, m, p);
    lemma_page_facts(es, pv, shapes, m, p);
    assert(page_at(file, p as u64) == pv[p]);
    if p + 1 < m {
        lemma_chain_walk(es, pv, shapes, m, file, count, p + 1, (fuel - 1) as nat);
        assert(shapes[p].hi == shapes[p + 1].lo);
        lemma_page_facts(es, pv, shapes, m, p + 1);
        assert(0 <= shapes[p].lo <= shapes[p].hi);
        assert(es.subrange(shapes[p].lo, shapes[p].hi) + es.subrange(shapes[p].hi, es.len() as int)
            =~= es.subrange(shapes[p].lo, es.len() as int));
    }
}

// ---------------------------------------------------------------------------
// Laws of the index file.
// ---------------------------------------------------------------------------

/// The row saved with value `v`, if one was.
pub open spec fn row_of(entries: Seq<(ValueModel, RowId)>, v: ValueModel) -> Option<RowId> {
    if exists|i: int| 0 <= i < entries.len() && (#[trigger] entries[i]).0 == v {
        Some(entries[choose|i: int| 0 <= i < entries.len() && (#[trigger] entries[i]).0 == v].1)
    } else {
        None
    }
}

/// `d` holds the same entries as `entries`, in increasing order of their keys.
pub open spec fn sorted_rows_of(d: Seq<(ValueModel, RowId)>, entries: Seq<(ValueModel, RowId)>) -> bool {
    &&& d.len() == entries.len()
    &&& forall|i: int, j: int| 0 <= i < j < d.len() ==> bytes_lt(enc_key(#[trigger] d[i].0), enc_key(#[trigger] d[j].0))
    &&& forall|x: (ValueModel, RowId)| d.contains(x) <==> entries.contains(x)
}

proof fn lemma_pages_counts(es: Seq<EntryModel>, pv: Seq<Seq<u8>>, shapes: Seq<Shape>, m: int)
    requires
        pages_ok(es, pv, shapes, m),
    ensures
        pv.len() == shapes.len(),
        1 <= m <= pv.len(),
{
    reveal(pages_ok);
}

proof fn lemma_pages_full(es: Seq<EntryModel>, pv: Seq<Seq<u8>>, shapes: Seq<Shape>, m: int)
    requires
        pages_ok(es, pv, shapes, m),
        strictly_sorted(es),
    ensures
        forall|i: int| 0 <= i < pv.len() ==> (#[trigger] pv[i]).len() == PAGE_SIZE,
        pv.len() == shapes.len(),
        1 <= m <= pv.len(),
{
    lemma_pages_counts(es, pv, shapes, m);
    assert forall|i: int| 0 <= i < pv.len() implies (#[trigger] pv[i]).len() == PAGE_SIZE by {
        lemma_page_facts(es, pv, shapes, m, i);
    }
}

/// The entry with key `k` is there exactly where an entry with the value that
/// `k` encodes was saved.
proof fn lemma_find_row_entries(es: Seq<EntryModel>, entries: Seq<(ValueModel, RowId)>, v: ValueModel)
    requires
        sorted_keys_of(es, entries),
        values_distinct(entries),
    ensures
        find_row(es, enc_key(v)) == row_of(entries, v),
{
    let mapped = entries.map_values(|e: (ValueModel, RowId)| keyed(e));
    let k = enc_key(v);
    if exists|i: int| 0 <= i < entries.len() && (#[trigger] entries[i]).0 == v {
        let i = choose|i: int| 0 <= i < entries.len() && (#[trigger] entries[i]).0 == v;
        assert(mapped[i] == keyed(entries[i]));
        assert(mapped.contains(mapped[i]));
        assert(es.contains(keyed(entries[i])));
        let j = choose|j: int| 0 <= j < es.len() && es[j] == keyed(entries[i]);
        lemma_find_row_at(es, k, j);
    } else {
        assert forall|j: int| 0 <= j < es.len() implies (#[trigger] es[j]).0 != k by {
            assert(es.contains(es[j]));
            assert(mapped.contains(es[j]));
            let i = choose|i: int| 0 <= i < mapped.len() && mapped[i] == es[j];
            assert(mapped[i] == keyed(entries[i]));
            lemma_key_injective(entries[i].0, v);
        }
        lemma_find_row_none(es, k);
    }
}

/// Looking a value up in an index file that `save_index` wrote for some entries
/// finds the row saved with that value, and no row for a value not saved.
pub proof fn lemma_lookup_after_save(
    file: Seq<u8>,
    model: Seq<char>,
    field: Seq<char>,
    entries: Seq<(ValueModel, RowId)>,
    v: ValueModel,
)
    requires
        index_file_of(file, model, field, entries),
    ensures
        lookup_spec(file, model, field, enc_key(v)) == Some(row_of(entries, v)),
{
    let (es, pv, shapes, m, root) = choose|es: Seq<EntryModel>, pv: Seq<Seq<u8>>, shapes: Seq<Shape>, m: int, root: int| {
        &&& values_distinct(entries)
        &&& sorted_keys_of(es, entries)
        &&& keys_fit(es)
        &&& tree_ok(es, pv, shapes, m, root)
        &&& header_fits(model, field)
        &&& pv.len() <= u64::MAX
        &&& es.len() <= usize::MAX
        &&& file == padded(header_bytes(model, field, root as u64, pv.len() as u64, es.len() as u64)) + concat_pages(pv)
    };
    lemma_pages_full(es, pv, shapes, m);
    lemma_leaf_links(es, pv, shapes, m, 0);
    lemma_file_layout(model, field, root as u64, es.len() as u64, pv);
    lemma_find_row_entries(es, entries, v);
    if es.len() > 0 {
        lemma_lookup_walk(es, pv, shapes, m, file, pv.len() as u64, root, enc_key(v), pv.len() as nat);
        assert(es.subrange(0, es.len() as int) =~= es);
    } else {
        assert(!(exists|i: int| 0 <= i < entries.len() && (#[trigger] entries[i]).0 == v));
    }
}

/// Loading an index file that `save_index` wrote for some entries gives back
/// those entries, sorted by key.
pub proof fn lemma_load_after_save(
    file: Seq<u8>,
    model: Seq<char>,
    field: Seq<char>,
    entries: Seq<(ValueModel, RowId)>,
)
    requires
        index_file_of(file, model, field, entries),
    ensures
        load_spec(file, model, field) is Some,
        sorted_rows_of(load_spec(file, model, field).unwrap(), entries),
{
    let (es, pv, shapes, m, root) = choose|es: Seq<EntryModel>, pv: Seq<Seq<u8>>, shapes: Seq<Shape>, m: int, root: int| {
        &&& values_distinct(entries)
        &&& sorted_keys_of(es, entries)
        &&& keys_fit(es)
        &&& tree_ok(es, pv, shapes, m, root)
        &&& header_fits(model, field)
        &&& pv.len() <= u64::MAX
        &&& es.len() <= usize::MAX
        &&& file == padded(header_bytes(model, field, root as u64, pv.len() as u64, es.len() as u64)) + concat_pages(pv)
    };
    let count = pv.len() as u64;
    lemma_pages_full(es, pv, shapes, m);
    lemma_leaf_links(es, pv, shapes, m, 0);
    lemma_file_layout(model, field, root as u64, es.len() as u64, pv);
    lemma_leftmost_walk(es, pv, shapes, m, file, count, root, count as nat);
    lemma_chain_walk(es, pv, shapes, m, file, count, 0, count as nat);
    assert(es.subrange(0, es.len() as int) =~= es);
    let mapped = entries.map_values(|e: (ValueModel, RowId)| keyed(e));
    // Each key is the key of a saved value, so it decodes to that value.
    assert forall|i: int| 0 <= i < es.len() implies exists|j: int| 0 <= j < entries.len() && #[trigger] es[i] == keyed(entries[j]) by {
        assert(es.contains(es[i]));
        assert(mapped.contains(es[i]));
        let j = choose|j: int| 0 <= j < mapped.len() && mapped[j] == es[i];
        assert(mapped[j] == keyed(entries[j]));
    }
    assert forall|i: int| 0 <= i < es.len() implies (#[trigger] dec_key(es[i].0)) is Some && enc_key(dec_key(es[i].0).unwrap()) == es[i].0 by {
        let j = choose|j: int| 0 <= j < entries.len() && #[trigger] es[i] == keyed(entries[j]);
        lemma_key_roundtrip(entries[j].0);
    }
    assert(all_decode(es));
    let d = decoded(es);
    assert(load_spec(file, model, field) == Some(d));
    assert forall|i: int, j: int| 0 <= i < j < d.len() implies bytes_lt(enc_key(#[trigger] d[i].0), enc_key(#[trigger] d[j].0)) by {
        assert(d[i].0 == dec_key(es[i].0).unwrap());
        assert(d[j].0 == dec_key(es[j].0).unwrap());
    }
    assert forall|x: (ValueModel, RowId)| d.contains(x) <==> entries.contains(x) by {
        if d.contains(x) {
            let i = choose|i: int| 0 <= i < d.len() && d[i] == x;
            let j = choose|j: int| 0 <= j < entries.len() && #[trigger] es[i] == keyed(entries[j]);
            lemma_key_roundtrip(entries[j].0);
            assert(entries[j] == x);
        }
        if entries.contains(x) {
            let j = choose|j: int| 0 <= j < entries.len() && entries[j] == x;
            assert(mapped[j] == keyed(entries[j]));
            assert(mapped.contains(keyed(x)));
            assert(es.contains(keyed(x)));
            let i = choose|i: int| 0 <= i < es.len() && es[i] == keyed(x);
            lemma_key_roundtrip(x.0);
            assert(d[i] == x);
        }
    }
}

} // verus!
