use crustdb_core::engine::RowId;
use crustdb_core::index::file::{
    index_path, load_index, lookup_index, lookup_step, read_header, save_index, start_lookup, LookupStep, PAGE_SIZE,
};
use crustdb_core::value::Value;

#[test]
fn index_file_roundtrips_sorted_entries() {
    let entries = vec![
        (Value::String("bob".to_string()), 2),
        (Value::String("alice".to_string()), 1),
    ];

    let file = save_index("User", "username", &entries).unwrap();
    let loaded = load_index(Some(&file), "User", "username").unwrap();

    assert_eq!(
        loaded,
        vec![
            (Value::String("alice".to_string()), 1),
            (Value::String("bob".to_string()), 2)
        ]
    );
}

#[test]
fn btree_index_lookup_traverses_multiple_pages() {
    let entries = (0..500)
        .rev()
        .map(|value| (Value::Int(value), value as RowId + 10))
        .collect::<Vec<_>>();

    let file = save_index("User", "id", &entries).unwrap();

    assert_eq!(
        lookup_index(Some(&file), "User", "id", &Value::Int(0)).unwrap(),
        Some(10)
    );
    assert_eq!(
        lookup_index(Some(&file), "User", "id", &Value::Int(249)).unwrap(),
        Some(259)
    );
    assert_eq!(
        lookup_index(Some(&file), "User", "id", &Value::Int(499)).unwrap(),
        Some(509)
    );
    assert_eq!(
        lookup_index(Some(&file), "User", "id", &Value::Int(500)).unwrap(),
        None
    );

    let header = read_header(&file, "User", "id").unwrap();
    assert!(header.page_count > 1);
}

#[test]
fn empty_index_roundtrips_and_lookup_returns_none() {
    let file = save_index("User", "username", &[]).unwrap();

    assert_eq!(load_index(Some(&file), "User", "username").unwrap(), vec![]);
    assert_eq!(
        lookup_index(
            Some(&file),
            "User",
            "username",
            &Value::String("alice".to_string())
        )
        .unwrap(),
        None
    );
}

#[test]
fn corrupt_index_file_returns_storage_format_error() {
    assert_eq!(index_path("User", "id"), "indexes/User/id.idx");
    let file = b"not-an-index".to_vec();

    let err = load_index(Some(&file), "User", "id").unwrap_err();

    assert!(err.to_string().contains("Storage format error"));
}

#[test]
fn missing_index_file_is_a_storage_format_error() {
    let err = load_index(None, "User", "id").unwrap_err();
    assert_eq!(err.to_string(), "Storage format error: missing index file: User.id");
    let err = lookup_index(None, "User", "id", &Value::Int(1)).unwrap_err();
    assert_eq!(err.to_string(), "Storage format error: missing index file: User.id");
}

#[test]
fn many_entries_roundtrip_through_several_levels() {
    let entries = (0..3000)
        .map(|value| (Value::String(format!("user-{value:05}-{}", "x".repeat(40))), value as RowId))
        .collect::<Vec<_>>();
    let file = save_index("User", "username", &entries).unwrap();
    let header = read_header(&file, "User", "username").unwrap();
    assert_eq!(header.entry_count, 3000);
    assert_eq!(file.len() as u64, 4096 * (header.page_count + 1));
    let loaded = load_index(Some(&file), "User", "username").unwrap();
    assert_eq!(loaded, entries);
    for probe in [0usize, 1, 1234, 2999] {
        let (value, row_id) = &entries[probe];
        assert_eq!(lookup_index(Some(&file), "User", "username", value).unwrap(), Some(*row_id));
    }
    assert_eq!(
        lookup_index(Some(&file), "User", "username", &Value::String("user".to_string())).unwrap(),
        None
    );
}

#[test]
fn header_names_the_index_it_belongs_to() {
    let file = save_index("User", "id", &[(Value::Int(1), 1)]).unwrap();
    assert_eq!(&file[..8], b"CRUSTBT1");
    assert_eq!(file[8], 1);
    let err = load_index(Some(&file), "User", "username").unwrap_err();
    assert_eq!(
        err.to_string(),
        "Storage format error: index file identity mismatch: expected User.username, got User.id"
    );
    let header = read_header(&file, "User", "id").unwrap();
    assert_eq!((header.root_page_id, header.page_count, header.entry_count), (0, 1, 1));
}

#[test]
fn duplicate_values_cannot_be_saved() {
    let err = save_index("User", "id", &[(Value::Int(1), 1), (Value::Int(1), 2)]).unwrap_err();
    assert_eq!(err.to_string(), "Storage format error: duplicate key in index entries");
}

#[test]
fn a_key_too_large_for_a_page_cannot_be_saved() {
    let big = Value::String("y".repeat(5000));
    let err = save_index("User", "username", &[(big.clone(), 1)]).unwrap_err();
    assert!(err.to_string().starts_with("Storage format error: "));
    assert_eq!(err.to_string(), "Storage format error: index key is too large for a leaf page");
    let huge = Value::String("y".repeat(70_000));
    let err = save_index("User", "username", &[(big, 1), (huge, 2)]).unwrap_err();
    assert_eq!(err.to_string(), "Storage format error: index key is too large for a leaf page");
    let err = save_index("User", "username", &[(Value::String("z".repeat(70_000)), 1)]).unwrap_err();
    assert_eq!(err.to_string(), "Storage format error: index key length is too large for this storage format");
    let fits = Value::String("y".repeat(4072));
    let file = save_index("User", "username", &[(fits.clone(), 1)]).unwrap();
    assert_eq!(lookup_index(Some(&file), "User", "username", &fits).unwrap(), Some(1));
}

#[test]
fn truncated_or_damaged_files_are_refused() {
    let file = save_index("User", "id", &[(Value::Int(1), 1), (Value::Int(2), 2)]).unwrap();
    let err = load_index(Some(&file[..4096]), "User", "id").unwrap_err();
    assert!(err.to_string().contains("index file length mismatch"));
    let mut damaged = file.clone();
    damaged[4096] = 9;
    let err = lookup_index(Some(&damaged), "User", "id", &Value::Int(1)).unwrap_err();
    assert_eq!(err.to_string(), "Storage format error: unknown index page kind: 9");
    let err = load_index(Some(&damaged), "User", "id").unwrap_err();
    assert_eq!(err.to_string(), "Storage format error: unknown index page kind: 9");
}

#[test]
fn header_errors_name_the_first_check_that_fails() {
    let file = save_index("User", "id", &[(Value::Int(1), 1)]).unwrap();
    let message = |b: &[u8]| read_header(b, "User", "id").unwrap_err().to_string();
    assert_eq!(message(b"not-an-index"), "Storage format error: index file is smaller than the header page");
    assert_eq!(message(&vec![0u8; 8192]), "Storage format error: invalid index file magic");
    let mut b = file.clone();
    b[8] = 2;
    assert_eq!(message(&b), "Storage format error: unsupported index file version: 2");
    let mut b = file.clone();
    b[10] = 0x20;
    assert_eq!(message(&b), "Storage format error: unsupported index page size: 8192");
    let mut b = file.clone();
    b[21] = 0;
    assert_eq!(message(&b), "Storage format error: index file has no pages");
    let mut b = file.clone();
    b.extend_from_slice(&[0u8; 4096]);
    assert_eq!(message(&b), "Storage format error: index file length mismatch: expected 8192, got 12288");
}

#[test]
fn leaf_errors_name_the_first_check_that_fails() {
    let file = save_index("User", "id", &[(Value::Int(1), 1), (Value::Int(2), 2)]).unwrap();
    let mut b = file.clone();
    // used length of the leaf page below its header
    b[4096 + 3] = 2;
    b[4096 + 4] = 0;
    let err = load_index(Some(&b), "User", "id").unwrap_err();
    assert_eq!(err.to_string(), "Storage format error: invalid index page used length: 2");
    let mut b = file.clone();
    // one entry fewer than the page holds: its bytes are left over
    b[4096 + 1] = 1;
    let err = lookup_index(Some(&b), "User", "id", &Value::Int(1)).unwrap_err();
    assert_eq!(err.to_string(), "Storage format error: leaf index page has trailing bytes");
}

#[test]
fn leaves_are_filled_greedily_in_key_order() {
    let entries: Vec<(Value, RowId)> = (0..300).map(|i| (Value::Int(i), i as RowId + 1)).collect();
    let file = save_index("User", "id", &entries).unwrap();
    // The first leaf takes as many 19-byte entries as fit after its 13-byte head.
    assert_eq!(file[4096], 1);
    assert_eq!(u16::from_le_bytes([file[4097], file[4098]]), 214);
    assert_eq!(file[8192], 1);
    assert_eq!(u16::from_le_bytes([file[8193], file[8194]]), 86);
    // One internal page over both leaves, numbered after them, is the root.
    let header = read_header(&file, "User", "id").unwrap();
    assert_eq!((header.root_page_id, header.page_count, header.entry_count), (2, 3, 300));
    assert_eq!(file.len(), 4 * 4096);
    assert_eq!(file[3 * 4096], 2);
    assert_eq!(u16::from_le_bytes([file[3 * 4096 + 1], file[3 * 4096 + 2]]), 2);
}

/// Looks `value` up one page at a time, counting the pages read after the header.
fn walk(file: &[u8], model: &str, field: &str, value: &Value) -> (Result<Option<RowId>, crustdb_core::error::CrustDbError>, usize) {
    let header = &file[..file.len().min(PAGE_SIZE)];
    let (mut walk, mut step) = match start_lookup(header, file.len() as u64, model, field, value) {
        Ok(started) => started,
        Err(e) => return (Err(e), 0),
    };
    let mut pages = 0;
    loop {
        match step {
            LookupStep::Done(found) => return (Ok(found), pages),
            LookupStep::Read(id) => {
                pages += 1;
                let at = (id as usize + 1) * PAGE_SIZE;
                step = match lookup_step(&mut walk, &file[at..at + PAGE_SIZE]) {
                    Ok(next) => next,
                    Err(e) => return (Err(e), pages),
                };
            }
        }
    }
}

#[test]
fn a_lookup_page_by_page_reads_one_page_per_level() {
    let entries = (0..2000).map(|v| (Value::Int(v), v as RowId + 1)).collect::<Vec<_>>();
    let file = save_index("User", "id", &entries).unwrap();
    let page_count = read_header(&file, "User", "id").unwrap().page_count;
    for v in [0i64, 1, 999, 1999, 2000, -5] {
        let (found, pages) = walk(&file, "User", "id", &Value::Int(v));
        assert_eq!(found.unwrap(), lookup_index(Some(&file), "User", "id", &Value::Int(v)).unwrap());
        assert!(pages >= 2);
        assert!((pages as u64) < page_count);
    }
    assert_eq!(walk(&file, "User", "id", &Value::Int(1234)).0.unwrap(), Some(1235));
}

#[test]
fn a_lookup_page_by_page_fails_as_the_whole_file_does() {
    let empty = save_index("User", "id", &[]).unwrap();
    let (found, pages) = walk(&empty, "User", "id", &Value::Int(1));
    assert_eq!(found.unwrap(), None);
    assert_eq!(pages, 0);
    let file = save_index("User", "id", &[(Value::Int(1), 1)]).unwrap();
    let (found, pages) = walk(&file, "User", "name", &Value::Int(1));
    assert_eq!(found.unwrap_err().to_string(), lookup_index(Some(&file), "User", "name", &Value::Int(1)).unwrap_err().to_string());
    assert_eq!(pages, 0);
    let (short, _) = walk(&file[..100], "User", "id", &Value::Int(1));
    assert_eq!(short.unwrap_err().to_string(), "Storage format error: index file is smaller than the header page");
    let mut bad = file.clone();
    bad[4096] = 9;
    let (found, pages) = walk(&bad, "User", "id", &Value::Int(1));
    assert_eq!(found.unwrap_err().to_string(), "Storage format error: unknown index page kind: 9");
    assert_eq!(pages, 1);
}
