use crate::error::{join, CrustDbError, Result};
use crate::text::{decimal, int_text};
use vstd::bytes::{spec_u32_from_le_bytes, spec_u32_to_le_bytes};
use vstd::prelude::*;

verus! {

/// The storage format this engine reads and writes.
pub const FORMAT_VERSION: u32 = 1;

/// "CRUSTMF1", the first bytes of the storage manifest.
pub open spec fn manifest_magic() -> Seq<u8> {
    seq![67u8, 82, 85, 83, 84, 77, 70, 49]
}

/// The storage manifest: its magic, then the format version.
pub open spec fn manifest_content() -> Seq<u8> {
    manifest_magic() + spec_u32_to_le_bytes(FORMAT_VERSION)
}

/// Why a storage manifest is refused, if it is.
pub open spec fn manifest_error(b: Seq<u8>) -> Option<Seq<char>> {
    if b.len() != 12 {
        Some("invalid manifest length"@)
    } else if b.take(8) != manifest_magic() {
        Some("invalid manifest magic"@)
    } else if spec_u32_from_le_bytes(b.skip(8)) != FORMAT_VERSION {
        Some("unsupported storage format version: "@ + decimal(spec_u32_from_le_bytes(b.skip(8)) as int))
    } else {
        None
    }
}

/// The bytes of a new storage manifest.
pub fn manifest_bytes() -> (r: Vec<u8>)
    ensures
        r@ == manifest_content(),
{
    let mut out = vec![67u8, 82, 85, 83, 84, 77, 70, 49];
    crate::storage::record::write_u32(&mut out, FORMAT_VERSION);
    assert(out@ =~= manifest_content());
    out
}

/// Checks the storage manifest: when there is none, the bytes to create it; when
/// there is one, it must be this format's.
pub fn load_or_create(existing: Option<&[u8]>) -> (r: Result<Option<Vec<u8>>>)
    ensures
        match existing {
            None => r matches Ok(Some(b)) && b@ == manifest_content(),
            Some(b) => match manifest_error(b@) {
                None => r matches Ok(None),
                Some(m) => r matches Err(CrustDbError::StorageFormat(x)) && x@ == m,
            },
        },
{
    let bytes = match existing {
        None => {
            return Ok(Some(manifest_bytes()));
        },
        Some(bytes) => bytes,
    };
    if bytes.len() != 12 {
        return Err(CrustDbError::format("invalid manifest length"));
    }
    let mut i: usize = 0;
    let magic = vec![67u8, 82, 85, 83, 84, 77, 70, 49];
    while i < 8
        invariant
            existing == Some(bytes),
            bytes@.len() == 12,
            magic@ == manifest_magic(),
            i <= 8,
            forall|j: int| 0 <= j < i ==> bytes@[j] == magic@[j],
        decreases 8 - i,
    {
        if bytes[i] != magic[i] {
            assert(bytes@.take(8)[i as int] != manifest_magic()[i as int]);
            return Err(CrustDbError::format("invalid manifest magic"));
        }
        i = i + 1;
    }
    assert(bytes@.take(8) =~= manifest_magic());
    let tail = vstd::slice::slice_subrange(bytes, 8, 12);
    assert(tail@ =~= bytes@.skip(8));
    let version = vstd::bytes::u32_from_le_bytes(tail);
    if version != FORMAT_VERSION {
        let text = int_text(version as i64);
        return Err(CrustDbError::StorageFormat(join("unsupported storage format version: ", text.as_str())));
    }
    Ok(None)
}

} // verus!
