use crate::error::join;
use vstd::prelude::*;

verus! {

pub const INDEX_MANIFEST_VERSION: u8 = 1;
pub const CLEAN: u8 = 0;
pub const DIRTY: u8 = 1;

/// "CRUSTIXM", the first bytes of the index manifest.
pub open spec fn index_manifest_magic() -> Seq<u8> {
    seq![67u8, 82, 85, 83, 84, 73, 88, 77]
}

/// The index manifest with the given state byte.
pub open spec fn state_content(state: u8) -> Seq<u8> {
    index_manifest_magic() + seq![INDEX_MANIFEST_VERSION, state]
}

/// Whether an index manifest says the index files are clean: present, of this
/// version, and marked clean.
pub open spec fn clean_spec(file: Option<Seq<u8>>) -> bool {
    match file {
        None => false,
        Some(b) => b.len() == 10 && b.take(8) == index_manifest_magic() && b[8] == INDEX_MANIFEST_VERSION && b[9] == CLEAN,
    }
}

/// Where the index manifest lies, relative to the database directory.
pub fn manifest_path() -> (r: String)
    ensures
        r@ == "indexes/"@ + "manifest.crustix"@,
{
    join("indexes/", "manifest.crustix")
}

/// Whether the index files are marked clean.
pub fn is_clean(file: Option<&[u8]>) -> (r: bool)
    ensures
        r == clean_spec(match file { Some(b) => Some(b@), None => None }),
{
    let bytes = match file {
        None => {
            return false;
        },
        Some(bytes) => bytes,
    };
    if bytes.len() != 10 {
        return false;
    }
    let magic = vec![67u8, 82, 85, 83, 84, 73, 88, 77];
    let mut i: usize = 0;
    while i < 8
        invariant
            file == Some(bytes),
            bytes@.len() == 10,
            magic@ == index_manifest_magic(),
            i <= 8,
            forall|j: int| 0 <= j < i ==> bytes@[j] == magic@[j],
        decreases 8 - i,
    {
        if bytes[i] != magic[i] {
            assert(bytes@.take(8)[i as int] != index_manifest_magic()[i as int]);
            return false;
        }
        i = i + 1;
    }
    assert(bytes@.take(8) =~= index_manifest_magic());
    bytes[8] == INDEX_MANIFEST_VERSION && bytes[9] == CLEAN
}

/// The index manifest with the given state.
pub fn write_state(state: u8) -> (r: Vec<u8>)
    ensures
        r@ == state_content(state),
{
    let r = vec![67u8, 82, 85, 83, 84, 73, 88, 77, INDEX_MANIFEST_VERSION, state];
    assert(r@ =~= state_content(state));
    r
}

/// The index manifest that marks the index files dirty.
pub fn mark_dirty() -> (r: Vec<u8>)
    ensures
        r@ == state_content(DIRTY),
{
    write_state(DIRTY)
}

/// The index manifest that marks the index files clean.
pub fn mark_clean() -> (r: Vec<u8>)
    ensures
        r@ == state_content(CLEAN),
{
    write_state(CLEAN)
}

/// A manifest marked clean reads as clean; one marked dirty, or none, does not.
pub proof fn lemma_manifest_states()
    ensures
        clean_spec(Some(state_content(CLEAN))),
        !clean_spec(Some(state_content(DIRTY))),
        !clean_spec(None),
{
    assert(state_content(CLEAN).take(8) =~= index_manifest_magic());
    assert(state_content(DIRTY)[9] == DIRTY);
}

} // verus!
