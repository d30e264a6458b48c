use vstd::prelude::*;

verus! {

/// The errors of the engine and of its storage formats.
#[derive(Debug)]
pub enum CrustDbError {
    Validation(String),
    UniqueConstraint(String),
    IncompatibleSchema(String),
    UnknownModel(String),
    StorageFormat(String),
    /// A failure of the file system underneath, with its description.
    Storage(String),
}

pub type Result<T> = core::result::Result<T, CrustDbError>;

/// The text shown for an error.
pub open spec fn error_text(e: CrustDbError) -> Seq<char> {
    match e {
        CrustDbError::Validation(m) => m@,
        CrustDbError::UniqueConstraint(m) => m@,
        CrustDbError::IncompatibleSchema(m) => m@,
        CrustDbError::UnknownModel(m) => "Unknown model: "@ + m@,
        CrustDbError::StorageFormat(m) => "Storage format error: "@ + m@,
        CrustDbError::Storage(m) => "Storage error: "@ + m@,
    }
}

/// `prefix` followed by `rest`, as a new string.
pub fn join(prefix: &str, rest: &str) -> (r: String)
    ensures
        r@ == prefix@ + rest@,
{
    let s = prefix.to_string();
    proof {
        broadcast use vstd::string::group_string_axioms;
    }
    s.concat(rest)
}

impl CrustDbError {
    /// The text of the error, as its `Display` would show it.
    pub fn to_string(&self) -> (r: String)
        ensures
            r@ == error_text(*self),
    {
        match self {
            CrustDbError::Validation(m) => m.clone(),
            CrustDbError::UniqueConstraint(m) => m.clone(),
            CrustDbError::IncompatibleSchema(m) => m.clone(),
            CrustDbError::UnknownModel(m) => join("Unknown model: ", m.as_str()),
            CrustDbError::StorageFormat(m) => join("Storage format error: ", m.as_str()),
            CrustDbError::Storage(m) => join("Storage error: ", m.as_str()),
        }
    }

    /// A storage format error with the given message.
    pub fn format(message: &str) -> (r: CrustDbError)
        ensures
            r matches CrustDbError::StorageFormat(m) && m@ == message@,
    {
        let m = message.to_string();
        proof {
            broadcast use vstd::string::group_string_axioms;
        }
        CrustDbError::StorageFormat(m)
    }
}

} // verus!
