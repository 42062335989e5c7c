use vstd::prelude::*;

verus! {

/// Errors reported by the store and by the request dispatcher.
#[derive(Debug, PartialEq, Eq)]
pub enum KvsError {
    /// A file or socket operation failed; the text describes it.
    Io(String),
    /// A record could not be decoded.
    Serde(String),
    /// `remove` was called for a key that is not stored.
    KeyNotFound,
    /// The index pointed at a record that is not a `Set`.
    UnexpectedCommandType,
    /// An error that arrived as text, e.g. from a remote server.
    StringError(String),
}

pub type Result<T> = core::result::Result<T, KvsError>;

/// The text that describes an error.
pub open spec fn message_of(e: KvsError) -> Seq<char> {
    match e {
        KvsError::Io(m) => m@,
        KvsError::Serde(m) => m@,
        KvsError::KeyNotFound => seq!['K', 'e', 'y', ' ', 'n', 'o', 't', ' ', 'f', 'o', 'u', 'n', 'd'],
        KvsError::UnexpectedCommandType => seq![
            'U', 'n', 'e', 'x', 'p', 'e', 'c', 't', 'e', 'd', ' ', 'c', 'o', 'm', 'm', 'a', 'n',
            'd', ' ', 't', 'y', 'p', 'e',
        ],
        KvsError::StringError(m) => m@,
    }
}

impl KvsError {
    /// The text that describes this error.
    pub fn message(&self) -> (r: String)
        ensures
            r@ == message_of(*self),
    {
        match self {
            KvsError::Io(m) => m.clone(),
            KvsError::Serde(m) => m.clone(),
            KvsError::KeyNotFound => {
                let r = "Key not found".to_owned();
                proof {
                    reveal_strlit("Key not found");
                }
                assert(r@ =~= message_of(*self));
                r
            },
            KvsError::UnexpectedCommandType => {
                let r = "Unexpected command type".to_owned();
                proof {
                    reveal_strlit("Unexpected command type");
                }
                assert(r@ =~= message_of(*self));
                r
            },
            KvsError::StringError(m) => m.clone(),
        }
    }
}

} // verus!
