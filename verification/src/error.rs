//! Errors of the store and the status that a caller is answered with.
use vstd::prelude::*;
use vstd::string::*;

verus! {

/// What can go wrong inside the store. The text is the detail; I/O and database errors arrive
/// as the text that they print.
#[derive(Debug, PartialEq, Eq)]
pub enum KVError {
    Config(String),
    NotFound(String),
    AlreadyExists(String),
    Io(String),
    Metadata(String),
    RocksDb(String),
    InvalidArgument(String),
    Internal(String),
}

impl KVError {
    /// The detail that the error carries.
    pub open spec fn detail(self) -> Seq<char> {
        match self {
            KVError::Config(m) => m@,
            KVError::NotFound(m) => m@,
            KVError::AlreadyExists(m) => m@,
            KVError::Io(m) => m@,
            KVError::Metadata(m) => m@,
            KVError::RocksDb(m) => m@,
            KVError::InvalidArgument(m) => m@,
            KVError::Internal(m) => m@,
        }
    }

    /// What stands before the detail when the error is printed.
    pub open spec fn prefix(self) -> Seq<char> {
        match self {
            KVError::Config(_) => "config error: "@,
            KVError::NotFound(_) => "Key not found: "@,
            KVError::AlreadyExists(_) => "Key already exists: "@,
            KVError::Io(_) => "I/O error: "@,
            KVError::Metadata(_) => "metadata error: "@,
            KVError::RocksDb(_) => "RocksDB error: "@,
            KVError::InvalidArgument(_) => "invalid argument: "@,
            KVError::Internal(_) => "internal error: "@,
        }
    }

    /// The printed form of the error.
    pub fn message(&self) -> (r: String)
        ensures
            r@ == self.prefix() + self.detail(),
    {
        let (prefix, detail) = match self {
            KVError::Config(m) => ("config error: ", m),
            KVError::NotFound(m) => ("Key not found: ", m),
            KVError::AlreadyExists(m) => ("Key already exists: ", m),
            KVError::Io(m) => ("I/O error: ", m),
            KVError::Metadata(m) => ("metadata error: ", m),
            KVError::RocksDb(m) => ("RocksDB error: ", m),
            KVError::InvalidArgument(m) => ("invalid argument: ", m),
            KVError::Internal(m) => ("internal error: ", m),
        };
        let mut out = prefix.to_owned();
        out.append(detail.as_str());
        out
    }
}

/// Outcome classes of a remote call.
#[derive(Debug, Clone, Copy, PartialEq, Eq, Structural)]
pub enum Code {
    Cancelled,
    Unknown,
    InvalidArgument,
    DeadlineExceeded,
    NotFound,
    AlreadyExists,
    PermissionDenied,
    ResourceExhausted,
    FailedPrecondition,
    Aborted,
    OutOfRange,
    Unimplemented,
    Internal,
    Unavailable,
    DataLoss,
    Unauthenticated,
}

/// What a refused call is answered with.
#[derive(Debug, PartialEq, Eq)]
pub struct Status {
    pub code: Code,
    pub message: String,
}

impl Status {
    /// The status has this code and this text.
    pub open spec fn says(self, code: Code, message: Seq<char>) -> bool {
        self.code == code && self.message@ == message
    }

    pub fn new(code: Code, message: &str) -> (r: Status)
        ensures
            r.says(code, message@),
    {
        Status { code, message: message.to_owned() }
    }
}

/// The status that an error of the store is reported as: the three errors that speak of the
/// caller's own request keep their detail, any other is internal and is printed in full.
pub open spec fn status_of(e: KVError) -> (Code, Seq<char>) {
    match e {
        KVError::NotFound(m) => (Code::NotFound, m@),
        KVError::AlreadyExists(m) => (Code::AlreadyExists, m@),
        KVError::InvalidArgument(m) => (Code::InvalidArgument, m@),
        other => (Code::Internal, other.prefix() + other.detail()),
    }
}

/// Turns an error into the status for the caller.
pub fn to_status(e: KVError) -> (r: Status)
    ensures
        r.says(status_of(e).0, status_of(e).1),
{
    let text = e.message();
    match e {
        KVError::NotFound(m) => Status { code: Code::NotFound, message: m },
        KVError::AlreadyExists(m) => Status { code: Code::AlreadyExists, message: m },
        KVError::InvalidArgument(m) => Status { code: Code::InvalidArgument, message: m },
        _ => Status { code: Code::Internal, message: text },
    }
}

} // verus!
