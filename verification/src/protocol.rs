//! The request, response and error types shared by the storage engine,
//! the server and the client.

use vstd::prelude::*;
use vstd::string::StringExecFns;

verus! {

/// Mathematical form of a [`Command`]: keys and values as character sequences.
pub enum CmdModel {
    Put { key: Seq<char>, value: Seq<char> },
    Get { key: Seq<char> },
    Rm { key: Seq<char> },
}

/// A request: either store a value under a key, fetch the value of a key,
/// or remove a key.  `Set` and `Rm` are also the durable record forms that
/// make up the on-disk log; `Get` exists only on the wire.
#[derive(Clone, Debug, PartialEq, Eq)]
pub enum Command {
    Put { key: String, value: String },
    Get { key: String },
    Rm { key: String },
}

impl View for Command {
    type V = CmdModel;

    open spec fn view(&self) -> CmdModel {
        match self {
            Command::Put { key, value } => CmdModel::Put { key: key@, value: value@ },
            Command::Get { key } => CmdModel::Get { key: key@ },
            Command::Rm { key } => CmdModel::Rm { key: key@ },
        }
    }
}

/// Mathematical form of a [`Response`].
pub enum RespModel {
    SuccessSet,
    SuccessGet { value: Option<Seq<char>> },
    SuccessRm,
    Fail { message: Seq<char> },
}

/// A reply sent back over the wire: one success variant per command kind,
/// or a failure carrying a human-readable message.
#[derive(Clone, Debug, PartialEq, Eq)]
pub enum Response {
    SuccessSet,
    SuccessGet(Option<String>),
    SuccessRm,
    Fail(String),
}

impl View for Response {
    type V = RespModel;

    open spec fn view(&self) -> RespModel {
        match self {
            Response::SuccessSet => RespModel::SuccessSet,
            Response::SuccessGet(v) => RespModel::SuccessGet {
                value: match v {
                    Some(s) => Some(s@),
                    None => None,
                },
            },
            Response::SuccessRm => RespModel::SuccessRm,
            Response::Fail(m) => RespModel::Fail { message: m@ },
        }
    }
}

/// Everything that can go wrong inside the store or at its boundary.
#[derive(Clone, Debug, PartialEq, Eq)]
pub enum Error {
    /// An underlying file-system or socket failure, wrapped by the caller
    /// that performed the operation; the library itself never constructs it.
    IOError(String),
    /// A malformed record: a complete `#`-terminated frame that does not
    /// decode, found anywhere but at the very tail of the active segment.
    SerdeError(String),
    /// The index pointed at a record that is not a `Set`; internal
    /// corruption that a well-formed store never exhibits.
    ErrorLogMeet,
    /// `remove` was asked for a key that is not present.
    KeyNotFound,
    /// The engine named at startup disagrees with the data already on disk.
    EngineMismatch,
}

impl Error {
    /// A human-readable description, used for `Fail` replies and exit
    /// diagnostics.
    pub fn message(&self) -> (m: String)
        ensures
            self is KeyNotFound ==> m@ == "Key not found"@,
            self is ErrorLogMeet ==> m@ == "Error Log Meet"@,
            self is EngineMismatch ==> m@ == (
            "data was previously persisted with a different engine than selected")@,
    {
        match self {
            Error::IOError(s) => {
                let mut m = String::new();
                m.append("IOError: ");
                m.append(s.as_str());
                m
            },
            Error::SerdeError(s) => {
                let mut m = String::new();
                m.append("SerdeError: ");
                m.append(s.as_str());
                m
            },
            Error::ErrorLogMeet => String::from_str("Error Log Meet"),
            Error::KeyNotFound => String::from_str("Key not found"),
            Error::EngineMismatch => String::from_str(
                "data was previously persisted with a different engine than selected",
            ),
        }
    }
}

} // verus!
