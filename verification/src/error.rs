//! The failures that the library reports.

use vstd::prelude::*;

verus! {

/// Everything that can go wrong while parsing, building or storing a document.
#[derive(Debug)]
pub enum IksError {
    /// A resource limit was reached, or a size did not fit the machine word.
    NoMem,
    /// The input is not well-formed markup.
    BadXml,
    /// A hook reported a failure.
    Hook,
    /// A host name could not be resolved.
    NetNoDns,
    /// No socket could be made.
    NetNoSock,
    /// The connection could not be made.
    NetNoConn,
    /// Reading from or writing to the network failed.
    NetRwErr,
    /// The network operation is not supported.
    NetNotSupp,
    /// A TLS operation failed.
    NetTlsFail,
    /// The connection was dropped.
    NetDropped,
    /// A network failure of unknown kind.
    NetUnknown,
    /// The file does not exist.
    FileNoFile,
    /// The file may not be accessed.
    FileNoAccess,
    /// Reading from or writing to the file failed.
    FileRwErr,
    /// The storage layer failed; the text describes how.
    Io(String),
}

impl IksError {
    /// The text of the message that belongs to this failure.
    pub open spec fn message_text(self) -> Seq<char> {
        match self {
            IksError::NoMem => "Out of memory"@,
            IksError::BadXml => "Invalid XML"@,
            IksError::Hook => "Hook returned error"@,
            IksError::NetNoDns => "Network DNS error"@,
            IksError::NetNoSock => "Network socket error"@,
            IksError::NetNoConn => "Network connection error"@,
            IksError::NetRwErr => "Network read/write error"@,
            IksError::NetNotSupp => "Network operation not supported"@,
            IksError::NetTlsFail => "TLS operation failed"@,
            IksError::NetDropped => "Network connection dropped"@,
            IksError::NetUnknown => "Unknown network error"@,
            IksError::FileNoFile => "File not found"@,
            IksError::FileNoAccess => "File access denied"@,
            IksError::FileRwErr => "File read/write error"@,
            IksError::Io(detail) => "IO error: "@ + detail@,
        }
    }

    /// Renders the failure as a message for people.
    pub fn message(&self) -> (text: String)
        ensures
            text@ == self.message_text(),
    {
        match self {
            IksError::NoMem => "Out of memory".to_owned(),
            IksError::BadXml => "Invalid XML".to_owned(),
            IksError::Hook => "Hook returned error".to_owned(),
            IksError::NetNoDns => "Network DNS error".to_owned(),
            IksError::NetNoSock => "Network socket error".to_owned(),
            IksError::NetNoConn => "Network connection error".to_owned(),
            IksError::NetRwErr => "Network read/write error".to_owned(),
            IksError::NetNotSupp => "Network operation not supported".to_owned(),
            IksError::NetTlsFail => "TLS operation failed".to_owned(),
            IksError::NetDropped => "Network connection dropped".to_owned(),
            IksError::NetUnknown => "Unknown network error".to_owned(),
            IksError::FileNoFile => "File not found".to_owned(),
            IksError::FileNoAccess => "File access denied".to_owned(),
            IksError::FileRwErr => "File read/write error".to_owned(),
            IksError::Io(detail) => "IO error: ".to_owned().concat(detail.as_str()),
        }
    }
}

} // verus!
