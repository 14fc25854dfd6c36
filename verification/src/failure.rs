//! Why a call failed, and the message that says so.
use vstd::prelude::*;

use crate::text;

verus! {

/// Why a call failed. The texts are those of the errors that caused it.
#[derive(Debug)]
pub enum Failure {
    /// The call has no SQL text.
    MissingSql,
    /// The call has no list of statements.
    MissingStatements,
    /// The call names no table.
    MissingTable,
    /// The call has no connection string.
    MissingUrl,
    /// The call has no components of a connection string.
    MissingParts,
    /// The call names no identifier.
    MissingName,
    /// The call has no script.
    MissingScript,
    /// The connection string cannot be read.
    ParseUrl(String),
    /// The server at the address cannot be reached.
    Connect(String, String),
    /// The server refuses the connection.
    Handshake(String),
    /// A query failed.
    Query(String),
    /// The rows of a query cannot be read.
    ReadRows(String),
    /// A statement failed.
    Execute(String),
    /// A query without parameters failed.
    SimpleQuery(String),
    /// The rows of a query without parameters cannot be read.
    Read(String),
    /// A transaction cannot begin.
    Begin(String),
    /// A statement within a transaction failed.
    Statement(String),
    /// A transaction cannot be committed.
    Commit(String),
    /// The call panicked.
    Panicked,
}

impl Failure {
    /// The message.
    pub open spec fn text(self) -> Seq<char> {
        match self {
            Failure::MissingSql => "missing sql"@,
            Failure::MissingStatements => "missing statements array"@,
            Failure::MissingTable => "missing table"@,
            Failure::MissingUrl => "missing url"@,
            Failure::MissingParts => "missing parts object"@,
            Failure::MissingName => "missing name"@,
            Failure::MissingScript => "missing script"@,
            Failure::ParseUrl(e) => "parse url: "@ + e@,
            Failure::Connect(addr, e) => "connect "@ + addr@ + ": "@ + e@,
            Failure::Handshake(e) => "tds handshake: "@ + e@,
            Failure::Query(e) => "query: "@ + e@,
            Failure::ReadRows(e) => "read rows: "@ + e@,
            Failure::Execute(e) => "execute: "@ + e@,
            Failure::SimpleQuery(e) => "simple_query: "@ + e@,
            Failure::Read(e) => "read: "@ + e@,
            Failure::Begin(e) => "begin: "@ + e@,
            Failure::Statement(e) => "statement failed (rolled back): "@ + e@,
            Failure::Commit(e) => "commit: "@ + e@,
            Failure::Panicked => "stryke-mssql handler panicked"@,
        }
    }

    /// The message.
    pub fn message(&self) -> (r: String)
        ensures
            r@ == self.text(),
    {
        match self {
            Failure::MissingSql => "missing sql".to_string(),
            Failure::MissingStatements => "missing statements array".to_string(),
            Failure::MissingTable => "missing table".to_string(),
            Failure::MissingUrl => "missing url".to_string(),
            Failure::MissingParts => "missing parts object".to_string(),
            Failure::MissingName => "missing name".to_string(),
            Failure::MissingScript => "missing script".to_string(),
            Failure::ParseUrl(e) => text::concat("parse url: ", e),
            Failure::Connect(addr, e) => {
                let at = text::concat("connect ", addr);
                text::concat(&text::concat(&at, ": "), e)
            },
            Failure::Handshake(e) => text::concat("tds handshake: ", e),
            Failure::Query(e) => text::concat("query: ", e),
            Failure::ReadRows(e) => text::concat("read rows: ", e),
            Failure::Execute(e) => text::concat("execute: ", e),
            Failure::SimpleQuery(e) => text::concat("simple_query: ", e),
            Failure::Read(e) => text::concat("read: ", e),
            Failure::Begin(e) => text::concat("begin: ", e),
            Failure::Statement(e) => text::concat("statement failed (rolled back): ", e),
            Failure::Commit(e) => text::concat("commit: ", e),
            Failure::Panicked => "stryke-mssql handler panicked".to_string(),
        }
    }
}

} // verus!
