//! A unified error type for everything returned by this crate.

use vstd::prelude::*;

verus! {

/// A unified error type for anything returned by a method in this crate.
///
/// The kinds form a closed taxonomy:
/// - `Protocol`: the JSON-RPC exchange itself was malformed or violated the
///   request/response contract (missing id, id mismatch, missing result,
///   empty pidfile, unexpected reply shape);
/// - `Serialize`: a payload failed to encode or decode as JSON;
/// - `Socket`: a transport-level failure (connect refused, broken pipe,
///   read error, missing socket file), carried as a message;
/// - `Timeout`: a configured bound elapsed while connecting or waiting;
/// - `Command`: the daemon explicitly reported an error for one command,
///   carrying the method name, the formatted parameter list and the
///   daemon's error text verbatim.
#[derive(Debug)]
#[non_exhaustive]
pub enum Error {
    /// Something in the jsonrpc protocol failed.
    Protocol(String),
    /// Serialization or deserialization of data failed.
    Serialize(String),
    /// An error occurred in the socket I/O handling.
    Socket(String),
    /// The connection timed out waiting for a response.
    Timeout,
    /// The remote peer returned an error for a command.
    Command {
        /// The method that was invoked.
        cmd: String,
        /// The parameters it was invoked with, joined by `", "`.
        params: String,
        /// The daemon's error text, verbatim.
        error: String,
    },
}

impl Error {
    /// True for transport-level failures: `Socket` and `Timeout`.
    pub fn is_transport(&self) -> (r: bool)
        ensures
            r == (self is Socket || self is Timeout),
    {
        match self {
            Error::Socket(_) => true,
            Error::Timeout => true,
            _ => false,
        }
    }

    /// True for protocol-level contract violations.
    pub fn is_protocol(&self) -> (r: bool)
        ensures
            r == (self is Protocol),
    {
        match self {
            Error::Protocol(_) => true,
            _ => false,
        }
    }

    /// True when the daemon itself reported the failure for a command.
    pub fn is_command(&self) -> (r: bool)
        ensures
            r == (self is Command),
    {
        match self {
            Error::Command { .. } => true,
            _ => false,
        }
    }
}

} // verus!
