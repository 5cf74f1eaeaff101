//! A line-oriented JSON-RPC client library for talking to a control daemon
//! over a stream transport, in the dialect used by OVS `unixctl` sockets.
//!
//! The crate provides:
//! - an error taxonomy ([`error::Error`]) separating protocol violations,
//!   (de)serialization failures, socket failures, timeouts and command errors;
//! - a verified codec ([`codec`]) for the wire format: one JSON object per
//!   message, `{"method":..,"params":[..],"id":..}` for requests and
//!   `{"result":..,"error":..,"id":..}` for responses;
//! - a transport abstraction and an RPC client ([`jsonrpc`]) that assigns
//!   strictly increasing request identifiers and correlates responses;
//! - the control-socket locator conventions ([`locator`]);
//! - command wrappers for a daemon's common commands ([`ovs`]).
//!
//! Actual socket I/O lives outside this crate: any type implementing
//! [`jsonrpc::Transport`] can carry the messages. [`loopback::ScriptTransport`]
//! is an in-memory transport for exercising the client.

pub mod codec;
pub mod error;
pub mod jsonrpc;
pub mod locator;
pub mod loopback;
pub mod ovs;
