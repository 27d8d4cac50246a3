//! A FastCGI responder engine.
//!
//! The crate holds the protocol itself and touches no socket. A driver reads
//! bytes from the web server, hands them to a [`connection::Connection`],
//! sends the bytes it gets back, and runs the handler when it is told to.
//!
//! - [`wire`]: the record header, whole records, and the fixed record bodies.
//! - [`params`]: the name-value encoding of parameters.
//! - [`param_map`]: the parameters of a request, as an ordered map.
//! - [`response`]: the two output streams of a request, cut into records.
//! - [`request`]: the state machine of one request.
//! - [`trace`]: what holds of every run of a request.
//! - [`management`]: the answers to management records.
//! - [`connection`]: one connection, which serves one request at a time.
//! - [`transport`]: what the accept loop and the sockets decide.

pub mod error;
pub mod wire;
pub mod params;
pub mod param_map;
pub mod response;
pub mod request;
pub mod trace;
pub mod management;
pub mod connection;
pub mod transport;
