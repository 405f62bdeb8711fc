//! A readiness-driven chat relay, written without any I/O of its own.
//!
//! The crate holds the decisions of a single-threaded chat server: the
//! per-connection protocol, the outbound queues, the table of live
//! connections and the fan-out of chat lines. A driver performs the socket
//! and poller calls that the server asks for and hands their results back.

pub mod connection;
pub mod io;
pub mod laws;
pub mod poller;
pub mod server;
pub mod table;
pub mod text;

pub use connection::{Connection, Phase, ReadEvent, WriteEvent};
pub use io::{would_block, AcceptResult, ErrorKind, ReadResult, WriteResult};
pub use poller::{Interest, PollerOp, Readiness, LISTENER};
pub use server::{Notice, Server, Step, Turn};
pub use table::{ConnectionTable, TableError};
