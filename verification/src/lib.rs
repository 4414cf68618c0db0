//! The core of a gpfdist server.
//!
//! A gpfdist server hands data to the segments of a database, as a stream of frames. This crate
//! holds what the server decides and writes: reading requests, planning queries, keeping
//! sessions, framing. Whatever waits or touches the outside is left to the program around it.

pub mod df_engine;
pub mod frame;
pub mod http;
pub mod number;
pub mod order;
pub mod outside;
pub mod server;
pub mod session;
pub mod stream;
pub mod text;
pub mod util;
