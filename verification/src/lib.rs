//! A conflict-free replicated whiteboard: stroke ordering, causal delivery,
//! garbage collection, wire formats, relay server and client logic.

pub mod agreement;
pub mod awareness;
pub mod bridge;
pub mod causal_buffer;
pub mod client;
pub mod compression;
pub mod connection;
pub mod convergence;
pub mod delivery;
pub mod demo;
pub mod document;
pub mod encoding;
pub mod error;
pub mod float;
pub mod gc;
pub mod labels;
pub mod metadata;
pub mod names;
pub mod operation;
pub mod protocol;
pub mod python;
pub mod rga;
pub mod room;
pub mod round_trip;
pub mod server;
pub mod session;
pub mod simplify;
pub mod snapshot;
pub mod stroke;
pub mod sync;
pub mod text;
pub mod truncation;
pub mod types;
pub mod wire;
