//! A verified chat relay core: a length-prefixed wire codec for chat
//! messages, the broadcast hub's registry and fan-out rules, the handshake
//! and connection-reader decision logic, the offline-backlog resolver, and
//! a few verified text utilities that ship with the relay's tooling.
//!
//! All socket, database and terminal I/O lives outside this crate; the
//! functions here compute over plain values and carry contracts that state
//! exactly what they return.

pub mod backlog;
pub mod chaos;
pub mod codec;
pub mod csv;
pub mod handshake;
pub mod hub;
pub mod metrics;
pub mod net;
pub mod operation;
pub mod reader;
pub mod seq_facts;
pub mod spf;
pub mod strutil;
pub mod textops;
