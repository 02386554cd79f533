//! A small key-value server core: the RESP frame codec, the RDB snapshot
//! decoder and the expiring, namespaced store.

pub mod codec;
pub mod command;
pub mod config;
pub mod decimal;
pub mod snapshot;
pub mod store;
pub mod table;
pub mod text;
pub mod wire_laws;
