//! A small key-value server speaking the RESP wire protocol: the codec,
//! the command interpreter, the store with lazy expiry, and the decisions
//! of the connection event loop.

pub mod decimal;
pub mod resp;
pub mod command;
pub mod storage;
pub mod server;
pub mod reactor;
