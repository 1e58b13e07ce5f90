//! A small storage stack: an order-preserving key codec, key/value engines,
//! snapshot-isolated multi-version transactions and a tiny SQL front end.

pub mod bytes;
pub mod error;
pub mod keycode;
pub mod keys;
pub mod engine;
pub mod memory;
pub mod values;
pub mod mvcc;
pub mod lexer;
pub mod types;
pub mod ast;
pub mod parser;
pub mod kv;
pub mod mutation;
pub mod log;
