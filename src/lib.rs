//! Market candle ingestion and a small command language: the decisions and
//! data structures of the candle store, the market synchronisation engine,
//! the program interpreter and the reactor, stated and proved with Verus.
pub mod aggregator;
pub mod api;
pub mod ast;
pub mod builtin;
pub mod error;
pub mod exchange;
pub mod grammar;
pub mod interpretor;
pub mod lexer;
pub mod market;
pub mod reactor;
pub mod runtime;
pub mod store;
pub mod sync;
pub mod text;
