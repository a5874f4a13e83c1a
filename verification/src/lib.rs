//! A dataization engine for a minimal object calculus: a static graph of
//! objects is reduced to a scalar by navigating the graph and opening
//! baskets, the activation records that give closures and recursion their
//! bindings.
//!
//! `semantics` says what an object denotes; `machine` says what the engine
//! does, step by step, to its baskets, caches and counters; `emu` and `atom`
//! are the engine, proved to do what `machine` says and to give what
//! `semantics` says. `lexer` and `parser` read the textual notation of a
//! graph, `code` holds the programs that stand in for the native operations,
//! and `laws` states what holds of the whole.
pub mod assoc;
pub mod atom;
pub mod basket;
pub mod code;
pub mod data;
pub mod emu;
pub mod fibo;
pub mod laws;
pub mod lexer;
pub mod loc;
pub mod machine;
pub mod object;
pub mod parser;
pub mod perf;
pub mod semantics;
