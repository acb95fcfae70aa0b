//! A typed dataflow graph engine.
//!
//! Computation nodes own typed input and output slots; an output fans out to
//! any number of inputs and an input accepts at most one output. The graph
//! keeps nodes and slots in dense storage, repairs every cross-reference on
//! removal, rejects cycles, and evaluates nodes in dependency order.
//!
//! Numeric payloads are carried as IEEE-754 binary64 bit patterns: the engine
//! stores and forwards them without interpreting them, and scalar arithmetic
//! is supplied by the caller.

pub mod types;
pub mod engine;
pub mod nodes;
pub mod managers;
