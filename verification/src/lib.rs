//! A byte-pair-encoding tokenizer engine, verified with Verus.
//!
//! An engine composes an immutable vocabulary (byte sequence to rank) with a
//! caller-supplied split pattern. Text is split into chunks along the
//! pattern's matches; each chunk starts as singleton bytes and repeatedly
//! merges the leftmost lowest-rank adjacent pair whose concatenation the
//! vocabulary holds; the residue maps to ranks, which are the tokens.
//! Decoding reverses the rank mapping and validates the bytes as text.
//!
//! Every operation returns an explicit `Result`: the engine holds no hidden
//! error state, so concurrent use of one engine is safe and failures belong
//! to the call that produced them.

pub mod bytes;
pub mod engine;
pub mod errors;
pub mod laws;
pub mod merge;
pub mod split;
pub mod vocab;
