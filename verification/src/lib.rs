//! An incremental, resumable JSON decoder.
//!
//! The decoder parses a byte buffer with an iterative, stack-based state
//! machine: no recursion is used, so a decode can be suspended after any
//! parser step, its full state handed back to the caller as plain data,
//! and resumed later with results identical to an uninterrupted parse.
//!
//! * [`value`] holds the decoded value tree and its mathematical model.
//! * [`error`] holds the error taxonomy: every parse error carries the
//!   byte offset at which the problem was detected.
//! * [`sink`] holds the output-sink capability the parser drives, and a
//!   reference sink building the value tree.
//! * [`parser`] holds the structural scanner and the frame-stack state
//!   machine, each exec function proved against a spec-level twin, and
//!   the law that splitting a run at any budget cut-points cannot change
//!   its outcome ([`parser::lemma_resumption_idempotent`]).
//! * [`ser`] states the round-trip law: decoding the printed form of any
//!   value the sink can construct yields that value back, exactly
//!   ([`ser::lemma_round_trip`]).
//! * [`decoder`] holds the resumable decode protocol: begin, iterate
//!   under a step budget, and completion, with mutual exclusion on the
//!   parser handle.

pub mod decoder;
pub mod error;
pub mod parser;
pub mod ser;
pub mod sink;
pub mod value;
