//! A grammar-agnostic lexical scanner: a backtracking cursor over a character
//! source, a transition loop driven by a caller-supplied state machine, and an
//! ordered outbox of positioned tokens.

pub mod pos;
pub mod token;
pub mod cursor;
pub mod engine;
pub mod spaces;
