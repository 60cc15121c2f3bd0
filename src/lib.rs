//! Front end of a small homoiconic expression language: a scanner that turns
//! source text into located tokens, a recursive-descent parser that builds
//! `Code` trees, and an order-independent map type that can nest inside them.

pub mod code;
pub mod map;
pub mod order;
pub mod parse;
pub mod queue;
pub mod text;
pub mod token;
