//! What the operations of the library are for, stated of their inputs and results.
//!
//! Each law here speaks of texts, bytes and numbers as such: what a header written in a given
//! way asks for, which status answers it, where a path leads. Where another module says what a
//! function computes, these say what has to come out.

pub mod texts;
pub mod ranges;
pub mod conditions;
pub mod negotiation;
pub mod targets;
pub mod opens;
pub mod exchanges;
pub mod media;
pub mod locations;
pub mod mounts;
pub mod arguments;
pub mod streams;
pub mod roots;
pub mod outside;
pub mod boots;
