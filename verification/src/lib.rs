//! # crenel
//!
//! Static file serving: the decisions of a file server, each with a contract that Verus proves.
//! Nothing here performs I/O. A caller does the reads, opens and writes that the library names,
//! and hands the results back.
//!
//! - [`pipeline`]: classification of a request target in one decode-once pass;
//! - [`root`], [`walk`], [`resolve`]: which docroots may be served, what is opened below them,
//!   and what the results mean;
//! - [`sidecar`], [`semantics`], [`headers`], [`redirect`]: negotiation, conditional and range
//!   requests, and header values;
//! - [`io`]: admission of reader tasks, reads, chunks and writes of a body;
//! - [`serve`]: the boot of a server and the exchange that answers a request;
//! - [`config`], [`args`], [`counters`]: what surrounds them.
//!
//! Strings are modelled by their characters; [`text`], [`paths`] and [`numeral`] hold what
//! parsers and header values are written in. Functions whose names start with `law_` state what holds of
//! the library across its operations.

pub mod args;
pub mod config;
pub mod counters;
pub mod headers;
pub mod io;
pub mod laws;
pub mod numeral;
pub mod paths;
pub mod pipeline;
pub mod redirect;
pub mod resolve;
pub mod root;
pub mod semantics;
pub mod serve;
pub mod sidecar;
pub mod text;
pub mod walk;
