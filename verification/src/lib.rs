//! Capture, reconstruction and indexing of byte-level read traces.
//!
//! A trace records every read and seek that a parser performs on a stream,
//! grouped into a tree of named spans. This crate holds the capture state
//! machines, the conversion of a captured span graph into an owned tree, the
//! offset accumulation that gives every node its byte range, the compact path
//! identifiers of tree nodes and the interval index that maps a byte offset
//! back to the spans that produced it.

pub mod capture;
pub mod hex;
pub mod path;
pub mod resolve;
pub mod trace;
pub mod tracer;
pub mod tree;
pub mod view;
pub mod viewer;
