//! A single-producer, single-consumer byte-message pipe over a filesystem
//! directory.
//!
//! The pipe keeps its persistent state in one directory: a `manifest` file
//! holding a timestamp watermark, and one uniquely named data file per
//! pending message.  This crate holds the verified core: the manifest
//! codec and its recovery rule, the delivery-order selection among pending
//! records, the cursor discipline of a pipe handle, and the suspend/wake
//! protocol of the asynchronous adapter.  The filesystem calls themselves
//! are performed by the embedding program, which feeds their results
//! (bytes, directory listings, clock readings) to these functions as plain
//! values.

pub mod adapter;
pub mod engine;
pub mod manifest;
