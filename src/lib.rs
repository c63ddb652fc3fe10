//! Reconstruction of transactions from erasure-coded block fragments.
//!
//! Fragments are grouped by FEC set until every data fragment is present or
//! enough data and code fragments are present to recover the rest (`fec`).
//! Completed sets are merged per slot, and each contiguous run of data
//! fragments closed by a batch-complete flag becomes a batch (`dispatch`). The
//! bytes of a batch are concatenated and walked entry by entry, each entry
//! stamped with the arrival time of the fragment where it begins (`batch`).
//! `layout` holds the fragment byte layout and `processor` the sizing, routing
//! and maintenance of the pipeline.

pub mod layout;
pub mod fec;
pub mod dispatch;
pub mod processor;
pub mod batch;
