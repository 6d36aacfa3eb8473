//! A verified client library for a parking-garage occupancy API.
//!
//! The library holds the pure part of a fetch/parse/print pipeline: the
//! error taxonomy, a JSON codec for the garage payload, the line
//! formatter, and the pipeline decisions.  The network call itself lives
//! outside, in the accompanying binary.
//!
//! Two points the payload leaves open are settled here: the collection
//! holds any number of garages, not a fixed count; and the canonical
//! presentation is one line per garage, the name, a tab, and the occupied
//! count over the capacity with a caller-chosen delimiter.

pub mod encode;
pub mod error;
pub mod ext;
pub mod garage;
pub mod grammar;
pub mod laws;
pub mod parse;
pub mod pipeline;
pub mod present;

