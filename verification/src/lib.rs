//! Verified core of a small family of text utilities.
//!
//! The heart of the crate is the position-list parser and the boundary-safe
//! extraction engine of a field/byte/character selection tool: a
//! comma-delimited list of 1-based positions and ranges is parsed into an
//! ordered list of half-open 0-based ranges, and one line of text at a time
//! is reduced to the bytes, characters or fields those ranges select.
//! Around it stand the verified computation cores of the sibling utilities:
//! line counting and numbering, word counts, head-style prefixes, and
//! consecutive-duplicate grouping.
//!
//! All I/O, command-line binding and output writing live outside this crate;
//! callers hand in plain values and receive plain values back.
#![verifier::loop_isolation(false)]

pub mod numbers;
pub mod scan;
pub mod position;
pub mod extract;
pub mod delim;
pub mod textfmt;
pub mod wordcount;
pub mod headcount;
pub mod numbering;
pub mod uniq;
pub mod entrymatch;
