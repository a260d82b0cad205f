//! A single-pass cutting engine for append-only binary trace logs: it
//! extracts the events of an inclusive timestamp window into a
//! smaller, independently valid trace, copying surviving records
//! verbatim and backfilling every referenced string definition exactly
//! once, ahead of its first use.
pub mod engine;
pub mod format;
pub mod laws;
pub mod model;

use vstd::prelude::*;

verus! {

/// Fatal errors of a cutting run.
#[derive(Debug, Clone, Copy, PartialEq, Eq)]
pub enum CutError {
    /// A record header that cannot be read or sized, or a record that
    /// does not decode; carries the byte offset of the record.
    Format { offset: usize },
    /// A surviving event references a string index never defined
    /// earlier in the input.
    DanglingReference { index: u16 },
}

} // verus!
