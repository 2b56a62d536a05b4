//! Error values a run can end with. A run either completes with full
//! statistics or terminates with exactly one of these.

use vstd::prelude::*;

verus! {

/// The ways a run can fail. `DuplicateColumns` is reported by rule
/// validation before any row is read; `ColumnOutOfRange` aborts a run on
/// the first row that is too short for some rule; `SourceParse` and
/// `SinkWrite` surface failures of the delimited-text codec.
#[derive(Clone, Copy, Debug, PartialEq, Eq, Structural)]
pub enum AnonError {
    /// Two or more rules target the same column; `duplicates` is the number
    /// of rules in excess of the distinct columns they target.
    DuplicateColumns { duplicates: usize },
    /// A row has `row_field_count` fields, too few for a rule targeting
    /// `column` (0-based).
    ColumnOutOfRange { column: usize, row_field_count: usize },
    /// A rule description did not match the `<column>:<category>` form.
    RuleParse,
    /// The input bytes were not a well-formed delimited record stream.
    SourceParse,
    /// The output record stream could not be encoded.
    SinkWrite,
}

} // verus!
