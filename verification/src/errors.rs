use vstd::prelude::*;

verus! {

/// Errors surfaced by the timesheet core.
///
/// `FormatError`: a duration or date string does not match its grammar.
/// `ParseError`: a report line is malformed; carries the 1-based line number.
/// `DivisionError`: a per-day pace was requested but no working days remain.
#[derive(Debug, Clone, Copy, PartialEq, Eq, Structural)]
pub enum HoursError {
    FormatError,
    ParseError { line: usize },
    DivisionError,
}

impl HoursError {
    /// A short human-readable description, since the error type itself
    /// carries no `Display` implementation.
    pub fn describe(&self) -> (r: &'static str)
        ensures
            r@ == match self {
                HoursError::FormatError => "malformed duration or date"@,
                HoursError::ParseError { .. } => "malformed report line"@,
                HoursError::DivisionError => "no working days remain"@,
            },
    {
        proof {
            reveal_strlit("malformed duration or date");
            reveal_strlit("malformed report line");
            reveal_strlit("no working days remain");
        }
        match self {
            HoursError::FormatError => "malformed duration or date",
            HoursError::ParseError { .. } => "malformed report line",
            HoursError::DivisionError => "no working days remain",
        }
    }
}

} // verus!
