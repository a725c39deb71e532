//! The driver's error: a report range with no usable report at all.

use vstd::prelude::*;
use vstd::string::StringExecFns;
use crate::text::dec_spec;
use crate::text::format_value;

verus! {

/// Why a study run failed.
#[derive(PartialEq, Eq, Debug)]
pub enum StudyError {
    /// No report could be fetched anywhere in `[start, end)`.
    Coverage { start: u64, end: u64 },
}

/// The text of a coverage failure, naming both range bounds.
pub open spec fn coverage_message(start: int, end: int) -> Seq<char> {
    "no report available between "@ + dec_spec(start) + " and "@ + dec_spec(end)
}

impl StudyError {
    /// A descriptive message; for a coverage failure it names the failed
    /// range's bounds.
    pub fn message(&self) -> (r: String)
        ensures
            match self {
                StudyError::Coverage { start, end } => r@ == coverage_message(
                    *start as int,
                    *end as int,
                ),
            },
    {
        match self {
            StudyError::Coverage { start, end } => {
                let mut r = "no report available between ".to_owned();
                let s = format_value(*start);
                r.append(s.as_str());
                r.append(" and ");
                let e = format_value(*end);
                r.append(e.as_str());
                proof {
                    assert(r@ =~= coverage_message(*start as int, *end as int));
                }
                r
            },
        }
    }
}

} // verus!
