//! Selectors: pure extraction of an optional value from one report.

use vstd::prelude::*;
use crate::report::Report;

verus! {

/// What a selector extracts from a report: the value recorded for
/// `(io class, pct)` — but only when the report saw any sample at all for
/// that class, which the class's `"100"` (total) percentile being positive
/// signals. Everything else is "no value", never an error.
pub open spec fn sel_spec(
    sel: (Seq<char>, Seq<char>),
    rep: Map<(Seq<char>, Seq<char>), u32>,
) -> Option<u32> {
    if rep.contains_key((sel.0, "100"@)) && rep[(sel.0, "100"@)] > 0 && rep.contains_key(
        (sel.0, sel.1),
    ) {
        Some(rep[(sel.0, sel.1)])
    } else {
        None
    }
}

/// A selector specialised to one I/O class and one latency percentile
/// label: the explicit value object behind `sel_factory_iolat`.
pub struct Selector {
    io_type: String,
    pct: String,
}

impl View for Selector {
    type V = (Seq<char>, Seq<char>);

    closed spec fn view(&self) -> (Seq<char>, Seq<char>) {
        (self.io_type@, self.pct@)
    }
}

impl Selector {
    /// A structural copy: selectors are immutable value objects.
    pub fn duplicate(&self) -> (r: Selector)
        ensures
            r@ == self@,
    {
        Selector { io_type: self.io_type.clone(), pct: self.pct.clone() }
    }

    /// Extracts the selector's value from one report, total and pure:
    /// "no value" silently excludes the report from this study's samples.
    pub fn select(&self, rep: &Report) -> (r: Option<u32>)
        requires
            rep.wf(),
        ensures
            r == sel_spec(self@, rep@),
    {
        let total = total_label();
        match rep.get(&self.io_type, &total) {
            Some(t) => {
                if t > 0 {
                    rep.get(&self.io_type, &self.pct)
                } else {
                    None
                }
            },
            None => None,
        }
    }
}

/// The `"100"` (total) percentile label.
pub fn total_label() -> (r: String)
    ensures
        r@ == "100"@,
{
    "100".to_owned()
}

/// Builds the I/O-latency selector for one I/O class and percentile label.
pub fn sel_factory_iolat(io_type: &str, pct: &str) -> (r: Selector)
    ensures
        r@ == (io_type@, pct@),
{
    Selector { io_type: io_type.to_owned(), pct: pct.to_owned() }
}

} // verus!
