//! The composite study: a mean study and a percentile study sharing one
//! selector, so a single pass yields both results.

use vstd::prelude::*;
use crate::error::StudyError;
use crate::label::is_pct_label;
use crate::mean::{feed_value, is_ceil_stdev, mean_of, StudyMean};
use crate::pcts::{pct_value, pcts_feed, sorted, StudyPcts};
use crate::report::Report;
use crate::select::{sel_spec, Selector};
use crate::table::PctMap;

verus! {

/// A mean study and a percentile study over the same selector.
pub struct StudyMeanPcts {
    study_mean: StudyMean,
    study_pcts: StudyPcts,
}

impl StudyMeanPcts {
    /// The shared selector.
    pub closed spec fn sel_view(&self) -> (Seq<char>, Seq<char>) {
        self.study_mean.sel_view()
    }

    /// The samples the mean study holds, in arrival order.
    pub closed spec fn mean_data(&self) -> Seq<u32> {
        self.study_mean.data_view()
    }

    /// The samples the percentile study holds, sorted.
    pub closed spec fn pcts_data(&self) -> Seq<u32> {
        self.study_pcts.data_view()
    }

    /// Both halves share the selector and have seen the same samples.
    pub closed spec fn wf(&self) -> bool {
        &&& self.study_mean.sel_view() == self.study_pcts.sel_view()
        &&& self.study_pcts.wf()
        &&& self.mean_data().len() == self.pcts_data().len()
    }

    /// A fresh composite study; `error` is the percentile tolerance in
    /// parts per million, as in `StudyPcts::new`.
    pub fn new(sel: Selector, error: Option<u64>) -> (r: StudyMeanPcts)
        ensures
            r.wf(),
            r.sel_view() == sel@,
            r.mean_data() == Seq::<u32>::empty(),
            r.pcts_data() == Seq::<u32>::empty(),
    {
        let sel2 = sel.duplicate();
        StudyMeanPcts { study_pcts: StudyPcts::new(sel2, error), study_mean: StudyMean::new(sel) }
    }

    /// Feeds one report to both halves; order does not matter since they
    /// do not interact. Never fails.
    pub fn study(&mut self, rep: &Report) -> (r: Result<(), StudyError>)
        requires
            rep.wf(),
            old(self).wf(),
        ensures
            r is Ok,
            final(self).wf(),
            final(self).sel_view() == old(self).sel_view(),
            final(self).mean_data() == feed_value(
                old(self).mean_data(),
                sel_spec(old(self).sel_view(), rep@),
            ),
            final(self).pcts_data() == pcts_feed(
                old(self).pcts_data(),
                sel_spec(old(self).sel_view(), rep@),
            ),
    {
        let r1 = self.study_mean.study(rep);
        let r2 = self.study_pcts.study(rep);
        proof {
            match sel_spec(old(self).sel_view(), rep@) {
                Some(v) => {
                    crate::pcts::lemma_insert_sorted_len(old(self).pcts_data(), v);
                },
                None => {},
            }
        }
        match (r1, r2) {
            (Ok(_), Ok(_)) => Ok(()),
            _ => Ok(()),
        }
    }

    /// The accumulated `(mean, stdev, percentile map)` over the given
    /// labels: the mean and standard deviation as in `StudyMean::result`,
    /// and one exact percentile per label as in `StudyPcts::result`.
    pub fn result(&self, pcts: &Vec<String>) -> (r: (u64, u64, PctMap))
        requires
            self.wf(),
            1 <= self.mean_data().len() < 0x100000000,
            forall|i: int| 0 <= i < pcts@.len() ==> is_pct_label(#[trigger] pcts@[i]@),
        ensures
            r.0 == mean_of(self.mean_data()),
            self.mean_data().len() == 1 ==> r.1 == 0,
            self.mean_data().len() >= 2 ==> is_ceil_stdev(self.mean_data(), r.1 as int),
            r.2.wf(),
            forall|i: int|
                0 <= i < pcts@.len() ==> r.2@.contains_key(#[trigger] pcts@[i]@) && r.2@[pcts@[i]@]
                    == pct_value(self.pcts_data(), pcts@[i]@),
            forall|k: Seq<char>|
                r.2@.contains_key(k) ==> exists|i: int| 0 <= i < pcts@.len()
                    && #[trigger] pcts@[i]@ == k,
    {
        let m = self.study_mean.result();
        let map = self.study_pcts.result(pcts);
        (m.0, m.1, map)
    }
}

} // verus!
