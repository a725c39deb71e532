//! The study driver: feeds every registered study one pass over an
//! indexed report source, counting missing reports and refusing a range
//! with no usable report at all.

use vstd::prelude::*;
use crate::composite::StudyMeanPcts;
use crate::error::StudyError;
use crate::matrix::StudyIoLatPcts;
use crate::mean::StudyMean;
use crate::models::{composite_feed, study_feed, CompositeModel, RepMap, Study, StudyModel};
use crate::pcts::StudyPcts;
use crate::report::Report;

verus! {

impl Study for StudyMean {
    open spec fn model(&self) -> StudyModel {
        StudyModel::Mean { sel: self.sel_view(), data: self.data_view() }
    }

    open spec fn inv(&self) -> bool {
        true
    }

    fn study(&mut self, rep: &Report) -> (r: Result<(), StudyError>) {
        StudyMean::study(self, rep)
    }
}

impl Study for StudyPcts {
    open spec fn model(&self) -> StudyModel {
        StudyModel::Pcts { sel: self.sel_view(), data: self.data_view() }
    }

    open spec fn inv(&self) -> bool {
        self.wf()
    }

    fn study(&mut self, rep: &Report) -> (r: Result<(), StudyError>) {
        StudyPcts::study(self, rep)
    }
}

impl Study for StudyMeanPcts {
    open spec fn model(&self) -> StudyModel {
        StudyModel::MeanPcts {
            c: CompositeModel {
                sel: self.sel_view(),
                mean_data: self.mean_data(),
                pcts_data: self.pcts_data(),
            },
        }
    }

    open spec fn inv(&self) -> bool {
        self.wf()
    }

    fn study(&mut self, rep: &Report) -> (r: Result<(), StudyError>) {
        StudyMeanPcts::study(self, rep)
    }
}

impl Study for StudyIoLatPcts {
    open spec fn model(&self) -> StudyModel {
        StudyModel::IoLatPcts { rows: self.rows_model() }
    }

    open spec fn inv(&self) -> bool {
        self.wf()
    }

    fn study(&mut self, rep: &Report) -> (r: Result<(), StudyError>) {
        StudyIoLatPcts::study(self, rep)
    }
}

/// Any study the driver can hold, by value.
pub enum AnyStudy {
    Mean(StudyMean),
    Pcts(StudyPcts),
    MeanPcts(StudyMeanPcts),
    IoLatPcts(StudyIoLatPcts),
}

impl Study for AnyStudy {
    open spec fn model(&self) -> StudyModel {
        match self {
            AnyStudy::Mean(s) => s.model(),
            AnyStudy::Pcts(s) => s.model(),
            AnyStudy::MeanPcts(s) => s.model(),
            AnyStudy::IoLatPcts(s) => s.model(),
        }
    }

    open spec fn inv(&self) -> bool {
        match self {
            AnyStudy::Mean(s) => s.inv(),
            AnyStudy::Pcts(s) => s.inv(),
            AnyStudy::MeanPcts(s) => s.inv(),
            AnyStudy::IoLatPcts(s) => s.inv(),
        }
    }

    fn study(&mut self, rep: &Report) -> (r: Result<(), StudyError>) {
        match self {
            AnyStudy::Mean(s) => s.study(rep),
            AnyStudy::Pcts(s) => s.study(rep),
            AnyStudy::MeanPcts(s) => s.study(rep),
            AnyStudy::IoLatPcts(s) => s.study(rep),
        }
    }
}

/// An external, address-by-index source of reports; fetching may fail at
/// any index, which the driver counts rather than propagates.
pub trait ReportSource: Sized {
    /// The source's internal invariant.
    spec fn src_inv(&self) -> bool;

    /// The report the source holds at an index, if any.
    spec fn report_at(&self, idx: u64) -> Option<RepMap>;

    /// Fetches one report by index; `None` exactly when the source has
    /// none there.
    fn fetch(&self, idx: u64) -> (r: Option<&Report>)
        requires
            self.src_inv(),
        ensures
            match r {
                Some(rep) => rep.wf() && self.report_at(idx) == Some(rep@),
                None => self.report_at(idx) is None,
            },
    ;
}

/// A report source backed by a vector: index `i` holds `reports[i]`, and
/// every index beyond the vector is missing.
pub struct SliceReportSource {
    pub reports: Vec<Option<Report>>,
}

impl SliceReportSource {
    /// Wraps a vector of optional reports.
    pub fn new(reports: Vec<Option<Report>>) -> (r: SliceReportSource)
        requires
            forall|i: int|
                0 <= i < reports@.len() ==> match #[trigger] reports@[i] {
                    Some(rep) => rep.wf(),
                    None => true,
                },
        ensures
            r.src_inv(),
            r.reports@ == reports@,
    {
        SliceReportSource { reports }
    }
}

impl ReportSource for SliceReportSource {
    open spec fn src_inv(&self) -> bool {
        forall|i: int|
            0 <= i < self.reports@.len() ==> match #[trigger] self.reports@[i] {
                Some(rep) => rep.wf(),
                None => true,
            }
    }

    open spec fn report_at(&self, idx: u64) -> Option<RepMap> {
        if idx < self.reports@.len() {
            match self.reports@[idx as int] {
                Some(rep) => Some(rep@),
                None => None,
            }
        } else {
            None
        }
    }

    fn fetch(&self, idx: u64) -> (r: Option<&Report>) {
        if idx < (self.reports.len() as u64) {
            match &self.reports[idx as usize] {
                Some(rep) => Some(rep),
                None => None,
            }
        } else {
            None
        }
    }
}

/// The reports the source holds in `[start, end)`, in ascending index
/// order, missing ones skipped.
pub open spec fn reports_between<S: ReportSource>(src: &S, start: int, end: int) -> Seq<RepMap>
    decreases end - start,
{
    if end <= start {
        Seq::empty()
    } else {
        reports_between(src, start, end - 1) + (match src.report_at((end - 1) as u64) {
            Some(m) => seq![m],
            None => Seq::empty(),
        })
    }
}

/// How many indices in `[start, end)` hold no report.
pub open spec fn missing_between<S: ReportSource>(src: &S, start: int, end: int) -> int
    decreases end - start,
{
    if end <= start {
        0
    } else {
        missing_between(src, start, end - 1) + (if src.report_at((end - 1) as u64) is None {
            1int
        } else {
            0int
        })
    }
}

/// Feeds a study model one report after another.
pub open spec fn feed_all(m: StudyModel, reps: Seq<RepMap>) -> StudyModel
    decreases reps.len(),
{
    if reps.len() == 0 {
        m
    } else {
        feed_all(study_feed(m, reps[0]), reps.drop_first())
    }
}

/// Feeding one more report is one more transition.
proof fn lemma_feed_all_snoc(m: StudyModel, reps: Seq<RepMap>, rep: RepMap)
    ensures
        feed_all(m, reps.push(rep)) == study_feed(feed_all(m, reps), rep),
    decreases reps.len(),
{
    if reps.len() == 0 {
        assert(reps.push(rep)[0] == rep);
        assert(reps.push(rep).drop_first() =~= Seq::<RepMap>::empty());
        assert(feed_all(m, reps.push(rep)) == feed_all(study_feed(m, rep), reps.push(
            rep,
        ).drop_first()));
        assert(feed_all(study_feed(m, rep), Seq::<RepMap>::empty()) == study_feed(m, rep));
        assert(feed_all(m, reps) == m);
    } else {
        assert(reps.push(rep)[0] == reps[0]);
        assert(reps.push(rep).drop_first() =~= reps.drop_first().push(rep));
        assert(feed_all(m, reps.push(rep)) == feed_all(study_feed(m, reps[0]), reps.drop_first().push(
            rep,
        )));
        lemma_feed_all_snoc(study_feed(m, reps[0]), reps.drop_first(), rep);
        assert(feed_all(m, reps) == feed_all(study_feed(m, reps[0]), reps.drop_first()));
    }
}

/// The study execution interface: owns the registered studies, feeds
/// them one pass of reports, and accounts for missing reports.
pub struct Studies {
    studies: Vec<AnyStudy>,
}

impl Studies {
    /// The registered studies' models, in registration order.
    pub closed spec fn models(&self) -> Seq<StudyModel> {
        self.studies@.map_values(|s: AnyStudy| s.model())
    }

    /// Every registered study is well formed.
    pub closed spec fn inv(&self) -> bool {
        forall|i: int| 0 <= i < self.studies@.len() ==> (#[trigger] self.studies@[i]).inv()
    }

    /// The registered studies as they stand, for querying results after
    /// a run.
    pub fn studies(&self) -> (r: &Vec<AnyStudy>)
        ensures
            r@.len() == self.models().len(),
            forall|i: int| 0 <= i < r@.len() ==> (#[trigger] r@[i]).model() == self.models()[i],
    {
        &self.studies
    }

    /// An empty registry.
    pub fn new() -> (r: Studies)
        ensures
            r.inv(),
            r.models() == Seq::<StudyModel>::empty(),
    {
        let r = Studies { studies: Vec::new() };
        proof {
            assert(r.models() =~= Seq::<StudyModel>::empty());
        }
        r
    }

    /// Registers one study.
    pub fn add(&mut self, study: AnyStudy)
        requires
            old(self).inv(),
            study.inv(),
        ensures
            final(self).inv(),
            final(self).models() == old(self).models().push(study.model()),
    {
        let ghost m = study.model();
        self.studies.push(study);
        proof {
            assert(final(self).models() =~= old(self).models().push(m));
        }
    }

    /// Registers many studies at once, draining the given vector.
    pub fn add_multiple(&mut self, studies: &mut Vec<AnyStudy>)
        requires
            old(self).inv(),
            forall|i: int| 0 <= i < old(studies)@.len() ==> (#[trigger] old(studies)@[i]).inv(),
        ensures
            final(self).inv(),
            final(self).models() == old(self).models() + old(studies)@.map_values(
                |s: AnyStudy| s.model(),
            ),
            final(studies)@.len() == 0,
    {
        self.studies.append(studies);
        proof {
            assert(final(self).models() =~= old(self).models() + old(studies)@.map_values(
                |s: AnyStudy| s.model(),
            ));
        }
    }

    /// One pass: fetches each report in `[start, end)` in ascending
    /// order, feeds every fetched report to every registered study in
    /// registration order, and counts missing reports. Fails exactly
    /// when no report in the whole range could be fetched (in
    /// particular, on an empty range); even then every fetched report —
    /// there are none — has been fed, so the studies are unchanged.
    pub fn run_fallible<S: ReportSource>(&mut self, run: &S, start: u64, end: u64) -> (r: Result<
        u64,
        StudyError,
    >)
        requires
            run.src_inv(),
            old(self).inv(),
        ensures
            final(self).inv(),
            final(self).models().len() == old(self).models().len(),
            forall|j: int|
                0 <= j < old(self).models().len() ==> final(self).models()[j] == feed_all(
                    old(self).models()[j],
                    reports_between(run, start as int, end as int),
                ),
            match r {
                Ok(missed) => start + missed < end && missed == missing_between(
                    run,
                    start as int,
                    end as int,
                ),
                Err(e) => e == (StudyError::Coverage { start, end }) && start + missing_between(
                    run,
                    start as int,
                    end as int,
                ) >= end,
            },
    {
        let ghost m0 = self.models();
        let nst = self.studies.len();
        let mut nr_missed: u64 = 0;
        let mut i: u64 = start;
        while i < end
            invariant
                run.src_inv(),
                start <= i,
                i <= end || i == start,
                nst == self.studies@.len(),
                self.studies@.len() == old(self).studies@.len(),
                m0 == old(self).models(),
                m0.len() == self.studies@.len(),
                self.inv(),
                nr_missed == missing_between(run, start as int, i as int),
                nr_missed <= i - start,
                forall|j: int|
                    0 <= j < m0.len() ==> (#[trigger] self.studies@[j]).model() == feed_all(
                        m0[j],
                        reports_between(run, start as int, i as int),
                    ),
            decreases end - i,
        {
            let fetched = run.fetch(i);
            match fetched {
                Some(rep) => {
                    let ghost snap = self.studies@;
                    let mut j: usize = 0;
                    while j < nst
                        invariant
                            rep.wf(),
                            nst == self.studies@.len(),
                            snap.len() == nst,
                            0 <= j <= nst,
                            forall|k: int| j <= k < nst ==> self.studies@[k] == snap[k],
                            forall|k: int| 0 <= k < nst ==> (#[trigger] self.studies@[k]).inv(),
                            forall|k: int|
                                0 <= k < j ==> (#[trigger] self.studies@[k]).model() == study_feed(
                                    snap[k].model(),
                                    rep@,
                                ),
                        decreases nst - j,
                    {
                        match (&mut self.studies[j]).study(rep) {
                            Ok(_) => {},
                            Err(e) => {
                                return Err(e);
                            },
                        }
                        j = j + 1;
                    }
                    proof {
                        let pre = reports_between(run, start as int, i as int);
                        let post = reports_between(run, start as int, i + 1);
                        assert(post =~= pre.push(rep@));
                        assert forall|k: int| 0 <= k < m0.len() implies (#[trigger] self.studies@[k]).model()
                            == feed_all(m0[k], post) by {
                            lemma_feed_all_snoc(m0[k], pre, rep@);
                            assert(snap[k].model() == feed_all(m0[k], pre));
                        }
                    }
                },
                None => {
                    nr_missed = nr_missed + 1;
                },
            }
            i = i + 1;
        }
        if start + nr_missed >= end {
            proof {
                if start >= end {
                    assert(missing_between(run, start as int, end as int) == 0);
                    assert(reports_between(run, start as int, end as int) =~= Seq::<
                        RepMap,
                    >::empty());
                }
            }
            return Err(StudyError::Coverage { start, end });
        }
        Ok(nr_missed)
    }

    /// The convenience pass: as `run_fallible`, for callers that know at
    /// least one report in the range can be fetched.
    pub fn run<S: ReportSource>(&mut self, run: &S, start: u64, end: u64) -> (r: u64)
        requires
            run.src_inv(),
            old(self).inv(),
            start + missing_between(run, start as int, end as int) < end,
        ensures
            final(self).inv(),
            final(self).models().len() == old(self).models().len(),
            forall|j: int|
                0 <= j < old(self).models().len() ==> final(self).models()[j] == feed_all(
                    old(self).models()[j],
                    reports_between(run, start as int, end as int),
                ),
            r == missing_between(run, start as int, end as int),
    {
        match self.run_fallible(run, start, end) {
            Ok(v) => v,
            Err(e) => {
                proof {
                    assert(false);
                }
                0
            },
        }
    }
}

} // verus!
