//! The study abstraction: a ghost model of every study's state, the
//! transition one report induces, and the `Study` contract every
//! accumulator implements.

use vstd::prelude::*;
use crate::error::StudyError;
use crate::mean::feed_value;
use crate::pcts::pcts_feed;
use crate::report::Report;
use crate::select::sel_spec;

verus! {

/// A report's contents, as contracts see them.
pub type RepMap = Map<(Seq<char>, Seq<char>), u32>;

/// The state of one composite study: a selector and the samples of its
/// two halves.
pub ghost struct CompositeModel {
    pub sel: (Seq<char>, Seq<char>),
    pub mean_data: Seq<u32>,
    pub pcts_data: Seq<u32>,
}

/// The state of any study the driver can feed.
pub ghost enum StudyModel {
    Mean { sel: (Seq<char>, Seq<char>), data: Seq<u32> },
    Pcts { sel: (Seq<char>, Seq<char>), data: Seq<u32> },
    MeanPcts { c: CompositeModel },
    IoLatPcts { rows: Seq<CompositeModel> },
}

/// What one report does to a composite study.
pub open spec fn composite_feed(c: CompositeModel, rep: RepMap) -> CompositeModel {
    CompositeModel {
        sel: c.sel,
        mean_data: feed_value(c.mean_data, sel_spec(c.sel, rep)),
        pcts_data: pcts_feed(c.pcts_data, sel_spec(c.sel, rep)),
    }
}

/// What one report does to any study.
pub open spec fn study_feed(m: StudyModel, rep: RepMap) -> StudyModel {
    match m {
        StudyModel::Mean { sel, data } => StudyModel::Mean {
            sel,
            data: feed_value(data, sel_spec(sel, rep)),
        },
        StudyModel::Pcts { sel, data } => StudyModel::Pcts {
            sel,
            data: pcts_feed(data, sel_spec(sel, rep)),
        },
        StudyModel::MeanPcts { c } => StudyModel::MeanPcts { c: composite_feed(c, rep) },
        StudyModel::IoLatPcts { rows } => StudyModel::IoLatPcts {
            rows: rows.map_values(|c: CompositeModel| composite_feed(c, rep)),
        },
    }
}

/// The uniform contract every study meets: feeding a report advances the
/// study's model by `study_feed`, keeps it well formed, and never fails.
pub trait Study: Sized {
    /// The study's state, as contracts see it.
    spec fn model(&self) -> StudyModel;

    /// The study's internal invariant.
    spec fn inv(&self) -> bool;

    /// Consumes one report.
    fn study(&mut self, rep: &Report) -> (r: Result<(), StudyError>)
        requires
            rep.wf(),
            old(self).inv(),
        ensures
            r is Ok,
            final(self).inv(),
            final(self).model() == study_feed(old(self).model(), rep@),
    ;
}

} // verus!
