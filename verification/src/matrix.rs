//! The I/O-latency matrix study: one composite study per latency
//! percentile of one I/O class, merged into a two-level result table and
//! rendered as an aligned text table.

use vstd::prelude::*;
use vstd::string::StrSliceExecFns;
use vstd::string::StringExecFns;
use crate::composite::StudyMeanPcts;
use crate::error::StudyError;
use crate::label::{all_digits, digit_val, digits_val, first_dot, frac_part, int_part, is_digit,
    is_pct_label, lemma_first_dot_at, parse_pct_label, pct_den, pct_num, pow10};
use crate::mean::{mean_of, stdev_of, lemma_ceil_stdev_unique};
use crate::models::{composite_feed, CompositeModel, RepMap};
use crate::pcts::pct_value;
use crate::report::Report;
use crate::select::sel_factory_iolat;
use crate::table::{PctMap, ResultTable};
use crate::text::{dec_spec, format_value, left_align, left_align_spec, right_align,
    right_align_spec};

verus! {

/// The latency percentile labels a report carries, ascending: one matrix
/// row per label.
pub open spec fn lat_pcts_spec() -> Seq<Seq<char>> {
    seq![
        "00"@,
        "01"@,
        "05"@,
        "10"@,
        "16"@,
        "25"@,
        "50"@,
        "75"@,
        "84"@,
        "90"@,
        "95"@,
        "99"@,
        "99.9"@,
        "100"@,
    ]
}

/// The canonical time-percentile column labels.
pub open spec fn time_pcts_spec() -> Seq<Seq<char>> {
    lat_pcts_spec()
}

/// The narrower column set the text table shows by default.
pub open spec fn time_format_pcts_spec() -> Seq<Seq<char>> {
    seq!["00"@, "16"@, "50"@, "84"@, "90"@, "95"@, "99"@, "99.9"@, "100"@]
}

/// The value of a two-character digit string.
proof fn lemma_digits2(s: Seq<char>)
    requires
        s.len() == 2,
    ensures
        digits_val(s) == digit_val(s[0]) * 10 + digit_val(s[1]),
{
    assert(s.drop_last() =~= seq![s[0]]);
    assert(seq![s[0]].drop_last() =~= Seq::<char>::empty());
    assert(digits_val(Seq::<char>::empty()) == 0);
    assert(digits_val(seq![s[0]]) == digit_val(s[0]));
    assert(s.last() == s[1]);
}

/// The value of a three-character digit string.
proof fn lemma_digits3(s: Seq<char>)
    requires
        s.len() == 3,
    ensures
        digits_val(s) == (digit_val(s[0]) * 10 + digit_val(s[1])) * 10 + digit_val(s[2]),
{
    assert(s.drop_last() =~= seq![s[0], s[1]]);
    lemma_digits2(seq![s[0], s[1]]);
}

/// A dot-free digit label of value at most 100 is a percentile label.
proof fn lemma_plain_label(s: Seq<char>)
    requires
        s.len() >= 1,
        all_digits(s),
        0 <= digits_val(s) <= 100,
    ensures
        is_pct_label(s),
        pct_num(s) == digits_val(s),
        pct_den(s) == 1,
{
    assert forall|j: int| 0 <= j < s.len() implies s[j] != '.' by {
        assert(is_digit(s[j]));
        assert('.' as u32 == 46);
    }
    lemma_first_dot_at(s, s.len() as int);
    assert(int_part(s) =~= s);
    assert(frac_part(s) =~= Seq::<char>::empty());
    assert(digits_val(Seq::<char>::empty()) == 0);
    assert(pow10(0) == 1);
    assert(pct_num(s) == digits_val(s) * 1 + 0);
}

/// Every canonical label is a well-formed percentile label, and its
/// exact value is the expected one.
pub proof fn lemma_canonical_labels()
    ensures
        forall|i: int|
            0 <= i < lat_pcts_spec().len() ==> is_pct_label(#[trigger] lat_pcts_spec()[i]),
        forall|i: int|
            0 <= i < time_format_pcts_spec().len() ==> is_pct_label(
                #[trigger] time_format_pcts_spec()[i],
            ),
{
    reveal_strlit("00");
    reveal_strlit("01");
    reveal_strlit("05");
    reveal_strlit("10");
    reveal_strlit("16");
    reveal_strlit("25");
    reveal_strlit("50");
    reveal_strlit("75");
    reveal_strlit("84");
    reveal_strlit("90");
    reveal_strlit("95");
    reveal_strlit("99");
    reveal_strlit("99.9");
    reveal_strlit("100");
    assert forall|i: int| 0 <= i < lat_pcts_spec().len() implies is_pct_label(
        #[trigger] lat_pcts_spec()[i],
    ) by {
        let s = lat_pcts_spec()[i];
        if i == 12 {
            // "99.9"
            assert(s.len() == 4 && s[0] == '9' && s[1] == '9' && s[2] == '.' && s[3] == '9');
            assert forall|j: int| 0 <= j < 2 implies s[j] != '.' by {}
            lemma_first_dot_at(s, 2);
            assert(int_part(s) =~= seq![s[0], s[1]]);
            lemma_digits2(int_part(s));
            assert(frac_part(s) =~= seq![s[3]]);
            assert(seq![s[3]].drop_last() =~= Seq::<char>::empty());
            assert(digits_val(Seq::<char>::empty()) == 0);
            assert(digits_val(seq![s[3]]) == digit_val(s[3]));
            assert(digits_val(frac_part(s)) == 9);
            assert(pow10(1) == 10) by {
                reveal_with_fuel(pow10, 3);
            }
            assert(pct_num(s) == 999);
            assert(pct_den(s) == 10);
        } else if i == 13 {
            // "100"
            lemma_digits3(s);
            lemma_plain_label(s);
        } else {
            lemma_digits2(s);
            lemma_plain_label(s);
        }
    }
    assert forall|i: int| 0 <= i < time_format_pcts_spec().len() implies is_pct_label(
        #[trigger] time_format_pcts_spec()[i],
    ) by {
        let s = time_format_pcts_spec()[i];
        if i == 7 {
            assert(s == lat_pcts_spec()[12]);
        } else if i == 8 {
            assert(s == lat_pcts_spec()[13]);
        } else {
            lemma_digits2(s);
            lemma_plain_label(s);
        }
    }
}

/// Builds the latency (and canonical time) percentile label list.
pub fn lat_pcts() -> (r: Vec<String>)
    ensures
        r@.len() == lat_pcts_spec().len(),
        forall|i: int| 0 <= i < r@.len() ==> #[trigger] r@[i]@ == lat_pcts_spec()[i],
{
    let mut r: Vec<String> = Vec::new();
    r.push("00".to_owned());
    r.push("01".to_owned());
    r.push("05".to_owned());
    r.push("10".to_owned());
    r.push("16".to_owned());
    r.push("25".to_owned());
    r.push("50".to_owned());
    r.push("75".to_owned());
    r.push("84".to_owned());
    r.push("90".to_owned());
    r.push("95".to_owned());
    r.push("99".to_owned());
    r.push("99.9".to_owned());
    r.push("100".to_owned());
    r
}

/// Builds the canonical time-percentile column label list.
pub fn time_pcts() -> (r: Vec<String>)
    ensures
        r@.len() == time_pcts_spec().len(),
        forall|i: int| 0 <= i < r@.len() ==> #[trigger] r@[i]@ == time_pcts_spec()[i],
{
    lat_pcts()
}

/// Builds the default column label list for the text table.
pub fn time_format_pcts() -> (r: Vec<String>)
    ensures
        r@.len() == time_format_pcts_spec().len(),
        forall|i: int| 0 <= i < r@.len() ==> #[trigger] r@[i]@ == time_format_pcts_spec()[i],
{
    let mut r: Vec<String> = Vec::new();
    r.push("00".to_owned());
    r.push("16".to_owned());
    r.push("50".to_owned());
    r.push("84".to_owned());
    r.push("90".to_owned());
    r.push("95".to_owned());
    r.push("99".to_owned());
    r.push("99.9".to_owned());
    r.push("100".to_owned());
    r
}

/// The percentile entries of one result row: one value per column
/// label, later entries replacing earlier ones of the same label.
pub open spec fn pcts_map_spec(data: Seq<u32>, labels: Seq<Seq<char>>) -> Map<Seq<char>, u64>
    decreases labels.len(),
{
    if labels.len() == 0 {
        Map::empty()
    } else {
        pcts_map_spec(data, labels.drop_last()).insert(
            labels.last(),
            pct_value(data, labels.last()),
        )
    }
}

/// What `pcts_map_spec` holds: exactly the labels, each at its exact
/// percentile value.
proof fn lemma_pcts_map_spec(data: Seq<u32>, labels: Seq<Seq<char>>)
    ensures
        forall|j: int|
            0 <= j < labels.len() ==> pcts_map_spec(data, labels).contains_key(
                #[trigger] labels[j],
            ) && pcts_map_spec(data, labels)[labels[j]] == pct_value(data, labels[j]),
        forall|k: Seq<char>|
            pcts_map_spec(data, labels).contains_key(k) ==> exists|j: int|
                0 <= j < labels.len() && #[trigger] labels[j] == k,
    decreases labels.len(),
{
    if labels.len() != 0 {
        let t = labels.drop_last();
        lemma_pcts_map_spec(data, t);
        assert forall|j: int| 0 <= j < labels.len() implies pcts_map_spec(data, labels).contains_key(
            #[trigger] labels[j],
        ) && pcts_map_spec(data, labels)[labels[j]] == pct_value(data, labels[j]) by {
            if j < labels.len() - 1 && labels[j] != labels.last() {
                assert(t[j] == labels[j]);
            }
        }
        assert forall|k: Seq<char>| pcts_map_spec(data, labels).contains_key(k) implies exists|j: int|
            0 <= j < labels.len() && #[trigger] labels[j] == k by {
            if k != labels.last() {
                assert(pcts_map_spec(data, t).contains_key(k));
                let j = choose|j: int| 0 <= j < t.len() && #[trigger] t[j] == k;
                assert(t[j] == labels[j]);
                assert(labels[j] == k);
            } else {
                assert(labels[labels.len() - 1] == k);
            }
        }
    }
}

/// One result row: the column percentiles plus the reserved `"mean"`,
/// `"stdev"` and `"cum"` entries.
pub open spec fn row_spec(c: CompositeModel, labels: Seq<Seq<char>>, cumv: u64) -> Map<
    Seq<char>,
    u64,
> {
    pcts_map_spec(c.pcts_data, labels).insert("mean"@, mean_of(c.mean_data) as u64).insert(
        "stdev"@,
        stdev_of(c.mean_data) as u64,
    ).insert("cum"@, cumv)
}

/// The whole result table: row `i` under the `i`-th latency label.
pub open spec fn table_spec(
    rows: Seq<CompositeModel>,
    labels: Seq<Seq<char>>,
    cum: RepMap,
    io: Seq<char>,
) -> Map<Seq<char>, Map<Seq<char>, u64>>
    decreases rows.len(),
{
    if rows.len() == 0 {
        Map::empty()
    } else {
        table_spec(rows.drop_last(), labels, cum, io).insert(
            lat_pcts_spec()[rows.len() - 1],
            row_spec(rows.last(), labels, cum[(io, lat_pcts_spec()[rows.len() - 1])] as u64),
        )
    }
}

/// A percentile label is never one of the reserved column names.
proof fn lemma_label_not_reserved(l: Seq<char>)
    requires
        is_pct_label(l),
    ensures
        l != "mean"@,
        l != "stdev"@,
        l != "cum"@,
{
    reveal_strlit("mean");
    reveal_strlit("stdev");
    reveal_strlit("cum");
    assert(1 <= first_dot(l));
    crate::label::lemma_first_dot(l);
    assert(l.len() >= 1);
    assert(int_part(l)[0] == l[0]);
    assert(is_digit(l[0]));
    if l == "mean"@ {
        assert(l[0] == 'm' && 'm' as u32 == 109);
        assert(false);
    }
    if l == "stdev"@ {
        assert(l[0] == 's' && 's' as u32 == 115);
        assert(false);
    }
    if l == "cum"@ {
        assert(l[0] == 'c' && 'c' as u32 == 99);
        assert(false);
    }
}

/// Copies a label list.
fn copy_labels(v: &Vec<String>) -> (r: Vec<String>)
    ensures
        r@.len() == v@.len(),
        forall|i: int| 0 <= i < r@.len() ==> #[trigger] r@[i]@ == v@[i]@,
{
    let mut r: Vec<String> = Vec::new();
    let n = v.len();
    let mut i: usize = 0;
    while i < n
        invariant
            n == v@.len(),
            0 <= i <= n,
            r@.len() == i,
            forall|j: int| 0 <= j < i ==> #[trigger] r@[j]@ == v@[j]@,
        decreases n - i,
    {
        r.push(v[i].clone());
        i = i + 1;
    }
    r
}

/// The I/O-latency matrix study: one composite study per latency
/// percentile label, all over one I/O class.
pub struct StudyIoLatPcts {
    io_type: String,
    studies: Vec<StudyMeanPcts>,
}

impl StudyIoLatPcts {
    /// The I/O class this matrix studies.
    pub closed spec fn io_view(&self) -> Seq<char> {
        self.io_type@
    }

    /// The composite rows' models, in latency-percentile order.
    pub closed spec fn rows_model(&self) -> Seq<CompositeModel> {
        self.studies@.map_values(
            |c: StudyMeanPcts|
                CompositeModel { sel: c.sel_view(), mean_data: c.mean_data(), pcts_data: c.pcts_data() },
        )
    }

    /// One well-formed row per latency label, each selecting
    /// `(io class, label)`.
    pub closed spec fn wf(&self) -> bool {
        &&& self.studies@.len() == lat_pcts_spec().len()
        &&& forall|i: int| 0 <= i < self.studies@.len() ==> (#[trigger] self.studies@[i]).wf()
        &&& forall|i: int|
            0 <= i < self.studies@.len() ==> (#[trigger] self.studies@[i]).sel_view() == (
            self.io_type@,
            lat_pcts_spec()[i],
            )
    }

    /// A fresh matrix study for one I/O class: one composite study per
    /// latency percentile, each with a selector specialised to
    /// `(io_type, label)`.
    pub fn new(io_type: &str, error: Option<u64>) -> (r: StudyIoLatPcts)
        ensures
            r.wf(),
            r.io_view() == io_type@,
            forall|i: int|
                0 <= i < r.rows_model().len() ==> (#[trigger] r.rows_model()[i]).mean_data
                    == Seq::<u32>::empty() && r.rows_model()[i].pcts_data == Seq::<u32>::empty(),
    {
        let labels = lat_pcts();
        let mut studies: Vec<StudyMeanPcts> = Vec::new();
        let n = labels.len();
        let mut i: usize = 0;
        while i < n
            invariant
                n == lat_pcts_spec().len(),
                labels@.len() == n,
                forall|j: int| 0 <= j < n ==> #[trigger] labels@[j]@ == lat_pcts_spec()[j],
                0 <= i <= n,
                studies@.len() == i,
                forall|j: int| 0 <= j < i ==> (#[trigger] studies@[j]).wf(),
                forall|j: int|
                    0 <= j < i ==> (#[trigger] studies@[j]).sel_view() == (
                    io_type@,
                    lat_pcts_spec()[j],
                    ),
                forall|j: int|
                    0 <= j < i ==> (#[trigger] studies@[j]).mean_data() == Seq::<u32>::empty()
                        && studies@[j].pcts_data() == Seq::<u32>::empty(),
            decreases n - i,
        {
            let sel = sel_factory_iolat(io_type, labels[i].as_str());
            studies.push(StudyMeanPcts::new(sel, error));
            i = i + 1;
        }
        let r = StudyIoLatPcts { io_type: io_type.to_owned(), studies };
        r
    }

    /// The owned composite rows, by reference, in latency-label order.
    pub fn studies(&self) -> (r: &Vec<StudyMeanPcts>)
        ensures
            r@ == self.rows_view(),
    {
        &self.studies
    }

    /// The rows as they stand.
    pub closed spec fn rows_view(&self) -> Seq<StudyMeanPcts> {
        self.studies@
    }

    /// Feeds one report to every row. Never fails.
    pub fn study(&mut self, rep: &Report) -> (r: Result<(), StudyError>)
        requires
            rep.wf(),
            old(self).wf(),
        ensures
            r is Ok,
            final(self).wf(),
            final(self).io_view() == old(self).io_view(),
            final(self).rows_model() == old(self).rows_model().map_values(
                |c: CompositeModel| composite_feed(c, rep@),
            ),
    {
        let n = self.studies.len();
        let mut i: usize = 0;
        while i < n
            invariant
                rep.wf(),
                n == self.studies@.len(),
                self.studies@.len() == old(self).studies@.len(),
                self.io_type@ == old(self).io_type@,
                0 <= i <= n,
                forall|j: int| 0 <= j < n ==> (#[trigger] self.studies@[j]).wf(),
                forall|j: int|
                    0 <= j < n ==> (#[trigger] self.studies@[j]).sel_view() == (
                    self.io_type@,
                    lat_pcts_spec()[j],
                    ),
                old(self).wf(),
                forall|j: int|
                    i <= j < n ==> #[trigger] self.studies@[j] == old(self).studies@[j],
                forall|j: int|
                    0 <= j < i ==> (#[trigger] self.studies@[j]).mean_data() == crate::mean::feed_value(
                        old(self).studies@[j].mean_data(),
                        crate::select::sel_spec(old(self).studies@[j].sel_view(), rep@),
                    ) && self.studies@[j].pcts_data() == crate::pcts::pcts_feed(
                        old(self).studies@[j].pcts_data(),
                        crate::select::sel_spec(old(self).studies@[j].sel_view(), rep@),
                    ),
            decreases n - i,
        {
            match (&mut self.studies[i]).study(rep) {
                Ok(_) => {},
                Err(e) => {
                    return Err(e);
                },
            }
            i = i + 1;
        }
        proof {
            let a = final(self).rows_model();
            let b = old(self).rows_model().map_values(
                |c: CompositeModel| composite_feed(c, rep@),
            );
            assert forall|j: int| 0 <= j < a.len() implies a[j] == b[j] by {
                assert(a[j].sel == self.studies@[j].sel_view());
            }
            assert(a =~= b);
        }
        Ok(())
    }

    /// Merges every row's results into the two-level table: for each
    /// latency label, the column percentiles of its composite study plus
    /// the reserved `"mean"`, `"stdev"` and `"cum"` entries, the last
    /// fetched from the separately tracked cumulative report. Columns
    /// default to the canonical time percentiles.
    pub fn result(&self, cum: &Report, time_pcts: Option<&Vec<String>>) -> (r: ResultTable)
        requires
            self.wf(),
            cum.wf(),
            forall|i: int|
                0 <= i < lat_pcts_spec().len() ==> cum@.contains_key(
                    (self.io_view(), #[trigger] lat_pcts_spec()[i]),
                ),
            forall|i: int|
                0 <= i < self.rows_model().len() ==> 1 <= (#[trigger] self.rows_model()[i]).mean_data.len()
                    < 0x100000000,
            match time_pcts {
                Some(v) => forall|i: int| 0 <= i < v@.len() ==> is_pct_label(#[trigger] v@[i]@),
                None => true,
            },
        ensures
            r.wf(),
            r@ == table_spec(
                self.rows_model(),
                match time_pcts {
                    Some(v) => v@.map_values(|s: String| s@),
                    None => time_pcts_spec(),
                },
                cum@,
                self.io_view(),
            ),
            forall|i: int|
                0 <= i < lat_pcts_spec().len() ==> r@.contains_key(#[trigger] lat_pcts_spec()[i]),
    {
        proof {
            lemma_canonical_labels();
        }
        let labels: Vec<String> = match time_pcts {
            Some(v) => copy_labels(v),
            None => crate::matrix::time_pcts(),
        };
        let ghost lv = match time_pcts {
            Some(v) => v@.map_values(|s: String| s@),
            None => time_pcts_spec(),
        };
        proof {
            assert(labels@.len() == lv.len());
            assert(forall|i: int| 0 <= i < labels@.len() ==> #[trigger] labels@[i]@ == lv[i]);
        }
        let lat_labels = lat_pcts();
        let mean_label = "mean".to_owned();
        let stdev_label = "stdev".to_owned();
        let cum_label = "cum".to_owned();
        let mut table = ResultTable::new();
        let n = self.studies.len();
        let mut idx: usize = 0;
        proof {
            assert(self.rows_model().take(0) =~= Seq::<CompositeModel>::empty());
        }
        while idx < n
            invariant
                self.wf(),
                cum.wf(),
                n == self.studies@.len(),
                0 <= idx <= n,
                self.rows_model().len() == n,
                forall|i: int|
                    0 <= i < lat_pcts_spec().len() ==> cum@.contains_key(
                        (self.io_view(), #[trigger] lat_pcts_spec()[i]),
                    ),
                forall|i: int|
                    0 <= i < self.rows_model().len() ==> 1 <= (#[trigger] self.rows_model()[i]).mean_data.len()
                        < 0x100000000,
                labels@.len() == lv.len(),
                forall|i: int| 0 <= i < labels@.len() ==> #[trigger] labels@[i]@ == lv[i],
                forall|i: int| 0 <= i < lv.len() ==> is_pct_label(#[trigger] lv[i]),
                lat_labels@.len() == lat_pcts_spec().len(),
                forall|i: int|
                    0 <= i < lat_labels@.len() ==> #[trigger] lat_labels@[i]@ == lat_pcts_spec()[i],
                mean_label@ == "mean"@,
                stdev_label@ == "stdev"@,
                cum_label@ == "cum"@,
                table.wf(),
                table@ == table_spec(self.rows_model().take(idx as int), lv, cum@, self.io_view()),
                forall|i: int|
                    0 <= i < idx ==> table@.contains_key(#[trigger] lat_pcts_spec()[i]),
            decreases n - idx,
        {
            let ghost c = self.rows_model()[idx as int];
            let res = (&self.studies[idx]).result(&labels);
            let mean = res.0;
            let stdev = res.1;
            let mut row = res.2;
            proof {
                assert(c.mean_data == self.studies@[idx as int].mean_data());
                assert(c.pcts_data == self.studies@[idx as int].pcts_data());
            }
            row.set(&mean_label, mean);
            row.set(&stdev_label, stdev);
            let cumv = match cum.get(&self.io_type, &lat_labels[idx]) {
                Some(v) => v,
                None => {
                    proof {
                        assert(cum@.contains_key((self.io_view(), lat_pcts_spec()[idx as int])));
                        assert(false);
                    }
                    0
                },
            };
            row.set(&cum_label, cumv as u64);
            proof {
                let base = pcts_map_spec(c.pcts_data, lv);
                lemma_pcts_map_spec(c.pcts_data, lv);
                assert forall|k: Seq<char>| #[trigger] res.2@.contains_key(k) implies
                    base.contains_key(k) && res.2@[k] == base[k] by {
                    let j = choose|j: int| 0 <= j < labels@.len() && #[trigger] labels@[j]@ == k;
                    assert(lv[j] == k);
                }
                assert forall|k: Seq<char>| #[trigger] base.contains_key(k) implies
                    res.2@.contains_key(k) by {
                    let j = choose|j: int| 0 <= j < lv.len() && #[trigger] lv[j] == k;
                    assert(labels@[j]@ == k);
                }
                assert(res.2@ =~= base);
                if c.mean_data.len() >= 2 {
                    lemma_ceil_stdev_unique(c.mean_data, stdev as int);
                }
                assert(stdev as int == stdev_of(c.mean_data));
                let cumspec = cum@[(self.io_view(), lat_pcts_spec()[idx as int])] as u64;
                assert(cumv as u64 == cumspec);
                assert(row@ =~= row_spec(c, lv, cumspec));
            }
            table.set_row(&lat_labels[idx], row);
            proof {
                let rows = self.rows_model();
                let pre = rows.take(idx as int);
                let post = rows.take(idx + 1);
                assert(post.drop_last() =~= pre);
                assert(post.last() == rows[idx as int]);
                assert(post.len() == idx + 1);
                assert(table@ == table_spec(post, lv, cum@, self.io_view()));
            }
            idx = idx + 1;
        }
        proof {
            assert(self.rows_model().take(n as int) =~= self.rows_model());
        }
        table
    }

    /// Renders a result table as fixed-width aligned text: a header line
    /// of column names, then one line per latency label. Columns default
    /// to the narrower canonical set, always followed by `"cum"`,
    /// `"mean"` and `"stdev"`.
    pub fn format_table(out: &mut String, result: &ResultTable, time_pcts: Option<&Vec<String>>)
        requires
            result.wf(),
            forall|i: int|
                0 <= i < lat_pcts_spec().len() ==> result@.contains_key(
                    #[trigger] lat_pcts_spec()[i],
                ),
            match time_pcts {
                Some(v) => forall|i: int|
                    0 <= i < v@.len() ==> is_pct_label(#[trigger] v@[i]@) && v@[i]@.len() < 0x1000,
                None => true,
            },
            forall|i: int, j: int|
                #![trigger result@[lat_pcts_spec()[i]].contains_key(cols_of(time_pcts)[j])]
                0 <= i < lat_pcts_spec().len() && 0 <= j < cols_of(time_pcts).len()
                    ==> result@[lat_pcts_spec()[i]].contains_key(cols_of(time_pcts)[j]),
        ensures
            final(out)@ == old(out)@ + table_text(result@, cols_of(time_pcts)),
    {
        let ghost base = old(out)@;
        let ghost cv = cols_of(time_pcts);
        let mut cols: Vec<String> = match time_pcts {
            Some(v) => copy_labels(v),
            None => time_format_pcts(),
        };
        cols.push("cum".to_owned());
        cols.push("mean".to_owned());
        cols.push("stdev".to_owned());
        proof {
            lemma_canonical_labels();
            reveal_strlit("cum");
            reveal_strlit("mean");
            reveal_strlit("stdev");
            assert(cols@.len() == cv.len());
            assert(forall|j: int| 0 <= j < cols@.len() ==> #[trigger] cols@[j]@ == cv[j]);
            assert forall|j: int| 0 <= j < cv.len() implies (#[trigger] cv[j]).len() < 0x1000 by {
                if time_pcts is None && j < cv.len() - 3 {
                    lemma_label_lens();
                }
            }
            assert forall|j: int| 0 <= j < cv.len() implies is_pct_label(#[trigger] cv[j]) || cv[j]
                == "cum"@ || cv[j] == "mean"@ || cv[j] == "stdev"@ by {}
        }
        let ncols = cols.len();
        out.append("       ");
        proof {
            reveal_strlit("       ");
            assert(cv.take(0) =~= Seq::<Seq<char>>::empty());
            assert(out@ =~= base + "       "@ + header_cells(cv.take(0)));
        }
        let mut j: usize = 0;
        while j < ncols
            invariant
                ncols == cols@.len(),
                cols@.len() == cv.len(),
                0 <= j <= ncols,
                forall|k: int| 0 <= k < cols@.len() ==> #[trigger] cols@[k]@ == cv[k],
                forall|k: int| 0 <= k < cv.len() ==> (#[trigger] cv[k]).len() < 0x1000,
                forall|k: int|
                    0 <= k < cv.len() ==> is_pct_label(#[trigger] cv[k]) || cv[k] == "cum"@
                        || cv[k] == "mean"@ || cv[k] == "stdev"@,
                out@ == base + "       "@ + header_cells(cv.take(j as int)),
            decreases ncols - j,
        {
            out.append(" ");
            let f = fmt_pct(&cols[j]);
            let w = col_width_exec(&cols[j]);
            let a = right_align(&f, w);
            out.append(a.as_str());
            proof {
                reveal_strlit(" ");
                assert(cv.take(j + 1).drop_last() =~= cv.take(j as int));
                assert(cv.take(j + 1).last() == cv[j as int]);
                assert(out@ =~= base + "       "@ + header_cells(cv.take(j + 1)));
            }
            j = j + 1;
        }
        proof {
            assert(cv.take(ncols as int) =~= cv);
        }
        let lat_labels = lat_pcts();
        let nrows = lat_labels.len();
        let mut i: usize = 0;
        proof {
            assert(out@ =~= base + "       "@ + header_cells(cv) + rows_text(result@, cv, 0));
        }
        while i < nrows
            invariant
                result.wf(),
                nrows == lat_pcts_spec().len(),
                lat_labels@.len() == nrows,
                forall|k: int|
                    0 <= k < lat_labels@.len() ==> #[trigger] lat_labels@[k]@ == lat_pcts_spec()[k],
                0 <= i <= nrows,
                ncols == cols@.len(),
                cols@.len() == cv.len(),
                forall|k: int| 0 <= k < cols@.len() ==> #[trigger] cols@[k]@ == cv[k],
                forall|k: int| 0 <= k < cv.len() ==> (#[trigger] cv[k]).len() < 0x1000,
                forall|k: int|
                    0 <= k < cv.len() ==> is_pct_label(#[trigger] cv[k]) || cv[k] == "cum"@
                        || cv[k] == "mean"@ || cv[k] == "stdev"@,
                forall|k: int|
                    0 <= k < lat_pcts_spec().len() ==> result@.contains_key(
                        #[trigger] lat_pcts_spec()[k],
                    ),
                forall|a: int, b: int|
                    #![trigger result@[lat_pcts_spec()[a]].contains_key(cv[b])]
                    0 <= a < lat_pcts_spec().len() && 0 <= b < cv.len()
                        ==> result@[lat_pcts_spec()[a]].contains_key(cv[b]),
                out@ == base + "       "@ + header_cells(cv) + rows_text(result@, cv, i as int),
            decreases nrows - i,
        {
            proof {
                lemma_canonical_labels();
            }
            out.append("\n");
            let h = fmt_pct(&lat_labels[i]);
            let a = left_align(&h, 7);
            out.append(a.as_str());
            let row = match result.get_row(&lat_labels[i]) {
                Some(r) => r,
                None => {
                    proof {
                        assert(result@.contains_key(lat_pcts_spec()[i as int]));
                        assert(false);
                    }
                    return ;
                },
            };
            let ghost rowmap = result@[lat_pcts_spec()[i as int]];
            let ghost linebase = out@;
            proof {
                reveal_strlit("\n");
                assert(row_cells(rowmap, cv.take(0)) =~= Seq::<char>::empty());
                assert(linebase =~= base + "       "@ + header_cells(cv) + rows_text(
                    result@,
                    cv,
                    i as int,
                ) + seq!['\n'] + left_align_spec(fmt_pct_spec(lat_pcts_spec()[i as int]), 7)
                    + row_cells(rowmap, cv.take(0)));
            }
            let mut j2: usize = 0;
            while j2 < ncols
                invariant
                    result.wf(),
                    0 <= j2 <= ncols,
                    ncols == cols@.len(),
                    cols@.len() == cv.len(),
                    forall|k: int| 0 <= k < cols@.len() ==> #[trigger] cols@[k]@ == cv[k],
                    forall|k: int| 0 <= k < cv.len() ==> (#[trigger] cv[k]).len() < 0x1000,
                    row.wf(),
                    row@ == rowmap,
                    forall|b: int| 0 <= b < cv.len() ==> rowmap.contains_key(#[trigger] cv[b]),
                    out@ == linebase + row_cells(rowmap, cv.take(j2 as int)),
                decreases ncols - j2,
            {
                out.append(" ");
                let v = match row.get(&cols[j2]) {
                    Some(v) => v,
                    None => {
                        proof {
                            assert(rowmap.contains_key(cv[j2 as int]));
                            assert(false);
                        }
                        return ;
                    },
                };
                let f = format_value(v);
                let w = col_width_exec(&cols[j2]);
                let a2 = right_align(&f, w);
                out.append(a2.as_str());
                proof {
                    reveal_strlit(" ");
                    assert(cv.take(j2 + 1).drop_last() =~= cv.take(j2 as int));
                    assert(cv.take(j2 + 1).last() == cv[j2 as int]);
                    assert(out@ =~= linebase + row_cells(rowmap, cv.take(j2 + 1)));
                }
                j2 = j2 + 1;
            }
            proof {
                assert(cv.take(ncols as int) =~= cv);
                assert(out@ =~= base + "       "@ + header_cells(cv) + rows_text(
                    result@,
                    cv,
                    i + 1,
                ));
            }
            i = i + 1;
        }
        out.append("\n");
        proof {
            reveal_strlit("\n");
            assert(out@ =~= base + table_text(result@, cv));
        }
    }
}

/// The chosen column labels followed by the reserved three.
pub open spec fn cols_of(time_pcts: Option<&Vec<String>>) -> Seq<Seq<char>> {
    (match time_pcts {
        Some(v) => v@.map_values(|s: String| s@),
        None => time_format_pcts_spec(),
    }) + seq!["cum"@, "mean"@, "stdev"@]
}

/// How a column or row label renders: `"00"`-valued labels as `"min"`,
/// `"100"`-valued ones as `"max"`, reserved names unchanged, and any
/// other percentile as `"p<label>"`.
pub open spec fn fmt_pct_spec(l: Seq<char>) -> Seq<char> {
    if l == "cum"@ || l == "mean"@ || l == "stdev"@ {
        l
    } else if pct_num(l) == 0 {
        "min"@
    } else if pct_num(l) == 100 * pct_den(l) {
        "max"@
    } else {
        seq!['p'] + l
    }
}

/// A column's width: at least five, else one more than the label.
pub open spec fn col_width(l: Seq<char>) -> int {
    if l.len() + 1 > 5 {
        l.len() as int + 1
    } else {
        5
    }
}

/// The header cells, one leading space each.
pub open spec fn header_cells(cols: Seq<Seq<char>>) -> Seq<char>
    decreases cols.len(),
{
    if cols.len() == 0 {
        Seq::empty()
    } else {
        header_cells(cols.drop_last()) + seq![' '] + right_align_spec(
            fmt_pct_spec(cols.last()),
            col_width(cols.last()),
        )
    }
}

/// One row's cells, one leading space each.
pub open spec fn row_cells(row: Map<Seq<char>, u64>, cols: Seq<Seq<char>>) -> Seq<char>
    decreases cols.len(),
{
    if cols.len() == 0 {
        Seq::empty()
    } else {
        row_cells(row, cols.drop_last()) + seq![' '] + right_align_spec(
            dec_spec(row[cols.last()] as int),
            col_width(cols.last()),
        )
    }
}

/// The first `k` table lines below the header.
pub open spec fn rows_text(
    t: Map<Seq<char>, Map<Seq<char>, u64>>,
    cols: Seq<Seq<char>>,
    k: int,
) -> Seq<char>
    decreases k,
{
    if k <= 0 {
        Seq::empty()
    } else {
        rows_text(t, cols, k - 1) + seq!['\n'] + left_align_spec(
            fmt_pct_spec(lat_pcts_spec()[k - 1]),
            7,
        ) + row_cells(t[lat_pcts_spec()[k - 1]], cols)
    }
}

/// The whole rendered table: a seven-space row-header field, the column
/// headers, one line per latency label, and a final newline.
pub open spec fn table_text(
    t: Map<Seq<char>, Map<Seq<char>, u64>>,
    cols: Seq<Seq<char>>,
) -> Seq<char> {
    "       "@ + header_cells(cols) + rows_text(t, cols, lat_pcts_spec().len() as int) + seq!['\n']
}

/// The canonical labels are short.
proof fn lemma_label_lens()
    ensures
        forall|i: int|
            0 <= i < time_format_pcts_spec().len() ==> (#[trigger] time_format_pcts_spec()[i]).len()
                < 0x1000,
        forall|i: int|
            0 <= i < lat_pcts_spec().len() ==> (#[trigger] lat_pcts_spec()[i]).len() < 0x1000,
{
    reveal_strlit("00");
    reveal_strlit("01");
    reveal_strlit("05");
    reveal_strlit("10");
    reveal_strlit("16");
    reveal_strlit("25");
    reveal_strlit("50");
    reveal_strlit("75");
    reveal_strlit("84");
    reveal_strlit("90");
    reveal_strlit("95");
    reveal_strlit("99");
    reveal_strlit("99.9");
    reveal_strlit("100");
}

/// Renders one label for display.
pub fn fmt_pct(label: &String) -> (r: String)
    requires
        is_pct_label(label@) || label@ == "cum"@ || label@ == "mean"@ || label@ == "stdev"@,
    ensures
        r@ == fmt_pct_spec(label@),
{
    let cum = "cum".to_owned();
    let mean = "mean".to_owned();
    let stdev = "stdev".to_owned();
    if label.eq(&cum) || label.eq(&mean) || label.eq(&stdev) {
        return label.clone();
    }
    match parse_pct_label(label.as_str()) {
        Some(p) => {
            if p.0 == 0 {
                "min".to_owned()
            } else if p.0 == 100 * p.1 {
                "max".to_owned()
            } else {
                let mut r = "p".to_owned();
                r.append(label.as_str());
                proof {
                    reveal_strlit("p");
                    assert(r@ =~= seq!['p'] + label@);
                }
                r
            }
        },
        None => {
            proof {
                assert(false);
            }
            label.clone()
        },
    }
}

/// Computes a column's width.
fn col_width_exec(label: &String) -> (w: usize)
    requires
        label@.len() < 0x1000,
    ensures
        w == col_width(label@),
{
    let len = label.as_str().unicode_len();
    if len + 1 > 5 {
        len + 1
    } else {
        5
    }
}

} // verus!
