//! The percentile study: an order-statistics accumulator over the values
//! one selector extracts, answering percentile queries exactly (and so
//! within any configured tolerance).

use vstd::prelude::*;
use vstd::seq_lib::{to_multiset_build, to_multiset_insert};
use crate::error::StudyError;
use crate::label::{digits_val, is_pct_label, parse_pct_label, pct_den, pct_num, rank_index,
    rank_of, lemma_rank_monotone, lemma_digits_nonneg, lemma_pow10_pos, int_part, frac_part};
use crate::report::Report;
use crate::select::{sel_spec, Selector};
use crate::table::PctMap;

verus! {

/// Non-decreasing order.
pub open spec fn sorted(s: Seq<u32>) -> bool {
    forall|i: int, j: int| 0 <= i <= j < s.len() ==> s[i] <= s[j]
}

/// `v` placed before the first strictly larger element.
pub open spec fn insert_sorted(s: Seq<u32>, v: u32) -> Seq<u32>
    decreases s.len(),
{
    if s.len() == 0 {
        seq![v]
    } else if v < s[0] {
        seq![v].add(s)
    } else {
        seq![s[0]].add(insert_sorted(s.drop_first(), v))
    }
}

/// What one report does to the sorted samples.
pub open spec fn pcts_feed(data: Seq<u32>, v: Option<u32>) -> Seq<u32> {
    match v {
        Some(x) => insert_sorted(data, x),
        None => data,
    }
}

/// The value a percentile label addresses in sorted samples.
pub open spec fn pct_value(data: Seq<u32>, l: Seq<char>) -> u64 {
    data[rank_of(pct_num(l), pct_den(l), data.len() as int)] as u64
}

/// One insertion grows the samples by one.
pub proof fn lemma_insert_sorted_len(s: Seq<u32>, v: u32)
    ensures
        insert_sorted(s, v).len() == s.len() + 1,
    decreases s.len(),
{
    if s.len() != 0 && !(v < s[0]) {
        lemma_insert_sorted_len(s.drop_first(), v);
    }
}

/// Inserting at the position the order dictates builds `insert_sorted`.
proof fn lemma_insert_sorted_shape(s: Seq<u32>, v: u32, i: int)
    requires
        0 <= i <= s.len(),
        forall|k: int| 0 <= k < i ==> s[k] <= v,
        i < s.len() ==> s[i] > v,
    ensures
        insert_sorted(s, v) == s.insert(i, v),
    decreases s.len(),
{
    if s.len() == 0 {
        assert(insert_sorted(s, v) =~= s.insert(0, v));
    } else if i == 0 {
        assert(s[0] > v);
        assert(seq![v].add(s) =~= s.insert(0, v));
    } else {
        assert(s[0] <= v);
        let t = s.drop_first();
        assert forall|k: int| 0 <= k < i - 1 implies t[k] <= v by {
            assert(t[k] == s[k + 1]);
        }
        if i - 1 < t.len() {
            assert(t[i - 1] == s[i]);
        }
        lemma_insert_sorted_shape(t, v, i - 1);
        assert(seq![s[0]].add(t.insert(i - 1, v)) =~= s.insert(i, v));
    }
}

/// The percentile study: keeps every selected value, sorted, and answers
/// a percentile query with the sample at the label's exact rank.
pub struct StudyPcts {
    sel: Selector,
    data: Vec<u32>,
    error_ppm: u64,
}

impl StudyPcts {
    /// The samples collected so far, in non-decreasing order.
    pub closed spec fn data_view(&self) -> Seq<u32> {
        self.data@
    }

    /// The selector this study extracts values with.
    pub closed spec fn sel_view(&self) -> (Seq<char>, Seq<char>) {
        self.sel@
    }

    /// The samples stay sorted.
    pub closed spec fn wf(&self) -> bool {
        sorted(self.data@)
    }

    /// The configured relative-error tolerance, in parts per million.
    pub closed spec fn error_view(&self) -> u64 {
        self.error_ppm
    }

    /// A fresh study with no samples. `error` is the requested
    /// relative-error tolerance in parts per million (1000 when absent);
    /// answers are exact either way, which meets any tolerance.
    pub fn new(sel: Selector, error: Option<u64>) -> (r: StudyPcts)
        ensures
            r.sel_view() == sel@,
            r.data_view() == Seq::<u32>::empty(),
            r.wf(),
            r.error_view() == match error {
                Some(e) => e,
                None => 1000u64,
            },
    {
        let e = match error {
            Some(e) => e,
            None => 1000,
        };
        let r = StudyPcts { sel, data: Vec::new(), error_ppm: e };
        proof {
            assert(r.data_view() =~= Seq::<u32>::empty());
        }
        r
    }

    /// Feeds one report: inserts the selected value in order, or nothing
    /// when the selector has none. One insertion per observed value;
    /// never fails.
    pub fn study(&mut self, rep: &Report) -> (r: Result<(), StudyError>)
        requires
            rep.wf(),
            old(self).wf(),
        ensures
            r is Ok,
            final(self).wf(),
            final(self).sel_view() == old(self).sel_view(),
            final(self).error_view() == old(self).error_view(),
            final(self).data_view() == pcts_feed(
                old(self).data_view(),
                sel_spec(old(self).sel_view(), rep@),
            ),
            (match sel_spec(old(self).sel_view(), rep@) {
                Some(v) => final(self).data_view().to_multiset() == old(
                    self,
                ).data_view().to_multiset().insert(v),
                None => final(self).data_view() == old(self).data_view(),
            }),
    {
        let ghost pre = self.data@;
        match self.sel.select(rep) {
            Some(v) => {
                let n = self.data.len();
                let mut lo: usize = 0;
                let mut hi: usize = n;
                while lo < hi
                    invariant
                        pre == self.data@,
                        n == pre.len(),
                        sorted(pre),
                        0 <= lo <= hi <= n,
                        forall|k: int| 0 <= k < lo ==> pre[k] <= v,
                        forall|k: int| hi <= k < n ==> pre[k] > v,
                    decreases hi - lo,
                {
                    let mid = lo + (hi - lo) / 2;
                    if self.data[mid] <= v {
                        proof {
                            assert forall|k: int| 0 <= k < mid + 1 implies pre[k] <= v by {
                                assert(pre[k] <= pre[mid as int]);
                            }
                        }
                        lo = mid + 1;
                    } else {
                        proof {
                            assert forall|k: int| mid <= k < n implies pre[k] > v by {
                                assert(pre[mid as int] <= pre[k]);
                            }
                        }
                        hi = mid;
                    }
                }
                self.data.insert(lo, v);
                proof {
                    lemma_insert_sorted_shape(pre, v, lo as int);
                    to_multiset_insert(pre, lo as int, v);
                    let post = self.data@;
                    assert forall|i: int, j: int| 0 <= i <= j < post.len() implies post[i]
                        <= post[j] by {
                        let a = if i < lo as int { i } else { i - 1 };
                        let b = if j < lo as int { j } else { j - 1 };
                        if i != lo as int && j != lo as int {
                            assert(post[i] == pre[a] && post[j] == pre[b]);
                            assert(pre[a] <= pre[b]);
                        } else if i == lo as int && j != lo as int {
                            assert(post[j] == pre[b]);
                            assert(pre[b] > v);
                        } else if i != lo as int && j == lo as int {
                            assert(post[i] == pre[a]);
                            assert(pre[a] <= v);
                        }
                    }
                }
            },
            None => {},
        }
        Ok(())
    }

    /// Answers one percentile query: the sample whose rank the label's
    /// exact percentage addresses.
    pub fn query(&self, label: &String) -> (r: u64)
        requires
            self.wf(),
            self.data_view().len() >= 1,
            is_pct_label(label@),
        ensures
            r == pct_value(self.data_view(), label@),
    {
        let parsed = parse_pct_label(label.as_str());
        match parsed {
            Some(p) => {
                let idx = rank_index(p.0, p.1, self.data.len());
                self.data[idx] as u64
            },
            None => {
                proof {
                    assert(false);
                }
                0
            },
        }
    }

    /// Answers a batch of percentile queries: one entry per label, each
    /// the sample at that label's exact rank.
    pub fn result(&self, pcts: &Vec<String>) -> (r: PctMap)
        requires
            self.wf(),
            self.data_view().len() >= 1,
            forall|i: int| 0 <= i < pcts@.len() ==> is_pct_label(#[trigger] pcts@[i]@),
        ensures
            r.wf(),
            forall|i: int|
                0 <= i < pcts@.len() ==> r@.contains_key(#[trigger] pcts@[i]@) && r@[pcts@[i]@]
                    == pct_value(self.data_view(), pcts@[i]@),
            forall|k: Seq<char>|
                r@.contains_key(k) ==> exists|i: int| 0 <= i < pcts@.len() && #[trigger] pcts@[i]@
                    == k,
    {
        let mut r = PctMap::new();
        let n = pcts.len();
        let mut i: usize = 0;
        while i < n
            invariant
                self.wf(),
                self.data_view().len() >= 1,
                n == pcts@.len(),
                0 <= i <= n,
                forall|j: int| 0 <= j < pcts@.len() ==> is_pct_label(#[trigger] pcts@[j]@),
                r.wf(),
                forall|j: int|
                    0 <= j < i ==> r@.contains_key(#[trigger] pcts@[j]@) && r@[pcts@[j]@]
                        == pct_value(self.data_view(), pcts@[j]@),
                forall|k: Seq<char>|
                    r@.contains_key(k) ==> exists|j: int| 0 <= j < i && #[trigger] pcts@[j]@ == k,
            decreases n - i,
        {
            let v = self.query(&pcts[i]);
            r.set(&pcts[i], v);
            i = i + 1;
        }
        r
    }
}

/// Percentile monotonicity: a label with a smaller percentage value
/// never yields a larger sample than a label with a greater one.
pub proof fn lemma_pct_monotone(data: Seq<u32>, l1: Seq<char>, l2: Seq<char>)
    requires
        sorted(data),
        data.len() >= 1,
        is_pct_label(l1),
        is_pct_label(l2),
        pct_num(l1) * pct_den(l2) <= pct_num(l2) * pct_den(l1),
    ensures
        pct_value(data, l1) <= pct_value(data, l2),
{
    lemma_digits_nonneg(int_part(l1));
    lemma_digits_nonneg(frac_part(l1));
    lemma_digits_nonneg(int_part(l2));
    lemma_digits_nonneg(frac_part(l2));
    lemma_pow10_pos(frac_part(l1).len());
    lemma_pow10_pos(frac_part(l2).len());
    assert(pct_num(l1) >= 0) by (nonlinear_arith)
        requires
            digits_val(int_part(l1)) >= 0,
            digits_val(frac_part(l1)) >= 0,
            pct_den(l1) >= 1,
            pct_num(l1) == digits_val(int_part(l1)) * pct_den(l1) + digits_val(frac_part(l1)),
    ;
    assert(pct_num(l2) >= 0) by (nonlinear_arith)
        requires
            digits_val(int_part(l2)) >= 0,
            digits_val(frac_part(l2)) >= 0,
            pct_den(l2) >= 1,
            pct_num(l2) == digits_val(int_part(l2)) * pct_den(l2) + digits_val(frac_part(l2)),
    ;
    lemma_rank_monotone(pct_num(l1), pct_den(l1), pct_num(l2), pct_den(l2), data.len() as int);
    let r1 = rank_of(pct_num(l1), pct_den(l1), data.len() as int);
    let r2 = rank_of(pct_num(l2), pct_den(l2), data.len() as int);
    assert(0 <= r1 && r2 < data.len()) by {
        lemma_rank_bounds(pct_num(l1), pct_den(l1), data.len() as int);
        lemma_rank_bounds(pct_num(l2), pct_den(l2), data.len() as int);
    }
    assert(data[r1] <= data[r2]);
}

/// Ranks are valid indices.
proof fn lemma_rank_bounds(num: int, den: int, n: int)
    requires
        n >= 1,
        den >= 1,
        num >= 0,
    ensures
        0 <= rank_of(num, den, n) < n,
{
    let q = (num * n) / (den * 100);
    assert(num * n >= 0) by (nonlinear_arith)
        requires
            num >= 0,
            n >= 1,
    ;
    vstd::arithmetic::div_mod::lemma_div_pos_is_pos(num * n, den * 100);
}

} // verus!
