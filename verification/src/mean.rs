//! The mean study: running mean, standard deviation, minimum and maximum
//! over the values one selector extracts from the report stream.

use vstd::prelude::*;
use vstd::arithmetic::div_mod::{
    lemma_fundamental_div_mod,
    lemma_div_is_ordered,
    lemma_div_by_multiple,
    lemma_multiply_divide_lt,
};
use vstd::arithmetic::mul::{lemma_mul_inequality, lemma_mul_is_commutative};
use crate::error::StudyError;
use crate::report::Report;
use crate::select::{sel_spec, Selector};

verus! {

/// The sum of a sample sequence.
pub open spec fn sum_of(s: Seq<u32>) -> int
    decreases s.len(),
{
    if s.len() == 0 {
        0
    } else {
        sum_of(s.drop_last()) + s.last()
    }
}

/// The sum of the squares of a sample sequence.
pub open spec fn sum_sq(s: Seq<u32>) -> int
    decreases s.len(),
{
    if s.len() == 0 {
        0
    } else {
        sum_sq(s.drop_last()) + s.last() * s.last()
    }
}

/// The dispersion `n * sum of squares - (sum)^2`: `n^2` times the
/// population variance. Zero exactly when all samples are equal.
pub open spec fn disp_of(s: Seq<u32>) -> int {
    s.len() * sum_sq(s) - sum_of(s) * sum_of(s)
}

/// The sum of squared distances of the samples from `y`.
pub open spec fn sq_dev_sum(s: Seq<u32>, y: int) -> int
    decreases s.len(),
{
    if s.len() == 0 {
        0
    } else {
        sq_dev_sum(s.drop_last(), y) + (s.last() - y) * (s.last() - y)
    }
}

/// The sample mean, rounded down.
pub open spec fn mean_of(s: Seq<u32>) -> int {
    sum_of(s) / s.len() as int
}

/// `r` is the sample standard deviation of `s` rounded up to the next
/// integer: the least `r` with `r^2 >= disp / (n * (n - 1))`.
pub open spec fn is_ceil_stdev(s: Seq<u32>, r: int) -> bool {
    let m = s.len() * (s.len() - 1);
    &&& r * r * m >= disp_of(s)
    &&& (r == 0 || (r - 1) * (r - 1) * m < disp_of(s))
}

/// The value `result` reports as standard deviation: zero for at most
/// one sample, else the unique integer `is_ceil_stdev` admits.
pub open spec fn stdev_of(s: Seq<u32>) -> int {
    if s.len() <= 1 {
        0
    } else {
        choose|r: int| 0 <= r && is_ceil_stdev(s, r)
    }
}

/// `is_ceil_stdev` pins the standard deviation down.
pub proof fn lemma_ceil_stdev_unique(s: Seq<u32>, r: int)
    requires
        s.len() >= 2,
        0 <= r,
        is_ceil_stdev(s, r),
    ensures
        stdev_of(s) == r,
{
    assert(exists|x: int| 0 <= x && is_ceil_stdev(s, x)) by {
        assert(0 <= r && is_ceil_stdev(s, r));
    }
    let c = choose|x: int| 0 <= x && is_ceil_stdev(s, x);
    let m = s.len() * (s.len() - 1);
    let d = disp_of(s);
    assert(m >= 2) by (nonlinear_arith)
        requires
            s.len() >= 2,
            m == s.len() * (s.len() - 1),
    ;
    if c < r {
        assert(c * c * m < d) by (nonlinear_arith)
            requires
                0 <= c,
                c <= r - 1,
                m >= 1,
                (r - 1) * (r - 1) * m < d,
        ;
        assert(false);
    }
    if r < c {
        assert(r * r * m < d) by (nonlinear_arith)
            requires
                0 <= r,
                r <= c - 1,
                m >= 1,
                (c - 1) * (c - 1) * m < d,
        ;
        assert(false);
    }
}

/// `v` is the least sample.
pub open spec fn is_min(s: Seq<u32>, v: u32) -> bool {
    &&& forall|i: int| 0 <= i < s.len() ==> v <= #[trigger] s[i]
    &&& exists|i: int| 0 <= i < s.len() && v == #[trigger] s[i]
}

/// `v` is the greatest sample.
pub open spec fn is_max(s: Seq<u32>, v: u32) -> bool {
    &&& forall|i: int| 0 <= i < s.len() ==> v >= #[trigger] s[i]
    &&& exists|i: int| 0 <= i < s.len() && v == #[trigger] s[i]
}

/// What one report does to a sample sequence: appends the selected
/// value, or nothing.
pub open spec fn feed_value(data: Seq<u32>, v: Option<u32>) -> Seq<u32> {
    match v {
        Some(x) => data.push(x),
        None => data,
    }
}

/// Expands the squared-distance sum around `y`.
proof fn lemma_sq_dev_expand(s: Seq<u32>, y: int)
    ensures
        sq_dev_sum(s, y) == sum_sq(s) - 2 * y * sum_of(s) + s.len() * y * y,
    decreases s.len(),
{
    if s.len() == 0 {
    } else {
        let t = s.drop_last();
        let x = s.last() as int;
        lemma_sq_dev_expand(t, y);
        assert(sq_dev_sum(s, y) == sum_sq(t) - 2 * y * sum_of(t) + t.len() * y * y + (x - y) * (x
            - y));
        assert(sum_sq(t) - 2 * y * sum_of(t) + t.len() * y * y + (x - y) * (x - y) == (sum_sq(t) + x
            * x) - 2 * y * (sum_of(t) + x) + (t.len() + 1) * y * y) by (nonlinear_arith);
    }
}

/// Appending a sample `y` raises the dispersion by the squared-distance
/// sum of the old samples from `y`.
proof fn lemma_disp_push(s: Seq<u32>, y: u32)
    ensures
        disp_of(s.push(y)) == disp_of(s) + sq_dev_sum(s, y as int),
{
    let n = s.len() as int;
    let s0 = sum_of(s);
    let q = sum_sq(s);
    let yy = y as int;
    assert(s.push(y).drop_last() =~= s);
    assert(sum_of(s.push(y)) == s0 + yy);
    assert(sum_sq(s.push(y)) == q + yy * yy);
    lemma_sq_dev_expand(s, yy);
    assert((n + 1) * (q + yy * yy) - (s0 + yy) * (s0 + yy) == n * q - s0 * s0 + (q - 2 * yy * s0 + n
        * yy * yy)) by (nonlinear_arith);
}

/// The squared-distance sum is non-negative, zero exactly when every
/// sample equals `y`.
proof fn lemma_sq_dev_props(s: Seq<u32>, y: int)
    ensures
        sq_dev_sum(s, y) >= 0,
        (exists|i: int| 0 <= i < s.len() && s[i] != y) ==> sq_dev_sum(s, y) > 0,
    decreases s.len(),
{
    if s.len() == 0 {
    } else {
        let t = s.drop_last();
        let x = s.last() as int;
        lemma_sq_dev_props(t, y);
        assert((x - y) * (x - y) >= 0) by (nonlinear_arith);
        if x != y {
            assert((x - y) * (x - y) > 0) by (nonlinear_arith)
                requires
                    x != y,
            ;
        }
        if exists|i: int| 0 <= i < s.len() && s[i] != y {
            let i = choose|i: int| 0 <= i < s.len() && s[i] != y;
            if i < s.len() - 1 {
                assert(t[i] != y);
            } else {
                assert(x != y);
            }
        }
    }
}

/// The dispersion is non-negative; positive exactly when two samples
/// differ.
pub proof fn lemma_disp_props(s: Seq<u32>)
    ensures
        disp_of(s) >= 0,
        (exists|i: int, j: int| 0 <= i < s.len() && 0 <= j < s.len() && s[i] != s[j]) ==> disp_of(s)
            > 0,
        (forall|i: int, j: int|
            0 <= i < s.len() && 0 <= j < s.len() ==> #[trigger] s[i] == #[trigger] s[j]) ==> disp_of(
            s,
        ) == 0,
    decreases s.len(),
{
    if s.len() == 0 {
        assert(disp_of(s) == 0);
    } else {
        let t = s.drop_last();
        let y = s.last();
        assert(t.push(y) =~= s);
        lemma_disp_push(t, y);
        lemma_disp_props(t);
        lemma_sq_dev_props(t, y as int);
        if exists|i: int, j: int| 0 <= i < s.len() && 0 <= j < s.len() && s[i] != s[j] {
            let (i, j) = choose|i: int, j: int|
                0 <= i < s.len() && 0 <= j < s.len() && s[i] != s[j];
            if i < s.len() - 1 && j < s.len() - 1 {
                assert(t[i] != t[j]);
                assert(disp_of(t) > 0);
            } else if i == s.len() - 1 && j == s.len() - 1 {
                assert(false);
            } else if i == s.len() - 1 {
                assert(t[j] != y);
                assert(sq_dev_sum(t, y as int) > 0);
            } else {
                assert(t[i] != y);
                assert(sq_dev_sum(t, y as int) > 0);
            }
        }
        if forall|i: int, j: int|
            0 <= i < s.len() && 0 <= j < s.len() ==> #[trigger] s[i] == #[trigger] s[j] {
            assert forall|i: int, j: int|
                0 <= i < t.len() && 0 <= j < t.len() implies #[trigger] t[i] == #[trigger] t[j] by {
                assert(t[i] == s[i] && t[j] == s[j]);
            }
            assert(disp_of(t) == 0);
            if exists|i: int| 0 <= i < t.len() && t[i] != y as int {
                let i = choose|i: int| 0 <= i < t.len() && t[i] != y as int;
                assert(s[i] == s[s.len() - 1]);
                assert(false);
            }
            assert(sq_dev_sum(t, y as int) == 0) by {
                lemma_sq_dev_all_eq(t, y as int);
            }
        }
    }
}

/// The squared-distance sum vanishes when every sample equals `y`.
proof fn lemma_sq_dev_all_eq(s: Seq<u32>, y: int)
    requires
        forall|i: int| 0 <= i < s.len() ==> #[trigger] s[i] == y,
    ensures
        sq_dev_sum(s, y) == 0,
    decreases s.len(),
{
    if s.len() != 0 {
        let t = s.drop_last();
        assert forall|i: int| 0 <= i < t.len() implies #[trigger] t[i] == y by {
            assert(t[i] == s[i]);
        }
        lemma_sq_dev_all_eq(t, y);
        assert(s[s.len() - 1] == y);
        let z = s.last() - y;
        assert(z == 0);
        assert(z * z == 0) by (nonlinear_arith)
            requires
                z == 0,
        ;
    }
}

/// Bounds the sum by the extremes times the length.
pub proof fn lemma_sum_bounds(s: Seq<u32>, lo: int, hi: int)
    requires
        forall|i: int| 0 <= i < s.len() ==> lo <= #[trigger] s[i] <= hi,
    ensures
        s.len() * lo <= sum_of(s) <= s.len() * hi,
    decreases s.len(),
{
    if s.len() == 0 {
    } else {
        let t = s.drop_last();
        lemma_sum_bounds(t, lo, hi);
        assert(t.len() * lo + lo == (t.len() + 1) * lo) by (nonlinear_arith);
        assert(t.len() * hi + hi == (t.len() + 1) * hi) by (nonlinear_arith);
    }
}

/// Bounds the sum of squares by the square of the bound times the length.
proof fn lemma_sum_sq_bound(s: Seq<u32>, hi: int)
    requires
        hi >= 0,
        forall|i: int| 0 <= i < s.len() ==> #[trigger] s[i] <= hi,
    ensures
        0 <= sum_sq(s) <= s.len() * (hi * hi),
    decreases s.len(),
{
    if s.len() == 0 {
    } else {
        let t = s.drop_last();
        let x = s.last() as int;
        lemma_sum_sq_bound(t, hi);
        assert(0 <= x * x <= hi * hi) by (nonlinear_arith)
            requires
                0 <= x <= hi,
        ;
        assert(t.len() * (hi * hi) + hi * hi == (t.len() + 1) * (hi * hi)) by (nonlinear_arith);
    }
}

/// Rounding up a quotient: `a * m >= d` exactly when `a` reaches the
/// ceiling of `d / m`.
proof fn lemma_ceil_div(a: int, d: int, m: int)
    requires
        m >= 1,
        d >= 0,
        a >= 0,
    ensures
        (a * m >= d) <==> (a >= (d + m - 1) / m),
{
    let v = (d + m - 1) / m;
    lemma_fundamental_div_mod(d + m - 1, m);
    let rr = (d + m - 1) % m;
    if a >= v {
        assert(v >= 0) by {
            vstd::arithmetic::div_mod::lemma_div_pos_is_pos(d + m - 1, m);
        }
        assert(a * m >= v * m) by (nonlinear_arith)
            requires
                a >= v,
                m >= 1,
        ;
        assert(v * m == d + m - 1 - rr) by (nonlinear_arith)
            requires
                d + m - 1 == m * v + rr,
        ;
        assert(a * m >= d);
    }
    if a * m >= d && a < v {
        assert(a * m <= (v - 1) * m) by (nonlinear_arith)
            requires
                a <= v - 1,
                m >= 1,
        ;
        assert((v - 1) * m == d - 1 - rr) by (nonlinear_arith)
            requires
                d + m - 1 == m * v + rr,
        ;
        assert(false);
    }
}

/// The mean study: collects every selected value and reports mean,
/// standard deviation, minimum and maximum.
pub struct StudyMean {
    sel: Selector,
    data: Vec<u32>,
}

impl StudyMean {
    /// The samples collected so far.
    pub closed spec fn data_view(&self) -> Seq<u32> {
        self.data@
    }

    /// The selector this study extracts values with.
    pub closed spec fn sel_view(&self) -> (Seq<char>, Seq<char>) {
        self.sel@
    }

    /// A fresh study with no samples.
    pub fn new(sel: Selector) -> (r: StudyMean)
        ensures
            r.sel_view() == sel@,
            r.data_view() == Seq::<u32>::empty(),
    {
        let r = StudyMean { sel, data: Vec::new() };
        proof {
            assert(r.data_view() =~= Seq::<u32>::empty());
        }
        r
    }

    /// Feeds one report: appends the selected value, or nothing when the
    /// selector has none. Never fails.
    pub fn study(&mut self, rep: &Report) -> (r: Result<(), StudyError>)
        requires
            rep.wf(),
        ensures
            r is Ok,
            final(self).sel_view() == old(self).sel_view(),
            final(self).data_view() == feed_value(
                old(self).data_view(),
                sel_spec(old(self).sel_view(), rep@),
            ),
    {
        match self.sel.select(rep) {
            Some(v) => {
                self.data.push(v);
            },
            None => {},
        }
        Ok(())
    }

    /// The accumulated statistics `(mean, stdev, min, max)`.
    ///
    /// The mean is the samples' average rounded down; the standard
    /// deviation is the sample standard deviation rounded up to the next
    /// integer (zero for a single sample, by policy); minimum and maximum
    /// are exact. The mean always lies between minimum and maximum, and
    /// the standard deviation is positive exactly when two samples
    /// differ.
    pub fn result(&self) -> (r: (u64, u64, u32, u32))
        requires
            1 <= self.data_view().len() < 0x100000000,
        ensures
            r.0 == mean_of(self.data_view()),
            self.data_view().len() == 1 ==> r.1 == 0,
            self.data_view().len() >= 2 ==> is_ceil_stdev(self.data_view(), r.1 as int),
            is_min(self.data_view(), r.2),
            is_max(self.data_view(), r.3),
            r.2 <= r.0 <= r.3,
            (exists|i: int, j: int|
                0 <= i < self.data_view().len() && 0 <= j < self.data_view().len()
                    && self.data_view()[i] != self.data_view()[j]) ==> r.1 > 0,
            (forall|i: int, j: int|
                0 <= i < self.data_view().len() && 0 <= j < self.data_view().len()
                    ==> #[trigger] self.data_view()[i] == #[trigger] self.data_view()[j]) ==> r.1
                == 0,
    {
        let ghost dv = self.data@;
        let n = self.data.len();
        let d0 = self.data[0];
        let mut sum: u128 = d0 as u128;
        proof {
            assert((d0 as int) * (d0 as int) <= 0xFFFFFFFFint * 0xFFFFFFFF) by (nonlinear_arith)
                requires
                    0 <= d0 as int <= 0xFFFFFFFF,
            ;
        }
        let mut sq: u128 = (d0 as u128) * (d0 as u128);
        let mut mn: u32 = d0;
        let mut mx: u32 = d0;
        let mut i: usize = 1;
        proof {
            assert(dv.take(1).len() == 1);
            assert(dv.take(1).drop_last() =~= dv.take(0));
            assert(dv.take(0).len() == 0);
            assert(sum_of(dv.take(0)) == 0);
            assert(sum_sq(dv.take(0)) == 0);
            assert(dv.take(1).last() == dv[0]);
            assert(sum_of(dv.take(1)) == sum_of(dv.take(1).drop_last()) + dv.take(1).last());
            assert(sum_sq(dv.take(1)) == sum_sq(dv.take(1).drop_last()) + dv.take(1).last()
                * dv.take(1).last());
            assert(sum == sum_of(dv.take(1)));
            assert((d0 as int) * (d0 as int) == (dv[0] as int) * (dv[0] as int));
            assert(sq == sum_sq(dv.take(1)));
        }
        while i < n
            invariant
                dv == self.data@,
                n == dv.len(),
                1 <= n < 0x100000000,
                1 <= i <= n,
                sum == sum_of(dv.take(i as int)),
                sq == sum_sq(dv.take(i as int)),
                sum <= i * 0xFFFFFFFF,
                sq <= (i as int) * (0xFFFFFFFFint * 0xFFFFFFFF),
                is_min(dv.take(i as int), mn),
                is_max(dv.take(i as int), mx),
            decreases n - i,
        {
            let v = self.data[i];
            proof {
                assert(dv.take(i + 1).drop_last() =~= dv.take(i as int));
                assert(sum_of(dv.take(i + 1)) == sum + v);
                assert(sum_sq(dv.take(i + 1)) == sq + (v as int) * (v as int));
                assert(sum + v <= (i as int) * 0xFFFFFFFF + 0xFFFFFFFF);
                assert((i as int) * 0xFFFFFFFF + 0xFFFFFFFF == (i + 1) * 0xFFFFFFFF)
                    by (nonlinear_arith);
                assert((v as int) * (v as int) <= 0xFFFFFFFFint * 0xFFFFFFFF) by (nonlinear_arith)
                    requires
                        0 <= v as int <= 0xFFFFFFFF,
                ;
                assert((i as int) * (0xFFFFFFFFint * 0xFFFFFFFF) + 0xFFFFFFFFint * 0xFFFFFFFF == (i
                    + 1) * (0xFFFFFFFFint * 0xFFFFFFFF)) by (nonlinear_arith);
                assert((i + 1) * (0xFFFFFFFFint * 0xFFFFFFFF) <= 0x100000000int * (0xFFFFFFFFint
                    * 0xFFFFFFFF)) by (nonlinear_arith)
                    requires
                        i + 1 <= 0x100000000,
                ;
            }
            sum = sum + (v as u128);
            sq = sq + (v as u128) * (v as u128);
            if v < mn {
                mn = v;
            }
            if v > mx {
                mx = v;
            }
            proof {
                let pre = dv.take(i as int);
                let post = dv.take(i + 1);
                assert(post.drop_last() =~= pre);
                assert forall|j: int| 0 <= j < post.len() implies mn <= #[trigger] post[j] && mx
                    >= post[j] by {
                    if j < pre.len() {
                        assert(pre[j] == post[j]);
                    }
                }
                assert(post[post.len() - 1] == v);
            }
            i = i + 1;
        }
        proof {
            assert(dv.take(n as int) =~= dv);
        }
        let mean128 = sum / (n as u128);
        proof {
            lemma_sum_bounds(dv, mn as int, mx as int);
            lemma_mul_is_commutative(n as int, mn as int);
            lemma_mul_is_commutative(n as int, mx as int);
            lemma_div_is_ordered(mn as int * n as int, sum as int, n as int);
            lemma_div_is_ordered(sum as int, mx as int * n as int, n as int);
            lemma_div_by_multiple(mn as int, n as int);
            lemma_div_by_multiple(mx as int, n as int);
            assert(mn as int <= mean128 as int <= mx as int);
        }
        let mean = mean128 as u64;
        if n == 1 {
            proof {
                lemma_disp_props(dv);
            }
            return (mean, 0, mn, mx);
        }
        proof {
            assert((n as int) * ((n - 1) as int) < 0x100000000int * 0x100000000int)
                by (nonlinear_arith)
                requires
                    1 <= (n as int) && (n as int) < 0x100000000,
            ;
        }
        let m: u128 = (n as u128) * ((n - 1) as u128);
        proof {
            let mm = 0xFFFFFFFFint * 0xFFFFFFFF;
            let ni = n as int;
            let sqi = sq as int;
            lemma_mul_inequality(sqi, ni * mm, ni);
            assert((ni * mm) * ni == (ni * ni) * mm) by (nonlinear_arith);
            assert(ni * ni <= 0xFFFFFFFFint * 0xFFFFFFFF) by (nonlinear_arith)
                requires
                    1 <= ni <= 0xFFFFFFFF,
            ;
            lemma_mul_inequality(ni * ni, 0xFFFFFFFFint * 0xFFFFFFFF, mm);
            lemma_mul_is_commutative(ni, sqi);
            assert(ni * sqi <= (0xFFFFFFFFint * 0xFFFFFFFF) * mm);
        }
        let nq: u128 = (n as u128) * sq;
        proof {
            assert((sum as int) * (sum as int) <= (0x100000000int * 0xFFFFFFFF) * (0x100000000int
                * 0xFFFFFFFF)) by (nonlinear_arith)
                requires
                    0 <= sum as int,
                    sum as int <= (n as int) * 0xFFFFFFFF,
                    (n as int) < 0x100000000,
            ;
        }
        let ss: u128 = sum * sum;
        proof {
            lemma_disp_props(dv);
            assert(disp_of(dv) == (n as int) * (sq as int) - (sum as int) * (sum as int));
            assert(nq >= ss);
        }
        let d128: u128 = nq - ss;
        proof {
            assert(m >= 2) by (nonlinear_arith)
                requires
                    n as int >= 2,
                    m as int == (n as int) * ((n - 1) as int),
            ;
            // The ceiling numerator stays inside u128.
            assert((nq as int) <= 0xFFFFFFFFint * (0x100000000int * (0xFFFFFFFFint * 0xFFFFFFFF)));
            assert(0xFFFFFFFFint * (0x100000000int * (0xFFFFFFFFint * 0xFFFFFFFF))
                + 0x100000000int * 0x100000000int < 0xFFFFFFFFFFFFFFFFFFFFFFFFFFFFFFFFint);
        }
        let v128: u128 = (d128 + (m - 1)) / m;
        // Search for the least r with r^2 >= ceil(disp / m), i.e. with
        // r^2 * m >= disp.
        let ghost dd = d128 as int;
        proof {
            // The search's upper bound covers the answer: 2^66 >= v128.
            assert(dd <= (n as int) * (sq as int));
            let mm = 0xFFFFFFFFint * 0xFFFFFFFF;
            assert((n as int) * (sq as int) <= (n as int) * ((n as int) * mm)) by (nonlinear_arith)
                requires
                    1 <= n as int,
                    0 <= sq as int,
                    sq as int <= (n as int) * mm,
            ;
            assert((n as int) * ((n as int) * mm) <= 2 * (m as int) * mm) by (nonlinear_arith)
                requires
                    2 <= n as int,
                    m as int == (n as int) * ((n - 1) as int),
                    mm >= 0,
            ;
            assert(dd + (m as int) - 1 < (m as int) * (2 * mm + 1)) by (nonlinear_arith)
                requires
                    dd <= 2 * (m as int) * mm,
                    m as int >= 2,
                    mm >= 1,
            ;
            lemma_multiply_divide_lt(dd + (m as int) - 1, m as int, 2 * mm + 1);
            assert(v128 as int <= 2 * mm);
            assert(0x400000000int * 0x400000000int >= 2 * mm + 1);
        }
        let mut lo: u64 = 0;
        let mut hi: u64 = 0x400000000;
        while lo < hi
            invariant
                lo <= hi <= 0x400000000,
                (hi as u128) * (hi as u128) >= v128,
                lo > 0 ==> ((lo - 1) as u128) * ((lo - 1) as u128) < v128,
            decreases hi - lo,
        {
            let mid = lo + (hi - lo) / 2;
            proof {
                assert((mid as int) * (mid as int) <= 0x400000000int * 0x400000000int)
                    by (nonlinear_arith)
                    requires
                        0 <= mid as int <= 0x400000000,
                ;
            }
            if (mid as u128) * (mid as u128) >= v128 {
                hi = mid;
            } else {
                lo = mid + 1;
            }
        }
        let r = lo;
        proof {
            let ri = r as int;
            let mi = m as int;
            let vi = v128 as int;
            assert((r as u128) * (r as u128) >= v128);
            assert(vi == (dd + mi - 1) / mi);
            lemma_ceil_div(ri * ri, dd, mi);
            assert(ri * ri * mi >= dd);
            if r > 0 {
                lemma_ceil_div((ri - 1) * (ri - 1), dd, mi);
                assert((ri - 1) * (ri - 1) * mi < dd);
            }
            assert(disp_of(dv) == dd);
            assert(mi == dv.len() * (dv.len() - 1));
            if exists|i: int, j: int|
                0 <= i < dv.len() && 0 <= j < dv.len() && dv[i] != dv[j] {
                assert(disp_of(dv) > 0);
                if r == 0 {
                    assert(0 * 0 * mi == 0) by (nonlinear_arith);
                    assert(false);
                }
            }
            if forall|i: int, j: int|
                0 <= i < dv.len() && 0 <= j < dv.len() ==> #[trigger] dv[i] == #[trigger] dv[j] {
                assert(disp_of(dv) == 0);
                if r > 0 {
                    assert((ri - 1) * (ri - 1) * mi >= 0) by (nonlinear_arith)
                        requires
                            mi >= 0,
                    ;
                    assert(false);
                }
            }
        }
        (mean, r, mn, mx)
    }
}

} // verus!
