//! Percentile labels: opaque decimal strings such as `"00"`, `"50"` or
//! `"99.9"`, parsed as a percentage in `[0, 100]` with an exact rational
//! value (numerator and power-of-ten denominator).

use vstd::prelude::*;
use vstd::arithmetic::div_mod::{
    lemma_fundamental_div_mod,
    lemma_div_is_ordered,
    lemma_div_by_multiple,
};
use vstd::arithmetic::mul::lemma_mul_inequality;
use vstd::string::StrSliceExecFns;

verus! {

/// A decimal digit.
pub open spec fn is_digit(c: char) -> bool {
    48 <= c as u32 <= 57
}

/// The numeric value of a decimal digit.
pub open spec fn digit_val(c: char) -> int {
    c as u32 - 48
}

/// The value of a digit string, most significant digit first.
pub open spec fn digits_val(s: Seq<char>) -> int
    decreases s.len(),
{
    if s.len() == 0 {
        0
    } else {
        digits_val(s.drop_last()) * 10 + digit_val(s.last())
    }
}

/// Every character is a decimal digit.
pub open spec fn all_digits(s: Seq<char>) -> bool {
    forall|i: int| 0 <= i < s.len() ==> is_digit(#[trigger] s[i])
}

/// The index of the first `'.'`, or the length when there is none.
pub open spec fn first_dot(s: Seq<char>) -> int
    decreases s.len(),
{
    if s.len() == 0 {
        0
    } else if s[0] == '.' {
        0
    } else {
        1 + first_dot(s.drop_first())
    }
}

/// Ten to the `k`.
pub open spec fn pow10(k: nat) -> int
    decreases k,
{
    if k == 0 {
        1
    } else {
        10 * pow10((k - 1) as nat)
    }
}

/// The digits before the first `'.'`.
pub open spec fn int_part(s: Seq<char>) -> Seq<char> {
    s.take(first_dot(s))
}

/// The digits after the first `'.'`; empty when there is no `'.'`.
pub open spec fn frac_part(s: Seq<char>) -> Seq<char> {
    if first_dot(s) >= s.len() {
        Seq::empty()
    } else {
        s.subrange(first_dot(s) + 1, s.len() as int)
    }
}

/// The label's denominator: ten to the number of fraction digits.
pub open spec fn pct_den(s: Seq<char>) -> int {
    pow10(frac_part(s).len())
}

/// The label's numerator, so that the label's percentage value is
/// `pct_num(s) / pct_den(s)`.
pub open spec fn pct_num(s: Seq<char>) -> int {
    digits_val(int_part(s)) * pct_den(s) + digits_val(frac_part(s))
}

/// A well-formed percentile label: one or more integer digits, an
/// optional `'.'` followed by one to nine fraction digits, and a value
/// of at most 100.
pub open spec fn is_pct_label(s: Seq<char>) -> bool {
    let d = first_dot(s);
    &&& 1 <= d
    &&& all_digits(int_part(s))
    &&& (d < s.len() ==> 1 <= frac_part(s).len() <= 9 && all_digits(frac_part(s)))
    &&& pct_num(s) <= 100 * pct_den(s)
}

/// `first_dot` is a position in the string (or its length), everything
/// before it is not a dot, and it points at a dot when inside.
pub proof fn lemma_first_dot(s: Seq<char>)
    ensures
        0 <= first_dot(s) <= s.len(),
        forall|j: int| 0 <= j < first_dot(s) ==> s[j] != '.',
        first_dot(s) < s.len() ==> s[first_dot(s)] == '.',
    decreases s.len(),
{
    if s.len() != 0 && s[0] != '.' {
        lemma_first_dot(s.drop_first());
        assert forall|j: int| 0 <= j < first_dot(s) implies s[j] != '.' by {
            if j > 0 {
                assert(s.drop_first()[j - 1] == s[j]);
            }
        }
        if first_dot(s) < s.len() {
            assert(s.drop_first()[first_dot(s) - 1] == s[first_dot(s)]);
        }
    }
}

/// A position with those properties is `first_dot`.
pub proof fn lemma_first_dot_at(s: Seq<char>, d: int)
    requires
        0 <= d <= s.len(),
        forall|j: int| 0 <= j < d ==> s[j] != '.',
        d < s.len() ==> s[d] == '.',
    ensures
        first_dot(s) == d,
    decreases s.len(),
{
    if s.len() != 0 && s[0] != '.' {
        assert(d != 0);
        let t = s.drop_first();
        assert forall|j: int| 0 <= j < d - 1 implies t[j] != '.' by {
            assert(t[j] == s[j + 1]);
        }
        if d - 1 < t.len() {
            assert(t[d - 1] == s[d]);
        }
        lemma_first_dot_at(t, d - 1);
    }
}

/// A digit string's value is not negative.
pub proof fn lemma_digits_nonneg(s: Seq<char>)
    requires
        all_digits(s),
    ensures
        digits_val(s) >= 0,
    decreases s.len(),
{
    if s.len() != 0 {
        lemma_digits_nonneg(s.drop_last());
    }
}

/// A digit string's value is below ten to its length.
pub proof fn lemma_digits_upper(s: Seq<char>)
    requires
        all_digits(s),
    ensures
        digits_val(s) < pow10(s.len()),
    decreases s.len(),
{
    if s.len() != 0 {
        lemma_digits_upper(s.drop_last());
        lemma_digits_nonneg(s.drop_last());
    } else {
        assert(pow10(0) == 1);
    }
}

/// Reading further digits never lowers the value.
pub proof fn lemma_digits_prefix_le(s: Seq<char>, i: int)
    requires
        all_digits(s),
        0 <= i <= s.len(),
    ensures
        digits_val(s.take(i)) <= digits_val(s),
    decreases s.len() - i,
{
    if i < s.len() {
        lemma_digits_prefix_le(s, i + 1);
        assert(s.take(i + 1).drop_last() =~= s.take(i));
        assert(all_digits(s.take(i)));
        lemma_digits_nonneg(s.take(i));
        assert(digits_val(s.take(i + 1)) == digits_val(s.take(i)) * 10 + digit_val(s[i]));
    } else {
        assert(s.take(i) =~= s);
    }
}

/// Ten to the `k` is positive.
pub proof fn lemma_pow10_pos(k: nat)
    ensures
        pow10(k) >= 1,
    decreases k,
{
    if k > 0 {
        lemma_pow10_pos((k - 1) as nat);
    }
}

/// Ten to the `k` grows with `k`.
pub proof fn lemma_pow10_le(j: nat, k: nat)
    requires
        j <= k,
    ensures
        pow10(j) <= pow10(k),
    decreases k,
{
    if j < k {
        lemma_pow10_le(j, (k - 1) as nat);
        lemma_pow10_pos((k - 1) as nat);
    }
}

/// Nine fraction digits give a denominator of one billion.
pub proof fn lemma_pow10_9()
    ensures
        pow10(9) == 1000000000,
{
    reveal_with_fuel(pow10, 11);
}

/// Parses a percentile label; `Some` exactly on well-formed labels, with
/// the label's exact rational value.
pub fn parse_pct_label(label: &str) -> (r: Option<(u64, u64)>)
    ensures
        match r {
            Some(p) => is_pct_label(label@) && p.0 == pct_num(label@) && p.1 == pct_den(label@)
                && 1 <= p.1 <= 1000000000 && p.0 <= 100 * p.1,
            None => !is_pct_label(label@),
        },
{
    let ghost s = label@;
    let n = label.unicode_len();
    if n == 0 {
        proof {
            lemma_first_dot(s);
        }
        return None;
    }
    let mut i: usize = 0;
    let mut acc: u64 = 0;
    let mut dot: bool = false;
    while i < n && !dot
        invariant
            s == label@,
            n == s.len(),
            1 <= n,
            0 <= i <= n,
            acc == digits_val(s.take(i as int)),
            acc <= 100,
            all_digits(s.take(i as int)),
            forall|j: int| 0 <= j < i ==> s[j] != '.',
            dot ==> i < n && s[i as int] == '.' && i >= 1,
        decreases n - i + (if dot { 0int } else { 1int }),
    {
        let c = label.get_char(i);
        let b = c as u32;
        if 48 <= b && b <= 57 {
            proof {
                assert(s.take(i + 1).drop_last() =~= s.take(i as int));
                assert(digits_val(s.take(i + 1)) == acc * 10 + digit_val(s[i as int]));
            }
            acc = acc * 10 + ((b - 48) as u64);
            i = i + 1;
            if acc > 100 {
                proof {
                    lemma_first_dot(s);
                    let d = first_dot(s);
                    if is_pct_label(s) {
                        assert(d >= i) by {
                            if d < i {
                                assert(s[d] != '.');
                            }
                        }
                        lemma_digits_prefix_le(int_part(s), i as int);
                        assert(int_part(s).take(i as int) =~= s.take(i as int));
                        lemma_digits_nonneg(frac_part(s));
                        lemma_pow10_pos(frac_part(s).len());
                        assert(digits_val(int_part(s)) >= acc);
                        assert(digits_val(int_part(s)) * pct_den(s) >= 101 * pct_den(s)) by {
                            lemma_mul_inequality(101, digits_val(int_part(s)), pct_den(s));
                        }
                        assert(pct_num(s) > 100 * pct_den(s));
                        assert(false);
                    }
                }
                return None;
            }
        } else if b == 46 {
            if i == 0 {
                proof {
                    lemma_first_dot_at(s, 0);
                }
                return None;
            }
            dot = true;
        } else {
            proof {
                lemma_first_dot(s);
                let d = first_dot(s);
                if is_pct_label(s) {
                    assert(d > i) by {
                        if d <= i {
                            if d < i {
                                assert(s[d] != '.');
                            } else {
                                assert(s[d] != '.');
                            }
                        }
                    }
                    assert(int_part(s)[i as int] == s[i as int]);
                    assert(!is_digit(s[i as int]));
                    assert(false);
                }
            }
            return None;
        }
    }
    if !dot {
        proof {
            lemma_first_dot_at(s, n as int);
            assert(int_part(s) =~= s.take(n as int));
            assert(s.take(n as int) =~= s);
            assert(frac_part(s) =~= Seq::<char>::empty());
            assert(pow10(0) == 1);
            assert(pct_num(s) == acc * 1 + 0);
        }
        return Some((acc, 1));
    }
    let d = i;
    proof {
        lemma_first_dot_at(s, d as int);
        assert(int_part(s) =~= s.take(d as int));
    }
    i = d + 1;
    if i >= n {
        return None;
    }
    let mut facc: u64 = 0;
    while i < n
        invariant
            s == label@,
            n == s.len(),
            first_dot(s) == d,
            1 <= d,
            d + 1 <= i <= n,
            d < n,
            acc == digits_val(int_part(s)),
            acc <= 100,
            all_digits(int_part(s)),
            i - d - 1 <= 9,
            facc == digits_val(s.subrange(d + 1, i as int)),
            facc < 1000000000,
            all_digits(s.subrange(d + 1, i as int)),
        decreases n - i,
    {
        let c = label.get_char(i);
        let b = c as u32;
        if 48 <= b && b <= 57 {
            if i - d - 1 >= 9 {
                proof {
                    assert(frac_part(s).len() == n - d - 1);
                    assert(n - d - 1 >= 10);
                }
                return None;
            }
            proof {
                let pre = s.subrange(d + 1, i as int);
                let post = s.subrange(d + 1, i + 1);
                assert(post.drop_last() =~= pre);
                assert(digits_val(post) == facc * 10 + digit_val(s[i as int]));
                lemma_digits_upper(post);
                lemma_pow10_le(post.len(), 9);
                lemma_pow10_9();
                assert(digits_val(post) < 1000000000);
            }
            facc = facc * 10 + ((b - 48) as u64);
            i = i + 1;
        } else {
            proof {
                assert(frac_part(s)[i - d - 1] == s[i as int]);
                assert(!is_digit(s[i as int]));
            }
            return None;
        }
    }
    proof {
        assert(s.subrange(d + 1, n as int) =~= frac_part(s));
    }
    let flen = n - d - 1;
    let mut den: u64 = 1;
    let mut k: usize = 0;
    while k < flen
        invariant
            s == label@,
            n == s.len(),
            first_dot(s) == d,
            1 <= d < n,
            acc == digits_val(int_part(s)),
            acc <= 100,
            all_digits(int_part(s)),
            flen == n - d - 1,
            1 <= flen <= 9,
            frac_part(s).len() == flen,
            facc == digits_val(frac_part(s)),
            facc < 1000000000,
            all_digits(frac_part(s)),
            0 <= k <= flen,
            den == pow10(k as nat),
            1 <= den <= 1000000000,
        decreases flen - k,
    {
        proof {
            lemma_pow10_le((k + 1) as nat, 9);
            lemma_pow10_9();
        }
        den = den * 10;
        k = k + 1;
    }
    proof {
        lemma_digits_nonneg(frac_part(s));
        lemma_digits_upper(frac_part(s));
        assert(pct_den(s) == den);
        assert(facc < den);
        assert(acc * den <= 100 * 1000000000) by (nonlinear_arith)
            requires
                0 <= acc <= 100,
                0 <= den <= 1000000000,
        ;
    }
    let num = acc * den + facc;
    if num > 100 * den {
        proof {
            assert(pct_num(s) == acc * den + facc);
            assert(!is_pct_label(s));
        }
        return None;
    }
    proof {
        assert(pct_num(s) == acc * den + facc);
        assert(is_pct_label(s));
    }
    Some((num, den))
}

/// The sample index a percentage addresses in a sorted sample sequence of
/// length `n`: the floor of `value/100 * n`, clamped to the last index.
pub open spec fn rank_of(num: int, den: int, n: int) -> int {
    let r = (num * n) / (den * 100);
    if r >= n {
        n - 1
    } else {
        r
    }
}

/// Computes the rank; always a valid index.
pub fn rank_index(num: u64, den: u64, n: usize) -> (r: usize)
    requires
        n >= 1,
        1 <= den <= 1000000000,
        num <= 100 * den,
    ensures
        r == rank_of(num as int, den as int, n as int),
        r < n,
        num == 0 ==> r == 0,
        num == 100 * den ==> r == n - 1,
{
    proof {
        assert(num <= 100000000000) by (nonlinear_arith)
            requires
                num <= 100 * den,
                den <= 1000000000,
        ;
        assert(num as int * (n as int) <= 100000000000int * 0xFFFFFFFFFFFFFFFFint)
            by (nonlinear_arith)
            requires
                0 <= num as int <= 100000000000,
                0 <= n as int <= 0xFFFFFFFFFFFFFFFF,
        ;
    }
    let q: u128 = ((num as u128) * (n as u128)) / ((den as u128) * 100);
    proof {
        lemma_mul_inequality(num as int, 100 * (den as int), n as int);
        vstd::arithmetic::mul::lemma_mul_is_associative(100, den as int, n as int);
        lemma_div_is_ordered(num as int * n as int, 100 * (den as int) * (n as int), den as int * 100);
        vstd::arithmetic::mul::lemma_mul_is_commutative(den as int, 100);
        lemma_div_by_multiple(n as int, den as int * 100);
        assert(100 * (den as int) * (n as int) == (n as int) * ((den as int) * 100)) by (nonlinear_arith);
        assert(q <= n);
    }
    proof {
        if num == 0 {
            assert(num as int * (n as int) == 0) by (nonlinear_arith)
                requires
                    num as int == 0,
            ;
            assert(q == 0) by {
                vstd::arithmetic::div_mod::lemma_div_of0(den as int * 100);
            }
        }
    }
    if q >= n as u128 {
        n - 1
    } else {
        q as usize
    }
}

/// Monotonicity of ranks: a label with a smaller percentage value never
/// addresses a later sample.
pub proof fn lemma_rank_monotone(num1: int, den1: int, num2: int, den2: int, n: int)
    requires
        n >= 1,
        den1 >= 1,
        den2 >= 1,
        num1 >= 0,
        num2 >= 0,
        num1 * den2 <= num2 * den1,
    ensures
        rank_of(num1, den1, n) <= rank_of(num2, den2, n),
{
    let a = num1 * n;
    let b = den1 * 100;
    let c = num2 * n;
    let d = den2 * 100;
    let f = a / b;
    lemma_fundamental_div_mod(a, b);
    lemma_fundamental_div_mod(c, d);
    assert(a * d <= c * b) by (nonlinear_arith)
        requires
            num1 * den2 <= num2 * den1,
            n >= 1,
            a == num1 * n,
            b == den1 * 100,
            c == num2 * n,
            d == den2 * 100,
    ;
    assert(f * b <= a) by (nonlinear_arith)
        requires
            b >= 1,
            a == b * f + a % b,
            0 <= a % b,
    ;
    assert(f * d <= c) by (nonlinear_arith)
        requires
            f * b <= a,
            a * d <= c * b,
            b >= 100,
            d >= 100,
            num1 >= 0,
            n >= 1,
            a == num1 * n,
            f == a / b,
            a >= 0 ==> f >= 0,
    ;
    assert(f <= c / d) by {
        if f > c / d {
            assert(c == d * (c / d) + c % d);
            assert(f * d >= (c / d + 1) * d) by (nonlinear_arith)
                requires
                    f >= c / d + 1,
                    d >= 1,
            ;
            assert((c / d + 1) * d == (c / d) * d + d) by (nonlinear_arith);
            assert((c / d) * d == d * (c / d)) by (nonlinear_arith);
            assert(c % d < d);
            assert(false);
        }
    }
    assert(a / b >= 0) by {
        vstd::arithmetic::div_mod::lemma_div_pos_is_pos(a, b);
        assert(a >= 0) by (nonlinear_arith)
            requires
                num1 >= 0,
                n >= 1,
                a == num1 * n,
        ;
    }
}

} // verus!
