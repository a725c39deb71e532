//! Plain text helpers: decimal rendering of values and field padding.

use vstd::prelude::*;
use vstd::string::StrSliceExecFns;
use vstd::string::StringExecFns;

verus! {

/// The character for one decimal digit value.
pub open spec fn digit_char(d: int) -> char {
    if d == 0 {
        '0'
    } else if d == 1 {
        '1'
    } else if d == 2 {
        '2'
    } else if d == 3 {
        '3'
    } else if d == 4 {
        '4'
    } else if d == 5 {
        '5'
    } else if d == 6 {
        '6'
    } else if d == 7 {
        '7'
    } else if d == 8 {
        '8'
    } else {
        '9'
    }
}

/// The decimal rendering of a non-negative number, no leading zeros.
pub open spec fn dec_spec(n: int) -> Seq<char>
    decreases n,
{
    if n < 10 {
        seq![digit_char(n)]
    } else {
        dec_spec(n / 10).push(digit_char(n % 10))
    }
}

/// `k` spaces.
pub open spec fn space_seq(k: int) -> Seq<char> {
    Seq::new(if k < 0 { 0nat } else { k as nat }, |i: int| ' ')
}

/// `s` right-aligned in a field of `w` characters (wider fields are not
/// truncated).
pub open spec fn right_align_spec(s: Seq<char>, w: int) -> Seq<char> {
    space_seq(w - s.len()) + s
}

/// `s` left-aligned in a field of `w` characters (wider fields are not
/// truncated).
pub open spec fn left_align_spec(s: Seq<char>, w: int) -> Seq<char> {
    s + space_seq(w - s.len())
}

/// One decimal digit as a string.
fn digit_str(d: u64) -> (r: String)
    requires
        d < 10,
    ensures
        r@ == seq![digit_char(d as int)],
{
    let r = if d == 0 {
        "0"
    } else if d == 1 {
        "1"
    } else if d == 2 {
        "2"
    } else if d == 3 {
        "3"
    } else if d == 4 {
        "4"
    } else if d == 5 {
        "5"
    } else if d == 6 {
        "6"
    } else if d == 7 {
        "7"
    } else if d == 8 {
        "8"
    } else {
        "9"
    };
    proof {
        reveal_strlit("0");
        reveal_strlit("1");
        reveal_strlit("2");
        reveal_strlit("3");
        reveal_strlit("4");
        reveal_strlit("5");
        reveal_strlit("6");
        reveal_strlit("7");
        reveal_strlit("8");
        reveal_strlit("9");
        assert(r@ =~= seq![digit_char(d as int)]);
    }
    r.to_owned()
}

/// Renders a value in decimal. This is the library's plain stand-in for
/// an externally supplied per-cell value formatter.
pub fn format_value(n: u64) -> (r: String)
    ensures
        r@ == dec_spec(n as int),
    decreases n,
{
    if n < 10 {
        digit_str(n)
    } else {
        let mut s = format_value(n / 10);
        let d = digit_str(n % 10);
        s.append(d.as_str());
        proof {
            assert(s@ =~= dec_spec(n as int));
        }
        s
    }
}

/// A string of `k` spaces.
fn spaces(k: usize) -> (r: String)
    ensures
        r@ == space_seq(k as int),
{
    let mut r = String::new();
    let mut i: usize = 0;
    while i < k
        invariant
            0 <= i <= k,
            r@ == space_seq(i as int),
        decreases k - i,
    {
        r.append(" ");
        proof {
            reveal_strlit(" ");
            assert(r@ =~= space_seq(i + 1));
        }
        i = i + 1;
    }
    r
}

/// `s` right-aligned in a field of `w` characters.
pub fn right_align(s: &String, w: usize) -> (r: String)
    ensures
        r@ == right_align_spec(s@, w as int),
{
    let len = s.as_str().unicode_len();
    let pad = if len < w {
        w - len
    } else {
        0
    };
    let mut r = spaces(pad);
    r.append(s.as_str());
    proof {
        assert(r@ =~= right_align_spec(s@, w as int));
    }
    r
}

/// `s` left-aligned in a field of `w` characters.
pub fn left_align(s: &String, w: usize) -> (r: String)
    ensures
        r@ == left_align_spec(s@, w as int),
{
    let len = s.as_str().unicode_len();
    let pad = if len < w {
        w - len
    } else {
        0
    };
    let sp = spaces(pad);
    let mut r = s.clone();
    r.append(sp.as_str());
    proof {
        assert(r@ =~= left_align_spec(s@, w as int));
    }
    r
}

} // verus!
