//! Real number literals: an optional sign, then a decimal number with an
//! optional exponent, or `inf`, `infinity` or `nan` in any case.
use vstd::prelude::*;

use crate::parsing::{all_digits, is_digit, is_sign, DOT, MINUS, PLUS};

verus! {

pub open spec fn is_exp_mark(b: u8) -> bool {
    b == 101 || b == 69
}

/// ASCII upper case letters to lower case; any other byte unchanged.
pub open spec fn lower(b: u8) -> u8 {
    if 65 <= b <= 90 {
        (b + 32) as u8
    } else {
        b
    }
}

pub open spec fn lowered(s: Seq<u8>) -> Seq<u8> {
    Seq::new(s.len(), |i: int| lower(s[i]))
}

pub open spec fn count_dots(s: Seq<u8>) -> nat
    decreases s.len(),
{
    if s.len() == 0 {
        0
    } else {
        count_dots(s.drop_last()) + if s.last() == DOT {
            1nat
        } else {
            0nat
        }
    }
}

pub open spec fn count_digits(s: Seq<u8>) -> nat
    decreases s.len(),
{
    if s.len() == 0 {
        0
    } else {
        count_digits(s.drop_last()) + if is_digit(s.last()) {
            1nat
        } else {
            0nat
        }
    }
}

/// Digits with at most one decimal point, and at least one digit.
pub open spec fn mantissa_ok(m: Seq<u8>) -> bool {
    &&& forall|i: int| 0 <= i < m.len() ==> is_digit(#[trigger] m[i]) || m[i] == DOT
    &&& count_dots(m) <= 1
    &&& count_digits(m) >= 1
}

/// An optional sign, then at least one digit.
pub open spec fn exponent_ok(t: Seq<u8>) -> bool {
    let u = if t.len() > 0 && is_sign(t[0]) {
        t.drop_first()
    } else {
        t
    };
    u.len() > 0 && all_digits(u)
}

/// A decimal number: a mantissa, then perhaps `e` or `E` and an exponent.
pub open spec fn decimal_ok(b: Seq<u8>) -> bool {
    ||| mantissa_ok(b)
    ||| exists|k: int|
        0 <= k < b.len() && is_exp_mark(#[trigger] b[k]) && mantissa_ok(b.subrange(0, k))
            && exponent_ok(b.subrange(k + 1, b.len() as int))
}

/// `inf`, `infinity` or `nan`, in any case.
pub open spec fn special_ok(b: Seq<u8>) -> bool {
    let l = lowered(b);
    ||| l =~= seq![105u8, 110, 102]
    ||| l =~= seq![105u8, 110, 102, 105, 110, 105, 116, 121]
    ||| l =~= seq![110u8, 97, 110]
}

/// The real number literals of the language: an optional sign, then a decimal
/// number or one of the special words.
pub open spec fn number_literal(s: Seq<u8>) -> bool {
    let b = if s.len() > 0 && is_sign(s[0]) {
        s.drop_first()
    } else {
        s
    };
    decimal_ok(b) || special_ok(b)
}

fn is_mantissa(s: &Vec<u8>, lo: usize, hi: usize) -> (r: bool)
    requires
        lo <= hi <= s@.len(),
    ensures
        r == mantissa_ok(s@.subrange(lo as int, hi as int)),
{
    let mut dots: usize = 0;
    let mut digits: usize = 0;
    let mut i: usize = lo;
    while i < hi
        invariant
            lo <= i <= hi <= s@.len(),
            dots <= i - lo,
            digits <= i - lo,
            dots == count_dots(s@.subrange(lo as int, i as int)),
            digits == count_digits(s@.subrange(lo as int, i as int)),
            forall|j: int| lo <= j < i ==> is_digit(#[trigger] s@[j]) || s@[j] == DOT,
        decreases hi - i,
    {
        let c = s[i];
        let ghost pre = s@.subrange(lo as int, i as int + 1);
        proof {
            assert(pre.drop_last() =~= s@.subrange(lo as int, i as int));
        }
        if c == DOT {
            dots = dots + 1;
        } else if 48 <= c && c <= 57 {
            digits = digits + 1;
        } else {
            proof {
                let m = s@.subrange(lo as int, hi as int);
                assert(m[i - lo] == c);
            }
            return false;
        }
        i = i + 1;
    }
    proof {
        let m = s@.subrange(lo as int, hi as int);
        assert(forall|j: int| 0 <= j < m.len() ==> m[j] == s@[lo + j]);
    }
    dots <= 1 && digits >= 1
}

fn all_digits_in(s: &Vec<u8>, lo: usize, hi: usize) -> (r: bool)
    requires
        lo <= hi <= s@.len(),
    ensures
        r == all_digits(s@.subrange(lo as int, hi as int)),
{
    let mut i: usize = lo;
    while i < hi
        invariant
            lo <= i <= hi <= s@.len(),
            forall|j: int| lo <= j < i ==> is_digit(#[trigger] s@[j]),
        decreases hi - i,
    {
        let c = s[i];
        if c < 48 || c > 57 {
            proof {
                let m = s@.subrange(lo as int, hi as int);
                assert(m[i - lo] == c);
            }
            return false;
        }
        i = i + 1;
    }
    proof {
        let m = s@.subrange(lo as int, hi as int);
        assert(forall|j: int| 0 <= j < m.len() ==> m[j] == s@[lo + j]);
    }
    true
}

fn is_exponent(s: &Vec<u8>, lo: usize, hi: usize) -> (r: bool)
    requires
        lo <= hi <= s@.len(),
    ensures
        r == exponent_ok(s@.subrange(lo as int, hi as int)),
{
    let ghost t = s@.subrange(lo as int, hi as int);
    if lo < hi && (s[lo] == PLUS || s[lo] == MINUS) {
        proof {
            assert(t.drop_first() =~= s@.subrange(lo + 1, hi as int));
        }
        lo + 1 < hi && all_digits_in(s, lo + 1, hi)
    } else {
        lo < hi && all_digits_in(s, lo, hi)
    }
}

fn matches_word(s: &Vec<u8>, lo: usize, hi: usize, w: &Vec<u8>) -> (r: bool)
    requires
        lo <= hi <= s@.len(),
    ensures
        r == (lowered(s@.subrange(lo as int, hi as int)) =~= w@),
{
    let ghost l = lowered(s@.subrange(lo as int, hi as int));
    if hi - lo != w.len() {
        return false;
    }
    let mut i: usize = 0;
    while i < w.len()
        invariant
            hi - lo == w@.len(),
            lo <= hi <= s@.len(),
            i <= w@.len(),
            l == lowered(s@.subrange(lo as int, hi as int)),
            forall|j: int| 0 <= j < i ==> l[j] == w@[j],
        decreases w@.len() - i,
    {
        let c = s[lo + i];
        let lc: u8 = if 65 <= c && c <= 90 {
            c + 32
        } else {
            c
        };
        proof {
            assert(l[i as int] == lower(s@[lo + i]));
        }
        if lc != w[i] {
            return false;
        }
        i = i + 1;
    }
    true
}

/// Whether a numeric factor reads as a real number.
pub fn is_number(s: &Vec<u8>) -> (r: bool)
    ensures
        r == number_literal(s@),
{
    let lo: usize = if s.len() > 0 && (s[0] == PLUS || s[0] == MINUS) {
        1
    } else {
        0
    };
    let hi = s.len();
    let ghost b = s@.subrange(lo as int, hi as int);
    proof {
        if lo == 1 {
            assert(s@.drop_first() =~= b);
        } else {
            assert(s@ =~= b);
        }
    }
    let special = matches_word(s, lo, hi, &vec![105u8, 110, 102]) || matches_word(
        s,
        lo,
        hi,
        &vec![105u8, 110, 102, 105, 110, 105, 116, 121],
    ) || matches_word(s, lo, hi, &vec![110u8, 97, 110]);
    // the first exponent mark, if any
    let mut k: usize = lo;
    while k < hi && !(s[k] == 101 || s[k] == 69)
        invariant
            lo <= k <= hi,
            hi == s@.len(),
            forall|j: int| lo <= j < k ==> !is_exp_mark(#[trigger] s@[j]),
        decreases hi - k,
    {
        k = k + 1;
    }
    let decimal = if k == hi {
        proof {
            assert forall|j: int| 0 <= j < b.len() && is_exp_mark(#[trigger] b[j]) implies false by {
                assert(b[j] == s@[lo + j]);
            }
        }
        is_mantissa(s, lo, hi)
    } else {
        let m = is_mantissa(s, lo, k);
        let e = is_exponent(s, k + 1, hi);
        proof {
            assert(b[k - lo] == s@[k as int]);
            assert(b.subrange(0, k - lo) =~= s@.subrange(lo as int, k as int));
            assert(b.subrange(k - lo + 1, b.len() as int) =~= s@.subrange(k + 1, hi as int));
            assert(!mantissa_ok(b)) by {
                assert(!(is_digit(b[k - lo]) || b[k - lo] == DOT));
            }
            assert forall|j: int|
                0 <= j < b.len() && is_exp_mark(#[trigger] b[j]) && mantissa_ok(b.subrange(0, j))
                    && exponent_ok(b.subrange(j + 1, b.len() as int)) implies j == k - lo by {
                assert(b[j] == s@[lo + j]);
                if j > k - lo {
                    let p = b.subrange(0, j);
                    assert(p[k - lo] == b[k - lo]);
                    assert(!(is_digit(p[k - lo]) || p[k - lo] == DOT));
                }
            }
        }
        m && e
    };
    decimal || special
}

} // verus!
