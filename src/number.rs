//! Recognition of number texts: the grammar that the standard library's float
//! parser documents for its `FromStr` impl.
//!
//! ```text
//! Number   ::= Sign? ( 'inf' | 'infinity' | 'nan' | Decimal )
//! Decimal  ::= ( Digit+ | Digit+ '.' Digit* | Digit* '.' Digit+ ) Exp?
//! Exp      ::= 'e' Sign? Digit+
//! Sign     ::= [+-]
//! Digit    ::= [0-9]
//! ```
//!
//! Letters match in either ASCII case. No whitespace is allowed anywhere.
use vstd::prelude::*;

verus! {

pub open spec fn is_digit(c: char) -> bool {
    '0' <= c && c <= '9'
}

pub open spec fn is_sign(c: char) -> bool {
    c == '+' || c == '-'
}

pub open spec fn is_exp_mark(c: char) -> bool {
    c == 'e' || c == 'E'
}

pub open spec fn all_digits(s: Seq<char>) -> bool {
    forall|i: int| 0 <= i < s.len() ==> is_digit(#[trigger] s[i])
}

/// Digits with at most one `.` among them, and at least one digit.
pub open spec fn is_mantissa(s: Seq<char>) -> bool {
    &&& forall|i: int| 0 <= i < s.len() ==> is_digit(#[trigger] s[i]) || s[i] == '.'
    &&& forall|i: int, j: int| 0 <= i < j < s.len() && #[trigger] s[i] == '.' ==> #[trigger] s[j] != '.'
    &&& exists|i: int| 0 <= i < s.len() && is_digit(#[trigger] s[i])
}

/// An optional sign followed by at least one digit.
pub open spec fn is_exponent(s: Seq<char>) -> bool {
    if s.len() > 0 && is_sign(s[0]) {
        s.len() >= 2 && all_digits(s.drop_first())
    } else {
        s.len() >= 1 && all_digits(s)
    }
}

/// A mantissa, optionally followed by an exponent mark and an exponent.
pub open spec fn is_decimal(s: Seq<char>) -> bool {
    ||| is_mantissa(s)
    ||| exists|k: int|
        0 <= k < s.len() && is_exp_mark(#[trigger] s[k]) && is_mantissa(s.take(k))
            && is_exponent(s.skip(k + 1))
}

/// `s` spells a word given in lower case by `lower` and in upper case by
/// `upper`, each letter in either case.
pub open spec fn is_word(s: Seq<char>, lower: Seq<char>, upper: Seq<char>) -> bool {
    &&& s.len() == lower.len()
    &&& forall|i: int| 0 <= i < s.len() ==> #[trigger] s[i] == lower[i] || s[i] == upper[i]
}

pub open spec fn is_unsigned_number(s: Seq<char>) -> bool {
    ||| is_word(s, seq!['i', 'n', 'f'], seq!['I', 'N', 'F'])
    ||| is_word(
        s,
        seq!['i', 'n', 'f', 'i', 'n', 'i', 't', 'y'],
        seq!['I', 'N', 'F', 'I', 'N', 'I', 'T', 'Y'],
    )
    ||| is_word(s, seq!['n', 'a', 'n'], seq!['N', 'A', 'N'])
    ||| is_decimal(s)
}

/// Whether `s` is a number text: an optional sign and an unsigned number.
pub open spec fn is_number(s: Seq<char>) -> bool {
    if s.len() > 0 && is_sign(s[0]) {
        is_unsigned_number(s.drop_first())
    } else {
        is_unsigned_number(s)
    }
}

fn is_digit_char(c: char) -> (r: bool)
    ensures
        r == is_digit(c),
{
    '0' <= c && c <= '9'
}

fn is_sign_char(c: char) -> (r: bool)
    ensures
        r == is_sign(c),
{
    c == '+' || c == '-'
}

fn is_exp_mark_char(c: char) -> (r: bool)
    ensures
        r == is_exp_mark(c),
{
    c == 'e' || c == 'E'
}

/// Whether the characters of `s` in `lo..hi` spell the word given by `lower`
/// and `upper`, each letter in either case.
fn word_in(s: &Vec<char>, lo: usize, hi: usize, lower: &Vec<char>, upper: &Vec<char>) -> (r:
    bool)
    requires
        lo <= hi <= s@.len(),
        lower@.len() == upper@.len(),
    ensures
        r == is_word(s@.subrange(lo as int, hi as int), lower@, upper@),
{
    if hi - lo != lower.len() {
        return false;
    }
    let mut i: usize = 0;
    while i < lower.len()
        invariant
            hi - lo == lower@.len() == upper@.len(),
            lo <= hi <= s@.len(),
            forall|j: int|
                0 <= j < i ==> #[trigger] s@[lo + j] == lower@[j] || s@[lo + j] == upper@[j],
        decreases lower.len() - i,
    {
        let c = s[lo + i];
        if !(c == lower[i] || c == upper[i]) {
            assert(s@.subrange(lo as int, hi as int)[i as int] == c);
            return false;
        }
        i = i + 1;
    }
    proof {
        let t = s@.subrange(lo as int, hi as int);
        assert forall|j: int| 0 <= j < t.len() implies #[trigger] t[j] == lower@[j] || t[j]
            == upper@[j] by {
            assert(t[j] == s@[lo + j]);
        }
    }
    true
}

/// Whether the characters of `s` in `lo..hi` are a mantissa.
fn mantissa_in(s: &Vec<char>, lo: usize, hi: usize) -> (r: bool)
    requires
        lo <= hi <= s@.len(),
    ensures
        r == is_mantissa(s@.subrange(lo as int, hi as int)),
{
    let ghost t = s@.subrange(lo as int, hi as int);
    let mut seen_dot = false;
    let mut seen_digit = false;
    let mut i: usize = lo;
    while i < hi
        invariant
            lo <= i <= hi <= s@.len(),
            t == s@.subrange(lo as int, hi as int),
            forall|j: int| 0 <= j < i - lo ==> is_digit(#[trigger] t[j]) || t[j] == '.',
            forall|j: int, k: int|
                0 <= j < k < i - lo && #[trigger] t[j] == '.' ==> #[trigger] t[k] != '.',
            seen_dot <==> exists|j: int| 0 <= j < i - lo && #[trigger] t[j] == '.',
            seen_digit <==> exists|j: int| 0 <= j < i - lo && is_digit(#[trigger] t[j]),
        decreases hi - i,
    {
        let c = s[i];
        assert(t[i - lo] == c);
        if is_digit_char(c) {
            seen_digit = true;
        } else if c == '.' && !seen_dot {
            seen_dot = true;
        } else {
            if c == '.' {
                let ghost j = choose|j: int| 0 <= j < i - lo && #[trigger] t[j] == '.';
                assert(t[(i - lo) as int] == '.');
            }
            return false;
        }
        i = i + 1;
    }
    seen_digit
}

/// Whether the characters of `s` in `lo..hi` are an exponent.
fn exponent_in(s: &Vec<char>, lo: usize, hi: usize) -> (r: bool)
    requires
        lo <= hi <= s@.len(),
    ensures
        r == is_exponent(s@.subrange(lo as int, hi as int)),
{
    let ghost t = s@.subrange(lo as int, hi as int);
    if lo == hi {
        return false;
    }
    let mut start: usize = lo;
    if is_sign_char(s[lo]) {
        start = lo + 1;
        if start == hi {
            return false;
        }
    }
    let ghost u = s@.subrange(start as int, hi as int);
    assert(t[0] == s@[lo as int]);
    assert(start > lo ==> u =~= t.drop_first());
    assert(start == lo ==> u =~= t);
    let mut i: usize = start;
    while i < hi
        invariant
            lo <= start <= i <= hi <= s@.len(),
            u == s@.subrange(start as int, hi as int),
            t == s@.subrange(lo as int, hi as int),
            t.len() > 0,
            start > lo ==> u == t.drop_first() && is_sign(t[0]) && u.len() >= 1,
            start == lo ==> u == t && !is_sign(t[0]),
            forall|j: int| 0 <= j < i - start ==> is_digit(#[trigger] u[j]),
        decreases hi - i,
    {
        assert(u[i - start] == s@[i as int]);
        if !is_digit_char(s[i]) {
            assert(!all_digits(u));
            return false;
        }
        i = i + 1;
    }
    true
}

/// Whether the characters of `s` in `lo..hi` are a decimal number.
fn decimal_in(s: &Vec<char>, lo: usize, hi: usize) -> (r: bool)
    requires
        lo <= hi <= s@.len(),
    ensures
        r == is_decimal(s@.subrange(lo as int, hi as int)),
{
    let ghost t = s@.subrange(lo as int, hi as int);
    let mut k: usize = lo;
    while k < hi && !is_exp_mark_char(s[k])
        invariant
            lo <= k <= hi <= s@.len(),
            forall|j: int| lo <= j < k ==> !is_exp_mark(#[trigger] s@[j]),
        decreases hi - k,
    {
        k = k + 1;
    }
    if k == hi {
        let r = mantissa_in(s, lo, hi);
        proof {
            assert forall|j: int| 0 <= j < t.len() implies !is_exp_mark(#[trigger] t[j]) by {
                assert(t[j] == s@[lo + j]);
            }
        }
        r
    } else {
        let m = mantissa_in(s, lo, k);
        let e = exponent_in(s, k + 1, hi);
        proof {
            let kk = k - lo;
            assert(t[kk] == s@[k as int]);
            assert(t.take(kk) =~= s@.subrange(lo as int, k as int));
            assert(t.skip(kk + 1) =~= s@.subrange(k + 1, hi as int));
            if !is_mantissa(t) {
            } else {
                assert(!is_digit(t[kk]) && t[kk] != '.');
            }
            if !(m && e) {
                assert forall|k2: int|
                    0 <= k2 < t.len() && is_exp_mark(#[trigger] t[k2]) && is_mantissa(
                        t.take(k2),
                    ) implies !is_exponent(t.skip(k2 + 1)) by {
                    if k2 < kk {
                        assert(t[k2] == s@[lo + k2]);
                    } else if k2 > kk {
                        assert(t.take(k2)[kk] == t[kk]);
                    }
                }
            }
        }
        m && e
    }
}

/// Whether the characters of `s` in `lo..hi` are a number text.
pub fn is_number_text(s: &Vec<char>, lo: usize, hi: usize) -> (r: bool)
    requires
        lo <= hi <= s@.len(),
    ensures
        r == is_number(s@.subrange(lo as int, hi as int)),
{
    let ghost t = s@.subrange(lo as int, hi as int);
    let mut start: usize = lo;
    if lo < hi && is_sign_char(s[lo]) {
        start = lo + 1;
    }
    let ghost u = s@.subrange(start as int, hi as int);
    proof {
        if lo < hi {
            assert(t[0] == s@[lo as int]);
        }
        if start > lo {
            assert(u =~= t.drop_first());
        } else {
            assert(u =~= t);
        }
    }
    let inf_lower = vec!['i', 'n', 'f'];
    let inf_upper = vec!['I', 'N', 'F'];
    let infinity_lower = vec!['i', 'n', 'f', 'i', 'n', 'i', 't', 'y'];
    let infinity_upper = vec!['I', 'N', 'F', 'I', 'N', 'I', 'T', 'Y'];
    let nan_lower = vec!['n', 'a', 'n'];
    let nan_upper = vec!['N', 'A', 'N'];
    word_in(s, start, hi, &inf_lower, &inf_upper) || word_in(
        s,
        start,
        hi,
        &infinity_lower,
        &infinity_upper,
    ) || word_in(s, start, hi, &nan_lower, &nan_upper) || decimal_in(s, start, hi)
}

} // verus!
