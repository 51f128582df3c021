//! The grammar of decimal floating-point literals, as accepted by the
//! standard library's `FromStr` for floating-point numbers:
//!
//! ```text
//! Float    ::= Sign? ( 'inf' | 'infinity' | 'nan' | Number )
//! Number   ::= ( Digit+ | Digit+ '.' Digit* | Digit* '.' Digit+ ) Exp?
//! Exp      ::= 'e' Sign? Digit+
//! Sign     ::= [+-]
//! Digit    ::= [0-9]
//! ```
//!
//! Letters match in either ASCII case; no white space is allowed.
use vstd::prelude::*;

verus! {

pub open spec fn is_digit(c: char) -> bool {
    '0' <= c && c <= '9'
}

pub open spec fn is_sign(c: char) -> bool {
    c == '+' || c == '-'
}

pub open spec fn is_exp_marker(c: char) -> bool {
    c == 'e' || c == 'E'
}

pub open spec fn all_digits(s: Seq<char>) -> bool {
    forall|i: int| 0 <= i < s.len() ==> is_digit(#[trigger] s[i])
}

/// `s` without one leading sign.
pub open spec fn unsigned(s: Seq<char>) -> Seq<char> {
    if s.len() > 0 && is_sign(s[0]) {
        s.drop_first()
    } else {
        s
    }
}

/// `c` is the upper-case ASCII form of the lower-case letter `w`.
pub open spec fn is_upper_of(c: char, w: char) -> bool {
    (c as u32) < (w as u32) && (w as u32) - (c as u32) == 32
}

/// `s` spells the lower-case ASCII word `w`, in any case.
pub open spec fn matches_word(s: Seq<char>, w: Seq<char>) -> bool {
    s.len() == w.len() && forall|i: int|
        0 <= i < s.len() ==> (s[i] == w[i] || is_upper_of(s[i], w[i]))
}

/// Digits, with at most one decimal point and at least one digit.
pub open spec fn is_mantissa(s: Seq<char>) -> bool {
    (s.len() > 0 && all_digits(s)) || (s.len() >= 2 && exists|k: int|
        0 <= k < s.len() && s[k] == '.' && all_digits(s.take(k)) && all_digits(
            #[trigger] s.skip(k + 1),
        ))
}

/// An exponent marker, an optional sign and at least one digit.
pub open spec fn is_exponent(s: Seq<char>) -> bool {
    s.len() > 0 && is_exp_marker(s[0]) && unsigned(s.drop_first()).len() > 0 && all_digits(
        unsigned(s.drop_first()),
    )
}

/// A mantissa with an optional exponent.
pub open spec fn is_decimal(s: Seq<char>) -> bool {
    is_mantissa(s) || exists|k: int|
        0 <= k <= s.len() && is_mantissa(s.take(k)) && is_exponent(#[trigger] s.skip(k))
}

/// Whether `s` is a floating-point literal.
pub open spec fn is_float_literal(s: Seq<char>) -> bool {
    let u = unsigned(s);
    matches_word(u, seq!['i', 'n', 'f']) || matches_word(
        u,
        seq!['i', 'n', 'f', 'i', 'n', 'i', 't', 'y'],
    ) || matches_word(u, seq!['n', 'a', 'n']) || is_decimal(u)
}

fn digits_between(s: &Vec<char>, lo: usize, hi: usize) -> (r: bool)
    requires
        lo <= hi <= s.len(),
    ensures
        r == all_digits(s@.subrange(lo as int, hi as int)),
{
    let mut i: usize = lo;
    while i < hi
        invariant
            lo <= i <= hi <= s.len(),
            all_digits(s@.subrange(lo as int, i as int)),
        decreases hi - i,
    {
        if !('0' <= s[i] && s[i] <= '9') {
            assert(s@.subrange(lo as int, hi as int)[i - lo] == s@[i as int]);
            return false;
        }
        assert forall|j: int| 0 <= j < i + 1 - lo implies is_digit(
            #[trigger] s@.subrange(lo as int, i + 1)[j],
        ) by {
            if j < i - lo {
                assert(s@.subrange(lo as int, i + 1)[j] == s@.subrange(lo as int, i as int)[j]);
            }
        }
        i = i + 1;
    }
    true
}

/// The first index in `lo..hi` that holds `c`, or `hi`.
fn find_char(s: &Vec<char>, lo: usize, hi: usize, c: char) -> (k: usize)
    requires
        lo <= hi <= s.len(),
    ensures
        lo <= k <= hi,
        forall|j: int| lo <= j < k ==> s@[j] != c,
        k < hi ==> s@[k as int] == c,
{
    let mut i: usize = lo;
    while i < hi
        invariant
            lo <= i <= hi <= s.len(),
            forall|j: int| lo <= j < i ==> s@[j] != c,
        decreases hi - i,
    {
        if s[i] == c {
            return i;
        }
        i = i + 1;
    }
    hi
}

/// The first index in `lo..hi` that holds an exponent marker, or `hi`.
fn find_exp_marker(s: &Vec<char>, lo: usize, hi: usize) -> (k: usize)
    requires
        lo <= hi <= s.len(),
    ensures
        lo <= k <= hi,
        forall|j: int| lo <= j < k ==> !is_exp_marker(s@[j]),
        k < hi ==> is_exp_marker(s@[k as int]),
{
    let e = find_char(s, lo, hi, 'e');
    let u = find_char(s, lo, e, 'E');
    u
}

fn mantissa_between(s: &Vec<char>, lo: usize, hi: usize) -> (r: bool)
    requires
        lo <= hi <= s.len(),
    ensures
        r == is_mantissa(s@.subrange(lo as int, hi as int)),
{
    let ghost m = s@.subrange(lo as int, hi as int);
    if lo < hi && digits_between(s, lo, hi) {
        return true;
    }
    if hi - lo < 2 {
        return false;
    }
    let d = find_char(s, lo, hi, '.');
    let ghost k = d - lo;
    if d == hi {
        assert forall|j: int|
            0 <= j < m.len() && m[j] == '.' implies !all_digits(m.take(j)) || !all_digits(
            #[trigger] m.skip(j + 1),
        ) by {
            assert(m[j] == s@[lo + j]);
        }
        return false;
    }
    let r = digits_between(s, lo, d) && digits_between(s, d + 1, hi);
    assert(m.take(k) =~= s@.subrange(lo as int, d as int));
    assert(m.skip(k + 1) =~= s@.subrange(d + 1, hi as int));
    assert(m[k] == '.');
    if !r {
        assert forall|j: int|
            0 <= j < m.len() && m[j] == '.' implies !all_digits(m.take(j)) || !all_digits(
            #[trigger] m.skip(j + 1),
        ) by {
            assert(m[j] == s@[lo + j]);
            if j > k {
                assert(m.take(j)[k] == '.');
            }
        }
    }
    r
}

fn exponent_between(s: &Vec<char>, lo: usize, hi: usize) -> (r: bool)
    requires
        lo <= hi <= s.len(),
    ensures
        r == is_exponent(s@.subrange(lo as int, hi as int)),
{
    let ghost m = s@.subrange(lo as int, hi as int);
    if lo == hi || !(s[lo] == 'e' || s[lo] == 'E') {
        return false;
    }
    let mut a: usize = lo + 1;
    assert(m.drop_first() =~= s@.subrange(lo + 1, hi as int));
    if a < hi && (s[a] == '+' || s[a] == '-') {
        a = a + 1;
    }
    assert(unsigned(m.drop_first()) =~= s@.subrange(a as int, hi as int));
    a < hi && digits_between(s, a, hi)
}

fn decimal_between(s: &Vec<char>, lo: usize, hi: usize) -> (r: bool)
    requires
        lo <= hi <= s.len(),
    ensures
        r == is_decimal(s@.subrange(lo as int, hi as int)),
{
    let ghost m = s@.subrange(lo as int, hi as int);
    let e = find_exp_marker(s, lo, hi);
    let ghost k = e - lo;
    if e == hi {
        assert forall|j: int| 0 <= j <= m.len() implies !is_exponent(#[trigger] m.skip(j)) by {
            if j < m.len() {
                assert(m.skip(j)[0] == s@[lo + j]);
            }
        }
        return mantissa_between(s, lo, hi);
    }
    let r = mantissa_between(s, lo, e) && exponent_between(s, e, hi);
    assert(m.take(k) =~= s@.subrange(lo as int, e as int));
    assert(m.skip(k) =~= s@.subrange(e as int, hi as int));
    assert(m[k] == s@[e as int]);
    assert(!is_mantissa(m)) by {
        assert(!is_digit(m[k]) && m[k] != '.');
        if m.len() >= 2 && exists|j: int|
            0 <= j < m.len() && m[j] == '.' && all_digits(m.take(j)) && all_digits(
                #[trigger] m.skip(j + 1),
            ) {
            let j = choose|j: int|
                0 <= j < m.len() && m[j] == '.' && all_digits(m.take(j)) && all_digits(
                    #[trigger] m.skip(j + 1),
                );
            if k < j {
                assert(m.take(j)[k] == m[k]);
            } else {
                assert(m.skip(j + 1)[k - j - 1] == m[k]);
            }
        }
    }
    if !r {
        assert forall|j: int| 0 <= j <= m.len() && is_mantissa(m.take(j)) implies !is_exponent(
            #[trigger] m.skip(j),
        ) by {
            if j < k {
                assert(m.skip(j)[0] == s@[lo + j]);
            } else if j > k {
                let t = m.take(j);
                assert(t[k] == m[k]);
                assert(!is_digit(t[k]) && t[k] != '.');
                if t.len() >= 2 && exists|i: int|
                    0 <= i < t.len() && t[i] == '.' && all_digits(t.take(i)) && all_digits(
                        #[trigger] t.skip(i + 1),
                    ) {
                    let i = choose|i: int|
                        0 <= i < t.len() && t[i] == '.' && all_digits(t.take(i)) && all_digits(
                            #[trigger] t.skip(i + 1),
                        );
                    if k < i {
                        assert(t.take(i)[k] == t[k]);
                    } else {
                        assert(t.skip(i + 1)[k - i - 1] == t[k]);
                    }
                }
            }
        }
    }
    r
}

fn word_between(s: &Vec<char>, lo: usize, hi: usize, w: &[char]) -> (r: bool)
    requires
        lo <= hi <= s.len(),
    ensures
        r == matches_word(s@.subrange(lo as int, hi as int), w@),
{
    let ghost m = s@.subrange(lo as int, hi as int);
    if hi - lo != w.len() {
        return false;
    }
    let mut i: usize = 0;
    while i < w.len()
        invariant
            lo <= hi <= s.len(),
            hi - lo == w@.len(),
            m == s@.subrange(lo as int, hi as int),
            forall|j: int| 0 <= j < i ==> (m[j] == w@[j] || is_upper_of(m[j], w@[j])),
        decreases w.len() - i,
    {
        let c = s[lo + i];
        assert(m[i as int] == c);
        if !(c == w[i] || { let (x, y) = (c as u32, w[i] as u32); x < y && y - x == 32 }) {
            return false;
        }
        i = i + 1;
    }
    true
}

/// Whether `s` is a floating-point literal: an optional sign, then `inf`,
/// `infinity` or `nan` in any case, or a decimal number with an optional
/// exponent.
pub fn is_number_literal(s: &Vec<char>) -> (r: bool)
    ensures
        r == is_float_literal(s@),
{
    let n = s.len();
    let mut a: usize = 0;
    if n > 0 && (s[0] == '+' || s[0] == '-') {
        a = 1;
    }
    assert(unsigned(s@) =~= s@.subrange(a as int, n as int));
    let inf = ['i', 'n', 'f'];
    let infinity = ['i', 'n', 'f', 'i', 'n', 'i', 't', 'y'];
    let nan = ['n', 'a', 'n'];
    assert(inf@ =~= seq!['i', 'n', 'f']);
    assert(infinity@ =~= seq!['i', 'n', 'f', 'i', 'n', 'i', 't', 'y']);
    assert(nan@ =~= seq!['n', 'a', 'n']);
    word_between(s, a, n, &inf) || word_between(s, a, n, &infinity) || word_between(
        s,
        a,
        n,
        &nan,
    ) || decimal_between(s, a, n)
}

} // verus!
