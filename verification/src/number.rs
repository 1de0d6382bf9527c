//! Decimal number grammars and exact numeric comparison.
//!
//! Two grammars live here. `is_decimal` is the grammar a bare cell must match
//! to become a number attribute: optional sign, digits with at most one dot,
//! optional exponent. `is_json_number` is the stricter grammar for numbers
//! inside structured values: no leading `+`, no leading zeros, a fractional
//! part only with digits, and an exponent of at most eighteen digits so that
//! exact comparison stays within machine arithmetic.
//!
//! `num_canon` maps a number text to a canonical (sign, digits, exponent)
//! triple; two texts denote the same number exactly when their canonical
//! forms agree. No floating point is involved anywhere.

use vstd::prelude::*;

verus! {

/// Whether a character is a decimal digit.
pub open spec fn is_digit(c: char) -> bool {
    '0' <= c && c <= '9'
}

/// The numeric value of a digit character.
pub open spec fn digit_val(c: char) -> int {
    c as int - '0' as int
}

/// The first position at or after `i` that does not hold a digit.
pub open spec fn digits_end(s: Seq<char>, i: int) -> int
    decreases s.len() - i,
{
    if 0 <= i < s.len() && is_digit(s[i]) {
        digits_end(s, i + 1)
    } else {
        i
    }
}

/// Position and content facts about `digits_end`.
pub proof fn lemma_digits_end(s: Seq<char>, i: int)
    requires
        0 <= i <= s.len(),
    ensures
        i <= digits_end(s, i) <= s.len(),
        forall|j: int| i <= j < digits_end(s, i) ==> is_digit(s[j]),
        digits_end(s, i) < s.len() ==> !is_digit(s[digits_end(s, i)]),
    decreases s.len() - i,
{
    if i < s.len() && is_digit(s[i]) {
        lemma_digits_end(s, i + 1);
    }
}

/// Scans digits starting at `i`; returns the first non-digit position.
pub fn digits_end_scan(s: &Vec<char>, i: usize) -> (r: usize)
    requires
        i <= s.len(),
    ensures
        r as int == digits_end(s@, i as int),
        i <= r <= s.len(),
{
    proof {
        lemma_digits_end(s@, i as int);
    }
    let mut j: usize = i;
    while j < s.len() && s[j] >= '0' && s[j] <= '9'
        invariant
            i <= j <= s.len(),
            digits_end(s@, i as int) == digits_end(s@, j as int),
        decreases s.len() - j,
    {
        j = j + 1;
    }
    j
}

/// The exponent part is either absent (at end of text) or `e`/`E`, an
/// optional sign, and one or more digits reaching the end. A positive
/// `max_digits` bounds the digit count; zero means unbounded.
pub open spec fn exp_part_ok(s: Seq<char>, i: int, max_digits: int) -> bool {
    if i == s.len() {
        true
    } else if 0 <= i < s.len() && (s[i] == 'e' || s[i] == 'E') {
        let j = if i + 1 < s.len() && (s[i + 1] == '+' || s[i + 1] == '-') {
            i + 2
        } else {
            i + 1
        };
        let de = digits_end(s, j);
        de > j && de == s.len() && (max_digits == 0 || de - j <= max_digits)
    } else {
        false
    }
}

/// Checks the exponent part starting at `i`.
pub fn exp_part_check(s: &Vec<char>, i: usize, max_digits: usize) -> (r: bool)
    requires
        i <= s.len(),
    ensures
        r == exp_part_ok(s@, i as int, max_digits as int),
{
    if i == s.len() {
        true
    } else if s[i] == 'e' || s[i] == 'E' {
        let j: usize = if i + 1 < s.len() && (s[i + 1] == '+' || s[i + 1] == '-') {
            i + 2
        } else {
            i + 1
        };
        let de: usize = digits_end_scan(s, j);
        de > j && de == s.len() && (max_digits == 0 || de - j <= max_digits)
    } else {
        false
    }
}

/// The position after an optional leading sign of a bare cell number.
pub open spec fn dec_sign_end(s: Seq<char>) -> int {
    if s.len() > 0 && (s[0] == '+' || s[0] == '-') {
        1
    } else {
        0
    }
}

/// The decimal-number grammar for a bare cell: optional sign, then digits
/// with at most one dot and at least one digit overall, then an optional
/// exponent. `inf` and `nan` spellings are not numbers here.
pub open spec fn is_decimal(s: Seq<char>) -> bool {
    let i0 = dec_sign_end(s);
    let i1 = digits_end(s, i0);
    if i1 < s.len() && s[i1] == '.' {
        let f = digits_end(s, i1 + 1);
        (i1 > i0 || f > i1 + 1) && exp_part_ok(s, f, 0)
    } else {
        i1 > i0 && exp_part_ok(s, i1, 0)
    }
}

/// Checks the bare-cell decimal grammar.
pub fn is_decimal_chars(s: &Vec<char>) -> (r: bool)
    ensures
        r == is_decimal(s@),
{
    let n: usize = s.len();
    let i0: usize = if n > 0 && (s[0] == '+' || s[0] == '-') {
        1
    } else {
        0
    };
    assert(i0 as int == dec_sign_end(s@));
    let i1: usize = digits_end_scan(s, i0);
    if i1 < n && s[i1] == '.' {
        let f: usize = digits_end_scan(s, i1 + 1);
        (i1 > i0 || f > i1 + 1) && exp_part_check(s, f, 0)
    } else {
        i1 > i0 && exp_part_check(s, i1, 0)
    }
}

/// The position after the optional minus sign of a structured number.
pub open spec fn jn_sign_end(s: Seq<char>) -> int {
    if s.len() > 0 && s[0] == '-' {
        1
    } else {
        0
    }
}

/// The end of the integer part of a structured number: a single zero, or
/// digits not starting with zero.
pub open spec fn jn_int_end(s: Seq<char>) -> int {
    let i0 = jn_sign_end(s);
    if i0 < s.len() && s[i0] == '0' {
        i0 + 1
    } else {
        digits_end(s, i0)
    }
}

/// The end of the fractional part (the integer end when no dot follows).
pub open spec fn jn_frac_end(s: Seq<char>) -> int {
    let i1 = jn_int_end(s);
    if i1 < s.len() && s[i1] == '.' {
        digits_end(s, i1 + 1)
    } else {
        i1
    }
}

/// The number grammar for structured values: optional minus, integer part
/// without leading zeros, optional fraction with at least one digit, and an
/// optional exponent of at most eighteen digits.
pub open spec fn is_json_number(s: Seq<char>) -> bool {
    let i0 = jn_sign_end(s);
    let i1 = jn_int_end(s);
    let f = jn_frac_end(s);
    i1 > i0 && (i1 == f || f > i1 + 1) && exp_part_ok(s, f, 18)
}

/// Checks the structured-number grammar.
pub fn is_json_number_chars(s: &Vec<char>) -> (r: bool)
    ensures
        r == is_json_number(s@),
{
    let n: usize = s.len();
    let i0: usize = if n > 0 && s[0] == '-' {
        1
    } else {
        0
    };
    assert(i0 as int == jn_sign_end(s@));
    let i1: usize = if i0 < n && s[i0] == '0' {
        i0 + 1
    } else {
        digits_end_scan(s, i0)
    };
    assert(i1 as int == jn_int_end(s@));
    let f: usize = if i1 < n && s[i1] == '.' {
        digits_end_scan(s, i1 + 1)
    } else {
        i1
    };
    assert(f as int == jn_frac_end(s@));
    proof {
        lemma_digits_end(s@, i0 as int);
    }
    i1 > i0 && (i1 == f || f > i1 + 1) && exp_part_check(s, f, 18)
}

/// Powers of ten.
pub open spec fn pow10(n: nat) -> int
    decreases n,
{
    if n == 0 {
        1
    } else {
        10 * pow10((n - 1) as nat)
    }
}

/// Powers of ten are positive and monotone.
pub proof fn lemma_pow10_mono(a: nat, b: nat)
    requires
        a <= b,
    ensures
        1 <= pow10(a) <= pow10(b),
    decreases b,
{
    if b > 0 {
        if a == b {
            lemma_pow10_mono((b - 1) as nat, (b - 1) as nat);
        } else {
            lemma_pow10_mono(a, (b - 1) as nat);
        }
    }
}

/// The value of a digit string, most significant digit first.
pub open spec fn digits_val(s: Seq<char>) -> int
    decreases s.len(),
{
    if s.len() == 0 {
        0
    } else {
        digits_val(s.drop_last()) * 10 + digit_val(s.last())
    }
}

/// A digit string's value is bounded by the power of its length.
pub proof fn lemma_digits_val_bound(s: Seq<char>)
    requires
        forall|j: int| 0 <= j < s.len() ==> is_digit(s[j]),
    ensures
        0 <= digits_val(s) < pow10(s.len()),
    decreases s.len(),
{
    if s.len() > 0 {
        lemma_digits_val_bound(s.drop_last());
    }
}

/// The count of leading zero characters.
pub open spec fn leading_zeros(s: Seq<char>) -> int
    decreases s.len(),
{
    if s.len() > 0 && s[0] == '0' {
        1 + leading_zeros(s.drop_first())
    } else {
        0
    }
}

/// Leading zeros bound, content, and the first surviving character.
pub proof fn lemma_leading_zeros(s: Seq<char>)
    ensures
        0 <= leading_zeros(s) <= s.len(),
        forall|j: int| 0 <= j < leading_zeros(s) ==> s[j] == '0',
        leading_zeros(s) < s.len() ==> s[leading_zeros(s)] != '0',
    decreases s.len(),
{
    if s.len() > 0 && s[0] == '0' {
        lemma_leading_zeros(s.drop_first());
        assert(forall|j: int|
            0 <= j < leading_zeros(s) ==> s[j] == if j == 0 {
                '0'
            } else {
                s.drop_first()[j - 1]
            });
    }
}

/// The count of trailing zero characters.
pub open spec fn trailing_zeros(s: Seq<char>) -> int
    decreases s.len(),
{
    if s.len() > 0 && s.last() == '0' {
        1 + trailing_zeros(s.drop_last())
    } else {
        0
    }
}

/// Trailing zeros bound, content, and the last surviving character.
pub proof fn lemma_trailing_zeros(s: Seq<char>)
    ensures
        0 <= trailing_zeros(s) <= s.len(),
        forall|j: int| s.len() - trailing_zeros(s) <= j < s.len() ==> s[j] == '0',
        trailing_zeros(s) < s.len() ==> s[s.len() - trailing_zeros(s) - 1] != '0',
    decreases s.len(),
{
    if s.len() > 0 && s.last() == '0' {
        lemma_trailing_zeros(s.drop_last());
        assert(forall|j: int|
            s.len() - trailing_zeros(s) <= j < s.len() ==> s[j] == if j == s.len() - 1 {
                '0'
            } else {
                s.drop_last()[j]
            });
    }
}

/// The canonical form of a number text: sign, significant digits without
/// leading or trailing zeros, and a decimal exponent. Zero is canonically
/// non-negative with no digits.
pub struct NumCanon {
    pub neg: bool,
    pub digits: Seq<char>,
    pub exp: int,
}

/// The digits of the fractional part.
pub open spec fn jn_frac_digits(s: Seq<char>) -> Seq<char> {
    let i1 = jn_int_end(s);
    if i1 < s.len() && s[i1] == '.' {
        s.subrange(i1 + 1, jn_frac_end(s))
    } else {
        Seq::empty()
    }
}

/// Whether the exponent is negative.
pub open spec fn jn_exp_neg(s: Seq<char>) -> bool {
    let f = jn_frac_end(s);
    f + 1 < s.len() && s[f + 1] == '-'
}

/// The digits of the exponent part (empty when absent).
pub open spec fn jn_exp_digits(s: Seq<char>) -> Seq<char> {
    let f = jn_frac_end(s);
    if f == s.len() {
        Seq::empty()
    } else {
        let j = if f + 1 < s.len() && (s[f + 1] == '+' || s[f + 1] == '-') {
            f + 2
        } else {
            f + 1
        };
        s.subrange(j, s.len() as int)
    }
}

/// The canonical form of a structured-number text.
pub open spec fn num_canon(s: Seq<char>) -> NumCanon {
    let mant = s.subrange(jn_sign_end(s), jn_int_end(s)) + jn_frac_digits(s);
    let ld = leading_zeros(mant);
    let m1 = mant.subrange(ld, mant.len() as int);
    let t = trailing_zeros(m1);
    let m2 = m1.subrange(0, m1.len() - t);
    if m2.len() == 0 {
        NumCanon { neg: false, digits: Seq::empty(), exp: 0 }
    } else {
        let e = if jn_exp_neg(s) {
            -digits_val(jn_exp_digits(s))
        } else {
            digits_val(jn_exp_digits(s))
        };
        NumCanon { neg: s.len() > 0 && s[0] == '-', digits: m2, exp: e - jn_frac_digits(s).len() + t }
    }
}

/// Whether two structured-number texts denote the same number.
pub open spec fn num_eq(a: Seq<char>, b: Seq<char>) -> bool {
    num_canon(a) == num_canon(b)
}

/// The executable canonical form.
pub struct CanonNum {
    pub neg: bool,
    pub digits: Vec<char>,
    pub exp: i128,
}

/// Scans the sign, integer and fraction boundaries of a number text.
fn jn_scan(s: &Vec<char>) -> (r: (usize, usize, usize))
    requires
        is_json_number(s@),
    ensures
        r.0 as int == jn_sign_end(s@),
        r.1 as int == jn_int_end(s@),
        r.2 as int == jn_frac_end(s@),
        r.0 <= r.1 <= r.2 <= s.len(),
        r.0 < r.1,
{
    let n: usize = s.len();
    let i0: usize = if n > 0 && s[0] == '-' {
        1
    } else {
        0
    };
    assert(i0 as int == jn_sign_end(s@));
    let i1: usize = if i0 < n && s[i0] == '0' {
        i0 + 1
    } else {
        digits_end_scan(s, i0)
    };
    assert(i1 as int == jn_int_end(s@));
    proof {
        lemma_digits_end(s@, i0 as int);
    }
    let f: usize = if i1 < n && s[i1] == '.' {
        digits_end_scan(s, i1 + 1)
    } else {
        i1
    };
    assert(f as int == jn_frac_end(s@));
    (i0, i1, f)
}

/// Collects the mantissa digits (integer part, then fraction digits) and
/// returns the fraction length with them.
fn jn_mantissa(s: &Vec<char>, i0: usize, i1: usize, f: usize) -> (r: (Vec<char>, usize))
    requires
        is_json_number(s@),
        i0 as int == jn_sign_end(s@),
        i1 as int == jn_int_end(s@),
        f as int == jn_frac_end(s@),
        i0 <= i1 <= f <= s.len(),
    ensures
        r.0@ == s@.subrange(jn_sign_end(s@), jn_int_end(s@)) + jn_frac_digits(s@),
        r.1 as int == jn_frac_digits(s@).len(),
{
    let n: usize = s.len();
    let has_frac: bool = i1 < n && s[i1] == '.';
    let mut mant: Vec<char> = Vec::new();
    let mut k: usize = i0;
    while k < i1
        invariant
            i0 <= k <= i1 <= s@.len(),
            mant@ == s@.subrange(i0 as int, k as int),
        decreases i1 - k,
    {
        mant.push(s[k]);
        assert(mant@ =~= s@.subrange(i0 as int, k as int + 1));
        k = k + 1;
    }
    if has_frac {
        let mut k2: usize = i1 + 1;
        while k2 < f
            invariant
                i1 + 1 <= k2 <= f <= s@.len(),
                mant@ == s@.subrange(i0 as int, i1 as int) + s@.subrange(i1 as int + 1, k2 as int),
            decreases f - k2,
        {
            mant.push(s[k2]);
            assert(mant@ =~= s@.subrange(i0 as int, i1 as int) + s@.subrange(
                i1 as int + 1,
                k2 as int + 1,
            ));
            k2 = k2 + 1;
        }
        assert(mant@ =~= s@.subrange(jn_sign_end(s@), jn_int_end(s@)) + jn_frac_digits(s@));
        (mant, f - (i1 + 1))
    } else {
        assert(mant@ =~= s@.subrange(jn_sign_end(s@), jn_int_end(s@)) + jn_frac_digits(s@));
        (mant, 0)
    }
}

/// Reads the exponent digits as a machine integer; the grammar bounds them
/// to eighteen digits.
fn jn_exp_value(s: &Vec<char>, f: usize) -> (e: i64)
    requires
        is_json_number(s@),
        f as int == jn_frac_end(s@),
        f <= s.len(),
    ensures
        e as int == digits_val(jn_exp_digits(s@)),
        0 <= e as int,
        (e as int) < 1000000000000000000,
{
    let n: usize = s.len();
    let mut e: i64 = 0;
    let ghost ed = jn_exp_digits(s@);
    if f < n {
        let j: usize = if f + 1 < n && (s[f + 1] == '+' || s[f + 1] == '-') {
            f + 2
        } else {
            f + 1
        };
        assert(ed =~= s@.subrange(j as int, n as int));
        proof {
            lemma_digits_end(s@, j as int);
            lemma_pow10_mono((n - j) as nat, 18);
            assert(pow10(18) == 1000000000000000000) by {
                reveal_with_fuel(pow10, 19);
            }
        }
        let mut k4: usize = j;
        while k4 < n
            invariant
                j <= k4 <= n,
                n == s@.len(),
                forall|q: int| j <= q < n ==> is_digit(s@[q]),
                n - j <= 18,
                e as int == digits_val(s@.subrange(j as int, k4 as int)),
                0 <= e as int,
                (e as int) < pow10((k4 - j) as nat),
                pow10((k4 - j) as nat) <= pow10(18),
                pow10(18) == 1000000000000000000,
            decreases n - k4,
        {
            let c: char = s[k4];
            let d: u32 = (c as u32) - ('0' as u32);
            assert(0 <= d <= 9);
            assert(pow10((k4 - j + 1) as nat) == 10 * pow10((k4 - j) as nat));
            proof {
                lemma_pow10_mono((k4 - j + 1) as nat, 18);
            }
            assert((e as int) * 10 + (d as int) < pow10((k4 - j + 1) as nat));
            e = e * 10 + (d as i64);
            assert(s@.subrange(j as int, k4 as int + 1).drop_last() =~= s@.subrange(
                j as int,
                k4 as int,
            ));
            assert(s@.subrange(j as int, k4 as int + 1).last() == c);
            k4 = k4 + 1;
        }
        assert(s@.subrange(j as int, n as int) =~= ed);
    } else {
        assert(ed.len() == 0);
    }
    e
}

/// Computes the canonical form of a number text.
#[verifier::rlimit(60)]
#[verifier::spinoff_prover]
pub fn canon_number(s: &Vec<char>) -> (r: CanonNum)
    requires
        is_json_number(s@),
    ensures
        r.neg == num_canon(s@).neg,
        r.digits@ == num_canon(s@).digits,
        r.exp as int == num_canon(s@).exp,
{
    let n: usize = s.len();
    let (i0, i1, f) = jn_scan(s);
    let (mant, frac_len) = jn_mantissa(s, i0, i1, f);
    let ghost spec_mant = s@.subrange(jn_sign_end(s@), jn_int_end(s@)) + jn_frac_digits(s@);

    // strip leading zeros
    proof {
        lemma_leading_zeros(mant@);
    }
    let mut ld: usize = 0;
    while ld < mant.len() && mant[ld] == '0'
        invariant
            0 <= ld <= mant@.len(),
            forall|j: int| 0 <= j < ld ==> mant@[j] == '0',
        decreases mant.len() - ld,
    {
        ld = ld + 1;
    }
    assert(ld as int == leading_zeros(mant@)) by {
        lemma_leading_zeros(mant@);
        let lz = leading_zeros(mant@);
        if ld < lz {
            assert(mant@[ld as int] == '0');
        }
        if lz < ld {
            assert(mant@[lz] == '0');
        }
    }
    let ghost m1 = spec_mant.subrange(ld as int, spec_mant.len() as int);
    if ld == mant.len() {
        // the mantissa is all zeros: the number is zero
        assert(m1.len() == 0);
        assert(trailing_zeros(m1) == 0);
        assert(m1.subrange(0, 0).len() == 0);
        return CanonNum { neg: false, digits: Vec::new(), exp: 0 };
    }
    // strip trailing zeros of the remainder
    proof {
        lemma_trailing_zeros(m1);
    }
    let mut t: usize = 0;
    while mant.len() - t > ld && mant[mant.len() - t - 1] == '0'
        invariant
            0 <= t <= mant@.len() - ld,
            forall|j: int| mant@.len() - t <= j < mant@.len() ==> mant@[j] == '0',
        decreases mant.len() - t,
    {
        t = t + 1;
    }
    assert(forall|j: int| 0 <= j < m1.len() ==> m1[j] == mant@[ld + j]);
    assert(t as int == trailing_zeros(m1)) by {
        lemma_trailing_zeros(m1);
        let tz = trailing_zeros(m1);
        if t < tz {
            assert(m1[m1.len() - t - 1] == '0');
            assert(mant@[mant@.len() - t - 1] == '0');
        }
        if tz < t {
            assert(mant@[mant@.len() - tz - 1] == '0');
            assert(m1[m1.len() - tz - 1] == '0');
        }
    }
    let mut digits: Vec<char> = Vec::new();
    let hi: usize = mant.len() - t;
    let mut k3: usize = ld;
    while k3 < hi
        invariant
            ld <= k3 <= hi <= mant@.len(),
            digits@ == mant@.subrange(ld as int, k3 as int),
        decreases hi - k3,
    {
        digits.push(mant[k3]);
        assert(digits@ =~= mant@.subrange(ld as int, k3 as int + 1));
        k3 = k3 + 1;
    }
    assert(digits@ =~= m1.subrange(0, m1.len() - t));

    let e: i64 = jn_exp_value(s, f);
    let exp_neg: bool = if f < n {
        f + 1 < n && s[f + 1] == '-'
    } else {
        false
    };
    assert(exp_neg == jn_exp_neg(s@));
    let signed_e: i128 = if exp_neg {
        -(e as i128)
    } else {
        e as i128
    };
    let exp: i128 = signed_e - (frac_len as i128) + (t as i128);
    let neg: bool = n > 0 && s[0] == '-';
    assert(digits@.len() > 0);
    assert(num_canon(s@).digits == digits@ && num_canon(s@).neg == neg && num_canon(s@).exp
        == exp as int);
    CanonNum { neg, digits, exp }
}

/// Decides whether two number texts denote the same number.
pub fn num_equal(a: &Vec<char>, b: &Vec<char>) -> (r: bool)
    requires
        is_json_number(a@),
        is_json_number(b@),
    ensures
        r == num_eq(a@, b@),
{
    let ca = canon_number(a);
    let cb = canon_number(b);
    if ca.neg != cb.neg || ca.exp != cb.exp || ca.digits.len() != cb.digits.len() {
        assert(!(num_canon(a@) == num_canon(b@)));
        return false;
    }
    let n: usize = ca.digits.len();
    let mut i: usize = 0;
    while i < n
        invariant
            i <= n,
            n == ca.digits@.len(),
            n == cb.digits@.len(),
            ca.digits@ == num_canon(a@).digits,
            cb.digits@ == num_canon(b@).digits,
            ca.neg == num_canon(a@).neg,
            cb.neg == num_canon(b@).neg,
            ca.exp as int == num_canon(a@).exp,
            cb.exp as int == num_canon(b@).exp,
            forall|j: int| 0 <= j < i ==> ca.digits@[j] == cb.digits@[j],
        decreases n - i,
    {
        if ca.digits[i] != cb.digits[i] {
            assert(num_canon(a@).digits[i as int] != num_canon(b@).digits[i as int]);
            return false;
        }
        i = i + 1;
    }
    assert(ca.digits@ =~= cb.digits@);
    true
}

} // verus!
