//! Number texts as a float parser reads them: an optional sign, a mantissa
//! of digits with at most one decimal point, an optional exponent, or one
//! of the words `inf`, `infinity` and `nan`.  Values are taken exactly, as
//! a digit string scaled by a power of ten.

use vstd::prelude::*;
use vstd::arithmetic::div_mod::{
    lemma_basic_div, lemma_div_by_multiple, lemma_div_denominator, lemma_div_is_ordered,
    lemma_hoist_over_denominator,
};
use crate::text::{
    all_digits, digit_value, digits_value, find_char, fraction_carry, index_of, is_digit,
    lemma_digits_value_bounds, lemma_digits_value_prepend, lemma_fraction_carry, lemma_index_of,
    lemma_pow10_positive, pow10,
};

verus! {

// ---------------------------------------------------------------------------
// The shape of a number text
// ---------------------------------------------------------------------------

/// Length of a leading `+` or `-`.
pub open spec fn sign_len(s: Seq<char>) -> int {
    if s.len() > 0 && (s[0] == '+' || s[0] == '-') {
        1
    } else {
        0
    }
}

pub open spec fn is_negative_text(s: Seq<char>) -> bool {
    s.len() > 0 && s[0] == '-'
}

pub open spec fn unsigned_part(s: Seq<char>) -> Seq<char> {
    s.skip(sign_len(s))
}

/// Digits before the decimal point of a mantissa.
pub open spec fn int_digits(m: Seq<char>) -> Seq<char> {
    m.take(index_of(m, '.'))
}

/// Digits after the decimal point (none when there is no point).
pub open spec fn frac_digits(m: Seq<char>) -> Seq<char> {
    if index_of(m, '.') < m.len() {
        m.skip(index_of(m, '.') + 1)
    } else {
        Seq::empty()
    }
}

/// `digits[.digits]`, `digits.` or `.digits`, with at least one digit.
pub open spec fn is_mantissa(m: Seq<char>) -> bool {
    &&& all_digits(int_digits(m))
    &&& all_digits(frac_digits(m))
    &&& int_digits(m).len() + frac_digits(m).len() > 0
}

/// Index of the first `e` or `E`, or the length.
pub open spec fn exponent_index(s: Seq<char>) -> int
    decreases s.len(),
{
    if s.len() == 0 {
        0
    } else if s[0] == 'e' || s[0] == 'E' {
        0
    } else {
        1 + exponent_index(s.drop_first())
    }
}

/// The unsigned text before any exponent marker.
pub open spec fn mantissa_text(s: Seq<char>) -> Seq<char> {
    unsigned_part(s).take(exponent_index(unsigned_part(s)))
}

pub open spec fn has_exponent(s: Seq<char>) -> bool {
    exponent_index(unsigned_part(s)) < unsigned_part(s).len()
}

/// The text after the exponent marker: an optional sign and digits.
pub open spec fn exponent_text(s: Seq<char>) -> Seq<char> {
    unsigned_part(s).skip(exponent_index(unsigned_part(s)) + 1)
}

pub open spec fn is_exponent(x: Seq<char>) -> bool {
    x.skip(sign_len(x)).len() > 0 && all_digits(x.skip(sign_len(x)))
}

pub open spec fn exponent_value(x: Seq<char>) -> int {
    if is_negative_text(x) {
        -digits_value(x.skip(1))
    } else {
        digits_value(x.skip(sign_len(x)))
    }
}

/// A finite number: sign, mantissa, and an optional `e`/`E` exponent with
/// its own optional sign.
pub open spec fn is_number_text(s: Seq<char>) -> bool {
    &&& is_mantissa(mantissa_text(s))
    &&& has_exponent(s) ==> is_exponent(exponent_text(s))
}

/// The mantissa's digits with the decimal point taken out.
pub open spec fn number_digits(s: Seq<char>) -> Seq<char> {
    int_digits(mantissa_text(s)) + frac_digits(mantissa_text(s))
}

/// The power of ten by which `number_digits` is scaled to the magnitude of
/// the number.
pub open spec fn number_scale(s: Seq<char>) -> int {
    (if has_exponent(s) {
        exponent_value(exponent_text(s))
    } else {
        0
    }) - frac_digits(mantissa_text(s)).len()
}

/// `floor(m * d * 10^p)`.
pub open spec fn scaled_floor(d: int, m: int, p: int) -> int {
    if p >= 0 {
        m * d * pow10(p as nat)
    } else {
        (m * d) / pow10((-p) as nat)
    }
}

/// `c` equals the lowercase ASCII letter `l` up to ASCII case.
pub open spec fn ascii_ci_char(c: char, l: char) -> bool {
    c == l || ('a' <= l <= 'z' && c as u32 + 32 == l as u32)
}

pub open spec fn ascii_ci_eq(s: Seq<char>, l: Seq<char>) -> bool {
    s.len() == l.len() && forall|i: int| 0 <= i < s.len() ==> ascii_ci_char(#[trigger] s[i], l[i])
}

/// `inf` or `infinity` in any case, with an optional sign.
pub open spec fn is_infinity_text(s: Seq<char>) -> bool {
    ||| ascii_ci_eq(unsigned_part(s), seq!['i', 'n', 'f'])
    ||| ascii_ci_eq(unsigned_part(s), seq!['i', 'n', 'f', 'i', 'n', 'i', 't', 'y'])
}

/// `nan` in any case, with an optional sign.
pub open spec fn is_nan_text(s: Seq<char>) -> bool {
    ascii_ci_eq(unsigned_part(s), seq!['n', 'a', 'n'])
}

// ---------------------------------------------------------------------------
// Powers of ten and digit strings
// ---------------------------------------------------------------------------

proof fn lemma_pow10_add(a: nat, b: nat)
    ensures
        pow10(a + b) == pow10(a) * pow10(b),
    decreases b,
{
    if b > 0 {
        lemma_pow10_add(a, (b - 1) as nat);
        let p = pow10((b - 1) as nat);
        assert(pow10(a + b) == 10 * pow10((a + b - 1) as nat));
        assert(10 * (pow10(a) * p) == pow10(a) * (10 * p)) by (nonlinear_arith);
    }
}

proof fn lemma_pow10_mono(a: nat, b: nat)
    requires
        a <= b,
    ensures
        pow10(a) <= pow10(b),
    decreases b,
{
    if a < b {
        lemma_pow10_mono(a, (b - 1) as nat);
        lemma_pow10_positive((b - 1) as nat);
    }
}

pub(crate) proof fn lemma_pow10_values()
    ensures
        pow10(4) == 10_000,
        pow10(20) == 100_000_000_000_000_000_000,
        pow10(29) == 100_000_000_000_000_000_000_000_000_000,
        pow10(38) == 100_000_000_000_000_000_000_000_000_000_000_000_000,
{
    reveal_with_fuel(pow10, 39);
}

proof fn lemma_all_digits_parts(s: Seq<char>, i: int)
    requires
        all_digits(s),
        0 <= i <= s.len(),
    ensures
        all_digits(s.take(i)),
        all_digits(s.skip(i)),
{
    assert forall|j: int| 0 <= j < s.take(i).len() implies is_digit(#[trigger] s.take(i)[j]) by {
        assert(s.take(i)[j] == s[j]);
    }
    assert forall|j: int| 0 <= j < s.skip(i).len() implies is_digit(#[trigger] s.skip(i)[j]) by {
        assert(s.skip(i)[j] == s[i + j]);
    }
}

proof fn lemma_all_digits_concat(x: Seq<char>, y: Seq<char>)
    requires
        all_digits(x),
        all_digits(y),
    ensures
        all_digits(x + y),
{
    assert forall|j: int| 0 <= j < (x + y).len() implies is_digit(#[trigger] (x + y)[j]) by {
        if j < x.len() {
            assert((x + y)[j] == x[j]);
        } else {
            assert((x + y)[j] == y[j - x.len()]);
        }
    }
}

proof fn lemma_digits_value_take(s: Seq<char>, i: int)
    requires
        0 <= i < s.len(),
    ensures
        digits_value(s.take(i + 1)) == digits_value(s.take(i)) * 10 + digit_value(s[i]),
{
    assert(s.take(i + 1).drop_last() =~= s.take(i));
}

/// The digits of `x` followed by those of `y`.
proof fn lemma_digits_value_append(x: Seq<char>, y: Seq<char>)
    ensures
        digits_value(x + y) == digits_value(x) * pow10(y.len()) + digits_value(y),
    decreases y.len(),
{
    if y.len() == 0 {
        assert(x + y =~= x);
    } else {
        let y2 = y.drop_last();
        lemma_digits_value_append(x, y2);
        assert((x + y).drop_last() =~= x + y2);
        assert((x + y).last() == y.last());
        let p = pow10(y2.len());
        let a = digits_value(x);
        let b = digits_value(y2);
        let l = digit_value(y.last());
        assert(pow10(y.len()) == 10 * p);
        assert((a * p + b) * 10 + l == a * (10 * p) + (b * 10 + l)) by (nonlinear_arith);
    }
}

proof fn lemma_zero_digits_value(s: Seq<char>)
    requires
        forall|i: int| 0 <= i < s.len() ==> s[i] == '0',
    ensures
        digits_value(s) == 0,
    decreases s.len(),
{
    if s.len() > 0 {
        let t = s.drop_last();
        assert forall|i: int| 0 <= i < t.len() implies t[i] == '0' by {
            assert(t[i] == s[i]);
        }
        lemma_zero_digits_value(t);
        assert(s[s.len() - 1] == '0');
    }
}

/// Leading zeros do not change the value of a digit string.
proof fn lemma_leading_zeros(s: Seq<char>, z: int)
    requires
        0 <= z <= s.len(),
        forall|i: int| 0 <= i < z ==> s[i] == '0',
    ensures
        digits_value(s) == digits_value(s.skip(z)),
{
    let h = s.take(z);
    assert forall|i: int| 0 <= i < h.len() implies h[i] == '0' by {
        assert(h[i] == s[i]);
    }
    lemma_zero_digits_value(h);
    assert(h + s.skip(z) =~= s);
    lemma_digits_value_append(h, s.skip(z));
}

/// A digit string that does not start with `0` has exactly its length in
/// significant digits.
proof fn lemma_leading_digit(t: Seq<char>)
    requires
        all_digits(t),
        t.len() >= 1,
        t[0] != '0',
    ensures
        pow10((t.len() - 1) as nat) <= digits_value(t) < pow10(t.len()),
{
    lemma_digits_value_prepend(t);
    lemma_digits_value_bounds(t);
    lemma_all_digits_parts(t, 1);
    assert(t.drop_first() =~= t.skip(1));
    lemma_digits_value_bounds(t.drop_first());
    lemma_pow10_positive((t.len() - 1) as nat);
    assert(is_digit(t[0]));
    let d0 = digit_value(t[0]);
    let p = pow10((t.len() - 1) as nat);
    assert(d0 * p >= p) by (nonlinear_arith)
        requires
            d0 >= 1,
            p >= 1,
    ;
}

// ---------------------------------------------------------------------------
// Scaled values
// ---------------------------------------------------------------------------

/// A value whose leading digit sits at or above the power `lim` is at least
/// `m * 10^lim`.
proof fn lemma_scaled_at_least(d: int, m: int, len: nat, q: int, lim: nat)
    requires
        len >= 1,
        d >= pow10((len - 1) as nat),
        m >= 0,
        len - 1 + q >= lim,
    ensures
        scaled_floor(d, m, q) >= m * pow10(lim),
{
    let a = (len - 1) as nat;
    if q >= 0 {
        let qn = q as nat;
        lemma_pow10_add(a, qn);
        lemma_pow10_mono(lim, a + qn);
        lemma_pow10_positive(qn);
        let pa = pow10(a);
        let pq = pow10(qn);
        assert(m * d * pq >= m * pow10(lim)) by (nonlinear_arith)
            requires
                d >= pa,
                m >= 0,
                pq >= 1,
                pow10(lim) <= pa * pq,
        ;
    } else {
        let k = (-q) as nat;
        let g = (a - k) as nat;
        lemma_pow10_add(g, k);
        lemma_pow10_positive(k);
        lemma_pow10_positive(g);
        lemma_pow10_mono(lim, g);
        let pg = pow10(g);
        let pk = pow10(k);
        assert(m * d >= (m * pg) * pk && m * pg >= 0) by (nonlinear_arith)
            requires
                d >= pg * pk,
                m >= 0,
                pg >= 1,
        ;
        lemma_div_is_ordered((m * pg) * pk, m * d, pk);
        lemma_div_by_multiple(m * pg, pk);
        assert(m * pg >= m * pow10(lim)) by (nonlinear_arith)
            requires
                pow10(lim) <= pg,
                m >= 0,
        ;
    }
}

/// A value whose digits all sit four or more places below the units place,
/// times a factor below `10^4`, has no whole part.
proof fn lemma_scaled_vanishes(d: int, m: int, len: nat, q: int)
    requires
        0 <= d < pow10(len),
        0 <= m <= 10_000,
        len + q <= -4,
    ensures
        scaled_floor(d, m, q) == 0,
{
    let k = (-q) as nat;
    let e = (k - len) as nat;
    lemma_pow10_add(len, e);
    lemma_pow10_mono(4, e);
    lemma_pow10_values();
    lemma_pow10_positive(len);
    let pl = pow10(len);
    let pe = pow10(e);
    assert(0 <= m * d < pl * pe) by (nonlinear_arith)
        requires
            0 <= d < pl,
            0 <= m <= 10_000,
            10_000 <= pe,
    ;
    lemma_basic_div(m * d, pow10(k));
}

/// Cutting the digit string where the units place falls: the whole part is
/// the head times `m` plus the carry of the tail.
proof fn lemma_scaled_split(t: Seq<char>, m: int, k: nat)
    requires
        all_digits(t),
        1 <= k <= t.len(),
        m >= 0,
    ensures
        scaled_floor(digits_value(t), m, -k) == m * digits_value(t.take(t.len() - k))
            + fraction_carry(t.skip(t.len() - k), m),
{
    let i = t.len() - k;
    let h = t.take(i);
    let r = t.skip(i);
    lemma_all_digits_parts(t, i);
    assert(h + r =~= t);
    lemma_digits_value_append(h, r);
    lemma_fraction_carry(r, m);
    lemma_pow10_positive(k);
    let pk = pow10(k);
    let dh = digits_value(h);
    let dr = digits_value(r);
    assert(m * (dh * pk + dr) == m * dr + (m * dh) * pk) by (nonlinear_arith);
    lemma_hoist_over_denominator(m * dr, m * dh, pk as nat);
}

/// When every digit falls below the units place: the carry of the whole
/// string, shifted down by the remaining places.
proof fn lemma_scaled_short(t: Seq<char>, m: int, k: nat)
    requires
        all_digits(t),
        t.len() < k,
        m >= 0,
    ensures
        scaled_floor(digits_value(t), m, -k) == fraction_carry(t, m) / pow10((k - t.len()) as nat),
{
    lemma_fraction_carry(t, m);
    lemma_digits_value_bounds(t);
    let e = (k - t.len()) as nat;
    lemma_pow10_add(t.len(), e);
    lemma_pow10_positive(t.len());
    lemma_pow10_positive(e);
    let d = digits_value(t);
    assert(m * d >= 0) by (nonlinear_arith)
        requires
            m >= 0,
            d >= 0,
    ;
    lemma_div_denominator(m * d, pow10(t.len()), pow10(e));
}

// ---------------------------------------------------------------------------
// Reading number texts
// ---------------------------------------------------------------------------

/// Exponent magnitudes are read up to this bound; any larger exponent
/// decides the value just as this one does.
pub const EXPONENT_CAP: u128 = 1267650600228229401496703205376;

/// `c` stands for the power `e`: it is `e`, or both lie beyond `bound` on
/// the same side with `e` the farther out.
pub open spec fn stands_for(c: int, e: int, bound: int) -> bool {
    ||| c == e
    ||| (c >= bound && e >= c)
    ||| (c <= -bound && e <= c)
}

pub open spec fn capped(x: int) -> int {
    if x > EXPONENT_CAP {
        EXPONENT_CAP as int
    } else {
        x
    }
}

fn is_digit_char(c: char) -> (b: bool)
    ensures
        b == is_digit(c),
{
    '0' <= c && c <= '9'
}

fn all_digits_str(s: &str) -> (b: bool)
    ensures
        b == all_digits(s@),
{
    let n = s.unicode_len();
    let mut i: usize = 0;
    while i < n
        invariant
            n == s@.len(),
            i <= n,
            forall|j: int| 0 <= j < i ==> is_digit(#[trigger] s@[j]),
        decreases n - i,
    {
        if !is_digit_char(s.get_char(i)) {
            return false;
        }
        i = i + 1;
    }
    true
}

/// `10^k` for small `k`.
fn pow10_u128(k: u32) -> (r: u128)
    requires
        k <= 38,
    ensures
        r == pow10(k as nat),
{
    proof {
        lemma_pow10_values();
    }
    let mut r: u128 = 1;
    let mut i: u32 = 0;
    while i < k
        invariant
            i <= k <= 38,
            r == pow10(i as nat),
            pow10(38) == 100_000_000_000_000_000_000_000_000_000_000_000_000,
        decreases k - i,
    {
        proof {
            lemma_pow10_mono((i + 1) as nat, 38);
        }
        r = r * 10;
        i = i + 1;
    }
    r
}

/// The value of a digit string of at most 38 digits.
fn digits_u128(s: &str) -> (r: u128)
    requires
        all_digits(s@),
        s@.len() <= 38,
    ensures
        r == digits_value(s@),
{
    proof {
        lemma_pow10_values();
    }
    let n = s.unicode_len();
    let mut acc: u128 = 0;
    let mut i: usize = 0;
    while i < n
        invariant
            n == s@.len() <= 38,
            i <= n,
            all_digits(s@),
            acc == digits_value(s@.take(i as int)),
            acc < pow10(i as nat),
            pow10(38) == 100_000_000_000_000_000_000_000_000_000_000_000_000,
        decreases n - i,
    {
        let c = s.get_char(i);
        assert(is_digit(s@[i as int]));
        let d = (c as u32 - '0' as u32) as u128;
        proof {
            lemma_digits_value_take(s@, i as int);
            lemma_pow10_mono((i + 1) as nat, 38);
        }
        acc = acc * 10 + d;
        i = i + 1;
    }
    assert(s@.take(n as int) =~= s@);
    acc
}

/// The value of a digit string, or [`EXPONENT_CAP`] when it is larger.
fn digits_capped(s: &str) -> (r: u128)
    requires
        all_digits(s@),
    ensures
        r == capped(digits_value(s@)),
{
    let n = s.unicode_len();
    let mut acc: u128 = 0;
    let mut i: usize = 0;
    while i < n
        invariant
            n == s@.len(),
            i <= n,
            all_digits(s@),
            acc == capped(digits_value(s@.take(i as int))),
        decreases n - i,
    {
        let c = s.get_char(i);
        assert(is_digit(s@[i as int]));
        let d = (c as u32 - '0' as u32) as u128;
        proof {
            lemma_digits_value_take(s@, i as int);
            lemma_all_digits_parts(s@, i as int);
            lemma_digits_value_bounds(s@.take(i as int));
        }
        let next = acc * 10 + d;
        acc = if next > EXPONENT_CAP {
            EXPONENT_CAP
        } else {
            next
        };
        i = i + 1;
    }
    assert(s@.take(n as int) =~= s@);
    acc
}

/// `fraction_carry(f, m)`, reading the digits from the right.
fn fraction_carry_u64(f: &str, m: u64) -> (c: u64)
    requires
        all_digits(f@),
        m <= 2_000_000_000,
    ensures
        c == fraction_carry(f@, m as int),
        c <= m,
{
    let n = f.unicode_len();
    let mut c: u64 = 0;
    let mut i: usize = n;
    while i > 0
        invariant
            n == f@.len(),
            i <= n,
            all_digits(f@),
            m <= 2_000_000_000,
            c == fraction_carry(f@.skip(i as int), m as int),
            c <= m,
        decreases i,
    {
        i = i - 1;
        let ch = f.get_char(i);
        assert(is_digit(f@[i as int]));
        let d = (ch as u32 - '0' as u32) as u64;
        proof {
            let t = f@.skip(i as int);
            assert(t[0] == f@[i as int]);
            assert(t.drop_first() =~= f@.skip(i as int + 1));
            assert(d * m <= 9 * m) by (nonlinear_arith)
                requires
                    d <= 9,
            ;
        }
        c = (d * m + c) / 10;
    }
    assert(f@.skip(0) =~= f@);
    c
}

/// The length of a leading sign.
fn sign_length(s: &str) -> (k: usize)
    ensures
        k == sign_len(s@),
{
    if s.unicode_len() > 0 {
        let c = s.get_char(0);
        if c == '+' || c == '-' {
            return 1;
        }
    }
    0
}

/// Whether the text starts with `-`.
pub(crate) fn negative_sign(s: &str) -> (b: bool)
    ensures
        b == is_negative_text(s@),
{
    s.unicode_len() > 0 && s.get_char(0) == '-'
}

/// The integer and fraction digit texts of a mantissa.
fn split_point<'a>(m: &'a str) -> (r: (&'a str, &'a str))
    ensures
        r.0@ == int_digits(m@),
        r.1@ == frac_digits(m@),
{
    proof {
        lemma_index_of(m@, '.');
    }
    let n = m.unicode_len();
    let dot = find_char(m, '.');
    let int_part = m.substring_char(0, dot);
    if dot < n {
        (int_part, m.substring_char(dot + 1, n))
    } else {
        let empty = m.substring_char(n, n);
        assert(empty@ =~= Seq::<char>::empty());
        (int_part, empty)
    }
}

fn mantissa_ok(m: &str) -> (b: bool)
    ensures
        b == is_mantissa(m@),
{
    let (i, f) = split_point(m);
    all_digits_str(i) && all_digits_str(f) && (i.unicode_len() > 0 || f.unicode_len() > 0)
}

proof fn lemma_exponent_index(s: Seq<char>)
    ensures
        0 <= exponent_index(s) <= s.len(),
        exponent_index(s) < s.len() ==> (s[exponent_index(s)] == 'e' || s[exponent_index(s)]
            == 'E'),
        forall|j: int| 0 <= j < exponent_index(s) ==> s[j] != 'e' && s[j] != 'E',
    decreases s.len(),
{
    if s.len() > 0 && s[0] != 'e' && s[0] != 'E' {
        lemma_exponent_index(s.drop_first());
        assert forall|j: int| 0 <= j < exponent_index(s) implies s[j] != 'e' && s[j] != 'E' by {
            if j > 0 {
                assert(s[j] == s.drop_first()[j - 1]);
            }
        }
    }
}

/// A plain string of digits is a number text: no sign, no point, no
/// exponent, so its digits are itself and its scale is zero.
pub(crate) proof fn lemma_digit_string_number(d: Seq<char>)
    requires
        d.len() > 0,
        all_digits(d),
    ensures
        is_number_text(d),
        !is_negative_text(d),
        number_digits(d) == d,
        number_scale(d) == 0,
{
    assert('0' <= d[0] <= '9');
    assert(sign_len(d) == 0);
    assert(unsigned_part(d) =~= d);
    lemma_exponent_index(d);
    if exponent_index(d) < d.len() {
        assert('0' <= d[exponent_index(d)] <= '9');
    }
    assert(exponent_index(d) == d.len());
    assert(mantissa_text(d) =~= d);
    lemma_index_of(d, '.');
    if index_of(d, '.') < d.len() {
        assert('0' <= d[index_of(d, '.')] <= '9');
    }
    assert(index_of(d, '.') == d.len());
    assert(int_digits(d) =~= d);
    assert(frac_digits(d) =~= Seq::<char>::empty());
    assert(number_digits(d) =~= d);
}

fn exponent_position(s: &str) -> (k: usize)
    ensures
        k == exponent_index(s@),
{
    proof {
        lemma_exponent_index(s@);
    }
    let n = s.unicode_len();
    let mut i: usize = 0;
    while i < n
        invariant
            n == s@.len(),
            i <= n,
            forall|j: int| 0 <= j < i ==> s@[j] != 'e' && s@[j] != 'E',
            i <= exponent_index(s@) <= n,
            exponent_index(s@) < n ==> (s@[exponent_index(s@)] == 'e' || s@[exponent_index(s@)]
                == 'E'),
            forall|j: int| 0 <= j < exponent_index(s@) ==> s@[j] != 'e' && s@[j] != 'E',
        decreases n - i,
    {
        let c = s.get_char(i);
        if c == 'e' || c == 'E' {
            return i;
        }
        i = i + 1;
    }
    i
}

fn ascii_ci_char_exec(c: char, l: char) -> (b: bool)
    ensures
        b == ascii_ci_char(c, l),
{
    c == l || ('a' <= l && l <= 'z' && c as u32 + 32 == l as u32)
}

fn ascii_ci_equals(s: &str, l: &[char]) -> (b: bool)
    ensures
        b == ascii_ci_eq(s@, l@),
{
    let n = s.unicode_len();
    if n != l.len() {
        return false;
    }
    let mut i: usize = 0;
    while i < n
        invariant
            n == s@.len(),
            n == l@.len(),
            i <= n,
            forall|j: int| 0 <= j < i ==> ascii_ci_char(#[trigger] s@[j], l@[j]),
        decreases n - i,
    {
        if !ascii_ci_char_exec(s.get_char(i), l[i]) {
            return false;
        }
        i = i + 1;
    }
    true
}

/// The text after any leading sign.
fn unsigned_slice(s: &str) -> (r: &str)
    ensures
        r@ == unsigned_part(s@),
{
    let r = s.substring_char(sign_length(s), s.unicode_len());
    assert(r@ =~= unsigned_part(s@));
    r
}

pub(crate) fn infinity_word(s: &str) -> (b: bool)
    ensures
        b == is_infinity_text(s@),
{
    let m = unsigned_slice(s);
    let inf = ['i', 'n', 'f'];
    let infinity = ['i', 'n', 'f', 'i', 'n', 'i', 't', 'y'];
    assert(inf@ =~= seq!['i', 'n', 'f']);
    assert(infinity@ =~= seq!['i', 'n', 'f', 'i', 'n', 'i', 't', 'y']);
    ascii_ci_equals(m, inf.as_slice()) || ascii_ci_equals(m, infinity.as_slice())
}

pub(crate) fn nan_word(s: &str) -> (b: bool)
    ensures
        b == is_nan_text(s@),
{
    let m = unsigned_slice(s);
    let nan = ['n', 'a', 'n'];
    assert(nan@ =~= seq!['n', 'a', 'n']);
    ascii_ci_equals(m, nan.as_slice())
}

/// The parts of a finite number text: whether it is negative, its digits,
/// and the power of ten that scales them (read exactly unless the exponent
/// is beyond [`EXPONENT_CAP`]).
pub(crate) fn read_number(s: &str) -> (r: Option<(bool, String, i128)>)
    ensures
        r is Some <==> is_number_text(s@),
        r matches Some(t) ==> {
            &&& t.0 == is_negative_text(s@)
            &&& t.1@ == number_digits(s@)
            &&& all_digits(t.1@)
            &&& stands_for(t.2 as int, number_scale(s@), 0x8_0000_0000_0000_0000_0000_0000)
            &&& -0x18_0000_0000_0000_0000_0000_0000 <= t.2 <= 0x18_0000_0000_0000_0000_0000_0000
        },
{
    let m = unsigned_slice(s);
    let mn = m.unicode_len();
    let e = exponent_position(m);
    proof {
        lemma_exponent_index(m@);
    }
    let mant = m.substring_char(0, e);
    assert(mant@ =~= mantissa_text(s@));
    if !mantissa_ok(mant) {
        return None;
    }
    let (ip, fp) = split_point(mant);
    let ghost ev: int = if has_exponent(s@) {
        exponent_value(exponent_text(s@))
    } else {
        0
    };
    let mut exp: i128 = 0;
    if e < mn {
        let x = m.substring_char(e + 1, mn);
        assert(x@ =~= exponent_text(s@));
        let xl = x.unicode_len();
        let xs = sign_length(x);
        let xd = x.substring_char(xs, xl);
        assert(xd@ =~= x@.skip(sign_len(x@)));
        if xl == xs || !all_digits_str(xd) {
            return None;
        }
        let mag = digits_capped(xd);
        proof {
            lemma_digits_value_bounds(xd@);
        }
        if negative_sign(x) {
            exp = -(mag as i128);
        } else {
            exp = mag as i128;
        }
        assert(exp == ev || (exp == EXPONENT_CAP && ev > exp) || (exp == -EXPONENT_CAP && ev
            < exp));
    }
    let mut digits = String::from_str(ip);
    digits.append(fp);
    proof {
        lemma_all_digits_concat(ip@, fp@);
    }
    let scale = exp - fp.unicode_len() as i128;
    Some((negative_sign(s), digits, scale))
}

/// The position of the first digit other than `0`, or the length.
fn first_nonzero(s: &str) -> (z: usize)
    ensures
        z <= s@.len(),
        forall|i: int| 0 <= i < z ==> s@[i] == '0',
        z < s@.len() ==> s@[z as int] != '0',
{
    let n = s.unicode_len();
    let mut i: usize = 0;
    while i < n
        invariant
            n == s@.len(),
            i <= n,
            forall|j: int| 0 <= j < i ==> s@[j] == '0',
        decreases n - i,
    {
        if s.get_char(i) != '0' {
            return i;
        }
        i = i + 1;
    }
    i
}

/// Whether a digit string has the value zero.
pub(crate) fn digits_are_zero(s: &str) -> (b: bool)
    requires
        all_digits(s@),
    ensures
        b == (digits_value(s@) == 0),
{
    let n = s.unicode_len();
    let z = first_nonzero(s);
    proof {
        lemma_leading_zeros(s@, z as int);
        if z < n {
            let t = s@.skip(z as int);
            lemma_all_digits_parts(s@, z as int);
            lemma_leading_digit(t);
            lemma_pow10_positive((t.len() - 1) as nat);
        }
    }
    z == n
}

/// `floor(m * d * 10^p)` for the digit string `d`, where `p` stands for the
/// power `pt`; `None` when that is at least `m * 10^lim`.
pub(crate) fn scaled_value(d: &str, m: u64, p: i128, lim: u32, Ghost(pt): Ghost<int>) -> (r:
    Option<u128>)
    requires
        all_digits(d@),
        1 <= m <= 1024,
        lim <= 29,
        stands_for(p as int, pt, 0x4_0000_0000_0000_0000_0000_0000),
        -0x20_0000_0000_0000_0000_0000_0000 <= p <= 0x20_0000_0000_0000_0000_0000_0000,
    ensures
        r matches Some(v) ==> v == scaled_floor(digits_value(d@), m as int, pt) && v <= m * pow10(
            lim as nat,
        ),
        r is None ==> scaled_floor(digits_value(d@), m as int, pt) >= m * pow10(lim as nat),
{
    proof {
        lemma_pow10_values();
        lemma_pow10_positive(lim as nat);
        assert(m * pow10(lim as nat) >= m) by (nonlinear_arith)
            requires
                m >= 1,
                pow10(lim as nat) >= 1,
        ;
    }
    let n = d.unicode_len();
    let z = first_nonzero(d);
    proof {
        lemma_leading_zeros(d@, z as int);
    }
    if z == n {
        assert(d@.skip(z as int).len() == 0);
        assert(digits_value(d@) == 0);
        proof {
            lemma_pow10_positive((-pt) as nat);
            lemma_basic_div(0, pow10((-pt) as nat));
        }
        return Some(0);
    }
    let t = d.substring_char(z, n);
    assert(t@ =~= d@.skip(z as int));
    proof {
        lemma_all_digits_parts(d@, z as int);
        lemma_leading_digit(t@);
    }
    let len: usize = n - z;
    let ghost dv = digits_value(t@);
    let len_i = len as i128;
    if len_i - 1 + p >= lim as i128 {
        proof {
            lemma_scaled_at_least(dv, m as int, len as nat, pt, lim as nat);
        }
        return None;
    }
    if len_i + p <= -4 {
        proof {
            lemma_scaled_vanishes(dv, m as int, len as nat, pt);
        }
        return Some(0);
    }
    assert(pt == p);
    if p >= 0 {
        let v = digits_u128(t);
        let scale = pow10_u128(p as u32);
        proof {
            lemma_pow10_add(len as nat, p as nat);
            lemma_pow10_mono((len + p) as nat, 29);
            lemma_pow10_positive(p as nat);
            assert(v * scale < pow10(29)) by (nonlinear_arith)
                requires
                    0 <= v < pow10(len as nat),
                    scale >= 1,
                    pow10(len as nat) * scale <= pow10(29),
            ;
            assert(m * (v * scale) == m * v * scale) by (nonlinear_arith);
            assert(m * (v * scale) <= 1024 * pow10(29)) by (nonlinear_arith)
                requires
                    1 <= m <= 1024,
                    0 <= v * scale < pow10(29),
            ;
            lemma_pow10_mono((len + p) as nat, lim as nat);
            assert(v * scale < pow10(len as nat) * scale) by (nonlinear_arith)
                requires
                    0 <= v < pow10(len as nat),
                    scale >= 1,
            ;
            assert(m * (v * scale) <= m * pow10(lim as nat)) by (nonlinear_arith)
                requires
                    1 <= m,
                    0 <= v * scale < pow10((len + p) as nat),
                    pow10((len + p) as nat) <= pow10(lim as nat),
                    pow10(len as nat) * scale == pow10((len + p) as nat),
            ;
        }
        return Some(m as u128 * (v * scale));
    }
    let k: i128 = -p;
    if k <= len_i {
        let hl: usize = (len_i - k) as usize;
        let head = t.substring_char(0, hl);
        let tail = t.substring_char(hl, len);
        assert(head@ =~= t@.take(hl as int));
        assert(tail@ =~= t@.skip(hl as int));
        proof {
            lemma_scaled_split(t@, m as int, k as nat);
            lemma_all_digits_parts(t@, hl as int);
            lemma_digits_value_bounds(head@);
            lemma_pow10_mono(hl as nat, 29);
        }
        let h = digits_u128(head);
        let c = fraction_carry_u64(tail, m);
        assert(m * h <= 1024 * pow10(29)) by (nonlinear_arith)
            requires
                m <= 1024,
                0 <= h < pow10(29),
        ;
        proof {
            lemma_pow10_mono(hl as nat, lim as nat);
            assert(m * h + c <= m * pow10(lim as nat)) by (nonlinear_arith)
                requires
                    1 <= m,
                    0 <= h < pow10(hl as nat),
                    c <= m,
                    pow10(hl as nat) <= pow10(lim as nat),
            ;
        }
        Some(m as u128 * h + c as u128)
    } else {
        let c = fraction_carry_u64(t, m);
        let den = pow10_u128((k - len_i) as u32);
        proof {
            lemma_scaled_short(t@, m as int, k as nat);
            lemma_pow10_positive((k - len_i) as nat);
            assert((c as u128) / den <= c as u128) by (nonlinear_arith)
                requires
                    den >= 1,
            ;
        }
        Some(c as u128 / den)
    }
}

} // verus!
