//! Character-level text helpers: Unicode white space, trimming, digit
//! strings, decimal rendering of integers, and the few std text functions
//! the parsers and reports rely on.

use vstd::prelude::*;

verus! {

// ---------------------------------------------------------------------------
// Characters and trimming
// ---------------------------------------------------------------------------

/// The characters with the Unicode `White_Space` property (the ones that
/// `char::is_whitespace` accepts).
pub open spec fn is_white_space(c: char) -> bool {
    let u = c as u32;
    ||| 0x09 <= u <= 0x0d
    ||| u == 0x20
    ||| u == 0x85
    ||| u == 0xa0
    ||| u == 0x1680
    ||| 0x2000 <= u <= 0x200a
    ||| u == 0x2028
    ||| u == 0x2029
    ||| u == 0x202f
    ||| u == 0x205f
    ||| u == 0x3000
}

/// `s` without its leading white space.
pub open spec fn trim_start(s: Seq<char>) -> Seq<char>
    decreases s.len(),
{
    if s.len() > 0 && is_white_space(s[0]) {
        trim_start(s.drop_first())
    } else {
        s
    }
}

/// `s` without its trailing white space.
pub open spec fn trim_end(s: Seq<char>) -> Seq<char>
    decreases s.len(),
{
    if s.len() > 0 && is_white_space(s.last()) {
        trim_end(s.drop_last())
    } else {
        s
    }
}

/// `s` without leading and trailing white space.
pub open spec fn trim_ws(s: Seq<char>) -> Seq<char> {
    trim_end(trim_start(s))
}

/// Index of the first occurrence of `c` in `s`, or `s.len()` when absent.
pub open spec fn index_of(s: Seq<char>, c: char) -> int
    decreases s.len(),
{
    if s.len() == 0 {
        0
    } else if s[0] == c {
        0
    } else {
        1 + index_of(s.drop_first(), c)
    }
}

pub proof fn lemma_index_of(s: Seq<char>, c: char)
    ensures
        0 <= index_of(s, c) <= s.len(),
        index_of(s, c) < s.len() ==> s[index_of(s, c)] == c,
        forall|i: int| 0 <= i < index_of(s, c) ==> s[i] != c,
    decreases s.len(),
{
    if s.len() > 0 && s[0] != c {
        lemma_index_of(s.drop_first(), c);
        assert forall|i: int| 0 <= i < index_of(s, c) implies s[i] != c by {
            if i > 0 {
                assert(s[i] == s.drop_first()[i - 1]);
            }
        }
    }
}

/// The position of the first `c` in `s`, or `s@.len()` when there is none.
pub fn find_char(s: &str, c: char) -> (i: usize)
    ensures
        i == index_of(s@, c),
{
    proof {
        lemma_index_of(s@, c);
    }
    let n = s.unicode_len();
    let mut i: usize = 0;
    while i < n
        invariant
            n == s@.len(),
            0 <= i <= n,
            forall|j: int| 0 <= j < i ==> s@[j] != c,
            i <= index_of(s@, c),
            0 <= index_of(s@, c) <= s@.len(),
            index_of(s@, c) < s@.len() ==> s@[index_of(s@, c)] == c,
            forall|j: int| 0 <= j < index_of(s@, c) ==> s@[j] != c,
        decreases n - i,
    {
        if s.get_char(i) == c {
            return i;
        }
        i = i + 1;
    }
    i
}

/// `str::trim`: the slice without leading and trailing white space.
#[verifier::external_body]
pub(crate) fn trimmed(s: &str) -> (r: &str)
    ensures
        r@ == trim_ws(s@),
{
    s.trim()
}

// ---------------------------------------------------------------------------
// Digits
// ---------------------------------------------------------------------------

pub open spec fn is_digit(c: char) -> bool {
    '0' <= c <= '9'
}

pub open spec fn digit_value(c: char) -> int {
    (c as int) - ('0' as int)
}

pub open spec fn all_digits(s: Seq<char>) -> bool {
    forall|i: int| 0 <= i < s.len() ==> is_digit(#[trigger] s[i])
}

/// The value of a string of decimal digits.
pub open spec fn digits_value(s: Seq<char>) -> int
    decreases s.len(),
{
    if s.len() == 0 {
        0
    } else {
        digits_value(s.drop_last()) * 10 + digit_value(s.last())
    }
}

/// The text of an unsigned integer as `str::parse` accepts it: an optional
/// `+` sign followed by one or more decimal digits.
pub open spec fn unsigned_digits(s: Seq<char>) -> Seq<char> {
    if s.len() > 0 && s[0] == '+' {
        s.drop_first()
    } else {
        s
    }
}

pub open spec fn is_unsigned_literal(s: Seq<char>) -> bool {
    unsigned_digits(s).len() > 0 && all_digits(unsigned_digits(s))
}

pub open spec fn unsigned_value(s: Seq<char>) -> int {
    digits_value(unsigned_digits(s))
}

/// The integer part of `m * 0.d1 d2 ... dk` for the digit string `f`:
/// multiplying the fraction by `m` digit by digit from the right, this is
/// the carry that leaves the units place.
pub open spec fn fraction_carry(f: Seq<char>, m: int) -> int
    decreases f.len(),
{
    if f.len() == 0 {
        0
    } else {
        (digit_value(f[0]) * m + fraction_carry(f.drop_first(), m)) / 10
    }
}

pub open spec fn pow10(k: nat) -> int
    decreases k,
{
    if k == 0 {
        1
    } else {
        10 * pow10((k - 1) as nat)
    }
}

/// The value of the digits of `s` read as a decimal fraction, scaled to an
/// integer: `digits_value(s) == 0.s * 10^len`.
pub proof fn lemma_digits_value_bounds(s: Seq<char>)
    requires
        all_digits(s),
    ensures
        0 <= digits_value(s) < pow10(s.len()),
    decreases s.len(),
{
    if s.len() > 0 {
        lemma_digits_value_bounds(s.drop_last());
        assert(is_digit(s[s.len() - 1]));
    }
}

pub proof fn lemma_pow10_positive(k: nat)
    ensures
        pow10(k) >= 1,
    decreases k,
{
    if k > 0 {
        lemma_pow10_positive((k - 1) as nat);
    }
}

pub proof fn lemma_digits_value_prepend(s: Seq<char>)
    requires
        s.len() > 0,
    ensures
        digits_value(s) == digit_value(s[0]) * pow10((s.len() - 1) as nat) + digits_value(
            s.drop_first(),
        ),
    decreases s.len(),
{
    if s.len() == 1 {
        assert(s.drop_last().len() == 0);
        assert(s.drop_first().len() == 0);
        assert(s.last() == s[0]);
        assert(pow10(0) == 1);
        assert(digits_value(s.drop_last()) == 0);
        assert(digits_value(s.drop_first()) == 0);
    } else {
        let t = s.drop_last();
        lemma_digits_value_prepend(t);
        assert(t.drop_first() =~= s.drop_first().drop_last());
        assert(s.drop_first().last() == s.last());
        let k = (s.len() - 2) as nat;
        assert(t[0] == s[0]);
        let d0 = digit_value(s[0]);
        let x = digits_value(t.drop_first());
        let l = digit_value(s.last());
        assert(pow10((s.len() - 1) as nat) == 10 * pow10(k));
        assert(digits_value(t) == d0 * pow10(k) + x);
        assert(digits_value(s.drop_first()) == x * 10 + l);
        assert(digits_value(s) == digits_value(t) * 10 + l);
        assert((d0 * pow10(k) + x) * 10 + l == d0 * (10 * pow10(k)) + (x * 10 + l))
            by (nonlinear_arith);
    }
}

/// The carry is exactly the floor of `m` times the fraction `0.f`.
pub proof fn lemma_fraction_carry(f: Seq<char>, m: int)
    requires
        all_digits(f),
        m >= 0,
    ensures
        fraction_carry(f, m) == (m * digits_value(f)) / pow10(f.len()),
        0 <= fraction_carry(f, m) <= m,
    decreases f.len(),
{
    lemma_pow10_positive(f.len());
    lemma_digits_value_bounds(f);
    if f.len() > 0 {
        let t = f.drop_first();
        assert(all_digits(t)) by {
            assert forall|i: int| 0 <= i < t.len() implies is_digit(#[trigger] t[i]) by {
                assert(t[i] == f[i + 1]);
            }
        }
        lemma_fraction_carry(t, m);
        lemma_digits_value_bounds(t);
        lemma_digits_value_prepend(f);
        lemma_pow10_positive(t.len());
        assert(is_digit(f[0]));
        let d = digit_value(f[0]);
        let p = pow10(t.len());
        let v = digits_value(t);
        let c = fraction_carry(t, m);
        assert(pow10(f.len()) == 10 * p);
        assert(c == (m * v) / p);
        // (d*m + (m*v)/p) / 10 == (m*(d*p + v)) / (10*p)
        assert((d * m + c) / 10 == (m * (d * p + v)) / (10 * p)) by (nonlinear_arith)
            requires
                c == (m * v) / p,
                p >= 1,
                m >= 0,
                v >= 0,
                0 <= d,
        {
            let x = m * v;
            assert(x == p * (x / p) + x % p);
            assert(m * (d * p + v) == p * (d * m + c) + x % p);
            assert(0 <= x % p < p);
            let y = d * m + c;
            assert((p * y + x % p) / (10 * p) == y / 10) by {
                assert(y == 10 * (y / 10) + y % 10);
                assert(p * y + x % p == (10 * p) * (y / 10) + (p * (y % 10) + x % p));
                assert(0 <= p * (y % 10) + x % p < 10 * p);
            }
        }
        assert(d * p + v == digits_value(f));
        assert(m * digits_value(f) <= m * pow10(f.len())) by (nonlinear_arith)
            requires
                digits_value(f) < pow10(f.len()),
                m >= 0,
        ;
        assert((m * digits_value(f)) / pow10(f.len()) <= m) by (nonlinear_arith)
            requires
                m * digits_value(f) <= m * pow10(f.len()),
                pow10(f.len()) >= 1,
                m >= 0,
                m * digits_value(f) >= 0,
        ;
    }
}

// ---------------------------------------------------------------------------
// std text functions
// ---------------------------------------------------------------------------

/// Reading the digits of `d` from the left, the value passes `max` before
/// any character that is not a digit: some prefix of digits only is worth
/// more than `max`.
pub open spec fn overflows_first(d: Seq<char>, max: int) -> bool {
    exists|i: int|
        0 <= i < d.len() && all_digits(#[trigger] d.take(i + 1)) && digits_value(d.take(i + 1))
            > max
}

/// The message with which std's parsing of an unsigned integer of maximum
/// `max` refuses `s`: an empty text, a value that passes the maximum before
/// any bad character, or else an invalid digit (a lone `+` or `-`, and any
/// `-`, included).
pub open spec fn int_parse_error_text(s: Seq<char>, max: int) -> Seq<char> {
    if s.len() == 0 {
        "cannot parse integer from empty string"@
    } else if overflows_first(unsigned_digits(s), max) {
        "number too large to fit in target type"@
    } else {
        "invalid digit found in string"@
    }
}

/// The message that `str::parse::<u64>` reports for text it refuses.
pub open spec fn u64_parse_error_text(s: Seq<char>) -> Seq<char> {
    int_parse_error_text(s, u64::MAX as int)
}

/// The message that `str::parse::<usize>` reports for text it refuses.
pub open spec fn usize_parse_error_text(s: Seq<char>) -> Seq<char> {
    int_parse_error_text(s, usize::MAX as int)
}

/// `str::parse::<u64>`: accepts exactly an optional `+` followed by decimal
/// digits whose value fits in `u64`; a refusal is turned into its message
/// text (`ParseIntError`'s `Display`), which depends on the first failure
/// met reading from the left.
#[verifier::external_body]
pub(crate) fn parse_u64_text(s: &str) -> (r: Result<u64, String>)
    ensures
        r is Ok <==> (is_unsigned_literal(s@) && unsigned_value(s@) <= u64::MAX),
        r matches Ok(v) ==> v == unsigned_value(s@),
        r matches Err(m) ==> m@ == u64_parse_error_text(s@),
{
    match s.parse::<u64>() {
        Ok(v) => Ok(v),
        Err(e) => Err(e.to_string()),
    }
}

/// `str::parse::<usize>`, as [`parse_u64_text`] for `usize`.
#[verifier::external_body]
pub(crate) fn parse_usize_text(s: &str) -> (r: Result<usize, String>)
    ensures
        r is Ok <==> (is_unsigned_literal(s@) && unsigned_value(s@) <= usize::MAX),
        r matches Ok(v) ==> v == unsigned_value(s@),
        r matches Err(m) ==> m@ == usize_parse_error_text(s@),
{
    match s.parse::<usize>() {
        Ok(v) => Ok(v),
        Err(e) => Err(e.to_string()),
    }
}

/// The Unicode lowercase form of a text (`str::to_lowercase`).
pub uninterp spec fn lowercase_text(s: Seq<char>) -> Seq<char>;

/// The text holds only ASCII characters.
pub open spec fn is_ascii_text(s: Seq<char>) -> bool {
    forall|i: int| 0 <= i < s.len() ==> (#[trigger] s[i] as u32) < 128
}

/// ASCII lowercasing of one character: `A`..`Z` become `a`..`z`, others
/// stay.
pub open spec fn ascii_lower(c: char) -> char {
    if 'A' <= c <= 'Z' {
        ((c as u32) + 32) as char
    } else {
        c
    }
}

/// The lowercase form of a text: the letters `A`..`Z` lowered where the
/// text is ASCII, the Unicode lowercase form otherwise.
pub open spec fn lower_text(s: Seq<char>) -> Seq<char> {
    if is_ascii_text(s) {
        Seq::new(s.len(), |i: int| ascii_lower(s[i]))
    } else {
        lowercase_text(s)
    }
}

/// `str::to_lowercase`: the Unicode lowercase form, which on ASCII text
/// lowercases the letters `A`..`Z` and keeps every other character.
#[verifier::external_body]
pub(crate) fn lowercased(s: &str) -> (r: String)
    ensures
        r@ == lowercase_text(s@),
        is_ascii_text(s@) ==> r@ == Seq::new(s@.len(), |i: int| ascii_lower(s@[i])),
{
    s.to_lowercase()
}

/// The quoted, escaped form that `Debug` gives a text.
pub uninterp spec fn debug_text(s: Seq<char>) -> Seq<char>;

/// `<str as Debug>::fmt`, rendered into a `String`.
#[verifier::external_body]
pub(crate) fn debug_quoted(s: &str) -> (r: String)
    ensures
        r@ == debug_text(s@),
{
    format!("{:?}", s)
}

// ---------------------------------------------------------------------------
// Building text
// ---------------------------------------------------------------------------

/// A new `String` holding `a` followed by `b`.
pub fn concat2(a: &str, b: &str) -> (r: String)
    ensures
        r@ == a@ + b@,
{
    let mut r = String::from_str(a);
    r.append(b);
    r
}

/// The decimal digits of `n`, most significant first, without leading
/// zeros (`"0"` for zero).
pub open spec fn decimal(n: nat) -> Seq<char>
    decreases n,
{
    if n < 10 {
        seq![digit_char(n)]
    } else {
        decimal(n / 10).push(digit_char(n % 10))
    }
}

/// The decimal text of `n` is a non-empty string of digits that reads
/// back as `n`.
pub proof fn lemma_decimal_reads_back(n: nat)
    ensures
        decimal(n).len() > 0,
        all_digits(decimal(n)),
        digits_value(decimal(n)) == n,
    decreases n,
{
    if n < 10 {
        let s = decimal(n);
        assert(s.drop_last().len() == 0);
        assert(digits_value(s.drop_last()) == 0);
    } else {
        lemma_decimal_reads_back(n / 10);
        let d = decimal(n / 10);
        let s = decimal(n);
        assert(s == d.push(digit_char(n % 10)));
        assert(s.drop_last() =~= d);
        assert forall|i: int| 0 <= i < s.len() implies is_digit(#[trigger] s[i]) by {
            if i < d.len() {
                assert(s[i] == d[i]);
            }
        }
    }
}

pub open spec fn digit_char(d: nat) -> char {
    if d == 0 {
        '0'
    } else if d == 1 {
        '1'
    } else if d == 2 {
        '2'
    } else if d == 3 {
        '3'
    } else if d == 4 {
        '4'
    } else if d == 5 {
        '5'
    } else if d == 6 {
        '6'
    } else if d == 7 {
        '7'
    } else if d == 8 {
        '8'
    } else {
        '9'
    }
}

pub fn digit_str(d: u8) -> (r: &'static str)
    requires
        d < 10,
    ensures
        r@ == seq![digit_char(d as nat)],
{
    proof {
        reveal_strlit("0");
        reveal_strlit("1");
        reveal_strlit("2");
        reveal_strlit("3");
        reveal_strlit("4");
        reveal_strlit("5");
        reveal_strlit("6");
        reveal_strlit("7");
        reveal_strlit("8");
        reveal_strlit("9");
    }
    if d == 0 {
        "0"
    } else if d == 1 {
        "1"
    } else if d == 2 {
        "2"
    } else if d == 3 {
        "3"
    } else if d == 4 {
        "4"
    } else if d == 5 {
        "5"
    } else if d == 6 {
        "6"
    } else if d == 7 {
        "7"
    } else if d == 8 {
        "8"
    } else {
        "9"
    }
}

/// Appends the decimal text of `n` to `out`.
pub fn push_decimal(out: &mut String, n: u128)
    ensures
        final(out)@ == old(out)@ + decimal(n as nat),
    decreases n,
{
    if n < 10 {
        out.append(digit_str(n as u8));
    } else {
        push_decimal(out, n / 10);
        out.append(digit_str((n % 10) as u8));
        assert(decimal(n as nat) == decimal((n / 10) as nat).push(digit_char((n % 10) as nat)));
    }
}

} // verus!
