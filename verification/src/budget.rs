//! Compilation budgets and the text form in which they are given.

use vstd::prelude::*;
use crate::number_text::{
    digits_are_zero, infinity_word, lemma_digit_string_number, is_infinity_text, lemma_pow10_values, is_nan_text, is_negative_text,
    is_number_text, nan_word, negative_sign, number_digits, number_scale, read_number,
    scaled_floor, scaled_value,
};
use crate::text::{
    all_digits, decimal, is_white_space, pow10, lemma_decimal_reads_back, trim_end, trim_start, unsigned_digits,
    concat2, debug_quoted, debug_text, digits_value, find_char, index_of, is_unsigned_literal,
    lemma_index_of, lower_text, lowercased, parse_u64_text, parse_usize_text,
    trim_ws, trimmed, u64_parse_error_text, unsigned_value, usize_parse_error_text,
};

verus! {

// ---------------------------------------------------------------------------
// Time spans
// ---------------------------------------------------------------------------

/// The longest span that can be held: `u64::MAX` seconds and 999 999 999
/// nanoseconds.
pub open spec fn max_span_nanos() -> int {
    u64::MAX as int * 1_000_000_000 + 999_999_999
}

/// A span of time: whole seconds and the nanoseconds beyond them.
#[derive(Debug, Clone, Copy, PartialEq, Eq, Structural)]
pub struct TimeSpan {
    pub secs: u64,
    pub nanos: u32,
}

impl TimeSpan {
    /// The span in nanoseconds.
    pub open spec fn total_nanos(self) -> int {
        self.secs as int * 1_000_000_000 + self.nanos as int
    }

    /// The span of `n` nanoseconds.
    pub open spec fn of_nanos(n: int) -> TimeSpan {
        TimeSpan { secs: (n / 1_000_000_000) as u64, nanos: (n % 1_000_000_000) as u32 }
    }

    /// A span of whole seconds.
    pub fn from_secs(secs: u64) -> (r: TimeSpan)
        ensures
            r == (TimeSpan { secs, nanos: 0 }),
    {
        TimeSpan { secs, nanos: 0 }
    }

    /// A span of whole milliseconds.
    pub fn from_millis(millis: u64) -> (r: TimeSpan)
        ensures
            r == TimeSpan::of_nanos(millis * 1_000_000),
    {
        TimeSpan { secs: millis / 1000, nanos: ((millis % 1000) as u32) * 1_000_000 }
    }

    /// The span of `n` nanoseconds.
    pub fn from_total_nanos(n: u128) -> (r: TimeSpan)
        requires
            n <= max_span_nanos(),
        ensures
            r == TimeSpan::of_nanos(n as int),
    {
        TimeSpan { secs: (n / 1_000_000_000) as u64, nanos: (n % 1_000_000_000) as u32 }
    }

    /// Whole seconds.
    pub fn as_secs(&self) -> (r: u64)
        ensures
            r == self.secs,
    {
        self.secs
    }

    /// Nanoseconds beyond the whole seconds.
    pub fn subsec_nanos(&self) -> (r: u32)
        ensures
            r == self.nanos,
    {
        self.nanos
    }

    /// The span in nanoseconds.
    pub fn as_nanos(&self) -> (r: u128)
        ensures
            r == self.total_nanos(),
    {
        self.secs as u128 * 1_000_000_000 + self.nanos as u128
    }
}

/// A span made of `n` nanoseconds holds exactly `n` nanoseconds, with
/// fewer than a billion beyond its whole seconds.
pub proof fn lemma_of_nanos(n: int)
    requires
        0 <= n <= max_span_nanos(),
    ensures
        TimeSpan::of_nanos(n).total_nanos() == n,
        TimeSpan::of_nanos(n).nanos < 1_000_000_000,
{
}

// ---------------------------------------------------------------------------
// Budget
// ---------------------------------------------------------------------------

/// Resource budgets, as given on the command line by
/// `--budget=time:30s,memory:500MB,pages:1000`.
#[derive(Debug, Clone, Copy, PartialEq, Eq, Structural)]
pub struct Budget {
    /// Maximum wall-clock compile time (default 30 s).
    pub max_time: TimeSpan,
    /// Maximum estimated resident memory in MB (default 500).
    pub max_memory_mb: u64,
    /// Maximum number of pages (default 1000).
    pub max_pages: usize,
}

pub open spec fn default_budget() -> Budget {
    Budget {
        max_time: TimeSpan { secs: 30, nanos: 0 },
        max_memory_mb: 500,
        max_pages: 1000,
    }
}

impl Default for Budget {
    fn default() -> (b: Budget)
        ensures
            b == default_budget(),
    {
        Budget { max_time: TimeSpan::from_secs(30), max_memory_mb: 500, max_pages: 1000 }
    }
}

// ---------------------------------------------------------------------------
// Budget text
// ---------------------------------------------------------------------------

/// Nanoseconds in a number text of seconds, rounded half up.
pub open spec fn seconds_text_nanos(s: Seq<char>) -> int {
    (scaled_floor(digits_value(number_digits(s)), 2, number_scale(s) + 9) + 1) / 2
}

/// Megabytes in a number text of gigabytes, rounded toward zero; negative
/// numbers give zero and numbers beyond `u64` give `u64::MAX`.
pub open spec fn gigabytes_text_mb(s: Seq<char>) -> int {
    let x = scaled_floor(digits_value(number_digits(s)), 1024, number_scale(s));
    if is_negative_text(s) {
        0
    } else if x > u64::MAX {
        u64::MAX as int
    } else {
        x
    }
}

/// What parsing a budget text comes to.
pub enum BudgetParse {
    /// The budget that the text sets.
    Parsed(Budget),
    /// The text is refused, with this message.
    Rejected(Seq<char>),
    /// The text gives a time that no span can hold: a negative number of
    /// seconds other than zero, one beyond the longest span, or `inf` or
    /// `nan` seconds.
    Unsupported,
}

pub open spec fn float_error_text(v: Seq<char>) -> Seq<char> {
    if v.len() == 0 {
        "cannot parse float from empty string"@
    } else {
        "invalid float literal"@
    }
}

pub open spec fn time_error(v: Seq<char>, e: Seq<char>) -> Seq<char> {
    "invalid time value "@ + v + ": "@ + e
}

pub open spec fn memory_error(v: Seq<char>, e: Seq<char>) -> Seq<char> {
    "invalid memory value "@ + v + ": "@ + e
}

pub open spec fn ends_with_2(v: Seq<char>, a: char, b: char) -> bool {
    v.len() >= 2 && v[v.len() - 2] == a && v[v.len() - 1] == b
}

pub open spec fn with_time(b: Budget, t: TimeSpan) -> Budget {
    Budget { max_time: t, max_memory_mb: b.max_memory_mb, max_pages: b.max_pages }
}

pub open spec fn with_memory(b: Budget, mb: int) -> Budget {
    Budget { max_time: b.max_time, max_memory_mb: mb as u64, max_pages: b.max_pages }
}

pub open spec fn with_pages(b: Budget, p: int) -> Budget {
    Budget { max_time: b.max_time, max_memory_mb: b.max_memory_mb, max_pages: p as usize }
}

/// The effect of a `time:` value `v` (already trimmed): `<n>ms`, `<n>s`, or
/// a number of seconds, possibly with a fraction and an exponent.
pub open spec fn time_entry(b: Budget, v: Seq<char>) -> BudgetParse {
    if ends_with_2(v, 'm', 's') {
        let t = v.take(v.len() - 2);
        if is_unsigned_literal(t) && unsigned_value(t) <= u64::MAX {
            BudgetParse::Parsed(with_time(b, TimeSpan::of_nanos(unsigned_value(t) * 1_000_000)))
        } else {
            BudgetParse::Rejected(time_error(v, u64_parse_error_text(t)))
        }
    } else if v.len() >= 1 && v[v.len() - 1] == 's' {
        let t = v.take(v.len() - 1);
        if is_unsigned_literal(t) && unsigned_value(t) <= u64::MAX {
            BudgetParse::Parsed(with_time(b, TimeSpan { secs: unsigned_value(t) as u64, nanos: 0 }))
        } else {
            BudgetParse::Rejected(time_error(v, u64_parse_error_text(t)))
        }
    } else if is_number_text(v) {
        if (is_negative_text(v) && digits_value(number_digits(v)) != 0) || seconds_text_nanos(v)
            > max_span_nanos() {
            BudgetParse::Unsupported
        } else {
            BudgetParse::Parsed(with_time(b, TimeSpan::of_nanos(seconds_text_nanos(v))))
        }
    } else if is_infinity_text(v) || is_nan_text(v) {
        BudgetParse::Unsupported
    } else {
        BudgetParse::Rejected(time_error(v, float_error_text(v)))
    }
}

/// The effect of a `memory:` value `v` (already trimmed): `<n>MB`, `<x>GB`
/// with `x` any number a float parser reads, or a number of MB.
pub open spec fn memory_entry(b: Budget, v: Seq<char>) -> BudgetParse {
    if ends_with_2(v, 'M', 'B') {
        let t = v.take(v.len() - 2);
        if is_unsigned_literal(t) && unsigned_value(t) <= u64::MAX {
            BudgetParse::Parsed(with_memory(b, unsigned_value(t)))
        } else {
            BudgetParse::Rejected(memory_error(v, u64_parse_error_text(t)))
        }
    } else if ends_with_2(v, 'G', 'B') {
        let g = v.take(v.len() - 2);
        if is_number_text(g) {
            BudgetParse::Parsed(with_memory(b, gigabytes_text_mb(g)))
        } else if is_infinity_text(g) {
            BudgetParse::Parsed(with_memory(b, if is_negative_text(g) { 0 } else { u64::MAX as int }))
        } else if is_nan_text(g) {
            BudgetParse::Parsed(with_memory(b, 0))
        } else {
            BudgetParse::Rejected(memory_error(v, float_error_text(g)))
        }
    } else if is_unsigned_literal(v) && unsigned_value(v) <= u64::MAX {
        BudgetParse::Parsed(with_memory(b, unsigned_value(v)))
    } else {
        BudgetParse::Rejected(memory_error(v, u64_parse_error_text(v)))
    }
}

/// The effect of a `pages:` value `v` (already trimmed).
pub open spec fn pages_entry(b: Budget, v: Seq<char>) -> BudgetParse {
    if is_unsigned_literal(v) && unsigned_value(v) <= usize::MAX {
        BudgetParse::Parsed(with_pages(b, unsigned_value(v)))
    } else {
        BudgetParse::Rejected("invalid pages value: "@ + usize_parse_error_text(v))
    }
}

/// The effect of one comma-separated entry on the budget `b`: blank entries
/// are skipped, others are `key:value` with the key matched after trimming
/// and lowercasing.
pub open spec fn entry_effect(b: Budget, part: Seq<char>) -> BudgetParse {
    let p = trim_ws(part);
    let j = index_of(p, ':');
    if p.len() == 0 {
        BudgetParse::Parsed(b)
    } else if j >= p.len() {
        BudgetParse::Rejected("budget entry must be key:value, got "@ + debug_text(p))
    } else {
        let k = lower_text(trim_ws(p.take(j)));
        let v = trim_ws(p.skip(j + 1));
        if k == "time"@ {
            time_entry(b, v)
        } else if k == "memory"@ {
            memory_entry(b, v)
        } else if k == "pages"@ {
            pages_entry(b, v)
        } else {
            BudgetParse::Rejected(
                "unknown budget key "@ + debug_text(k) + " (expected time, memory, pages)"@,
            )
        }
    }
}

/// Applies the comma-separated entries of `s` to `b` in order, stopping at
/// the first one that does not parse.
pub open spec fn apply_entries(b: Budget, s: Seq<char>) -> BudgetParse
    decreases s.len(),
{
    let i = index_of(s, ',');
    let r = entry_effect(b, s.take(i));
    if 0 <= i < s.len() {
        match r {
            BudgetParse::Parsed(b2) => apply_entries(b2, s.skip(i + 1)),
            _ => r,
        }
    } else {
        r
    }
}

/// Each entry sets only its own limit: a `time` entry leaves memory and
/// pages as they were, a `memory` entry leaves time and pages, a `pages`
/// entry leaves time and memory.
pub proof fn lemma_entry_sets_one_limit(b: Budget, v: Seq<char>)
    ensures
        time_entry(b, v) matches BudgetParse::Parsed(t) ==> t.max_memory_mb == b.max_memory_mb
            && t.max_pages == b.max_pages,
        memory_entry(b, v) matches BudgetParse::Parsed(m) ==> m.max_time == b.max_time
            && m.max_pages == b.max_pages,
        pages_entry(b, v) matches BudgetParse::Parsed(p) ==> p.max_time == b.max_time
            && p.max_memory_mb == b.max_memory_mb,
{
}

/// What the budget text `s` comes to, starting from the default budget.
pub open spec fn budget_from_text(s: Seq<char>) -> BudgetParse {
    apply_entries(default_budget(), s)
}

/// The budget text that sets only the time, to `n` milliseconds.
pub open spec fn millis_budget_text(n: int) -> Seq<char> {
    "time:"@ + decimal(n as nat) + "ms"@
}

/// Texts that start and end with a character other than white space are
/// their own trimmed form.
proof fn lemma_trim_unchanged(s: Seq<char>)
    requires
        s.len() > 0,
        !is_white_space(s[0]),
        !is_white_space(s.last()),
    ensures
        trim_ws(s) == s,
{
    assert(trim_start(s) == s);
    assert(trim_end(s) == s);
}

/// A text without the character `c` has it nowhere: its index is the
/// text's length.
proof fn lemma_index_absent(s: Seq<char>, c: char)
    requires
        forall|i: int| 0 <= i < s.len() ==> s[i] != c,
    ensures
        index_of(s, c) == s.len(),
{
    lemma_index_of(s, c);
}

/// A text `<key>:<v>`, for one of the three keys and a value `v` that has
/// no comma and neither starts nor ends with white space, is that one
/// entry applied to the default budget.
proof fn lemma_single_entry(key: Seq<char>, v: Seq<char>)
    requires
        key == "time"@ || key == "memory"@ || key == "pages"@,
        v.len() > 0,
        !is_white_space(v[0]),
        !is_white_space(v.last()),
        forall|i: int| 0 <= i < v.len() ==> v[i] != ',',
    ensures
        key == "time"@ ==> budget_from_text(key + ":"@ + v) == time_entry(default_budget(), v),
        key == "memory"@ ==> budget_from_text(key + ":"@ + v) == memory_entry(default_budget(), v),
        key == "pages"@ ==> budget_from_text(key + ":"@ + v) == pages_entry(default_budget(), v),
{
    reveal_strlit(":");
    reveal_strlit("time");
    reveal_strlit("memory");
    reveal_strlit("pages");
    assert("memory"@[0] != "time"@[0] && "pages"@[0] != "time"@[0] && "pages"@[0] != "memory"@[0]);
    let s = key + ":"@ + v;
    let w = key.len() as int;
    assert(s.len() == w + 1 + v.len());
    assert forall|i: int| 0 <= i < s.len() implies s[i] != ',' by {
        if i > w {
            assert(s[i] == v[i - w - 1]);
        }
    }
    lemma_index_absent(s, ',');
    assert(s.take(s.len() as int) =~= s);
    let b0 = default_budget();
    assert(apply_entries(b0, s) == entry_effect(b0, s));
    assert(s.last() == v.last());
    assert(s[0] == key[0]);
    lemma_trim_unchanged(s);
    lemma_index_of(s, ':');
    assert(s[w] == ':');
    assert forall|i: int| 0 <= i < w implies s[i] != ':' by {
        assert(s[i] == key[i]);
    }
    assert(index_of(s, ':') == w);
    assert(s.take(w) =~= key);
    lemma_trim_unchanged(key);
    assert(lower_text(key) =~= key);
    assert(s.skip(w + 1) =~= v);
    lemma_trim_unchanged(v);
}

/// The decimal text of `n` followed by a unit without commas or white
/// space is a value that [`lemma_single_entry`] accepts, and its digits
/// read back as `n`.
proof fn lemma_decimal_with_unit(n: nat, unit: Seq<char>)
    requires
        forall|i: int| 0 <= i < unit.len() ==> unit[i] != ',' && !is_white_space(unit[i]),
    ensures
        ({
            let v = decimal(n) + unit;
            &&& v.len() > 0
            &&& !is_white_space(v[0])
            &&& !is_white_space(v.last())
            &&& forall|i: int| 0 <= i < v.len() ==> v[i] != ','
            &&& v.take(v.len() - unit.len()) =~= decimal(n)
            &&& is_unsigned_literal(decimal(n))
            &&& unsigned_value(decimal(n)) == n
            &&& all_digits(decimal(n))
        }),
{
    let d = decimal(n);
    lemma_decimal_reads_back(n);
    let v = d + unit;
    assert(all_digits(d));
    assert('0' <= d[0] <= '9');
    assert(v[0] == d[0]);
    if unit.len() > 0 {
        assert(v.last() == unit[unit.len() - 1]);
    } else {
        assert(v.last() == d[d.len() - 1]);
        assert('0' <= d[d.len() - 1] <= '9');
    }
    assert forall|i: int| 0 <= i < v.len() implies v[i] != ',' by {
        if i < d.len() {
            assert(v[i] == d[i]);
            assert('0' <= d[i] <= '9');
        } else {
            assert(v[i] == unit[i - d.len()]);
        }
    }
    assert(unsigned_digits(d) == d);
}

/// A time given in milliseconds is kept to the millisecond: for every
/// `n` that fits in `u64`, the text `time:<n>ms` sets a budget time of
/// exactly `n * 1_000_000` nanoseconds (whole seconds and the nanoseconds
/// beyond them), and leaves memory and pages at their defaults.
pub proof fn lemma_millis_budget(n: int)
    requires
        0 <= n <= u64::MAX,
    ensures
        budget_from_text(millis_budget_text(n)) matches BudgetParse::Parsed(b) && b.max_time.secs
            * 1_000_000_000 + b.max_time.nanos == n * 1_000_000 && b.max_time.nanos
            < 1_000_000_000 && b.max_memory_mb == 500 && b.max_pages == 1000,
{
    reveal_strlit("ms");
    reveal_strlit("time");
    reveal_strlit("time:");
    reveal_strlit(":");
    let v = decimal(n as nat) + "ms"@;
    lemma_decimal_with_unit(n as nat, "ms"@);
    lemma_single_entry("time"@, v);
    assert(millis_budget_text(n) =~= "time"@ + ":"@ + v);
    assert(ends_with_2(v, 'm', 's'));
    lemma_of_nanos(n * 1_000_000);
}

/// The budget text that sets only the time, to `n` seconds.
pub open spec fn seconds_budget_text(n: int) -> Seq<char> {
    "time:"@ + decimal(n as nat) + "s"@
}

/// A time given in whole seconds is kept exactly: for every `n` that fits
/// in `u64`, the text `time:<n>s` sets a budget time of `n` seconds and no
/// nanoseconds, and leaves memory and pages at their defaults.
pub proof fn lemma_seconds_budget(n: int)
    requires
        0 <= n <= u64::MAX,
    ensures
        budget_from_text(seconds_budget_text(n)) matches BudgetParse::Parsed(b) && b.max_time.secs
            == n && b.max_time.nanos == 0 && b.max_memory_mb == 500 && b.max_pages == 1000,
{
    reveal_strlit("s");
    reveal_strlit("time");
    reveal_strlit("time:");
    reveal_strlit(":");
    let v = decimal(n as nat) + "s"@;
    lemma_decimal_with_unit(n as nat, "s"@);
    lemma_single_entry("time"@, v);
    assert(seconds_budget_text(n) =~= "time"@ + ":"@ + v);
    assert(!ends_with_2(v, 'm', 's'));
}

/// Memory given in whole megabytes is kept exactly: for every `n` that
/// fits in `u64`, `memory:<n>MB` and `memory:<n>` both set `n` MB and leave
/// time and pages at their defaults.
pub proof fn lemma_megabytes_budget(n: int)
    requires
        0 <= n <= u64::MAX,
    ensures
        budget_from_text("memory:"@ + decimal(n as nat) + "MB"@) == BudgetParse::Parsed(
            Budget { max_memory_mb: n as u64, ..default_budget() },
        ),
        budget_from_text("memory:"@ + decimal(n as nat)) == BudgetParse::Parsed(
            Budget { max_memory_mb: n as u64, ..default_budget() },
        ),
{
    reveal_strlit("memory");
    reveal_strlit("memory:");
    reveal_strlit(":");
    reveal_strlit("MB");
    let d = decimal(n as nat);
    let v = d + "MB"@;
    lemma_decimal_with_unit(n as nat, "MB"@);
    lemma_single_entry("memory"@, v);
    assert("memory:"@ + d + "MB"@ =~= "memory"@ + ":"@ + v);
    assert(ends_with_2(v, 'M', 'B'));
    assert(v.take(v.len() - 2) =~= d);
    lemma_decimal_with_unit(n as nat, Seq::<char>::empty());
    assert(d + Seq::<char>::empty() =~= d);
    lemma_single_entry("memory"@, d);
    assert("memory:"@ + d =~= "memory"@ + ":"@ + d);
    assert(!ends_with_2(d, 'M', 'B'));
    assert(!ends_with_2(d, 'G', 'B'));
}

/// Memory given in whole gigabytes is 1024 MB per gigabyte: for every `n`,
/// `memory:<n>GB` sets `1024 * n` MB (`u64::MAX` where that does not fit)
/// and leaves time and pages at their defaults.
pub proof fn lemma_gigabytes_budget(n: int)
    requires
        0 <= n,
    ensures
        budget_from_text("memory:"@ + decimal(n as nat) + "GB"@) == BudgetParse::Parsed(
            Budget {
                max_memory_mb: if 1024 * n <= u64::MAX {
                    (1024 * n) as u64
                } else {
                    u64::MAX
                },
                ..default_budget()
            },
        ),
{
    reveal_strlit("memory");
    reveal_strlit("memory:");
    reveal_strlit(":");
    reveal_strlit("GB");
    let d = decimal(n as nat);
    let v = d + "GB"@;
    lemma_decimal_with_unit(n as nat, "GB"@);
    lemma_single_entry("memory"@, v);
    assert("memory:"@ + d + "GB"@ =~= "memory"@ + ":"@ + v);
    assert(!ends_with_2(v, 'M', 'B'));
    assert(ends_with_2(v, 'G', 'B'));
    lemma_digit_string_number(d);
    assert(pow10(0) == 1);
    assert(scaled_floor(n, 1024, 0) == 1024 * n);
}

/// A page count is kept exactly: for every `n` that fits in `usize`,
/// `pages:<n>` sets `n` pages and leaves time and memory at their
/// defaults.
pub proof fn lemma_pages_budget(n: int)
    requires
        0 <= n <= usize::MAX,
    ensures
        budget_from_text("pages:"@ + decimal(n as nat)) == BudgetParse::Parsed(
            Budget { max_pages: n as usize, ..default_budget() },
        ),
{
    reveal_strlit("pages");
    reveal_strlit("pages:");
    reveal_strlit(":");
    let d = decimal(n as nat);
    lemma_decimal_with_unit(n as nat, Seq::<char>::empty());
    assert(d + Seq::<char>::empty() =~= d);
    lemma_single_entry("pages"@, d);
    assert("pages:"@ + d =~= "pages"@ + ":"@ + d);
}

// ---------------------------------------------------------------------------
// Budget text: entries
// ---------------------------------------------------------------------------

/// An executable outcome, `None` standing for a text whose time no span
/// can hold, is what the budget text comes to.
pub open spec fn outcome_is(r: Option<Result<Budget, String>>, o: BudgetParse) -> bool {
    match o {
        BudgetParse::Unsupported => r is None,
        _ => r matches Some(x) && result_is(x, o),
    }
}

/// Whether an executable parse result is what the budget text comes to.
pub open spec fn result_is(r: Result<Budget, String>, o: BudgetParse) -> bool {
    match o {
        BudgetParse::Parsed(b) => r == Ok::<Budget, String>(b),
        BudgetParse::Rejected(m) => r is Err && r->Err_0@ == m,
        BudgetParse::Unsupported => false,
    }
}

fn message3(a: &str, b: &str, c: &str) -> (r: String)
    ensures
        r@ == a@ + b@ + c@,
{
    let mut r = String::from_str(a);
    r.append(b);
    r.append(c);
    r
}

fn message4(a: &str, b: &str, c: &str, d: &str) -> (r: String)
    ensures
        r@ == a@ + b@ + c@ + d@,
{
    let mut r = String::from_str(a);
    r.append(b);
    r.append(c);
    r.append(d);
    r
}

fn float_error(v: &str) -> (r: String)
    ensures
        r@ == float_error_text(v@),
{
    if v.unicode_len() == 0 {
        String::from_str("cannot parse float from empty string")
    } else {
        String::from_str("invalid float literal")
    }
}

fn time_entry_exec(b: Budget, v: &str) -> (r: Option<Result<Budget, String>>)
    ensures
        outcome_is(r, time_entry(b, v@)),
{
    let n = v.unicode_len();
    if n >= 2 && v.get_char(n - 2) == 'm' && v.get_char(n - 1) == 's' {
        let t = v.substring_char(0, n - 2);
        assert(t@ =~= v@.take(v@.len() - 2));
        match parse_u64_text(t) {
            Ok(ms) => {
                let span = TimeSpan::from_millis(ms);
                Some(Ok(Budget { max_time: span, max_memory_mb: b.max_memory_mb, max_pages: b.max_pages }))
            },
            Err(e) => Some(Err(message4("invalid time value ", v, ": ", e.as_str()))),
        }
    } else if n >= 1 && v.get_char(n - 1) == 's' {
        let t = v.substring_char(0, n - 1);
        assert(t@ =~= v@.take(v@.len() - 1));
        match parse_u64_text(t) {
            Ok(secs) => Some(
                Ok(
                    Budget {
                        max_time: TimeSpan::from_secs(secs),
                        max_memory_mb: b.max_memory_mb,
                        max_pages: b.max_pages,
                    },
                ),
            ),
            Err(e) => Some(Err(message4("invalid time value ", v, ": ", e.as_str()))),
        }
    } else {
        proof {
            lemma_pow10_values();
        }
        match read_number(v) {
            Some((negative, digits, scale)) => {
                if negative && !digits_are_zero(digits.as_str()) {
                    return None;
                }
                let x = scaled_value(digits.as_str(), 2, scale + 9, 29, Ghost(number_scale(v@) + 9));
                match x {
                    Some(x) => {
                        let ns = (x + 1) / 2;
                        if ns > 18_446_744_073_709_551_615_999_999_999 {
                            return None;
                        }
                        let span = TimeSpan::from_total_nanos(ns);
                        Some(Ok(Budget { max_time: span, max_memory_mb: b.max_memory_mb, max_pages: b.max_pages }))
                    },
                    None => None,
                }
            },
            None => {
                if infinity_word(v) || nan_word(v) {
                    return None;
                }
                let e = float_error(v);
                Some(Err(message4("invalid time value ", v, ": ", e.as_str())))
            },
        }
    }
}

fn memory_entry_exec(b: Budget, v: &str) -> (r: Result<Budget, String>)
    ensures
        result_is(r, memory_entry(b, v@)),
{
    let n = v.unicode_len();
    if n >= 2 && v.get_char(n - 2) == 'M' && v.get_char(n - 1) == 'B' {
        let t = v.substring_char(0, n - 2);
        assert(t@ =~= v@.take(v@.len() - 2));
        match parse_u64_text(t) {
            Ok(mb) => Ok(Budget { max_time: b.max_time, max_memory_mb: mb, max_pages: b.max_pages }),
            Err(e) => Err(message4("invalid memory value ", v, ": ", e.as_str())),
        }
    } else if n >= 2 && v.get_char(n - 2) == 'G' && v.get_char(n - 1) == 'B' {
        let g = v.substring_char(0, n - 2);
        assert(g@ =~= v@.take(v@.len() - 2));
        proof {
            lemma_pow10_values();
        }
        let mb: u64 = match read_number(g) {
            Some((negative, digits, scale)) => {
                if negative {
                    0
                } else {
                    match scaled_value(digits.as_str(), 1024, scale, 20, Ghost(number_scale(g@))) {
                        Some(x) => {
                            if x > u64::MAX as u128 {
                                u64::MAX
                            } else {
                                x as u64
                            }
                        },
                        None => u64::MAX,
                    }
                }
            },
            None => {
                if infinity_word(g) {
                    if negative_sign(g) {
                        0
                    } else {
                        u64::MAX
                    }
                } else if nan_word(g) {
                    0
                } else {
                    let e = float_error(g);
                    return Err(message4("invalid memory value ", v, ": ", e.as_str()));
                }
            },
        };
        Ok(Budget { max_time: b.max_time, max_memory_mb: mb, max_pages: b.max_pages })
    } else {
        match parse_u64_text(v) {
            Ok(mb) => Ok(Budget { max_time: b.max_time, max_memory_mb: mb, max_pages: b.max_pages }),
            Err(e) => Err(message4("invalid memory value ", v, ": ", e.as_str())),
        }
    }
}

fn pages_entry_exec(b: Budget, v: &str) -> (r: Result<Budget, String>)
    ensures
        result_is(r, pages_entry(b, v@)),
{
    match parse_usize_text(v) {
        Ok(p) => Ok(Budget { max_time: b.max_time, max_memory_mb: b.max_memory_mb, max_pages: p }),
        Err(e) => Err(concat2("invalid pages value: ", e.as_str())),
    }
}

fn entry_effect_exec(b: Budget, part: &str) -> (r: Option<Result<Budget, String>>)
    ensures
        outcome_is(r, entry_effect(b, part@)),
{
    let p = trimmed(part);
    let n = p.unicode_len();
    if n == 0 {
        return Some(Ok(b));
    }
    proof {
        lemma_index_of(p@, ':');
    }
    let j = find_char(p, ':');
    if j >= n {
        let d = debug_quoted(p);
        return Some(Err(concat2("budget entry must be key:value, got ", d.as_str())));
    }
    let key = p.substring_char(0, j);
    let val = p.substring_char(j + 1, n);
    assert(key@ =~= p@.take(j as int));
    assert(val@ =~= p@.skip(j + 1));
    let k = lowercased(trimmed(key));
    let v = trimmed(val);
    if k == String::from_str("time") {
        time_entry_exec(b, v)
    } else if k == String::from_str("memory") {
        Some(memory_entry_exec(b, v))
    } else if k == String::from_str("pages") {
        Some(pages_entry_exec(b, v))
    } else {
        let d = debug_quoted(k.as_str());
        Some(Err(message3("unknown budget key ", d.as_str(), " (expected time, memory, pages)")))
    }
}

/// What the budget text `s` comes to, `None` standing for a text that
/// gives a time no span can hold.
fn apply_entries_exec(s: &str) -> (r: Option<Result<Budget, String>>)
    ensures
        outcome_is(r, budget_from_text(s@)),
{
    let mut b = Budget::default();
    let mut rest: &str = s;
    loop
        invariant
            budget_from_text(s@) == apply_entries(b, rest@),
        decreases rest@.len(),
    {
        proof {
            lemma_index_of(rest@, ',');
        }
        let n = rest.unicode_len();
        let i = find_char(rest, ',');
        let part = rest.substring_char(0, i);
        assert(part@ =~= rest@.take(i as int));
        match entry_effect_exec(b, part) {
            Some(Ok(b2)) => {
                if i >= n {
                    return Some(Ok(b2));
                }
                b = b2;
                let next = rest.substring_char(i + 1, n);
                assert(next@ =~= rest@.skip(i + 1));
                rest = next;
            },
            other => {
                return other;
            },
        }
    }
}

/// Parses a `--budget` value such as `time:30s,memory:500MB,pages:1000`.
///
/// Entries are separated by commas; each is `key:value` with the key one of
/// `time` (`<n>ms`, `<n>s`, or a number of seconds, possibly with a
/// fraction and an exponent), `memory` (`<n>MB`, `<x>GB` for any number
/// `x`, or a number of MB) or `pages` (a number).  Keys that are not given
/// keep their defaults (30 s, 500 MB, 1000 pages); blank entries are
/// skipped; the first entry that does not parse makes the whole text an
/// error, with a message that says why.  A text that gives a time no span
/// can hold is left out (see [`parse_budget_checked`]).
pub fn parse_budget(s: &str) -> (r: Result<Budget, String>)
    requires
        !(budget_from_text(s@) is Unsupported),
    ensures
        result_is(r, budget_from_text(s@)),
        forall|n: int|
            0 <= n <= u64::MAX && s@ == #[trigger] millis_budget_text(n) ==> (r matches Ok(b)
                && b.max_time.secs * 1_000_000_000 + b.max_time.nanos == n * 1_000_000
                && b.max_memory_mb == 500 && b.max_pages == 1000),
        forall|n: int|
            0 <= n <= u64::MAX && s@ == #[trigger] seconds_budget_text(n) ==> (r matches Ok(b)
                && b.max_time.secs == n && b.max_time.nanos == 0 && b.max_memory_mb == 500
                && b.max_pages == 1000),
{
    proof {
        assert forall|n: int|
            0 <= n <= u64::MAX && s@ == #[trigger] seconds_budget_text(n) implies budget_from_text(
                s@,
            ) matches BudgetParse::Parsed(b) && b.max_time.secs == n && b.max_time.nanos == 0
                && b.max_memory_mb == 500 && b.max_pages == 1000 by {
            lemma_seconds_budget(n);
        }
        assert forall|n: int|
            0 <= n <= u64::MAX && s@ == #[trigger] millis_budget_text(n) implies budget_from_text(
                s@,
            ) matches BudgetParse::Parsed(b) && b.max_time.secs * 1_000_000_000 + b.max_time.nanos
                == n * 1_000_000 && b.max_memory_mb == 500 && b.max_pages == 1000 by {
            lemma_millis_budget(n);
        }
    }
    match apply_entries_exec(s) {
        Some(r) => r,
        None => {
            assert(false);
            Err(String::new())
        },
    }
}

/// Whether the budget text `s` gives only times that a span can hold.
fn budget_text_decided(s: &str) -> (d: bool)
    ensures
        d == !(budget_from_text(s@) is Unsupported),
{
    apply_entries_exec(s).is_some()
}

/// Parses a `--budget` value as [`parse_budget`] does, for any text: `None`
/// when some entry gives a time that no span can hold (a negative number
/// of seconds other than zero, one beyond the longest span, `inf` or
/// `nan`).
pub fn parse_budget_checked(s: &str) -> (r: Option<Result<Budget, String>>)
    ensures
        outcome_is(r, budget_from_text(s@)),
        forall|n: int|
            0 <= n <= u64::MAX && s@ == #[trigger] millis_budget_text(n) ==> (r matches Some(Ok(b))
                && b.max_time.secs * 1_000_000_000 + b.max_time.nanos == n * 1_000_000
                && b.max_memory_mb == 500 && b.max_pages == 1000),
        forall|n: int|
            0 <= n <= u64::MAX && s@ == #[trigger] seconds_budget_text(n) ==> (r matches Some(Ok(b))
                && b.max_time.secs == n && b.max_time.nanos == 0 && b.max_memory_mb == 500
                && b.max_pages == 1000),
{
    proof {
        assert forall|n: int|
            0 <= n <= u64::MAX && s@ == #[trigger] seconds_budget_text(n) implies budget_from_text(
                s@,
            ) matches BudgetParse::Parsed(b) && b.max_time.secs == n && b.max_time.nanos == 0
                && b.max_memory_mb == 500 && b.max_pages == 1000 by {
            lemma_seconds_budget(n);
        }
        assert forall|n: int|
            0 <= n <= u64::MAX && s@ == #[trigger] millis_budget_text(n) implies budget_from_text(
                s@,
            ) matches BudgetParse::Parsed(b) && b.max_time.secs * 1_000_000_000 + b.max_time.nanos
                == n * 1_000_000 && b.max_memory_mb == 500 && b.max_pages == 1000 by {
            lemma_millis_budget(n);
        }
    }
    if budget_text_decided(s) {
        Some(parse_budget(s))
    } else {
        None
    }
}

} // verus!
