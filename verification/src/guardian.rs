//! Resource tracking against a compilation budget, with phased escalation:
//! under 70% of a limit is normal, from 70% a warning, from 85% degraded
//! rendering, from 100% a hard stop.  Per-chapter statistics record which
//! sections are expensive; a flag records full recompilations.

use vstd::prelude::*;
use std::time::Instant;
use crate::budget::{Budget, TimeSpan};
use crate::text::{decimal, digit_char, push_decimal};

verus! {

/// Escalation phase determined by resource consumption.
#[derive(Debug, Clone, Copy, PartialEq, Eq, Structural)]
pub enum Phase {
    /// Under 70% of the limit.
    Normal,
    /// From 70% up to 85%.
    Warning,
    /// From 85% up to 100%.
    Degraded,
    /// 100% or more: stop and produce partial output.
    HardStop,
}

/// The escalation order of a phase.
pub open spec fn phase_rank(p: Phase) -> int {
    match p {
        Phase::Normal => 0,
        Phase::Warning => 1,
        Phase::Degraded => 2,
        Phase::HardStop => 3,
    }
}

/// The phase of a consumption `used` against a limit `limit`, judged on the
/// exact ratio `used / limit`.  A zero limit makes any positive use a hard
/// stop (the ratio is infinite), and leaves zero use normal (the ratio is
/// undefined, which compares below every threshold).
pub open spec fn phase_of(used: int, limit: int) -> Phase {
    if limit == 0 {
        if used == 0 { Phase::Normal } else { Phase::HardStop }
    } else if used >= limit {
        Phase::HardStop
    } else if 100 * used >= 85 * limit {
        Phase::Degraded
    } else if 100 * used >= 70 * limit {
        Phase::Warning
    } else {
        Phase::Normal
    }
}

/// Whether `100 * used >= pct * limit`, computed without overflow.
fn reaches_percent(used: u128, limit: u128, pct: u128) -> (b: bool)
    requires
        pct <= 100,
    ensures
        b == (100 * used >= pct * limit),
{
    let q = limit / 100;
    let r = limit % 100;
    proof {
        assert(limit == 100 * q + r);
        assert(pct * q <= limit) by (nonlinear_arith)
            requires pct <= 100, limit == 100 * q + r, q >= 0, r >= 0;
        assert(pct * r < 10000) by (nonlinear_arith)
            requires pct <= 100, r < 100, r >= 0;
        assert((pct * r + 99) / 100 <= r) by (nonlinear_arith)
            requires pct <= 100, r >= 0, pct >= 0;
        assert(pct * q + r <= limit) by (nonlinear_arith)
            requires pct <= 100, limit == 100 * q + r, q >= 0;
    }
    let need = pct * q + (pct * r + 99) / 100;
    proof {
        let c = (pct * r + 99) / 100;
        assert(pct * limit == 100 * (pct * q) + pct * r) by (nonlinear_arith)
            requires limit == 100 * q + r;
        assert(100 * c >= pct * r && 100 * c < pct * r + 100) by (nonlinear_arith)
            requires c == (pct * r + 99) / 100, pct * r >= 0;
    }
    used >= need
}

impl Phase {
    /// The phase of consuming `used` out of `limit`.
    pub fn from_usage(used: u128, limit: u128) -> (p: Phase)
        ensures
            p == phase_of(used as int, limit as int),
            (p == Phase::HardStop) == (used >= limit && (used > 0 || limit > 0)),
            (p == Phase::Degraded) == (limit > 0 && 100 * used >= 85 * limit && used < limit),
            (p == Phase::Warning) == (limit > 0 && 100 * used >= 70 * limit && 100 * used < 85
                * limit),
            (p == Phase::Normal) == (used == 0 || 100 * used < 70 * limit),
    {
        if limit == 0 {
            if used == 0 { Phase::Normal } else { Phase::HardStop }
        } else if used >= limit {
            Phase::HardStop
        } else if reaches_percent(used, limit, 85) {
            Phase::Degraded
        } else if reaches_percent(used, limit, 70) {
            Phase::Warning
        } else {
            Phase::Normal
        }
    }
}

/// For a fixed positive limit, the phase never de-escalates as use grows.
pub proof fn lemma_phase_monotone(u1: int, u2: int, limit: int)
    requires
        0 <= u1 <= u2,
        0 < limit,
    ensures
        phase_rank(phase_of(u1, limit)) <= phase_rank(phase_of(u2, limit)),
{
}



// ---------------------------------------------------------------------------
// Clock
// ---------------------------------------------------------------------------

#[verifier::external_type_specification]
#[verifier::external_body]
pub struct ExInstant(std::time::Instant);

/// `Instant::now`: the current reading of the monotonic clock.
#[verifier::external_body]
fn clock_now() -> Instant {
    Instant::now()
}

/// `Instant::elapsed`: the time since `start`, as whole seconds and the
/// nanoseconds beyond them (fewer than a billion, as std documents).
#[verifier::external_body]
fn clock_elapsed(start: &Instant) -> (d: TimeSpan)
    ensures
        d.nanos < 1_000_000_000,
{
    let e = start.elapsed();
    TimeSpan { secs: e.as_secs(), nanos: e.subsec_nanos() }
}

// ---------------------------------------------------------------------------
// Snapshots
// ---------------------------------------------------------------------------

/// Statistics for a single chapter / section of the document.
#[derive(Debug, Clone)]
pub struct ChapterStats {
    /// Chapter name or identifier.
    pub name: String,
    /// Wall-clock time spent on this chapter.
    pub cpu_time: TimeSpan,
    /// Estimated memory delta during this chapter (not measured: always 0).
    pub memory_delta_kb: u64,
    /// Number of pages in this chapter: those recorded between its
    /// beginning and its end.
    pub pages: usize,
}

/// Overall resource snapshot.
#[derive(Debug, Clone)]
pub struct ResourceSnapshot {
    /// Elapsed compile time so far.
    pub elapsed: TimeSpan,
    /// Peak memory estimate in KB.
    pub memory_kb: u64,
    /// Number of pages emitted so far.
    pub pages: usize,
    /// Current font cache entry count.
    pub font_cache_entries: usize,
    /// Phase for elapsed time.
    pub time_phase: Phase,
    /// Phase for memory.
    pub memory_phase: Phase,
    /// Phase for page count.
    pub page_phase: Phase,
    /// Per-chapter breakdown.
    pub chapters: Vec<ChapterStats>,
    /// Whether this compilation is a full recompilation.
    pub is_full_recompilation: bool,
}

/// What a guardian has recorded.
pub struct GuardianState {
    pub budget: Budget,
    pub pages_compiled: u64,
    pub memory_peak_kb: u64,
    pub font_cache_size: u64,
    pub full_recompile: bool,
    pub chapters: Seq<ChapterStats>,
    pub current_chapter: Option<String>,
    /// The page count when the current chapter began.
    pub chapter_start_pages: u64,
}

/// The time phase after `elapsed` under budget `b`.
pub open spec fn time_phase_of(b: Budget, elapsed: TimeSpan) -> Phase {
    phase_of(elapsed.total_nanos(), b.max_time.total_nanos())
}

/// The time phase is judged on the whole elapsed time against the whole
/// budget time, both counted in nanoseconds: fractions of a second count.
pub proof fn lemma_time_phase_in_nanos(b: Budget, elapsed: TimeSpan)
    ensures
        time_phase_of(b, elapsed) == phase_of(
            elapsed.secs as int * 1_000_000_000 + elapsed.nanos as int,
            b.max_time.secs as int * 1_000_000_000 + b.max_time.nanos as int,
        ),
{
}

/// A phase depends only on the ratio of use to limit: scaling both by the
/// same positive factor leaves it unchanged.
pub proof fn lemma_phase_by_ratio(used: int, limit: int, k: int)
    requires
        used >= 0,
        limit >= 0,
        k > 0,
    ensures
        phase_of(k * used, k * limit) == phase_of(used, limit),
{
    assert(k * limit == 0 <==> limit == 0) by (nonlinear_arith)
        requires k > 0, limit >= 0;
    assert(k * used == 0 <==> used == 0) by (nonlinear_arith)
        requires k > 0, used >= 0;
    assert(k * used >= k * limit <==> used >= limit) by (nonlinear_arith)
        requires k > 0;
    assert(100 * (k * used) >= 85 * (k * limit) <==> 100 * used >= 85 * limit) by (nonlinear_arith)
        requires k > 0;
    assert(100 * (k * used) >= 70 * (k * limit) <==> 100 * used >= 70 * limit) by (nonlinear_arith)
        requires k > 0;
}

/// The memory phase of a peak of `kb` KB under budget `b`.
pub open spec fn memory_phase_of(b: Budget, kb: u64) -> Phase {
    phase_of(kb as int, b.max_memory_mb as int * 1024)
}

/// The page phase of `pages` pages under budget `b`.
pub open spec fn page_phase_of(b: Budget, pages: u64) -> Phase {
    phase_of(pages as usize as int, b.max_pages as int)
}

/// `snap` is the snapshot of state `st` taken `elapsed` after the start.
pub open spec fn is_snapshot_of(snap: ResourceSnapshot, st: GuardianState, elapsed: TimeSpan) -> bool {
    &&& snap.elapsed == elapsed
    &&& snap.memory_kb == st.memory_peak_kb
    &&& snap.pages == st.pages_compiled as usize
    &&& snap.font_cache_entries == st.font_cache_size as usize
    &&& snap.time_phase == time_phase_of(st.budget, elapsed)
    &&& snap.memory_phase == memory_phase_of(st.budget, st.memory_peak_kb)
    &&& snap.page_phase == page_phase_of(st.budget, st.pages_compiled)
    &&& snap.chapters@ == st.chapters
    &&& snap.is_full_recompilation == st.full_recompile
}

/// Compilation must stop at `elapsed`: some resource is at its hard stop.
pub open spec fn stops_at(st: GuardianState, elapsed: TimeSpan) -> bool {
    ||| time_phase_of(st.budget, elapsed) == Phase::HardStop
    ||| memory_phase_of(st.budget, st.memory_peak_kb) == Phase::HardStop
    ||| page_phase_of(st.budget, st.pages_compiled) == Phase::HardStop
}

/// The pages recorded since the current chapter began (the count wraps
/// at `u64::MAX`, as the page counter does).
pub open spec fn chapter_pages(st: GuardianState) -> u64 {
    vstd::wrapping::u64_specs::wrapping_sub(st.pages_compiled, st.chapter_start_pages)
}

/// A snapshot and the stop decision agree: compilation must stop exactly
/// when the snapshot taken at the same moment shows a hard stop.
pub proof fn lemma_stop_matches_snapshot(snap: ResourceSnapshot, st: GuardianState, elapsed: TimeSpan)
    requires
        is_snapshot_of(snap, st, elapsed),
    ensures
        stops_at(st, elapsed) == (snap.time_phase == Phase::HardStop || snap.memory_phase
            == Phase::HardStop || snap.page_phase == Phase::HardStop),
{
}

/// Two snapshots of the same recorded state agree on everything but the
/// elapsed time and the time phase.
pub proof fn lemma_snapshots_agree(
    st: GuardianState,
    s1: ResourceSnapshot,
    e1: TimeSpan,
    s2: ResourceSnapshot,
    e2: TimeSpan,
)
    requires
        is_snapshot_of(s1, st, e1),
        is_snapshot_of(s2, st, e2),
    ensures
        s1.pages == s2.pages,
        s1.memory_kb == s2.memory_kb,
        s1.font_cache_entries == s2.font_cache_entries,
        s1.memory_phase == s2.memory_phase,
        s1.page_phase == s2.page_phase,
        s1.chapters@ == s2.chapters@,
        s1.is_full_recompilation == s2.is_full_recompilation,
{
}

/// Recording a page adds one to the page count that a snapshot shows, and
/// leaves the other recorded fields as they were (while the count stays
/// below `usize::MAX`).
pub proof fn lemma_record_page_snapshot(
    st1: GuardianState,
    st2: GuardianState,
    s1: ResourceSnapshot,
    e1: TimeSpan,
    s2: ResourceSnapshot,
    e2: TimeSpan,
)
    requires
        st2 == (GuardianState {
            pages_compiled: vstd::wrapping::u64_specs::wrapping_add(st1.pages_compiled, 1),
            ..st1
        }),
        st1.pages_compiled < usize::MAX,
        is_snapshot_of(s1, st1, e1),
        is_snapshot_of(s2, st2, e2),
    ensures
        s2.pages == s1.pages + 1,
        s2.memory_kb == s1.memory_kb,
        s2.font_cache_entries == s1.font_cache_entries,
        s2.chapters@ == s1.chapters@,
        s2.is_full_recompilation == s1.is_full_recompilation,
{
}

// ---------------------------------------------------------------------------
// Status text
// ---------------------------------------------------------------------------

pub open spec fn phase_name(p: Phase) -> Seq<char> {
    match p {
        Phase::Normal => "Normal"@,
        Phase::Warning => "Warning"@,
        Phase::Degraded => "Degraded"@,
        Phase::HardStop => "HardStop"@,
    }
}


/// The full-recompile marker that ends a status line.
pub open spec fn recompile_marker() -> Seq<char> {
    " [FULL RECOMPILE]"@
}

/// The status line of state `st` after `elapsed`, without the marker;
/// `elapsed_text` and `budget_text` are the elapsed and budget times as
/// seconds with one decimal.
pub open spec fn status_body(
    st: GuardianState,
    elapsed: TimeSpan,
    elapsed_text: Seq<char>,
    budget_text: Seq<char>,
) -> Seq<char> {
    let b = st.budget;
    "Resource Guardian: "@ + elapsed_text + "s/"@ + budget_text
        + "s compile, "@ + decimal((st.memory_peak_kb / 1024) as nat) + "MB/"@ + decimal(
        b.max_memory_mb as nat,
    ) + "MB memory, "@ + decimal(st.pages_compiled as usize as nat) + " pages/"@ + decimal(
        b.max_pages as nat,
    ) + " pages, fonts: "@ + decimal(st.font_cache_size as usize as nat) + " | time: "@
        + phase_name(time_phase_of(b, elapsed)) + ", memory: "@ + phase_name(
        memory_phase_of(b, st.memory_peak_kb),
    ) + ", pages: "@ + phase_name(page_phase_of(b, st.pages_compiled))
}

/// The status line of state `st` after `elapsed`: the body, then the
/// full-recompile marker when the flag is set.
pub open spec fn status_text(
    st: GuardianState,
    elapsed: TimeSpan,
    elapsed_text: Seq<char>,
    budget_text: Seq<char>,
) -> Seq<char> {
    status_body(st, elapsed, elapsed_text, budget_text) + (if st.full_recompile {
        recompile_marker()
    } else {
        ""@
    })
}

/// No character of `s` is `c`.
pub open spec fn free_of(s: Seq<char>, c: char) -> bool {
    forall|i: int| 0 <= i < s.len() ==> #[trigger] s[i] != c
}

proof fn lemma_free_concat(a: Seq<char>, b: Seq<char>, c: char)
    requires
        free_of(a, c),
        free_of(b, c),
    ensures
        free_of(a + b, c),
{
    assert forall|i: int| 0 <= i < (a + b).len() implies #[trigger] (a + b)[i] != c by {
        if i < a.len() {
            assert((a + b)[i] == a[i]);
        } else {
            assert((a + b)[i] == b[i - a.len()]);
        }
    }
}

proof fn lemma_decimal_digits(n: nat)
    ensures
        free_of(decimal(n), '['),
    decreases n,
{
    if n >= 10 {
        lemma_decimal_digits(n / 10);
        let d = decimal(n / 10);
        assert(decimal(n) == d.push(digit_char(n % 10)));
        assert forall|i: int| 0 <= i < decimal(n).len() implies #[trigger] decimal(n)[i] != '[' by {
            if i < d.len() {
                assert(decimal(n)[i] == d[i]);
            }
        }
    }
}

proof fn lemma_phase_name_free(p: Phase)
    ensures
        free_of(phase_name(p), '['),
{
    reveal_strlit("Normal");
    reveal_strlit("Warning");
    reveal_strlit("Degraded");
    reveal_strlit("HardStop");
}

proof fn lemma_status_body_free(st: GuardianState, e: TimeSpan, et: Seq<char>, bt: Seq<char>)
    requires
        free_of(et, '['),
        free_of(bt, '['),
    ensures
        free_of(status_body(st, e, et, bt), '['),
{
    let b = st.budget;
    reveal_strlit("Resource Guardian: ");
    reveal_strlit("s/");
    reveal_strlit("s compile, ");
    reveal_strlit("MB/");
    reveal_strlit("MB memory, ");
    reveal_strlit(" pages/");
    reveal_strlit(" pages, fonts: ");
    reveal_strlit(" | time: ");
    reveal_strlit(", memory: ");
    reveal_strlit(", pages: ");
    lemma_decimal_digits((st.memory_peak_kb / 1024) as nat);
    lemma_decimal_digits(b.max_memory_mb as nat);
    lemma_decimal_digits(st.pages_compiled as usize as nat);
    lemma_decimal_digits(b.max_pages as nat);
    lemma_decimal_digits(st.font_cache_size as usize as nat);
    lemma_phase_name_free(time_phase_of(b, e));
    lemma_phase_name_free(memory_phase_of(b, st.memory_peak_kb));
    lemma_phase_name_free(page_phase_of(b, st.pages_compiled));
    let s1 = "Resource Guardian: "@ + et;
    lemma_free_concat("Resource Guardian: "@, et, '[');
    let s2 = s1 + "s/"@;
    lemma_free_concat(s1, "s/"@, '[');
    let s3 = s2 + bt;
    lemma_free_concat(s2, bt, '[');
    let s4 = s3 + "s compile, "@;
    lemma_free_concat(s3, "s compile, "@, '[');
    let s5 = s4 + decimal((st.memory_peak_kb / 1024) as nat);
    lemma_free_concat(s4, decimal((st.memory_peak_kb / 1024) as nat), '[');
    let s6 = s5 + "MB/"@;
    lemma_free_concat(s5, "MB/"@, '[');
    let s7 = s6 + decimal(b.max_memory_mb as nat);
    lemma_free_concat(s6, decimal(b.max_memory_mb as nat), '[');
    let s8 = s7 + "MB memory, "@;
    lemma_free_concat(s7, "MB memory, "@, '[');
    let s9 = s8 + decimal(st.pages_compiled as usize as nat);
    lemma_free_concat(s8, decimal(st.pages_compiled as usize as nat), '[');
    let s10 = s9 + " pages/"@;
    lemma_free_concat(s9, " pages/"@, '[');
    let s11 = s10 + decimal(b.max_pages as nat);
    lemma_free_concat(s10, decimal(b.max_pages as nat), '[');
    let s12 = s11 + " pages, fonts: "@;
    lemma_free_concat(s11, " pages, fonts: "@, '[');
    let s13 = s12 + decimal(st.font_cache_size as usize as nat);
    lemma_free_concat(s12, decimal(st.font_cache_size as usize as nat), '[');
    let s14 = s13 + " | time: "@;
    lemma_free_concat(s13, " | time: "@, '[');
    let s15 = s14 + phase_name(time_phase_of(b, e));
    lemma_free_concat(s14, phase_name(time_phase_of(b, e)), '[');
    let s16 = s15 + ", memory: "@;
    lemma_free_concat(s15, ", memory: "@, '[');
    let s17 = s16 + phase_name(memory_phase_of(b, st.memory_peak_kb));
    lemma_free_concat(s16, phase_name(memory_phase_of(b, st.memory_peak_kb)), '[');
    let s18 = s17 + ", pages: "@;
    lemma_free_concat(s17, ", pages: "@, '[');
    lemma_free_concat(s18, phase_name(page_phase_of(b, st.pages_compiled)), '[');
}

/// The status line ends with the full-recompile marker exactly when the
/// flag is set; without the flag, and with time texts free of `[`, it holds
/// no `[` at all, so no marker anywhere.
pub proof fn lemma_status_marks_full_recompile(
    st: GuardianState,
    e: TimeSpan,
    et: Seq<char>,
    bt: Seq<char>,
)
    requires
        free_of(et, '['),
        free_of(bt, '['),
    ensures
        ({
            let s = status_text(st, e, et, bt);
            let m = recompile_marker();
            (s.len() >= m.len() && s.subrange(s.len() - m.len(), s.len() as int) == m)
                <==> st.full_recompile
        }),
        !st.full_recompile ==> free_of(status_text(st, e, et, bt), '['),
{
    let s = status_text(st, e, et, bt);
    let m = recompile_marker();
    let body = status_body(st, e, et, bt);
    lemma_status_body_free(st, e, et, bt);
    reveal_strlit(" [FULL RECOMPILE]");
    reveal_strlit("");
    if st.full_recompile {
        assert(s.subrange(s.len() - m.len(), s.len() as int) =~= m);
    } else {
        assert(s =~= body);
        if s.len() >= m.len() && s.subrange(s.len() - m.len(), s.len() as int) == m {
            assert(m[1] == '[');
            assert(s.subrange(s.len() - m.len(), s.len() as int)[1] == s[s.len() - m.len() + 1]);
            assert(false);
        }
    }
}

fn phase_str(p: Phase) -> (r: &'static str)
    ensures
        r@ == phase_name(p),
{
    match p {
        Phase::Normal => "Normal",
        Phase::Warning => "Warning",
        Phase::Degraded => "Degraded",
        Phase::HardStop => "HardStop",
    }
}


// ---------------------------------------------------------------------------
// Guardian
// ---------------------------------------------------------------------------

/// The resource guardian: tracks consumption against a budget and decides
/// when compilation must stop.
pub struct ResourceGuardian {
    budget: Budget,
    start: Instant,
    chapters: Vec<ChapterStats>,
    current_chapter: Option<String>,
    chapter_start: Instant,
    chapter_start_pages: u64,
    pages_compiled: u64,
    memory_peak_kb: u64,
    font_cache_size: u64,
    full_recompile_flag: bool,
}

impl View for ResourceGuardian {
    type V = GuardianState;

    closed spec fn view(&self) -> GuardianState {
        GuardianState {
            budget: self.budget,
            pages_compiled: self.pages_compiled,
            memory_peak_kb: self.memory_peak_kb,
            font_cache_size: self.font_cache_size,
            full_recompile: self.full_recompile_flag,
            chapters: self.chapters@,
            current_chapter: self.current_chapter,
            chapter_start_pages: self.chapter_start_pages,
        }
    }
}

fn copy_chapters(v: &Vec<ChapterStats>) -> (r: Vec<ChapterStats>)
    ensures
        r@ == v@,
{
    let mut r: Vec<ChapterStats> = Vec::new();
    let n = v.len();
    let mut i: usize = 0;
    while i < n
        invariant
            n == v@.len(),
            i <= n,
            r@ == v@.take(i as int),
        decreases n - i,
    {
        let c = &v[i];
        let copy = ChapterStats {
            name: c.name.clone(),
            cpu_time: c.cpu_time,
            memory_delta_kb: c.memory_delta_kb,
            pages: c.pages,
        };
        r.push(copy);
        assert(v@.take(i + 1) =~= v@.take(i as int).push(v@[i as int]));
        i = i + 1;
    }
    assert(v@.take(n as int) =~= v@);
    r
}

impl ResourceGuardian {
    /// A guardian for `budget`, starting its clock now, with nothing
    /// recorded yet.
    pub fn new(budget: Budget) -> (g: ResourceGuardian)
        ensures
            g@ == (GuardianState {
                budget,
                pages_compiled: 0,
                memory_peak_kb: 0,
                font_cache_size: 0,
                full_recompile: false,
                chapters: Seq::empty(),
                current_chapter: None,
                chapter_start_pages: 0,
            }),
    {
        let start = clock_now();
        let chapter_start = clock_now();
        ResourceGuardian {
            budget,
            start,
            chapters: Vec::new(),
            current_chapter: None,
            chapter_start,
            chapter_start_pages: 0,
            pages_compiled: 0,
            memory_peak_kb: 0,
            font_cache_size: 0,
            full_recompile_flag: false,
        }
    }

    /// The budget.
    pub fn budget(&self) -> (b: &Budget)
        ensures
            *b == self@.budget,
    {
        &self.budget
    }

    /// Records that a page was compiled (the counter wraps at `u64::MAX`).
    pub fn record_page(&mut self)
        ensures
            final(self)@ == (GuardianState {
                pages_compiled: vstd::wrapping::u64_specs::wrapping_add(old(self)@.pages_compiled, 1),
                ..old(self)@
            }),
            old(self)@.pages_compiled < u64::MAX ==> final(self)@.pages_compiled == old(
                self,
            )@.pages_compiled + 1,
    {
        self.pages_compiled = self.pages_compiled.wrapping_add(1);
    }

    /// Raises the peak memory estimate to `kb` if it is higher.
    pub fn update_memory(&mut self, kb: u64)
        ensures
            final(self)@ == (GuardianState {
                memory_peak_kb: if kb > old(self)@.memory_peak_kb {
                    kb
                } else {
                    old(self)@.memory_peak_kb
                },
                ..old(self)@
            }),
            final(self)@.memory_peak_kb >= old(self)@.memory_peak_kb,
            final(self)@.memory_peak_kb >= kb,
    {
        if kb > self.memory_peak_kb {
            self.memory_peak_kb = kb;
        }
    }

    /// Records the font cache size.
    pub fn update_font_cache(&mut self, entries: u64)
        ensures
            final(self)@ == (GuardianState { font_cache_size: entries, ..old(self)@ }),
    {
        self.font_cache_size = entries;
    }

    /// Marks this compilation as a full recompilation.
    pub fn mark_full_recompile(&mut self)
        ensures
            final(self)@ == (GuardianState { full_recompile: true, ..old(self)@ }),
    {
        self.full_recompile_flag = true;
    }

    /// Begins a chapter named `name`, restarting the chapter clock.
    pub fn begin_chapter(&mut self, name: &str)
        ensures
            final(self)@.current_chapter matches Some(n) && n@ == name@,
            final(self)@ == (GuardianState {
                current_chapter: final(self)@.current_chapter,
                chapter_start_pages: old(self)@.pages_compiled,
                ..old(self)@
            }),
    {
        self.current_chapter = Some(String::from_str(name));
        self.chapter_start = clock_now();
        self.chapter_start_pages = self.pages_compiled;
    }

    /// Ends the current chapter, if there is one, and records its name, the
    /// time since it began and the number of pages compiled since it began.
    pub fn end_chapter(&mut self)
        ensures
            final(self)@.current_chapter is None,
            final(self)@.budget == old(self)@.budget,
            final(self)@.pages_compiled == old(self)@.pages_compiled,
            final(self)@.memory_peak_kb == old(self)@.memory_peak_kb,
            final(self)@.font_cache_size == old(self)@.font_cache_size,
            final(self)@.full_recompile == old(self)@.full_recompile,
            final(self)@.chapter_start_pages == old(self)@.chapter_start_pages,
            match old(self)@.current_chapter {
                None => final(self)@.chapters == old(self)@.chapters,
                Some(name) => exists|t: TimeSpan|
                    t.nanos < 1_000_000_000 && final(self)@.chapters == old(self)@.chapters.push(
                        ChapterStats {
                            name,
                            cpu_time: t,
                            memory_delta_kb: 0,
                            pages: chapter_pages(old(self)@) as usize,
                        },
                    ),
            },
    {
        let chapter = self.current_chapter.take();
        let elapsed = clock_elapsed(&self.chapter_start);
        match chapter {
            Some(name) => {
                let pages = self.pages_compiled.wrapping_sub(self.chapter_start_pages);
                let stats = ChapterStats {
                    name,
                    cpu_time: elapsed,
                    memory_delta_kb: 0,
                    pages: pages as usize,
                };
                self.chapters.push(stats);
                assert(self@.chapters == old(self)@.chapters.push(stats));
            },
            None => {},
        }
    }

    /// The snapshot of what has been recorded, `elapsed` after the start.
    pub fn snapshot_at(&self, elapsed: TimeSpan) -> (s: ResourceSnapshot)
        ensures
            is_snapshot_of(s, self@, elapsed),
            s.time_phase == phase_of(
                elapsed.secs as int * 1_000_000_000 + elapsed.nanos as int,
                self@.budget.max_time.secs as int * 1_000_000_000
                    + self@.budget.max_time.nanos as int,
            ),
            s.memory_phase == phase_of(
                self@.memory_peak_kb as int,
                self@.budget.max_memory_mb as int * 1024,
            ),
            s.page_phase == phase_of(s.pages as int, self@.budget.max_pages as int),
            s.pages as int == self@.pages_compiled as usize as int,
    {
        let pages = self.pages_compiled as usize;
        let limit_kb: u128 = self.budget.max_memory_mb as u128 * 1024;
        ResourceSnapshot {
            elapsed,
            memory_kb: self.memory_peak_kb,
            pages,
            font_cache_entries: self.font_cache_size as usize,
            time_phase: Phase::from_usage(elapsed.as_nanos(), self.budget.max_time.as_nanos()),
            memory_phase: Phase::from_usage(self.memory_peak_kb as u128, limit_kb),
            page_phase: Phase::from_usage(pages as u128, self.budget.max_pages as u128),
            chapters: copy_chapters(&self.chapters),
            is_full_recompilation: self.full_recompile_flag,
        }
    }

    /// Takes a snapshot now: its elapsed time is read from the clock, and
    /// everything else is as [`ResourceGuardian::snapshot_at`] gives it.
    pub fn snapshot(&self) -> (s: ResourceSnapshot)
        ensures
            s.elapsed.nanos < 1_000_000_000,
            is_snapshot_of(s, self@, s.elapsed),
    {
        let elapsed = clock_elapsed(&self.start);
        self.snapshot_at(elapsed)
    }

    /// Whether compilation must stop `elapsed` after the start.
    pub fn should_stop_at(&self, elapsed: TimeSpan) -> (b: bool)
        ensures
            b == stops_at(self@, elapsed),
            b == (phase_of(
                elapsed.secs as int * 1_000_000_000 + elapsed.nanos as int,
                self@.budget.max_time.secs as int * 1_000_000_000
                    + self@.budget.max_time.nanos as int,
            ) == Phase::HardStop || phase_of(
                self@.memory_peak_kb as int,
                self@.budget.max_memory_mb as int * 1024,
            ) == Phase::HardStop || phase_of(
                self@.pages_compiled as usize as int,
                self@.budget.max_pages as int,
            ) == Phase::HardStop),
    {
        let s = self.snapshot_at(elapsed);
        s.time_phase == Phase::HardStop || s.memory_phase == Phase::HardStop || s.page_phase
            == Phase::HardStop
    }

    /// Whether compilation must stop now (some resource reached its hard
    /// stop, the time one judged on the clock's current reading).
    pub fn should_stop(&self) -> (b: bool)
        ensures
            exists|e: TimeSpan| e.nanos < 1_000_000_000 && b == stops_at(self@, e),
            memory_phase_of(self@.budget, self@.memory_peak_kb) == Phase::HardStop ==> b,
            page_phase_of(self@.budget, self@.pages_compiled) == Phase::HardStop ==> b,
    {
        let elapsed = clock_elapsed(&self.start);
        let b = self.should_stop_at(elapsed);
        assert(elapsed.nanos < 1_000_000_000 && b == stops_at(self@, elapsed));
        b
    }

    /// The status line `elapsed` after the start, given the elapsed time and
    /// the budget time as seconds with one decimal (their rounding is that of
    /// floating-point seconds, which the caller formats).
    pub fn status_at(&self, elapsed: TimeSpan, elapsed_text: &str, budget_text: &str) -> (r:
        String)
        ensures
            r@ == status_text(self@, elapsed, elapsed_text@, budget_text@),
    {
        let s = self.snapshot_at(elapsed);
        let mut out = String::from_str("Resource Guardian: ");
        out.append(elapsed_text);
        out.append("s/");
        out.append(budget_text);
        out.append("s compile, ");
        push_decimal(&mut out, (s.memory_kb / 1024) as u128);
        out.append("MB/");
        push_decimal(&mut out, self.budget.max_memory_mb as u128);
        out.append("MB memory, ");
        push_decimal(&mut out, s.pages as u128);
        out.append(" pages/");
        push_decimal(&mut out, self.budget.max_pages as u128);
        out.append(" pages, fonts: ");
        push_decimal(&mut out, s.font_cache_entries as u128);
        out.append(" | time: ");
        out.append(phase_str(s.time_phase));
        out.append(", memory: ");
        out.append(phase_str(s.memory_phase));
        out.append(", pages: ");
        out.append(phase_str(s.page_phase));
        if s.is_full_recompilation {
            out.append(" [FULL RECOMPILE]");
        } else {
            out.append("");
        }
        assert(out@ =~= status_text(self@, elapsed, elapsed_text@, budget_text@));
        out
    }

    /// The time since the start, read from the clock now.
    pub fn elapsed(&self) -> (e: TimeSpan)
        ensures
            e.nanos < 1_000_000_000,
    {
        clock_elapsed(&self.start)
    }
}

// ---------------------------------------------------------------------------
// Conservation counter
// ---------------------------------------------------------------------------

/// A one-sided counter of cumulative resource use against a maximum.
pub struct ConservationCounter {
    value: u64,
    label: String,
    max: u64,
}

/// The phase of a counter at `value` of `max`; a zero maximum is never
/// escalated.
pub open spec fn counter_phase(value: u64, max: u64) -> Phase {
    if max == 0 {
        Phase::Normal
    } else {
        phase_of(value as int, max as int)
    }
}

impl ConservationCounter {
    /// The count so far.
    pub closed spec fn count(&self) -> u64 {
        self.value
    }

    /// The maximum allowed.
    pub closed spec fn limit(&self) -> u64 {
        self.max
    }

    /// The label.
    pub closed spec fn label_text(&self) -> Seq<char> {
        self.label@
    }

    /// A counter at zero with the given label and maximum.
    pub fn new(label: &str, max: u64) -> (c: ConservationCounter)
        ensures
            c.count() == 0,
            c.limit() == max,
            c.label_text() == label@,
    {
        ConservationCounter { value: 0, label: String::from_str(label), max }
    }

    /// Adds `amount` (the counter wraps at `u64::MAX`).
    pub fn add(&mut self, amount: u64)
        ensures
            final(self).count() == vstd::wrapping::u64_specs::wrapping_add(old(self).count(), amount),
            old(self).count() + amount <= u64::MAX ==> final(self).count() == old(self).count()
                + amount,
            final(self).limit() == old(self).limit(),
            final(self).label_text() == old(self).label_text(),
    {
        self.value = self.value.wrapping_add(amount);
    }

    /// The current phase of this counter.
    pub fn phase(&self) -> (p: Phase)
        ensures
            p == counter_phase(self.count(), self.limit()),
            self.limit() == 0 ==> p == Phase::Normal,
            self.limit() > 0 ==> p == phase_of(self.count() as int, self.limit() as int),
    {
        if self.max == 0 {
            Phase::Normal
        } else {
            Phase::from_usage(self.value as u128, self.max as u128)
        }
    }

    /// The label.
    pub fn label(&self) -> (s: &str)
        ensures
            s@ == self.label_text(),
    {
        self.label.as_str()
    }

    /// The current count.
    pub fn current(&self) -> (v: u64)
        ensures
            v == self.count(),
    {
        self.value
    }

    /// The maximum allowed.
    pub fn max(&self) -> (m: u64)
        ensures
            m == self.limit(),
    {
        self.max
    }
}

} // verus!
