use typst_spatial::budget::{parse_budget, parse_budget_checked, Budget, TimeSpan};
use typst_spatial::guardian::{ConservationCounter, Phase, ResourceGuardian};

/// The consumption ratio of a counter, as the counter reports it in floating point.
fn ratio(counter: &ConservationCounter) -> f64 {
    if counter.max() == 0 {
        return 0.0;
    }
    counter.current() as f64 / counter.max() as f64
}

#[test]
fn test_parse_budget_defaults() {
    let b = parse_budget("time:30s,memory:500MB,pages:1000").unwrap();
    assert_eq!(b.max_time, TimeSpan::from_secs(30));
    assert_eq!(b.max_memory_mb, 500);
    assert_eq!(b.max_pages, 1000);
}

#[test]
fn test_parse_budget_partial() {
    let b = parse_budget("time:10s").unwrap();
    assert_eq!(b.max_time, TimeSpan::from_secs(10));
    assert_eq!(b.max_memory_mb, 500);
    assert_eq!(b.max_pages, 1000);
}

#[test]
fn test_parse_budget_ms() {
    let b = parse_budget("time:500ms").unwrap();
    assert_eq!(b.max_time, TimeSpan::from_millis(500));
}

#[test]
fn test_parse_budget_gb() {
    let b = parse_budget("memory:2GB").unwrap();
    assert_eq!(b.max_memory_mb, 2048);
}

#[test]
fn test_parse_budget_invalid_key() {
    assert!(parse_budget("foo:bar").is_err());
}

#[test]
fn test_guardian_page_budget() {
    let budget = Budget { max_pages: 3, ..Budget::default() };
    let mut g = ResourceGuardian::new(budget);
    assert!(!g.should_stop());
    g.record_page();
    g.record_page();
    assert!(!g.should_stop());
    g.record_page();
    assert!(g.should_stop());
}

#[test]
fn test_conservation_counter() {
    let mut counter = ConservationCounter::new("test", 100);
    assert_eq!(ratio(&counter), 0.0);
    assert_eq!(counter.phase(), Phase::Normal);
    counter.add(70);
    assert_eq!(counter.phase(), Phase::Warning);
    counter.add(15);
    assert_eq!(counter.phase(), Phase::Degraded);
    counter.add(15);
    assert_eq!(counter.phase(), Phase::HardStop);
}

#[test]
fn test_chapter_tracking() {
    let mut g = ResourceGuardian::new(Budget::default());
    g.begin_chapter("Introduction");
    g.end_chapter();
    g.begin_chapter("Methods");
    g.end_chapter();
    let s = g.snapshot();
    assert_eq!(s.chapters.len(), 2);
    assert_eq!(s.chapters[0].name, "Introduction");
    assert_eq!(s.chapters[1].name, "Methods");
}

#[test]
fn test_full_recompile_flag() {
    let mut g = ResourceGuardian::new(Budget::default());
    assert!(!g.snapshot().is_full_recompilation);
    g.mark_full_recompile();
    assert!(g.snapshot().is_full_recompilation);
}

#[test]
fn integration_parse_complex_budget() {
    let b = parse_budget("  time:45s , memory:1GB , pages:2500 ").unwrap();
    assert_eq!(b.max_time.as_secs(), 45);
    assert_eq!(b.max_memory_mb, 1024);
    assert_eq!(b.max_pages, 2500);
}

#[test]
fn integration_full_lifecycle() {
    let budget = Budget {
        max_time: TimeSpan::from_secs(3600),
        max_memory_mb: 99999,
        max_pages: 5,
    };

    let mut guardian = ResourceGuardian::new(budget);

    assert!(!guardian.should_stop());
    let s = guardian.snapshot();
    assert_eq!(s.time_phase, Phase::Normal);
    assert_eq!(s.memory_phase, Phase::Normal);
    assert_eq!(s.page_phase, Phase::Normal);

    guardian.record_page();
    guardian.record_page();
    guardian.record_page();
    guardian.record_page();

    let s = guardian.snapshot();
    assert_eq!(s.page_phase, Phase::Warning);
    assert!(!guardian.should_stop());

    guardian.record_page();
    assert!(guardian.should_stop());
}

#[test]
fn integration_status_string() {
    let guardian = ResourceGuardian::new(Budget::default());
    let status = status_now(&guardian);
    assert!(status.starts_with("Resource Guardian:"));
    assert!(status.contains("compile"));
    assert!(status.contains("memory"));
}

#[test]
fn integration_conservation_counter() {
    let mut counter = ConservationCounter::new("pages", 100);
    assert_eq!(counter.label(), "pages");
    assert_eq!(counter.current(), 0);
    assert_eq!(counter.max(), 100);

    counter.add(50);
    assert_eq!(counter.current(), 50);
    assert_eq!(ratio(&counter), 0.5);
    assert_eq!(counter.phase(), Phase::Normal);

    counter.add(35);
    assert_eq!(counter.phase(), Phase::Degraded);

    counter.add(15);
    assert_eq!(counter.phase(), Phase::HardStop);
}

// ---------------------------------------------------------------------------
// Phases
// ---------------------------------------------------------------------------

#[test]
fn phase_thresholds_on_percentages() {
    assert_eq!(Phase::from_usage(0, 100), Phase::Normal);
    assert_eq!(Phase::from_usage(69, 100), Phase::Normal);
    assert_eq!(Phase::from_usage(70, 100), Phase::Warning);
    assert_eq!(Phase::from_usage(84, 100), Phase::Warning);
    assert_eq!(Phase::from_usage(85, 100), Phase::Degraded);
    assert_eq!(Phase::from_usage(99, 100), Phase::Degraded);
    assert_eq!(Phase::from_usage(100, 100), Phase::HardStop);
    assert_eq!(Phase::from_usage(200, 100), Phase::HardStop);
}

#[test]
fn phase_exact_thresholds_on_odd_limits() {
    // 70% of 7 is 4.9: 4 is below it, 5 reaches it.
    assert_eq!(Phase::from_usage(4, 7), Phase::Normal);
    assert_eq!(Phase::from_usage(5, 7), Phase::Warning);
    // 85% of 7 is 5.95: 5 is below it, 6 reaches it.
    assert_eq!(Phase::from_usage(6, 7), Phase::Degraded);
    assert_eq!(Phase::from_usage(u128::MAX - 1, u128::MAX), Phase::Degraded);
    assert_eq!(Phase::from_usage(u128::MAX, u128::MAX), Phase::HardStop);
}

#[test]
fn phase_with_zero_limit() {
    assert_eq!(Phase::from_usage(0, 0), Phase::Normal);
    assert_eq!(Phase::from_usage(1, 0), Phase::HardStop);
}

#[test]
fn phase_never_deescalates() {
    let mut last = 0;
    for used in 0..=150u128 {
        let rank = match Phase::from_usage(used, 100) {
            Phase::Normal => 0,
            Phase::Warning => 1,
            Phase::Degraded => 2,
            Phase::HardStop => 3,
        };
        assert!(rank >= last);
        last = rank;
    }
}

#[test]
fn counter_with_zero_max_stays_normal() {
    let mut counter = ConservationCounter::new("none", 0);
    counter.add(10);
    assert_eq!(counter.phase(), Phase::Normal);
}

#[test]
fn counter_wraps_like_the_atomic_it_replaces() {
    let mut counter = ConservationCounter::new("wrap", 10);
    counter.add(u64::MAX);
    counter.add(2);
    assert_eq!(counter.current(), 1);
}

// ---------------------------------------------------------------------------
// Budget text
// ---------------------------------------------------------------------------

#[test]
fn budget_default_values() {
    let b = Budget::default();
    assert_eq!(b.max_time, TimeSpan::from_secs(30));
    assert_eq!(b.max_memory_mb, 500);
    assert_eq!(b.max_pages, 1000);
}

#[test]
fn budget_empty_text_keeps_defaults() {
    let b = parse_budget("").unwrap();
    assert_eq!(b.max_time, TimeSpan::from_secs(30));
    let b = parse_budget(" , ,").unwrap();
    assert_eq!(b.max_pages, 1000);
}

#[test]
fn budget_key_case_and_spaces() {
    let b = parse_budget(" TIME : 7s ,Pages:12").unwrap();
    assert_eq!(b.max_time, TimeSpan::from_secs(7));
    assert_eq!(b.max_pages, 12);
}

#[test]
fn budget_later_entries_override() {
    let b = parse_budget("time:1s,time:2s").unwrap();
    assert_eq!(b.max_time, TimeSpan::from_secs(2));
}

#[test]
fn budget_decimal_seconds() {
    let b = parse_budget("time:1.5").unwrap();
    assert_eq!(b.max_time, TimeSpan { secs: 1, nanos: 500_000_000 });
    let b = parse_budget("time:0.3").unwrap();
    assert_eq!(b.max_time.as_nanos(), 300_000_000);
    let b = parse_budget("time:2").unwrap();
    assert_eq!(b.max_time, TimeSpan::from_secs(2));
    let b = parse_budget("time:.25").unwrap();
    assert_eq!(b.max_time.as_nanos(), 250_000_000);
    let b = parse_budget("time:0.0000000005").unwrap();
    assert_eq!(b.max_time.as_nanos(), 1);
    let b = parse_budget("time:-0").unwrap();
    assert_eq!(b.max_time.as_nanos(), 0);
}

#[test]
fn budget_decimal_gigabytes() {
    assert_eq!(parse_budget("memory:0.25GB").unwrap().max_memory_mb, 256);
    assert_eq!(parse_budget("memory:1.5GB").unwrap().max_memory_mb, 1536);
    assert_eq!(parse_budget("memory:0.0009GB").unwrap().max_memory_mb, 0);
    assert_eq!(parse_budget("memory:-3GB").unwrap().max_memory_mb, 0);
    assert_eq!(parse_budget("memory:99999999999999999999GB").unwrap().max_memory_mb, u64::MAX);
}

#[test]
fn budget_seconds_with_exponent() {
    assert_eq!(parse_budget("time:1e3").unwrap().max_time, TimeSpan::from_secs(1000));
    assert_eq!(parse_budget("time:2.5E-1").unwrap().max_time.as_nanos(), 250_000_000);
    assert_eq!(parse_budget("time:15e-1").unwrap().max_time, TimeSpan { secs: 1, nanos: 500_000_000 });
    assert_eq!(parse_budget("time:+3e+0").unwrap().max_time, TimeSpan::from_secs(3));
    assert_eq!(parse_budget("time:1e-12").unwrap().max_time.as_nanos(), 0);
    assert_eq!(parse_budget("time:0e999999999999999999999999999999").unwrap().max_time.as_nanos(), 0);
    assert_eq!(
        parse_budget("time:7e-999999999999999999999999999999999").unwrap().max_time.as_nanos(),
        0
    );
    assert_eq!(parse_budget("time:0.000123e6").unwrap().max_time, TimeSpan::from_secs(123));
}

#[test]
fn budget_gigabytes_with_exponent_and_words() {
    assert_eq!(parse_budget("memory:1e1GB").unwrap().max_memory_mb, 10240);
    assert_eq!(parse_budget("memory:2.5e-1GB").unwrap().max_memory_mb, 256);
    assert_eq!(parse_budget("memory:5e-3GB").unwrap().max_memory_mb, 5);
    assert_eq!(parse_budget("memory:1e-5GB").unwrap().max_memory_mb, 0);
    assert_eq!(parse_budget("memory:1e30GB").unwrap().max_memory_mb, u64::MAX);
    assert_eq!(
        parse_budget("memory:1e99999999999999999999999999999999GB").unwrap().max_memory_mb,
        u64::MAX
    );
    assert_eq!(parse_budget("memory:infGB").unwrap().max_memory_mb, u64::MAX);
    assert_eq!(parse_budget("memory:+Infinity GB").unwrap_err(), "invalid memory value +Infinity GB: invalid float literal");
    assert_eq!(parse_budget("memory:-INFINITYGB").unwrap().max_memory_mb, 0);
    assert_eq!(parse_budget("memory:NaNGB").unwrap().max_memory_mb, 0);
}

#[test]
fn budget_malformed_exponents_are_refused() {
    assert_eq!(parse_budget("time:1e").unwrap_err(), "invalid time value 1e: invalid float literal");
    assert_eq!(parse_budget("time:1e+").unwrap_err(), "invalid time value 1e+: invalid float literal");
    assert_eq!(parse_budget("memory:eGB").unwrap_err(), "invalid memory value eGB: invalid float literal");
    assert_eq!(parse_budget("memory:1.e2.GB").unwrap_err(), "invalid memory value 1.e2.GB: invalid float literal");
}

#[test]
fn budget_checked_refuses_times_no_span_holds() {
    assert_eq!(parse_budget_checked("time:inf"), None);
    assert_eq!(parse_budget_checked("time:-INFINITY"), None);
    assert_eq!(parse_budget_checked("time:NaN"), None);
    assert_eq!(parse_budget_checked("time:-1"), None);
    assert_eq!(parse_budget_checked("time:-1e-3"), None);
    assert_eq!(parse_budget_checked("time:1e30"), None);
    assert_eq!(parse_budget_checked("time:18446744073709551616"), None);
    assert_eq!(parse_budget_checked("pages:5,time:inf"), None);
}

#[test]
fn budget_checked_agrees_elsewhere() {
    let b = parse_budget_checked("time:-0,pages:5").unwrap().unwrap();
    assert_eq!(b.max_time.as_nanos(), 0);
    assert_eq!(b.max_pages, 5);
    assert_eq!(
        parse_budget_checked("Xtime:inf").unwrap().unwrap_err(),
        "unknown budget key \"xtime\" (expected time, memory, pages)"
    );
    assert!(parse_budget_checked("foo:bar,time:inf").unwrap().is_err());
    assert_eq!(parse_budget_checked("memory:infGB").unwrap().unwrap().max_memory_mb, u64::MAX);
    assert_eq!(parse_budget_checked("time:1e18").unwrap().unwrap().max_time.as_secs(), 1_000_000_000_000_000_000);
}

#[test]
fn budget_plain_memory_is_megabytes() {
    assert_eq!(parse_budget("memory:750").unwrap().max_memory_mb, 750);
    assert_eq!(parse_budget("memory:+8MB").unwrap().max_memory_mb, 8);
}

#[test]
fn budget_error_missing_colon() {
    let e = parse_budget("time30s").unwrap_err();
    assert_eq!(e, "budget entry must be key:value, got \"time30s\"");
}

#[test]
fn budget_error_unknown_key() {
    let e = parse_budget("Colour:red").unwrap_err();
    assert_eq!(e, "unknown budget key \"colour\" (expected time, memory, pages)");
}

#[test]
fn budget_error_time_values() {
    let e = parse_budget("time:abcs").unwrap_err();
    assert_eq!(e, "invalid time value abcs: invalid digit found in string");
    let e = parse_budget("time:ms").unwrap_err();
    assert_eq!(e, "invalid time value ms: cannot parse integer from empty string");
    let e = parse_budget("time:fast").unwrap_err();
    assert_eq!(e, "invalid time value fast: invalid float literal");
}

#[test]
fn budget_error_memory_and_pages() {
    let e = parse_budget("memory:lotsMB").unwrap_err();
    assert_eq!(e, "invalid memory value lotsMB: invalid digit found in string");
    let e = parse_budget("memory:GB").unwrap_err();
    assert_eq!(e, "invalid memory value GB: cannot parse float from empty string");
    let e = parse_budget("pages:-1").unwrap_err();
    assert_eq!(e, "invalid pages value: invalid digit found in string");
    let e = parse_budget("memory:99999999999999999999").unwrap_err();
    assert_eq!(e, "invalid memory value 99999999999999999999: number too large to fit in target type");
}

#[test]
fn budget_first_error_stops_parsing() {
    let e = parse_budget("pages:x,foo:1").unwrap_err();
    assert!(e.starts_with("invalid pages value"));
}

#[test]
fn time_span_conversions() {
    let t = TimeSpan::from_millis(1500);
    assert_eq!(t.as_secs(), 1);
    assert_eq!(t.subsec_nanos(), 500_000_000);
    assert_eq!(t.as_nanos(), 1_500_000_000);
    assert_eq!(TimeSpan::from_total_nanos(2_000_000_001), TimeSpan { secs: 2, nanos: 1 });
}

// ---------------------------------------------------------------------------
// Guardian
// ---------------------------------------------------------------------------

#[test]
fn guardian_status_text_at_a_given_time() {
    let mut g = ResourceGuardian::new(Budget::default());
    g.update_memory(3 * 1024 + 5);
    g.update_font_cache(42);
    g.record_page();
    let status = at(&g, TimeSpan { secs: 2, nanos: 340_000_000 });
    assert_eq!(
        status,
        "Resource Guardian: 2.3s/30.0s compile, 3MB/500MB memory, 1 pages/1000 pages, fonts: 42 \
         | time: Normal, memory: Normal, pages: Normal"
    );
    g.mark_full_recompile();
    let status = at(&g, TimeSpan { secs: 27, nanos: 960_000_000 });
    assert_eq!(
        status,
        "Resource Guardian: 28.0s/30.0s compile, 3MB/500MB memory, 1 pages/1000 pages, fonts: 42 \
         | time: Degraded, memory: Normal, pages: Normal [FULL RECOMPILE]"
    );
}

#[test]
fn guardian_status_fractional_budget() {
    let b = Budget { max_time: TimeSpan::from_millis(1500), max_memory_mb: 1, max_pages: 1 };
    let g = ResourceGuardian::new(b);
    let status = at(&g, TimeSpan::from_secs(2));
    assert!(status.starts_with("Resource Guardian: 2.0s/1.5s compile, 0MB/1MB memory"));
    assert!(status.contains("time: HardStop"));
}

#[test]
fn guardian_time_phase_follows_elapsed() {
    let g = ResourceGuardian::new(Budget::default());
    assert!(!g.should_stop_at(TimeSpan::from_secs(29)));
    assert!(g.should_stop_at(TimeSpan::from_secs(30)));
    let s = g.snapshot_at(TimeSpan::from_secs(21));
    assert_eq!(s.time_phase, Phase::Warning);
    assert_eq!(s.elapsed, TimeSpan::from_secs(21));
}

#[test]
fn guardian_memory_peak_only_rises() {
    let mut g = ResourceGuardian::new(Budget { max_memory_mb: 1, ..Budget::default() });
    g.update_memory(1000);
    g.update_memory(10);
    let s = g.snapshot_at(TimeSpan::from_secs(0));
    assert_eq!(s.memory_kb, 1000);
    assert_eq!(s.memory_phase, Phase::Degraded);
    g.update_memory(1024);
    assert!(g.should_stop_at(TimeSpan::from_secs(0)));
}

#[test]
fn guardian_chapter_counts_its_own_pages() {
    let mut g = ResourceGuardian::new(Budget::default());
    g.record_page();
    g.record_page();
    g.begin_chapter("A");
    g.record_page();
    g.end_chapter();
    let s = g.snapshot();
    assert_eq!(s.chapters[0].pages, 1);
    g.begin_chapter("B");
    g.end_chapter();
    g.end_chapter();
    let s = g.snapshot();
    assert_eq!(s.chapters.len(), 2);
    assert_eq!(s.chapters[1].pages, 0);
    assert_eq!(s.chapters[0].memory_delta_kb, 0);
    assert!(s.chapters[0].cpu_time.nanos < 1_000_000_000);
    assert_eq!(s.pages, 3);
}

#[test]
fn guardian_budget_accessor() {
    let g = ResourceGuardian::new(Budget { max_pages: 9, ..Budget::default() });
    assert_eq!(g.budget().max_pages, 9);
}

#[test]
fn guardian_status_default_budget_shows_tenths() {
    let g = ResourceGuardian::new(Budget::default());
    assert_eq!(
        at(&g, TimeSpan::from_millis(1200)),
        "Resource Guardian: 1.2s/30.0s compile, 0MB/500MB memory, 0 pages/1000 pages, fonts: 0 \
         | time: Normal, memory: Normal, pages: Normal"
    );
    assert!(!status_now(&g).contains("[FULL RECOMPILE]"));
}

#[test]
fn guardian_status_times_come_as_given() {
    let g = ResourceGuardian::new(Budget::default());
    // 0.15 s is just below 0.15 as an f64, so it shows as 0.1.
    assert!(at(&g, TimeSpan::from_millis(150)).starts_with("Resource Guardian: 0.1s/30.0s compile"));
    assert!(g
        .status_at(TimeSpan::from_secs(1), "x", "y")
        .starts_with("Resource Guardian: xs/ys compile, 0MB/500MB memory"));
}

/// A span as `f64` seconds with one decimal, as the status line shows it.
fn tenths(t: TimeSpan) -> String {
    format!("{:.1}", t.secs as f64 + t.nanos as f64 / 1e9)
}

/// The status line at `elapsed`, with the times formatted as seconds.
fn at(g: &ResourceGuardian, elapsed: TimeSpan) -> String {
    g.status_at(elapsed, &tenths(elapsed), &tenths(g.budget().max_time))
}

/// The status line now.
fn status_now(g: &ResourceGuardian) -> String {
    at(g, g.elapsed())
}

#[test]
fn budget_integer_errors_follow_the_first_failure() {
    assert_eq!(
        parse_budget("pages:99999999999999999999999x").unwrap_err(),
        "invalid pages value: number too large to fit in target type"
    );
    assert_eq!(
        parse_budget("pages:9x9999999999999999999999").unwrap_err(),
        "invalid pages value: invalid digit found in string"
    );
    assert_eq!(parse_budget("pages:+").unwrap_err(), "invalid pages value: invalid digit found in string");
    assert_eq!(
        parse_budget("pages:").unwrap_err(),
        "invalid pages value: cannot parse integer from empty string"
    );
    assert_eq!(
        parse_budget("time:-5s").unwrap_err(),
        "invalid time value -5s: invalid digit found in string"
    );
}
