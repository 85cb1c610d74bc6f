use hip::dry_run_log::{drain, record, record_with_bytes, summarize, WouldChange};
use hip::logo::{block_rows, flower_rows, logo_lines, role_to_ansi};
use hip::peek_log::{format_ts, peek_count, peek_report, RunRow};
use hip::sparkline::format_age;
use hip::theme::{accent, bad, current, dim, good, highlight, paint, set_runtime, thinking, warn, Theme, RESET};
use hip::updater::{cmp_version, detect_platform, format_notice};

#[test]
fn record_then_drain_returns_entries_in_order() {
    let mut log: Vec<WouldChange> = Vec::new();
    let _ = drain(&mut log);
    record(&mut log, "create", "/tmp/a.txt".to_string());
    record(&mut log, "bash", "echo hi".to_string());
    record_with_bytes(&mut log, "replace", "/tmp/b.rs".to_string(), 512);
    let out = drain(&mut log);
    assert_eq!(out.len(), 3);
    assert_eq!(out[0].kind, "create");
    assert_eq!(out[0].target, "/tmp/a.txt");
    assert_eq!(out[0].bytes, 0);
    assert_eq!(out[1].kind, "bash");
    assert_eq!(out[2].kind, "replace");
    assert_eq!(out[2].bytes, 512);
    let again = drain(&mut log);
    assert!(again.is_empty());
}

#[test]
fn block_has_6_rows() {
    assert_eq!(block_rows().len(), 6);
}

#[test]
fn flower_has_6_rows_matching_block() {
    assert_eq!(
        flower_rows().len(),
        block_rows().len(),
        "flower must align with block letters"
    );
}

#[test]
fn role_to_ansi_known_roles_return_nonempty() {
    for role in &["lavender", "violet_top", "violet_bot", "gold", "stem", "stem_dim"] {
        assert!(!role_to_ansi(role).is_empty(), "expected ANSI for role {}", role);
    }
    assert_eq!(role_to_ansi("unknown_role"), "");
}

#[test]
fn logo_lines_pair_each_block_row_with_a_flower_row() {
    let lines = logo_lines(Theme::Mono);
    assert_eq!(lines.len(), block_rows().len() + 4);
    assert_eq!(lines[0], "");
    for (i, row) in block_rows().iter().enumerate() {
        assert!(lines[i + 1].contains(row), "row {} lost its letters: {:?}", i, lines[i + 1]);
        assert!(lines[i + 1].contains(flower_rows()[i].0), "row {} lost its flower: {:?}", i, lines[i + 1]);
    }
    assert!(lines[8].contains("MTPLX"), "{:?}", lines[8]);
}

#[test]
fn format_age_seconds() {
    assert_eq!(format_age(0), "0s ago");
    assert_eq!(format_age(30), "30s ago");
    assert_eq!(format_age(59), "59s ago");
}

#[test]
fn format_age_minutes() {
    assert_eq!(format_age(60), "1m ago");
    assert_eq!(format_age(3599), "59m ago");
}

#[test]
fn format_age_hours() {
    assert_eq!(format_age(3600), "1h ago");
    assert_eq!(format_age(86399), "23h ago");
}

#[test]
fn format_age_days() {
    assert_eq!(format_age(86400), "1d ago");
    assert_eq!(format_age(86400 * 7), "7d ago");
}

#[test]
fn parse_accepts_aliases() {
    assert_eq!(Theme::parse("iris"), Some(Theme::Iris));
    assert_eq!(Theme::parse("dark"), Some(Theme::Iris));
    assert_eq!(Theme::parse("violet"), Some(Theme::Iris));
    assert_eq!(Theme::parse("purple"), Some(Theme::Iris));
    assert_eq!(Theme::parse("Light"), Some(Theme::Light));
    assert_eq!(Theme::parse("MONO"), Some(Theme::Mono));
    assert_eq!(Theme::parse("none"), Some(Theme::Mono));
    assert_eq!(Theme::parse("off"), Some(Theme::Mono));
    assert_eq!(Theme::parse("rainbow"), None);
}

#[test]
fn runtime_override_beats_env() {
    let mut rt: Option<Theme> = None;
    set_runtime(&mut rt, Theme::Light);
    assert_eq!(current(rt, Some("dark")), Theme::Light);
}

#[test]
fn env_theme_applies_without_override_and_defaults_to_iris() {
    assert_eq!(current(None, Some("  Mono ")), Theme::Mono);
    assert_eq!(current(None, Some("rainbow")), Theme::Iris);
    assert_eq!(current(None, None), Theme::Iris);
}

#[test]
fn mono_emits_no_color_codes_for_good_warn() {
    let mut rt: Option<Theme> = None;
    set_runtime(&mut rt, Theme::Mono);
    let t = current(rt, None);
    assert_eq!(good(t), "");
    assert_eq!(warn(t), "");
    assert_eq!(highlight(t), "");
    assert!(accent(t).contains("\x1b[1m"));
}

#[test]
fn iris_emits_256_color_codes() {
    let mut rt: Option<Theme> = None;
    set_runtime(&mut rt, Theme::Iris);
    let t = current(rt, None);
    assert!(accent(t).contains("\x1b[38;5;141m"), "expected soft-violet accent, got {:?}", accent(t));
    assert!(highlight(t).contains("\x1b[38;5;183m"), "expected lavender highlight, got {:?}", highlight(t));
    assert!(warn(t).contains("\x1b[38;5;220m"), "expected gold warn, got {:?}", warn(t));
}

#[test]
fn paint_wraps_with_reset() {
    assert_eq!(paint("\x1b[1m", "hi"), "\x1b[1mhi\x1b[0m");
    assert_eq!(paint("", "plain"), "plain");
}

#[test]
fn theme_names_round_trip_through_parse() {
    for t in [Theme::Iris, Theme::Light, Theme::Mono] {
        assert_eq!(Theme::parse(t.name()), Some(t));
    }
    assert_eq!(RESET, "\x1b[0m");
    assert_eq!(dim(Theme::Mono), "\x1b[2m");
    assert!(!bad(Theme::Iris).is_empty());
    assert!(!thinking(Theme::Light).is_empty());
}

#[test]
fn format_ts_returns_iso_like_string() {
    let s = format_ts(1704067200);
    assert!(s.starts_with("2024-01-01"), "expected 2024-01-01 prefix, got: {}", s);
}

#[test]
fn format_ts_zero_returns_placeholder() {
    let s = format_ts(0);
    assert!(s.contains("?"));
}

#[test]
fn format_ts_exact_time_of_day() {
    assert_eq!(format_ts(1704067200 + 3600 + 2 * 60 + 3), "2024-01-01 01:02");
    assert_eq!(format_ts(951782400), "2000-02-29 00:00");
    assert_eq!(format_ts(0), "????-??-?? ??:??");
}

#[test]
fn cmp_version_handles_v_prefix_and_numeric_compare() {
    assert!(cmp_version("v0.1.2", "v0.1.1").is_gt());
    assert!(cmp_version("0.1.2", "v0.1.1").is_gt());
    assert!(cmp_version("v0.1.0", "0.1.1").is_lt());
    assert!(cmp_version("v1.0.0", "0.99.99").is_gt());
    assert_eq!(cmp_version("v0.1.1", "0.1.1"), std::cmp::Ordering::Equal);
}

#[test]
fn cmp_version_falls_back_to_lexical_on_parse_failure() {
    assert_eq!(cmp_version("1.a", "1.b"), std::cmp::Ordering::Less);
    assert_eq!(cmp_version("1.b", "1.a"), std::cmp::Ordering::Greater);
    assert_eq!(cmp_version("1.x", "1.x"), std::cmp::Ordering::Equal);
    assert_eq!(cmp_version("2.0", "10.a"), std::cmp::Ordering::Greater);
}

#[test]
fn cmp_version_numeric_not_lexical() {
    assert!(cmp_version("0.10.0", "0.9.0").is_gt());
    assert!(cmp_version("1.2", "1.2.1").is_lt());
}

#[test]
fn detect_platform_returns_supported_pair_or_none() {
    assert_eq!(detect_platform("macos", "aarch64"), Some(("darwin", "arm64")));
    assert_eq!(detect_platform("macos", "x86_64"), Some(("darwin", "x86_64")));
    assert_eq!(detect_platform("linux", "x86_64"), Some(("linux", "x86_64")));
    assert_eq!(detect_platform("windows", "x86_64"), None);
    assert_eq!(detect_platform("linux", "riscv64"), None);
}

#[test]
fn format_notice_names_both_versions() {
    let n = format_notice(Theme::Mono, "v0.2.0", "v0.1.0");
    assert!(n.contains("v0.2.0"), "{}", n);
    assert!(n.contains("v0.1.0"), "{}", n);
}

#[test]
fn dry_run_summary_groups_by_kind() {
    let mut log: Vec<WouldChange> = Vec::new();
    record_with_bytes(&mut log, "create", "/a".to_string(), 10);
    record(&mut log, "bash", "make".to_string());
    record_with_bytes(&mut log, "replace", "/b".to_string(), 5);
    record_with_bytes(&mut log, "create", "/c".to_string(), 1);
    record_with_bytes(&mut log, "overwrite", "/d".to_string(), 7);
    let s = summarize(&log);
    assert_eq!(s.create, vec![("/a".to_string(), 10), ("/c".to_string(), 1)]);
    assert_eq!(s.overwrite, vec![("/d".to_string(), 7)]);
    assert_eq!(s.replace, vec![("/b".to_string(), 5)]);
    assert_eq!(s.bash, vec!["make".to_string()]);
    assert_eq!(s.total_bytes, 23);
}

fn run_row(ts: u64, success: Option<bool>, prompt: &str, error: Option<&str>) -> RunRow {
    RunRow {
        ts,
        mode: "chat-agent".to_string(),
        success,
        prompt: prompt.to_string(),
        rounds: 2,
        tool_calls: 3,
        total_ms: 1500,
        rate: "41 t/s".to_string(),
        error: error.map(|e| e.to_string()),
    }
}

#[test]
fn peek_report_shows_last_runs_oldest_first() {
    let rows = vec![
        run_row(1704067200, Some(true), "first", None),
        run_row(1704067260, Some(false), "second", Some("boom")),
        run_row(1704067320, None, "third", Some("")),
    ];
    let out = peek_report(&rows, 2, false, "runs.jsonl");
    assert_eq!(
        out,
        "─ peek_log ─ showing 2 of 3 row(s) (file has more)\n\
         \x20 ERR [2024-01-01 00:01] chat-agent    1500ms r=2 tc=3 41 t/s\n\
         \x20      \"second\"\n\
         \x20      err: boom\n\
         \x20 ERR [2024-01-01 00:02] chat-agent    1500ms r=2 tc=3 41 t/s\n\
         \x20      \"third\"\n"
    );
    let failed = peek_report(&rows, 10, true, "runs.jsonl");
    assert!(failed.starts_with("─ peek_log ─ showing 1 of 1 row(s) (failed_only)\n"), "{}", failed);
    assert_eq!(
        peek_report(&[], 10, true, "runs.jsonl"),
        "(no entries in runs.jsonl (failed_only filter; use without to see all))\n"
    );
    assert_eq!(peek_count(None), 10);
    assert_eq!(peek_count(Some(0)), 1);
    assert_eq!(peek_count(Some(99)), 50);
}
