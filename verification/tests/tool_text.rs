use hip::read::{read_window, render_lines, DEFAULT_LIMIT};
use hip::read_cache::{bytes_held, clear, get, invalidate, len, put, stats, ReadCache};
use hip::schema::ChatMessage;
use hip::search::{
    def_regex_source, effective_head, format_output, has_no_matches, no_match_message, no_match_with_filter,
    sanitize_for_regex, search_line_path, split_content_line, Mode, DEFAULT_HEAD_CONTENT, DEFAULT_HEAD_FILES,
};
use hip::session_store::{estimate_tokens, file_name_for, format_resume_row, sanitize, ResumeEntry};
use hip::setup::{port_from_url, python_candidates, python_version_ok, strip_ansi_len_local, truncate_log_line, MIN_PY_MINOR};
use hip::sticky_bar::{paint_bottom, paint_bottom_with_right};
use hip::tree::{dir_listing, tree_depth, tree_listing, EntryKind, WalkItem, MAX_ENTRIES};
use hip::watch::{diff_extensions, diff_report, truncate_line, FileSnap};

fn numbered_file(n: usize) -> String {
    let mut s = String::new();
    for i in 1..=n {
        s.push_str(&format!("line{}\n", i));
    }
    s
}

#[test]
fn read_default_returns_first_lines_with_line_numbers() {
    let body = numbered_file(10);
    let (off, lim) = read_window(None, 20, None, None);
    assert_eq!((off, lim), (1, DEFAULT_LIMIT));
    let out = render_lines(&body, off, lim, None);
    assert!(out.contains("    1\tline1"), "missing line1 row:\n{}", out);
    assert!(out.contains("   10\tline10"), "missing line10 row:\n{}", out);
    assert!(!out.contains('>'), "unexpected target marker without `around`:\n{}", out);
}

#[test]
fn read_around_centers_on_target_with_context() {
    let body = numbered_file(50);
    let (off, lim) = read_window(Some(25), 3, None, None);
    assert_eq!((off, lim), (22, 7));
    let out = render_lines(&body, off, lim, Some(25));
    assert!(out.contains("line22"), "missing leading context line22:\n{}", out);
    assert!(out.contains("line25"), "missing target line25:\n{}", out);
    assert!(out.contains("line28"), "missing trailing context line28:\n{}", out);
    assert!(!out.contains("line21"), "should NOT include line21:\n{}", out);
    assert!(!out.contains("line29"), "should NOT include line29:\n{}", out);
    assert!(out.contains(">   25\tline25"), "target marker missing:\n{}", out);
}

#[test]
fn read_around_clamps_at_file_start() {
    let body = numbered_file(10);
    let (off, lim) = read_window(Some(2), 5, None, None);
    assert_eq!((off, lim), (1, 7));
    let out = render_lines(&body, off, lim, Some(2));
    assert!(out.contains("line1"), "should include line1:\n{}", out);
    assert!(out.contains("line2"), "should include target line2:\n{}", out);
    assert!(out.contains("line7"), "should include line7:\n{}", out);
    assert!(!out.contains("line8"), "should stop at line7:\n{}", out);
}

#[test]
fn read_window_offset_and_limit_and_empty_range() {
    assert_eq!(read_window(None, 20, Some(0), Some(5)), (1, 5));
    assert_eq!(read_window(Some(0), 20, Some(3), None), (3, DEFAULT_LIMIT));
    assert_eq!(render_lines("a\nb\nc\n", 2, 1, Some(2)), ">    2\tb\n");
    assert_eq!(render_lines("a\n", 5, 10, None), "(empty range; file has 1 lines)\n");
    assert_eq!(render_lines("", 1, 10, None), "(empty range; file has 0 lines)\n");
}

#[test]
fn read_cache_hits_only_on_matching_metadata() {
    let mut c = ReadCache::new();
    assert_eq!(get(&mut c, "/a", 10, 3), None);
    put(&mut c, "/a", 10, 3, "abc".to_string());
    assert_eq!(get(&mut c, "/a", 10, 3), Some("abc".to_string()));
    assert_eq!(get(&mut c, "/a", 11, 3), None);
    assert_eq!(get(&mut c, "/a", 10, 4), None);
    let s = stats(&c);
    assert_eq!((s.hits, s.misses, s.invalidations), (1, 1, 0));
    assert_eq!(len(&c), 1);
    assert_eq!(bytes_held(&c), 3);
}

#[test]
fn read_cache_put_replaces_and_invalidate_drops() {
    let mut c = ReadCache::new();
    put(&mut c, "/a", 1, 1, "x".to_string());
    put(&mut c, "/b", 1, 2, "é".to_string());
    put(&mut c, "/a", 2, 2, "yy".to_string());
    assert_eq!(len(&c), 2);
    assert_eq!(bytes_held(&c), 4);
    assert_eq!(get(&mut c, "/a", 1, 1), None);
    assert_eq!(get(&mut c, "/a", 2, 2), Some("yy".to_string()));
    invalidate(&mut c, "/a");
    invalidate(&mut c, "/missing");
    assert_eq!(get(&mut c, "/a", 2, 2), None, "post-invalidate should miss");
    assert_eq!(stats(&c).invalidations, 1);
    clear(&mut c);
    assert_eq!(len(&c), 0);
    let s = stats(&c);
    assert_eq!((s.hits, s.misses, s.invalidations), (0, 0, 0));
}

#[test]
fn search_head_limits() {
    assert_eq!(effective_head(Mode::Content, None), Some(DEFAULT_HEAD_CONTENT));
    assert_eq!(effective_head(Mode::Count, None), Some(DEFAULT_HEAD_FILES));
    assert_eq!(effective_head(Mode::FilesWithMatches, Some(0)), None);
    assert_eq!(effective_head(Mode::Content, Some(7)), Some(7));
}

#[test]
fn search_format_output_per_mode() {
    assert_eq!(
        format_output(Mode::FilesWithMatches, false, &["a.rs", "b.rs", "c.rs"], Some(2)),
        "3 file(s) matched (showing 2, truncated):\na.rs\nb.rs\n"
    );
    assert_eq!(
        format_output(Mode::Count, false, &["api.rs:2", "user.rs:1"], None),
        "3 match(es) across 2 file(s) (showing 2):\napi.rs:2\nuser.rs:1\n"
    );
    assert_eq!(
        format_output(Mode::Content, true, &["a.rs:1:fn x()", "b.rs:4:fn y()"], Some(1)),
        "2 line(s), showing 1 (definitions_only):\na.rs:1:fn x()\n"
    );
}

#[test]
fn search_no_match_messages() {
    let m = no_match_message("zzz", "src");
    assert_eq!(m, "(no matches for /zzz/ in src; try a shorter pattern, -i, or a different path)\n");
    assert!(has_no_matches(&m));
    let f = no_match_with_filter("x", ".", "definitions_only");
    assert!(f.starts_with("(no matches for /x/ in . after definitions_only filter"));
    assert!(has_no_matches(&f));
    assert!(!has_no_matches("1 file(s) matched"));
}

#[test]
fn search_splits_and_names_paths() {
    assert_eq!(
        split_content_line("src/a.rs:12:let x = 1;"),
        Some(("src/a.rs".to_string(), "12".to_string(), "let x = 1;".to_string()))
    );
    assert_eq!(split_content_line("src/a.rs-11-context"), None);
    assert_eq!(split_content_line("a.rs:x1:text"), None);
    assert_eq!(search_line_path("src/a.rs:12:x", Mode::Content), "src/a.rs");
    assert_eq!(search_line_path("a:b.rs:3", Mode::Count), "a:b.rs");
    assert_eq!(search_line_path("a.rs", Mode::FilesWithMatches), "a.rs");
}

#[test]
fn search_definitions_regex_uses_longest_identifier() {
    assert_eq!(sanitize_for_regex("addEventListener('click'"), "addEventListener");
    assert_eq!(sanitize_for_regex("ab cd"), "ab");
    assert_eq!(sanitize_for_regex("(*)"), "");
    assert_eq!(def_regex_source("(*)"), None);
    let src = def_regex_source("make_widget(").unwrap();
    assert!(src.ends_with("\\s+(\\w*\\bmake_widget\\b\\w*)"), "{}", src);
    assert!(src.starts_with("^\\s*(pub\\s+)?(async\\s+)?(fn|class"), "{}", src);
}

#[test]
fn session_ids_are_sanitized_into_file_names() {
    assert_eq!(sanitize("a/b c"), "a_b_c");
    assert_eq!(sanitize("../etc"), "___etc");
    assert_eq!(file_name_for("x.y-Z_9"), "x_y-Z_9.json");
}

#[test]
fn session_token_estimate_is_chars_over_four() {
    let conv = vec![ChatMessage::user("abcdefgh"), ChatMessage::assistant_text("éé")];
    assert_eq!(estimate_tokens(&conv), 2);
    assert_eq!(estimate_tokens(&[]), 0);
}

#[test]
fn session_token_estimate_counts_chars_not_bytes() {
    let conv = vec![ChatMessage::user("éééééééé")];
    assert_eq!(estimate_tokens(&conv), 2);
}

#[test]
fn setup_port_from_url() {
    assert_eq!(port_from_url("http://127.0.0.1:8088/v1"), Some(8088));
    assert_eq!(port_from_url("http://localhost/v1"), None);
    assert_eq!(port_from_url("localhost:8080"), None);
    assert_eq!(port_from_url("http://h:99999"), None);
}

#[test]
fn setup_truncate_log_line_keeps_the_end() {
    assert_eq!(truncate_log_line("abcdefghij", 6), "...hij");
    assert_eq!(truncate_log_line("abc", 6), "abc");
    assert_eq!(truncate_log_line("abcdef", 2), "...");
    assert_eq!(truncate_log_line("abc", 0), "");
}

#[test]
fn setup_python_helpers() {
    assert_eq!(strip_ansi_len_local("\x1b[32mok\x1b[0m"), 2);
    let c = python_candidates();
    assert_eq!(c.len(), 12);
    assert_eq!(c[0], "python3.20");
    assert_eq!(c[9], "python3.11");
    assert_eq!(c[11], "python");
    assert!(python_version_ok(Some((3, MIN_PY_MINOR))));
    assert!(!python_version_ok(Some((3, 10))));
    assert!(!python_version_ok(Some((4, 0))));
    assert!(!python_version_ok(None));
}

#[test]
fn sticky_bar_paints_reserved_row() {
    assert_eq!(paint_bottom(0, 80, "x", 1), None);
    assert_eq!(paint_bottom(24, 80, "hi", 2), Some("\x1b7\x1b[24;1H\x1b[2Khi\x1b8".to_string()));
    assert_eq!(
        paint_bottom_with_right(24, 20, "L", 1, "R", 1),
        Some("\x1b7\x1b[24;1H\x1b[2KL\x1b[24;20HR\x1b8".to_string())
    );
    assert_eq!(
        paint_bottom_with_right(24, 4, "L", 1, "R", 1),
        Some("\x1b7\x1b[24;1H\x1b[2KL\x1b8".to_string())
    );
}

#[test]
fn watch_helpers() {
    assert!(diff_extensions().contains(&"rs"));
    assert_eq!(diff_extensions().len(), 13);
    assert_eq!(truncate_line("hello   \t", 10), "hello");
    assert_eq!(truncate_line("abcdef", 3), "abc\x1b[2m…\x1b[0m");
}

fn snap(size: u64, mtime: u64, content: Option<&str>) -> FileSnap {
    FileSnap { size, mtime, head: [0u8; 8], content: content.map(|s| s.to_string()) }
}

#[test]
fn diff_report_no_changes() {
    let before = vec![("a.rs".to_string(), snap(3, 1, Some("x\n")))];
    let after = before.clone();
    assert_eq!(diff_report(&before, &after), vec!["\n\x1b[2m─ diff ─ no file changes\x1b[0m".to_string()]);
}

#[test]
fn diff_report_lists_added_modified_removed() {
    let before = vec![
        ("a.rs".to_string(), snap(6, 1, Some("a\nb\nc\n"))),
        ("gone.txt".to_string(), snap(4, 1, None)),
    ];
    let after = vec![
        ("a.rs".to_string(), snap(6, 2, Some("a\nB\nc\n"))),
        ("new.md".to_string(), snap(12, 2, Some("hello"))),
    ];
    let rows = diff_report(&before, &after);
    assert_eq!(
        rows,
        vec![
            "\n\x1b[2m─ diff ─ 1 added, 1 modified, 1 removed\x1b[0m".to_string(),
            "  \x1b[0;32mA\x1b[0m       12 b  new.md".to_string(),
            "  \x1b[0;33mM\x1b[0m        6 b     +0 b  net +0 lines  @L2  a.rs".to_string(),
            "    \x1b[0;31m-    2\x1b[0m  b".to_string(),
            "    \x1b[0;32m+    2\x1b[0m  B".to_string(),
            "  \x1b[0;31mD\x1b[0m            gone.txt".to_string(),
        ]
    );
}

#[test]
fn diff_report_collapses_without_content_and_caps_rows() {
    let big_before: String = (0..30).map(|i| format!("old{}\n", i)).collect();
    let big_after: String = (0..10).map(|i| format!("new{}\n", i)).collect();
    let before = vec![
        ("big.rs".to_string(), snap(100, 1, Some(&big_before))),
        ("bin.dat".to_string(), snap(50, 1, None)),
    ];
    let after = vec![
        ("big.rs".to_string(), snap(90, 2, Some(&big_after))),
        ("bin.dat".to_string(), snap(40, 2, None)),
    ];
    let rows = diff_report(&before, &after);
    assert_eq!(rows[1], "  \x1b[0;33mM\x1b[0m       90 b    -10 b  net -20 lines  @L1  big.rs");
    // 30 removed and 10 added share 20 rows: 15 removed, 5 added.
    let removed_rows = rows.iter().filter(|r| r.contains("\x1b[0;31m-")).count();
    let added_rows = rows.iter().filter(|r| r.contains("\x1b[0;32m+")).count();
    assert_eq!((removed_rows, added_rows), (15, 5));
    assert!(rows.contains(&"    \x1b[2m       ... +15 more removed\x1b[0m".to_string()));
    assert!(rows.contains(&"    \x1b[2m       ... +5 more added\x1b[0m".to_string()));
    assert_eq!(rows.last().unwrap(), "  \x1b[0;33mM\x1b[0m       40 b    -10 b  bin.dat  (no content snapshot)");
}

#[test]
fn resume_rows_show_age_place_turns_and_prompt() {
    let e = ResumeEntry {
        session_id: "chat-1700000000".to_string(),
        last_ts: 1_000,
        last_prompt: "fix the\nbuild".to_string(),
        cwd: "/home/dan/proj".to_string(),
        turns: 3,
    };
    assert_eq!(
        format_resume_row(&e, 1_000 + 7_200, Some("/home/dan")),
        "  2h · ~/proj  (3 turns) [chat-1700000000]\n      \x1b[2m\"fix the build\"\x1b[0m"
    );
    let long = ResumeEntry {
        session_id: "session-with-a-rather-long-identifier".to_string(),
        last_ts: 50,
        last_prompt: String::new(),
        cwd: String::new(),
        turns: 1,
    };
    assert_eq!(
        format_resume_row(&long, 20, None),
        "  0s · (unknown cwd)  (1 turn) […a-rather-long-identifier]\n      \x1b[2m(no prompt)\x1b[0m"
    );
}

fn item(path: &str, depth: usize, name: &str, kind: Option<EntryKind>, size: u64) -> WalkItem {
    WalkItem { path: path.to_string(), depth, name: name.to_string(), kind, size }
}

#[test]
fn tree_lists_files_within_depth() {
    let items = vec![
        item("/r", 0, "", Some(EntryKind::Dir), 0),
        item("/r/sub", 1, "sub", Some(EntryKind::Dir), 0),
        item("/r/sub/b.txt", 2, "sub/b.txt", Some(EntryKind::File), 5),
        item("/r/sub/deeper/c.txt", 3, "sub/deeper/c.txt", Some(EntryKind::File), 5),
        item("/r/a.txt", 1, "a.txt", Some(EntryKind::File), 5),
        item("/r/link", 1, "link", Some(EntryKind::Link), 0),
        item("/r/target/x", 2, "target/x", Some(EntryKind::File), 9),
        item("/r/odd", 1, "odd", None, 0),
    ];
    assert_eq!(
        tree_listing("/r", 2, false, &items),
        "/r (depth=2, hidden=false)\n  a.txt  (5 b)\n  link -> link\n  sub/\n    b.txt  (5 b)\n\n(2 files, 1 dirs, 10 b)\n"
    );
    let one = tree_listing("/r", tree_depth(Some(1)), true, &items);
    assert!(one.contains("  a.txt  (5 b)") && !one.contains("b.txt  ("), "{}", one);
    assert!(one.starts_with("/r (depth=1, hidden=true)\n"));
    assert_eq!(tree_depth(None), 2);
    assert_eq!(tree_depth(Some(0)), 1);
    assert_eq!(tree_depth(Some(9)), 6);
}

#[test]
fn tree_truncates_after_max_entries() {
    let items: Vec<WalkItem> = (0..MAX_ENTRIES + 3)
        .map(|i| item(&format!("/r/f{:04}", i), 1, &format!("f{:04}", i), Some(EntryKind::File), 1))
        .collect();
    let out = tree_listing("/r", 2, false, &items);
    assert!(out.ends_with(&format!("\n({} files, 0 dirs, {} b; truncated at {})\n", MAX_ENTRIES + 1, MAX_ENTRIES + 1, MAX_ENTRIES)), "{}", &out[out.len() - 80..]);
    assert_eq!(out.lines().filter(|l| l.starts_with("  f")).count(), MAX_ENTRIES);
}

#[test]
fn list_sorts_by_kind_then_name() {
    let entries = vec![
        ("file".to_string(), "b.rs".to_string(), 12),
        ("dir".to_string(), "src".to_string(), 0),
        ("file".to_string(), "a.rs".to_string(), 1234),
        ("link".to_string(), "cur".to_string(), 0),
    ];
    assert_eq!(
        dir_listing("/p", entries),
        Some(
            "/p\n  dir           0 src\n  file       1234 a.rs\n  file         12 b.rs\n  link          0 cur\n"
                .to_string()
        )
    );
    assert_eq!(dir_listing("/empty", vec![]), None);
}

#[test]
fn first_run_is_when_the_marker_is_missing() {
    assert!(hip::setup::is_first_run(false));
    assert!(!hip::setup::is_first_run(true));
}
