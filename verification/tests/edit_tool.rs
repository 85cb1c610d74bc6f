use hip::edit::{edit_gate, gate_message, EditGate};
use hip::edit::{
    apply_edit_in_memory, closest_block_by_trigram, closest_line_by_trigram, diagnose_missing, is_crlf,
    is_markdown_path, levenshtein, normalize_quotes, preserve_quote_style, preview_diff,
    strip_trailing_whitespace, to_crlf, EditError,
};

#[test]
fn diagnose_crlf_difference() {
    let h = "let x = 1;\r\nlet y = 2;\r\n";
    let n = "let x = 1;\nlet y = 2;\n";
    let hint = diagnose_missing(h, n);
    assert!(hint.contains("CRLF"), "expected CRLF hint, got: {}", hint);
}

#[test]
fn diagnose_whitespace_difference() {
    let h = "  let x = 1;\n";
    let n = "let x = 1;";
    let hint = diagnose_missing(h, n);
    assert!(hint.contains("whitespace"), "expected whitespace hint, got: {}", hint);
}

#[test]
fn diagnose_case_difference() {
    let h = "let x = 1;\nlet name = String::new();\n";
    let n = "LET name = String::new();";
    let hint = diagnose_missing(h, n);
    assert!(hint.contains("case"), "expected case hint, got: {}", hint);
}

#[test]
fn diagnose_fuzzy_typo_suggests_closest_line() {
    let h = "fn main() {\n    let count = 0;\n    println!(\"hi\");\n}\n";
    let n = "let counter = 0;";
    let hint = diagnose_missing(h, n);
    assert!(hint.contains("closest line in file is L"), "expected fuzzy hint, got: {}", hint);
    assert!(hint.contains("let count = 0"), "should reference the actual line, got: {}", hint);
}

#[test]
fn diagnose_no_hint_when_unrelated() {
    let h = "totally\nunrelated\ntext\nhere\n";
    let n = "fn very_specific_function() { return 42; }";
    let hint = diagnose_missing(h, n);
    assert!(hint.is_empty(), "expected empty hint for unrelated needle, got: {}", hint);
}

#[test]
fn diagnose_multiline_typo_suggests_block() {
    let h = "fn main() {\n    let count = 0;\n    println!(\"hi\");\n    count + 1\n}\n";
    let n = "    let counter = 0;\n    println!(\"hi\");\n    counter + 1";
    let hint = diagnose_missing(h, n);
    assert!(hint.contains("closest 3-line block"), "expected multi-line hint, got: {}", hint);
    assert!(hint.contains("L2-L4"), "expected L2-L4 range, got: {}", hint);
}

#[test]
fn diagnose_no_multiline_hint_when_unrelated() {
    let h = "alpha\nbeta\ngamma\ndelta\nepsilon\nzeta\n";
    let n = "fn very_specific(a, b) {\n    return a + b;\n}";
    let hint = diagnose_missing(h, n);
    assert!(hint.is_empty(), "expected empty hint for unrelated multi-line needle, got: {}", hint);
}

#[test]
fn closest_block_picks_aligned_window() {
    let h = "// header\nfn one() {}\nfn two() {}\nfn three() {}\n// footer\n";
    let n = "fn one() {}\nfn two() {}";
    let res = closest_block_by_trigram(h, n).unwrap();
    assert_eq!(res.0, 2);
    assert_eq!(res.1, 3);
}

#[test]
fn closest_line_picks_highest_overlap() {
    let h = "alpha bravo\nfoo bar baz\nfoo bat baz\n";
    let needle = "foo bar baz";
    let res = closest_line_by_trigram(h, needle).unwrap();
    assert_eq!(res.0, 2);
}

#[test]
fn first_line_match_hint_includes_real_file_block() {
    let h = "void update() {\n    if (testX.x < 0) return;\n    if (testX.z > 100) return;\n    move();\n}\n";
    let n = "void update() {\n    if (testX.x < 0) return;\n    if (testZ.z > 100) return;\n";
    let hint = diagnose_missing(h, n);
    assert!(hint.contains("first line matches L1"), "expected line anchor:\n{}", hint);
    assert!(hint.contains("L2: ") && hint.contains("testX.x < 0"), "hint should include actual L2 content:\n{}", hint);
    assert!(hint.contains("L3: ") && hint.contains("testX.z > 100"), "hint should include actual L3 content (the divergent line):\n{}", hint);
}

#[test]
fn levenshtein_basic_cases() {
    assert_eq!(levenshtein("", ""), 0);
    assert_eq!(levenshtein("abc", "abc"), 0);
    assert_eq!(levenshtein("abc", "abd"), 1);
    assert_eq!(levenshtein("kitten", "sitting"), 3);
    assert_eq!(levenshtein("Index", "index"), 1);
}

#[test]
fn strip_trailing_whitespace_removes_per_line_spaces_and_tabs() {
    let input = "alpha   \nbeta\t\t\ngamma  \r\nzeta\r\nepsilon \t";
    let out = strip_trailing_whitespace(input);
    assert_eq!(out, "alpha\nbeta\ngamma\r\nzeta\r\nepsilon");
}

#[test]
fn is_markdown_path_recognises_md_and_mdx() {
    assert!(is_markdown_path("notes.md"));
    assert!(is_markdown_path("doc.MD"));
    assert!(is_markdown_path("page.mdx"));
    assert!(!is_markdown_path("a.rs"));
    assert!(!is_markdown_path("a"));
}

#[test]
fn normalize_quotes_replaces_curly_with_straight() {
    let s = "\u{201C}hello\u{201D} and \u{2018}world\u{2019}";
    assert_eq!(normalize_quotes(s), "\"hello\" and 'world'");
}

#[test]
fn preserve_quote_style_round_trips_double_quotes() {
    let old = "\"hello\"";
    let actual_old = "\u{201C}hello\u{201D}";
    let new = "\"hi\"";
    assert_eq!(preserve_quote_style(old, actual_old, new), "\u{201C}hi\u{201D}");
}

#[test]
fn preserve_quote_style_keeps_apostrophe_in_contraction() {
    let old = "don't go";
    let actual_old = "don\u{2019}t go";
    let new = "don't stop";
    assert_eq!(preserve_quote_style(old, actual_old, new), "don\u{2019}t stop");
}

#[test]
fn is_crlf_detects_crlf_dominant_files() {
    assert!(is_crlf("a\r\nb\r\n"));
    assert!(!is_crlf("a\nb\n"));
    assert!(!is_crlf("a\r\nb\n"), "mixed should not be classified CRLF");
    assert!(!is_crlf(""));
}

#[test]
fn to_crlf_round_trips_lf_only_input() {
    assert_eq!(to_crlf("a\nb\n"), "a\r\nb\r\n");
    assert_eq!(to_crlf("a\r\nb\r\n"), "a\r\nb\r\n");
}

#[test]
fn apply_edit_replaces_single_occurrence() {
    let (out, n) = apply_edit_in_memory("fn a() {}\nfn b() {}\n", "fn b() {}", "fn c() {}", false).unwrap();
    assert_eq!(out, "fn a() {}\nfn c() {}\n");
    assert_eq!(n, 1);
}

#[test]
fn apply_edit_empty_old_replaces_whole_content() {
    let (out, n) = apply_edit_in_memory("anything", "", "fresh", false).unwrap();
    assert_eq!(out, "fresh");
    assert_eq!(n, 1);
}

#[test]
fn apply_edit_ambiguous_without_replace_all() {
    match apply_edit_in_memory("x = 1;\nx = 1;\n", "x = 1;", "x = 2;", false) {
        Err(EditError::Ambiguous { count, lines }) => {
            assert_eq!(count, 2);
            assert_eq!(lines, vec![1, 2]);
        }
        _ => panic!("expected an ambiguity error"),
    }
}

#[test]
fn apply_edit_replace_all_counts_occurrences() {
    let (out, n) = apply_edit_in_memory("x = 1;\nx = 1;\n", "x = 1;", "x = 2;", true).unwrap();
    assert_eq!(out, "x = 2;\nx = 2;\n");
    assert_eq!(n, 2);
}

#[test]
fn apply_edit_not_found_carries_hint() {
    match apply_edit_in_memory("let x = 1;\r\nlet y = 2;\r\n", "let z = 9;", "q", false) {
        Err(EditError::NotFound { .. }) => {}
        _ => panic!("expected a not-found error"),
    }
}

#[test]
fn apply_edit_keeps_crlf_when_old_has_lf() {
    let (out, _) = apply_edit_in_memory("a\r\nb\r\nc\r\n", "a\nb\n", "a\nB\n", false).unwrap();
    assert_eq!(out, "a\r\nB\r\nc\r\n");
}

#[test]
fn apply_edit_keeps_crlf_when_only_new_has_lf() {
    let (out, _) = apply_edit_in_memory("a\r\nb\r\n", "a", "x\ny", false).unwrap();
    assert_eq!(out, "x\r\ny\r\nb\r\n");
    assert_eq!(out.matches("\r\n").count(), out.matches('\n').count());
}

#[test]
fn apply_edit_matches_through_curly_quotes() {
    let (out, _) = apply_edit_in_memory("say \u{201C}hi\u{201D} now", "\"hi\"", "\"bye\"", false).unwrap();
    assert_eq!(out, "say \u{201C}bye\u{201D} now");
}

#[test]
fn to_crlf_is_idempotent_example() {
    let once = to_crlf("x\ny\n");
    assert_eq!(to_crlf(&once), once);
}

#[test]
fn strip_trailing_whitespace_is_idempotent_example() {
    let once = strip_trailing_whitespace("a  \nb\t\n");
    assert_eq!(strip_trailing_whitespace(&once), once);
}

#[test]
fn levenshtein_is_symmetric_example() {
    assert_eq!(levenshtein("flaw", "lawn"), levenshtein("lawn", "flaw"));
    assert_eq!(levenshtein("flaw", "lawn"), 2);
}

#[test]
fn preview_diff_lists_changed_lines() {
    let p = preview_diff("a\nb\nc\n", "a\nB\nc\n");
    assert_eq!(p, "\n  @L2 (-1 +1)\n  -    2  b\n  +    2  B\n");
}

#[test]
fn preview_diff_reports_no_change() {
    assert_eq!(preview_diff("same\n", "same\n"), "\n  (no line-level changes)\n");
}

#[test]
fn preview_diff_caps_listing_at_four() {
    let p = preview_diff("1\n2\n3\n4\n5\n6\n", "");
    assert!(p.starts_with("\n  @L1 (-6 +0)\n"));
    assert!(p.contains("    ... +2 more removed\n"));
}

#[test]
fn edit_gate_requires_a_read_when_asked() {
    assert_eq!(edit_gate(true, true, None, None), Some(EditGate::NotRead));
    assert_eq!(edit_gate(false, true, None, None), None);
    assert_eq!(edit_gate(true, false, None, None), None);
    assert_eq!(
        gate_message("/tmp/a.txt", EditGate::NotRead),
        "edit: /tmp/a.txt was not read in this session; read it before editing (HIP_REQUIRE_READ_BEFORE_EDIT=1 is active)"
    );
}

#[test]
fn edit_gate_refuses_a_stale_read() {
    assert_eq!(edit_gate(false, true, Some((100, 105)), Some(120)), Some(EditGate::Stale { read_at: 105, now_mtime: 120 }));
    assert_eq!(edit_gate(false, true, Some((100, 105)), Some(100)), None);
    assert_eq!(edit_gate(false, true, Some((0, 105)), Some(120)), None);
    assert_eq!(edit_gate(true, true, Some((100, 105)), None), None);
    assert_eq!(
        gate_message("f.rs", EditGate::Stale { read_at: 105, now_mtime: 120 }),
        "edit: f.rs changed since last read at 105 (now mtime 120); read it again before editing"
    );
}

#[test]
fn to_crlf_round_trips_through_lf() {
    for s in ["a\nb\n", "a\r\nb\n", "\r\r\n\n", "no breaks", "x\r\n"] {
        let c = to_crlf(s);
        assert_eq!(to_crlf(&c), c);
        assert_eq!(c.replace("\r\n", "\n"), s.replace("\r\n", "\n"));
        if s.contains('\n') {
            assert!(is_crlf(&c), "{:?}", c);
        }
    }
}
