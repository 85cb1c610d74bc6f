use hip::diff::{group_into_hunks, lcs_diff, line_diff, unified_diff, HunkRange, Op};

fn v(s: &[&str]) -> Vec<String> {
    s.iter().map(|x| x.to_string()).collect()
}

#[test]
fn lcs_identical_returns_only_eq() {
    let a = v(&["a", "b", "c"]);
    let b = v(&["a", "b", "c"]);
    let ops = lcs_diff(&a, &b);
    assert!(ops.iter().all(|o| matches!(o, Op::Eq(_, _))));
}

#[test]
fn lcs_pure_insertion() {
    let a = v(&["a", "c"]);
    let b = v(&["a", "b", "c"]);
    let ops = lcs_diff(&a, &b);
    let ins = ops.iter().filter(|o| matches!(o, Op::Ins(_))).count();
    let del = ops.iter().filter(|o| matches!(o, Op::Del(_))).count();
    assert_eq!(ins, 1);
    assert_eq!(del, 0);
}

#[test]
fn lcs_pure_deletion() {
    let a = v(&["a", "b", "c"]);
    let b = v(&["a", "c"]);
    let ops = lcs_diff(&a, &b);
    let ins = ops.iter().filter(|o| matches!(o, Op::Ins(_))).count();
    let del = ops.iter().filter(|o| matches!(o, Op::Del(_))).count();
    assert_eq!(ins, 0);
    assert_eq!(del, 1);
}

#[test]
fn lcs_replacement_has_one_del_one_ins() {
    let a = v(&["a", "b", "c"]);
    let b = v(&["a", "B", "c"]);
    let ops = lcs_diff(&a, &b);
    let ins = ops.iter().filter(|o| matches!(o, Op::Ins(_))).count();
    let del = ops.iter().filter(|o| matches!(o, Op::Del(_))).count();
    assert_eq!(ins, 1);
    assert_eq!(del, 1);
}

#[test]
fn lcs_keeps_a_longest_common_subsequence() {
    let a = v(&["x", "a", "b", "c", "y"]);
    let b = v(&["a", "z", "b", "c"]);
    let ops = lcs_diff(&a, &b);
    let eq = ops.iter().filter(|o| matches!(o, Op::Eq(_, _))).count();
    assert_eq!(eq, 3);
    let del = ops.iter().filter(|o| matches!(o, Op::Del(_))).count();
    let ins = ops.iter().filter(|o| matches!(o, Op::Ins(_))).count();
    assert_eq!(del, 2);
    assert_eq!(ins, 1);
}

#[test]
fn hunks_merge_close_changes_and_split_far_ones() {
    let ops = vec![
        Op::Del(0),
        Op::Eq(1, 0),
        Op::Eq(2, 1),
        Op::Ins(2),
        Op::Eq(3, 3),
        Op::Eq(4, 4),
        Op::Eq(5, 5),
        Op::Eq(6, 6),
        Op::Eq(7, 7),
        Op::Del(8),
    ];
    let h: Vec<HunkRange> = group_into_hunks(&ops, 1);
    assert_eq!(h.len(), 2);
    assert_eq!((h[0].from, h[0].to), (0, 5));
    assert_eq!((h[1].from, h[1].to), (8, 10));
}

#[test]
fn unified_diff_shows_changes_and_summary() {
    let a = v(&["alpha", "bravo", "charlie", "delta", "echo", ""]);
    let b = v(&["alpha", "BRAVO", "charlie", "delta", "echo", "foxtrot", ""]);
    let out = unified_diff("a.txt", "b.txt", &a, &b, 1);
    assert!(out.starts_with("--- a.txt\n+++ b.txt\n"), "{}", out);
    assert!(out.contains("-bravo"), "{}", out);
    assert!(out.contains("+BRAVO"), "{}", out);
    assert!(out.contains("+foxtrot"), "{}", out);
    assert!(out.contains("@@ -"), "{}", out);
    assert!(out.contains("summary: -1 +2"), "{}", out);
}

#[test]
fn unified_diff_identical_short_circuit() {
    let a = v(&["x", "y", "z", ""]);
    let out = unified_diff("p", "q", &a, &a, 3);
    assert_eq!(out, "(identical: p and q both 4 lines)\n");
}

#[test]
fn unified_diff_exact_hunk() {
    let a = v(&["a", "b", "c"]);
    let b = v(&["a", "B", "c"]);
    let out = unified_diff("l", "r", &a, &b, 0);
    assert_eq!(out, "--- l\n+++ r\n@@ -1,1 +2,1 @@\n+B\n-b\n\n(summary: -1 +1 across 1 hunk(s))\n");
}

#[test]
fn line_diff_pure_addition_at_end() {
    let (rem, add, anchor) = line_diff("a\nb\n", "a\nb\nc\n");
    assert!(rem.is_empty());
    assert_eq!(add, vec!["c"]);
    assert_eq!(anchor, 2);
}

#[test]
fn line_diff_pure_deletion_in_middle() {
    let (rem, add, anchor) = line_diff("a\nb\nc\n", "a\nc\n");
    assert_eq!(rem, vec!["b"]);
    assert!(add.is_empty());
    assert_eq!(anchor, 1);
}

#[test]
fn line_diff_replacement_in_middle() {
    let (rem, add, anchor) = line_diff("a\nb\nc\n", "a\nB\nc\n");
    assert_eq!(rem, vec!["b"]);
    assert_eq!(add, vec!["B"]);
    assert_eq!(anchor, 1);
}

#[test]
fn line_diff_identical() {
    let (rem, add, _anchor) = line_diff("a\nb\nc\n", "a\nb\nc\n");
    assert!(rem.is_empty());
    assert!(add.is_empty());
}

#[test]
fn line_diff_full_rewrite() {
    let (rem, add, anchor) = line_diff("x\ny\n", "a\nb\n");
    assert_eq!(rem, vec!["x", "y"]);
    assert_eq!(add, vec!["a", "b"]);
    assert_eq!(anchor, 0);
}
