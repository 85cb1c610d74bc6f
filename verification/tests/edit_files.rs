use hip::edit::{edit_report, new_text_for, plan_edit, preview_diff};

/// One edit of a file's text, as the edit tool makes it: the report, and
/// the text the file holds afterwards.
fn run_edit(path: &str, body: &str, old: &str, new: &str, dry_run: bool) -> Result<(String, String), String> {
    let new = new_text_for(path, new);
    let plan = plan_edit(body, old, &new, false).map_err(|e| e.message_in(path))?;
    if dry_run {
        let preview = preview_diff(body, &plan.updated);
        return Ok((edit_report(path, &plan, false, true, &preview), body.to_string()));
    }
    let report = edit_report(path, &plan, false, false, "");
    Ok((report, plan.updated))
}

/// Creating or overwriting a file with the whole text, as the edit tool
/// does for an empty `old_string`: the report and the file's text after.
fn run_write(path: &str, existing: Option<&str>, new: &str, dry_run: bool) -> (String, Option<String>) {
    let new = new_text_for(path, new);
    let content = hip::edit::overwrite_text(existing, &new);
    let report = hip::edit::write_report(path, &content, existing.is_some(), dry_run);
    let after = if dry_run { existing.map(String::from) } else { Some(content) };
    (report, after)
}

#[test]
fn dry_run_still_validates_missing_old_string() {
    let res = run_edit("/tmp/mlx-edit-dry-miss.txt", "totally unrelated content\n", "let x = 42;", "let x = 0;", true);
    assert!(res.is_err(), "dry_run should still surface missing-old_string errors");
}

#[test]
fn whitespace_tolerant_match_recovers_from_indent_drift() {
    let (out, body) = run_edit(
        "/tmp/mlx-edit-ws.txt",
        "fn main() {\n    let x = 1;\n    let y = 2;\n}\n",
        "  let x = 1;\n  let y = 2;",
        "    let x = 10;\n    let y = 20;",
        false,
    )
    .unwrap();
    assert!(out.contains("edited"), "expected success:\n{}", out);
    assert!(body.contains("    let x = 10;\n    let y = 20;"), "expected new content with file's real indent:\n{}", body);
}

#[test]
fn edit_preserves_trailing_whitespace_for_markdown() {
    let (_, body) = run_edit("/tmp/mlx-edit-md.md", "first line\nsecond line\n", "first line", "first line  ", false).unwrap();
    assert!(body.starts_with("first line  \n"), "markdown trailing spaces lost: {:?}", body);
}

#[test]
fn edit_matches_through_curly_quotes_and_preserves_them() {
    let (out, body) = run_edit(
        "/tmp/mlx-edit-curly.txt",
        "She said \u{201C}hello\u{201D} loudly.\n",
        "She said \"hello\" loudly.",
        "She whispered \"goodbye\" softly.",
        false,
    )
    .unwrap();
    assert!(out.contains("edited"), "expected success: {}", out);
    assert!(body.contains("\u{201C}goodbye\u{201D}"), "expected curly quotes preserved: {:?}", body);
    assert!(!body.contains("\"goodbye\""), "straight quote leaked: {:?}", body);
}

#[test]
fn edit_preserves_curly_apostrophe_in_contraction() {
    let (out, body) =
        run_edit("/tmp/mlx-edit-apos.txt", "We don\u{2019}t support that.\n", "We don't support that.", "We don't allow that.", false).unwrap();
    assert!(out.contains("edited"), "expected success: {}", out);
    assert!(body.contains("don\u{2019}t allow"), "curly apostrophe lost: {:?}", body);
}

#[test]
fn edit_preserves_crlf_line_endings_when_model_supplies_lf() {
    let (out, body) =
        run_edit("/tmp/mlx-edit-crlf.txt", "fn main() {\r\n    let x = 1;\r\n}\r\n", "    let x = 1;", "    let x = 42;", false).unwrap();
    assert!(out.contains("edited"), "expected success: {}", out);
    assert!(body.contains("\r\n"), "file should still be CRLF: {:?}", body);
    assert!(body.contains("let x = 42;"));
    let bare_lf = body.matches('\n').count();
    let crlf = body.matches("\r\n").count();
    assert_eq!(bare_lf, crlf, "no bare LF allowed: {:?}", body);
}

#[test]
fn dry_run_for_create_announces_create_or_overwrite() {
    let path = "/tmp/mlx-edit-dry-new.txt";
    let (out, after) = run_write(path, None, "hello\n", true);
    assert!(out.contains("would create"), "expected 'would create':\n{}", out);
    assert!(after.is_none(), "dry_run should not create the file");
    let (out, after) = run_write(path, Some("old\n"), "new\n", true);
    assert!(out.contains("would overwrite"), "expected 'would overwrite':\n{}", out);
    assert_eq!(after.as_deref(), Some("old\n"));
}

#[test]
fn dry_run_does_not_write_file_but_returns_preview() {
    let body = "fn main() {\n    println!(\"hi\");\n}\n";
    let (out, after) = run_edit("/tmp/mlx-edit-dry.txt", body, "println!(\"hi\");", "println!(\"hello\");", true).unwrap();
    assert!(out.starts_with("(dry_run)"), "expected dry_run prefix:\n{}", out);
    assert!(out.contains("would edit"), "expected 'would edit' phrase:\n{}", out);
    assert!(out.contains("@L"), "expected diff anchor line:\n{}", out);
    assert!(out.contains("- "), "expected removed-line marker:\n{}", out);
    assert!(out.contains("+ "), "expected added-line marker:\n{}", out);
    assert_eq!(after, body, "file was modified during dry_run");
}

#[test]
fn multi_edit_dry_run_does_not_write() {
    let body = "alpha\n";
    let edits = vec![hip::multi_edit::Edit { old_string: "alpha".into(), new_string: "beta".into(), replace_all: false }];
    let (updated, total) = hip::multi_edit::apply_edits_in_memory(body, &edits).unwrap();
    let out = hip::multi_edit::multi_edit_report("/tmp/mlx-multi-dry.txt", edits.len(), total, true, updated.len() as u64);
    assert!(out.starts_with("(dry_run)"), "expected dry_run prefix: {}", out);
}
