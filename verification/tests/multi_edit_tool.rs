use hip::edit::{
    apply_edit_in_memory, edit_report, new_text_for, overwrite_text, plan_edit, preview_diff, write_report, EditError,
};
use hip::multi_edit::{apply_edits_in_memory, multi_edit_report, Edit, MultiEditError};

fn edit(old: &str, new: &str, replace_all: bool) -> Edit {
    Edit { old_string: old.to_string(), new_string: new.to_string(), replace_all }
}

#[test]
fn multi_edit_applies_sequence_atomically() {
    let edits = vec![edit("alpha", "ALPHA", false), edit("beta", "BETA", false), edit("gamma", "GAMMA", false)];
    let (out, total) = apply_edits_in_memory("alpha\nbeta\ngamma\n", &edits).unwrap();
    assert_eq!(out, "ALPHA\nBETA\nGAMMA\n");
    assert_eq!(total, 3);
    assert_eq!(
        multi_edit_report("f.txt", edits.len(), total, false, out.len() as u64),
        "multi_edited f.txt (3 edits, 3 total replacements)\n"
    );
}

#[test]
fn multi_edit_aborts_on_failure_leaving_file_untouched() {
    let edits = vec![edit("alpha", "ALPHA", false), edit("DOES_NOT_EXIST", "x", false)];
    match apply_edits_in_memory("alpha\nbeta\ngamma\n", &edits) {
        Err(e @ MultiEditError::Failed { .. }) => {
            if let MultiEditError::Failed { index, .. } = &e {
                assert_eq!(*index, 1);
            }
            assert!(e.message().starts_with("multi_edit: edit[1] failed: old_string not found"), "{}", e.message());
        }
        other => panic!("expected failure, got: {:?}", other),
    }
}

#[test]
fn multi_edit_second_edit_sees_first_edit_result() {
    let edits = vec![edit("old_name", "mid_name", false), edit("mid_name", "new_name", false)];
    let (out, total) = apply_edits_in_memory("old_name\n", &edits).unwrap();
    assert_eq!(out, "new_name\n");
    assert_eq!(total, 2);
}

#[test]
fn multi_edit_dry_run_report_and_errors() {
    assert_eq!(
        multi_edit_report("a.rs", 1, 1, true, 6),
        "(dry_run) would multi_edit a.rs (1 edit, 1 total replacement, final size 6 bytes)\n"
    );
    assert!(matches!(apply_edits_in_memory("x", &[]), Err(MultiEditError::NoEdits)));
    assert_eq!(MultiEditError::NoEdits.message(), "multi_edit: edits array is empty");
    let noop = vec![edit("a", "b", false), edit("b", "a", false)];
    let r = apply_edits_in_memory("a\n", &noop);
    assert!(matches!(r, Err(MultiEditError::NoOp)), "{:?}", r);
    assert_eq!(
        MultiEditError::NoOp.message(),
        "multi_edit: no-op - applied edits produced identical content"
    );
}

#[test]
fn multi_edit_create_from_empty() {
    let (out, total) = apply_edits_in_memory("", &[edit("", "hello\n", false)]).unwrap();
    assert_eq!((out.as_str(), total), ("hello\n", 1));
}

#[test]
fn edit_error_messages_match_the_tool() {
    match apply_edit_in_memory("a\na\n", "a", "b", false) {
        Err(e) => {
            assert_eq!(
                e.message(),
                "old_string occurs 2 times - pass replace_all=true OR include more surrounding context to disambiguate. First 2 match line(s): 1, 2"
            );
            assert_eq!(
                e.message_in("x.txt"),
                "edit: old_string occurs 2 times in x.txt - pass replace_all=true OR include more surrounding context to disambiguate. First 2 match line(s): 1, 2"
            );
        }
        Ok(v) => panic!("expected ambiguity, got {:?}", v),
    }
    let nf = EditError::NotFound { hint: " (hint)".to_string() };
    assert_eq!(nf.message(), "old_string not found (hint)");
    assert_eq!(nf.message_in("p"), "edit: old_string not found in p (hint)");
}

#[test]
fn edit_strips_trailing_whitespace_for_non_markdown() {
    assert_eq!(new_text_for("a.rs", "let x = 42;   "), "let x = 42;");
    assert_eq!(new_text_for("notes.md", "first line  "), "first line  ");
}

#[test]
fn edit_preserves_crlf_on_overwrite() {
    assert_eq!(overwrite_text(Some("alpha\r\nbeta\r\n"), "one\ntwo\n"), "one\r\ntwo\r\n");
    assert_eq!(overwrite_text(Some("alpha\nbeta\n"), "one\ntwo\n"), "one\ntwo\n");
    assert_eq!(overwrite_text(None, "one\ntwo\n"), "one\ntwo\n");
}

#[test]
fn plan_edit_counts_lines_and_reports() {
    let plan = plan_edit("fn main() {\r\n    let x = 1;\r\n}\r\n", "    let x = 1;\n}", "    let x = 42;\n    let y = 2;\n}", false)
        .unwrap();
    assert_eq!(plan.updated, "fn main() {\r\n    let x = 42;\r\n    let y = 2;\r\n}\r\n");
    assert_eq!((plan.replacements, plan.lines_added, plan.lines_removed), (1, 2, 1));
    assert_eq!(edit_report("m.rs", &plan, false, false, ""), "edited m.rs (1 replacement, net +1 line(s))\n");
    let all = plan_edit("a b a", "a", "c", true).unwrap();
    assert_eq!(all.updated, "c b c");
    assert_eq!(edit_report("t", &all, true, false, ""), "edited t (2 replacements, net 0 line(s))\n");
    let preview = preview_diff("a b a", &all.updated);
    let dry = edit_report("t", &all, true, true, &preview);
    assert!(dry.starts_with("(dry_run) would edit t (2 replacements, net 0 line(s))\n  @L1 (-1 +1)"), "{}", dry);
}

#[test]
fn write_report_names_create_or_overwrite() {
    assert_eq!(write_report("n.txt", "hello\n", false, true), "(dry_run) would create n.txt (6 bytes)\n");
    assert_eq!(write_report("n.txt", "é", true, true), "(dry_run) would overwrite n.txt (2 bytes)\n");
    assert_eq!(write_report("n.txt", "hi", true, false), "wrote n.txt (2 bytes)\n");
}
