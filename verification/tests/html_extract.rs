use hip::html::{dedupe_html_shell, dedupe_html_shell_checked, extract_html, extract_html_checked};

#[test]
fn extract_keeps_doctype_through_last_close() {
    let answer = "Here you go:\n<!DOCTYPE html><html><body>x</body></html>\nEnjoy!";
    assert_eq!(extract_html(answer), "<!DOCTYPE html><html><body>x</body></html>");
}

#[test]
fn extract_without_doctype_starts_at_html_tag() {
    let answer = "text <HTML lang=\"en\"><p>hi</p></HTML> trailing";
    assert_eq!(extract_html(answer), "<HTML lang=\"en\"><p>hi</p></HTML>");
}

#[test]
fn extract_without_document_returns_answer() {
    let answer = "no markup at all";
    assert_eq!(extract_html(answer), "no markup at all");
}

#[test]
fn extract_without_close_returns_answer() {
    let answer = "<html><body>cut short";
    assert_eq!(extract_html(answer), "<html><body>cut short");
}

#[test]
fn stray_leading_bare_html_is_dropped() {
    let s = "<html>\n<html lang=\"en\"><body></body></html>";
    assert_eq!(dedupe_html_shell(s), "<html lang=\"en\"><body></body></html>");
}

#[test]
fn single_bare_html_is_kept() {
    let s = "<html><body></body></html>";
    assert_eq!(dedupe_html_shell(s), "<html><body></body></html>");
}

#[test]
fn doubled_close_is_collapsed() {
    let s = "<html><body></body></html>\n  </html>";
    assert_eq!(dedupe_html_shell(s), "<html><body></body></html>");
}

#[test]
fn doubled_close_with_text_between_is_kept() {
    let s = "<html></html>text</html>";
    assert_eq!(dedupe_html_shell(s), "<html></html>text</html>");
}

#[test]
fn extract_then_dedupe_both_fixes() {
    let answer = "Sure!\n<html>\n<html><body>ok</body></html>\n</html>\nbye";
    assert_eq!(extract_html(answer), "<html><body>ok</body></html>");
}

#[test]
fn non_ascii_text_is_cut_at_byte_offsets() {
    let answer = "été <html><p>ü</p></html> fin";
    assert_eq!(extract_html(answer), "<html><p>ü</p></html>");
}

#[test]
fn close_before_open_has_no_cut() {
    assert_eq!(extract_html_checked("</html>x<html"), None);
}

#[test]
fn checked_forms_agree_on_plain_input() {
    let answer = "<!doctype html><html></html>";
    assert_eq!(extract_html_checked(answer), Some(extract_html(answer)));
    assert_eq!(dedupe_html_shell_checked(answer), Some(dedupe_html_shell(answer)));
}
