use hip::picker::{fallback_rows, picker_height, picker_key, picker_rows, Option_, PickerAction};
use hip::theme::Theme;

#[test]
fn enter_escape_and_q_pick_current() {
    for key in [&b"\n"[..], b"\r", b"q", b"Q", &[27u8], &[3u8], b""] {
        assert_eq!(picker_key(1, 3, key), PickerAction::Choose(1));
    }
}

#[test]
fn arrows_and_vi_keys_move_within_bounds() {
    assert_eq!(picker_key(1, 3, b"\x1b[A"), PickerAction::Move(0));
    assert_eq!(picker_key(1, 3, b"k"), PickerAction::Move(0));
    assert_eq!(picker_key(0, 3, b"k"), PickerAction::Ignore);
    assert_eq!(picker_key(1, 3, b"\x1b[B"), PickerAction::Move(2));
    assert_eq!(picker_key(1, 3, b"j"), PickerAction::Move(2));
    assert_eq!(picker_key(2, 3, b"\x1b[B"), PickerAction::Ignore);
}

#[test]
fn digits_jump_to_existing_options() {
    assert_eq!(picker_key(0, 3, b"3"), PickerAction::Move(2));
    assert_eq!(picker_key(0, 3, b"4"), PickerAction::Ignore);
    assert_eq!(picker_key(0, 3, b"0"), PickerAction::Ignore);
    assert_eq!(picker_key(0, 3, b"x"), PickerAction::Ignore);
}

#[test]
fn rows_mark_the_cursor_and_show_subtitles() {
    let opts = [Option_ { label: "alpha", subtitle: Some("first") }, Option_ { label: "beta", subtitle: None }];
    let rows = picker_rows(Theme::Mono, &opts, 1);
    assert_eq!(
        rows,
        "\r\x1b[2K      \x1b[2m[1]\x1b[0m alpha\n\r\x1b[2K        \x1b[2mfirst\x1b[0m\n\r\x1b[2K    \x1b[1m▶\x1b[0m \x1b[1m[2]\x1b[0m \x1b[1mbeta\x1b[0m\n"
    );
    assert_eq!(picker_height(&opts), 3);
}

#[test]
fn fallback_rows_mark_the_default() {
    let opts = [Option_ { label: "alpha", subtitle: None }, Option_ { label: "beta", subtitle: Some("second") }];
    let rows = fallback_rows(Theme::Mono, &opts, 1);
    assert_eq!(rows.len(), 3);
    assert_eq!(rows[0], "      [1] alpha");
    assert_eq!(rows[1], "    >\x1b[0m [2] beta");
    assert_eq!(rows[2], "        \x1b[2msecond\x1b[0m");
}
