use hip::theme::Theme;

#[test]
fn theme_names_parse_back() {
    for t in [Theme::Iris, Theme::Light, Theme::Mono] {
        assert_eq!(Theme::parse(t.name()), Some(t));
    }
}

#[test]
fn theme_parse_trims_and_ignores_case() {
    assert_eq!(Theme::parse("  LIGHT \n"), Some(Theme::Light));
    assert_eq!(Theme::parse("Off"), Some(Theme::Mono));
    assert_eq!(Theme::parse("sepia"), None);
}
