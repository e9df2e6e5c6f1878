use desktag::label::format_label;

#[test]
fn unnamed_desktop_shows_number() {
    assert_eq!(format_label(0, ""), "Desktop 1");
    assert_eq!(format_label(3, "   "), "Desktop 4");
}

#[test]
fn named_desktop_shows_number_and_name() {
    assert_eq!(format_label(0, "auth"), "1 · auth");
    assert_eq!(format_label(2, "  ui  "), "3 · ui");
}

#[test]
fn label_trims_unicode_white_space_only_at_ends() {
    assert_eq!(format_label(9, "\t\u{3000}mail  box\u{a0}\n"), "10 · mail  box");
    assert_eq!(format_label(41, "\u{2028}\r\n"), "Desktop 42");
    assert_eq!(format_label(u32::MAX - 1, "x"), "4294967295 · x");
}
