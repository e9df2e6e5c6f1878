use desktag::badge::{
    char_action, desktop_number_text, is_immersive_color_set, pill_size, scale, tray_icon_size,
    CharAction,
};

#[test]
fn scale_follows_dpi_but_never_shrinks() {
    assert_eq!(scale(16, 96), 16);
    assert_eq!(scale(16, 144), 24);
    assert_eq!(scale(15, 120), 18);
    assert_eq!(scale(16, 0), 16);
    assert_eq!(scale(-7, 192), -14);
}

#[test]
fn tray_size_falls_back_to_16() {
    assert_eq!(tray_icon_size(32), 32);
    assert_eq!(tray_icon_size(0), 16);
    assert_eq!(tray_icon_size(-4), 16);
}

#[test]
fn tray_number_text() {
    assert_eq!(desktop_number_text(Some(0)), "1");
    assert_eq!(desktop_number_text(Some(11)), "12");
    assert_eq!(desktop_number_text(None), "?");
}

#[test]
fn pill_size_pads_and_keeps_minimums() {
    assert_eq!(pill_size(100, 20, 18, 14, 7, 72), (128, 34));
    assert_eq!(pill_size(0, 0, 18, 14, 7, 72), (72, 32));
}

#[test]
fn immersive_color_set_signal() {
    let s: Vec<u16> = "ImmersiveColorSet".encode_utf16().collect();
    assert!(is_immersive_color_set(&s));
    let other: Vec<u16> = "Policy".encode_utf16().collect();
    assert!(!is_immersive_color_set(&other));
    assert!(!is_immersive_color_set(&s[..16]));
}

#[test]
fn typed_codes_map_to_actions() {
    assert_eq!(char_action(0x08), CharAction::Backspace);
    assert_eq!(char_action(0x7F), CharAction::ClearAll);
    assert_eq!(char_action(0x01), CharAction::SelectAll);
    assert_eq!(char_action('q' as u32), CharAction::Insert('q'));
    assert_eq!(char_action('ж' as u32), CharAction::Insert('ж'));
    assert_eq!(char_action(0x0D), CharAction::Ignore);
    assert_eq!(char_action(0x1B), CharAction::Ignore);
    assert_eq!(char_action(0x85), CharAction::Ignore);
    assert_eq!(char_action(0xD800), CharAction::Ignore);
}

#[test]
fn pill_is_centered_on_screen() {
    assert_eq!(desktag::badge::centered_x(1920, 120), 900);
    assert_eq!(desktag::badge::centered_x(100, 103), -1);
}
