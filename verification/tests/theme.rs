use desktag::theme::{theme_from_light_flag, Palette, Theme};

#[test]
fn dark_palette_matches_legacy_colors() {
    let p = Palette::for_theme(Theme::Dark);
    assert_eq!(p.bg.0, 0x0020_2020);
    assert_eq!(p.text.0, 0x00F0_F0F0);
    assert_eq!(p.border.0, 0x0050_5050);
}

#[test]
fn light_palette_is_inverted() {
    let p = Palette::for_theme(Theme::Light);
    assert_eq!(p.bg.0, 0x00F0_F0F0);
    assert_eq!(p.text.0, 0x0020_2020);
    assert_eq!(p.border.0, 0x00C8_C8C8);
}

#[test]
fn light_flag_selects_theme() {
    assert_eq!(theme_from_light_flag(Some(1)), Theme::Light);
    assert_eq!(theme_from_light_flag(Some(0)), Theme::Dark);
    assert_eq!(theme_from_light_flag(Some(2)), Theme::Dark);
    assert_eq!(theme_from_light_flag(None), Theme::Dark);
}

#[test]
fn light_swaps_dark_pill_and_text() {
    let d = Palette::for_theme(Theme::Dark);
    let l = Palette::for_theme(Theme::Light);
    assert_eq!(l.bg, d.text);
    assert_eq!(l.text, d.bg);
}
