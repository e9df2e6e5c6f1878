//! Decisions of the badge window: DPI scaling, pill size and placement,
//! the tray icon's size and number, the theme-change signal and what a
//! typed character does to the rename buffer.

use vstd::prelude::*;
use vstd::utf8::is_scalar;
use crate::icon::div_toward_zero;
use crate::text::{
    all_digits, decimal, digits_value, fits_i32, lemma_decimal_digits, lemma_decimal_no_leading_zero,
    push_char, push_decimal,
};

verus! {

/// The DPI used for scaling: the window's, but at least 96.
pub open spec fn effective_dpi(dpi: u32) -> u32 {
    if dpi > 96 {
        dpi
    } else {
        96
    }
}

/// `v` scaled from 96 DPI to the effective DPI (taken as an `i32`).
pub open spec fn scale_spec(v: int, dpi: u32) -> int {
    div_toward_zero(v * (effective_dpi(dpi) as i32) as int, 96)
}

/// `v` pixels at 96 DPI, scaled to the window's `dpi` (never scaled down).
pub fn scale(v: i32, dpi: u32) -> (r: i32)
    requires
        fits_i32(v * (effective_dpi(dpi) as i32) as int),
    ensures
        r == scale_spec(v as int, dpi),
{
    let d: u32 = if dpi > 96 {
        dpi
    } else {
        96
    };
    #[verifier::truncate]
    let di = d as i32;
    v * di / 96
}

/// Scaling multiplies by the effective DPI over 96, rounding toward zero:
/// for `v >= 0`, `96 * r <= v * dpi < 96 * (r + 1)`, and at 96 DPI or less
/// the value is unchanged.
pub proof fn lemma_scale_ratio(v: int, dpi: u32)
    requires
        v >= 0,
        dpi <= i32::MAX,
    ensures
        96 * scale_spec(v, dpi) <= v * (if dpi > 96 {
            dpi as int
        } else {
            96
        }) < 96 * scale_spec(v, dpi) + 96,
        dpi <= 96 ==> scale_spec(v, dpi) == v,
{
    let d: int = if dpi > 96 {
        dpi as int
    } else {
        96
    };
    assert((effective_dpi(dpi) as i32) as int == d);
    assert(v * d >= 0) by (nonlinear_arith)
        requires
            v >= 0,
            d >= 0,
    ;
    if dpi <= 96 {
        assert(v * 96 / 96 == v) by (nonlinear_arith);
    }
}

/// Square tray icon size: the system's small-icon size, or 16 when that is
/// not a positive number.
pub fn tray_icon_size(small_icon_px: i32) -> (r: u32)
    ensures
        r == (if small_icon_px <= 0 {
            16
        } else {
            small_icon_px as int
        }),
{
    if small_icon_px <= 0 {
        16
    } else {
        small_icon_px as u32
    }
}

/// The tray icon's text: the 1-based desktop number, or `?` when the
/// current desktop could not be read.
pub open spec fn desktop_number_spec(index0: Option<u32>) -> Seq<char> {
    match index0 {
        Some(i) => decimal((i + 1) as nat),
        None => seq!['?'],
    }
}

/// The tray text of a read desktop is the decimal digits of its 1-based
/// number, without a leading zero.
pub proof fn lemma_desktop_number_value(i: u32)
    ensures
        all_digits(desktop_number_spec(Some(i))),
        digits_value(desktop_number_spec(Some(i))) == i + 1,
        desktop_number_spec(Some(i))[0] != '0',
{
    lemma_decimal_digits((i + 1) as nat);
    lemma_decimal_no_leading_zero((i + 1) as nat);
}

/// Current desktop number ("1", "2", …) for the tray icon. Falls back to "?".
pub fn desktop_number_text(index0: Option<u32>) -> (s: String)
    requires
        index0 matches Some(i) ==> i < u32::MAX,
    ensures
        s@ == desktop_number_spec(index0),
{
    let mut s = String::new();
    match index0 {
        Some(i) => push_decimal(&mut s, (i + 1) as u64),
        None => push_char(&mut s, '?'),
    }
    assert(s@ =~= desktop_number_spec(index0));
    s
}

/// Pill size for text measured `text_cx`×`text_cy`: the text plus padding,
/// at least `min_w` wide, and at least as tall as a reference glyph
/// (`ref_cy`) so an empty text keeps the full height.
pub open spec fn pill_size_spec(
    text_cx: int,
    text_cy: int,
    ref_cy: int,
    pad_x: int,
    pad_y: int,
    min_w: int,
) -> (int, int) {
    let w = text_cx + pad_x * 2;
    let h = if ref_cy > text_cy {
        ref_cy
    } else {
        text_cy
    };
    (if w > min_w {
        w
    } else {
        min_w
    }, h + pad_y * 2)
}

/// Width and height of the pill around the measured text.
pub fn pill_size(text_cx: i32, text_cy: i32, ref_cy: i32, pad_x: i32, pad_y: i32, min_w: i32) -> (r: (
    i32,
    i32,
))
    requires
        fits_i32(pad_x * 2),
        fits_i32(text_cx + pad_x * 2),
        fits_i32(pad_y * 2),
        fits_i32(ref_cy + pad_y * 2),
        fits_i32(text_cy + pad_y * 2),
    ensures
        r.0 == pill_size_spec(text_cx as int, text_cy as int, ref_cy as int, pad_x as int, pad_y as int, min_w as int).0,
        r.1 == pill_size_spec(text_cx as int, text_cy as int, ref_cy as int, pad_x as int, pad_y as int, min_w as int).1,
{
    let w = text_cx + pad_x * 2;
    let w = if w > min_w {
        w
    } else {
        min_w
    };
    let h = if ref_cy > text_cy {
        ref_cy
    } else {
        text_cy
    };
    (w, h + pad_y * 2)
}

/// Left edge that centers a pill `w` wide on a screen `screen_w` wide.
pub fn centered_x(screen_w: i32, w: i32) -> (x: i32)
    requires
        fits_i32(screen_w - w),
    ensures
        x == div_toward_zero(screen_w - w, 2),
{
    (screen_w - w) / 2
}

/// The UTF-16 text `ImmersiveColorSet`, Windows' signal of a light/dark or
/// accent change.
pub open spec fn immersive_color_set() -> Seq<u16> {
    seq![
        73u16,
        109u16,
        109u16,
        101u16,
        114u16,
        115u16,
        105u16,
        118u16,
        101u16,
        67u16,
        111u16,
        108u16,
        111u16,
        114u16,
        83u16,
        101u16,
        116u16,
    ]
}

/// `immersive_color_set()` is the text `ImmersiveColorSet`, one UTF-16
/// unit per ASCII char.
pub proof fn lemma_immersive_color_set_text()
    ensures
        ({
            let t = seq![
                'I',
                'm',
                'm',
                'e',
                'r',
                's',
                'i',
                'v',
                'e',
                'C',
                'o',
                'l',
                'o',
                'r',
                'S',
                'e',
                't',
            ];
            &&& immersive_color_set().len() == t.len()
            &&& forall|k: int| 0 <= k < t.len() ==> #[trigger] immersive_color_set()[k] as int == t[k] as int
        }),
{
}

/// Whether a setting-change text (UTF-16 units up to its terminator) is
/// `ImmersiveColorSet`. Decoding with replacement of bad units yields that
/// ASCII text exactly when the units are its ASCII codes.
pub fn is_immersive_color_set(units: &[u16]) -> (b: bool)
    ensures
        b == (units@ == immersive_color_set()),
{
    let expected: [u16; 17] = [
        73,
        109,
        109,
        101,
        114,
        115,
        105,
        118,
        101,
        67,
        111,
        108,
        111,
        114,
        83,
        101,
        116,
    ];
    assert(expected@ =~= immersive_color_set());
    if units.len() != 17 {
        return false;
    }
    let mut i: usize = 0;
    while i < 17
        invariant
            i <= 17,
            units.len() == 17,
            expected@ == immersive_color_set(),
            forall|j: int| 0 <= j < i ==> units@[j] == expected@[j],
        decreases 17 - i,
    {
        if units[i] != expected[i] {
            return false;
        }
        i = i + 1;
    }
    assert(units@ =~= immersive_color_set());
    true
}

/// What a typed character code does to the rename buffer.
#[derive(Clone, Copy, Debug, PartialEq, Eq, Structural)]
pub enum CharAction {
    Backspace,
    ClearAll,
    SelectAll,
    Insert(char),
    Ignore,
}

/// Unicode control characters (general category Cc).
pub open spec fn is_control(c: char) -> bool {
    c <= '\u{1f}' || ('\u{7f}' <= c <= '\u{9f}')
}

/// Backspace (8) deletes, Ctrl+Backspace (0x7F) clears, Ctrl+A (1) selects
/// all; any other code that is a char and not a control char is typed;
/// the rest (Enter, Esc, invalid codes) does nothing here.
pub open spec fn char_action_spec(code: u32) -> CharAction {
    if code == 0x08 {
        CharAction::Backspace
    } else if code == 0x7F {
        CharAction::ClearAll
    } else if code == 0x01 {
        CharAction::SelectAll
    } else if is_scalar(code) && !is_control(code as char) {
        CharAction::Insert(code as char)
    } else {
        CharAction::Ignore
    }
}

/// Typing: every code that is a Unicode scalar value outside general
/// category Cc (U+0000..U+001F, U+007F..U+009F) — a space, a letter, any
/// printable char — is typed as that char; the codes of Backspace (8),
/// Ctrl+A (1) and Ctrl+Backspace (0x7F) edit; every other code (the
/// remaining C0/C1 controls such as Enter and Esc, surrogates, values past
/// U+10FFFF) is ignored.
pub proof fn lemma_char_action_types_printable_chars(code: u32)
    ensures
        code == 0x08 ==> char_action_spec(code) == CharAction::Backspace,
        code == 0x01 ==> char_action_spec(code) == CharAction::SelectAll,
        code == 0x7F ==> char_action_spec(code) == CharAction::ClearAll,
        (0x20 <= code <= 0x7E || (0xA0 <= code <= 0xD7FF) || (0xE000 <= code <= 0x10FFFF))
            ==> char_action_spec(code) == CharAction::Insert(code as char)
            && (code as char) as u32 == code,
        (code <= 0x1F && code != 0x08 && code != 0x01) || (0x80 <= code <= 0x9F) || (0xD800
            <= code <= 0xDFFF) || code > 0x10FFFF ==> char_action_spec(code) == CharAction::Ignore,
{
}

/// std's `char::from_u32`: the char with code `v`, if `v` is a Unicode
/// scalar value.
#[verifier::external_body]
fn char_from_u32(v: u32) -> (r: Option<char>)
    ensures
        r == (if is_scalar(v) {
            Some(v as char)
        } else {
            None::<char>
        }),
{
    char::from_u32(v)
}

/// The rename action for a typed character code.
pub fn char_action(code: u32) -> (a: CharAction)
    ensures
        a == char_action_spec(code),
{
    if code == 0x08 {
        CharAction::Backspace
    } else if code == 0x7F {
        CharAction::ClearAll
    } else if code == 0x01 {
        CharAction::SelectAll
    } else {
        match char_from_u32(code) {
            Some(c) => {
                let u = c as u32;
                if u <= 0x1f || (0x7f <= u && u <= 0x9f) {
                    CharAction::Ignore
                } else {
                    CharAction::Insert(c)
                }
            },
            None => CharAction::Ignore,
        }
    }
}

} // verus!
