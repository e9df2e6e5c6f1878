use desktag::position::{anchor_origin, clamp, parse, Anchor, Position, Rect};

#[test]
fn default_is_top_center() {
    assert_eq!(Position::default(), Position::Anchor(Anchor::TopCenter));
}

#[test]
fn roundtrip_all_anchors() {
    for a in Anchor::ALL {
        let p = Position::Anchor(a);
        assert_eq!(parse(&desktag::position::format(&p)), p, "anchor {a:?}");
    }
}

#[test]
fn roundtrip_custom() {
    let p = Position::Custom { x: 1820, y: 12 };
    assert_eq!(parse(&desktag::position::format(&p)), p);
}

#[test]
fn roundtrip_custom_negative() {
    let p = Position::Custom { x: -100, y: -5 };
    assert_eq!(parse(&desktag::position::format(&p)), p);
}

#[test]
fn parse_empty_is_default() {
    assert_eq!(parse(""), Position::default());
}

#[test]
fn parse_garbage_is_default() {
    assert_eq!(parse("hello world\n???"), Position::default());
}

#[test]
fn parse_unknown_anchor_is_default() {
    assert_eq!(
        parse("mode=anchor\nanchor=middle-of-nowhere"),
        Position::default()
    );
}

#[test]
fn parse_custom_missing_coord_is_default() {
    assert_eq!(parse("mode=custom\nx=10"), Position::default());
}

#[test]
fn parse_custom_nonnumeric_is_default() {
    assert_eq!(parse("mode=custom\nx=abc\ny=def"), Position::default());
}

fn work() -> Rect {
    Rect::new(0, 0, 1000, 600)
}
const SIZE: (i32, i32) = (100, 40);
const M: i32 = 10;

#[test]
fn anchor_corners() {
    assert_eq!(anchor_origin(Anchor::TopLeft, work(), SIZE, M), (10, 10));
    assert_eq!(anchor_origin(Anchor::TopRight, work(), SIZE, M), (890, 10));
    assert_eq!(anchor_origin(Anchor::BottomLeft, work(), SIZE, M), (10, 550));
    assert_eq!(anchor_origin(Anchor::BottomRight, work(), SIZE, M), (890, 550));
}

#[test]
fn anchor_edges_and_center() {
    assert_eq!(anchor_origin(Anchor::TopCenter, work(), SIZE, M), (450, 10));
    assert_eq!(anchor_origin(Anchor::BottomCenter, work(), SIZE, M), (450, 550));
    assert_eq!(anchor_origin(Anchor::MidLeft, work(), SIZE, M), (10, 280));
    assert_eq!(anchor_origin(Anchor::MidRight, work(), SIZE, M), (890, 280));
    assert_eq!(anchor_origin(Anchor::Center, work(), SIZE, M), (450, 280));
}

#[test]
fn anchor_respects_work_offset() {
    // Work area not at the origin (taskbar inset / secondary monitor).
    let w = Rect::new(100, 50, 1100, 650);
    assert_eq!(anchor_origin(Anchor::TopLeft, w, SIZE, M), (110, 60));
    assert_eq!(anchor_origin(Anchor::BottomRight, w, SIZE, M), (990, 600));
}

#[test]
fn clamp_inside_unchanged() {
    assert_eq!(clamp((500, 300), work(), SIZE), (500, 300));
}

#[test]
fn clamp_pushes_in() {
    assert_eq!(clamp((-50, -50), work(), SIZE), (0, 0));
    assert_eq!(clamp((5000, 5000), work(), SIZE), (900, 560));
}

#[test]
fn clamp_respects_bounds_offset() {
    let b = Rect::new(100, 50, 1100, 650);
    assert_eq!(clamp((0, 0), b, SIZE), (100, 50));
}

#[test]
fn clamp_pill_larger_than_bounds_pins_topleft() {
    let tiny = Rect::new(0, 0, 50, 20);
    assert_eq!(clamp((10, 10), tiny, (100, 40)), (0, 0));
}

// --- further cases ---

#[test]
fn format_exact_text() {
    assert_eq!(
        desktag::position::format(&Position::Anchor(Anchor::BottomRight)),
        "mode=anchor\nanchor=bottom-right\n"
    );
    assert_eq!(
        desktag::position::format(&Position::Custom { x: 1820, y: -12 }),
        "mode=custom\nx=1820\ny=-12\n"
    );
}

#[test]
fn roundtrip_custom_extremes() {
    for p in [
        Position::Custom { x: i32::MIN, y: i32::MAX },
        Position::Custom { x: 0, y: 0 },
    ] {
        assert_eq!(parse(&desktag::position::format(&p)), p);
    }
}

#[test]
fn parse_tolerates_spaces_and_crlf() {
    assert_eq!(
        parse("  mode = anchor \r\n anchor =  center\r\n"),
        Position::Anchor(Anchor::Center)
    );
    assert_eq!(
        parse("mode=custom\r\nx= +7 \r\ny=-3\r\n"),
        Position::Custom { x: 7, y: -3 }
    );
}

#[test]
fn parse_later_lines_win() {
    assert_eq!(
        parse("mode=anchor\nanchor=top-left\nanchor=mid-right"),
        Position::Anchor(Anchor::MidRight)
    );
    // An invalid later anchor clears an earlier valid one.
    assert_eq!(
        parse("mode=anchor\nanchor=top-left\nanchor=nowhere"),
        Position::default()
    );
    assert_eq!(
        parse("mode=anchor\nmode=custom\nx=1\ny=2"),
        Position::Custom { x: 1, y: 2 }
    );
}

#[test]
fn parse_value_keeps_text_after_second_equals() {
    // Only the first `=` splits; `x==5` has the value `=5`, which is no number.
    assert_eq!(parse("mode=custom\nx==5\ny=1"), Position::default());
}

#[test]
fn parse_rejects_out_of_range_coordinates() {
    assert_eq!(parse("mode=custom\nx=2147483648\ny=0"), Position::default());
    assert_eq!(
        parse("mode=custom\nx=-2147483648\ny=0"),
        Position::Custom { x: i32::MIN, y: 0 }
    );
    assert_eq!(parse("mode=custom\nx=-\ny=0"), Position::default());
    assert_eq!(parse("mode=custom\nx=+\ny=0"), Position::default());
}

#[test]
fn parse_unknown_mode_is_default() {
    assert_eq!(parse("mode=floating\nx=1\ny=2"), Position::default());
    assert_eq!(parse("anchor=center"), Position::default());
}

#[test]
fn tokens_and_labels() {
    assert_eq!(Anchor::TopLeft.token(), "top-left");
    assert_eq!(Anchor::BottomCenter.token(), "bottom-center");
    assert_eq!(Anchor::MidLeft.label(), "Middle left");
    assert_eq!(Anchor::Center.label(), "Center");
    assert_eq!(Anchor::from_token_chars(&['c', 'e', 'n', 't', 'e', 'r']), Some(Anchor::Center));
    assert_eq!(Anchor::from_token_chars(&['C', 'e', 'n', 't', 'e', 'r']), None);
    assert_eq!(Anchor::from_token("bottom-left"), Some(Anchor::BottomLeft));
    assert_eq!(Anchor::from_token(" center"), None);
}

#[test]
fn anchor_center_rounds_toward_zero() {
    // Work 101 wide, pill 100: (101-100)/2 = 0; pill wider: (100-103)/2 = -1.
    let w = Rect::new(0, 0, 101, 41);
    assert_eq!(anchor_origin(Anchor::Center, w, SIZE, 0), (0, 0));
    let narrow = Rect::new(0, 0, 100, 40);
    assert_eq!(anchor_origin(Anchor::Center, narrow, (103, 43), 0), (-1, -1));
}

#[test]
fn clamp_is_idempotent() {
    let b = Rect::new(100, 50, 1100, 650);
    for p in [(-3, 9000), (700, 40), (1200, 600)] {
        let once = clamp(p, b, SIZE);
        assert_eq!(clamp(once, b, SIZE), once);
    }
}

#[test]
fn clamp_keeps_pill_inside() {
    let b = Rect::new(-1920, 0, 0, 1080);
    let (x, y) = clamp((50, 2000), b, SIZE);
    assert!(x >= b.left && x + SIZE.0 <= b.right);
    assert!(y >= b.top && y + SIZE.1 <= b.bottom);
}
