use desktag::config::load;
use desktag::position::{Anchor, Position};

#[test]
fn load_none_path_is_default() {
    assert_eq!(load(None), Position::default());
}

#[test]
fn load_reads_saved_text() {
    let p = Position::Custom { x: 42, y: 99 };
    assert_eq!(load(Some(&desktag::position::format(&p))), p);
    let a = Position::Anchor(Anchor::MidRight);
    assert_eq!(load(Some(&desktag::position::format(&a))), a);
    assert_eq!(load(Some("garbage")), Position::default());
}
