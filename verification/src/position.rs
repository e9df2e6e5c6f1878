//! Badge-position model: the nine anchor presets, a custom point, the
//! `key=value` text that stores a position, and the geometry that turns a
//! position into a top-left origin.

use vstd::prelude::*;
use crate::text::{
    chars_eq, chars_of, fits_i32, parse_i32, parse_i32_chars, push_char, push_signed_decimal,
    signed_decimal, trim, trim_range, is_white_space, lemma_trim_unchanged, lemma_decimal_digits,
    lemma_parse_signed_decimal, is_digit, decimal,
};

verus! {

/// A plain rectangle (left, top, right, bottom), independent of any OS type.
#[derive(Clone, Copy, Debug, PartialEq, Eq, Structural)]
pub struct Rect {
    pub left: i32,
    pub top: i32,
    pub right: i32,
    pub bottom: i32,
}

impl Rect {
    pub fn new(left: i32, top: i32, right: i32, bottom: i32) -> (r: Self)
        ensures
            r == (Rect { left, top, right, bottom }),
    {
        Rect { left, top, right, bottom }
    }

    fn width(&self) -> (w: i32)
        requires
            fits_i32(self.right - self.left),
        ensures
            w == self.right - self.left,
    {
        self.right - self.left
    }

    fn height(&self) -> (h: i32)
        requires
            fits_i32(self.bottom - self.top),
        ensures
            h == self.bottom - self.top,
    {
        self.bottom - self.top
    }
}

/// Nine standard anchor positions.
#[derive(Clone, Copy, Debug, PartialEq, Eq, Structural)]
pub enum Anchor {
    TopLeft,
    TopCenter,
    TopRight,
    MidLeft,
    Center,
    MidRight,
    BottomLeft,
    BottomCenter,
    BottomRight,
}

/// The stable token of each anchor in the stored text.
pub open spec fn token_chars(a: Anchor) -> Seq<char> {
    match a {
        Anchor::TopLeft => seq!['t', 'o', 'p', '-', 'l', 'e', 'f', 't'],
        Anchor::TopCenter => seq!['t', 'o', 'p', '-', 'c', 'e', 'n', 't', 'e', 'r'],
        Anchor::TopRight => seq!['t', 'o', 'p', '-', 'r', 'i', 'g', 'h', 't'],
        Anchor::MidLeft => seq!['m', 'i', 'd', '-', 'l', 'e', 'f', 't'],
        Anchor::Center => seq!['c', 'e', 'n', 't', 'e', 'r'],
        Anchor::MidRight => seq!['m', 'i', 'd', '-', 'r', 'i', 'g', 'h', 't'],
        Anchor::BottomLeft => seq!['b', 'o', 't', 't', 'o', 'm', '-', 'l', 'e', 'f', 't'],
        Anchor::BottomCenter => seq![
            'b',
            'o',
            't',
            't',
            'o',
            'm',
            '-',
            'c',
            'e',
            'n',
            't',
            'e',
            'r',
        ],
        Anchor::BottomRight => seq!['b', 'o', 't', 't', 'o', 'm', '-', 'r', 'i', 'g', 'h', 't'],
    }
}

/// The human label of each anchor in the tray menu.
pub open spec fn label_chars(a: Anchor) -> Seq<char> {
    match a {
        Anchor::TopLeft => seq!['T', 'o', 'p', ' ', 'l', 'e', 'f', 't'],
        Anchor::TopCenter => seq!['T', 'o', 'p', ' ', 'c', 'e', 'n', 't', 'e', 'r'],
        Anchor::TopRight => seq!['T', 'o', 'p', ' ', 'r', 'i', 'g', 'h', 't'],
        Anchor::MidLeft => seq!['M', 'i', 'd', 'd', 'l', 'e', ' ', 'l', 'e', 'f', 't'],
        Anchor::Center => seq!['C', 'e', 'n', 't', 'e', 'r'],
        Anchor::MidRight => seq!['M', 'i', 'd', 'd', 'l', 'e', ' ', 'r', 'i', 'g', 'h', 't'],
        Anchor::BottomLeft => seq!['B', 'o', 't', 't', 'o', 'm', ' ', 'l', 'e', 'f', 't'],
        Anchor::BottomCenter => seq![
            'B',
            'o',
            't',
            't',
            'o',
            'm',
            ' ',
            'c',
            'e',
            'n',
            't',
            'e',
            'r',
        ],
        Anchor::BottomRight => seq!['B', 'o', 't', 't', 'o', 'm', ' ', 'r', 'i', 'g', 'h', 't'],
    }
}

/// The anchor whose token is `t`, looked up in reading order.
pub open spec fn anchor_from_token(t: Seq<char>) -> Option<Anchor> {
    if t == token_chars(Anchor::TopLeft) {
        Some(Anchor::TopLeft)
    } else if t == token_chars(Anchor::TopCenter) {
        Some(Anchor::TopCenter)
    } else if t == token_chars(Anchor::TopRight) {
        Some(Anchor::TopRight)
    } else if t == token_chars(Anchor::MidLeft) {
        Some(Anchor::MidLeft)
    } else if t == token_chars(Anchor::Center) {
        Some(Anchor::Center)
    } else if t == token_chars(Anchor::MidRight) {
        Some(Anchor::MidRight)
    } else if t == token_chars(Anchor::BottomLeft) {
        Some(Anchor::BottomLeft)
    } else if t == token_chars(Anchor::BottomCenter) {
        Some(Anchor::BottomCenter)
    } else if t == token_chars(Anchor::BottomRight) {
        Some(Anchor::BottomRight)
    } else {
        None
    }
}

impl Anchor {
    /// All nine in reading order (the order of the tray submenu).
    pub const ALL: [Anchor; 9] = [
        Anchor::TopLeft,
        Anchor::TopCenter,
        Anchor::TopRight,
        Anchor::MidLeft,
        Anchor::Center,
        Anchor::MidRight,
        Anchor::BottomLeft,
        Anchor::BottomCenter,
        Anchor::BottomRight,
    ];

    /// Stable token written to the config file.
    pub fn token(self) -> (t: &'static str)
        ensures
            t@ == token_chars(self),
    {
        match self {
            Anchor::TopLeft => {
                proof {
                    reveal_strlit("top-left");
                }
                "top-left"
            },
            Anchor::TopCenter => {
                proof {
                    reveal_strlit("top-center");
                }
                "top-center"
            },
            Anchor::TopRight => {
                proof {
                    reveal_strlit("top-right");
                }
                "top-right"
            },
            Anchor::MidLeft => {
                proof {
                    reveal_strlit("mid-left");
                }
                "mid-left"
            },
            Anchor::Center => {
                proof {
                    reveal_strlit("center");
                }
                "center"
            },
            Anchor::MidRight => {
                proof {
                    reveal_strlit("mid-right");
                }
                "mid-right"
            },
            Anchor::BottomLeft => {
                proof {
                    reveal_strlit("bottom-left");
                }
                "bottom-left"
            },
            Anchor::BottomCenter => {
                proof {
                    reveal_strlit("bottom-center");
                }
                "bottom-center"
            },
            Anchor::BottomRight => {
                proof {
                    reveal_strlit("bottom-right");
                }
                "bottom-right"
            },
        }
    }

    /// Human label for the tray menu.
    pub fn label(self) -> (t: &'static str)
        ensures
            t@ == label_chars(self),
    {
        match self {
            Anchor::TopLeft => {
                proof {
                    reveal_strlit("Top left");
                }
                "Top left"
            },
            Anchor::TopCenter => {
                proof {
                    reveal_strlit("Top center");
                }
                "Top center"
            },
            Anchor::TopRight => {
                proof {
                    reveal_strlit("Top right");
                }
                "Top right"
            },
            Anchor::MidLeft => {
                proof {
                    reveal_strlit("Middle left");
                }
                "Middle left"
            },
            Anchor::Center => {
                proof {
                    reveal_strlit("Center");
                }
                "Center"
            },
            Anchor::MidRight => {
                proof {
                    reveal_strlit("Middle right");
                }
                "Middle right"
            },
            Anchor::BottomLeft => {
                proof {
                    reveal_strlit("Bottom left");
                }
                "Bottom left"
            },
            Anchor::BottomCenter => {
                proof {
                    reveal_strlit("Bottom center");
                }
                "Bottom center"
            },
            Anchor::BottomRight => {
                proof {
                    reveal_strlit("Bottom right");
                }
                "Bottom right"
            },
        }
    }

    /// The anchor whose token is `s`, if any.
    pub fn from_token(s: &str) -> (r: Option<Anchor>)
        ensures
            r == anchor_from_token(s@),
    {
        let cs = chars_of(s);
        Self::from_token_chars(&cs)
    }

    /// The anchor whose token is `cs`, if any.
    pub fn from_token_chars(cs: &[char]) -> (r: Option<Anchor>)
        ensures
            r == anchor_from_token(cs@),
    {
        let all = Anchor::ALL;
        let mut i: usize = 0;
        while i < 9
            invariant
                i <= 9,
                all@ == seq![
                    Anchor::TopLeft,
                    Anchor::TopCenter,
                    Anchor::TopRight,
                    Anchor::MidLeft,
                    Anchor::Center,
                    Anchor::MidRight,
                    Anchor::BottomLeft,
                    Anchor::BottomCenter,
                    Anchor::BottomRight,
                ],
                forall|j: int| 0 <= j < i ==> cs@ != token_chars(#[trigger] all@[j]),
            decreases 9 - i,
        {
            let a = all[i];
            let t = chars_of(a.token());
            if chars_eq(cs, &t) {
                return Some(a);
            }
            i = i + 1;
        }
        None
    }
}


/// Where the badge sits: a named anchor, or an absolute custom point on the
/// virtual screen.
#[derive(Clone, Copy, Debug, PartialEq, Eq, Structural)]
pub enum Position {
    Anchor(Anchor),
    Custom { x: i32, y: i32 },
}

/// The position used when nothing (valid) is stored: top center.
pub open spec fn default_position() -> Position {
    Position::Anchor(Anchor::TopCenter)
}

impl Default for Position {
    fn default() -> (p: Self)
        ensures
            p == default_position(),
    {
        Position::Anchor(Anchor::TopCenter)
    }
}

/// The stored text of a position.
pub open spec fn format_spec(p: Position) -> Seq<char> {
    match p {
        Position::Anchor(a) => seq!['m', 'o', 'd', 'e', '=', 'a', 'n', 'c', 'h', 'o', 'r', '\n']
            + seq!['a', 'n', 'c', 'h', 'o', 'r', '='] + token_chars(a) + seq!['\n'],
        Position::Custom { x, y } => seq![
            'm',
            'o',
            'd',
            'e',
            '=',
            'c',
            'u',
            's',
            't',
            'o',
            'm',
            '\n',
        ] + seq!['x', '='] + signed_decimal(x as int) + seq!['\n'] + seq!['y', '=']
            + signed_decimal(y as int) + seq!['\n'],
    }
}

/// Appends the characters of a string literal.
fn push_str(s: &mut String, t: &str)
    ensures
        final(s)@ == old(s)@ + t@,
{
    let cs = chars_of(t);
    let mut i: usize = 0;
    while i < cs.len()
        invariant
            i <= cs.len(),
            cs@ == t@,
            s@ == old(s)@ + cs@.take(i as int),
        decreases cs.len() - i,
    {
        push_char(s, cs[i]);
        i = i + 1;
        assert(s@ =~= old(s)@ + cs@.take(i as int));
    }
    assert(cs@.take(cs.len() as int) =~= cs@);
}

/// Serialize to the `key=value` config body.
pub fn format(pos: &Position) -> (s: String)
    ensures
        s@ == format_spec(*pos),
{
    let mut s = String::new();
    match pos {
        Position::Anchor(a) => {
            push_str(&mut s, "mode=anchor\nanchor=");
            push_str(&mut s, a.token());
            push_str(&mut s, "\n");
            proof {
                reveal_strlit("mode=anchor\nanchor=");
                reveal_strlit("\n");
            }
        },
        Position::Custom { x, y } => {
            push_str(&mut s, "mode=custom\nx=");
            push_signed_decimal(&mut s, *x);
            push_str(&mut s, "\ny=");
            push_signed_decimal(&mut s, *y);
            push_str(&mut s, "\n");
            proof {
                reveal_strlit("mode=custom\nx=");
                reveal_strlit("\ny=");
                reveal_strlit("\n");
            }
        },
    }
    assert(s@ =~= format_spec(*pos));
    s
}

/// The fields read from the stored text so far: `mode`, `anchor`, `x`, `y`.
pub type Fields = (Option<Seq<char>>, Option<Anchor>, Option<i32>, Option<i32>);

/// Index of the first `=` in `line` at or after `i`.
pub open spec fn first_eq_from(line: Seq<char>, i: int) -> Option<int>
    decreases line.len() - i,
{
    if i < 0 || i >= line.len() {
        None
    } else if line[i] == '=' {
        Some(i)
    } else {
        first_eq_from(line, i + 1)
    }
}

/// What one line does to the fields: a line `key=value` (split at its first
/// `=`, both sides trimmed) sets the field named by the key; lines without
/// `=` and unknown keys change nothing. An `anchor` value that is no token
/// clears the anchor; an `x`/`y` value that is no `i32` clears it.
pub open spec fn apply_line(f: Fields, line: Seq<char>) -> Fields {
    match first_eq_from(line, 0) {
        None => f,
        Some(i) => {
            let k = trim(line.take(i));
            let v = trim(line.skip(i + 1));
            if k == seq!['m', 'o', 'd', 'e'] {
                (Some(v), f.1, f.2, f.3)
            } else if k == seq!['a', 'n', 'c', 'h', 'o', 'r'] {
                (f.0, anchor_from_token(v), f.2, f.3)
            } else if k == seq!['x'] {
                (f.0, f.1, parse_i32(v), f.3)
            } else if k == seq!['y'] {
                (f.0, f.1, f.2, parse_i32(v))
            } else {
                f
            }
        },
    }
}

/// Reading the text left to right: the fields from the complete lines, and
/// the line being read.
pub open spec fn scan(s: Seq<char>) -> (Fields, Seq<char>)
    decreases s.len(),
{
    if s.len() == 0 {
        ((None, None, None, None), Seq::<char>::empty())
    } else {
        let (f, line) = scan(s.drop_last());
        if s.last() == '\n' {
            (apply_line(f, line), Seq::<char>::empty())
        } else {
            (f, line.push(s.last()))
        }
    }
}

/// The fields of the whole text: every line, separated by `\n`, in order
/// (a `\r` before a `\n` is trimmed away with the value).
pub open spec fn fields_of(s: Seq<char>) -> Fields {
    let (f, line) = scan(s);
    apply_line(f, line)
}

/// The position the fields describe; anything missing or invalid gives the
/// default.
pub open spec fn position_of(f: Fields) -> Position {
    if f.0 == Some(seq!['a', 'n', 'c', 'h', 'o', 'r']) {
        match f.1 {
            Some(a) => Position::Anchor(a),
            None => default_position(),
        }
    } else if f.0 == Some(seq!['c', 'u', 's', 't', 'o', 'm']) {
        match (f.2, f.3) {
            (Some(x), Some(y)) => Position::Custom { x, y },
            _ => default_position(),
        }
    } else {
        default_position()
    }
}

/// The position stored in the text `s`.
pub open spec fn parse_spec(s: Seq<char>) -> Position {
    position_of(fields_of(s))
}

/// The exec form of the fields.
struct FieldsExec {
    mode: Option<Vec<char>>,
    anchor: Option<Anchor>,
    x: Option<i32>,
    y: Option<i32>,
}

impl FieldsExec {
    spec fn view(&self) -> Fields {
        (
            match self.mode {
                Some(m) => Some(m@),
                None => None,
            },
            self.anchor,
            self.x,
            self.y,
        )
    }
}

/// Applies the line `cs[lo..hi]` to the fields.
fn apply_line_exec(f: FieldsExec, cs: &[char], lo: usize, hi: usize) -> (r: FieldsExec)
    requires
        lo <= hi <= cs.len(),
    ensures
        r.view() == apply_line(f.view(), cs@.subrange(lo as int, hi as int)),
{
    let ghost line = cs@.subrange(lo as int, hi as int);
    let mut e = lo;
    while e < hi && cs[e] != '='
        invariant
            lo <= e <= hi <= cs.len(),
            line == cs@.subrange(lo as int, hi as int),
            first_eq_from(line, 0) == first_eq_from(line, e - lo),
        decreases hi - e,
    {
        e = e + 1;
    }
    if e == hi {
        return f;
    }
    assert(first_eq_from(line, 0) == Some(e - lo));
    let k = trim_range(cs, lo, e);
    let v = trim_range(cs, e + 1, hi);
    assert(line.take(e - lo) =~= cs@.subrange(lo as int, e as int));
    assert(line.skip(e - lo + 1) =~= cs@.subrange(e + 1, hi as int));
    let mode_word = ['m', 'o', 'd', 'e'];
    let anchor_word = ['a', 'n', 'c', 'h', 'o', 'r'];
    let x_word = ['x'];
    let y_word = ['y'];
    assert(mode_word@ =~= seq!['m', 'o', 'd', 'e']);
    assert(anchor_word@ =~= seq!['a', 'n', 'c', 'h', 'o', 'r']);
    assert(x_word@ =~= seq!['x']);
    assert(y_word@ =~= seq!['y']);
    if chars_eq(&k, &mode_word) {
        FieldsExec { mode: Some(v), anchor: f.anchor, x: f.x, y: f.y }
    } else if chars_eq(&k, &anchor_word) {
        FieldsExec { mode: f.mode, anchor: Anchor::from_token_chars(&v), x: f.x, y: f.y }
    } else if chars_eq(&k, &x_word) {
        FieldsExec { mode: f.mode, anchor: f.anchor, x: parse_i32_chars(&v), y: f.y }
    } else if chars_eq(&k, &y_word) {
        FieldsExec { mode: f.mode, anchor: f.anchor, x: f.x, y: parse_i32_chars(&v) }
    } else {
        f
    }
}

/// Parse the config body. Any missing/garbage field falls back to the default.
pub fn parse(s: &str) -> (p: Position)
    ensures
        p == parse_spec(s@),
{
    let cs = chars_of(s);
    let mut f = FieldsExec { mode: None, anchor: None, x: None, y: None };
    let mut ls: usize = 0;
    let mut i: usize = 0;
    while i < cs.len()
        invariant
            ls <= i <= cs.len(),
            scan(cs@.take(i as int)) == (f.view(), cs@.subrange(ls as int, i as int)),
        decreases cs.len() - i,
    {
        let ghost pre = cs@.take(i as int);
        assert(cs@.take(i + 1).drop_last() =~= pre);
        if cs[i] == '\n' {
            f = apply_line_exec(f, &cs, ls, i);
            ls = i + 1;
            i = i + 1;
            assert(cs@.subrange(ls as int, i as int) =~= Seq::<char>::empty());
        } else {
            i = i + 1;
            assert(cs@.subrange(ls as int, i as int) =~= cs@.subrange(ls as int, i - 1).push(
                cs@[i - 1],
            ));
        }
    }
    assert(cs@.take(cs.len() as int) =~= cs@);
    f = apply_line_exec(f, &cs, ls, cs.len());
    let anchor_word = ['a', 'n', 'c', 'h', 'o', 'r'];
    let custom_word = ['c', 'u', 's', 't', 'o', 'm'];
    assert(anchor_word@ =~= seq!['a', 'n', 'c', 'h', 'o', 'r']);
    assert(custom_word@ =~= seq!['c', 'u', 's', 't', 'o', 'm']);
    match f.mode {
        Some(m) => {
            if chars_eq(&m, &anchor_word) {
                match f.anchor {
                    Some(a) => Position::Anchor(a),
                    None => Position::default(),
                }
            } else if chars_eq(&m, &custom_word) {
                match (f.x, f.y) {
                    (Some(x), Some(y)) => Position::Custom { x, y },
                    _ => Position::default(),
                }
            } else {
                Position::default()
            }
        },
        None => Position::default(),
    }
}


/// Reading characters that contain no line break only extends the current
/// line.
proof fn lemma_scan_plain(p: Seq<char>, t: Seq<char>)
    requires
        forall|i: int| 0 <= i < t.len() ==> t[i] != '\n',
    ensures
        scan(p + t) == (scan(p).0, scan(p).1 + t),
    decreases t.len(),
{
    if t.len() == 0 {
        assert(p + t =~= p);
        assert(scan(p).1 + t =~= scan(p).1);
    } else {
        lemma_scan_plain(p, t.drop_last());
        assert((p + t).drop_last() =~= p + t.drop_last());
        assert(scan(p).1 + t.drop_last().push(t.last()) =~= scan(p).1 + t);
    }
}

/// A line break ends the current line and applies it.
proof fn lemma_scan_line(p: Seq<char>, t: Seq<char>)
    requires
        forall|i: int| 0 <= i < t.len() ==> t[i] != '\n',
    ensures
        scan((p + t).push('\n')) == (apply_line(scan(p).0, scan(p).1 + t), Seq::<char>::empty()),
{
    lemma_scan_plain(p, t);
    assert((p + t).push('\n').drop_last() =~= p + t);
}

proof fn lemma_first_eq(line: Seq<char>, i: int, e: int)
    requires
        0 <= i <= e < line.len(),
        line[e] == '=',
        forall|j: int| i <= j < e ==> line[j] != '=',
    ensures
        first_eq_from(line, i) == Some(e),
    decreases e - i,
{
    if i < e {
        lemma_first_eq(line, i + 1, e);
    }
}

/// A line `k=v` whose key has no `=` and whose key and value carry no
/// surrounding white space sets the field named by `k` to `v`.
proof fn lemma_apply_key_value(f: Fields, k: Seq<char>, v: Seq<char>)
    requires
        k.len() > 0,
        forall|j: int| 0 <= j < k.len() ==> k[j] != '=',
        !is_white_space(k[0]),
        !is_white_space(k.last()),
        v.len() > 0 ==> !is_white_space(v[0]) && !is_white_space(v.last()),
    ensures
        ({
            let line = k + seq!['='] + v;
            apply_line(f, line) == (if k == seq!['m', 'o', 'd', 'e'] {
                (Some(v), f.1, f.2, f.3)
            } else if k == seq!['a', 'n', 'c', 'h', 'o', 'r'] {
                (f.0, anchor_from_token(v), f.2, f.3)
            } else if k == seq!['x'] {
                (f.0, f.1, parse_i32(v), f.3)
            } else if k == seq!['y'] {
                (f.0, f.1, f.2, parse_i32(v))
            } else {
                f
            })
        }),
{
    let line = k + seq!['='] + v;
    lemma_first_eq(line, 0, k.len() as int);
    assert(line.take(k.len() as int) =~= k);
    assert(line.skip(k.len() + 1int) =~= v);
    lemma_trim_unchanged(k);
    lemma_trim_unchanged(v);
}

proof fn lemma_token_plain(a: Anchor)
    ensures
        token_chars(a).len() > 0,
        !is_white_space(token_chars(a)[0]),
        !is_white_space(token_chars(a).last()),
        forall|i: int| 0 <= i < token_chars(a).len() ==> token_chars(a)[i] != '\n',
        anchor_from_token(token_chars(a)) == Some(a),
{
    let t = token_chars(a);
    assert forall|i: int| 0 <= i < t.len() implies t[i] != '\n' by {
        assert(t[i] == '-' || ('a' <= t[i] <= 'z'));
    }
    match a {
        Anchor::TopLeft => {},
        Anchor::TopCenter => {
            assert(t[4] != token_chars(Anchor::TopLeft)[4]);
        },
        Anchor::TopRight => {
            assert(t[4] != token_chars(Anchor::TopLeft)[4]);
        },
        Anchor::MidLeft => {
            assert(t[0] != token_chars(Anchor::TopLeft)[0]);
        },
        Anchor::Center => {},
        Anchor::MidRight => {
            assert(t[0] != token_chars(Anchor::TopRight)[0]);
        },
        Anchor::BottomLeft => {},
        Anchor::BottomCenter => {},
        Anchor::BottomRight => {},
    }
}

proof fn lemma_decimal_plain(v: i32)
    ensures
        signed_decimal(v as int).len() > 0,
        !is_white_space(signed_decimal(v as int)[0]),
        !is_white_space(signed_decimal(v as int).last()),
        forall|i: int|
            0 <= i < signed_decimal(v as int).len() ==> signed_decimal(v as int)[i] != '\n',
{
    let m: nat = if v < 0 {
        (-v) as nat
    } else {
        v as nat
    };
    lemma_decimal_digits(m);
    let d = decimal(m);
    let s = signed_decimal(v as int);
    assert(is_digit(d[0]));
    assert(is_digit(d[d.len() - 1]));
    assert forall|i: int| 0 <= i < s.len() implies s[i] != '\n' by {
        if v < 0 {
            if i > 0 {
                assert(s[i] == d[i - 1]);
                assert(is_digit(d[i - 1]));
            }
        } else {
            assert(is_digit(d[i]));
        }
    }
}

/// The stored tokens and menu labels of the nine anchors, as texts.
pub proof fn lemma_anchor_texts()
    ensures
        token_chars(Anchor::TopLeft) == seq!['t', 'o', 'p', '-', 'l', 'e', 'f', 't'],
        token_chars(Anchor::TopCenter) == seq!['t', 'o', 'p', '-', 'c', 'e', 'n', 't', 'e', 'r'],
        token_chars(Anchor::TopRight) == seq!['t', 'o', 'p', '-', 'r', 'i', 'g', 'h', 't'],
        token_chars(Anchor::MidLeft) == seq!['m', 'i', 'd', '-', 'l', 'e', 'f', 't'],
        token_chars(Anchor::Center) == seq!['c', 'e', 'n', 't', 'e', 'r'],
        token_chars(Anchor::MidRight) == seq!['m', 'i', 'd', '-', 'r', 'i', 'g', 'h', 't'],
        token_chars(Anchor::BottomLeft) == seq!['b', 'o', 't', 't', 'o', 'm', '-', 'l', 'e', 'f', 't'],
        token_chars(Anchor::BottomCenter) == seq!['b', 'o', 't', 't', 'o', 'm', '-', 'c', 'e', 'n', 't', 'e', 'r'],
        token_chars(Anchor::BottomRight) == seq!['b', 'o', 't', 't', 'o', 'm', '-', 'r', 'i', 'g', 'h', 't'],
        label_chars(Anchor::TopLeft) == seq!['T', 'o', 'p', ' ', 'l', 'e', 'f', 't'],
        label_chars(Anchor::TopCenter) == seq!['T', 'o', 'p', ' ', 'c', 'e', 'n', 't', 'e', 'r'],
        label_chars(Anchor::TopRight) == seq!['T', 'o', 'p', ' ', 'r', 'i', 'g', 'h', 't'],
        label_chars(Anchor::MidLeft) == seq!['M', 'i', 'd', 'd', 'l', 'e', ' ', 'l', 'e', 'f', 't'],
        label_chars(Anchor::Center) == seq!['C', 'e', 'n', 't', 'e', 'r'],
        label_chars(Anchor::MidRight) == seq!['M', 'i', 'd', 'd', 'l', 'e', ' ', 'r', 'i', 'g', 'h', 't'],
        label_chars(Anchor::BottomLeft) == seq!['B', 'o', 't', 't', 'o', 'm', ' ', 'l', 'e', 'f', 't'],
        label_chars(Anchor::BottomCenter) == seq!['B', 'o', 't', 't', 'o', 'm', ' ', 'c', 'e', 'n', 't', 'e', 'r'],
        label_chars(Anchor::BottomRight) == seq!['B', 'o', 't', 't', 'o', 'm', ' ', 'r', 'i', 'g', 'h', 't'],
{
}

proof fn lemma_anchor_text(a: Anchor, t: Seq<char>)
    requires
        token_chars(a) == t,
    ensures
        format_spec(Position::Anchor(a)) == seq!['m', 'o', 'd', 'e', '=', 'a', 'n', 'c', 'h', 'o', 'r', '\n', 'a', 'n', 'c', 'h', 'o', 'r', '='] + t + seq!['\n'],
        parse_spec(seq!['m', 'o', 'd', 'e', '=', 'a', 'n', 'c', 'h', 'o', 'r', '\n', 'a', 'n', 'c', 'h', 'o', 'r', '='] + t + seq!['\n']) == Position::Anchor(a),
{
    lemma_roundtrip_anchor(a);
    assert(format_spec(Position::Anchor(a)) =~= seq!['m', 'o', 'd', 'e', '=', 'a', 'n', 'c', 'h', 'o', 'r', '\n', 'a', 'n', 'c', 'h', 'o', 'r', '='] + t + seq!['\n']);
}

/// Each anchor is stored as `mode=anchor`, then `anchor=` and its fixed
/// token, and that text reads back as the same anchor.
pub proof fn lemma_anchor_text_reads_back()
    ensures
        format_spec(Position::Anchor(Anchor::TopLeft)) == seq!['m', 'o', 'd', 'e', '=', 'a', 'n', 'c', 'h', 'o', 'r', '\n', 'a', 'n', 'c', 'h', 'o', 'r', '='] + seq!['t', 'o', 'p', '-', 'l', 'e', 'f', 't'] + seq!['\n'],
        format_spec(Position::Anchor(Anchor::TopCenter)) == seq!['m', 'o', 'd', 'e', '=', 'a', 'n', 'c', 'h', 'o', 'r', '\n', 'a', 'n', 'c', 'h', 'o', 'r', '='] + seq!['t', 'o', 'p', '-', 'c', 'e', 'n', 't', 'e', 'r'] + seq!['\n'],
        format_spec(Position::Anchor(Anchor::TopRight)) == seq!['m', 'o', 'd', 'e', '=', 'a', 'n', 'c', 'h', 'o', 'r', '\n', 'a', 'n', 'c', 'h', 'o', 'r', '='] + seq!['t', 'o', 'p', '-', 'r', 'i', 'g', 'h', 't'] + seq!['\n'],
        format_spec(Position::Anchor(Anchor::MidLeft)) == seq!['m', 'o', 'd', 'e', '=', 'a', 'n', 'c', 'h', 'o', 'r', '\n', 'a', 'n', 'c', 'h', 'o', 'r', '='] + seq!['m', 'i', 'd', '-', 'l', 'e', 'f', 't'] + seq!['\n'],
        format_spec(Position::Anchor(Anchor::Center)) == seq!['m', 'o', 'd', 'e', '=', 'a', 'n', 'c', 'h', 'o', 'r', '\n', 'a', 'n', 'c', 'h', 'o', 'r', '='] + seq!['c', 'e', 'n', 't', 'e', 'r'] + seq!['\n'],
        format_spec(Position::Anchor(Anchor::MidRight)) == seq!['m', 'o', 'd', 'e', '=', 'a', 'n', 'c', 'h', 'o', 'r', '\n', 'a', 'n', 'c', 'h', 'o', 'r', '='] + seq!['m', 'i', 'd', '-', 'r', 'i', 'g', 'h', 't'] + seq!['\n'],
        format_spec(Position::Anchor(Anchor::BottomLeft)) == seq!['m', 'o', 'd', 'e', '=', 'a', 'n', 'c', 'h', 'o', 'r', '\n', 'a', 'n', 'c', 'h', 'o', 'r', '='] + seq!['b', 'o', 't', 't', 'o', 'm', '-', 'l', 'e', 'f', 't'] + seq!['\n'],
        format_spec(Position::Anchor(Anchor::BottomCenter)) == seq!['m', 'o', 'd', 'e', '=', 'a', 'n', 'c', 'h', 'o', 'r', '\n', 'a', 'n', 'c', 'h', 'o', 'r', '='] + seq!['b', 'o', 't', 't', 'o', 'm', '-', 'c', 'e', 'n', 't', 'e', 'r'] + seq!['\n'],
        format_spec(Position::Anchor(Anchor::BottomRight)) == seq!['m', 'o', 'd', 'e', '=', 'a', 'n', 'c', 'h', 'o', 'r', '\n', 'a', 'n', 'c', 'h', 'o', 'r', '='] + seq!['b', 'o', 't', 't', 'o', 'm', '-', 'r', 'i', 'g', 'h', 't'] + seq!['\n'],
        parse_spec(seq!['m', 'o', 'd', 'e', '=', 'a', 'n', 'c', 'h', 'o', 'r', '\n', 'a', 'n', 'c', 'h', 'o', 'r', '='] + seq!['t', 'o', 'p', '-', 'l', 'e', 'f', 't'] + seq!['\n']) == Position::Anchor(Anchor::TopLeft),
        parse_spec(seq!['m', 'o', 'd', 'e', '=', 'a', 'n', 'c', 'h', 'o', 'r', '\n', 'a', 'n', 'c', 'h', 'o', 'r', '='] + seq!['t', 'o', 'p', '-', 'c', 'e', 'n', 't', 'e', 'r'] + seq!['\n']) == Position::Anchor(Anchor::TopCenter),
        parse_spec(seq!['m', 'o', 'd', 'e', '=', 'a', 'n', 'c', 'h', 'o', 'r', '\n', 'a', 'n', 'c', 'h', 'o', 'r', '='] + seq!['t', 'o', 'p', '-', 'r', 'i', 'g', 'h', 't'] + seq!['\n']) == Position::Anchor(Anchor::TopRight),
        parse_spec(seq!['m', 'o', 'd', 'e', '=', 'a', 'n', 'c', 'h', 'o', 'r', '\n', 'a', 'n', 'c', 'h', 'o', 'r', '='] + seq!['m', 'i', 'd', '-', 'l', 'e', 'f', 't'] + seq!['\n']) == Position::Anchor(Anchor::MidLeft),
        parse_spec(seq!['m', 'o', 'd', 'e', '=', 'a', 'n', 'c', 'h', 'o', 'r', '\n', 'a', 'n', 'c', 'h', 'o', 'r', '='] + seq!['c', 'e', 'n', 't', 'e', 'r'] + seq!['\n']) == Position::Anchor(Anchor::Center),
        parse_spec(seq!['m', 'o', 'd', 'e', '=', 'a', 'n', 'c', 'h', 'o', 'r', '\n', 'a', 'n', 'c', 'h', 'o', 'r', '='] + seq!['m', 'i', 'd', '-', 'r', 'i', 'g', 'h', 't'] + seq!['\n']) == Position::Anchor(Anchor::MidRight),
        parse_spec(seq!['m', 'o', 'd', 'e', '=', 'a', 'n', 'c', 'h', 'o', 'r', '\n', 'a', 'n', 'c', 'h', 'o', 'r', '='] + seq!['b', 'o', 't', 't', 'o', 'm', '-', 'l', 'e', 'f', 't'] + seq!['\n']) == Position::Anchor(Anchor::BottomLeft),
        parse_spec(seq!['m', 'o', 'd', 'e', '=', 'a', 'n', 'c', 'h', 'o', 'r', '\n', 'a', 'n', 'c', 'h', 'o', 'r', '='] + seq!['b', 'o', 't', 't', 'o', 'm', '-', 'c', 'e', 'n', 't', 'e', 'r'] + seq!['\n']) == Position::Anchor(Anchor::BottomCenter),
        parse_spec(seq!['m', 'o', 'd', 'e', '=', 'a', 'n', 'c', 'h', 'o', 'r', '\n', 'a', 'n', 'c', 'h', 'o', 'r', '='] + seq!['b', 'o', 't', 't', 'o', 'm', '-', 'r', 'i', 'g', 'h', 't'] + seq!['\n']) == Position::Anchor(Anchor::BottomRight),
{
    lemma_anchor_text(Anchor::TopLeft, seq!['t', 'o', 'p', '-', 'l', 'e', 'f', 't']);
    lemma_anchor_text(Anchor::TopCenter, seq!['t', 'o', 'p', '-', 'c', 'e', 'n', 't', 'e', 'r']);
    lemma_anchor_text(Anchor::TopRight, seq!['t', 'o', 'p', '-', 'r', 'i', 'g', 'h', 't']);
    lemma_anchor_text(Anchor::MidLeft, seq!['m', 'i', 'd', '-', 'l', 'e', 'f', 't']);
    lemma_anchor_text(Anchor::Center, seq!['c', 'e', 'n', 't', 'e', 'r']);
    lemma_anchor_text(Anchor::MidRight, seq!['m', 'i', 'd', '-', 'r', 'i', 'g', 'h', 't']);
    lemma_anchor_text(Anchor::BottomLeft, seq!['b', 'o', 't', 't', 'o', 'm', '-', 'l', 'e', 'f', 't']);
    lemma_anchor_text(Anchor::BottomCenter, seq!['b', 'o', 't', 't', 'o', 'm', '-', 'c', 'e', 'n', 't', 'e', 'r']);
    lemma_anchor_text(Anchor::BottomRight, seq!['b', 'o', 't', 't', 'o', 'm', '-', 'r', 'i', 'g', 'h', 't']);
}

/// Every anchor's token reads back as that anchor.
pub proof fn lemma_anchor_token_roundtrip(a: Anchor)
    ensures
        anchor_from_token(token_chars(a)) == Some(a),
{
    lemma_token_plain(a);
}

#[verifier::spinoff_prover]
#[verifier::rlimit(30)]
proof fn lemma_roundtrip_anchor(a: Anchor)
    ensures
    parse_spec(format_spec(Position::Anchor(a))) == Position::Anchor(a),
{
    let p = Position::Anchor(a);
    let init: Fields = (None, None, None, None);
    let empty = Seq::<char>::empty();
    let mode_k = seq!['m', 'o', 'd', 'e'];
    let eq = seq!['='];
    assert(scan(empty) == (init, empty));
    let mode_v = seq!['a', 'n', 'c', 'h', 'o', 'r'];
    let l1 = mode_k + eq + mode_v;
    let l2 = mode_v + eq + token_chars(a);
    lemma_token_plain(a);
    assert forall|i: int| 0 <= i < l1.len() implies l1[i] != '\n' by {}
    assert forall|i: int| 0 <= i < l2.len() implies l2[i] != '\n' by {
        if i >= 7 {
            assert(l2[i] == token_chars(a)[i - 7]);
        }
    }
    lemma_scan_line(empty, l1);
    assert(empty + l1 =~= l1);
    let p1 = l1.push('\n');
    lemma_apply_key_value(init, mode_k, mode_v);
    let f1 = apply_line(init, l1);
    assert(f1 == (Some(mode_v), None::<Anchor>, None::<i32>, None::<i32>));
    assert(scan(p1) == (f1, empty));
    lemma_scan_line(p1, l2);
    assert(empty + l2 =~= l2);
    lemma_apply_key_value(f1, mode_v, token_chars(a));
    let f2 = apply_line(f1, l2);
    assert(f2 == (Some(mode_v), Some(a), None::<i32>, None::<i32>));
    assert((p1 + l2).push('\n') =~= format_spec(p));
    assert(first_eq_from(empty, 0) == None::<int>);
}

/// After complete lines with fields `f`, one more line `k=v` and its line
/// break apply that line.
proof fn lemma_scan_key_value_line(p: Seq<char>, f: Fields, k: Seq<char>, v: Seq<char>)
    requires
        scan(p) == (f, Seq::<char>::empty()),
        k.len() > 0,
        forall|j: int| 0 <= j < k.len() ==> k[j] != '=' && k[j] != '\n',
        forall|j: int| 0 <= j < v.len() ==> v[j] != '\n',
        !is_white_space(k[0]),
        !is_white_space(k.last()),
        v.len() > 0 ==> !is_white_space(v[0]) && !is_white_space(v.last()),
    ensures
        scan((p + (k + seq!['='] + v)).push('\n')) == (
            apply_line(f, k + seq!['='] + v),
            Seq::<char>::empty(),
        ),
{
    let line = k + seq!['='] + v;
    assert forall|j: int| 0 <= j < line.len() implies line[j] != '\n' by {
        if j < k.len() {
        } else if j > k.len() {
            assert(line[j] == v[j - k.len() - 1]);
        }
    }
    lemma_scan_line(p, line);
    assert(Seq::<char>::empty() + line =~= line);
}

#[verifier::spinoff_prover]
proof fn lemma_roundtrip_custom(x: i32, y: i32)
    ensures
        parse_spec(format_spec(Position::Custom { x, y })) == (Position::Custom { x, y }),
{
    let init: Fields = (None, None, None, None);
    let empty = Seq::<char>::empty();
    let mode_k = seq!['m', 'o', 'd', 'e'];
    let mode_v = seq!['c', 'u', 's', 't', 'o', 'm'];
    let eq = seq!['='];
    let dx = signed_decimal(x as int);
    let dy = signed_decimal(y as int);
    assert(scan(empty) == (init, empty));
    lemma_decimal_plain(x);
    lemma_decimal_plain(y);
    lemma_parse_signed_decimal(x);
    lemma_parse_signed_decimal(y);
    let l1 = mode_k + eq + mode_v;
    let l2 = seq!['x'] + eq + dx;
    let l3 = seq!['y'] + eq + dy;
    lemma_scan_key_value_line(empty, init, mode_k, mode_v);
    lemma_apply_key_value(init, mode_k, mode_v);
    let f1 = apply_line(init, l1);
    assert(f1 == (Some(mode_v), None::<Anchor>, None::<i32>, None::<i32>));
    let p1 = (empty + l1).push('\n');
    lemma_scan_key_value_line(p1, f1, seq!['x'], dx);
    lemma_apply_key_value(f1, seq!['x'], dx);
    let f2 = apply_line(f1, l2);
    assert(f2 == (Some(mode_v), None::<Anchor>, Some(x), None::<i32>));
    let p2 = (p1 + l2).push('\n');
    lemma_scan_key_value_line(p2, f2, seq!['y'], dy);
    lemma_apply_key_value(f2, seq!['y'], dy);
    let f3 = apply_line(f2, l3);
    assert(f3 == (Some(mode_v), None::<Anchor>, Some(x), Some(y)));
    let p3 = (p2 + l3).push('\n');
    assert(p3 =~= format_spec(Position::Custom { x, y }));
    assert(first_eq_from(empty, 0) == None::<int>);
    assert(fields_of(p3) == f3);
}

/// Reading back the stored text of a position gives the same position.
pub proof fn lemma_parse_format_roundtrip(p: Position)
    ensures
        parse_spec(format_spec(p)) == p,
{
    match p {
        Position::Anchor(a) => lemma_roundtrip_anchor(a),
        Position::Custom { x, y } => lemma_roundtrip_custom(x, y),
    }
}

/// `v / 2` as Rust's integer division computes it (rounding toward zero).
pub open spec fn half_toward_zero(v: int) -> int {
    if v >= 0 {
        v / 2
    } else {
        -((-v) / 2)
    }
}

/// Left, right and centered x, then top, bottom and centered y, of a pill
/// of `w`×`h` inside `work`, inset by `m`.
pub open spec fn origin_terms(work: Rect, w: int, h: int, m: int) -> (
    int,
    int,
    int,
    int,
    int,
    int,
) {
    (
        work.left + m,
        work.right - w - m,
        work.left + half_toward_zero((work.right - work.left) - w),
        work.top + m,
        work.bottom - h - m,
        work.top + half_toward_zero((work.bottom - work.top) - h),
    )
}

/// Every intermediate value of the origin computation fits in `i32`.
pub open spec fn origin_in_range(work: Rect, w: int, h: int, m: int) -> bool {
    let t = origin_terms(work, w, h, m);
    &&& fits_i32(t.0)
    &&& fits_i32(work.right - w)
    &&& fits_i32(t.1)
    &&& fits_i32(work.right - work.left)
    &&& fits_i32((work.right - work.left) - w)
    &&& fits_i32(t.2)
    &&& fits_i32(t.3)
    &&& fits_i32(work.bottom - h)
    &&& fits_i32(t.4)
    &&& fits_i32(work.bottom - work.top)
    &&& fits_i32((work.bottom - work.top) - h)
    &&& fits_i32(t.5)
}

/// The top-left origin of each anchor.
pub open spec fn anchor_origin_spec(anchor: Anchor, work: Rect, w: int, h: int, m: int) -> (
    int,
    int,
) {
    let (left, right, cx, top, bottom, cy) = origin_terms(work, w, h, m);
    match anchor {
        Anchor::TopLeft => (left, top),
        Anchor::TopCenter => (cx, top),
        Anchor::TopRight => (right, top),
        Anchor::MidLeft => (left, cy),
        Anchor::Center => (cx, cy),
        Anchor::MidRight => (right, cy),
        Anchor::BottomLeft => (left, bottom),
        Anchor::BottomCenter => (cx, bottom),
        Anchor::BottomRight => (right, bottom),
    }
}

/// Top-left origin for `anchor` inside `work`, for a pill of `size`
/// (width, height), inset by `margin` at the edges.
pub fn anchor_origin(anchor: Anchor, work: Rect, size: (i32, i32), margin: i32) -> (r: (i32, i32))
    requires
        origin_in_range(work, size.0 as int, size.1 as int, margin as int),
    ensures
        r.0 == anchor_origin_spec(anchor, work, size.0 as int, size.1 as int, margin as int).0,
        r.1 == anchor_origin_spec(anchor, work, size.0 as int, size.1 as int, margin as int).1,
{
    let (w, h) = size;
    let left = work.left + margin;
    let right = work.right - w - margin;
    let cx = work.left + (work.width() - w) / 2;
    let top = work.top + margin;
    let bottom = work.bottom - h - margin;
    let cy = work.top + (work.height() - h) / 2;
    match anchor {
        Anchor::TopLeft => (left, top),
        Anchor::TopCenter => (cx, top),
        Anchor::TopRight => (right, top),
        Anchor::MidLeft => (left, cy),
        Anchor::Center => (cx, cy),
        Anchor::MidRight => (right, cy),
        Anchor::BottomLeft => (left, bottom),
        Anchor::BottomCenter => (cx, bottom),
        Anchor::BottomRight => (right, bottom),
    }
}

/// Which edge each anchor hugs: the left column sits `m` from the left
/// edge, the right column `m` from the right edge, the middle column is
/// centered (the two gaps differ by at most one, rounding toward zero);
/// likewise top/middle/bottom rows for y.
pub proof fn lemma_anchor_origin_edges(anchor: Anchor, work: Rect, w: int, h: int, m: int)
    ensures
        ({
            let (x, y) = anchor_origin_spec(anchor, work, w, h, m);
            let gl = x - work.left;
            let gr = work.right - (x + w);
            let gt = y - work.top;
            let gb = work.bottom - (y + h);
            &&& (anchor == Anchor::TopLeft || anchor == Anchor::MidLeft || anchor
                == Anchor::BottomLeft) ==> x == work.left + m
            &&& (anchor == Anchor::TopRight || anchor == Anchor::MidRight || anchor
                == Anchor::BottomRight) ==> x + w + m == work.right
            &&& (anchor == Anchor::TopCenter || anchor == Anchor::Center || anchor
                == Anchor::BottomCenter) ==> if gl + gr >= 0 {
                gl <= gr <= gl + 1
            } else {
                gr <= gl <= gr + 1
            }
            &&& (anchor == Anchor::TopLeft || anchor == Anchor::TopCenter || anchor
                == Anchor::TopRight) ==> y == work.top + m
            &&& (anchor == Anchor::BottomLeft || anchor == Anchor::BottomCenter || anchor
                == Anchor::BottomRight) ==> y + h + m == work.bottom
            &&& (anchor == Anchor::MidLeft || anchor == Anchor::Center || anchor
                == Anchor::MidRight) ==> if gt + gb >= 0 {
                gt <= gb <= gt + 1
            } else {
                gb <= gt <= gb + 1
            }
        }),
{
}

/// `v` pushed into `[lo, hi]` (std's `Ord::clamp`, for `lo <= hi`).
pub open spec fn clamp_to(v: int, lo: int, hi: int) -> int {
    if v < lo {
        lo
    } else if v > hi {
        hi
    } else {
        v
    }
}

/// The largest left (top) edge a pill of extent `e` can have in `[lo, hi]`;
/// the near edge when the pill is larger than the range.
pub open spec fn far_limit(lo: int, hi: int, e: int) -> int {
    if hi - e > lo {
        hi - e
    } else {
        lo
    }
}

/// The clamped origin.
pub open spec fn clamp_spec(pos: (int, int), bounds: Rect, size: (int, int)) -> (int, int) {
    (
        clamp_to(pos.0, bounds.left as int, far_limit(bounds.left as int, bounds.right as int, size.0)),
        clamp_to(pos.1, bounds.top as int, far_limit(bounds.top as int, bounds.bottom as int, size.1)),
    )
}

/// Push `pos` so a pill of `size` stays fully inside `bounds`. If the pill is
/// larger than `bounds` on an axis, pin to the top/left edge of that axis.
pub fn clamp(pos: (i32, i32), bounds: Rect, size: (i32, i32)) -> (r: (i32, i32))
    requires
        fits_i32(bounds.right - size.0),
        fits_i32(bounds.bottom - size.1),
    ensures
        r.0 == clamp_spec((pos.0 as int, pos.1 as int), bounds, (size.0 as int, size.1 as int)).0,
        r.1 == clamp_spec((pos.0 as int, pos.1 as int), bounds, (size.0 as int, size.1 as int)).1,
        bounds.left <= r.0 <= far_limit(bounds.left as int, bounds.right as int, size.0 as int),
        bounds.top <= r.1 <= far_limit(bounds.top as int, bounds.bottom as int, size.1 as int),
{
    let (x, y) = pos;
    let (w, h) = size;
    let max_x = max_i32(bounds.right - w, bounds.left);
    let max_y = max_i32(bounds.bottom - h, bounds.top);
    (clamp_i32(x, bounds.left, max_x), clamp_i32(y, bounds.top, max_y))
}

fn max_i32(a: i32, b: i32) -> (r: i32)
    ensures
        r == if a > b {
            a
        } else {
            b
        },
{
    if a > b {
        a
    } else {
        b
    }
}

fn clamp_i32(v: i32, lo: i32, hi: i32) -> (r: i32)
    requires
        lo <= hi,
    ensures
        r == clamp_to(v as int, lo as int, hi as int),
{
    if v < lo {
        lo
    } else if v > hi {
        hi
    } else {
        v
    }
}

/// Clamping twice is clamping once.
pub proof fn lemma_clamp_idempotent(pos: (int, int), bounds: Rect, size: (int, int))
    ensures
        clamp_spec(clamp_spec(pos, bounds, size), bounds, size) == clamp_spec(pos, bounds, size),
{
}

/// A pill that already lies inside `bounds` is left where it is.
pub proof fn lemma_clamp_inside_unchanged(pos: (int, int), bounds: Rect, size: (int, int))
    requires
        bounds.left <= pos.0 <= bounds.right - size.0,
        bounds.top <= pos.1 <= bounds.bottom - size.1,
    ensures
        clamp_spec(pos, bounds, size) == pos,
{
}

/// When the pill fits, the clamped pill lies fully inside `bounds`.
pub proof fn lemma_clamp_keeps_pill_inside(pos: (int, int), bounds: Rect, size: (int, int))
    requires
        size.0 <= bounds.right - bounds.left,
        size.1 <= bounds.bottom - bounds.top,
    ensures
        bounds.left <= clamp_spec(pos, bounds, size).0,
        clamp_spec(pos, bounds, size).0 + size.0 <= bounds.right,
        bounds.top <= clamp_spec(pos, bounds, size).1,
        clamp_spec(pos, bounds, size).1 + size.1 <= bounds.bottom,
{
}

/// When the pill and its margins fit in the work area, every anchor places
/// the pill inside the work area, at least `margin` from the edges it is
/// anchored to.
pub proof fn lemma_anchor_origin_inside(anchor: Anchor, work: Rect, w: int, h: int, m: int)
    requires
        0 <= m,
        0 <= w,
        0 <= h,
        w + 2 * m <= work.right - work.left,
        h + 2 * m <= work.bottom - work.top,
    ensures
        work.left + m <= anchor_origin_spec(anchor, work, w, h, m).0,
        anchor_origin_spec(anchor, work, w, h, m).0 + w + m <= work.right,
        work.top + m <= anchor_origin_spec(anchor, work, w, h, m).1,
        anchor_origin_spec(anchor, work, w, h, m).1 + h + m <= work.bottom,
{
}

} // verus!
