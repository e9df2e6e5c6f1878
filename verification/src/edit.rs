//! Inline edit buffer for renaming a desktop on the badge: typing,
//! backspace, caret movement and a whole-text selection that the first edit
//! replaces.

use vstd::prelude::*;
use vstd::utf8::{
    encode_scalar, encode_utf8, encode_utf8_first_scalar, encode_utf8_valid_utf8, is_char_boundary,
    length_of_first_scalar, pop_first_scalar,
};
use crate::text::{chars_of, push_char};

verus! {

broadcast use vstd::string::group_string_axioms;

/// Max desktop name length, counted in chars (not bytes).
pub const MAX_LEN: usize = 50;

/// The abstract state of an edit: the text, the caret as a count of chars
/// before it, and whether the whole text is selected.
pub struct EditView {
    pub text: Seq<char>,
    pub caret: nat,
    pub selected: bool,
}

/// Bytes of the UTF-8 encoding of `cs`.
pub open spec fn utf8_len(cs: Seq<char>) -> nat {
    encode_utf8(cs).len()
}

/// Byte offset of the caret in the text.
pub open spec fn caret_offset(v: EditView) -> nat {
    utf8_len(v.text.take(v.caret as int))
}

/// Nothing typed, caret at the start, nothing selected.
pub open spec fn cleared() -> EditView {
    EditView { text: Seq::<char>::empty(), caret: 0, selected: false }
}

/// Begin editing `initial`: caret at the end, whole text selected.
pub open spec fn new_spec(initial: Seq<char>) -> EditView {
    EditView { text: initial, caret: initial.len(), selected: true }
}

/// Typing `c`: a selection is replaced first; at `MAX_LEN` chars the input is
/// ignored; otherwise `c` goes in at the caret and the caret moves past it.
pub open spec fn insert_spec(v: EditView, c: char) -> EditView {
    let b = if v.selected {
        cleared()
    } else {
        v
    };
    if b.text.len() >= MAX_LEN {
        b
    } else {
        EditView {
            text: b.text.take(b.caret as int).push(c) + b.text.skip(b.caret as int),
            caret: b.caret + 1,
            selected: false,
        }
    }
}

/// Backspace: a selection clears the whole text; otherwise the char before
/// the caret goes, if there is one.
pub open spec fn backspace_spec(v: EditView) -> EditView {
    if v.selected {
        cleared()
    } else if v.caret == 0 {
        v
    } else {
        EditView {
            text: v.text.take(v.caret - 1) + v.text.skip(v.caret as int),
            caret: (v.caret - 1) as nat,
            selected: false,
        }
    }
}

/// Select all: the next edit replaces or clears everything.
pub open spec fn select_all_spec(v: EditView) -> EditView {
    EditView { selected: true, ..v }
}

/// One char left; a selection collapses to its start.
pub open spec fn move_left_spec(v: EditView) -> EditView {
    if v.selected {
        EditView { caret: 0, selected: false, ..v }
    } else if v.caret > 0 {
        EditView { caret: (v.caret - 1) as nat, ..v }
    } else {
        v
    }
}

/// One char right; a selection collapses to its end.
pub open spec fn move_right_spec(v: EditView) -> EditView {
    if v.selected {
        EditView { caret: v.text.len(), selected: false, ..v }
    } else if v.caret < v.text.len() {
        EditView { caret: v.caret + 1, ..v }
    } else {
        v
    }
}

/// Caret to the start, selection dropped.
pub open spec fn home_spec(v: EditView) -> EditView {
    EditView { caret: 0, selected: false, ..v }
}

/// Caret to the end, selection dropped.
pub open spec fn end_spec(v: EditView) -> EditView {
    EditView { caret: v.text.len(), selected: false, ..v }
}

/// Backspace right after typing a char (with nothing selected and room to
/// type) restores the text and the caret.
pub proof fn lemma_backspace_undoes_insert(v: EditView, c: char)
    requires
        !v.selected,
        v.caret <= v.text.len(),
        v.text.len() < MAX_LEN,
    ensures
        backspace_spec(insert_spec(v, c)) == v,
{
    let t = v.text.take(v.caret as int).push(c) + v.text.skip(v.caret as int);
    assert(t.take(v.caret as int) =~= v.text.take(v.caret as int));
    assert(t.skip(v.caret + 1int) =~= v.text.skip(v.caret as int));
    assert(v.text.take(v.caret as int) + v.text.skip(v.caret as int) =~= v.text);
}

/// Typing with nothing selected and fewer than `MAX_LEN` chars puts the char
/// at the caret: chars before the caret stay, the new char follows them,
/// the rest moves one place right, and the caret ends just after the new
/// char. At `MAX_LEN` chars nothing changes but the selection. With a
/// selection the text becomes just the typed char.
pub proof fn lemma_insert_places_char_at_caret(v: EditView, c: char)
    requires
        v.caret <= v.text.len(),
    ensures
        !v.selected && v.text.len() < MAX_LEN ==> {
            let r = insert_spec(v, c);
            &&& r.text.len() == v.text.len() + 1
            &&& r.text[v.caret as int] == c
            &&& r.caret == v.caret + 1
            &&& !r.selected
            &&& forall|k: int| 0 <= k < v.caret ==> #[trigger] r.text[k] == v.text[k]
            &&& forall|k: int| v.caret <= k < v.text.len() ==> r.text[k + 1] == #[trigger] v.text[k]
        },
        !v.selected && v.text.len() >= MAX_LEN ==> insert_spec(v, c) == v,
        v.selected ==> insert_spec(v, c).text == seq![c] && insert_spec(v, c).caret == 1,
{
    if v.selected {
        assert(Seq::<char>::empty().push(c) + Seq::<char>::empty() =~= seq![c]);
    } else if v.text.len() < MAX_LEN {
        let r = insert_spec(v, c);
        assert forall|k: int| v.caret <= k < v.text.len() implies r.text[k + 1] == #[trigger] v.text[k] by {
            assert(v.text.skip(v.caret as int)[k - v.caret] == v.text[k]);
        }
    }
}

/// Backspace with nothing selected and the caret after the start removes
/// exactly the char before the caret and moves the caret onto its place.
pub proof fn lemma_backspace_removes_char_before_caret(v: EditView)
    requires
        v.caret <= v.text.len(),
    ensures
        !v.selected && v.caret > 0 ==> {
            let r = backspace_spec(v);
            &&& r.text.len() == v.text.len() - 1
            &&& r.caret == v.caret - 1
            &&& !r.selected
            &&& forall|k: int| 0 <= k < v.caret - 1 ==> #[trigger] r.text[k] == v.text[k]
            &&& forall|k: int| v.caret <= k < v.text.len() ==> r.text[k - 1] == #[trigger] v.text[k]
        },
        !v.selected && v.caret == 0 ==> backspace_spec(v) == v,
        v.selected ==> backspace_spec(v).text.len() == 0 && backspace_spec(v).caret == 0
            && !backspace_spec(v).selected,
{
    if !v.selected && v.caret > 0 {
        let r = backspace_spec(v);
        assert forall|k: int| v.caret <= k < v.text.len() implies r.text[k - 1] == #[trigger] v.text[k] by {
            assert(v.text.skip(v.caret as int)[k - v.caret] == v.text[k]);
        }
    }
}

/// The caret moves one char at a time: left decreases it by one unless at
/// the start, right increases it by one unless at the end; home and end go
/// to 0 and the length. A selection collapses to the start (left, home) or
/// the end (right, end). Moving never changes the text.
pub proof fn lemma_caret_moves(v: EditView)
    requires
        v.caret <= v.text.len(),
    ensures
        move_left_spec(v).text == v.text && move_right_spec(v).text == v.text,
        home_spec(v).text == v.text && end_spec(v).text == v.text,
        !move_left_spec(v).selected && !move_right_spec(v).selected,
        !home_spec(v).selected && !end_spec(v).selected,
        home_spec(v).caret == 0 && end_spec(v).caret == v.text.len(),
        !v.selected ==> move_left_spec(v).caret == (if v.caret > 0 {
            v.caret - 1
        } else {
            0
        }),
        !v.selected ==> move_right_spec(v).caret == (if v.caret < v.text.len() {
            v.caret + 1
        } else {
            v.caret
        }),
        v.selected ==> move_left_spec(v).caret == 0 && move_right_spec(v).caret == v.text.len(),
        select_all_spec(v).selected && select_all_spec(v).text == v.text,
        cleared().text.len() == 0 && cleared().caret == 0 && !cleared().selected,
{
}

/// Typing never takes a text of at most `MAX_LEN` chars past `MAX_LEN`.
pub proof fn lemma_insert_within_max_len(v: EditView, c: char)
    requires
        v.caret <= v.text.len(),
        v.text.len() <= MAX_LEN,
    ensures
        insert_spec(v, c).text.len() <= MAX_LEN,
        insert_spec(v, c).caret <= insert_spec(v, c).text.len(),
{
}

/// After select-all, typing a char leaves exactly that char.
pub proof fn lemma_select_all_then_insert_replaces(v: EditView, c: char)
    ensures
        insert_spec(select_all_spec(v), c).text == seq![c],
        insert_spec(select_all_spec(v), c).caret == 1,
{
    assert(Seq::<char>::empty().push(c) + Seq::<char>::empty() =~= seq![c]);
}

/// After select-all, backspace leaves an empty text.
pub proof fn lemma_select_all_then_backspace_clears(v: EditView)
    ensures
        backspace_spec(select_all_spec(v)) == cleared(),
{
}

/// With nothing selected, one char left then one char right returns the
/// caret to where it was (when it was not at the start).
pub proof fn lemma_move_left_then_right(v: EditView)
    requires
        !v.selected,
        0 < v.caret <= v.text.len(),
    ensures
        move_right_spec(move_left_spec(v)) == v,
{
}

/// Every edit keeps the caret within the text.
pub proof fn lemma_edits_keep_caret_in_text(v: EditView, c: char)
    requires
        v.caret <= v.text.len(),
    ensures
        insert_spec(v, c).caret <= insert_spec(v, c).text.len(),
        backspace_spec(v).caret <= backspace_spec(v).text.len(),
        move_left_spec(v).caret <= move_left_spec(v).text.len(),
        move_right_spec(v).caret <= move_right_spec(v).text.len(),
        home_spec(v).caret <= home_spec(v).text.len(),
        end_spec(v).caret <= end_spec(v).text.len(),
        select_all_spec(v).caret <= select_all_spec(v).text.len(),
{
}

/// Editable string with a caret on a char boundary.
pub struct EditState {
    buf: String,
    /// Caret as a byte offset into `buf`.
    caret: usize,
    /// Caret as a count of chars before it.
    chars_before: usize,
    /// True until the first edit: the whole text counts as selected.
    fresh: bool,
}

/// The UTF-8 encoding of a concatenation is the concatenation of encodings.
pub proof fn lemma_encode_utf8_concat(a: Seq<char>, b: Seq<char>)
    ensures
        encode_utf8(a + b) == encode_utf8(a) + encode_utf8(b),
    decreases a.len(),
{
    if a.len() == 0 {
        assert(a + b =~= b);
        assert(encode_utf8(a) =~= Seq::<u8>::empty());
        assert(encode_utf8(a) + encode_utf8(b) =~= encode_utf8(b));
    } else {
        lemma_encode_utf8_concat(a.drop_first(), b);
        assert((a + b).drop_first() =~= a.drop_first() + b);
        assert(encode_utf8(a + b) =~= encode_scalar(a[0] as u32) + encode_utf8(a.drop_first()
            + b));
        assert(encode_utf8(a) + encode_utf8(b) =~= encode_scalar(a[0] as u32) + (encode_utf8(
            a.drop_first(),
        ) + encode_utf8(b)));
    }
}

/// One more char adds the length of its encoding.
proof fn lemma_utf8_len_step(s: Seq<char>, k: int)
    requires
        0 <= k < s.len(),
    ensures
        utf8_len(s.take(k + 1)) == utf8_len(s.take(k)) + encode_scalar(s[k] as u32).len(),
{
    assert(s.take(k + 1) =~= s.take(k) + seq![s[k]]);
    lemma_encode_utf8_concat(s.take(k), seq![s[k]]);
    assert(seq![s[k]].drop_first() =~= Seq::<char>::empty());
    assert(encode_utf8(Seq::<char>::empty()) =~= Seq::<u8>::empty());
    assert(encode_utf8(seq![s[k]]) =~= encode_scalar(s[k] as u32));
}

/// A prefix never encodes to more bytes than the whole.
proof fn lemma_utf8_len_prefix(s: Seq<char>, k: int)
    requires
        0 <= k <= s.len(),
    ensures
        utf8_len(s.take(k)) <= utf8_len(s),
{
    assert(s =~= s.take(k) + s.skip(k));
    lemma_encode_utf8_concat(s.take(k), s.skip(k));
}

/// Each char encodes to at most four bytes.
proof fn lemma_utf8_len_bound(s: Seq<char>)
    ensures
        utf8_len(s) <= 4 * s.len(),
    decreases s.len(),
{
    if s.len() > 0 {
        lemma_utf8_len_bound(s.drop_first());
    }
}

/// The encoded length of any prefix of a text is a char boundary of the
/// text's encoding: the caret never sits inside a multi-byte char.
pub proof fn lemma_prefix_on_char_boundary(text: Seq<char>, k: int)
    requires
        0 <= k <= text.len(),
    ensures
        is_char_boundary(encode_utf8(text), utf8_len(text.take(k)) as int),
    decreases k,
{
    let bytes = encode_utf8(text);
    encode_utf8_valid_utf8(text);
    if k == 0 {
        assert(text.take(0) =~= Seq::<char>::empty());
        assert(encode_utf8(Seq::<char>::empty()) =~= Seq::<u8>::empty());
    } else {
        let rest = text.drop_first();
        encode_utf8_first_scalar(text);
        lemma_prefix_on_char_boundary(rest, k - 1);
        let first = encode_scalar(text[0] as u32);
        assert(bytes == first + encode_utf8(rest));
        assert(pop_first_scalar(bytes) =~= encode_utf8(rest));
        assert(text.take(k) =~= seq![text[0]] + rest.take(k - 1));
        lemma_encode_utf8_concat(seq![text[0]], rest.take(k - 1));
        assert(seq![text[0]].drop_first() =~= Seq::<char>::empty());
        assert(encode_utf8(Seq::<char>::empty()) =~= Seq::<u8>::empty());
        assert(encode_utf8(seq![text[0]]) =~= first);
        lemma_utf8_len_prefix(text, k);
        assert(utf8_len(text.take(k)) == first.len() + utf8_len(rest.take(k - 1)));
        assert(length_of_first_scalar(bytes) == first.len());
    }
}

/// Bytes in the UTF-8 encoding of `c` (std's `char::len_utf8`).
fn utf8_width(c: char) -> (n: usize)
    ensures
        n == encode_scalar(c as u32).len(),
        1 <= n <= 4,
{
    let u = c as u32;
    if u < 0x80 {
        1
    } else if u < 0x800 {
        2
    } else if u < 0x10000 {
        3
    } else {
        4
    }
}

/// The characters of `cs[..lo]`, then `ins` if any, then `cs[hi..]`.
fn splice(cs: &[char], lo: usize, hi: usize, ins: Option<char>) -> (s: String)
    requires
        lo <= hi <= cs.len(),
    ensures
        s@ == (match ins {
            Some(c) => cs@.take(lo as int).push(c),
            None => cs@.take(lo as int),
        }) + cs@.skip(hi as int),
{
    let mut s = String::new();
    let mut i: usize = 0;
    while i < lo
        invariant
            i <= lo <= hi <= cs.len(),
            s@ == cs@.take(i as int),
        decreases lo - i,
    {
        push_char(&mut s, cs[i]);
        i = i + 1;
        assert(s@ =~= cs@.take(i as int));
    }
    if let Some(c) = ins {
        push_char(&mut s, c);
    }
    let ghost before = s@;
    let mut j = hi;
    while j < cs.len()
        invariant
            lo <= hi <= j <= cs.len(),
            s@ == before + cs@.subrange(hi as int, j as int),
        decreases cs.len() - j,
    {
        push_char(&mut s, cs[j]);
        j = j + 1;
        assert(s@ =~= before + cs@.subrange(hi as int, j as int));
    }
    assert(cs@.subrange(hi as int, cs.len() as int) =~= cs@.skip(hi as int));
    s
}

impl View for EditState {
    type V = EditView;

    closed spec fn view(&self) -> EditView {
        EditView { text: self.buf@, caret: self.chars_before as nat, selected: self.fresh }
    }
}

impl EditState {
    #[verifier::type_invariant]
    spec fn well_formed(&self) -> bool {
        &&& self.chars_before <= self.buf@.len()
        &&& self.caret == utf8_len(self.buf@.take(self.chars_before as int))
        &&& utf8_len(self.buf@) <= usize::MAX
        &&& (self.buf@.len() < MAX_LEN ==> utf8_len(self.buf@) <= 4 * MAX_LEN)
    }

    /// The same text with the caret and selection given.
    fn moved(&self, caret: usize, chars_before: usize, fresh: bool) -> (e: Self)
        requires
            chars_before <= self.buf@.len(),
            caret == utf8_len(self.buf@.take(chars_before as int)),
        ensures
            e@ == (EditView { text: self@.text, caret: chars_before as nat, selected: fresh }),
    {
        proof {
            use_type_invariant(self);
        }
        Self { buf: self.buf.clone(), caret, chars_before, fresh }
    }

    /// Begin editing `initial`; caret at end, whole text "selected".
    pub fn new(initial: &str) -> (e: Self)
        ensures
            e@ == new_spec(initial@),
    {
        let bytes = initial.as_bytes();
        let n = bytes.len();
        let cs = chars_of(initial);
        proof {
            assert(initial@.take(initial@.len() as int) =~= initial@);
            lemma_utf8_len_bound(initial@);
        }
        Self { buf: initial.to_owned(), caret: n, chars_before: cs.len(), fresh: true }
    }

    /// Insert a char at the caret. The first edit while `fresh` replaces the
    /// whole buffer. Input past `MAX_LEN` chars is ignored.
    pub fn insert_char(&mut self, c: char)
        ensures
            final(self)@ == insert_spec(old(self)@, c),
    {
        proof {
            use_type_invariant(&*self);
        }
        if self.fresh {
            *self = Self { buf: String::new(), caret: 0, chars_before: 0, fresh: false };
            proof {
                assert(self.buf@.take(0) =~= Seq::<char>::empty());
            }
        }
        proof {
            use_type_invariant(&*self);
        }
        let cs = chars_of(self.buf.as_str());
        if cs.len() >= MAX_LEN {
            return;
        }
        let k = self.chars_before;
        let w = utf8_width(c);
        let buf = splice(&cs, k, k, Some(c));
        proof {
            let t = cs@.take(k as int).push(c) + cs@.skip(k as int);
            assert(buf@ == t);
            assert(t.take(k + 1) =~= cs@.take(k as int).push(c));
            assert(t.take(k as int) =~= cs@.take(k as int));
            lemma_utf8_len_step(t, k as int);
            lemma_utf8_len_bound(t);
            lemma_utf8_len_prefix(t, k + 1);
        }
        *self = Self { buf, caret: self.caret + w, chars_before: k + 1, fresh: false };
    }

    /// Delete the char before the caret. The first edit while `fresh` clears
    /// the whole buffer.
    pub fn backspace(&mut self)
        ensures
            final(self)@ == backspace_spec(old(self)@),
    {
        proof {
            use_type_invariant(&*self);
        }
        if self.fresh {
            *self = Self { buf: String::new(), caret: 0, chars_before: 0, fresh: false };
            proof {
                assert(self.buf@.take(0) =~= Seq::<char>::empty());
            }
            return;
        }
        if self.caret == 0 {
            proof {
                if self.chars_before > 0 {
                    lemma_utf8_len_step(self.buf@, self.chars_before - 1);
                }
            }
            return;
        }
        let cs = chars_of(self.buf.as_str());
        let k = self.chars_before;
        proof {
            if k == 0 {
                assert(self.buf@.take(0) =~= Seq::<char>::empty());
            }
        }
        let w = utf8_width(cs[k - 1]);
        let buf = splice(&cs, k - 1, k, None);
        proof {
            let t = cs@.take(k - 1) + cs@.skip(k as int);
            assert(buf@ == t);
            assert(t.take(k - 1) =~= cs@.take(k - 1));
            lemma_utf8_len_step(cs@, k - 1);
            assert(cs@ =~= cs@.take(k - 1) + cs@.skip(k - 1));
            assert(cs@.skip(k - 1) =~= seq![cs@[k - 1]] + cs@.skip(k as int));
            lemma_encode_utf8_concat(cs@.take(k - 1), cs@.skip(k - 1));
            lemma_encode_utf8_concat(seq![cs@[k - 1]], cs@.skip(k as int));
            lemma_encode_utf8_concat(cs@.take(k - 1), cs@.skip(k as int));
            lemma_utf8_len_bound(t);
            lemma_utf8_len_prefix(t, k - 1);
        }
        *self = Self { buf, caret: self.caret - w, chars_before: k - 1, fresh: false };
    }

    /// Clear the whole buffer (Ctrl+Backspace / Ctrl+Delete).
    pub fn clear(&mut self)
        ensures
            final(self)@ == cleared(),
    {
        *self = Self { buf: String::new(), caret: 0, chars_before: 0, fresh: false };
        proof {
            assert(self.buf@.take(0) =~= Seq::<char>::empty());
            assert(self@ =~= cleared());
        }
    }

    /// Select all: the next edit replaces/clears everything (Ctrl+A), reusing
    /// the same `fresh` mechanism as entering edit mode.
    pub fn select_all(&mut self)
        ensures
            final(self)@ == select_all_spec(old(self)@),
    {
        proof {
            use_type_invariant(&*self);
        }
        *self = self.moved(self.caret, self.chars_before, true);
    }

    /// True while the whole text is "selected" (fresh) — the next edit replaces
    /// it. Drives the selection highlight in the badge.
    pub fn is_selected(&self) -> (b: bool)
        ensures
            b == self@.selected,
    {
        self.fresh
    }

    /// Move the caret one char left. A selection collapses to its start.
    pub fn move_left(&mut self)
        ensures
            final(self)@ == move_left_spec(old(self)@),
    {
        proof {
            use_type_invariant(&*self);
        }
        if self.fresh {
            proof {
                assert(self.buf@.take(0) =~= Seq::<char>::empty());
            }
            *self = self.moved(0, 0, false);
            return;
        }
        if self.caret > 0 {
            let cs = chars_of(self.buf.as_str());
            let k = self.chars_before;
            proof {
                if k == 0 {
                    assert(self.buf@.take(0) =~= Seq::<char>::empty());
                }
                lemma_utf8_len_step(cs@, k - 1);
            }
            let w = utf8_width(cs[k - 1]);
            *self = self.moved(self.caret - w, k - 1, false);
        } else {
            proof {
                if self.chars_before > 0 {
                    lemma_utf8_len_step(self.buf@, self.chars_before - 1);
                }
            }
        }
    }

    /// Move the caret one char right. A selection collapses to its end.
    pub fn move_right(&mut self)
        ensures
            final(self)@ == move_right_spec(old(self)@),
    {
        proof {
            use_type_invariant(&*self);
        }
        if self.fresh {
            let n = self.buf.as_str().len();
            let cs = chars_of(self.buf.as_str());
            proof {
                assert(self.buf@.take(self.buf@.len() as int) =~= self.buf@);
            }
            *self = self.moved(n, cs.len(), false);
            return;
        }
        let n = self.buf.as_str().len();
        if self.caret < n {
            let cs = chars_of(self.buf.as_str());
            let k = self.chars_before;
            proof {
                if k == cs.len() {
                    assert(self.buf@.take(k as int) =~= self.buf@);
                }
                lemma_utf8_len_step(cs@, k as int);
                lemma_utf8_len_prefix(cs@, k + 1);
            }
            let w = utf8_width(cs[k]);
            *self = self.moved(self.caret + w, k + 1, false);
        } else {
            proof {
                if self.chars_before < self.buf@.len() {
                    lemma_utf8_len_step(self.buf@, self.chars_before as int);
                    lemma_utf8_len_prefix(self.buf@, self.chars_before + 1);
                }
            }
        }
    }

    /// Move the caret to the start.
    pub fn home(&mut self)
        ensures
            final(self)@ == home_spec(old(self)@),
    {
        proof {
            assert(self.buf@.take(0) =~= Seq::<char>::empty());
        }
        *self = self.moved(0, 0, false);
    }

    /// Move the caret to the end.
    pub fn end(&mut self)
        ensures
            final(self)@ == end_spec(old(self)@),
    {
        proof {
            use_type_invariant(&*self);
        }
        let n = self.buf.as_str().len();
        let cs = chars_of(self.buf.as_str());
        proof {
            assert(self.buf@.take(self.buf@.len() as int) =~= self.buf@);
        }
        *self = self.moved(n, cs.len(), false);
    }

    /// The text being edited.
    pub fn text(&self) -> (t: &str)
        ensures
            t@ == self@.text,
    {
        self.buf.as_str()
    }

    /// Caret position as a byte offset on a char boundary.
    pub fn caret(&self) -> (n: usize)
        ensures
            n == caret_offset(self@),
            self@.caret <= self@.text.len(),
            is_char_boundary(encode_utf8(self@.text), n as int),
    {
        proof {
            use_type_invariant(self);
            lemma_prefix_on_char_boundary(self.buf@, self.chars_before as int);
        }
        self.caret
    }
}

} // verus!
