//! The badge text for a desktop.

use vstd::prelude::*;
use crate::text::{
    all_digits, chars_of, decimal, digits_value, is_white_space, lemma_decimal_digits,
    lemma_trim_strips_only_white_space, push_char, push_decimal, trim, trim_range,
};

verus! {

/// `Desktop {n}` for an unnamed desktop, `{n} · {name}` for a named one,
/// where `n` is the 1-based desktop number and the name is trimmed.
pub open spec fn label_spec(index0: nat, name: Seq<char>) -> Seq<char> {
    let n = decimal(index0 + 1);
    let t = trim(name);
    if t.len() == 0 {
        seq!['D', 'e', 's', 'k', 't', 'o', 'p', ' '] + n
    } else {
        n + seq![' ', '\u{b7}', ' '] + t
    }
}

/// The label shows the 1-based number in decimal; an empty or all-white-space
/// name gives `Desktop ` and the number, any other name gives the number,
/// ` · `, then the whole name with only its surrounding white space removed.
pub proof fn lemma_label_shows_number_and_whole_name(index0: nat, name: Seq<char>)
    ensures
        ({
            let n = decimal(index0 + 1);
            &&& digits_value(n) == index0 + 1
            &&& all_digits(n)
            &&& n.len() > 0
            &&& (forall|k: int| 0 <= k < name.len() ==> is_white_space(#[trigger] name[k]))
                ==> label_spec(index0, name) == seq!['D', 'e', 's', 'k', 't', 'o', 'p', ' '] + n
            &&& !(forall|k: int| 0 <= k < name.len() ==> is_white_space(#[trigger] name[k]))
                ==> {
                &&& label_spec(index0, name).len() == n.len() + 3 + trim(name).len()
                &&& label_spec(index0, name) == n + seq![' ', '\u{b7}', ' '] + trim(name)
                &&& trim(name).len() > 0
            }
        }),
{
    let ij = lemma_trim_strips_only_white_space(name);
    lemma_decimal_digits(index0 + 1);
    let t = trim(name);
    if forall|k: int| 0 <= k < name.len() ==> is_white_space(#[trigger] name[k]) {
        if ij.0 < ij.1 {
            assert(is_white_space(name[ij.0]));
        }
    } else {
        let k = choose|k: int| 0 <= k < name.len() && !is_white_space(#[trigger] name[k]);
        assert(ij.0 <= k < ij.1);
        assert(t.len() > 0);
    }
}

/// Build the badge text from a 0-based desktop index and its (possibly empty) name.
///
/// - Empty/whitespace name -> `"Desktop {n}"` where `n = index + 1`.
/// - Otherwise            -> `"{n} · {name}"` (trimmed).
pub fn format_label(index0: u32, name: &str) -> (s: String)
    requires
        index0 < u32::MAX,
    ensures
        s@ == label_spec(index0 as nat, name@),
{
    let n = index0 + 1;
    let cs = chars_of(name);
    let t = trim_range(&cs, 0, cs.len());
    assert(cs@.subrange(0, cs@.len() as int) =~= cs@);
    let mut s = String::new();
    if t.len() == 0 {
        let prefix = ['D', 'e', 's', 'k', 't', 'o', 'p', ' '];
        let mut i: usize = 0;
        while i < 8
            invariant
                i <= 8,
                prefix@ == seq!['D', 'e', 's', 'k', 't', 'o', 'p', ' '],
                s@ == prefix@.take(i as int),
            decreases 8 - i,
        {
            push_char(&mut s, prefix[i]);
            i = i + 1;
            assert(s@ =~= prefix@.take(i as int));
        }
        assert(prefix@.take(8) =~= prefix@);
        push_decimal(&mut s, n as u64);
    } else {
        push_decimal(&mut s, n as u64);
        push_char(&mut s, ' ');
        push_char(&mut s, '\u{b7}');
        push_char(&mut s, ' ');
        let ghost before = s@;
        let mut i: usize = 0;
        while i < t.len()
            invariant
                i <= t.len(),
                s@ == before + t@.take(i as int),
            decreases t.len() - i,
        {
            push_char(&mut s, t[i]);
            i = i + 1;
            assert(s@ =~= before + t@.take(i as int));
        }
        assert(t@.take(t.len() as int) =~= t@);
    }
    assert(s@ =~= label_spec(index0 as nat, name@));
    s
}

} // verus!
