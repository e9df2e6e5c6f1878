//! The saved badge position: what a read of the config file yields.

use vstd::prelude::*;
use crate::position::{
    default_position, format_spec, lemma_parse_format_roundtrip, parse, parse_spec, Position,
};

verus! {

/// The position stored in the config file's contents; `None` (no config
/// location, missing or unreadable file) gives the default.
pub fn load(contents: Option<&str>) -> (p: Position)
    ensures
        p == (match contents {
            Some(s) => parse_spec(s@),
            None => default_position(),
        }),
{
    match contents {
        Some(s) => parse(s),
        None => Position::default(),
    }
}

/// Loading what was saved gives back the saved position.
pub proof fn lemma_load_what_was_saved(p: Position)
    ensures
        parse_spec(format_spec(p)) == p,
{
    lemma_parse_format_roundtrip(p);
}

} // verus!
