//! The badge label of the current virtual desktop, from what was read of it.

use vstd::prelude::*;
use crate::label::{format_label, label_spec};

verus! {

/// The formatted badge label for a read of the current desktop (its 0-based
/// index and its name); a failed read is passed on unchanged.
pub fn current_label<E>(read: Result<(u32, String), E>) -> (r: Result<String, E>)
    requires
        read matches Ok((index0, _)) ==> index0 < u32::MAX,
    ensures
        match read {
            Ok((index0, name)) => r matches Ok(s) && s@ == label_spec(index0 as nat, name@),
            Err(e) => r == Err::<String, E>(e),
        },
{
    match read {
        Ok((index0, name)) => Ok(format_label(index0, name.as_str())),
        Err(e) => Err(e),
    }
}

} // verus!
