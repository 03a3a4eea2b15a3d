//! When to announce that the app was updated by the Store.
use vstd::prelude::*;
use crate::text::{chars_eq, chars_of};

verus! {

/// The one-time "updated" notice is due: only for `msix` installs, and only
/// when a stored version exists and differs from the running one (no stored
/// version means a first launch, not an update).
pub fn should_notify_update(format: &str, stored: Option<&str>, current: &str) -> (b: bool)
    ensures
        b == (format@ == "msix"@ && match stored {
            Some(s) => s@ != current@,
            None => false,
        }),
{
    if !chars_eq(chars_of(format).as_slice(), chars_of("msix").as_slice()) {
        return false;
    }
    match stored {
        Some(s) => !chars_eq(chars_of(s).as_slice(), chars_of(current).as_slice()),
        None => false,
    }
}

} // verus!
