//! Recovery of interrupted downloads (not implemented yet).
use vstd::prelude::*;

verus! {

/// Saves what is needed to resume a download later. Recovery is not
/// implemented yet: nothing is saved and this always succeeds.
pub fn writerecoveryinfo() -> (r: Result<(), reqwest::Error>)
    ensures
        r is Ok,
{
    Ok(())
}

} // verus!
