//! The one failure that is reported to the caller.

use vstd::prelude::*;

verus! {

/// A `memfd_secret` could not be instantiated.
#[derive(Debug)]
#[non_exhaustive]
pub struct MemfdSecretFailed {
    inner: u8,
}

impl MemfdSecretFailed {
    /// Whether this is the failure to set up an arena.
    pub closed spec fn is_init(self) -> bool {
        self.inner == 0
    }

    /// The failure to set up an arena.
    pub(crate) fn init() -> (failure: MemfdSecretFailed)
        ensures
            failure.is_init(),
    {
        MemfdSecretFailed { inner: 0 }
    }

    /// What went wrong, in words.
    pub fn message(&self) -> (message: &'static str)
        ensures
            message@ == "failed to instantiate a `memfd_secret`"@,
    {
        "failed to instantiate a `memfd_secret`"
    }
}

} // verus!
