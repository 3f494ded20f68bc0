//! Where items come from.

use vstd::prelude::*;

pub mod body;
pub mod celestrak;
pub mod gdelt;
pub mod pulse_reader;
pub mod rss;
pub mod usgs;

verus! {

/// A source of items.
pub trait SourceAdapter {
    fn name(&self) -> &str;

    /// `commercial_clean` | `non_commercial_only` | `unknown`. Most "free" feeds in this space
    /// are non-commercial-only, so the class is asserted per adapter, never taken for granted.
    fn license_class(&self) -> (r: &str)
        default_ensures
            r@ == "unknown"@,
    {
        "unknown"
    }
}

} // verus!
