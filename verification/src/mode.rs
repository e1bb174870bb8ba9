//! Whether the app shows one bike or compares two.

use vstd::prelude::*;

verus! {

/// Whether the app is showing one bike or comparing two.
#[derive(Debug, Clone, Copy, PartialEq, Eq, Structural)]
pub enum AppMode {
    Single,
    Compare,
}

impl Default for AppMode {
    /// The app starts showing a single bike.
    fn default() -> (mode: Self)
        ensures
            mode == AppMode::Single,
    {
        AppMode::Single
    }
}

} // verus!
