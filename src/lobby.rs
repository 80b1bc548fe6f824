//! Descriptive data for the lobby listing.
use vstd::prelude::*;

verus! {

/// How the world of a lobby is generated.
#[derive(Clone, Copy, Debug, PartialEq, Eq)]
pub enum WorldGenSettings {
    Normal,
    PracticeRange,
}

} // verus!
