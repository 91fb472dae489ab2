//! The data carried per discovered icon theme, and the corner-roundness
//! presets of the appearance page.

use vstd::prelude::*;

verus! {

/// Identity of a discovered icon theme.
#[derive(Clone, Debug, Eq, Ord, PartialEq, PartialOrd)]
pub struct IconTheme {
    /// The file name of the directory containing the theme: the stable
    /// machine identifier.
    pub id: String,
    /// The display name the theme declares in its manifest.
    pub name: String,
}

/// Corner-roundness presets selectable on the appearance page.
#[derive(Clone, Copy, Debug)]
pub enum Roundness {
    Round,
    SlightlyRound,
    Square,
}

} // verus!
