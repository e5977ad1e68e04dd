//! Configuration for a palette computation: the ignore set.

use crate::rgb::Rgb;
use vstd::prelude::*;

verus! {

/// The colors a palette computation excludes from consideration, matched
/// exactly; a pixel whose color is in this set never reaches the
/// estimator or the clusterer.
#[derive(Debug)]
pub struct PaletteOptions {
    /// The ignored colors. Membership alone matters: duplicates and order
    /// change nothing.
    pub colors: Vec<Rgb>,
}

impl PaletteOptions {
    /// Options that ignore no color.
    pub fn default() -> (r: PaletteOptions)
        ensures
            r.colors@ == Seq::<Rgb>::empty(),
    {
        PaletteOptions { colors: Vec::new() }
    }

    /// Adds colors to the ignore set.
    pub fn ignore_colors(self, colors: Vec<Rgb>) -> (r: PaletteOptions)
        ensures
            r.colors@ == self.colors@ + colors@,
    {
        let mut out = self;
        let mut added = colors;
        out.colors.append(&mut added);
        out
    }

    /// True when the color is in the ignore set.
    pub fn is_ignored(&self, rgb: &Rgb) -> (r: bool)
        ensures
            r == self.colors@.contains(*rgb),
    {
        for i in 0..self.colors.len()
            invariant
                forall|j: int| 0 <= j < i ==> self.colors@[j] != *rgb,
        {
            if self.colors[i] == *rgb {
                return true;
            }
        }
        false
    }
}

} // verus!
