//! The color value shared by the blend engine and the swatch renderer.

use vstd::prelude::*;
use vstd::std_specs::cmp::PartialEqSpecImpl;
use crate::alpha::Alpha;

verus! {

/// A color as its three 8-bit channels and its alpha.
///
/// Two colors are equal when their channels are, whatever their alpha.
#[derive(Clone, Copy, Debug)]
pub struct Color {
    pub r: u8,
    pub g: u8,
    pub b: u8,
    pub alpha: Alpha,
}

/// The opaque color with the given channels.
pub open spec fn opaque(r: u8, g: u8, b: u8) -> Color {
    Color { r, g, b, alpha: Alpha::one() }
}

impl Color {
    /// Whether two colors have the same channels.
    pub open spec fn same_channels(self, other: Color) -> bool {
        self.r == other.r && self.g == other.g && self.b == other.b
    }

    /// The opaque color with the given red, green and blue channels.
    pub fn from_rgb(r: u8, g: u8, b: u8) -> (color: Color)
        ensures
            color == opaque(r, g, b),
    {
        Color { r, g, b, alpha: Alpha::opaque() }
    }

    /// The color with the given red, green and blue channels and alpha.
    pub fn from_rgba(r: u8, g: u8, b: u8, alpha: Alpha) -> (color: Color)
        ensures
            color == (Color { r, g, b, alpha }),
    {
        Color { r, g, b, alpha }
    }
}

impl PartialEq for Color {
    fn eq(&self, other: &Color) -> (equal: bool) {
        self.r == other.r && self.g == other.g && self.b == other.b
    }
}

impl Eq for Color {
}

impl PartialEqSpecImpl for Color {
    open spec fn obeys_eq_spec() -> bool {
        true
    }

    open spec fn eq_spec(&self, other: &Color) -> bool {
        self.same_channels(*other)
    }
}

} // verus!
