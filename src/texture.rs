//! Textures as a tree of variants. A solid color is named by its index in the
//! scene's color palette; a checker picks one of two child textures by the
//! sign of `sin(10x) * sin(10y) * sin(10z)` at the shaded point.
use vstd::prelude::*;

verus! {

/// A texture whose value is one color everywhere.
#[derive(Clone, Copy, Debug, PartialEq, Eq, Structural)]
pub struct SolidColor {
    /// Index of the color in the scene's palette.
    pub color: usize,
}

/// A 3D checkerboard of two textures.
#[derive(Debug)]
pub struct CheckerTexture {
    /// Used where the product of sines is negative.
    pub odd: Box<Texture>,
    /// Used elsewhere.
    pub even: Box<Texture>,
}

/// The texture variants.
#[derive(Debug)]
pub enum Texture {
    Solid(SolidColor),
    Checker(CheckerTexture),
}

/// The palette index of the texture's color at a point where the sign test
/// gives `negative` (the product of sines is below zero). The test depends on
/// the point alone, so nested checkers all see the same sign.
pub open spec fn color_index(t: Texture, negative: bool) -> usize
    decreases t,
{
    match t {
        Texture::Solid(s) => s.color,
        Texture::Checker(c) => if negative {
            color_index(*c.odd, negative)
        } else {
            color_index(*c.even, negative)
        },
    }
}

impl CheckerTexture {
    /// The palette index of the color at a point whose product of sines is
    /// negative exactly when `negative` holds.
    pub fn value(&self, negative: bool) -> (r: usize)
        ensures
            r == (if negative {
                color_index(*self.odd, negative)
            } else {
                color_index(*self.even, negative)
            }),
        decreases self,
    {
        if negative {
            self.odd.value(negative)
        } else {
            self.even.value(negative)
        }
    }
}

impl Texture {
    /// The palette index of the color at a point whose product of sines is
    /// negative exactly when `negative` holds.
    pub fn value(&self, negative: bool) -> (r: usize)
        ensures
            r == color_index(*self, negative),
        decreases self,
    {
        match self {
            Texture::Solid(s) => s.color,
            Texture::Checker(c) => c.value(negative),
        }
    }
}

} // verus!
