//! Mapping an escape-iteration count to a pixel color.
use vstd::prelude::*;

verus! {

/// Number of colors in the cyclic palette.
pub const PALETTE_SIZE: usize = 161;

/// One RGBA8 pixel.
#[derive(Clone, Copy, Debug, PartialEq, Eq, Structural)]
pub struct Rgba {
    pub r: u8,
    pub g: u8,
    pub b: u8,
    pub a: u8,
}

/// Opaque black, the color of points presumed to be in the set.
pub open spec fn interior_color() -> Rgba {
    Rgba { r: 0, g: 0, b: 0, a: 255 }
}

/// Palette slot used for an escape count: `(3 * iterations) mod 161`.
pub open spec fn palette_slot(iterations: u32) -> int {
    (3 * iterations as int) % (PALETTE_SIZE as int)
}

/// Color of an escape count, given the palette of 161 entries: the red,
/// green and blue of its slot, always opaque.
pub open spec fn color_of(iterations: u32, palette: Seq<Rgba>) -> Rgba {
    if iterations == 0 {
        interior_color()
    } else {
        let c = palette[palette_slot(iterations)];
        Rgba { r: c.r, g: c.g, b: c.b, a: 255 }
    }
}

/// The interior marker color, opaque black.
pub fn interior() -> (r: Rgba)
    ensures
        r == interior_color(),
{
    Rgba { r: 0, g: 0, b: 0, a: 255 }
}

/// Color for an escape-iteration count; always opaque.
///
/// A count of zero (no escape within the budget) is opaque black. Any other
/// count takes red, green and blue from slot `(3 * iterations) mod 161` of
/// `palette`; slot `i` holds the color of hue `(i + 30) / 161` of a full
/// turn.
pub fn color_for(iterations: u32, palette: &Vec<Rgba>) -> (r: Rgba)
    requires
        palette@.len() == PALETTE_SIZE,
    ensures
        r == color_of(iterations, palette@),
        r.a == 255,
{
    if iterations == 0 {
        interior()
    } else {
        let slot: u64 = (3 * iterations as u64) % (PALETTE_SIZE as u64);
        let c = palette[slot as usize];
        Rgba { r: c.r, g: c.g, b: c.b, a: 255 }
    }
}

} // verus!
