//! A rectangle with whole-number sides.

use vstd::prelude::*;

verus! {

/// A rectangle, by the lengths of its sides.
pub struct Rectangle {
    pub width: u32,
    pub height: u32,
}

impl Rectangle {
    /// Whether both sides are equally long.
    pub fn is_square(&self) -> (square: bool)
        ensures
            square == (self.width == self.height),
    {
        self.width == self.height
    }

    /// The area, which fits in 64 bits whatever the sides are.
    pub fn calc_area(&self) -> (area: u64)
        ensures
            area == self.width * self.height,
    {
        assert(self.width * self.height <= 0xffff_ffff * 0xffff_ffff) by (nonlinear_arith)
            requires
                self.width <= 0xffff_ffff,
                self.height <= 0xffff_ffff,
        ;
        self.width as u64 * self.height as u64
    }
}

} // verus!
