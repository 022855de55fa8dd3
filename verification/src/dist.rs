//! The three value-distribution shapes and the sampling range each one
//! assigns to an array size.

use vstd::prelude::*;

verus! {

/// One of the three value-distribution regimes a sweep can run under.
#[derive(Clone, Copy, PartialEq, Eq, Structural, Debug)]
pub enum Shape {
    /// Values drawn from `[-size, size]`.
    Normal,
    /// Values drawn from `[-size*10, size*10]`.
    Wide,
    /// Values drawn from `[0, size/2]`.
    Narrow,
}

/// Lower end of the inclusive sampling range for `shape` at array size `size`.
pub open spec fn spec_low(shape: Shape, size: int) -> int {
    match shape {
        Shape::Normal => -size,
        Shape::Wide => -(size * 10),
        Shape::Narrow => 0,
    }
}

/// Upper end of the inclusive sampling range for `shape` at array size `size`.
pub open spec fn spec_high(shape: Shape, size: int) -> int {
    match shape {
        Shape::Normal => size,
        Shape::Wide => size * 10,
        Shape::Narrow => size / 2,
    }
}

/// Whether the range for `shape` at `size` fits in `i32`; a machine limit of
/// the 32-bit range arithmetic, not a rule of the design.
pub open spec fn size_fits(shape: Shape, size: int) -> bool {
    match shape {
        Shape::Normal => size <= i32::MAX,
        Shape::Wide => size * 10 <= i32::MAX,
        Shape::Narrow => size <= i32::MAX,
    }
}

impl Shape {
    /// The range formula announced on standard output before a sweep of this
    /// shape.
    pub fn label(&self) -> (r: &'static str)
        ensures
            r@ == match *self {
                Shape::Normal => "[-n;n]"@,
                Shape::Wide => "[-10n;10n]"@,
                Shape::Narrow => "[0;n/2]"@,
            },
    {
        match self {
            Shape::Normal => "[-n;n]",
            Shape::Wide => "[-10n;10n]",
            Shape::Narrow => "[0;n/2]",
        }
    }

    /// The fixed file-name stem of this shape's exported pair of files.
    pub fn file_stem(&self) -> (r: &'static str)
        ensures
            r@ == match *self {
                Shape::Normal => "normal"@,
                Shape::Wide => "wide"@,
                Shape::Narrow => "narrow"@,
            },
    {
        match self {
            Shape::Normal => "normal",
            Shape::Wide => "wide",
            Shape::Narrow => "narrow",
        }
    }
}

/// Computes the inclusive sampling range `[low, high]` for `shape` at `size`.
/// The range is always well formed: `low <= high` for every non-negative size.
pub fn range_for(shape: Shape, size: usize) -> (r: (i32, i32))
    requires
        size_fits(shape, size as int),
    ensures
        r.0 == spec_low(shape, size as int),
        r.1 == spec_high(shape, size as int),
        r.0 <= r.1,
{
    match shape {
        Shape::Normal => {
            let s = size as i32;
            (-s, s)
        },
        Shape::Wide => {
            let s = size as i32;
            (-(s * 10), s * 10)
        },
        Shape::Narrow => {
            let s = size as i32;
            (0, s / 2)
        },
    }
}

} // verus!
