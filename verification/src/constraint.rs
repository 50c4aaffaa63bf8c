//! The admissible size range a parent offers a child during layout.

use vstd::prelude::*;

verus! {

/// A min/max box on width and height. A constraint is meaningful only when
/// `min <= max` holds on each axis; see [`Constraint::valid`].
#[derive(Debug, Copy, Clone, PartialEq, Eq, Structural)]
pub struct Constraint {
    pub min_width: usize,
    pub max_width: usize,
    pub min_height: usize,
    pub max_height: usize,
}

impl Constraint {
    /// `min <= max` on both axes.
    pub open spec fn valid(self) -> bool {
        self.min_width <= self.max_width && self.min_height <= self.max_height
    }

    /// Both axes pinned to a single value.
    pub open spec fn spec_is_fixed(self) -> bool {
        self.min_width == self.max_width && self.min_height == self.max_height
    }

    pub fn new(min_width: usize, max_width: usize, min_height: usize, max_height: usize) -> (c:
        Constraint)
        ensures
            c == (Constraint { min_width, max_width, min_height, max_height }),
    {
        Constraint { min_width, max_width, min_height, max_height }
    }

    /// A constraint that admits exactly one size; used for the root, which is
    /// always constrained to the surface size.
    pub fn fixed(width: usize, height: usize) -> (c: Constraint)
        ensures
            c == (Constraint {
                min_width: width,
                max_width: width,
                min_height: height,
                max_height: height,
            }),
            c.spec_is_fixed(),
            c.valid(),
    {
        Constraint {
            min_width: width,
            max_width: width,
            min_height: height,
            max_height: height,
        }
    }

    /// Reports whether both axes are pinned to a single exact size.
    pub fn is_fixed(&self) -> (r: bool)
        ensures
            r == self.spec_is_fixed(),
    {
        self.min_width == self.max_width && self.min_height == self.max_height
    }
}

} // verus!
