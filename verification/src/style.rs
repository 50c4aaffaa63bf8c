//! Per-node visual attributes: background fill and a four-sided border.
//! Styles are consumed only during the paint pass.

use crate::color::Rgba;
use vstd::prelude::*;

verus! {

/// One value per side of a box: top, right, bottom, left.
#[derive(Debug, Copy, Clone, PartialEq, Eq, Structural)]
pub struct TRBL<T> {
    pub top: T,
    pub right: T,
    pub bottom: T,
    pub left: T,
}

impl<T> TRBL<T> {
    pub fn new(top: T, right: T, bottom: T, left: T) -> (r: TRBL<T>)
        ensures
            r == (TRBL { top, right, bottom, left }),
    {
        TRBL { top, right, bottom, left }
    }
}

/// A border description for one side. Declared in the style model; the
/// default paint behavior draws backgrounds only, so no shipped element
/// renders borders.
#[derive(Debug, Copy, Clone, PartialEq, Eq, Structural)]
pub enum Border {
    Empty,
    Color(Rgba),
}

/// A background fill description.
#[derive(Debug, Copy, Clone, PartialEq, Eq, Structural)]
pub enum Background {
    Empty,
    Color(Rgba),
    Image(usize),
}

/// The visual attributes of one node.
#[derive(Debug, Copy, Clone, PartialEq, Eq, Structural)]
pub struct Style {
    pub background: Background,
    pub border: TRBL<Border>,
}

impl Style {
    /// The spec-level empty style: no fill, no border on any side.
    pub open spec fn spec_empty() -> Style {
        Style {
            background: Background::Empty,
            border: TRBL {
                top: Border::Empty,
                right: Border::Empty,
                bottom: Border::Empty,
                left: Border::Empty,
            },
        }
    }

    /// The style every node carries on creation: no fill, no border.
    pub fn empty() -> (s: Style)
        ensures
            s == Style::spec_empty(),
    {
        Style {
            background: Background::Empty,
            border: TRBL {
                top: Border::Empty,
                right: Border::Empty,
                bottom: Border::Empty,
                left: Border::Empty,
            },
        }
    }

    pub fn new(background: Background, border: TRBL<Border>) -> (s: Style)
        ensures
            s == (Style { background, border }),
    {
        Style { background, border }
    }
}

} // verus!
