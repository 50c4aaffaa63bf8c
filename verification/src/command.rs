//! The backend-agnostic drawing commands produced by the paint pass.

use crate::color::Rgba;
use crate::geometry::Rect;
use vstd::prelude::*;

verus! {

/// One drawing primitive. The rectangle is in pixel space; the renderer is
/// expected to map it into its own coordinate system and issue one filled
/// quad per command, in list order.
#[derive(Debug, Copy, Clone, PartialEq, Eq, Structural)]
pub enum Command {
    DrawRect(Rect, Rgba),
}

} // verus!
