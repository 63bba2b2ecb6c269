//! Plain layout vocabulary shared with the rendering side: alignment on an
//! axis, the axis itself, and the widget that fills whatever space its
//! parent grants.

use vstd::prelude::*;

verus! {

/// Alignment on the axis of a container.
#[derive(Debug, Clone, Copy, PartialEq, Eq, Structural, Hash)]
pub enum Alignment {
    /// Align at the start of the axis.
    Start,
    /// Align at the center of the axis.
    Center,
    /// Align at the end of the axis.
    End,
    Stretch,
}

/// The main axis of a flex layout.
#[derive(Debug)]
pub enum Axis {
    /// The horizontal axis.
    Horizontal,
    /// The vertical axis.
    Vertical,
}

impl Axis {
    /// Order a main-axis and a cross-axis quantity as `(x, y)`.
    pub fn pack<T>(&self, main: T, cross: T) -> (r: (T, T))
        ensures
            self is Horizontal ==> r == (main, cross),
            self is Vertical ==> r == (cross, main),
    {
        match self {
            Axis::Horizontal => (main, cross),
            Axis::Vertical => (cross, main),
        }
    }
}

/// A widget that takes all the room its parent offers.
pub struct FillParent;

} // verus!
