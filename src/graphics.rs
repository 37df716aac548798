//! The drawing surface offered to scripts. It holds no state yet and every
//! drawing call succeeds.

use vstd::prelude::*;

verus! {

/// The graphics library.
pub struct GraphicsLib {}

impl GraphicsLib {
    pub fn new() -> (r: GraphicsLib) {
        GraphicsLib {}
    }

    /// Draws a triangle.
    pub fn draw_triangle(&self) -> (r: Result<(), &'static str>)
        ensures
            r is Ok,
    {
        Ok(())
    }
}

/// Draws a triangle with `graphics`.
pub fn draw_triangle(graphics: &GraphicsLib) -> (r: Result<(), &'static str>)
    ensures
        r is Ok,
{
    graphics.draw_triangle()
}

} // verus!
