//! The window manager. It holds no windows yet: opening does nothing and
//! closing always succeeds.

use vstd::prelude::*;

verus! {

/// The window manager.
pub struct WindowManager {}

impl WindowManager {
    pub fn new() -> (r: WindowManager) {
        WindowManager {}
    }

    /// Opens a window with the given title and size.
    pub fn open_window(&self, _title: &str, _width: u32, _height: u32) {
    }

    /// Closes the window named `_window`.
    pub fn close_window(&self, _window: &str) -> (r: Result<(), &'static str>)
        ensures
            r is Ok,
    {
        Ok(())
    }
}

} // verus!
