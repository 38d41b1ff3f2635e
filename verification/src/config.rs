//! The launcher's window settings.

use vstd::prelude::*;

verus! {

/// The size of the launcher window.
pub struct WindowConfig {
    pub width: i32,
    pub height: i32,
}

impl Default for WindowConfig {
    /// An 800 by 400 window.
    fn default() -> (r: WindowConfig)
        ensures
            r.width == 800,
            r.height == 400,
    {
        WindowConfig { width: 800, height: 400 }
    }
}

} // verus!
