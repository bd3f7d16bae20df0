use vstd::prelude::*;

verus! {

/// The size of the terminal window, in characters and in pixels.
#[derive(Debug)]
pub struct WindowSize {
    pub rows: u16,
    pub columns: u16,
    pub width: u16,
    pub height: u16,
}

impl WindowSize {
    /// The size before the terminal was asked: all zero.
    pub fn new() -> (size: WindowSize)
        ensures
            size.rows == 0,
            size.columns == 0,
            size.width == 0,
            size.height == 0,
    {
        WindowSize { rows: 0, columns: 0, width: 0, height: 0 }
    }
}

} // verus!
