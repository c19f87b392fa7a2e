//! What the compositor reads of a window, what it reports of one, and the
//! settings that steer it.

use crate::geometry::PixelRect;
use vstd::prelude::*;

verus! {

/// The kind of a window.
#[derive(Clone, Copy, Debug, PartialEq, Eq, Structural)]
pub enum WindowType {
    Editor,
    Message { scrolled: bool },
}

/// The size of a window in cells of the text grid.
#[derive(Clone, Copy, Debug, PartialEq, Eq, Structural)]
pub struct GridSize {
    pub width: u32,
    pub height: u32,
}

/// A floating window as the compositor sees it.
#[derive(Clone, Copy, Debug, PartialEq, Eq, Structural)]
pub struct Window {
    pub id: u64,
    pub region: PixelRect,
    pub grid_size: GridSize,
    pub window_type: WindowType,
    pub has_transparency: bool,
}

/// The record of one window drawn in a frame.
#[derive(Clone, Copy, Debug, PartialEq, Eq, Structural)]
pub struct WindowDrawDetails {
    pub id: u64,
    pub region: PixelRect,
    pub grid_size: GridSize,
}

/// The switches among the renderer's settings that decide what is drawn.
#[derive(Clone, Copy, Debug, PartialEq, Eq, Structural)]
pub struct RendererSettings {
    pub floating_shadow: bool,
    pub floating_blur: bool,
}

} // verus!
