pub mod wayland_bridge;
pub mod x11;

use vstd::prelude::*;
use crate::state::Geometry;

verus! {

/// A window as reported by the window system.
#[derive(Debug, Clone)]
pub struct WindowInfo {
    pub id: u64,
    pub class: String,
    pub title: String,
    pub geometry: Geometry,
    pub is_tileable: bool,
}

/// What the window system reports to the engine.
#[derive(Debug, Clone)]
pub enum WindowEvent {
    /// A window appeared; the screen size comes with it when known.
    WindowCreated { info: WindowInfo, screen_bounds: Option<Geometry> },
    WindowDestroyed(u64),
    /// A window moved or was resized, by the user dragging it or otherwise.
    WindowMovedResized { id: u64, geometry: Geometry, is_user_drag: bool },
    WindowFocused(u64),
    /// The compositor script is loaded and running.
    ScriptReady,
}

} // verus!
