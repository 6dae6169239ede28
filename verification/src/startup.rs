use vstd::prelude::*;

verus! {

/// What to do about the user the daemon runs as.
#[derive(Debug, Clone, Copy, PartialEq, Eq, Structural)]
pub enum SudoCheck {
    /// An ordinary user: start.
    Proceed,
    /// Root, but the override was given: warn and start.
    ProceedAsRoot,
    /// Root without the override: warn and refuse to start.
    Refuse,
}

/// Running as root breaks the session bus and display connections, so the
/// daemon refuses unless told to go on anyway.
pub fn check_sudo(effective_uid: u32, force_sudo: bool) -> (r: SudoCheck)
    ensures
        effective_uid != 0 ==> r == SudoCheck::Proceed,
        effective_uid == 0 && force_sudo ==> r == SudoCheck::ProceedAsRoot,
        effective_uid == 0 && !force_sudo ==> r == SudoCheck::Refuse,
{
    if effective_uid == 0 {
        if !force_sudo {
            SudoCheck::Refuse
        } else {
            SudoCheck::ProceedAsRoot
        }
    } else {
        SudoCheck::Proceed
    }
}

/// The window-system backend to drive.
#[derive(Debug, Clone, Copy, PartialEq, Eq, Structural)]
pub enum BackendKind {
    /// KWin on Wayland, through the session bus.
    WaylandBridge,
    /// An X11 display.
    X11,
}

/// Wayland is used when a non-empty `WAYLAND_DISPLAY` and a session bus
/// address are both set; otherwise X11 when `DISPLAY` is set; otherwise no
/// supported display server is found.
pub fn select_backend(
    wayland_display: Option<&str>,
    has_session_bus: bool,
    has_x11_display: bool,
) -> (r: Option<BackendKind>)
    ensures
        r == (if (wayland_display matches Some(w) && w@.len() > 0) && has_session_bus {
            Some(BackendKind::WaylandBridge)
        } else if has_x11_display {
            Some(BackendKind::X11)
        } else {
            None
        }),
{
    let wayland = match wayland_display {
        Some(w) => !w.is_empty(),
        None => false,
    };
    if wayland && has_session_bus {
        Some(BackendKind::WaylandBridge)
    } else if has_x11_display {
        Some(BackendKind::X11)
    } else {
        None
    }
}

} // verus!
