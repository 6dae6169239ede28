use vstd::prelude::*;

verus! {

/// How tiled windows are arranged.
#[derive(Debug, Clone, Copy, PartialEq, Eq, Structural)]
pub enum LayoutType {
    Dwindle,
    MasterStack,
    Floating,
}

impl LayoutType {
    /// The name of the layout as given on the command line.
    pub fn name(&self) -> (r: &'static str)
        ensures
            r@ == (match self {
                LayoutType::Dwindle => "dwindle"@,
                LayoutType::MasterStack => "master-stack"@,
                LayoutType::Floating => "floating"@,
            }),
    {
        match self {
            LayoutType::Dwindle => "dwindle",
            LayoutType::MasterStack => "master-stack",
            LayoutType::Floating => "floating",
        }
    }
}

/// The settings of the tiling engine. Ratios are in thousandths.
#[derive(Debug, Clone)]
pub struct Config {
    /// Layout strategy.
    pub layout: LayoutType,
    /// Outer screen gaps (padding) in pixels.
    pub gaps: u32,
    /// Gaps between windows in pixels.
    pub inner_gaps: u32,
    /// Movement threshold in pixels to classify a move as a user drag.
    pub drag_threshold: i32,
    /// Restore windows to their original geometries on shutdown.
    pub restore_on_exit: bool,
    /// Verbose logging.
    pub debug: bool,
    /// Start even when running as root.
    pub force_sudo: bool,
    /// Width of the master area in the master-stack layout, in thousandths.
    pub master_ratio_permille: u32,
    /// Maximum number of tiled windows on screen (0 = unlimited).
    pub max_windows: u32,
    /// Share of a window's width and height, in thousandths, that counts as
    /// its center (drag-to-swap) zone.
    pub swap_zone_permille: u32,
}

impl Default for Config {
    /// The settings used when no option is given.
    fn default() -> (r: Self)
        ensures
            r.layout == LayoutType::Dwindle,
            r.gaps == 0,
            r.inner_gaps == 0,
            r.drag_threshold == 20,
            r.restore_on_exit,
            !r.debug,
            !r.force_sudo,
            r.master_ratio_permille == 500,
            r.max_windows == 0,
            r.swap_zone_permille == 400,
    {
        Config {
            layout: LayoutType::Dwindle,
            gaps: 0,
            inner_gaps: 0,
            drag_threshold: 20,
            restore_on_exit: true,
            debug: false,
            force_sudo: false,
            master_ratio_permille: 500,
            max_windows: 0,
            swap_zone_permille: 400,
        }
    }
}

} // verus!
