use vstd::prelude::*;

verus! {

/// Width in pixels of the drag-preview border.
pub const BORDER_PX: u32 = 5;

/// A command to the drag-preview overlay.
#[derive(Debug, Clone, PartialEq, Eq, Structural)]
pub enum OverlayCmd {
    /// Show the overlay at the given rectangle, in the compositor's logical
    /// pixels; `logical_screen_w/h` are the full logical screen size, from
    /// which the physical/logical scale is derived. `blocked` marks a split
    /// that cannot be made.
    Show { x: i32, y: i32, w: u32, h: u32, logical_screen_w: u32, logical_screen_h: u32, blocked: bool },
    Hide,
}

/// The channel masks of one X11 visual.
#[derive(Debug, Clone, Copy, PartialEq, Eq, Structural)]
pub struct VisualMasks {
    pub visual_id: u32,
    pub red_mask: u32,
    pub green_mask: u32,
    pub blue_mask: u32,
}

/// The first visual from position `i` on with the given id.
pub open spec fn first_visual_from(visuals: Seq<VisualMasks>, i: int, id: u32) -> Option<VisualMasks>
    decreases visuals.len() - i,
{
    if i < 0 || i >= visuals.len() {
        None
    } else if visuals[i].visual_id == id {
        Some(visuals[i])
    } else {
        first_visual_from(visuals, i + 1, id)
    }
}

/// The pixel value of the colour `(r, g, b)`: each channel shifted to the
/// lowest set bit of its mask in the root visual, or the 0xRRGGBB layout
/// when the root visual is not listed.
pub open spec fn pixel_spec(visuals: Seq<VisualMasks>, root_visual: u32, r: u8, g: u8, b: u8) -> u32 {
    match first_visual_from(visuals, 0, root_visual) {
        Some(v) => ((r as u32) << v.red_mask.trailing_zeros()) | ((g as u32)
            << v.green_mask.trailing_zeros()) | ((b as u32) << v.blue_mask.trailing_zeros()),
        None => ((r as u32) << 16u32) | ((g as u32) << 8u32) | (b as u32),
    }
}

/// The pixel value of a colour on a screen whose visuals (all depths, in
/// order) are `visuals` and whose root visual is `root_visual`.
pub fn compute_pixel(visuals: &[VisualMasks], root_visual: u32, r: u8, g: u8, b: u8) -> (p: u32)
    requires
        first_visual_from(visuals@, 0, root_visual) matches Some(v) ==> v.red_mask != 0
            && v.green_mask != 0 && v.blue_mask != 0,
    ensures
        p == pixel_spec(visuals@, root_visual, r, g, b),
{
    let mut i: usize = 0;
    while i < visuals.len()
        invariant
            i <= visuals@.len(),
            first_visual_from(visuals@, 0, root_visual) matches Some(v) ==> v.red_mask != 0
                && v.green_mask != 0 && v.blue_mask != 0,
            first_visual_from(visuals@, i as int, root_visual) == first_visual_from(
                visuals@,
                0,
                root_visual,
            ),
        decreases visuals@.len() - i,
    {
        let vi = visuals[i];
        if vi.visual_id == root_visual {
            let rs = vi.red_mask.trailing_zeros();
            let gs = vi.green_mask.trailing_zeros();
            let bs = vi.blue_mask.trailing_zeros();
            proof {
                vstd::std_specs::bits::axiom_u32_trailing_zeros(vi.red_mask);
                vstd::std_specs::bits::axiom_u32_trailing_zeros(vi.green_mask);
                vstd::std_specs::bits::axiom_u32_trailing_zeros(vi.blue_mask);
            }
            return ((r as u32) << rs) | ((g as u32) << gs) | ((b as u32) << bs);
        }
        i += 1;
    }
    ((r as u32) << 16) | ((g as u32) << 8) | (b as u32)
}

/// Whether `compute_pixel` can shift the channels of the root visual into
/// place: each of its masks has a set bit (a shift by 32 overflows).
pub fn compute_pixel_fits(visuals: &[VisualMasks], root_visual: u32) -> (r: bool)
    ensures
        r == (first_visual_from(visuals@, 0, root_visual) matches Some(v) ==> v.red_mask != 0
            && v.green_mask != 0 && v.blue_mask != 0),
{
    let mut i: usize = 0;
    while i < visuals.len()
        invariant
            i <= visuals@.len(),
            first_visual_from(visuals@, i as int, root_visual) == first_visual_from(
                visuals@,
                0,
                root_visual,
            ),
        decreases visuals@.len() - i,
    {
        let vi = visuals[i];
        if vi.visual_id == root_visual {
            return vi.red_mask != 0 && vi.green_mask != 0 && vi.blue_mask != 0;
        }
        i += 1;
    }
    true
}

/// The size of the hole cut into the overlay of size `w` by `h` to leave
/// a border of `BORDER_PX` (`w as i32 - 2 * BORDER_PX`, at least zero, as
/// `u16`), or `None` when there is no hole.
pub open spec fn inner_size_spec(w: u32, h: u32) -> Option<(u16, u16)> {
    let iw = size_minus_border(w);
    let ih = size_minus_border(h);
    if iw > 0 && ih > 0 {
        Some((iw, ih))
    } else {
        None
    }
}

pub open spec fn size_minus_border(v: u32) -> u16 {
    let d = crate::state::size_as_i32(v) - 2 * BORDER_PX;
    (if d > 0 {
        d
    } else {
        0
    }) as u16
}

/// Whether `hollow_inner_size` can subtract the border without overflow.
pub fn hollow_inner_size_fits(w: u32, h: u32) -> (r: bool)
    ensures
        r == (crate::state::size_as_i32(w) - 2 * BORDER_PX >= i32::MIN && crate::state::size_as_i32(h)
            - 2 * BORDER_PX >= i32::MIN),
{
    proof {
        crate::state::lemma_size_as_i32(w);
        crate::state::lemma_size_as_i32(h);
    }
    let wi: i32 = #[verifier::truncate] (w as i32);
    let hi: i32 = #[verifier::truncate] (h as i32);
    let b = (2 * BORDER_PX) as i64;
    (wi as i64) - b >= (i32::MIN as i64) && (hi as i64) - b >= (i32::MIN as i64)
}

/// The hole of the hollow overlay border.
pub fn hollow_inner_size(w: u32, h: u32) -> (r: Option<(u16, u16)>)
    requires
        crate::state::size_as_i32(w) - 2 * BORDER_PX >= i32::MIN,
        crate::state::size_as_i32(h) - 2 * BORDER_PX >= i32::MIN,
    ensures
        r == inner_size_spec(w, h),
{
    proof {
        crate::state::lemma_size_as_i32(w);
        crate::state::lemma_size_as_i32(h);
    }
    let b = BORDER_PX as i32;
    let wi: i32 = #[verifier::truncate] (w as i32);
    let hi: i32 = #[verifier::truncate] (h as i32);
    let dw = wi - 2 * b;
    let dh = hi - 2 * b;
    let iw: u16 = #[verifier::truncate] ((if dw > 0 { dw } else { 0 }) as u16);
    let ih: u16 = #[verifier::truncate] ((if dh > 0 { dh } else { 0 }) as u16);
    if iw > 0 && ih > 0 {
        Some((iw, ih))
    } else {
        None
    }
}

/// The smallest side the overlay is drawn with: two borders and a pixel
/// of hole on each side.
pub const MIN_SIDE_PX: u32 = 12;

/// What the overlay thread remembers between commands: whether its window
/// is mapped and the window's current size in physical pixels.
#[derive(Debug, Clone, Copy, PartialEq, Eq, Structural)]
pub struct OverlayState {
    pub visible: bool,
    pub cur_w: u32,
    pub cur_h: u32,
}

/// Where the overlay window goes, in physical pixels.
#[derive(Debug, Clone, Copy, PartialEq, Eq, Structural)]
pub struct OverlayPlace {
    pub x: i32,
    pub y: i32,
    pub w: u32,
    pub h: u32,
}

/// What the overlay thread does to its window after a command or an
/// expose event: move and resize it to `place` (raising it and cutting its
/// hollow shape anew), map it, unmap it, and repaint its border.
#[derive(Debug, Clone, Copy, PartialEq, Eq, Structural)]
pub struct OverlayStep {
    pub place: Option<OverlayPlace>,
    pub map: bool,
    pub unmap: bool,
    pub redraw: bool,
}

/// `v`, but never below `MIN_SIDE_PX`.
pub open spec fn overlay_side(v: u32) -> u32 {
    if v >= MIN_SIDE_PX {
        v
    } else {
        MIN_SIDE_PX
    }
}

impl OverlayState {
    /// The state before any command: hidden, 8 by 8 pixels.
    pub fn initial() -> (r: Self)
        ensures
            r == (OverlayState { visible: false, cur_w: 8, cur_h: 8 }),
    {
        OverlayState { visible: false, cur_w: 8, cur_h: 8 }
    }

    /// A request to show the overlay at `(px, py)` with size `pw` by `ph`,
    /// already scaled to physical pixels: the window is placed there (each
    /// side at least `MIN_SIDE_PX`), mapped if it was hidden, and repainted.
    pub fn on_show(self, px: i32, py: i32, pw: u32, ph: u32) -> (r: (Self, OverlayStep))
        ensures
            r.0 == (OverlayState { visible: true, cur_w: overlay_side(pw), cur_h: overlay_side(ph) }),
            r.1 == (OverlayStep {
                place: Some(OverlayPlace { x: px, y: py, w: overlay_side(pw), h: overlay_side(ph) }),
                map: !self.visible,
                unmap: false,
                redraw: true,
            }),
    {
        let w = if pw >= MIN_SIDE_PX { pw } else { MIN_SIDE_PX };
        let h = if ph >= MIN_SIDE_PX { ph } else { MIN_SIDE_PX };
        (
            OverlayState { visible: true, cur_w: w, cur_h: h },
            OverlayStep {
                place: Some(OverlayPlace { x: px, y: py, w, h }),
                map: !self.visible,
                unmap: false,
                redraw: true,
            },
        )
    }

    /// A request to hide the overlay: the window is unmapped if it was
    /// shown; its size is kept.
    pub fn on_hide(self) -> (r: (Self, OverlayStep))
        ensures
            r.0 == (OverlayState { visible: false, ..self }),
            r.1 == (OverlayStep { place: None, map: false, unmap: self.visible, redraw: false }),
    {
        (
            OverlayState { visible: false, cur_w: self.cur_w, cur_h: self.cur_h },
            OverlayStep { place: None, map: false, unmap: self.visible, redraw: false },
        )
    }

    /// An expose event: the border is repainted when the window is shown.
    pub fn on_expose(self) -> (r: OverlayStep)
        ensures
            r == (OverlayStep { place: None, map: false, unmap: false, redraw: self.visible }),
    {
        OverlayStep { place: None, map: false, unmap: false, redraw: self.visible }
    }
}

} // verus!
