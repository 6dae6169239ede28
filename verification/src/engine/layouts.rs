use vstd::prelude::*;
use std::collections::HashMap;
use crate::state::{Geometry, lemma_size_as_i32, size_as_i32};
use crate::engine::tree::share_of;

verus! {

broadcast use vstd::std_specs::hash::group_hash_axioms;

/// The screen minus the outer gap on every side: the origin moves by the gap
/// and each size loses twice the gap (down to zero).
pub open spec fn usable_area(screen: Geometry, gaps: u32) -> Geometry {
    Geometry {
        x: (screen.x + size_as_i32(gaps)) as i32,
        y: (screen.y + size_as_i32(gaps)) as i32,
        width: screen.width.saturating_sub((gaps * 2) as u32),
        height: screen.height.saturating_sub((gaps * 2) as u32),
    }
}

/// The usable area can be computed without overflow.
pub open spec fn usable_area_fits(screen: Geometry, gaps: u32) -> bool {
    &&& i32::MIN <= screen.x + size_as_i32(gaps) <= i32::MAX
    &&& i32::MIN <= screen.y + size_as_i32(gaps) <= i32::MAX
    &&& gaps * 2 <= u32::MAX
}

/// `ids[k] ↦ geoms[k]` for every position, a later position winning over an
/// earlier one with the same id.
pub open spec fn assign(ids: Seq<u64>, geoms: Seq<Geometry>) -> Map<u64, Geometry>
    decreases ids.len(),
{
    if ids.len() == 0 {
        Map::empty()
    } else {
        assign(ids.drop_last(), geoms.take(ids.len() - 1)).insert(
            ids.last(),
            geoms[ids.len() - 1],
        )
    }
}

/// A way of placing windows on the screen.
pub trait LayoutStrategy {
    /// The inputs on which `compute_layout` stays within machine integers.
    spec fn layout_fits(&self, windows: Seq<u64>, screen_bounds: Geometry, gaps: u32, inner_gaps: u32) -> bool;

    /// The area given to each window.
    spec fn layout_of(
        &self,
        windows: Seq<u64>,
        screen_bounds: Geometry,
        gaps: u32,
        inner_gaps: u32,
    ) -> Map<u64, Geometry>;

    fn compute_layout(
        &self,
        windows: &[u64],
        screen_bounds: Geometry,
        gaps: u32,
        inner_gaps: u32,
    ) -> (r: HashMap<u64, Geometry>)
        requires
            self.layout_fits(windows@, screen_bounds, gaps, inner_gaps),
        ensures
            r@ == self.layout_of(windows@, screen_bounds, gaps, inner_gaps),
    ;
}

/// Each window takes half of the remaining area, alternating between a
/// left/right and a top/bottom cut; the last window takes what is left.
pub struct DwindleLayout;

/// A master window on the left, the others stacked on the right.
/// `master_ratio_permille` is the master's share of the width in
/// thousandths.
pub struct MasterStackLayout {
    pub master_ratio_permille: u32,
}

/// Windows keep their own geometry: no area is assigned.
pub struct FloatingLayout;

/// A cut of the area `b`: the tile (the left half, or the top half when
/// `horizontal` is false, less half the inner gap) and the area that
/// remains beyond the inner gap.
pub open spec fn cut(b: Geometry, horizontal: bool, inner_gaps: u32) -> (Geometry, Geometry) {
    if horizontal {
        let half_w = (b.width / 2).saturating_sub(inner_gaps / 2);
        (
            Geometry { x: b.x, y: b.y, width: half_w, height: b.height },
            Geometry {
                x: (b.x + half_w + size_as_i32(inner_gaps)) as i32,
                y: b.y,
                width: b.width.saturating_sub((half_w + inner_gaps) as u32),
                height: b.height,
            },
        )
    } else {
        let half_h = (b.height / 2).saturating_sub(inner_gaps / 2);
        (
            Geometry { x: b.x, y: b.y, width: b.width, height: half_h },
            Geometry {
                x: b.x,
                y: (b.y + half_h + size_as_i32(inner_gaps)) as i32,
                width: b.width,
                height: b.height.saturating_sub((half_h + inner_gaps) as u32),
            },
        )
    }
}

/// The cut stays within machine integers.
pub open spec fn cut_fits(b: Geometry, horizontal: bool, inner_gaps: u32) -> bool {
    if horizontal {
        let half_w = (b.width / 2).saturating_sub(inner_gaps / 2);
        &&& i32::MIN <= b.x + half_w <= i32::MAX
        &&& i32::MIN <= b.x + half_w + size_as_i32(inner_gaps) <= i32::MAX
        &&& half_w + inner_gaps <= u32::MAX
    } else {
        let half_h = (b.height / 2).saturating_sub(inner_gaps / 2);
        &&& i32::MIN <= b.y + half_h <= i32::MAX
        &&& i32::MIN <= b.y + half_h + size_as_i32(inner_gaps) <= i32::MAX
        &&& half_h + inner_gaps <= u32::MAX
    }
}

/// The cut made for the `i`-th window: even steps cut left/right, odd
/// steps top/bottom.
pub open spec fn dwindle_step(b: Geometry, i: int, inner_gaps: u32) -> (Geometry, Geometry) {
    cut(b, i % 2 == 0, inner_gaps)
}

pub open spec fn dwindle_step_fits(b: Geometry, i: int, inner_gaps: u32) -> bool {
    cut_fits(b, i % 2 == 0, inner_gaps)
}

/// `acc` extended with the tiles of windows `i..` cut from the area `b`.
pub open spec fn dwindle_from(
    windows: Seq<u64>,
    i: int,
    b: Geometry,
    inner_gaps: u32,
    acc: Map<u64, Geometry>,
) -> Map<u64, Geometry>
    decreases windows.len() - i,
{
    if i < 0 || i >= windows.len() {
        acc
    } else if i == windows.len() - 1 {
        acc.insert(windows[i], b)
    } else {
        let (tile, rest) = dwindle_step(b, i, inner_gaps);
        dwindle_from(windows, i + 1, rest, inner_gaps, acc.insert(windows[i], tile))
    }
}

/// Every cut from window `i` on, among `n` windows, stays within machine
/// integers.
pub open spec fn dwindle_fits_from(n: int, i: int, b: Geometry, inner_gaps: u32) -> bool
    decreases n - i,
{
    if i < 0 || i >= n - 1 {
        true
    } else {
        &&& dwindle_step_fits(b, i, inner_gaps)
        &&& dwindle_fits_from(n, i + 1, dwindle_step(b, i, inner_gaps).1, inner_gaps)
    }
}

pub open spec fn dwindle_layout(windows: Seq<u64>, screen: Geometry, gaps: u32, inner_gaps: u32) -> Map<u64, Geometry> {
    if windows.len() == 0 {
        Map::empty()
    } else {
        dwindle_from(windows, 0, usable_area(screen, gaps), inner_gaps, Map::empty())
    }
}

/// Laying out `n` windows with the dwindle layout stays within machine
/// integers.
pub open spec fn dwindle_fits(n: int, screen: Geometry, gaps: u32, inner_gaps: u32) -> bool {
    n <= 0 || (usable_area_fits(screen, gaps) && dwindle_fits_from(
        n,
        0,
        usable_area(screen, gaps),
        inner_gaps,
    ))
}

impl LayoutStrategy for DwindleLayout {
    open spec fn layout_fits(&self, windows: Seq<u64>, screen_bounds: Geometry, gaps: u32, inner_gaps: u32) -> bool {
        dwindle_fits(windows.len() as int, screen_bounds, gaps, inner_gaps)
    }

    open spec fn layout_of(
        &self,
        windows: Seq<u64>,
        screen_bounds: Geometry,
        gaps: u32,
        inner_gaps: u32,
    ) -> Map<u64, Geometry> {
        dwindle_layout(windows, screen_bounds, gaps, inner_gaps)
    }

    fn compute_layout(
        &self,
        windows: &[u64],
        screen_bounds: Geometry,
        gaps: u32,
        inner_gaps: u32,
    ) -> (r: HashMap<u64, Geometry>) {
        dwindle_compute(windows, screen_bounds, gaps, inner_gaps)
    }
}

fn dwindle_compute(
        windows: &[u64],
        screen_bounds: Geometry,
        gaps: u32,
        inner_gaps: u32,
    ) -> (r: HashMap<u64, Geometry>)
    requires
        dwindle_fits(windows@.len() as int, screen_bounds, gaps, inner_gaps),
    ensures
        r@ == dwindle_layout(windows@, screen_bounds, gaps, inner_gaps),
    {
        let mut result = HashMap::new();
        if windows.len() == 0 {
            return result;
        }
        let ghost target = dwindle_layout(windows@, screen_bounds, gaps, inner_gaps);
        let usable = usable(screen_bounds, gaps);
        let mut current_bounds = usable;
        let count = windows.len();
        let mut i: usize = 0;
        while i < count
            invariant
                count == windows@.len(),
                count >= 1,
                i < count,
                target == dwindle_layout(windows@, screen_bounds, gaps, inner_gaps),
                dwindle_from(windows@, i as int, current_bounds, inner_gaps, result@) == target,
                dwindle_fits_from(windows@.len() as int, i as int, current_bounds, inner_gaps),
            decreases count - i,
        {
            let win_id = windows[i];
            if i == count - 1 {
                assert(dwindle_from(windows@, i as int, current_bounds, inner_gaps, result@)
                    == result@.insert(win_id, current_bounds));
                result.insert(win_id, current_bounds);
                assert(result@ =~= target);
                return result;
            }
            let is_horizontal_split = i % 2 == 0;
            let (tile, rest) = cut_area(current_bounds, is_horizontal_split, inner_gaps);
            result.insert(win_id, tile);
            current_bounds = rest;
            i += 1;
        }
        result
    }

/// Cuts a tile off the area `b` (see `cut`).
fn cut_area(b: Geometry, horizontal: bool, inner_gaps: u32) -> (r: (Geometry, Geometry))
    requires
        cut_fits(b, horizontal, inner_gaps),
    ensures
        r == cut(b, horizontal, inner_gaps),
{
    proof {
        lemma_size_as_i32(inner_gaps);
    }
    let gap: i32 = #[verifier::truncate] (inner_gaps as i32);
    if horizontal {
        let half_w = (b.width / 2).saturating_sub(inner_gaps / 2);
        let left_geom = Geometry::new(b.x, b.y, half_w, b.height);
        let next_x = b.x + half_w as i32 + gap;
        let next_w = b.width.saturating_sub(half_w + inner_gaps);
        (left_geom, Geometry::new(next_x, b.y, next_w, b.height))
    } else {
        let half_h = (b.height / 2).saturating_sub(inner_gaps / 2);
        let top_geom = Geometry::new(b.x, b.y, b.width, half_h);
        let next_y = b.y + half_h as i32 + gap;
        let next_h = b.height.saturating_sub(half_h + inner_gaps);
        (top_geom, Geometry::new(b.x, next_y, b.width, next_h))
    }
}

/// The usable area of the screen, computed as the layouts do.
fn usable(screen_bounds: Geometry, gaps: u32) -> (r: Geometry)
    requires
        usable_area_fits(screen_bounds, gaps),
    ensures
        r == usable_area(screen_bounds, gaps),
{
    proof {
        lemma_size_as_i32(gaps);
    }
    let g: i32 = #[verifier::truncate] (gaps as i32);
    let usable_x = screen_bounds.x + g;
    let usable_y = screen_bounds.y + g;
    let usable_w = screen_bounds.width.saturating_sub(gaps * 2);
    let usable_h = screen_bounds.height.saturating_sub(gaps * 2);
    Geometry::new(usable_x, usable_y, usable_w, usable_h)
}

impl LayoutStrategy for FloatingLayout {
    open spec fn layout_fits(&self, windows: Seq<u64>, screen_bounds: Geometry, gaps: u32, inner_gaps: u32) -> bool {
        true
    }

    open spec fn layout_of(
        &self,
        windows: Seq<u64>,
        screen_bounds: Geometry,
        gaps: u32,
        inner_gaps: u32,
    ) -> Map<u64, Geometry> {
        Map::empty()
    }

    fn compute_layout(
        &self,
        _windows: &[u64],
        _screen_bounds: Geometry,
        _gaps: u32,
        _inner_gaps: u32,
    ) -> (r: HashMap<u64, Geometry>) {
        HashMap::new()
    }
}

/// The master's width: its share of the usable width, less half the
/// inner gap.
pub open spec fn master_width(usable_w: u32, ratio_permille: u32, inner_gaps: u32) -> u32 {
    share_of(usable_w, ratio_permille).saturating_sub(inner_gaps / 2)
}

/// The number of stacked windows among `n` as the layout counts them
/// (`as u32`).
pub open spec fn stack_count_u32(n: int) -> u32 {
    ((n - 1) as usize) as u32
}

/// The height of each stacked window.
pub open spec fn stack_height(usable_h: u32, inner_gaps: u32, n: u32) -> u32 {
    (usable_h.saturating_sub((inner_gaps * (n - 1)) as u32) / n) as u32
}

/// The offset of the `idx`-th stacked window from the top of the usable area.
pub open spec fn stack_offset(idx: int, stack_h: u32, inner_gaps: u32) -> u32 {
    (((idx as usize) as u32) * (stack_h + inner_gaps)) as u32
}

/// The area of every window in the master-stack layout, by position: the
/// first window is the master, the others the stack from top to bottom.
pub open spec fn master_stack_geoms(
    n_windows: int,
    usable: Geometry,
    ratio_permille: u32,
    inner_gaps: u32,
    n: u32,
) -> Seq<Geometry> {
    let master_w = master_width(usable.width, ratio_permille, inner_gaps);
    let stack_x = (usable.x + size_as_i32(master_w) + size_as_i32(inner_gaps)) as i32;
    let stack_w = usable.width.saturating_sub((master_w + inner_gaps) as u32);
    let stack_h = stack_height(usable.height, inner_gaps, n);
    Seq::new(
        n_windows as nat,
        |k: int|
            if k == 0 {
                Geometry { x: usable.x, y: usable.y, width: master_w, height: usable.height }
            } else {
                Geometry {
                    x: stack_x,
                    y: (usable.y + size_as_i32(stack_offset(k - 1, stack_h, inner_gaps))) as i32,
                    width: stack_w,
                    height: stack_h,
                }
            },
    )
}

pub open spec fn master_stack_layout(
    windows: Seq<u64>,
    screen: Geometry,
    gaps: u32,
    inner_gaps: u32,
    ratio_permille: u32,
) -> Map<u64, Geometry> {
    let usable = usable_area(screen, gaps);
    if windows.len() == 0 {
        Map::empty()
    } else if windows.len() == 1 {
        Map::empty().insert(windows[0], usable)
    } else {
        assign(
            windows,
            master_stack_geoms(
                windows.len() as int,
                usable,
                ratio_permille,
                inner_gaps,
                stack_count_u32(windows.len() as int),
            ),
        )
    }
}

/// The `idx`-th stacked window's offset and position stay within machine
/// integers.
pub open spec fn stack_row_fits(idx: int, usable_y: i32, stack_h: u32, inner_gaps: u32) -> bool {
    &&& ((idx as usize) as u32) * (stack_h + inner_gaps) <= u32::MAX
    &&& i32::MIN <= usable_y + size_as_i32(stack_offset(idx, stack_h, inner_gaps)) <= i32::MAX
}

/// Every step of the master-stack layout of `count` windows stays within
/// machine integers.
pub open spec fn master_stack_fits(
    count: int,
    screen: Geometry,
    gaps: u32,
    inner_gaps: u32,
    ratio_permille: u32,
) -> bool {
    let usable = usable_area(screen, gaps);
    let master_w = master_width(usable.width, ratio_permille, inner_gaps);
    let n = stack_count_u32(count);
    let stack_h = stack_height(usable.height, inner_gaps, n);
    count <= 0 || (usable_area_fits(screen, gaps) && (count == 1 || {
        &&& count - 1 <= usize::MAX
        &&& i32::MIN <= usable.x + size_as_i32(master_w) <= i32::MAX
        &&& i32::MIN <= usable.x + size_as_i32(master_w) + size_as_i32(inner_gaps) <= i32::MAX
        &&& master_w + inner_gaps <= u32::MAX
        &&& n >= 1
        &&& inner_gaps * (n - 1) <= u32::MAX
        &&& stack_h + inner_gaps <= u32::MAX
        &&& forall|idx: int|
            0 <= idx < count - 1 ==> #[trigger] stack_row_fits(idx, usable.y, stack_h, inner_gaps)
    }))
}

impl LayoutStrategy for MasterStackLayout {
    open spec fn layout_fits(&self, windows: Seq<u64>, screen_bounds: Geometry, gaps: u32, inner_gaps: u32) -> bool {
        master_stack_fits(windows.len() as int, screen_bounds, gaps, inner_gaps, self.master_ratio_permille)
    }

    open spec fn layout_of(
        &self,
        windows: Seq<u64>,
        screen_bounds: Geometry,
        gaps: u32,
        inner_gaps: u32,
    ) -> Map<u64, Geometry> {
        master_stack_layout(windows, screen_bounds, gaps, inner_gaps, self.master_ratio_permille)
    }

    fn compute_layout(
        &self,
        windows: &[u64],
        screen_bounds: Geometry,
        gaps: u32,
        inner_gaps: u32,
    ) -> (r: HashMap<u64, Geometry>) {
        let mut result = HashMap::new();
        if windows.len() == 0 {
            return result;
        }
        let usable = usable(screen_bounds, gaps);
        let usable_x = usable.x;
        let usable_y = usable.y;
        let usable_w = usable.width;
        let usable_h = usable.height;
        if windows.len() == 1 {
            result.insert(windows[0], Geometry::new(usable_x, usable_y, usable_w, usable_h));
            assert(result@ =~= master_stack_layout(windows@, screen_bounds, gaps, inner_gaps, self.master_ratio_permille));
            return result;
        }
        let master_w = crate::engine::tree::share(usable_w, self.master_ratio_permille).saturating_sub(
            inner_gaps / 2,
        );
        proof {
            lemma_size_as_i32(master_w);
            lemma_size_as_i32(inner_gaps);
        }
        let master_off: i32 = #[verifier::truncate] (master_w as i32);
        let gap: i32 = #[verifier::truncate] (inner_gaps as i32);
        let stack_x = usable_x + master_off + gap;
        let stack_w = usable_w.saturating_sub(master_w + inner_gaps);
        result.insert(windows[0], Geometry::new(usable_x, usable_y, master_w, usable_h));
        let stack_count = windows.len() - 1;
        let n: u32 = #[verifier::truncate] (stack_count as u32);
        let stack_h = (usable_h.saturating_sub(inner_gaps * (n - 1))) / n;
        let ghost geoms = master_stack_geoms(
            windows@.len() as int,
            usable,
            self.master_ratio_permille,
            inner_gaps,
            n,
        );
        assert(result@ =~= assign(windows@.take(1), geoms.take(1))) by {
            let t = windows@.take(1);
            assert(t.drop_last() =~= Seq::<u64>::empty());
            assert(assign(t.drop_last(), geoms.take(1).take(0)) =~= Map::<u64, Geometry>::empty());
            assert(t.last() == windows@[0]);
            assert(geoms.take(1)[0] == geoms[0]);
        }
        let mut idx: usize = 0;
        while idx < stack_count
            invariant
                stack_count == windows@.len() - 1,
                stack_count >= 1,
                idx <= stack_count,
                n == stack_count_u32(windows@.len() as int),
                stack_h == stack_height(usable_h, inner_gaps, n),
                stack_x == (usable_x + size_as_i32(master_w) + size_as_i32(inner_gaps)) as i32,
                stack_w == usable_w.saturating_sub((master_w + inner_gaps) as u32),
                usable == usable_area(screen_bounds, gaps),
                usable_x == usable.x,
                usable_y == usable.y,
                usable_w == usable.width,
                usable_h == usable.height,
                master_w == master_width(usable.width, self.master_ratio_permille, inner_gaps),
                geoms == master_stack_geoms(
                    windows@.len() as int,
                    usable,
                    self.master_ratio_permille,
                    inner_gaps,
                    n,
                ),
                master_stack_fits(windows@.len() as int, screen_bounds, gaps, inner_gaps, self.master_ratio_permille),
                result@ == assign(windows@.take(idx + 1), geoms.take(idx + 1)),
            decreases stack_count - idx,
        {
            let win_id = windows[idx + 1];
            assert(stack_row_fits(idx as int, usable.y, stack_h, inner_gaps));
            assert(((idx as u32) as int) * (stack_h + inner_gaps) <= u32::MAX);
            let off: u32 = (idx as u32) * (stack_h + inner_gaps);
            proof {
                lemma_size_as_i32(off);
                assert(stack_offset(idx as int, stack_h, inner_gaps) == off);
            }
            let off_i: i32 = #[verifier::truncate] (off as i32);
            let win_y = usable_y + off_i;
            result.insert(win_id, Geometry::new(stack_x, win_y, stack_w, stack_h));
            proof {
                let t = windows@.take(idx + 2);
                assert(t.drop_last() =~= windows@.take(idx + 1));
                assert(geoms.take(idx + 2).take(idx + 1) =~= geoms.take(idx + 1));
                assert(geoms[idx + 1] == Geometry { x: stack_x, y: win_y, width: stack_w, height: stack_h });
            }
            idx += 1;
        }
        assert(windows@.take(windows@.len() as int) =~= windows@);
        assert(geoms.take(windows@.len() as int) =~= geoms);
        result
    }
}

proof fn lemma_dwindle_from_domain(
    windows: Seq<u64>,
    i: int,
    b: Geometry,
    inner_gaps: u32,
    acc: Map<u64, Geometry>,
)
    requires
        0 <= i <= windows.len(),
    ensures
        dwindle_from(windows, i, b, inner_gaps, acc).dom() == acc.dom() + windows.subrange(
            i,
            windows.len() as int,
        ).to_set(),
    decreases windows.len() - i,
{
    let rest = windows.subrange(i, windows.len() as int);
    if i == windows.len() {
        assert(rest.to_set() =~= Set::<u64>::empty());
        assert(acc.dom() + Set::<u64>::empty() =~= acc.dom());
    } else if i == windows.len() - 1 {
        assert(rest =~= seq![windows[i]]);
        assert(rest.to_set() =~= set![windows[i]]) by {
            assert(rest[0] == windows[i]);
        }
        assert(acc.insert(windows[i], b).dom() =~= acc.dom() + set![windows[i]]);
    } else {
        let (tile, next) = dwindle_step(b, i, inner_gaps);
        lemma_dwindle_from_domain(windows, i + 1, next, inner_gaps, acc.insert(windows[i], tile));
        let tail = windows.subrange(i + 1, windows.len() as int);
        assert(rest =~= seq![windows[i]] + tail);
        assert(rest.to_set() =~= set![windows[i]] + tail.to_set()) by {
            assert forall|x: u64| rest.to_set().contains(x) implies (set![windows[i]] + tail.to_set()).contains(x) by {
                let k = choose|k: int| 0 <= k < rest.len() && rest[k] == x;
                if k > 0 {
                    assert(tail[k - 1] == x);
                }
            }
            assert forall|x: u64| (set![windows[i]] + tail.to_set()).contains(x) implies rest.to_set().contains(x) by {
                if x == windows[i] {
                    assert(rest[0] == x);
                } else {
                    let k = choose|k: int| 0 <= k < tail.len() && tail[k] == x;
                    assert(rest[k + 1] == x);
                }
            }
        }
        assert(acc.insert(windows[i], tile).dom() + tail.to_set() =~= acc.dom() + rest.to_set());
    }
}

proof fn lemma_assign_domain(ids: Seq<u64>, geoms: Seq<Geometry>)
    requires
        geoms.len() == ids.len(),
    ensures
        assign(ids, geoms).dom() == ids.to_set(),
    decreases ids.len(),
{
    if ids.len() == 0 {
        assert(ids.to_set() =~= Set::<u64>::empty());
    } else {
        let init = ids.drop_last();
        lemma_assign_domain(init, geoms.take(ids.len() - 1));
        assert(ids =~= init.push(ids.last()));
        assert(ids.to_set() =~= init.to_set().insert(ids.last())) by {
            assert forall|x: u64| ids.to_set().contains(x) implies init.to_set().insert(ids.last()).contains(x) by {
                let k = choose|k: int| 0 <= k < ids.len() && ids[k] == x;
                if k < ids.len() - 1 {
                    assert(init[k] == x);
                }
            }
            assert forall|x: u64| init.to_set().insert(ids.last()).contains(x) implies ids.to_set().contains(x) by {
                if x == ids.last() {
                    assert(ids[ids.len() - 1] == x);
                } else {
                    let k = choose|k: int| 0 <= k < init.len() && init[k] == x;
                    assert(ids[k] == x);
                }
            }
        }
    }
}

/// Every window listed gets an area, and nothing else does, in the dwindle
/// and master-stack layouts; the floating layout assigns none.
pub proof fn lemma_layout_domain(
    windows: Seq<u64>,
    screen: Geometry,
    gaps: u32,
    inner_gaps: u32,
    ratio_permille: u32,
)
    ensures
        dwindle_layout(windows, screen, gaps, inner_gaps).dom() == windows.to_set(),
        master_stack_layout(windows, screen, gaps, inner_gaps, ratio_permille).dom()
            == windows.to_set(),
{
    if windows.len() == 0 {
        assert(windows.to_set() =~= Set::<u64>::empty());
    } else {
        lemma_dwindle_from_domain(windows, 0, usable_area(screen, gaps), inner_gaps, Map::empty());
        assert(windows.subrange(0, windows.len() as int) =~= windows);
        assert(Map::<u64, Geometry>::empty().dom() + windows.to_set() =~= windows.to_set());
        if windows.len() == 1 {
            assert(windows.to_set() =~= set![windows[0]]) by {
                assert forall|x: u64| windows.to_set().contains(x) implies x == windows[0] by {
                    let k = choose|k: int| 0 <= k < windows.len() && windows[k] == x;
                }
            }
            assert(Map::<u64, Geometry>::empty().insert(windows[0], usable_area(screen, gaps)).dom()
                =~= set![windows[0]]);
        } else {
            lemma_assign_domain(
                windows,
                master_stack_geoms(
                    windows.len() as int,
                    usable_area(screen, gaps),
                    ratio_permille,
                    inner_gaps,
                    stack_count_u32(windows.len() as int),
                ),
            );
        }
    }
}

/// Whether the usable area of `screen` can be computed without overflow.
pub fn usable_area_fits_check(screen: Geometry, gaps: u32) -> (r: bool)
    ensures
        r == usable_area_fits(screen, gaps),
{
    proof {
        lemma_size_as_i32(gaps);
    }
    let g: i32 = #[verifier::truncate] (gaps as i32);
    let x = screen.x as i64 + g as i64;
    let y = screen.y as i64 + g as i64;
    (i32::MIN as i64) <= x && x <= (i32::MAX as i64) && (i32::MIN as i64) <= y && y <= (i32::MAX as i64)
        && (gaps as u64) * 2 <= (u32::MAX as u64)
}

/// Whether the cut can be made without overflow.
fn cut_fits_check(b: Geometry, horizontal: bool, inner_gaps: u32) -> (r: bool)
    ensures
        r == cut_fits(b, horizontal, inner_gaps),
{
    proof {
        lemma_size_as_i32(inner_gaps);
    }
    let gap: i32 = #[verifier::truncate] (inner_gaps as i32);
    let (start, size) = if horizontal {
        (b.x, b.width)
    } else {
        (b.y, b.height)
    };
    let half = (size / 2).saturating_sub(inner_gaps / 2);
    let first = start as i64 + half as i64;
    let second = first + gap as i64;
    (i32::MIN as i64) <= first && first <= (i32::MAX as i64) && (i32::MIN as i64) <= second && second
        <= (i32::MAX as i64) && (half as u64) + (inner_gaps as u64) <= (u32::MAX as u64)
}

/// Whether laying out `n` windows with the dwindle layout stays within
/// machine integers.
pub fn dwindle_fits_check(n: u128, screen: Geometry, gaps: u32, inner_gaps: u32) -> (r: bool)
    ensures
        r == dwindle_fits(n as int, screen, gaps, inner_gaps),
{
    if n == 0 {
        return true;
    }
    if !usable_area_fits_check(screen, gaps) {
        return false;
    }
    let mut b = usable(screen, gaps);
    let mut i: u128 = 0;
    while i + 1 < n
        invariant
            0 <= i < n,
            usable_area_fits(screen, gaps),
            dwindle_fits(n as int, screen, gaps, inner_gaps) == dwindle_fits_from(
                n as int,
                i as int,
                b,
                inner_gaps,
            ),
        decreases n - i,
    {
        let horizontal = i % 2 == 0;
        if !cut_fits_check(b, horizontal, inner_gaps) {
            return false;
        }
        let (_, rest) = cut_area(b, horizontal, inner_gaps);
        b = rest;
        i += 1;
    }
    true
}

/// Whether laying out `n` windows with the master-stack layout stays
/// within machine integers.
pub fn master_stack_fits_check(
    n: u128,
    screen: Geometry,
    gaps: u32,
    inner_gaps: u32,
    ratio_permille: u32,
) -> (r: bool)
    ensures
        r == master_stack_fits(n as int, screen, gaps, inner_gaps, ratio_permille),
{
    if n == 0 {
        return true;
    }
    if !usable_area_fits_check(screen, gaps) {
        return false;
    }
    if n == 1 {
        return true;
    }
    if n - 1 > usize::MAX as u128 {
        return false;
    }
    let usable = usable(screen, gaps);
    let master_w = crate::engine::tree::share(usable.width, ratio_permille).saturating_sub(
        inner_gaps / 2,
    );
    proof {
        lemma_size_as_i32(master_w);
        lemma_size_as_i32(inner_gaps);
    }
    let mi: i32 = #[verifier::truncate] (master_w as i32);
    let gi: i32 = #[verifier::truncate] (inner_gaps as i32);
    let x1 = usable.x as i64 + mi as i64;
    let x2 = x1 + gi as i64;
    if !((i32::MIN as i64) <= x1 && x1 <= (i32::MAX as i64) && (i32::MIN as i64) <= x2 && x2
        <= (i32::MAX as i64)) {
        return false;
    }
    if (master_w as u64) + (inner_gaps as u64) > (u32::MAX as u64) {
        return false;
    }
    let c: usize = (n - 1) as usize;
    let nn: u32 = #[verifier::truncate] (c as u32);
    if nn < 1 {
        return false;
    }
    assert((inner_gaps as int) * ((nn - 1) as int) <= u64::MAX) by (nonlinear_arith)
        requires
            inner_gaps <= u32::MAX,
            0 <= nn - 1 <= u32::MAX,
    ;
    if (inner_gaps as u64) * ((nn - 1) as u64) > (u32::MAX as u64) {
        return false;
    }
    let stack_h = usable.height.saturating_sub(inner_gaps * (nn - 1)) / nn;
    if (stack_h as u64) + (inner_gaps as u64) > (u32::MAX as u64) {
        return false;
    }
    let step = stack_h + inner_gaps;
    let mut idx: u128 = 0;
    while idx < n - 1
        invariant
            1 < n,
            n - 1 <= usize::MAX,
            idx <= n - 1,
            usable == usable_area(screen, gaps),
            usable_area_fits(screen, gaps),
            master_w == master_width(usable.width, ratio_permille, inner_gaps),
            i32::MIN <= usable.x + size_as_i32(master_w) <= i32::MAX,
            i32::MIN <= usable.x + size_as_i32(master_w) + size_as_i32(inner_gaps) <= i32::MAX,
            master_w + inner_gaps <= u32::MAX,
            nn == stack_count_u32(n as int),
            nn >= 1,
            inner_gaps * (nn - 1) <= u32::MAX,
            stack_h == stack_height(usable.height, inner_gaps, nn),
            stack_h + inner_gaps <= u32::MAX,
            step == stack_h + inner_gaps,
            forall|j: int| 0 <= j < idx ==> #[trigger] stack_row_fits(j, usable.y, stack_h, inner_gaps),
        decreases n - 1 - idx,
    {
        let iu: usize = idx as usize;
        let k: u32 = #[verifier::truncate] (iu as u32);
        assert(((idx as int) as usize) as u32 == k);
        assert((k as int) * (step as int) <= u64::MAX) by (nonlinear_arith)
            requires
                k <= u32::MAX,
                step <= u32::MAX,
        ;
        let prod = (k as u64) * (step as u64);
        if prod > (u32::MAX as u64) {
            assert(!stack_row_fits(idx as int, usable.y, stack_h, inner_gaps));
            return false;
        }
        let off: u32 = prod as u32;
        proof {
            lemma_size_as_i32(off);
            assert(stack_offset(idx as int, stack_h, inner_gaps) == off);
        }
        let oi: i32 = #[verifier::truncate] (off as i32);
        let y = usable.y as i64 + oi as i64;
        if !((i32::MIN as i64) <= y && y <= (i32::MAX as i64)) {
            assert(!stack_row_fits(idx as int, usable.y, stack_h, inner_gaps));
            return false;
        }
        assert(stack_row_fits(idx as int, usable.y, stack_h, inner_gaps));
        idx += 1;
    }
    true
}

/// Two rectangles share no pixel.
pub open spec fn disjoint(a: Geometry, b: Geometry) -> bool {
    ||| a.x + a.width <= b.x
    ||| b.x + b.width <= a.x
    ||| a.y + a.height <= b.y
    ||| b.y + b.height <= a.y
}

/// The tiles of positions `i..n` cut from the area `b`, in order.
pub open spec fn dwindle_tiles(n: int, i: int, b: Geometry, inner_gaps: u32) -> Seq<Geometry>
    decreases n - i,
{
    if i < 0 || i >= n {
        Seq::empty()
    } else if i == n - 1 {
        seq![b]
    } else {
        let (tile, rest) = dwindle_step(b, i, inner_gaps);
        seq![tile] + dwindle_tiles(n, i + 1, rest, inner_gaps)
    }
}

/// `acc` with `ids[k] ↦ tiles[k]` put in from left to right.
pub open spec fn put_all(acc: Map<u64, Geometry>, ids: Seq<u64>, tiles: Seq<Geometry>) -> Map<u64, Geometry>
    decreases ids.len(),
{
    if ids.len() == 0 {
        acc
    } else {
        put_all(acc.insert(ids[0], tiles[0]), ids.drop_first(), tiles.drop_first())
    }
}

proof fn lemma_dwindle_from_tiles(windows: Seq<u64>, i: int, b: Geometry, inner_gaps: u32, acc: Map<u64, Geometry>)
    requires
        0 <= i <= windows.len(),
    ensures
        dwindle_from(windows, i, b, inner_gaps, acc) == put_all(
            acc,
            windows.subrange(i, windows.len() as int),
            dwindle_tiles(windows.len() as int, i, b, inner_gaps),
        ),
        dwindle_tiles(windows.len() as int, i, b, inner_gaps).len() == windows.len() - i,
    decreases windows.len() - i,
{
    let n = windows.len() as int;
    let ids = windows.subrange(i, n);
    let tiles = dwindle_tiles(n, i, b, inner_gaps);
    if i == n {
    } else if i == n - 1 {
        assert(ids.drop_first().len() == 0);
        assert(put_all(acc.insert(ids[0], tiles[0]), ids.drop_first(), tiles.drop_first()) == acc.insert(
            ids[0],
            tiles[0],
        ));
    } else {
        let (tile, rest) = dwindle_step(b, i, inner_gaps);
        lemma_dwindle_from_tiles(windows, i + 1, rest, inner_gaps, acc.insert(windows[i], tile));
        assert(ids.drop_first() =~= windows.subrange(i + 1, n));
        assert(tiles.drop_first() =~= dwindle_tiles(n, i + 1, rest, inner_gaps));
    }
}

proof fn lemma_put_all_other(acc: Map<u64, Geometry>, ids: Seq<u64>, tiles: Seq<Geometry>, k: u64)
    requires
        !ids.contains(k),
    ensures
        put_all(acc, ids, tiles).contains_key(k) == acc.contains_key(k),
        put_all(acc, ids, tiles)[k] == acc[k],
    decreases ids.len(),
{
    if ids.len() > 0 {
        assert(ids[0] != k);
        assert(!ids.drop_first().contains(k)) by {
            if ids.drop_first().contains(k) {
                let j = choose|j: int| 0 <= j < ids.drop_first().len() && ids.drop_first()[j] == k;
                assert(ids[j + 1] == k);
            }
        }
        lemma_put_all_other(acc.insert(ids[0], tiles[0]), ids.drop_first(), tiles.drop_first(), k);
    }
}

proof fn lemma_put_all_value(acc: Map<u64, Geometry>, ids: Seq<u64>, tiles: Seq<Geometry>, j: int)
    requires
        ids.no_duplicates(),
        tiles.len() == ids.len(),
        0 <= j < ids.len(),
    ensures
        put_all(acc, ids, tiles).contains_key(ids[j]),
        put_all(acc, ids, tiles)[ids[j]] == tiles[j],
    decreases ids.len(),
{
    let rest = ids.drop_first();
    assert(rest.no_duplicates()) by {
        assert forall|a: int, b: int| 0 <= a < rest.len() && 0 <= b < rest.len() && a != b implies rest[a] != rest[b] by {
            assert(rest[a] == ids[a + 1] && rest[b] == ids[b + 1]);
        }
    }
    if j == 0 {
        assert(!rest.contains(ids[0])) by {
            if rest.contains(ids[0]) {
                let q = choose|q: int| 0 <= q < rest.len() && rest[q] == ids[0];
                assert(ids[q + 1] == ids[0]);
            }
        }
        lemma_put_all_other(acc.insert(ids[0], tiles[0]), rest, tiles.drop_first(), ids[0]);
    } else {
        lemma_put_all_value(acc.insert(ids[0], tiles[0]), rest, tiles.drop_first(), j - 1);
        assert(rest[j - 1] == ids[j]);
    }
}

/// A window put in any number of times holds the tile of one of its
/// positions.
proof fn lemma_put_all_some(acc: Map<u64, Geometry>, ids: Seq<u64>, tiles: Seq<Geometry>, k: u64)
    requires
        tiles.len() == ids.len(),
        ids.contains(k),
    ensures
        put_all(acc, ids, tiles).contains_key(k),
        exists|j: int|
            #![trigger ids[j]]
            0 <= j < ids.len() && ids[j] == k && put_all(acc, ids, tiles)[k] == tiles[j],
    decreases ids.len(),
{
    let rest = ids.drop_first();
    let tr = tiles.drop_first();
    let acc2 = acc.insert(ids[0], tiles[0]);
    if rest.contains(k) {
        lemma_put_all_some(acc2, rest, tr, k);
        let j = choose|j: int| #![trigger rest[j]] 0 <= j < rest.len() && rest[j] == k && put_all(acc2, rest, tr)[k] == tr[j];
        assert(ids[j + 1] == k && tiles[j + 1] == tr[j]);
    } else {
        let i = choose|i: int| 0 <= i < ids.len() && ids[i] == k;
        if i > 0 {
            assert(rest[i - 1] == k);
        }
        assert(ids[0] == k);
        lemma_put_all_other(acc2, rest, tr, k);
    }
}

/// Every tile cut from `b` lies right of and below its top-left corner.
proof fn lemma_dwindle_tiles_below_right(n: int, i: int, b: Geometry, inner_gaps: u32)
    requires
        dwindle_fits_from(n, i, b, inner_gaps),
        inner_gaps <= i32::MAX,
    ensures
        forall|k: int|
            0 <= k < dwindle_tiles(n, i, b, inner_gaps).len() ==> #[trigger] dwindle_tiles(
                n,
                i,
                b,
                inner_gaps,
            )[k].x >= b.x && dwindle_tiles(n, i, b, inner_gaps)[k].y >= b.y,
    decreases n - i,
{
    if 0 <= i && i < n - 1 {
        let (tile, rest) = dwindle_step(b, i, inner_gaps);
        lemma_dwindle_tiles_below_right(n, i + 1, rest, inner_gaps);
        let t = dwindle_tiles(n, i, b, inner_gaps);
        let tail = dwindle_tiles(n, i + 1, rest, inner_gaps);
        assert(t == seq![tile] + tail);
        assert(rest.x >= b.x && rest.y >= b.y);
        assert forall|k: int| 0 <= k < t.len() implies #[trigger] t[k].x >= b.x && t[k].y >= b.y by {
            if k > 0 {
                assert(t[k] == tail[k - 1]);
            }
        }
    }
}

/// The dwindle tiles never overlap.
proof fn lemma_dwindle_tiles_disjoint(n: int, i: int, b: Geometry, inner_gaps: u32)
    requires
        dwindle_fits_from(n, i, b, inner_gaps),
        inner_gaps <= i32::MAX,
    ensures
        forall|p: int, q: int|
            0 <= p < q < dwindle_tiles(n, i, b, inner_gaps).len() ==> disjoint(
                #[trigger] dwindle_tiles(n, i, b, inner_gaps)[p],
                #[trigger] dwindle_tiles(n, i, b, inner_gaps)[q],
            ),
    decreases n - i,
{
    if 0 <= i && i < n - 1 {
        let (tile, rest) = dwindle_step(b, i, inner_gaps);
        lemma_dwindle_tiles_disjoint(n, i + 1, rest, inner_gaps);
        lemma_dwindle_tiles_below_right(n, i + 1, rest, inner_gaps);
        let t = dwindle_tiles(n, i, b, inner_gaps);
        let tail = dwindle_tiles(n, i + 1, rest, inner_gaps);
        assert(t == seq![tile] + tail);
        assert forall|p: int, q: int| 0 <= p < q < t.len() implies disjoint(#[trigger] t[p], #[trigger] t[q]) by {
            assert(t[q] == tail[q - 1]);
            if p == 0 {
                assert(t[p] == tile);
                assert(tail[q - 1].x >= rest.x && tail[q - 1].y >= rest.y);
                if i % 2 == 0 {
                    assert(tile.x + tile.width <= rest.x);
                } else {
                    assert(tile.y + tile.height <= rest.y);
                }
            } else {
                assert(t[p] == tail[p - 1]);
            }
        }
    }
}

/// With an inner gap above `i32::MAX` the layout's `as i32` cast of the
/// gap wraps, and each cut puts the remaining area wholly before the tile:
/// left of it after a left/right cut, above it after a top/bottom cut.
proof fn lemma_wrapped_cut(b: Geometry, horizontal: bool, inner_gaps: u32)
    requires
        cut_fits(b, horizontal, inner_gaps),
        inner_gaps > i32::MAX,
    ensures
        ({
            let (tile, rest) = cut(b, horizontal, inner_gaps);
            &&& tile.x == b.x && tile.y == b.y
            &&& tile.width <= b.width && tile.height <= b.height
            &&& horizontal ==> rest.x + rest.width < b.x && rest.y == b.y && rest.height == b.height
            &&& !horizontal ==> rest.y + rest.height < b.y && rest.x == b.x && rest.width == b.width
        }),
{
    assert(size_as_i32(inner_gaps) == inner_gaps - 0x1_0000_0000);
}

/// With an inner gap above `i32::MAX`, no tile cut from `b` reaches past
/// its right or bottom edge.
proof fn lemma_wrapped_tiles_bounded(n: int, i: int, b: Geometry, inner_gaps: u32)
    requires
        dwindle_fits_from(n, i, b, inner_gaps),
        inner_gaps > i32::MAX,
    ensures
        forall|k: int|
            0 <= k < dwindle_tiles(n, i, b, inner_gaps).len() ==> #[trigger] dwindle_tiles(
                n,
                i,
                b,
                inner_gaps,
            )[k].x + dwindle_tiles(n, i, b, inner_gaps)[k].width <= b.x + b.width && dwindle_tiles(
                n,
                i,
                b,
                inner_gaps,
            )[k].y + dwindle_tiles(n, i, b, inner_gaps)[k].height <= b.y + b.height,
    decreases n - i,
{
    if 0 <= i && i < n - 1 {
        let (tile, rest) = dwindle_step(b, i, inner_gaps);
        lemma_wrapped_cut(b, i % 2 == 0, inner_gaps);
        lemma_wrapped_tiles_bounded(n, i + 1, rest, inner_gaps);
        let t = dwindle_tiles(n, i, b, inner_gaps);
        let tail = dwindle_tiles(n, i + 1, rest, inner_gaps);
        assert(t == seq![tile] + tail);
        assert(cut(b, i % 2 == 0, inner_gaps) == (tile, rest));
        assert(rest.x + rest.width <= b.x + b.width && rest.y + rest.height <= b.y + b.height);
        assert forall|k: int| 0 <= k < t.len() implies #[trigger] t[k].x + t[k].width <= b.x + b.width
            && t[k].y + t[k].height <= b.y + b.height by {
            if k > 0 {
                assert(t[k] == tail[k - 1]);
                assert(tail[k - 1].x + tail[k - 1].width <= rest.x + rest.width);
                assert(tail[k - 1].y + tail[k - 1].height <= rest.y + rest.height);
            } else {
                assert(t[0] == tile);
            }
        }
    }
}

/// With an inner gap above `i32::MAX`, the dwindle tiles never overlap
/// either: every later tile lies before the earlier ones.
proof fn lemma_wrapped_tiles_disjoint(n: int, i: int, b: Geometry, inner_gaps: u32)
    requires
        dwindle_fits_from(n, i, b, inner_gaps),
        inner_gaps > i32::MAX,
    ensures
        forall|p: int, q: int|
            0 <= p < q < dwindle_tiles(n, i, b, inner_gaps).len() ==> disjoint(
                #[trigger] dwindle_tiles(n, i, b, inner_gaps)[p],
                #[trigger] dwindle_tiles(n, i, b, inner_gaps)[q],
            ),
    decreases n - i,
{
    if 0 <= i && i < n - 1 {
        let (tile, rest) = dwindle_step(b, i, inner_gaps);
        lemma_wrapped_cut(b, i % 2 == 0, inner_gaps);
        lemma_wrapped_tiles_disjoint(n, i + 1, rest, inner_gaps);
        lemma_wrapped_tiles_bounded(n, i + 1, rest, inner_gaps);
        let t = dwindle_tiles(n, i, b, inner_gaps);
        let tail = dwindle_tiles(n, i + 1, rest, inner_gaps);
        assert(t == seq![tile] + tail);
        assert(cut(b, i % 2 == 0, inner_gaps) == (tile, rest));
        assert forall|p: int, q: int| 0 <= p < q < t.len() implies disjoint(#[trigger] t[p], #[trigger] t[q]) by {
            assert(t[q] == tail[q - 1]);
            if p == 0 {
                assert(t[p] == tile);
                assert(tail[q - 1].x + tail[q - 1].width <= rest.x + rest.width);
                assert(tail[q - 1].y + tail[q - 1].height <= rest.y + rest.height);
            } else {
                assert(t[p] == tail[p - 1]);
            }
        }
    }
}

/// In the dwindle layout no two windows' areas overlap. A window listed
/// twice keeps the tile of one of its positions.
pub proof fn lemma_dwindle_no_overlap(windows: Seq<u64>, screen: Geometry, gaps: u32, inner_gaps: u32)
    requires
        dwindle_fits(windows.len() as int, screen, gaps, inner_gaps),
    ensures
        forall|a: u64, b: u64|
            #[trigger] dwindle_layout(windows, screen, gaps, inner_gaps).contains_key(a)
                && #[trigger] dwindle_layout(windows, screen, gaps, inner_gaps).contains_key(b) && a != b
                ==> disjoint(
                dwindle_layout(windows, screen, gaps, inner_gaps)[a],
                dwindle_layout(windows, screen, gaps, inner_gaps)[b],
            ),
{
    let layout = dwindle_layout(windows, screen, gaps, inner_gaps);
    if windows.len() > 0 {
        let n = windows.len() as int;
        let u = usable_area(screen, gaps);
        let tiles = dwindle_tiles(n, 0, u, inner_gaps);
        lemma_dwindle_from_tiles(windows, 0, u, inner_gaps, Map::empty());
        assert(windows.subrange(0, n) =~= windows);
        if inner_gaps <= i32::MAX {
            lemma_dwindle_tiles_disjoint(n, 0, u, inner_gaps);
        } else {
            lemma_wrapped_tiles_disjoint(n, 0, u, inner_gaps);
        }
        lemma_layout_domain(windows, screen, gaps, inner_gaps, 0);
        assert forall|a: u64, b: u64|
            layout.contains_key(a) && layout.contains_key(b) && a != b implies disjoint(layout[a], layout[b]) by {
            assert(windows.to_set().contains(a) && windows.to_set().contains(b));
            lemma_put_all_some(Map::empty(), windows, tiles, a);
            lemma_put_all_some(Map::empty(), windows, tiles, b);
            let p = choose|p: int| #![trigger windows[p]] 0 <= p < windows.len() && windows[p] == a && layout[a] == tiles[p];
            let q = choose|q: int| #![trigger windows[q]] 0 <= q < windows.len() && windows[q] == b && layout[b] == tiles[q];
            if p < q {
                assert(disjoint(tiles[p], tiles[q]));
            } else {
                assert(disjoint(tiles[q], tiles[p]));
            }
        }
    }
}

/// A window listed any number of times holds the area of one of its
/// positions.
proof fn lemma_assign_some(ids: Seq<u64>, geoms: Seq<Geometry>, k: u64)
    requires
        geoms.len() == ids.len(),
        ids.contains(k),
    ensures
        assign(ids, geoms).contains_key(k),
        exists|j: int|
            #![trigger ids[j]]
            0 <= j < ids.len() && ids[j] == k && assign(ids, geoms)[k] == geoms[j],
    decreases ids.len(),
{
    let n = ids.len() as int;
    if ids[n - 1] == k {
        assert(ids[n - 1] == k);
    } else {
        let init = ids.drop_last();
        let i = choose|i: int| 0 <= i < ids.len() && ids[i] == k;
        assert(init[i] == k);
        lemma_assign_some(init, geoms.take(n - 1), k);
        let j = choose|j: int| #![trigger init[j]] 0 <= j < init.len() && init[j] == k && assign(init, geoms.take(n - 1))[k] == geoms.take(n - 1)[j];
        assert(ids[j] == k);
    }
}

proof fn lemma_assign_value(ids: Seq<u64>, geoms: Seq<Geometry>, j: int)
    requires
        ids.no_duplicates(),
        geoms.len() == ids.len(),
        0 <= j < ids.len(),
    ensures
        assign(ids, geoms).contains_key(ids[j]),
        assign(ids, geoms)[ids[j]] == geoms[j],
    decreases ids.len(),
{
    let n = ids.len() as int;
    if j < n - 1 {
        let init = ids.drop_last();
        assert(init.no_duplicates()) by {
            assert forall|a: int, b: int| 0 <= a < init.len() && 0 <= b < init.len() && a != b implies init[a] != init[b] by {
                assert(init[a] == ids[a] && init[b] == ids[b]);
            }
        }
        lemma_assign_value(init, geoms.take(n - 1), j);
        assert(ids[j] != ids[n - 1]);
    }
}

/// In the master-stack layout no two windows' areas overlap (a window
/// listed twice keeps the area of one of its positions), for inputs on
/// which no coordinate wraps around in the layout's integer casts: the
/// inner gap, the master width and every stack offset are at most
/// `i32::MAX`, and the stack has at most 2^32 rows. Beyond these bounds
/// the layout's `as i32` casts turn a size into a negative offset, which
/// this proof does not cover.
pub proof fn lemma_master_stack_no_overlap(
    windows: Seq<u64>,
    screen: Geometry,
    gaps: u32,
    inner_gaps: u32,
    ratio_permille: u32,
)
    requires
        master_stack_fits(windows.len() as int, screen, gaps, inner_gaps, ratio_permille),
        inner_gaps <= i32::MAX,
        master_width(usable_area(screen, gaps).width, ratio_permille, inner_gaps) <= i32::MAX,
        windows.len() - 1 <= 0x1_0000_0000,
        forall|k: int|
            0 <= k < windows.len() - 1 ==> #[trigger] stack_offset(
                k,
                stack_height(
                    usable_area(screen, gaps).height,
                    inner_gaps,
                    stack_count_u32(windows.len() as int),
                ),
                inner_gaps,
            ) <= i32::MAX,
    ensures
        forall|a: u64, b: u64|
            #[trigger] master_stack_layout(windows, screen, gaps, inner_gaps, ratio_permille).contains_key(a)
                && #[trigger] master_stack_layout(windows, screen, gaps, inner_gaps, ratio_permille).contains_key(b)
                && a != b ==> disjoint(
                master_stack_layout(windows, screen, gaps, inner_gaps, ratio_permille)[a],
                master_stack_layout(windows, screen, gaps, inner_gaps, ratio_permille)[b],
            ),
{
    let layout = master_stack_layout(windows, screen, gaps, inner_gaps, ratio_permille);
    let n = windows.len() as int;
    if n >= 2 {
        let u = usable_area(screen, gaps);
        let m = stack_count_u32(n);
        let sh = stack_height(u.height, inner_gaps, m);
        let mw = master_width(u.width, ratio_permille, inner_gaps);
        let geoms = master_stack_geoms(n, u, ratio_permille, inner_gaps, m);
        lemma_layout_domain(windows, screen, gaps, inner_gaps, ratio_permille);
        crate::state::lemma_size_as_i32(mw);
        crate::state::lemma_size_as_i32(inner_gaps);
        assert forall|p: int, q: int| 0 <= p < q < n implies disjoint(#[trigger] geoms[p], #[trigger] geoms[q]) by {
            let off_q = stack_offset(q - 1, sh, inner_gaps);
            assert(stack_row_fits(q - 1, u.y, sh, inner_gaps));
            crate::state::lemma_size_as_i32(off_q);
            if p == 0 {
                assert(geoms[p].x + geoms[p].width <= geoms[q].x);
            } else {
                let off_p = stack_offset(p - 1, sh, inner_gaps);
                assert(stack_row_fits(p - 1, u.y, sh, inner_gaps));
                crate::state::lemma_size_as_i32(off_p);
                assert((((p - 1) as usize) as u32) == p - 1);
                assert((((q - 1) as usize) as u32) == q - 1);
                assert(off_p == (p - 1) * (sh + inner_gaps));
                assert(off_q == (q - 1) * (sh + inner_gaps));
                assert((q - 1) * (sh + inner_gaps) - (p - 1) * (sh + inner_gaps) >= sh) by (nonlinear_arith)
                    requires
                        p < q,
                        sh >= 0,
                        inner_gaps >= 0,
                ;
                assert(geoms[p].y + geoms[p].height <= geoms[q].y);
            }
        }
        assert forall|a: u64, b: u64|
            layout.contains_key(a) && layout.contains_key(b) && a != b implies disjoint(layout[a], layout[b]) by {
            assert(windows.to_set().contains(a) && windows.to_set().contains(b));
            lemma_assign_some(windows, geoms, a);
            lemma_assign_some(windows, geoms, b);
            let p = choose|p: int| #![trigger windows[p]] 0 <= p < windows.len() && windows[p] == a && layout[a] == geoms[p];
            let q = choose|q: int| #![trigger windows[q]] 0 <= q < windows.len() && windows[q] == b && layout[b] == geoms[q];
            if p < q {
                assert(disjoint(geoms[p], geoms[q]));
            } else {
                assert(disjoint(geoms[q], geoms[p]));
            }
        }
    } else if n == 1 {
        lemma_layout_domain(windows, screen, gaps, inner_gaps, ratio_permille);
        assert forall|a: u64, b: u64|
            layout.contains_key(a) && layout.contains_key(b) && a != b implies disjoint(layout[a], layout[b]) by {
            assert(layout.dom() =~= set![windows[0]]);
        }
    }
}

/// No cut among `n` windows, from window `i` on, takes more than the area
/// has: the tile and the inner gap fit in the width (even steps) or the
/// height (odd steps), so nothing is clamped at zero.
pub open spec fn dwindle_no_clamp(n: int, i: int, b: Geometry, inner_gaps: u32) -> bool
    decreases n - i,
{
    if i < 0 || i >= n - 1 {
        true
    } else {
        let size = if i % 2 == 0 {
            b.width
        } else {
            b.height
        };
        &&& (size / 2).saturating_sub(inner_gaps / 2) + inner_gaps <= size
        &&& dwindle_no_clamp(n, i + 1, dwindle_step(b, i, inner_gaps).1, inner_gaps)
    }
}

/// The tiles cut from `b` start at its corner, each one begins one inner
/// gap beyond the end of the one before (to the right after a left/right
/// cut, below after a top/bottom cut), and where nothing is clamped the
/// last one ends at the far corner of `b`.
proof fn lemma_dwindle_tiles_abut(n: int, i: int, b: Geometry, inner_gaps: u32)
    requires
        0 <= i < n,
        dwindle_fits_from(n, i, b, inner_gaps),
    ensures
        dwindle_tiles(n, i, b, inner_gaps).len() == n - i,
        dwindle_tiles(n, i, b, inner_gaps)[0].x == b.x,
        dwindle_tiles(n, i, b, inner_gaps)[0].y == b.y,
        forall|k: int|
            #![trigger dwindle_tiles(n, i, b, inner_gaps)[k]]
            0 <= k < n - i - 1 ==> {
                let t = dwindle_tiles(n, i, b, inner_gaps);
                if (i + k) % 2 == 0 {
                    t[k + 1].x == t[k].x + t[k].width + size_as_i32(inner_gaps) && t[k + 1].y == t[k].y
                } else {
                    t[k + 1].y == t[k].y + t[k].height + size_as_i32(inner_gaps) && t[k + 1].x == t[k].x
                }
            },
        inner_gaps <= i32::MAX && dwindle_no_clamp(n, i, b, inner_gaps) ==> {
            let last = dwindle_tiles(n, i, b, inner_gaps)[n - i - 1];
            &&& last.x + last.width == b.x + b.width
            &&& last.y + last.height == b.y + b.height
        },
    decreases n - i,
{
    let t = dwindle_tiles(n, i, b, inner_gaps);
    if i < n - 1 {
        let (tile, rest) = dwindle_step(b, i, inner_gaps);
        lemma_dwindle_tiles_abut(n, i + 1, rest, inner_gaps);
        let tail = dwindle_tiles(n, i + 1, rest, inner_gaps);
        assert(t == seq![tile] + tail);
        assert(t[0] == tile);
        crate::state::lemma_size_as_i32(inner_gaps);
        if i % 2 == 0 {
            let half_w = (b.width / 2).saturating_sub(inner_gaps / 2);
            crate::state::lemma_size_as_i32(half_w);
            assert(rest.x == b.x + half_w + size_as_i32(inner_gaps));
        } else {
            let half_h = (b.height / 2).saturating_sub(inner_gaps / 2);
            crate::state::lemma_size_as_i32(half_h);
            assert(rest.y == b.y + half_h + size_as_i32(inner_gaps));
        }
        assert forall|k: int| 0 <= k < n - i - 1 implies {
            if (i + k) % 2 == 0 {
                #[trigger] t[k + 1].x == t[k].x + t[k].width + size_as_i32(inner_gaps) && t[k + 1].y == t[k].y
            } else {
                t[k + 1].y == t[k].y + t[k].height + size_as_i32(inner_gaps) && t[k + 1].x == t[k].x
            }
        } by {
            assert(t[k + 1] == tail[k]);
            if k > 0 {
                assert(t[k] == tail[k - 1]);
                assert((i + 1 + (k - 1)) == i + k);
            }
        }
        assert(t[n - i - 1] == tail[n - (i + 1) - 1]);
    } else {
        assert(t == seq![b]);
    }
}

/// The dwindle layout of distinct windows: the first window's area starts
/// at the corner of the usable area; the area of each next window begins
/// exactly one inner gap past the end of the one before, to the right
/// after an even position and below after an odd one, the gap taken as
/// the layout casts it to `i32` (above `i32::MAX` that cast wraps, and the
/// next area begins `2^32 - inner_gaps` before the end instead); and for a
/// gap of at most `i32::MAX`, where no cut is clamped at zero, the last
/// window's area ends at the far corner of the usable area.
pub proof fn lemma_dwindle_abutting(windows: Seq<u64>, screen: Geometry, gaps: u32, inner_gaps: u32)
    requires
        windows.len() >= 1,
        windows.no_duplicates(),
        dwindle_fits(windows.len() as int, screen, gaps, inner_gaps),
    ensures
        ({
            let l = dwindle_layout(windows, screen, gaps, inner_gaps);
            let u = usable_area(screen, gaps);
            let n = windows.len() as int;
            &&& l[windows[0]].x == u.x
            &&& l[windows[0]].y == u.y
            &&& forall|i: int|
                #![trigger l[windows[i]]]
                0 <= i < n - 1 ==> if i % 2 == 0 {
                    l[windows[i + 1]].x == l[windows[i]].x + l[windows[i]].width + size_as_i32(inner_gaps)
                        && l[windows[i + 1]].y == l[windows[i]].y
                } else {
                    l[windows[i + 1]].y == l[windows[i]].y + l[windows[i]].height + size_as_i32(inner_gaps)
                        && l[windows[i + 1]].x == l[windows[i]].x
                }
            &&& inner_gaps <= i32::MAX && dwindle_no_clamp(n, 0, u, inner_gaps) ==> {
                &&& l[windows[n - 1]].x + l[windows[n - 1]].width == u.x + u.width
                &&& l[windows[n - 1]].y + l[windows[n - 1]].height == u.y + u.height
            }
        }),
{
    let l = dwindle_layout(windows, screen, gaps, inner_gaps);
    let u = usable_area(screen, gaps);
    let n = windows.len() as int;
    let tiles = dwindle_tiles(n, 0, u, inner_gaps);
    lemma_dwindle_from_tiles(windows, 0, u, inner_gaps, Map::empty());
    assert(windows.subrange(0, n) =~= windows);
    lemma_dwindle_tiles_abut(n, 0, u, inner_gaps);
    assert forall|j: int| 0 <= j < n implies #[trigger] l[windows[j]] == tiles[j] by {
        lemma_put_all_value(Map::empty(), windows, tiles, j);
    }
    assert forall|i: int| 0 <= i < n - 1 implies if i % 2 == 0 {
        #[trigger] l[windows[i + 1]].x == l[windows[i]].x + l[windows[i]].width + size_as_i32(inner_gaps)
            && l[windows[i + 1]].y == l[windows[i]].y
    } else {
        l[windows[i + 1]].y == l[windows[i]].y + l[windows[i]].height + size_as_i32(inner_gaps)
            && l[windows[i + 1]].x == l[windows[i]].x
    } by {
        assert(l[windows[i]] == tiles[i]);
        assert(l[windows[i + 1]] == tiles[i + 1]);
    }
    assert(l[windows[0]] == tiles[0]);
    assert(l[windows[n - 1]] == tiles[n - 1]);
}

/// The master-stack layout in closed form (see
/// `lemma_master_stack_closed_form`).
pub open spec fn master_stack_closed(
    windows: Seq<u64>,
    screen: Geometry,
    gaps: u32,
    inner_gaps: u32,
    ratio_permille: u32,
) -> bool {
    let l = master_stack_layout(windows, screen, gaps, inner_gaps, ratio_permille);
    let u = usable_area(screen, gaps);
    let n = windows.len() as int;
    let mw = master_width(u.width, ratio_permille, inner_gaps);
    let sh = stack_height(u.height, inner_gaps, (n - 1) as u32);
    &&& n == 0 ==> l == Map::<u64, Geometry>::empty()
    &&& n == 1 ==> l == Map::<u64, Geometry>::empty().insert(windows[0], u)
    &&& n >= 2 ==> {
        &&& l.dom() == windows.to_set()
        &&& l[windows[0]] == Geometry { x: u.x, y: u.y, width: mw, height: u.height }
        &&& forall|k: int|
            #![trigger l[windows[k]]]
            1 <= k < n ==> {
                &&& l[windows[k]].x == u.x + mw + inner_gaps
                &&& l[windows[k]].y == u.y + (k - 1) * (sh + inner_gaps)
                &&& l[windows[k]].width == u.width.saturating_sub((mw + inner_gaps) as u32)
                &&& l[windows[k]].height == sh
            }
    }
}

/// The master-stack layout in closed form, for inputs on which no
/// coordinate wraps around in the layout's integer casts (as in
/// `lemma_master_stack_no_overlap`): no window gets nothing; one window
/// gets the whole usable area; of two or more distinct windows the first
/// is the master, at the corner of the usable area with the master width
/// and the full height, and the `k`-th of the others (from 1) is at
/// `k - 1` rows of stack height plus inner gap below the top, right of
/// the master beyond the inner gap, with the rest of the width. Beyond
/// these bounds the layout's `as i32` casts wrap, and the plain sums below
/// no longer describe where the windows go.
pub proof fn lemma_master_stack_closed_form(
    windows: Seq<u64>,
    screen: Geometry,
    gaps: u32,
    inner_gaps: u32,
    ratio_permille: u32,
)
    requires
        windows.no_duplicates(),
        master_stack_fits(windows.len() as int, screen, gaps, inner_gaps, ratio_permille),
        inner_gaps <= i32::MAX,
        master_width(usable_area(screen, gaps).width, ratio_permille, inner_gaps) <= i32::MAX,
        windows.len() - 1 <= u32::MAX,
        forall|k: int|
            0 <= k < windows.len() - 1 ==> #[trigger] stack_offset(
                k,
                stack_height(
                    usable_area(screen, gaps).height,
                    inner_gaps,
                    stack_count_u32(windows.len() as int),
                ),
                inner_gaps,
            ) <= i32::MAX,
    ensures
        master_stack_closed(windows, screen, gaps, inner_gaps, ratio_permille),
{
    let n = windows.len() as int;
    if n >= 2 {
        let l = master_stack_layout(windows, screen, gaps, inner_gaps, ratio_permille);
        let u = usable_area(screen, gaps);
        let m = stack_count_u32(n);
        assert(m == (n - 1) as u32);
        let sh = stack_height(u.height, inner_gaps, m);
        let mw = master_width(u.width, ratio_permille, inner_gaps);
        let geoms = master_stack_geoms(n, u, ratio_permille, inner_gaps, m);
        lemma_layout_domain(windows, screen, gaps, inner_gaps, ratio_permille);
        crate::state::lemma_size_as_i32(mw);
        crate::state::lemma_size_as_i32(inner_gaps);
        lemma_assign_value(windows, geoms, 0);
        assert forall|k: int| #![trigger l[windows[k]]] 1 <= k < n implies {
            &&& l[windows[k]].x == u.x + mw + inner_gaps
            &&& l[windows[k]].y == u.y + (k - 1) * (sh + inner_gaps)
            &&& l[windows[k]].width == u.width.saturating_sub((mw + inner_gaps) as u32)
            &&& l[windows[k]].height == sh
        } by {
            lemma_assign_value(windows, geoms, k);
            let off = stack_offset(k - 1, sh, inner_gaps);
            assert(stack_row_fits(k - 1, u.y, sh, inner_gaps));
            crate::state::lemma_size_as_i32(off);
            assert((((k - 1) as usize) as u32) == k - 1);
            assert(off == (k - 1) * (sh + inner_gaps));
        }
    }
    assert(master_stack_closed(windows, screen, gaps, inner_gaps, ratio_permille));
}

} // verus!
