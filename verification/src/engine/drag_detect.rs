use vstd::prelude::*;
use std::collections::HashMap;
use crate::state::{Geometry, size_as_i32};

verus! {

broadcast use vstd::std_specs::hash::group_hash_axioms;

/// Where a dragged window was dropped.
#[derive(Debug, Clone, PartialEq, Eq, Structural)]
pub enum DropZone {
    EdgeTop,
    EdgeBottom,
    EdgeLeft,
    EdgeRight,
    CenterSwap { target_id: u64 },
    GapReparent { target_a: u64, target_b: u64 },
    NoZone,
}

/// Classifies drop positions; a drop within `edge_threshold` pixels of a
/// screen edge counts as a drop on that edge.
pub struct DragDetector {
    edge_threshold: i32,
}

/// The screen-edge zone of a drop point, tested top, bottom, left, right,
/// or `None` when the point is away from all four edges.
pub open spec fn edge_zone(px: i32, py: i32, screen: Geometry, threshold: i32) -> Option<DropZone> {
    if py <= screen.y + threshold {
        Some(DropZone::EdgeTop)
    } else if py >= screen.y + size_as_i32(screen.height) - threshold {
        Some(DropZone::EdgeBottom)
    } else if px <= screen.x + threshold {
        Some(DropZone::EdgeLeft)
    } else if px >= screen.x + size_as_i32(screen.width) - threshold {
        Some(DropZone::EdgeRight)
    } else {
        None
    }
}

/// The edge tests can be computed without overflow (each only when the
/// tests before it failed).
pub open spec fn edge_tests_fit(px: i32, py: i32, screen: Geometry, threshold: i32) -> bool {
    &&& i32::MIN <= screen.y + threshold <= i32::MAX
    &&& py > screen.y + threshold ==> {
        &&& i32::MIN <= screen.y + size_as_i32(screen.height) <= i32::MAX
        &&& i32::MIN <= screen.y + size_as_i32(screen.height) - threshold <= i32::MAX
    }
    &&& (py > screen.y + threshold && py < screen.y + size_as_i32(screen.height) - threshold) ==> {
        &&& i32::MIN <= screen.x + threshold <= i32::MAX
    }
    &&& (py > screen.y + threshold && py < screen.y + size_as_i32(screen.height) - threshold && px
        > screen.x + threshold) ==> {
        &&& i32::MIN <= screen.x + size_as_i32(screen.width) <= i32::MAX
        &&& i32::MIN <= screen.x + size_as_i32(screen.width) - threshold <= i32::MAX
    }
}

/// Whether the edge tests can be computed without overflow.
pub fn edge_tests_fit_check(px: i32, py: i32, screen: Geometry, threshold: i32) -> (r: bool)
    ensures
        r == edge_tests_fit(px, py, screen, threshold),
{
    proof {
        crate::state::lemma_size_as_i32(screen.height);
        crate::state::lemma_size_as_i32(screen.width);
    }
    let h: i32 = #[verifier::truncate] (screen.height as i32);
    let w: i32 = #[verifier::truncate] (screen.width as i32);
    let lo = i32::MIN as i64;
    let hi = i32::MAX as i64;
    let top = screen.y as i64 + threshold as i64;
    let bottom_edge = screen.y as i64 + h as i64;
    let bottom = bottom_edge - threshold as i64;
    let left = screen.x as i64 + threshold as i64;
    let right_edge = screen.x as i64 + w as i64;
    let right = right_edge - threshold as i64;
    let past_top = (py as i64) > top;
    let between_rows = past_top && (py as i64) < bottom;
    let past_left = between_rows && (px as i64) > left;
    (lo <= top && top <= hi) && (!past_top || (lo <= bottom_edge && bottom_edge <= hi && lo <= bottom
        && bottom <= hi)) && (!between_rows || (lo <= left && left <= hi)) && (!past_left || (lo
        <= right_edge && right_edge <= hi && lo <= right && right <= hi))
}

/// Some tiled window other than the dragged one contains the point.
pub open spec fn has_swap_target(
    tiled: Map<u64, Geometry>,
    dragged_id: u64,
    px: i32,
    py: i32,
) -> bool {
    exists|k: u64|
        #![trigger tiled[k]]
        tiled.contains_key(k) && k != dragged_id && tiled[k].contains_spec(px as int, py as int)
}

impl DragDetector {
    pub closed spec fn threshold(&self) -> i32 {
        self.edge_threshold
    }

    pub fn new() -> (r: Self)
        ensures
            r.threshold() == 30,
    {
        Self { edge_threshold: 30 }
    }

    /// Screen edges first; otherwise the tiled window (other than the one
    /// dragged) under the pointer, which is swapped with it. When several
    /// windows overlap at the pointer, the one met first in the map's
    /// iteration order wins.
    pub fn detect_drop_zone(
        &self,
        pointer_x: i32,
        pointer_y: i32,
        screen_bounds: Geometry,
        tiled_geometries: &HashMap<u64, Geometry>,
        dragged_id: u64,
    ) -> (r: DropZone)
        requires
            edge_tests_fit(pointer_x, pointer_y, screen_bounds, self.threshold()),
            forall|k: u64|
                #[trigger] tiled_geometries@.contains_key(k) && k != dragged_id
                    ==> tiled_geometries@[k].contains_point_safe(pointer_x, pointer_y),
        ensures
            edge_zone(pointer_x, pointer_y, screen_bounds, self.threshold()) matches Some(z) ==> r == z,
            edge_zone(pointer_x, pointer_y, screen_bounds, self.threshold()) is None ==> {
                &&& r matches DropZone::CenterSwap { target_id } ==> {
                    &&& tiled_geometries@.contains_key(target_id)
                    &&& target_id != dragged_id
                    &&& tiled_geometries@[target_id].contains_spec(pointer_x as int, pointer_y as int)
                }
                &&& r is CenterSwap || r is NoZone
                &&& (r is NoZone <==> !has_swap_target(tiled_geometries@, dragged_id, pointer_x, pointer_y))
            },
    {
        proof {
            crate::state::lemma_size_as_i32(screen_bounds.height);
            crate::state::lemma_size_as_i32(screen_bounds.width);
        }
        let h: i32 = #[verifier::truncate] (screen_bounds.height as i32);
        let w: i32 = #[verifier::truncate] (screen_bounds.width as i32);
        if pointer_y <= screen_bounds.y + self.edge_threshold {
            return DropZone::EdgeTop;
        }
        if pointer_y >= screen_bounds.y + h - self.edge_threshold {
            return DropZone::EdgeBottom;
        }
        if pointer_x <= screen_bounds.x + self.edge_threshold {
            return DropZone::EdgeLeft;
        }
        if pointer_x >= screen_bounds.x + w - self.edge_threshold {
            return DropZone::EdgeRight;
        }
        let ghost m = tiled_geometries@;
        let ghost pairs = vstd::std_specs::iter::IteratorSpec::remaining(
            &vstd::std_specs::hash::spec_hash_map_iter(tiled_geometries),
        );
        let ghost mut idx: int = 0;
        for (win_id, geom) in it: tiled_geometries.iter()
            invariant
                m == tiled_geometries@,
                edge_zone(pointer_x, pointer_y, screen_bounds, self.threshold()) is None,
                it.seq() == pairs,
                idx == it.index(),
                pairs.len() == m.dom().len(),
                forall|i: int|
                    #![trigger pairs[i]]
                    0 <= i < pairs.len() ==> m.contains_key(*pairs[i].0) && m[*pairs[i].0]
                        == *pairs[i].1,
                forall|k: u64| #[trigger] m.contains_key(k) ==> pairs.contains((&k, &m[k])),
                forall|k: u64|
                    #[trigger] m.contains_key(k) && k != dragged_id ==> m[k].contains_point_safe(
                        pointer_x,
                        pointer_y,
                    ),
                forall|i: int|
                    #![trigger pairs[i]]
                    0 <= i < idx ==> *pairs[i].0 == dragged_id || !(*pairs[i].1).contains_spec(
                        pointer_x as int,
                        pointer_y as int,
                    ),
        {
            if *win_id != dragged_id {
                if geom.contains_point(pointer_x, pointer_y) {
                    return DropZone::CenterSwap { target_id: *win_id };
                }
            }
            proof {
                idx = idx + 1;
            }
        }
        proof {
            assert forall|k: u64|
                #![trigger m[k]]
                m.contains_key(k) && k != dragged_id implies !m[k].contains_spec(
                pointer_x as int,
                pointer_y as int,
            ) by {
                assert(pairs.contains((&k, &m[k])));
                let i = choose|i: int| 0 <= i < pairs.len() && pairs[i] == (&k, &m[k]);
                assert(*pairs[i].0 == k);
            }
        }
        DropZone::NoZone
    }
}

/// Edges are those of the screen's own rectangle: moving the screen and
/// the drop point by the same offset never changes the edge zone.
pub proof fn lemma_edge_zone_moves_with_screen(
    px: i32,
    py: i32,
    screen: Geometry,
    threshold: i32,
    dx: int,
    dy: int,
)
    requires
        i32::MIN <= px + dx <= i32::MAX,
        i32::MIN <= py + dy <= i32::MAX,
        i32::MIN <= screen.x + dx <= i32::MAX,
        i32::MIN <= screen.y + dy <= i32::MAX,
    ensures
        edge_zone(
            (px + dx) as i32,
            (py + dy) as i32,
            Geometry { x: (screen.x + dx) as i32, y: (screen.y + dy) as i32, ..screen },
            threshold,
        ) == edge_zone(px, py, screen, threshold),
{
}

/// A drop point is an edge zone exactly when it lies within the threshold
/// of one of the screen's four edges: the top band wins, then the bottom,
/// the left and the right; a point farther than the threshold from all
/// four edges is no edge zone.
pub proof fn lemma_edge_zone_bands(px: i32, py: i32, screen: Geometry, threshold: i32)
    ensures
        ({
            let top = screen.y + threshold;
            let bottom = screen.y + size_as_i32(screen.height) - threshold;
            let left = screen.x + threshold;
            let right = screen.x + size_as_i32(screen.width) - threshold;
            &&& edge_zone(px, py, screen, threshold) is None <==> (top < py < bottom && left < px
                < right)
            &&& py <= top ==> edge_zone(px, py, screen, threshold) == Some(DropZone::EdgeTop)
            &&& top < py && py >= bottom ==> edge_zone(px, py, screen, threshold) == Some(
                DropZone::EdgeBottom,
            )
            &&& top < py < bottom && px <= left ==> edge_zone(px, py, screen, threshold) == Some(
                DropZone::EdgeLeft,
            )
            &&& top < py < bottom && left < px && px >= right ==> edge_zone(px, py, screen, threshold)
                == Some(DropZone::EdgeRight)
        }),
{
}

} // verus!
