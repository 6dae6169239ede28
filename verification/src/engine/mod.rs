pub mod drag_detect;
pub mod layouts;
pub mod tree;

use vstd::prelude::*;
use std::collections::HashMap;
use crate::config::{Config, LayoutType};
use crate::state::{Geometry, StateManager, WindowState, geometry_updated, registered, tileable_spec};
use crate::backend::WindowEvent;
use drag_detect::{DragDetector, DropZone, edge_tests_fit, edge_tests_fit_check};
use layouts::{
    DwindleLayout, FloatingLayout, LayoutStrategy, MasterStackLayout, dwindle_fits, dwindle_fits_check,
    dwindle_layout, master_stack_fits, master_stack_fits_check, master_stack_layout,
};

verus! {

broadcast use vstd::std_specs::hash::group_hash_axioms;

/// The tiling engine: the settings, the window bookkeeping, the drop-zone
/// detector and the screen area being tiled.
pub struct Engine {
    config: Config,
    state_manager: StateManager,
    drag_detector: DragDetector,
    screen_bounds: Geometry,
}

/// `ids` lists every element of `s` exactly once.
pub open spec fn is_listing(ids: Seq<u64>, s: Set<u64>) -> bool {
    ids.no_duplicates() && ids.to_set() == s
}

/// The areas the configured layout gives to the windows `ids`, in that order.
pub open spec fn layout_for(config: Config, ids: Seq<u64>, screen: Geometry) -> Map<u64, Geometry> {
    match config.layout {
        LayoutType::Dwindle => dwindle_layout(ids, screen, config.gaps, config.inner_gaps),
        LayoutType::MasterStack => master_stack_layout(
            ids,
            screen,
            config.gaps,
            config.inner_gaps,
            config.master_ratio_permille,
        ),
        LayoutType::Floating => Map::empty(),
    }
}

/// The configured layout of `n` windows stays within machine integers.
pub open spec fn layout_fits_for(config: Config, n: int, screen: Geometry) -> bool {
    match config.layout {
        LayoutType::Dwindle => dwindle_fits(n, screen, config.gaps, config.inner_gaps),
        LayoutType::MasterStack => master_stack_fits(
            n,
            screen,
            config.gaps,
            config.inner_gaps,
            config.master_ratio_permille,
        ),
        LayoutType::Floating => true,
    }
}

/// The drop position can be classified without overflow: against the
/// screen edges, and against the current geometry of every tiled window
/// other than the dragged one.
pub open spec fn drop_fits(
    windows: Map<u64, WindowState>,
    screen: Geometry,
    dragged_id: u64,
    pointer_x: i32,
    pointer_y: i32,
) -> bool {
    &&& edge_tests_fit(pointer_x, pointer_y, screen, 30)
    &&& forall|k: u64|
        #![trigger windows[k]]
        windows.contains_key(k) && windows[k].is_tiled && k != dragged_id
            ==> windows[k].current_geometry.contains_point_safe(pointer_x, pointer_y)
}

/// `entry` is the id and original geometry of some tiled window.
pub open spec fn is_restore_entry(windows: Map<u64, WindowState>, entry: (u64, Geometry)) -> bool {
    exists|k: u64|
        #![trigger windows[k]]
        windows.contains_key(k) && windows[k].is_tiled && entry == (
            windows[k].id,
            windows[k].original_geometry,
        )
}

/// `windows` with the current geometry of every window in `geoms` replaced.
pub open spec fn with_geometries(
    windows: Map<u64, WindowState>,
    geoms: Map<u64, Geometry>,
) -> Map<u64, WindowState> {
    Map::new(
        |k: u64| windows.contains_key(k),
        |k: u64|
            if geoms.contains_key(k) {
                WindowState { current_geometry: geoms[k], ..windows[k] }
            } else {
                windows[k]
            },
    )
}

/// The ids of the tiled windows in `windows`.
pub open spec fn tiled_in(windows: Map<u64, WindowState>) -> Set<u64> {
    Set::new(|k: u64| windows.contains_key(k) && windows[k].is_tiled)
}

/// The configured layout of the tiled windows of `windows` stays within
/// machine integers.
pub open spec fn layout_fits_with(config: Config, windows: Map<u64, WindowState>, screen: Geometry) -> bool {
    layout_fits_for(config, tiled_in(windows).len() as int, screen)
}

/// `areas` is what laying out the tiled windows of `windows` gives: nothing
/// with the floating layout or when no window is tiled; otherwise the
/// configured layout of the tiled windows in some order.
pub open spec fn layout_areas(
    config: Config,
    windows: Map<u64, WindowState>,
    screen: Geometry,
    areas: Map<u64, Geometry>,
) -> bool {
    &&& config.layout is Floating || tiled_in(windows).is_empty() ==> areas == Map::<
        u64,
        Geometry,
    >::empty()
    &&& !(config.layout is Floating || tiled_in(windows).is_empty()) ==> exists|ids: Seq<u64>|
        #![trigger is_listing(ids, tiled_in(windows))]
        is_listing(ids, tiled_in(windows)) && areas == layout_for(config, ids, screen)
}

/// `windows` after recording, one by one in the order `ids`, the area that
/// `areas` gives each of them as its current geometry.
pub open spec fn committed(
    windows: Map<u64, WindowState>,
    areas: Map<u64, Geometry>,
    ids: Seq<u64>,
) -> Map<u64, WindowState>
    decreases ids.len(),
{
    if ids.len() == 0 {
        windows
    } else {
        geometry_updated(committed(windows, areas, ids.drop_last()), ids.last(), areas[ids.last()])
    }
}

impl Engine {
    pub closed spec fn config_of(&self) -> Config {
        self.config
    }

    pub closed spec fn sm(&self) -> StateManager {
        self.state_manager
    }

    pub closed spec fn screen(&self) -> Geometry {
        self.screen_bounds
    }

    /// The bookkeeping is well formed and the detector has its threshold.
    pub closed spec fn wf(&self) -> bool {
        &&& self.state_manager.wf()
        &&& self.drag_detector.threshold() == 30
    }

    /// Whatever order the tiled windows come in, laying them out stays
    /// within machine integers.
    pub open spec fn layout_fits_now(&self) -> bool {
        layout_fits_with(self.config_of(), self.sm().windows@, self.screen())
    }

    /// The event can be handled within machine integers: the layout that
    /// follows it, and for a drop the classification of the drop point.
    pub open spec fn event_fits(&self, event: WindowEvent) -> bool {
        match event {
            WindowEvent::WindowCreated { info, screen_bounds } => {
                let screen = match screen_bounds {
                    Some(b) => b,
                    None => self.screen(),
                };
                let tiled = tileable_spec(self.sm().ignored(), info.class@, None);
                layout_fits_with(
                    self.config_of(),
                    registered(self.sm().windows@, info.id, info.class, info.title, info.geometry, tiled),
                    screen,
                )
            },
            WindowEvent::WindowDestroyed(id) => layout_fits_with(
                self.config_of(),
                self.sm().windows@.remove(id),
                self.screen(),
            ),
            WindowEvent::WindowMovedResized { id, geometry, is_user_drag } => is_user_drag ==> {
                let (cx, cy) = geometry.center_spec();
                &&& i32::MIN <= cx <= i32::MAX
                &&& i32::MIN <= cy <= i32::MAX
                &&& drop_fits(self.sm().windows@, self.screen(), id, cx as i32, cy as i32)
                &&& self.layout_fits_now()
            },
            _ => true,
        }
    }

    /// What handling `event` does to the bookkeeping and screen, and which
    /// areas it lays out (none are recorded yet: see `commit_geometry`).
    pub open spec fn event_handled(
        &self,
        event: WindowEvent,
        after: Self,
        areas: Map<u64, Geometry>,
    ) -> bool {
        &&& after.config_of() == self.config_of()
        &&& after.sm().ignored() == self.sm().ignored()
        &&& match event {
            WindowEvent::WindowCreated { info, screen_bounds } => {
                let screen = match screen_bounds {
                    Some(b) => b,
                    None => self.screen(),
                };
                let tiled = tileable_spec(self.sm().ignored(), info.class@, None);
                &&& after.screen() == screen
                &&& after.sm().windows@ == registered(
                    self.sm().windows@,
                    info.id,
                    info.class,
                    info.title,
                    info.geometry,
                    tiled,
                )
                &&& layout_areas(self.config_of(), after.sm().windows@, screen, areas)
            },
            WindowEvent::WindowDestroyed(id) => {
                &&& after.screen() == self.screen()
                &&& after.sm().windows@ == self.sm().windows@.remove(id)
                &&& layout_areas(self.config_of(), after.sm().windows@, self.screen(), areas)
            },
            WindowEvent::WindowMovedResized { id, geometry, is_user_drag } => {
                &&& after.screen() == self.screen()
                &&& if is_user_drag {
                    &&& after.sm().windows@ == self.sm().windows@
                    &&& layout_areas(self.config_of(), self.sm().windows@, self.screen(), areas)
                } else {
                    &&& areas == Map::<u64, Geometry>::empty()
                    &&& after.sm().windows@ == geometry_updated(self.sm().windows@, id, geometry)
                }
            },
            _ => {
                &&& after.screen() == self.screen()
                &&& areas == Map::<u64, Geometry>::empty()
                &&& after.sm().windows@ == self.sm().windows@
            },
        }
    }

    pub fn new(config: Config) -> (r: Self)
        ensures
            r.wf(),
            r.config_of() == config,
            r.sm().windows@ == Map::<u64, WindowState>::empty(),
            r.sm().ignored() == crate::state::default_ignored_classes(),
            r.screen() == (Geometry { x: 0, y: 0, width: 1920, height: 1080 }),
    {
        Self {
            config,
            state_manager: StateManager::new(),
            drag_detector: DragDetector::new(),
            screen_bounds: Geometry::new(0, 0, 1920, 1080),
        }
    }

    pub fn set_screen_bounds(&mut self, bounds: Geometry)
        ensures
            final(self).screen() == bounds,
            final(self).config_of() == old(self).config_of(),
            final(self).sm() == old(self).sm(),
            old(self).wf() ==> final(self).wf(),
    {
        self.screen_bounds = bounds;
    }

    pub fn state_manager_mut(&mut self) -> (r: &mut StateManager)
        ensures
            *r == old(self).sm(),
            final(self).sm() == *final(r),
            final(self).config_of() == old(self).config_of(),
            final(self).screen() == old(self).screen(),
            old(self).wf() ==> (final(self).wf() <==> final(r).wf()),
    {
        &mut self.state_manager
    }

    pub fn state_manager(&self) -> (r: &StateManager)
        ensures
            *r == self.sm(),
    {
        &self.state_manager
    }

    /// Lays the tiled windows out with the configured layout and returns
    /// the area of each. Nothing is recorded here: the caller sends the
    /// areas to the windows and records each one with `commit_geometry` as
    /// it goes. Nothing is laid out with the floating layout or when no
    /// window is tiled.
    pub fn apply_layout(&self) -> (r: HashMap<u64, Geometry>)
        requires
            self.wf(),
            self.layout_fits_now(),
        ensures
            layout_areas(self.config_of(), self.sm().windows@, self.screen(), r@),
    {
        let ghost w0 = self.state_manager.windows@;
        assert(tiled_in(w0) =~= self.sm().tiled_ids());
        if self.config.layout == LayoutType::Floating {
            return HashMap::new();
        }
        let tiled_ids = self.state_manager.get_tiled_window_ids();
        if tiled_ids.is_empty() {
            assert(self.sm().tiled_ids() =~= Set::<u64>::empty()) by {
                assert(tiled_ids@.to_set() =~= Set::<u64>::empty());
            }
            return HashMap::new();
        }
        assert(is_listing(tiled_ids@, self.sm().tiled_ids()));
        proof {
            tiled_ids@.unique_seq_to_set();
        }
        let calculated = match self.config.layout {
            LayoutType::Dwindle => DwindleLayout.compute_layout(
                tiled_ids.as_slice(),
                self.screen_bounds,
                self.config.gaps,
                self.config.inner_gaps,
            ),
            LayoutType::MasterStack => MasterStackLayout {
                master_ratio_permille: self.config.master_ratio_permille,
            }.compute_layout(
                tiled_ids.as_slice(),
                self.screen_bounds,
                self.config.gaps,
                self.config.inner_gaps,
            ),
            LayoutType::Floating => FloatingLayout.compute_layout(
                tiled_ids.as_slice(),
                self.screen_bounds,
                self.config.gaps,
                self.config.inner_gaps,
            ),
        };
        proof {
            assert(calculated@ == layout_for(self.config, tiled_ids@, self.screen_bounds));
            assert(is_listing(tiled_ids@, tiled_in(w0)));
            assert(tiled_ids@.to_set().contains(tiled_ids@[0]));
            assert(!tiled_in(w0).is_empty());
        }
        calculated
    }

    /// Records `geometry` as the current geometry of window `id`, once the
    /// caller has sent it the area of a layout; no other window changes.
    pub fn commit_geometry(&mut self, id: u64, geometry: Geometry)
        ensures
            final(self).sm().windows@ == geometry_updated(old(self).sm().windows@, id, geometry),
            final(self).sm().ignored() == old(self).sm().ignored(),
            final(self).config_of() == old(self).config_of(),
            final(self).screen() == old(self).screen(),
            old(self).wf() ==> final(self).wf(),
    {
        self.state_manager.update_geometry(id, geometry);
    }

    /// The original geometry of every tiled window, for putting the
    /// windows back on shutdown; in the order in which the map is walked.
    pub fn restore_all_windows(&self) -> (r: Vec<(u64, Geometry)>)
        ensures
            forall|j: int|
                0 <= j < r@.len() ==> #[trigger] is_restore_entry(self.sm().windows@, r@[j]),
            forall|k: u64|
                #![trigger self.sm().windows@[k]]
                self.sm().windows@.contains_key(k) && self.sm().windows@[k].is_tiled ==> r@.contains(
                    (self.sm().windows@[k].id, self.sm().windows@[k].original_geometry),
                ),
            self.wf() ==> r@.no_duplicates(),
    {
        let mut out: Vec<(u64, Geometry)> = Vec::new();
        let ghost mut src: Seq<int> = Seq::empty();
        let ghost m = self.state_manager.windows@;
        let ghost pairs = vstd::std_specs::iter::IteratorSpec::remaining(
            &vstd::std_specs::hash::spec_hash_map_iter(&self.state_manager.windows),
        );
        let ghost mut idx: int = 0;
        for (key, window) in it: self.state_manager.windows.iter()
            invariant
                m == self.state_manager.windows@,
                m == self.sm().windows@,
                it.seq() == pairs,
                idx == it.index(),
                pairs.len() == m.dom().len(),
                pairs.no_duplicates(),
                forall|i: int|
                    #![trigger pairs[i]]
                    0 <= i < pairs.len() ==> m.contains_key(*pairs[i].0) && m[*pairs[i].0]
                        == *pairs[i].1,
                forall|k: u64| #[trigger] m.contains_key(k) ==> pairs.contains((&k, &m[k])),
                out@.len() == src.len(),
                forall|j: int|
                    #![trigger src[j]]
                    0 <= j < src.len() ==> 0 <= src[j] < idx && pairs[src[j]].1.is_tiled
                        && out@[j] == (pairs[src[j]].1.id, pairs[src[j]].1.original_geometry),
                forall|j1: int, j2: int|
                    #![trigger src[j1], src[j2]]
                    0 <= j1 < j2 < src.len() ==> src[j1] < src[j2],
                forall|i: int|
                    #![trigger pairs[i]]
                    0 <= i < idx && pairs[i].1.is_tiled ==> exists|j: int|
                        0 <= j < src.len() && src[j] == i,
        {
            let ghost old_src = src;
            if window.is_tiled {
                proof {
                    src = src.push(idx);
                }
                out.push((window.id, window.original_geometry));
            }
            proof {
                assert forall|i: int|
                    #![trigger pairs[i]]
                    0 <= i < idx + 1 && pairs[i].1.is_tiled implies exists|j: int|
                        0 <= j < src.len() && src[j] == i by {
                    if i == idx {
                        assert(src[src.len() - 1] == i);
                    } else {
                        let j = choose|j: int| 0 <= j < old_src.len() && old_src[j] == i;
                        assert(src[j] == i);
                    }
                }
                idx = idx + 1;
            }
        }
        proof {
            assert forall|j: int| 0 <= j < out@.len() implies #[trigger] is_restore_entry(m, out@[j]) by {
                let i = src[j];
                let k = *pairs[i].0;
                assert(m.contains_key(k) && m[k] == *pairs[i].1);
            }
            assert forall|k: u64|
                #![trigger m[k]]
                m.contains_key(k) && m[k].is_tiled implies out@.contains((m[k].id, m[k].original_geometry)) by {
                assert(pairs.contains((&k, &m[k])));
                let i = choose|i: int| 0 <= i < pairs.len() && pairs[i] == (&k, &m[k]);
                assert(pairs[i].1.is_tiled);
                let j = choose|j: int| 0 <= j < src.len() && src[j] == i;
                assert(out@[j] == (m[k].id, m[k].original_geometry));
            }
            assert forall|j1: int, j2: int|
                self.state_manager.wf() && 0 <= j1 < out@.len() && 0 <= j2 < out@.len() && j1 != j2 implies out@[j1] != out@[j2] by {
                if out@[j1] == out@[j2] {
                    let i1 = src[j1];
                    let i2 = src[j2];
                    let k1 = *pairs[i1].0;
                    let k2 = *pairs[i2].0;
                    assert(m[k1].id == k1);
                    assert(m[k2].id == k2);
                    assert(pairs[i1] == pairs[i2]);
                    if j1 < j2 {
                        assert(src[j1] < src[j2]);
                    } else {
                        assert(src[j2] < src[j1]);
                    }
                }
            }
        }
        out
    }

    /// A window was dropped at the pointer: works out the drop zone among
    /// the tiled windows, then lays the windows out again (as
    /// `apply_layout`), which is what is returned.
    pub fn handle_drag_drop(&self, dragged_id: u64, pointer_x: i32, pointer_y: i32) -> (r: HashMap<
        u64,
        Geometry,
    >)
        requires
            self.wf(),
            self.layout_fits_now(),
            drop_fits(self.sm().windows@, self.screen(), dragged_id, pointer_x, pointer_y),
        ensures
            layout_areas(self.config_of(), self.sm().windows@, self.screen(), r@),
    {
        let ghost w0 = self.state_manager.windows@;
        let ids = self.state_manager.get_tiled_window_ids();
        let mut tiled_geometries: HashMap<u64, Geometry> = HashMap::new();
        let mut i: usize = 0;
        while i < ids.len()
            invariant
                i <= ids@.len(),
                w0 == self.state_manager.windows@,
                self.state_manager.wf(),
                forall|j: int|
                    0 <= j < ids@.len() ==> #[trigger] crate::state::tiled_window_has_id(w0, ids@[j]),
                forall|k: u64|
                    #[trigger] tiled_geometries@.contains_key(k) ==> w0.contains_key(k) && w0[k].is_tiled
                        && tiled_geometries@[k] == w0[k].current_geometry,
            decreases ids@.len() - i,
        {
            let id = ids[i];
            proof {
                assert(crate::state::tiled_window_has_id(w0, id));
                let k = choose|k: u64|
                    #![trigger w0[k]]
                    w0.contains_key(k) && w0[k].is_tiled && w0[k].id == id;
                assert(w0[k].id == k);
            }
            match self.state_manager.windows.get(&id) {
                Some(w) => {
                    tiled_geometries.insert(id, w.current_geometry);
                },
                None => {},
            }
            i += 1;
        }
        let drop_zone = self.drag_detector.detect_drop_zone(
            pointer_x,
            pointer_y,
            self.screen_bounds,
            &tiled_geometries,
            dragged_id,
        );
        match drop_zone {
            DropZone::CenterSwap { target_id } => {
                let ids = self.state_manager.get_tiled_window_ids();
                match (position_of(&ids, dragged_id), position_of(&ids, target_id)) {
                    (Some(pos_a), Some(pos_b)) => {
                        // The two ids trade places in a local copy of the
                        // list, which is then dropped: the layout below is
                        // computed from the bookkeeping as it stands.
                        let mut mut_ids = ids;
                        swap_entries(&mut mut_ids, pos_a, pos_b);
                    },
                    _ => {},
                }
            },
            _ => {},
        }
        self.apply_layout()
    }

    /// Handles one event from the window system: keeps the bookkeeping up
    /// to date and returns the areas to send to the windows (none when the
    /// event calls for no new layout); each area is recorded with
    /// `commit_geometry` as it is sent.
    pub fn handle_event(&mut self, event: WindowEvent) -> (r: HashMap<u64, Geometry>)
        requires
            old(self).wf(),
            old(self).event_fits(event),
        ensures
            final(self).wf(),
            old(self).event_handled(event, *final(self), r@),
    {
        match event {
            WindowEvent::WindowCreated { info, screen_bounds } => {
                if let Some(bounds) = screen_bounds {
                    self.set_screen_bounds(bounds);
                }
                let is_tileable = self.state_manager.is_tileable(info.class.as_str(), None);
                self.state_manager.register_window(
                    info.id,
                    info.class,
                    info.title,
                    info.geometry,
                    is_tileable,
                );
                self.apply_layout()
            },
            WindowEvent::WindowDestroyed(win_id) => {
                self.state_manager.unregister_window(win_id);
                self.apply_layout()
            },
            WindowEvent::WindowMovedResized { id, geometry, is_user_drag } => {
                if is_user_drag {
                    let (px, py) = geometry.center();
                    self.handle_drag_drop(id, px, py)
                } else {
                    self.state_manager.update_geometry(id, geometry);
                    HashMap::new()
                }
            },
            WindowEvent::WindowFocused(_win_id) => HashMap::new(),
            WindowEvent::ScriptReady => HashMap::new(),
        }
    }

    /// Whether `apply_layout` can run now within machine integers.
    pub fn layout_fits_check(&self) -> (r: bool)
        requires
            self.wf(),
        ensures
            r == self.layout_fits_now(),
    {
        let ids = self.state_manager.get_tiled_window_ids();
        proof {
            ids@.unique_seq_to_set();
            assert(tiled_in(self.sm().windows@) =~= ids@.to_set());
        }
        layout_fits_for_check(&self.config, ids.len() as u128, self.screen_bounds)
    }

    /// Whether a drop of `dragged_id` at the point can be classified within
    /// machine integers.
    pub fn drop_fits_check(&self, dragged_id: u64, pointer_x: i32, pointer_y: i32) -> (r: bool)
        ensures
            r == drop_fits(self.sm().windows@, self.screen(), dragged_id, pointer_x, pointer_y),
    {
        if !edge_tests_fit_check(pointer_x, pointer_y, self.screen_bounds, 30) {
            return false;
        }
        let ghost m = self.state_manager.windows@;
        let ghost pairs = vstd::std_specs::iter::IteratorSpec::remaining(
            &vstd::std_specs::hash::spec_hash_map_iter(&self.state_manager.windows),
        );
        let ghost mut idx: int = 0;
        for (key, window) in it: self.state_manager.windows.iter()
            invariant
                m == self.state_manager.windows@,
                m == self.sm().windows@,
                it.seq() == pairs,
                idx == it.index(),
                pairs.len() == m.dom().len(),
                forall|i: int|
                    #![trigger pairs[i]]
                    0 <= i < pairs.len() ==> m.contains_key(*pairs[i].0) && m[*pairs[i].0]
                        == *pairs[i].1,
                forall|k: u64| #[trigger] m.contains_key(k) ==> pairs.contains((&k, &m[k])),
                forall|i: int|
                    #![trigger pairs[i]]
                    0 <= i < idx ==> !(pairs[i].1.is_tiled && *pairs[i].0 != dragged_id)
                        || pairs[i].1.current_geometry.contains_point_safe(pointer_x, pointer_y),
        {
            if window.is_tiled && *key != dragged_id
                && !window.current_geometry.contains_point_safe_check(pointer_x, pointer_y) {
                proof {
                    let k = *key;
                    assert(m.contains_key(k) && m[k] == *window);
                }
                return false;
            }
            proof {
                idx = idx + 1;
            }
        }
        proof {
            assert forall|k: u64|
                #![trigger m[k]]
                m.contains_key(k) && m[k].is_tiled && k != dragged_id implies m[k].current_geometry.contains_point_safe(
                pointer_x,
                pointer_y,
            ) by {
                assert(pairs.contains((&k, &m[k])));
                let i = choose|i: int| 0 <= i < pairs.len() && pairs[i] == (&k, &m[k]);
                assert(*pairs[i].0 == k);
            }
        }
        true
    }

    /// Whether `handle_event` can handle the event within machine integers.
    pub fn event_fits_check(&self, event: &WindowEvent) -> (r: bool)
        requires
            self.wf(),
        ensures
            r == self.event_fits(*event),
    {
        let ids = self.state_manager.get_tiled_window_ids();
        let ghost w = self.state_manager.windows@;
        proof {
            ids@.unique_seq_to_set();
            assert(tiled_in(w) =~= ids@.to_set());
            vstd::seq_lib::seq_to_set_is_finite(ids@);
        }
        let count = ids.len() as u128;
        match event {
            WindowEvent::WindowCreated { info, screen_bounds } => {
                let screen = match screen_bounds {
                    Some(b) => *b,
                    None => self.screen_bounds,
                };
                let tileable = self.state_manager.is_tileable(info.class.as_str(), None);
                let ghost after = registered(w, info.id, info.class, info.title, info.geometry, tileable);
                if self.state_manager.windows.contains_key(&info.id) {
                    layout_fits_for_check(&self.config, count, screen)
                } else {
                    proof {
                        crate::state::lemma_register_tiled(
                            w,
                            info.id,
                            info.class,
                            info.title,
                            info.geometry,
                            tileable,
                        );
                        assert(!tiled_in(w).contains(info.id));
                        if tileable {
                            assert(tiled_in(after) =~= tiled_in(w).insert(info.id));
                        } else {
                            assert(tiled_in(after) =~= tiled_in(w));
                        }
                    }
                    let n = if tileable {
                        count + 1
                    } else {
                        count
                    };
                    layout_fits_for_check(&self.config, n, screen)
                }
            },
            WindowEvent::WindowDestroyed(id) => {
                let ghost after = w.remove(*id);
                let n = match self.state_manager.windows.get(id) {
                    Some(win) => {
                        if win.is_tiled {
                            proof {
                                assert(tiled_in(after) =~= tiled_in(w).remove(*id));
                            }
                            count - 1
                        } else {
                            proof {
                                assert(tiled_in(after) =~= tiled_in(w));
                            }
                            count
                        }
                    },
                    None => {
                        proof {
                            assert(after =~= w);
                        }
                        count
                    },
                };
                layout_fits_for_check(&self.config, n, self.screen_bounds)
            },
            WindowEvent::WindowMovedResized { id, geometry, is_user_drag } => {
                if !*is_user_drag {
                    return true;
                }
                if !geometry.center_fits_check() {
                    return false;
                }
                let (px, py) = geometry.center();
                self.drop_fits_check(*id, px, py) && layout_fits_for_check(
                    &self.config,
                    count,
                    self.screen_bounds,
                )
            },
            WindowEvent::WindowFocused(_) => true,
            WindowEvent::ScriptReady => true,
        }
    }
}

/// Whether the configured layout of `n` windows stays within machine
/// integers.
fn layout_fits_for_check(config: &Config, n: u128, screen: Geometry) -> (r: bool)
    ensures
        r == layout_fits_for(*config, n as int, screen),
{
    match config.layout {
        LayoutType::Dwindle => dwindle_fits_check(n, screen, config.gaps, config.inner_gaps),
        LayoutType::MasterStack => master_stack_fits_check(
            n,
            screen,
            config.gaps,
            config.inner_gaps,
            config.master_ratio_permille,
        ),
        LayoutType::Floating => true,
    }
}

/// The first position of `x` in `ids`.
fn position_of(ids: &Vec<u64>, x: u64) -> (r: Option<usize>)
    ensures
        match r {
            Some(p) => p < ids@.len() && ids@[p as int] == x && forall|j: int|
                0 <= j < p ==> ids@[j] != x,
            None => !ids@.contains(x),
        },
{
    let mut i: usize = 0;
    while i < ids.len()
        invariant
            i <= ids@.len(),
            forall|j: int| 0 <= j < i ==> ids@[j] != x,
        decreases ids@.len() - i,
    {
        if ids[i] == x {
            return Some(i);
        }
        i += 1;
    }
    None
}

/// Exchanges the entries at positions `a` and `b`.
fn swap_entries(v: &mut Vec<u64>, a: usize, b: usize)
    requires
        a < old(v)@.len(),
        b < old(v)@.len(),
    ensures
        final(v)@ == old(v)@.update(a as int, old(v)@[b as int]).update(b as int, old(v)@[a as int]),
{
    let va = v[a];
    let vb = v[b];
    v.set(a, vb);
    v.set(b, va);
}
/// A layout that is not floating gives an area to every tiled window and
/// to nothing else; the floating layout gives none.
pub proof fn lemma_layout_covers_tiled(
    config: Config,
    windows: Map<u64, WindowState>,
    screen: Geometry,
    areas: Map<u64, Geometry>,
)
    requires
        layout_areas(config, windows, screen, areas),
    ensures
        !(config.layout is Floating) ==> areas.dom() == tiled_in(windows),
        config.layout is Floating ==> areas == Map::<u64, Geometry>::empty(),
{
    if !(config.layout is Floating) {
        if tiled_in(windows).is_empty() {
            assert(areas.dom() =~= tiled_in(windows));
        } else {
            let ids = choose|ids: Seq<u64>|
                #![trigger is_listing(ids, tiled_in(windows))]
                is_listing(ids, tiled_in(windows)) && areas == layout_for(config, ids, screen);
            layouts::lemma_layout_domain(
                ids,
                screen,
                config.gaps,
                config.inner_gaps,
                config.master_ratio_permille,
            );
        }
    }
}

/// Recording the areas of a plan one window at a time, in any order that
/// lists each planned window once, leaves every planned window with its
/// area as current geometry and every other record as it was.
pub proof fn lemma_commit_plan(
    windows: Map<u64, WindowState>,
    areas: Map<u64, Geometry>,
    ids: Seq<u64>,
)
    requires
        ids.no_duplicates(),
        ids.to_set() == areas.dom(),
        areas.dom().subset_of(windows.dom()),
    ensures
        committed(windows, areas, ids) == with_geometries(windows, areas),
{
    lemma_commit_prefix(windows, areas, ids);
    assert(areas.restrict(ids.to_set()) =~= areas);
}

/// Recording the areas of some of the planned windows, each once (for
/// instance those handled before a send that failed), records exactly
/// their areas and leaves every other record as it was.
pub proof fn lemma_commit_prefix(
    windows: Map<u64, WindowState>,
    areas: Map<u64, Geometry>,
    ids: Seq<u64>,
)
    requires
        ids.no_duplicates(),
        ids.to_set().subset_of(areas.dom()),
        areas.dom().subset_of(windows.dom()),
    ensures
        committed(windows, areas, ids) == with_geometries(windows, areas.restrict(ids.to_set())),
    decreases ids.len(),
{
    if ids.len() == 0 {
        assert(with_geometries(windows, areas.restrict(ids.to_set())) =~= windows);
    } else {
        let rest = ids.drop_last();
        let id = ids.last();
        assert(rest.to_set().subset_of(ids.to_set())) by {
            assert forall|x: u64| rest.to_set().contains(x) implies ids.to_set().contains(x) by {
                let k = choose|k: int| 0 <= k < rest.len() && rest[k] == x;
                assert(ids[k] == x);
            }
        }
        assert(rest.no_duplicates()) by {
            assert forall|i: int, j: int| 0 <= i < rest.len() && 0 <= j < rest.len() && i != j
                implies rest[i] != rest[j] by {
                assert(ids[i] == rest[i] && ids[j] == rest[j]);
            }
        }
        lemma_commit_prefix(windows, areas, rest);
        assert(ids.to_set() =~= rest.to_set().insert(id)) by {
            assert forall|x: u64| ids.to_set().contains(x) implies rest.to_set().insert(id).contains(x) by {
                let k = choose|k: int| 0 <= k < ids.len() && ids[k] == x;
                if k < ids.len() - 1 {
                    assert(rest[k] == x);
                }
            }
            assert forall|x: u64| rest.to_set().insert(id).contains(x) implies ids.to_set().contains(x) by {
                if x == id {
                    assert(ids[ids.len() - 1] == x);
                } else {
                    let k = choose|k: int| 0 <= k < rest.len() && rest[k] == x;
                    assert(ids[k] == x);
                }
            }
        }
        assert(ids.to_set().contains(id)) by {
            assert(ids[ids.len() - 1] == id);
        }
        assert(!rest.to_set().contains(id)) by {
            if rest.to_set().contains(id) {
                let k = choose|k: int| 0 <= k < rest.len() && rest[k] == id;
                assert(ids[k] == ids[ids.len() - 1]);
            }
        }
        assert(committed(windows, areas, ids) =~= with_geometries(
            windows,
            areas.restrict(ids.to_set()),
        ));
    }
}
} // verus!
