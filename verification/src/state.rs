use vstd::prelude::*;
use std::collections::HashMap;
use crate::text::{has_infix, lowercase_of, str_contains, to_lowercase};

verus! {

broadcast use vstd::std_specs::hash::group_hash_axioms;

/// A rectangle on screen: top-left corner and size, in pixels.
#[derive(Debug, Clone, Copy, PartialEq, Eq, Structural, Default)]
pub struct Geometry {
    pub x: i32,
    pub y: i32,
    pub width: u32,
    pub height: u32,
}

/// `width as i32`, the two's-complement reinterpretation of a size.
pub open spec fn size_as_i32(v: u32) -> int {
    if v <= i32::MAX { v as int } else { v - 0x1_0000_0000 }
}

/// Rust's `/ 2` on an `i32`, which rounds toward zero.
pub open spec fn half_toward_zero(v: int) -> int {
    if v >= 0 { v / 2 } else { -((-v) / 2) }
}

/// The reinterpreting cast `v as i32` agrees with `size_as_i32`.
pub proof fn lemma_size_as_i32(v: u32)
    ensures
        (v as i32) as int == size_as_i32(v),
{
    assert(v <= 0x7fff_ffffu32 ==> (v as i32) as int == v as int) by (bit_vector);
    assert(v > 0x7fff_ffffu32 ==> (v as i32) as int == v as int - 0x1_0000_0000int) by (bit_vector);
}

impl Geometry {
    /// The center as `center` computes it: half of each size (rounded
    /// toward zero) added to the corner.
    pub open spec fn center_spec(self) -> (int, int) {
        (self.x + half_toward_zero(size_as_i32(self.width)),
         self.y + half_toward_zero(size_as_i32(self.height)))
    }

    /// The point lies in the half-open rectangle
    /// `[x, x + width) × [y, y + height)`.
    pub open spec fn contains_spec(self, px: int, py: int) -> bool {
        &&& self.x <= px < self.x + size_as_i32(self.width)
        &&& self.y <= py < self.y + size_as_i32(self.height)
    }

    pub fn new(x: i32, y: i32, width: u32, height: u32) -> (r: Self)
        ensures
            r == (Geometry { x, y, width, height }),
    {
        Self { x, y, width, height }
    }

    pub fn center(&self) -> (r: (i32, i32))
        requires
            i32::MIN <= self.center_spec().0 <= i32::MAX,
            i32::MIN <= self.center_spec().1 <= i32::MAX,
        ensures
            r.0 == self.center_spec().0,
            r.1 == self.center_spec().1,
    {
        proof {
            lemma_size_as_i32(self.width);
            lemma_size_as_i32(self.height);
        }
        let w: i32 = #[verifier::truncate] (self.width as i32);
        let h: i32 = #[verifier::truncate] (self.height as i32);
        (self.x + (w / 2), self.y + (h / 2))
    }

    /// Whether the point lies in the half-open rectangle. The right and
    /// bottom edges are computed only once the checks before them pass,
    /// so only those sums must fit in an `i32`.
    pub open spec fn contains_point_safe(self, px: i32, py: i32) -> bool {
        &&& px >= self.x ==> self.x + size_as_i32(self.width) <= i32::MAX && self.x
            + size_as_i32(self.width) >= i32::MIN
        &&& (px >= self.x && px < self.x + size_as_i32(self.width) && py >= self.y) ==> self.y
            + size_as_i32(self.height) <= i32::MAX && self.y + size_as_i32(self.height)
            >= i32::MIN
    }

    /// Whether `contains_point` can be evaluated at the point without
    /// overflow.
    pub fn contains_point_safe_check(&self, px: i32, py: i32) -> (r: bool)
        ensures
            r == self.contains_point_safe(px, py),
    {
        proof {
            lemma_size_as_i32(self.width);
            lemma_size_as_i32(self.height);
        }
        let w: i32 = #[verifier::truncate] (self.width as i32);
        let h: i32 = #[verifier::truncate] (self.height as i32);
        let right = self.x as i64 + w as i64;
        let bottom = self.y as i64 + h as i64;
        let lo = i32::MIN as i64;
        let hi = i32::MAX as i64;
        let right_ok = !(px >= self.x) || (lo <= right && right <= hi);
        let bottom_ok = !(px >= self.x && (px as i64) < right && py >= self.y) || (lo <= bottom
            && bottom <= hi);
        right_ok && bottom_ok
    }

    /// Whether `center` can be computed without overflow.
    pub fn center_fits_check(&self) -> (r: bool)
        ensures
            r == (i32::MIN <= self.center_spec().0 <= i32::MAX && i32::MIN <= self.center_spec().1
                <= i32::MAX),
    {
        proof {
            lemma_size_as_i32(self.width);
            lemma_size_as_i32(self.height);
        }
        let w: i32 = #[verifier::truncate] (self.width as i32);
        let h: i32 = #[verifier::truncate] (self.height as i32);
        let cx = self.x as i64 + (w / 2) as i64;
        let cy = self.y as i64 + (h / 2) as i64;
        (i32::MIN as i64) <= cx && cx <= (i32::MAX as i64) && (i32::MIN as i64) <= cy && cy
            <= (i32::MAX as i64)
    }

    pub fn contains_point(&self, px: i32, py: i32) -> (r: bool)
        requires
            self.contains_point_safe(px, py),
        ensures
            r == self.contains_spec(px as int, py as int),
    {
        proof {
            lemma_size_as_i32(self.width);
            lemma_size_as_i32(self.height);
        }
        let w: i32 = #[verifier::truncate] (self.width as i32);
        let h: i32 = #[verifier::truncate] (self.height as i32);
        px >= self.x && px < self.x + w && py >= self.y && py < self.y + h
    }
}

/// The record kept for one managed window.
#[derive(Debug, Clone)]
pub struct WindowState {
    pub id: u64,
    pub class: String,
    pub title: String,
    pub current_geometry: Geometry,
    pub original_geometry: Geometry,
    pub is_tiled: bool,
    pub is_being_dragged: bool,
}

/// The window classes that are never tiled, by default.
pub open spec fn default_ignored_classes() -> Seq<Seq<char>> {
    seq![
        "plasmashell"@,
        "yakuake"@,
        "conky"@,
        "krunner"@,
        "kded"@,
        "kded5"@,
        "kded6"@,
        "kinetix"@,
        "desktop"@,
        "dock"@,
    ]
}

/// A window type (as reported by the window system) that is never tiled.
pub open spec fn window_type_excluded(window_type: Seq<char>) -> bool {
    let t = lowercase_of(window_type);
    ||| has_infix(t, "dialog"@)
    ||| has_infix(t, "menu"@)
    ||| has_infix(t, "splash"@)
    ||| has_infix(t, "dock"@)
    ||| has_infix(t, "notification"@)
    ||| has_infix(t, "toolbar"@)
}

/// A window class that matches (case-insensitively, as a substring) one of
/// the ignored classes.
pub open spec fn class_ignored(ignored: Seq<Seq<char>>, class: Seq<char>) -> bool {
    exists|i: int| 0 <= i < ignored.len() && has_infix(lowercase_of(class), #[trigger] ignored[i])
}

pub open spec fn tileable_spec(
    ignored: Seq<Seq<char>>,
    class: Seq<char>,
    window_type: Option<Seq<char>>,
) -> bool {
    &&& !class_ignored(ignored, class)
    &&& match window_type {
        Some(t) => !window_type_excluded(t),
        None => true,
    }
}

/// Some tiled window in `windows` has the id `id`.
pub open spec fn tiled_window_has_id(windows: Map<u64, WindowState>, id: u64) -> bool {
    exists|k: u64|
        #![trigger windows[k]]
        windows.contains_key(k) && windows[k].is_tiled && windows[k].id == id
}

/// The record that `register_window` creates for a new window.
pub open spec fn new_window_state(
    id: u64,
    class: String,
    title: String,
    geometry: Geometry,
    is_tiled: bool,
) -> WindowState {
    WindowState {
        id,
        class,
        title,
        current_geometry: geometry,
        original_geometry: geometry,
        is_tiled,
        is_being_dragged: false,
    }
}

/// `windows` after registering a window: a new record when the id is not
/// known yet, otherwise unchanged.
pub open spec fn registered(
    windows: Map<u64, WindowState>,
    id: u64,
    class: String,
    title: String,
    geometry: Geometry,
    is_tiled: bool,
) -> Map<u64, WindowState> {
    if windows.contains_key(id) {
        windows
    } else {
        windows.insert(id, new_window_state(id, class, title, geometry, is_tiled))
    }
}

/// `windows` with the current geometry of window `id` replaced, when known.
pub open spec fn geometry_updated(
    windows: Map<u64, WindowState>,
    id: u64,
    geometry: Geometry,
) -> Map<u64, WindowState> {
    if windows.contains_key(id) {
        windows.insert(id, WindowState { current_geometry: geometry, ..windows[id] })
    } else {
        windows
    }
}

/// The bookkeeping of all windows the engine knows, keyed by window id.
#[derive(Debug, Default)]
pub struct StateManager {
    pub windows: HashMap<u64, WindowState>,
    /// Window classes that are never tiled (matched case-insensitively as substrings).
    pub ignored_classes: Vec<String>,
}

impl StateManager {
    /// Every record is stored under its own id.
    pub open spec fn wf(&self) -> bool {
        forall|k: u64| #[trigger] self.windows@.contains_key(k) ==> self.windows@[k].id == k
    }

    /// The ignored window classes, as character sequences.
    pub open spec fn ignored(&self) -> Seq<Seq<char>> {
        self.ignored_classes@.map_values(|s: String| s@)
    }

    /// The ids of the tiled windows.
    pub open spec fn tiled_ids(&self) -> Set<u64> {
        Set::new(|k: u64| self.windows@.contains_key(k) && self.windows@[k].is_tiled)
    }

    pub fn new() -> (r: Self)
        ensures
            r.windows@ == Map::<u64, WindowState>::empty(),
            r.ignored() == default_ignored_classes(),
            r.wf(),
    {
        let ignored_classes = vec![
            String::from_str("plasmashell"),
            String::from_str("yakuake"),
            String::from_str("conky"),
            String::from_str("krunner"),
            String::from_str("kded"),
            String::from_str("kded5"),
            String::from_str("kded6"),
            String::from_str("kinetix"),
            String::from_str("desktop"),
            String::from_str("dock"),
        ];
        let r = Self { windows: HashMap::new(), ignored_classes };
        assert(r.ignored() =~= default_ignored_classes());
        r
    }

    pub fn is_tileable(&self, class: &str, window_type: Option<&str>) -> (r: bool)
        ensures
            r == tileable_spec(
                self.ignored(),
                class@,
                match window_type {
                    Some(t) => Some(t@),
                    None => None,
                },
            ),
    {
        let class_lower = to_lowercase(class);
        let n = self.ignored_classes.len();
        let mut i: usize = 0;
        while i < n
            invariant
                n == self.ignored_classes@.len(),
                i <= n,
                class_lower@ == lowercase_of(class@),
                forall|k: int|
                    0 <= k < i ==> !has_infix(lowercase_of(class@), #[trigger] self.ignored()[k]),
            decreases n - i,
        {
            if str_contains(class_lower.as_str(), self.ignored_classes[i].as_str()) {
                assert(has_infix(lowercase_of(class@), self.ignored()[i as int]));
                return false;
            }
            i += 1;
        }
        if let Some(wtype) = window_type {
            let wtype_lower = to_lowercase(wtype);
            let w = wtype_lower.as_str();
            if str_contains(w, "dialog") || str_contains(w, "menu") || str_contains(w, "splash")
                || str_contains(w, "dock") || str_contains(w, "notification") || str_contains(
                w,
                "toolbar",
            ) {
                return false;
            }
        }
        true
    }

    pub fn register_window(
        &mut self,
        id: u64,
        class: String,
        title: String,
        geometry: Geometry,
        is_tiled: bool,
    )
        ensures
            final(self).windows@ == registered(old(self).windows@, id, class, title, geometry, is_tiled),
            final(self).ignored() == old(self).ignored(),
            old(self).wf() ==> final(self).wf(),
    {
        if !self.windows.contains_key(&id) {
            self.windows.insert(
                id,
                WindowState {
                    id,
                    class,
                    title,
                    current_geometry: geometry,
                    original_geometry: geometry,
                    is_tiled,
                    is_being_dragged: false,
                },
            );
        }
    }

    pub fn unregister_window(&mut self, id: u64) -> (r: Option<WindowState>)
        ensures
            final(self).windows@ == old(self).windows@.remove(id),
            r == (if old(self).windows@.contains_key(id) {
                Some(old(self).windows@[id])
            } else {
                None
            }),
            final(self).ignored() == old(self).ignored(),
            old(self).wf() ==> final(self).wf(),
    {
        self.windows.remove(&id)
    }

    pub fn update_geometry(&mut self, id: u64, geometry: Geometry)
        ensures
            final(self).windows@ == geometry_updated(old(self).windows@, id, geometry),
            final(self).ignored() == old(self).ignored(),
            old(self).wf() ==> final(self).wf(),
    {
        if let Some(mut win) = self.windows.remove(&id) {
            win.current_geometry = geometry;
            self.windows.insert(id, win);
        }
    }

    /// The ids of the tiled windows, in the order in which the map is walked.
    pub fn get_tiled_window_ids(&self) -> (r: Vec<u64>)
        ensures
            forall|j: int| 0 <= j < r@.len() ==> #[trigger] tiled_window_has_id(self.windows@, r@[j]),
            forall|k: u64|
                #![trigger self.windows@[k]]
                self.windows@.contains_key(k) && self.windows@[k].is_tiled ==> r@.contains(
                    self.windows@[k].id,
                ),
            self.wf() ==> r@.no_duplicates(),
            self.wf() ==> r@.to_set() == self.tiled_ids(),
    {
        let mut out: Vec<u64> = Vec::new();
        let ghost mut src: Seq<int> = Seq::empty();
        let ghost m = self.windows@;
        let ghost pairs = vstd::std_specs::iter::IteratorSpec::remaining(&vstd::std_specs::hash::spec_hash_map_iter(&self.windows));
        let ghost mut idx: int = 0;
        for (key, w) in it: self.windows.iter()
            invariant
                m == self.windows@,
                it.seq() == pairs,
                idx == it.index(),
                pairs.len() == m.dom().len(),
                pairs.no_duplicates(),
                forall|i: int|
                    #![trigger pairs[i]]
                    0 <= i < pairs.len() ==> m.contains_key(*pairs[i].0) && m[*pairs[i].0]
                        == *pairs[i].1,
                forall|k: u64| #[trigger] m.contains_key(k) ==> pairs.contains((&k, &m[k])),
                out@.len() == src.len(),
                forall|j: int|
                    #![trigger src[j]]
                    0 <= j < src.len() ==> 0 <= src[j] < idx && pairs[src[j]].1.is_tiled
                        && out@[j] == pairs[src[j]].1.id,
                forall|j1: int, j2: int|
                    #![trigger src[j1], src[j2]]
                    0 <= j1 < j2 < src.len() ==> src[j1] < src[j2],
                forall|i: int|
                    #![trigger pairs[i]]
                    0 <= i < idx && pairs[i].1.is_tiled ==> exists|j: int|
                        0 <= j < src.len() && src[j] == i,
        {
            let ghost old_src = src;
            if w.is_tiled {
                proof {
                    src = src.push(idx);
                }
                out.push(w.id);
            }
            proof {
                assert forall|i: int|
                    #![trigger pairs[i]]
                    0 <= i < idx + 1 && pairs[i].1.is_tiled implies exists|j: int|
                        0 <= j < src.len() && src[j] == i by {
                    if i == idx {
                        assert(src[src.len() - 1] == i);
                    } else {
                        let j = choose|j: int| 0 <= j < old_src.len() && old_src[j] == i;
                        assert(src[j] == i);
                    }
                }
                idx = idx + 1;
            }
        }
        proof {
            assert forall|j: int| 0 <= j < out@.len() implies #[trigger] tiled_window_has_id(self.windows@, out@[j]) by {
                let i = src[j];
                let k = *pairs[i].0;
                assert(m.contains_key(k) && m[k] == *pairs[i].1);
                assert(self.windows@.contains_key(k) && self.windows@[k].is_tiled
                    && self.windows@[k].id == out@[j]);
            }
            assert forall|k: u64|
                #![trigger self.windows@[k]]
                self.windows@.contains_key(k) && self.windows@[k].is_tiled implies out@.contains(
                self.windows@[k].id,
            ) by {
                assert(pairs.contains((&k, &m[k])));
                let i = choose|i: int| 0 <= i < pairs.len() && pairs[i] == (&k, &m[k]);
                assert(pairs[i].1.is_tiled);
                let j = choose|j: int| 0 <= j < src.len() && src[j] == i;
                assert(out@[j] == m[k].id);
            }
            if self.wf() {
                assert forall|j1: int, j2: int|
                    0 <= j1 < out@.len() && 0 <= j2 < out@.len() && j1 != j2 implies out@[j1]
                    != out@[j2] by {
                    let i1 = src[j1];
                    let i2 = src[j2];
                    if out@[j1] == out@[j2] {
                        let k1 = *pairs[i1].0;
                        let k2 = *pairs[i2].0;
                        assert(m[k1].id == k1);
                        assert(m[k2].id == k2);
                        assert(pairs[i1] == pairs[i2]);
                        if j1 < j2 {
                            assert(src[j1] < src[j2]);
                        } else {
                            assert(src[j2] < src[j1]);
                        }
                    }
                }
                assert(out@.to_set() =~= self.tiled_ids()) by {
                    assert forall|x: u64| out@.to_set().contains(x) implies self.tiled_ids().contains(x) by {
                        let j = choose|j: int| 0 <= j < out@.len() && out@[j] == x;
                        let i = src[j];
                        let k = *pairs[i].0;
                        assert(m[k].id == k);
                    }
                    assert forall|x: u64| self.tiled_ids().contains(x) implies out@.to_set().contains(x) by {
                        assert(self.windows@[x].id == x);
                    }
                }
            }
        }
        out
    }
}


/// The center of a rectangle of positive size (up to `i32::MAX` on each
/// side) lies inside it.
pub proof fn lemma_center_inside(g: Geometry)
    requires
        0 < g.width <= i32::MAX,
        0 < g.height <= i32::MAX,
    ensures
        g.contains_spec(g.center_spec().0, g.center_spec().1),
{
}

/// Registering a window that is not known yet and then unregistering it
/// hands back the record that was created and leaves the bookkeeping as it
/// was; registering an id that is known changes nothing.
pub proof fn lemma_register_then_unregister(
    windows: Map<u64, WindowState>,
    id: u64,
    class: String,
    title: String,
    geometry: Geometry,
    is_tiled: bool,
)
    ensures
        !windows.contains_key(id) ==> {
            let after = registered(windows, id, class, title, geometry, is_tiled);
            &&& after.contains_key(id)
            &&& after[id] == new_window_state(id, class, title, geometry, is_tiled)
            &&& after.remove(id) == windows
        },
        windows.contains_key(id) ==> registered(windows, id, class, title, geometry, is_tiled)
            == windows,
{
    if !windows.contains_key(id) {
        let after = registered(windows, id, class, title, geometry, is_tiled);
        assert(after.remove(id) =~= windows);
    }
}

/// A new window registered as tiled joins the tiled windows, one
/// registered as not tiled does not; the record keeps its own id.
pub proof fn lemma_register_tiled(
    windows: Map<u64, WindowState>,
    id: u64,
    class: String,
    title: String,
    geometry: Geometry,
    is_tiled: bool,
)
    requires
        !windows.contains_key(id),
    ensures
        ({
            let after = registered(windows, id, class, title, geometry, is_tiled);
            let before_tiled = Set::new(|k: u64| windows.contains_key(k) && windows[k].is_tiled);
            let after_tiled = Set::new(|k: u64| after.contains_key(k) && after[k].is_tiled);
            &&& is_tiled ==> after_tiled == before_tiled.insert(id)
            &&& !is_tiled ==> after_tiled == before_tiled
            &&& after[id].id == id
        }),
{
    let after = registered(windows, id, class, title, geometry, is_tiled);
    let before_tiled = Set::new(|k: u64| windows.contains_key(k) && windows[k].is_tiled);
    let after_tiled = Set::new(|k: u64| after.contains_key(k) && after[k].is_tiled);
    if is_tiled {
        assert(after_tiled =~= before_tiled.insert(id));
    } else {
        assert(after_tiled =~= before_tiled);
    }
}

/// Registering the same id twice keeps the first registration.
pub proof fn lemma_register_idempotent(
    windows: Map<u64, WindowState>,
    id: u64,
    class: String,
    title: String,
    geometry: Geometry,
    is_tiled: bool,
    class2: String,
    title2: String,
    geometry2: Geometry,
    is_tiled2: bool,
)
    ensures
        registered(
            registered(windows, id, class, title, geometry, is_tiled),
            id,
            class2,
            title2,
            geometry2,
            is_tiled2,
        ) == registered(windows, id, class, title, geometry, is_tiled),
{
}

/// A window whose class, lower-cased, contains any entry of the ignored
/// list (the first, the last or any other) is never tiled, whatever its
/// type; one whose class contains none of them and that has no type is
/// tiled.
pub proof fn lemma_ignored_entry_not_tileable(
    ignored: Seq<Seq<char>>,
    class: Seq<char>,
    window_type: Option<Seq<char>>,
    i: int,
)
    ensures
        0 <= i < ignored.len() && has_infix(lowercase_of(class), ignored[i]) ==> !tileable_spec(
            ignored,
            class,
            window_type,
        ),
        (forall|j: int| 0 <= j < ignored.len() ==> !has_infix(lowercase_of(class), #[trigger] ignored[j]))
            ==> tileable_spec(ignored, class, None),
{
}

/// Every entry of the default ignored list keeps a window from being
/// tiled: a class that contains `dock`, the last entry, as much as one
/// that contains `plasmashell`, the first.
pub proof fn lemma_default_ignored_entries(class: Seq<char>, window_type: Option<Seq<char>>)
    ensures
        forall|c: Seq<char>|
            #![trigger default_ignored_classes().contains(c)]
            default_ignored_classes().contains(c) && has_infix(lowercase_of(class), c) ==> !tileable_spec(
                default_ignored_classes(),
                class,
                window_type,
            ),
        has_infix(lowercase_of(class), "dock"@) ==> !tileable_spec(
            default_ignored_classes(),
            class,
            window_type,
        ),
{
    let d = default_ignored_classes();
    assert forall|c: Seq<char>| d.contains(c) && has_infix(lowercase_of(class), c) implies !tileable_spec(
        d,
        class,
        window_type,
    ) by {
        let i = choose|i: int| 0 <= i < d.len() && d[i] == c;
        lemma_ignored_entry_not_tileable(d, class, window_type, i);
    }
    assert(d[d.len() - 1] == "dock"@);
    lemma_ignored_entry_not_tileable(d, class, window_type, d.len() - 1);
}

/// A window whose type, lower-cased, contains any of `dialog`, `menu`,
/// `splash`, `dock`, `notification` or `toolbar` is never tiled, whatever
/// its class; without a type, only the class decides.
pub proof fn lemma_excluded_types_not_tileable(ignored: Seq<Seq<char>>, class: Seq<char>, t: Seq<char>)
    ensures
        has_infix(lowercase_of(t), "dialog"@) || has_infix(lowercase_of(t), "menu"@) || has_infix(
            lowercase_of(t),
            "splash"@,
        ) || has_infix(lowercase_of(t), "dock"@) || has_infix(lowercase_of(t), "notification"@)
            || has_infix(lowercase_of(t), "toolbar"@) ==> !tileable_spec(ignored, class, Some(t)),
        tileable_spec(ignored, class, None) == !(exists|j: int|
            0 <= j < ignored.len() && has_infix(lowercase_of(class), #[trigger] ignored[j])),
{
}

} // verus!
