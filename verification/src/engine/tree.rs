use vstd::prelude::*;
use std::collections::HashMap;
use crate::state::{Geometry, size_as_i32};

verus! {

broadcast use vstd::std_specs::hash::group_hash_axioms;

#[derive(Debug, Clone, Copy, PartialEq, Eq, Structural)]
pub enum Direction {
    Horizontal,
    Vertical,
}

/// A node of the binary split tree. A split divides its area between its
/// two children; `ratio_permille` is the share of the first child in
/// thousandths.
#[derive(Debug)]
pub enum Node {
    Window { id: u64, original_geometry: Geometry },
    Split { direction: Direction, ratio_permille: u32, left: Box<Node>, right: Box<Node> },
}

impl Clone for Node {
    /// A deep copy of the tree.
    fn clone(&self) -> (r: Self)
        ensures
            r == *self,
        decreases self,
    {
        match self {
            Node::Window { id, original_geometry } => Node::Window {
                id: *id,
                original_geometry: *original_geometry,
            },
            Node::Split { direction, ratio_permille, left, right } => {
                let l = (**left).clone();
                let r = (**right).clone();
                Node::Split {
                    direction: *direction,
                    ratio_permille: *ratio_permille,
                    left: Box::new(l),
                    right: Box::new(r),
                }
            },
        }
    }
}

/// The window ids at the leaves, left to right.
pub open spec fn leaves(n: Node) -> Seq<u64>
    decreases n,
{
    match n {
        Node::Window { id, .. } => seq![id],
        Node::Split { left, right, .. } => leaves(*left) + leaves(*right),
    }
}

/// The tree after `insert` and whether it found its place: the first leaf
/// (left to right) that matches `target` (any leaf when `target` is `None`)
/// becomes an even horizontal split of that window and the new one.
pub open spec fn insert_spec(n: Node, new_id: u64, geom: Geometry, target: Option<u64>) -> (
    bool,
    Node,
)
    decreases n,
{
    match n {
        Node::Window { id, original_geometry } => {
            if target is None || target == Some(id) {
                (
                    true,
                    Node::Split {
                        direction: Direction::Horizontal,
                        ratio_permille: 500,
                        left: Box::new(Node::Window { id, original_geometry }),
                        right: Box::new(Node::Window { id: new_id, original_geometry: geom }),
                    },
                )
            } else {
                (false, n)
            }
        },
        Node::Split { direction, ratio_permille, left, right } => {
            let (bl, l2) = insert_spec(*left, new_id, geom, target);
            if bl {
                (true, Node::Split { direction, ratio_permille, left: Box::new(l2), right })
            } else {
                let (br, r2) = insert_spec(*right, new_id, geom, target);
                (br, Node::Split { direction, ratio_permille, left: Box::new(l2), right: Box::new(r2) })
            }
        },
    }
}

/// What `remove` reports and the tree it leaves behind: whether `target`
/// was found, and the node that must replace this one when a split lost
/// one of its two leaf children.
pub open spec fn remove_spec(n: Node, target: u64) -> (bool, Option<Node>, Node)
    decreases n,
{
    match n {
        Node::Window { id, .. } => (id == target, None, n),
        Node::Split { direction, ratio_permille, left, right } => {
            if (*left matches Node::Window { id, .. } && id == target) {
                (true, Some(*right), n)
            } else if (*right matches Node::Window { id, .. } && id == target) {
                (true, Some(*left), n)
            } else {
                let (bl, rl, l2) = remove_spec(*left, target);
                if bl {
                    let nl = match rl {
                        Some(x) => x,
                        None => l2,
                    };
                    (true, None, Node::Split { direction, ratio_permille, left: Box::new(nl), right })
                } else {
                    let (br, rr, r2) = remove_spec(*right, target);
                    if br {
                        let nr = match rr {
                            Some(x) => x,
                            None => r2,
                        };
                        (
                            true,
                            None,
                            Node::Split { direction, ratio_permille, left: Box::new(l2), right: Box::new(nr) },
                        )
                    } else {
                        (false, None, Node::Split { direction, ratio_permille, left: Box::new(l2), right: Box::new(r2) })
                    }
                }
            }
        },
    }
}

/// The tree once the caller of `remove` has put the returned replacement,
/// if any, in place of the node it called.
pub open spec fn removed(n: Node, target: u64) -> Node {
    let (_, repl, n2) = remove_spec(n, target);
    match repl {
        Some(x) => x,
        None => n2,
    }
}

/// The share of `total` that `ratio_permille` thousandths amount to,
/// rounded down and capped at `u32::MAX`.
pub open spec fn share_of(total: u32, ratio_permille: u32) -> u32 {
    let v = total as int * ratio_permille as int / 1000;
    if v > u32::MAX {
        u32::MAX
    } else {
        v as u32
    }
}

/// The sizes of the first and the second part of a split of `total`,
/// half of the inner gap taken from each.
pub open spec fn split_sizes(total: u32, ratio_permille: u32, inner_gaps: u32) -> (u32, u32) {
    let first = share_of(total, ratio_permille).saturating_sub(inner_gaps / 2);
    let second = total.saturating_sub(first).saturating_sub(inner_gaps / 2);
    (first, second)
}

/// `v.max(1)`: a part is never narrower than one pixel.
pub open spec fn at_least_one(v: u32) -> u32 {
    if v >= 1 {
        v
    } else {
        1
    }
}

/// The offset of the second part of a split of size `first` from the
/// start of the first part, as an `int`.
pub open spec fn second_offset(first: u32, inner_gaps: u32) -> int {
    size_as_i32(first) + inner_gaps / 2
}

/// The areas of the two children of a split of `bounds`.
pub open spec fn child_bounds(
    bounds: Geometry,
    direction: Direction,
    ratio_permille: u32,
    inner_gaps: u32,
) -> (Geometry, Geometry) {
    match direction {
        Direction::Horizontal => {
            let (first, second) = split_sizes(bounds.width, ratio_permille, inner_gaps);
            (
                Geometry { x: bounds.x, y: bounds.y, width: at_least_one(first), height: bounds.height },
                Geometry {
                    x: (bounds.x + second_offset(first, inner_gaps)) as i32,
                    y: bounds.y,
                    width: at_least_one(second),
                    height: bounds.height,
                },
            )
        },
        Direction::Vertical => {
            let (first, second) = split_sizes(bounds.height, ratio_permille, inner_gaps);
            (
                Geometry { x: bounds.x, y: bounds.y, width: bounds.width, height: at_least_one(first) },
                Geometry {
                    x: bounds.x,
                    y: (bounds.y + second_offset(first, inner_gaps)) as i32,
                    width: bounds.width,
                    height: at_least_one(second),
                },
            )
        },
    }
}

/// The position of the second child stays within `i32`, at each of the
/// two additions that compute it.
pub open spec fn split_fits(
    bounds: Geometry,
    direction: Direction,
    ratio_permille: u32,
    inner_gaps: u32,
) -> bool {
    let start = match direction {
        Direction::Horizontal => bounds.x as int,
        Direction::Vertical => bounds.y as int,
    };
    let total = match direction {
        Direction::Horizontal => bounds.width,
        Direction::Vertical => bounds.height,
    };
    let first = split_sizes(total, ratio_permille, inner_gaps).0;
    &&& i32::MIN <= start + size_as_i32(first) <= i32::MAX
    &&& i32::MIN <= start + second_offset(first, inner_gaps) <= i32::MAX
}

/// Every split of the tree, laid out in `bounds`, places its children
/// at positions that fit in `i32`.
pub open spec fn geometries_fit(n: Node, bounds: Geometry, inner_gaps: u32) -> bool
    decreases n,
{
    match n {
        Node::Window { .. } => true,
        Node::Split { direction, ratio_permille, left, right } => {
            let (lb, rb) = child_bounds(bounds, direction, ratio_permille, inner_gaps);
            &&& split_fits(bounds, direction, ratio_permille, inner_gaps)
            &&& geometries_fit(*left, lb, inner_gaps)
            &&& geometries_fit(*right, rb, inner_gaps)
        },
    }
}

/// `acc` with every leaf of the tree, laid out in `bounds`, mapped to its
/// area (later leaves overwrite earlier ones with the same id).
pub open spec fn geometries_spec(
    n: Node,
    bounds: Geometry,
    inner_gaps: u32,
    acc: Map<u64, Geometry>,
) -> Map<u64, Geometry>
    decreases n,
{
    match n {
        Node::Window { id, .. } => acc.insert(id, bounds),
        Node::Split { direction, ratio_permille, left, right } => {
            let (lb, rb) = child_bounds(bounds, direction, ratio_permille, inner_gaps);
            geometries_spec(*right, rb, inner_gaps, geometries_spec(*left, lb, inner_gaps, acc))
        },
    }
}

/// The tree with the window ids `a` and `b` exchanged at every leaf.
pub open spec fn swap_ids_spec(n: Node, a: u64, b: u64) -> Node
    decreases n,
{
    match n {
        Node::Window { id, original_geometry } => Node::Window {
            id: if id == a { b } else if id == b { a } else { id },
            original_geometry,
        },
        Node::Split { direction, ratio_permille, left, right } => Node::Split {
            direction,
            ratio_permille,
            left: Box::new(swap_ids_spec(*left, a, b)),
            right: Box::new(swap_ids_spec(*right, a, b)),
        },
    }
}

impl Node {
    pub fn new_window(id: u64, original_geometry: Geometry) -> (r: Self)
        ensures
            r == (Node::Window { id, original_geometry }),
    {
        Node::Window { id, original_geometry }
    }

    /// Splits the first leaf (left to right) that holds `target_id` (the
    /// first leaf at all when `target_id` is `None`) into that window and
    /// the new one; returns whether such a leaf was found.
    pub fn insert(&mut self, new_id: u64, original_geom: Geometry, target_id: Option<u64>) -> (r:
        bool)
        ensures
            (r, *final(self)) == insert_spec(*old(self), new_id, original_geom, target_id),
        decreases *old(self),
    {
        match self {
            Node::Window { id, original_geometry } => {
                if target_id.is_none() || target_id == Some(*id) {
                    let old_node = Node::Window { id: *id, original_geometry: *original_geometry };
                    let new_node = Node::Window { id: new_id, original_geometry: original_geom };
                    *self = Node::Split {
                        direction: Direction::Horizontal,
                        ratio_permille: 500,
                        left: Box::new(old_node),
                        right: Box::new(new_node),
                    };
                    return true;
                }
                false
            },
            Node::Split { direction: _, ratio_permille: _, left, right } => {
                if left.insert(new_id, original_geom, target_id) {
                    return true;
                }
                if right.insert(new_id, original_geom, target_id) {
                    return true;
                }
                false
            },
        }
    }

    /// Removes the leaf holding `target_id`. A split whose direct child is
    /// that leaf is not changed here: it answers with the sibling that must
    /// take its place, and the caller puts it there.
    pub fn remove(&mut self, target_id: u64) -> (r: (bool, Option<Node>))
        ensures
            (r.0, r.1, *final(self)) == remove_spec(*old(self), target_id),
        decreases *old(self),
    {
        match self {
            Node::Window { id, .. } => {
                if *id == target_id {
                    (true, None)
                } else {
                    (false, None)
                }
            },
            Node::Split { left, right, .. } => {
                if let Node::Window { id, .. } = **left {
                    if id == target_id {
                        let replacement = (**right).clone();
                        return (true, Some(replacement));
                    }
                }
                if let Node::Window { id, .. } = **right {
                    if id == target_id {
                        let replacement = (**left).clone();
                        return (true, Some(replacement));
                    }
                }
                let (removed_left, replacement_left) = left.remove(target_id);
                if removed_left {
                    if let Some(repl) = replacement_left {
                        *left = Box::new(repl);
                    }
                    return (true, None);
                }
                let (removed_right, replacement_right) = right.remove(target_id);
                if removed_right {
                    if let Some(repl) = replacement_right {
                        *right = Box::new(repl);
                    }
                    return (true, None);
                }
                (false, None)
            },
        }
    }

    /// Exchanges the windows `id_a` and `id_b` in the tree, provided both
    /// are in it; otherwise leaves the tree as it is.
    pub fn swap(&mut self, id_a: u64, id_b: u64)
        ensures
            *final(self) == (if leaves(*old(self)).contains(id_a) && leaves(*old(self)).contains(
                id_b,
            ) {
                swap_ids_spec(*old(self), id_a, id_b)
            } else {
                *old(self)
            }),
    {
        let mut ids = Vec::new();
        self.collect_ids(&mut ids);
        assert(ids@ =~= leaves(*self));
        if contains_id(&ids, id_a) && contains_id(&ids, id_b) {
            self.swap_ids(id_a, id_b);
        }
    }

    fn collect_ids(&self, out: &mut Vec<u64>)
        ensures
            final(out)@ == old(out)@ + leaves(*self),
        decreases self,
    {
        match self {
            Node::Window { id, .. } => {
                out.push(*id);
            },
            Node::Split { left, right, .. } => {
                left.collect_ids(out);
                right.collect_ids(out);
                proof {
                    assert(out@ =~= old(out)@ + leaves(*self));
                }
            },
        }
    }

    fn swap_ids(&mut self, id_a: u64, id_b: u64)
        ensures
            *final(self) == swap_ids_spec(*old(self), id_a, id_b),
        decreases *old(self),
    {
        match self {
            Node::Window { id, .. } => {
                if *id == id_a {
                    *id = id_b;
                } else if *id == id_b {
                    *id = id_a;
                }
            },
            Node::Split { left, right, .. } => {
                left.swap_ids(id_a, id_b);
                right.swap_ids(id_a, id_b);
            },
        }
    }

    /// Lays the tree out in `bounds`, recording the area of every leaf in
    /// `out`.
    pub fn compute_geometries(&self, bounds: Geometry, inner_gaps: u32, out: &mut HashMap<u64, Geometry>)
        requires
            geometries_fit(*self, bounds, inner_gaps),
        ensures
            final(out)@ == geometries_spec(*self, bounds, inner_gaps, old(out)@),
        decreases self,
    {
        match self {
            Node::Window { id, .. } => {
                out.insert(*id, bounds);
            },
            Node::Split { direction, ratio_permille, left, right } => {
                let half_gap = (inner_gaps / 2) as i32;
                match direction {
                    Direction::Horizontal => {
                        let left_w = share(bounds.width, *ratio_permille).saturating_sub(inner_gaps / 2);
                        let right_w = bounds.width.saturating_sub(left_w).saturating_sub(
                            inner_gaps / 2,
                        );
                        proof {
                            crate::state::lemma_size_as_i32(left_w);
                        }
                        let left_bounds = Geometry::new(bounds.x, bounds.y, left_w.max(1), bounds.height);
                        let offset: i32 = #[verifier::truncate] (left_w as i32);
                        let right_bounds = Geometry::new(
                            bounds.x + offset + half_gap,
                            bounds.y,
                            right_w.max(1),
                            bounds.height,
                        );
                        left.compute_geometries(left_bounds, inner_gaps, out);
                        right.compute_geometries(right_bounds, inner_gaps, out);
                    },
                    Direction::Vertical => {
                        let left_h = share(bounds.height, *ratio_permille).saturating_sub(inner_gaps / 2);
                        let right_h = bounds.height.saturating_sub(left_h).saturating_sub(
                            inner_gaps / 2,
                        );
                        proof {
                            crate::state::lemma_size_as_i32(left_h);
                        }
                        let left_bounds = Geometry::new(bounds.x, bounds.y, bounds.width, left_h.max(1));
                        let offset: i32 = #[verifier::truncate] (left_h as i32);
                        let right_bounds = Geometry::new(
                            bounds.x,
                            bounds.y + offset + half_gap,
                            bounds.width,
                            right_h.max(1),
                        );
                        left.compute_geometries(left_bounds, inner_gaps, out);
                        right.compute_geometries(right_bounds, inner_gaps, out);
                    },
                }
            },
        }
    }
}

/// Whether laying the tree out in `bounds` stays within machine integers.
pub fn geometries_fit_check(n: &Node, bounds: Geometry, inner_gaps: u32) -> (r: bool)
    ensures
        r == geometries_fit(*n, bounds, inner_gaps),
    decreases n,
{
    match n {
        Node::Window { .. } => true,
        Node::Split { direction, ratio_permille, left, right } => {
            let (start, total) = match direction {
                Direction::Horizontal => (bounds.x, bounds.width),
                Direction::Vertical => (bounds.y, bounds.height),
            };
            let first = share(total, *ratio_permille).saturating_sub(inner_gaps / 2);
            let second = total.saturating_sub(first).saturating_sub(inner_gaps / 2);
            proof {
                crate::state::lemma_size_as_i32(first);
            }
            let fi: i32 = #[verifier::truncate] (first as i32);
            let end_first = start as i64 + fi as i64;
            let start_second = end_first + (inner_gaps / 2) as i64;
            let lo = i32::MIN as i64;
            let hi = i32::MAX as i64;
            if !(lo <= end_first && end_first <= hi && lo <= start_second && start_second <= hi) {
                return false;
            }
            let first1 = if first >= 1 { first } else { 1 };
            let second1 = if second >= 1 { second } else { 1 };
            let (lb, rb) = match direction {
                Direction::Horizontal => (
                    Geometry::new(bounds.x, bounds.y, first1, bounds.height),
                    Geometry::new(start_second as i32, bounds.y, second1, bounds.height),
                ),
                Direction::Vertical => (
                    Geometry::new(bounds.x, bounds.y, bounds.width, first1),
                    Geometry::new(bounds.x, start_second as i32, bounds.width, second1),
                ),
            };
            assert((lb, rb) == child_bounds(bounds, *direction, *ratio_permille, inner_gaps));
            geometries_fit_check(left, lb, inner_gaps) && geometries_fit_check(right, rb, inner_gaps)
        },
    }
}

/// `total` scaled by `ratio_permille` thousandths, rounded down and capped
/// at `u32::MAX`.
pub(crate) fn share(total: u32, ratio_permille: u32) -> (r: u32)
    ensures
        r == share_of(total, ratio_permille),
{
    assert(total as int * ratio_permille as int <= u64::MAX) by (nonlinear_arith)
        requires
            total <= u32::MAX,
            ratio_permille <= u32::MAX,
    ;
    let v = total as u64 * ratio_permille as u64 / 1000;
    if v > u32::MAX as u64 {
        u32::MAX
    } else {
        v as u32
    }
}

/// Whether `x` occurs in `ids`.
fn contains_id(ids: &Vec<u64>, x: u64) -> (r: bool)
    ensures
        r == ids@.contains(x),
{
    let mut i: usize = 0;
    while i < ids.len()
        invariant
            i <= ids@.len(),
            forall|k: int| 0 <= k < i ==> ids@[k] != x,
        decreases ids@.len() - i,
    {
        if ids[i] == x {
            return true;
        }
        i += 1;
    }
    false
}
/// The index of the first occurrence of `t` in `s` (`s.len()` when absent).
pub open spec fn first_index(s: Seq<u64>, t: u64) -> int
    decreases s.len(),
{
    if s.len() == 0 {
        0
    } else if s[0] == t {
        0
    } else {
        1 + first_index(s.drop_first(), t)
    }
}

/// What `swap` leaves: the ids exchanged when both are in the tree.
pub open spec fn swapped(n: Node, a: u64, b: u64) -> Node {
    if leaves(n).contains(a) && leaves(n).contains(b) {
        swap_ids_spec(n, a, b)
    } else {
        n
    }
}

proof fn lemma_first_index_concat(a: Seq<u64>, b: Seq<u64>, t: u64)
    ensures
        first_index(a + b, t) == (if a.contains(t) {
            first_index(a, t)
        } else {
            a.len() + first_index(b, t)
        }),
        a.contains(t) ==> 0 <= first_index(a, t) < a.len() && a[first_index(a, t)] == t,
    decreases a.len(),
{
    if a.len() == 0 {
        assert(a + b =~= b);
    } else {
        assert((a + b).drop_first() =~= a.drop_first() + b);
        lemma_first_index_concat(a.drop_first(), b, t);
        if a[0] != t {
            if a.contains(t) {
                let k = choose|k: int| 0 <= k < a.len() && a[k] == t;
                assert(a.drop_first()[k - 1] == t);
            } else {
                assert forall|k: int| 0 <= k < a.drop_first().len() implies a.drop_first()[k] != t by {
                    assert(a[k + 1] == a.drop_first()[k]);
                }
            }
        }
    }
}

/// A failed insertion leaves the tree as it was; a successful one puts a
/// split where the leaf was.
proof fn lemma_insert_shape(n: Node, new_id: u64, geom: Geometry, target: Option<u64>)
    ensures
        !insert_spec(n, new_id, geom, target).0 ==> insert_spec(n, new_id, geom, target).1 == n,
        insert_spec(n, new_id, geom, target).0 ==> insert_spec(n, new_id, geom, target).1 is Split,
    decreases n,
{
    if let Node::Split { left, right, .. } = n {
        lemma_insert_shape(*left, new_id, geom, target);
        lemma_insert_shape(*right, new_id, geom, target);
    }
}

/// `insert` succeeds exactly when no target is given or the target is in
/// the tree, and it then puts the new window right after the first leaf
/// (left to right) holding the target (after the first leaf at all when
/// no target is given). When it fails the tree is unchanged.
pub proof fn lemma_insert_leaves(n: Node, new_id: u64, geom: Geometry, target: Option<u64>)
    ensures
        insert_spec(n, new_id, geom, target).0 == (match target {
            Some(t) => leaves(n).contains(t),
            None => true,
        }),
        insert_spec(n, new_id, geom, target).0 ==> leaves(insert_spec(n, new_id, geom, target).1)
            == leaves(n).insert(
            match target {
                Some(t) => first_index(leaves(n), t) + 1,
                None => 1,
            },
            new_id,
        ),
        !insert_spec(n, new_id, geom, target).0 ==> insert_spec(n, new_id, geom, target).1 == n,
    decreases n,
{
    lemma_insert_shape(n, new_id, geom, target);
    match n {
        Node::Window { id, original_geometry } => {
            assert(leaves(n) =~= seq![id]);
            assert(leaves(n)[0] == id);
            if let Some(t) = target {
                if leaves(n).contains(t) {
                    let k = choose|k: int| 0 <= k < leaves(n).len() && leaves(n)[k] == t;
                    assert(k == 0);
                }
                if t == id {
                    assert(first_index(leaves(n), t) == 0);
                    assert(leaves(n).contains(t));
                    assert(insert_spec(n, new_id, geom, target).0);
                } else {
                    assert(!insert_spec(n, new_id, geom, target).0);
                    assert(!leaves(n).contains(t));
                }
            } else {
                assert(insert_spec(n, new_id, geom, target).0);
            }
            let w1 = Node::Window { id, original_geometry };
            let w2 = Node::Window { id: new_id, original_geometry: geom };
            assert(leaves(w1) =~= seq![id]);
            assert(leaves(w2) =~= seq![new_id]);
            assert(seq![id].insert(1, new_id) =~= seq![id] + seq![new_id]);
        },
        Node::Split { left, right, .. } => {
            lemma_insert_leaves(*left, new_id, geom, target);
            lemma_insert_leaves(*right, new_id, geom, target);
            let ll = leaves(*left);
            let lr = leaves(*right);
            assert(leaves(n) == ll + lr);
            match target {
                Some(t) => {
                    lemma_first_index_concat(ll, lr, t);
                    lemma_first_index_concat(lr, Seq::<u64>::empty(), t);
                    if ll.contains(t) {
                        let k = choose|k: int| 0 <= k < ll.len() && ll[k] == t;
                        assert((ll + lr)[k] == t);
                        let p = first_index(ll, t) + 1;
                        assert(ll.insert(p, new_id) + lr =~= (ll + lr).insert(p, new_id));
                    } else {
                        if lr.contains(t) {
                            let k = choose|k: int| 0 <= k < lr.len() && lr[k] == t;
                            assert((ll + lr)[ll.len() + k] == t);
                            let p = first_index(lr, t) + 1;
                            assert(ll + lr.insert(p, new_id) =~= (ll + lr).insert(ll.len() + p, new_id));
                        } else {
                            assert forall|k: int| 0 <= k < (ll + lr).len() implies (ll + lr)[k] != t by {
                                if k < ll.len() {
                                    assert((ll + lr)[k] == ll[k]);
                                } else {
                                    assert((ll + lr)[k] == lr[k - ll.len()]);
                                }
                            }
                        }
                    }
                },
                None => {
                    assert(ll.len() >= 1) by {
                        lemma_leaves_nonempty(*left);
                    }
                    assert(ll.insert(1, new_id) + lr =~= (ll + lr).insert(1, new_id));
                },
            }
        },
    }
}

/// Every tree has at least one leaf.
pub proof fn lemma_leaves_nonempty(n: Node)
    ensures
        leaves(n).len() >= 1,
    decreases n,
{
    if let Node::Split { left, right, .. } = n {
        lemma_leaves_nonempty(*left);
    }
}

/// `remove` reports success exactly when the target is in the tree, and
/// when it is not it changes nothing.
pub proof fn lemma_remove_found(n: Node, t: u64)
    ensures
        remove_spec(n, t).0 == leaves(n).contains(t),
        !remove_spec(n, t).0 ==> remove_spec(n, t).1 is None && remove_spec(n, t).2 == n,
    decreases n,
{
    match n {
        Node::Window { id, .. } => {
            assert(leaves(n) =~= seq![id]);
            assert(leaves(n)[0] == id);
            if leaves(n).contains(t) {
                let k = choose|k: int| 0 <= k < leaves(n).len() && leaves(n)[k] == t;
                assert(k == 0);
            }
        },
        Node::Split { left, right, .. } => {
            lemma_remove_found(*left, t);
            lemma_remove_found(*right, t);
            let ll = leaves(*left);
            let lr = leaves(*right);
            if let Node::Window { id, .. } = *left {
                assert(ll =~= seq![id]);
                if id == t {
                    assert((ll + lr)[0] == t);
                }
            }
            if let Node::Window { id, .. } = *right {
                assert(lr =~= seq![id]);
                if id == t {
                    assert((ll + lr)[ll.len() as int] == t);
                }
            }
            if ll.contains(t) {
                let k = choose|k: int| 0 <= k < ll.len() && ll[k] == t;
                assert((ll + lr)[k] == t);
            }
            if lr.contains(t) {
                let k = choose|k: int| 0 <= k < lr.len() && lr[k] == t;
                assert((ll + lr)[ll.len() + k] == t);
            }
            if (ll + lr).contains(t) {
                let k = choose|k: int| 0 <= k < (ll + lr).len() && (ll + lr)[k] == t;
                if k < ll.len() {
                    assert(ll[k] == t);
                } else {
                    assert(lr[k - ll.len()] == t);
                }
            }
        },
    }
}

/// Removing a window that was just inserted restores the tree, provided
/// the window ids are distinct and the new id was not in the tree.
pub proof fn lemma_insert_then_remove(n: Node, new_id: u64, geom: Geometry, target: Option<u64>)
    requires
        leaves(n).no_duplicates(),
        !leaves(n).contains(new_id),
        insert_spec(n, new_id, geom, target).0,
    ensures
        removed(insert_spec(n, new_id, geom, target).1, new_id) == n,
    decreases n,
{
    lemma_insert_shape(n, new_id, geom, target);
    match n {
        Node::Window { id, .. } => {
            assert(leaves(n) =~= seq![id]);
            assert(leaves(n)[0] == id);
        },
        Node::Split { left, right, .. } => {
            let ll = leaves(*left);
            let lr = leaves(*right);
            assert(leaves(n) == ll + lr);
            assert(ll.no_duplicates() && !ll.contains(new_id)) by {
                assert forall|i: int, j: int| 0 <= i < ll.len() && 0 <= j < ll.len() && i != j implies ll[i] != ll[j] by {
                    assert((ll + lr)[i] == ll[i] && (ll + lr)[j] == ll[j]);
                }
                if ll.contains(new_id) {
                    let k = choose|k: int| 0 <= k < ll.len() && ll[k] == new_id;
                    assert((ll + lr)[k] == new_id);
                }
            }
            assert(lr.no_duplicates() && !lr.contains(new_id)) by {
                assert forall|i: int, j: int| 0 <= i < lr.len() && 0 <= j < lr.len() && i != j implies lr[i] != lr[j] by {
                    assert((ll + lr)[ll.len() + i] == lr[i] && (ll + lr)[ll.len() + j] == lr[j]);
                }
                if lr.contains(new_id) {
                    let k = choose|k: int| 0 <= k < lr.len() && lr[k] == new_id;
                    assert((ll + lr)[ll.len() + k] == new_id);
                }
            }
            lemma_insert_shape(*left, new_id, geom, target);
            lemma_insert_shape(*right, new_id, geom, target);
            lemma_remove_found(*left, new_id);
            lemma_remove_found(*right, new_id);
            if let Node::Window { id, .. } = *left {
                assert(ll =~= seq![id]);
                assert(ll[0] == id);
            }
            if let Node::Window { id, .. } = *right {
                assert(lr =~= seq![id]);
                assert(lr[0] == id);
            }
            let (bl, l2) = insert_spec(*left, new_id, geom, target);
            if bl {
                lemma_insert_then_remove(*left, new_id, geom, target);
                lemma_insert_leaves(*left, new_id, geom, target);
                lemma_remove_found(l2, new_id);
                assert(leaves(l2).contains(new_id)) by {
                    let p = match target {
                        Some(t) => first_index(ll, t) + 1,
                        None => 1,
                    };
                    if let Some(t) = target {
                        lemma_first_index_concat(ll, Seq::<u64>::empty(), t);
                    }
                    lemma_leaves_nonempty(*left);
                    assert(ll.insert(p, new_id)[p] == new_id);
                }
            } else {
                let (br, r2) = insert_spec(*right, new_id, geom, target);
                lemma_insert_then_remove(*right, new_id, geom, target);
                lemma_insert_leaves(*right, new_id, geom, target);
                lemma_remove_found(r2, new_id);
                assert(leaves(r2).contains(new_id)) by {
                    let p = match target {
                        Some(t) => first_index(lr, t) + 1,
                        None => 1,
                    };
                    if let Some(t) = target {
                        lemma_first_index_concat(lr, Seq::<u64>::empty(), t);
                    }
                    lemma_leaves_nonempty(*right);
                    assert(lr.insert(p, new_id)[p] == new_id);
                }
            }
        },
    }
}

/// Exchanging two ids is undone by exchanging them again.
pub proof fn lemma_swap_ids_involution(n: Node, a: u64, b: u64)
    ensures
        swap_ids_spec(swap_ids_spec(n, a, b), a, b) == n,
        leaves(swap_ids_spec(n, a, b)).len() == leaves(n).len(),
        forall|i: int|
            #![trigger leaves(swap_ids_spec(n, a, b))[i]]
            0 <= i < leaves(n).len() ==> leaves(swap_ids_spec(n, a, b))[i] == (if leaves(n)[i] == a {
                b
            } else if leaves(n)[i] == b {
                a
            } else {
                leaves(n)[i]
            }),
    decreases n,
{
    if let Node::Split { left, right, .. } = n {
        lemma_swap_ids_involution(*left, a, b);
        lemma_swap_ids_involution(*right, a, b);
        let s = swap_ids_spec(n, a, b);
        assert(leaves(s) == leaves(swap_ids_spec(*left, a, b)) + leaves(swap_ids_spec(*right, a, b)));
        assert forall|i: int|
            #![trigger leaves(swap_ids_spec(n, a, b))[i]]
            0 <= i < leaves(n).len() implies leaves(swap_ids_spec(n, a, b))[i] == (if leaves(n)[i] == a {
                b
            } else if leaves(n)[i] == b {
                a
            } else {
                leaves(n)[i]
            }) by {
            let ll = leaves(*left);
            if i >= ll.len() {
                assert(leaves(swap_ids_spec(*right, a, b))[i - ll.len()] == leaves(swap_ids_spec(n, a, b))[i]);
            } else {
                assert(leaves(swap_ids_spec(*left, a, b))[i] == leaves(swap_ids_spec(n, a, b))[i]);
            }
        }
    } else if let Node::Window { id, .. } = n {
        assert(leaves(n)[0] == id);
    }
}

/// Swapping the same two windows twice gives back the tree.
pub proof fn lemma_swap_twice(n: Node, a: u64, b: u64)
    ensures
        swapped(swapped(n, a, b), a, b) == n,
{
    lemma_swap_ids_involution(n, a, b);
    if leaves(n).contains(a) && leaves(n).contains(b) {
        let s = swap_ids_spec(n, a, b);
        let ia = choose|i: int| 0 <= i < leaves(n).len() && leaves(n)[i] == a;
        let ib = choose|i: int| 0 <= i < leaves(n).len() && leaves(n)[i] == b;
        assert(leaves(s)[ia] == (if a == b { a } else { b }));
        assert(leaves(s)[ib] == a);
    }
}

/// Laying out the tree gives an area to every window at its leaves and to
/// no other key.
pub proof fn lemma_geometries_domain(n: Node, bounds: Geometry, inner_gaps: u32, acc: Map<u64, Geometry>)
    ensures
        geometries_spec(n, bounds, inner_gaps, acc).dom() == acc.dom() + leaves(n).to_set(),
    decreases n,
{
    match n {
        Node::Window { id, .. } => {
            assert(leaves(n).to_set() =~= set![id]) by {
                assert(leaves(n) =~= seq![id]);
                assert(leaves(n)[0] == id);
            }
            assert(acc.insert(id, bounds).dom() =~= acc.dom() + set![id]);
        },
        Node::Split { direction, ratio_permille, left, right } => {
            let (lb, rb) = child_bounds(bounds, direction, ratio_permille, inner_gaps);
            lemma_geometries_domain(*left, lb, inner_gaps, acc);
            lemma_geometries_domain(*right, rb, inner_gaps, geometries_spec(*left, lb, inner_gaps, acc));
            let ll = leaves(*left);
            let lr = leaves(*right);
            assert((ll + lr).to_set() =~= ll.to_set() + lr.to_set()) by {
                assert forall|x: u64| (ll + lr).to_set().contains(x) implies (ll.to_set() + lr.to_set()).contains(x) by {
                    let k = choose|k: int| 0 <= k < (ll + lr).len() && (ll + lr)[k] == x;
                    if k < ll.len() {
                        assert(ll[k] == x);
                    } else {
                        assert(lr[k - ll.len()] == x);
                    }
                }
                assert forall|x: u64| (ll.to_set() + lr.to_set()).contains(x) implies (ll + lr).to_set().contains(x) by {
                    if ll.contains(x) {
                        let k = choose|k: int| 0 <= k < ll.len() && ll[k] == x;
                        assert((ll + lr)[k] == x);
                    } else {
                        let k = choose|k: int| 0 <= k < lr.len() && lr[k] == x;
                        assert((ll + lr)[ll.len() + k] == x);
                    }
                }
            }
            assert(geometries_spec(n, bounds, inner_gaps, acc).dom() =~= acc.dom() + leaves(n).to_set());
        },
    }
}

/// The halves of a duplicate-free concatenation are duplicate-free and
/// share no element.
proof fn lemma_no_dup_concat(a: Seq<u64>, b: Seq<u64>)
    requires
        (a + b).no_duplicates(),
    ensures
        a.no_duplicates(),
        b.no_duplicates(),
        forall|x: u64| a.contains(x) ==> !b.contains(x),
{
    assert forall|i: int, j: int| 0 <= i < a.len() && 0 <= j < a.len() && i != j implies a[i] != a[j] by {
        assert((a + b)[i] == a[i] && (a + b)[j] == a[j]);
    }
    assert forall|i: int, j: int| 0 <= i < b.len() && 0 <= j < b.len() && i != j implies b[i] != b[j] by {
        assert((a + b)[a.len() + i] == b[i] && (a + b)[a.len() + j] == b[j]);
    }
    assert forall|x: u64| a.contains(x) implies !b.contains(x) by {
        let i = choose|i: int| 0 <= i < a.len() && a[i] == x;
        if b.contains(x) {
            let j = choose|j: int| 0 <= j < b.len() && b[j] == x;
            assert((a + b)[i] == (a + b)[a.len() + j]);
        }
    }
}

/// In a tree of at least two windows with distinct ids, removing one of
/// them (and putting the returned replacement in place) drops exactly that
/// window from the left-to-right order of the leaves.
pub proof fn lemma_remove_leaves(n: Node, t: u64)
    requires
        n is Split,
        leaves(n).no_duplicates(),
        leaves(n).contains(t),
    ensures
        leaves(removed(n, t)) == leaves(n).remove(first_index(leaves(n), t)),
    decreases n,
{
    if let Node::Split { left, right, .. } = n {
        let ll = leaves(*left);
        let lr = leaves(*right);
        assert(leaves(n) == ll + lr);
        lemma_no_dup_concat(ll, lr);
        lemma_first_index_concat(ll, lr, t);
        lemma_first_index_concat(lr, Seq::<u64>::empty(), t);
        lemma_remove_found(*left, t);
        lemma_remove_found(*right, t);
        lemma_leaves_nonempty(*left);
        lemma_leaves_nonempty(*right);
        if ll.contains(t) {
            let k = choose|k: int| 0 <= k < ll.len() && ll[k] == t;
            assert((ll + lr)[k] == t);
        } else {
            let k = choose|k: int| 0 <= k < (ll + lr).len() && (ll + lr)[k] == t;
            assert(k >= ll.len());
            assert(lr[k - ll.len()] == t);
        }
        if (*left matches Node::Window { id, .. } && id == t) {
            assert(ll =~= seq![t]);
            assert(ll[0] == t);
            assert((ll + lr).remove(0) =~= lr);
        } else if (*right matches Node::Window { id, .. } && id == t) {
            assert(lr =~= seq![t]);
            assert(lr[0] == t);
            assert(!ll.contains(t));
            assert((ll + lr).remove(ll.len() as int) =~= ll);
        } else if ll.contains(t) {
            if let Node::Window { id, .. } = *left {
                assert(ll =~= seq![id]);
                assert(ll[0] == id);
            }
            lemma_remove_leaves(*left, t);
            let p = first_index(ll, t);
            assert(ll.remove(p) + lr =~= (ll + lr).remove(p));
        } else {
            if let Node::Window { id, .. } = *right {
                assert(lr =~= seq![id]);
                assert(lr[0] == id);
            }
            lemma_remove_leaves(*right, t);
            let p = first_index(lr, t);
            assert(ll + lr.remove(p) =~= (ll + lr).remove(ll.len() + p));
        }
    }
}

/// Every split of the tree, laid out in `bounds` with no inner gap, gives
/// its first child a share of at least one pixel and leaves at least one
/// pixel to the second.
pub open spec fn splits_proper(n: Node, bounds: Geometry) -> bool
    decreases n,
{
    match n {
        Node::Window { .. } => true,
        Node::Split { direction, ratio_permille, left, right } => {
            let total = match direction {
                Direction::Horizontal => bounds.width,
                Direction::Vertical => bounds.height,
            };
            let (lb, rb) = child_bounds(bounds, direction, ratio_permille, 0);
            &&& 1 <= share_of(total, ratio_permille) < total
            &&& splits_proper(*left, lb)
            &&& splits_proper(*right, rb)
        },
    }
}

/// The rectangle's sizes and far edges are `i32` coordinates.
pub open spec fn in_i32_plane(g: Geometry) -> bool {
    &&& g.width <= i32::MAX
    &&& g.height <= i32::MAX
    &&& g.x + g.width <= i32::MAX
    &&& g.y + g.height <= i32::MAX
}

/// `inner` lies inside `outer`.
pub open spec fn rect_within(inner: Geometry, outer: Geometry) -> bool {
    &&& outer.x <= inner.x
    &&& inner.x + inner.width <= outer.x + outer.width
    &&& outer.y <= inner.y
    &&& inner.y + inner.height <= outer.y + outer.height
}

/// Membership in a concatenation.
proof fn lemma_concat_contains(a: Seq<u64>, b: Seq<u64>, x: u64)
    ensures
        (a + b).contains(x) <==> a.contains(x) || b.contains(x),
{
    if (a + b).contains(x) {
        let k = choose|k: int| 0 <= k < (a + b).len() && (a + b)[k] == x;
        if k < a.len() {
            assert(a[k] == x);
        } else {
            assert(b[k - a.len()] == x);
        }
    }
    if a.contains(x) {
        let k = choose|k: int| 0 <= k < a.len() && a[k] == x;
        assert((a + b)[k] == x);
    }
    if b.contains(x) {
        let k = choose|k: int| 0 <= k < b.len() && b[k] == x;
        assert((a + b)[a.len() + k] == x);
    }
}

/// Laying a tree out on top of `acc` overwrites `acc` with the areas the
/// tree gives on its own.
proof fn lemma_geometries_acc(n: Node, bounds: Geometry, inner_gaps: u32, acc: Map<u64, Geometry>)
    ensures
        geometries_spec(n, bounds, inner_gaps, acc) == acc.union_prefer_right(
            geometries_spec(n, bounds, inner_gaps, Map::empty()),
        ),
    decreases n,
{
    match n {
        Node::Window { id, .. } => {
            assert(acc.insert(id, bounds) =~= acc.union_prefer_right(
                Map::<u64, Geometry>::empty().insert(id, bounds),
            ));
        },
        Node::Split { direction, ratio_permille, left, right } => {
            let (lb, rb) = child_bounds(bounds, direction, ratio_permille, inner_gaps);
            let l_acc = geometries_spec(*left, lb, inner_gaps, acc);
            let l0 = geometries_spec(*left, lb, inner_gaps, Map::empty());
            let r0 = geometries_spec(*right, rb, inner_gaps, Map::empty());
            lemma_geometries_acc(*left, lb, inner_gaps, acc);
            lemma_geometries_acc(*left, lb, inner_gaps, Map::empty());
            lemma_geometries_acc(*right, rb, inner_gaps, l_acc);
            lemma_geometries_acc(*right, rb, inner_gaps, l0);
            assert(Map::<u64, Geometry>::empty().union_prefer_right(l0) =~= l0);
            assert(acc.union_prefer_right(l0).union_prefer_right(r0) =~= acc.union_prefer_right(
                l0.union_prefer_right(r0),
            ));
        },
    }
}

/// The total area, in square pixels, of the areas `m` gives the windows
/// `ids`.
pub open spec fn area_sum(m: Map<u64, Geometry>, ids: Seq<u64>) -> int
    decreases ids.len(),
{
    if ids.len() == 0 {
        0
    } else {
        area_sum(m, ids.drop_last()) + m[ids.last()].width * m[ids.last()].height
    }
}

/// The total over a concatenation is the sum of the totals.
proof fn lemma_area_sum_concat(m: Map<u64, Geometry>, a: Seq<u64>, b: Seq<u64>)
    ensures
        area_sum(m, a + b) == area_sum(m, a) + area_sum(m, b),
    decreases b.len(),
{
    if b.len() == 0 {
        assert(a + b =~= a);
    } else {
        lemma_area_sum_concat(m, a, b.drop_last());
        assert((a + b).drop_last() =~= a + b.drop_last());
        assert((a + b).last() == b.last());
    }
}

/// The total only depends on the areas of the windows listed.
proof fn lemma_area_sum_agree(m1: Map<u64, Geometry>, m2: Map<u64, Geometry>, ids: Seq<u64>)
    requires
        forall|k: int| 0 <= k < ids.len() ==> m1[#[trigger] ids[k]] == m2[ids[k]],
    ensures
        area_sum(m1, ids) == area_sum(m2, ids),
    decreases ids.len(),
{
    if ids.len() > 0 {
        let init = ids.drop_last();
        assert forall|k: int| 0 <= k < init.len() implies m1[#[trigger] init[k]] == m2[init[k]] by {
            assert(init[k] == ids[k]);
        }
        lemma_area_sum_agree(m1, m2, init);
        assert(m1[ids[ids.len() - 1]] == m2[ids[ids.len() - 1]]);
    }
}

/// The areas of the windows of a tree with distinct ids, laid out in
/// `bounds` with no inner gap and every split giving each side at least a
/// pixel, add up to the area of `bounds`.
proof fn lemma_tree_area(n: Node, bounds: Geometry)
    requires
        leaves(n).no_duplicates(),
        splits_proper(n, bounds),
        in_i32_plane(bounds),
    ensures
        area_sum(geometries_spec(n, bounds, 0, Map::empty()), leaves(n)) == bounds.width
            * bounds.height,
    decreases n,
{
    let m = geometries_spec(n, bounds, 0, Map::empty());
    match n {
        Node::Window { id, .. } => {
            assert(leaves(n).drop_last() =~= Seq::<u64>::empty());
            assert(leaves(n).last() == id);
            assert(area_sum(m, Seq::<u64>::empty()) == 0);
            assert(m[id] == bounds);
        },
        Node::Split { direction, ratio_permille, left, right } => {
            let (lb, rb) = child_bounds(bounds, direction, ratio_permille, 0);
            let ll = leaves(*left);
            let lr = leaves(*right);
            let l0 = geometries_spec(*left, lb, 0, Map::empty());
            let r0 = geometries_spec(*right, rb, 0, Map::empty());
            lemma_no_dup_concat(ll, lr);
            let total = match direction {
                Direction::Horizontal => bounds.width,
                Direction::Vertical => bounds.height,
            };
            let first = share_of(total, ratio_permille);
            assert(split_sizes(total, ratio_permille, 0) == (first, (total - first) as u32));
            lemma_tree_area(*left, lb);
            lemma_tree_area(*right, rb);
            lemma_geometries_domain(*left, lb, 0, Map::empty());
            lemma_geometries_domain(*right, rb, 0, Map::empty());
            lemma_geometries_acc(*right, rb, 0, l0);
            assert(m == l0.union_prefer_right(r0));
            assert forall|k: int| 0 <= k < ll.len() implies m[#[trigger] ll[k]] == l0[ll[k]] by {
                assert(ll.contains(ll[k]));
                assert(!lr.to_set().contains(ll[k]));
            }
            assert forall|k: int| 0 <= k < lr.len() implies m[#[trigger] lr[k]] == r0[lr[k]] by {
                assert(lr.to_set().contains(lr[k]));
            }
            lemma_area_sum_agree(m, l0, ll);
            lemma_area_sum_agree(m, r0, lr);
            lemma_area_sum_concat(m, ll, lr);
            let w = bounds.width as int;
            let h = bounds.height as int;
            let f = first as int;
            match direction {
                Direction::Horizontal => {
                    assert(f * h + (w - f) * h == w * h) by (nonlinear_arith);
                },
                Direction::Vertical => {
                    assert(w * f + w * (h - f) == w * h) by (nonlinear_arith);
                },
            }
        },
    }
}

/// `lemma_tree_tiles` for a tree laid out on an empty map.
#[verifier::spinoff_prover]
#[verifier::rlimit(50)]
proof fn lemma_tree_tiles_alone(n: Node, bounds: Geometry)
    requires
        leaves(n).no_duplicates(),
        splits_proper(n, bounds),
        in_i32_plane(bounds),
    ensures
        geometries_fit(n, bounds, 0),
        forall|a: u64|
            #![trigger leaves(n).contains(a)]
            leaves(n).contains(a) ==> geometries_spec(n, bounds, 0, Map::empty()).contains_key(a)
                && rect_within(geometries_spec(n, bounds, 0, Map::empty())[a], bounds),
        forall|a: u64, b: u64, px: int, py: int|
            #![trigger geometries_spec(n, bounds, 0, Map::empty())[a].contains_spec(px, py), geometries_spec(n, bounds, 0, Map::empty())[b].contains_spec(px, py)]
            leaves(n).contains(a) && leaves(n).contains(b) && a != b ==> !(geometries_spec(
                n,
                bounds,
                0,
                Map::empty(),
            )[a].contains_spec(px, py) && geometries_spec(n, bounds, 0, Map::empty())[b].contains_spec(
                px,
                py,
            )),
        forall|px: int, py: int|
            #![trigger bounds.contains_spec(px, py)]
            bounds.contains_spec(px, py) ==> exists|a: u64|
                #![trigger geometries_spec(n, bounds, 0, Map::empty())[a].contains_spec(px, py)]
                leaves(n).contains(a) && geometries_spec(n, bounds, 0, Map::empty())[a].contains_spec(
                    px,
                    py,
                ),
        area_sum(geometries_spec(n, bounds, 0, Map::empty()), leaves(n)) == bounds.width
            * bounds.height,
    decreases n,
{
    let m = geometries_spec(n, bounds, 0, Map::empty());
    lemma_tree_area(n, bounds);
    match n {
        Node::Window { id, .. } => {
            assert(leaves(n) =~= seq![id]);
            assert forall|a: u64| #[trigger] leaves(n).contains(a) implies a == id by {
                let k = choose|k: int| 0 <= k < leaves(n).len() && leaves(n)[k] == a;
            }
            assert forall|px: int, py: int| #[trigger] bounds.contains_spec(px, py) implies exists|a: u64|
                #![trigger m[a].contains_spec(px, py)]
                leaves(n).contains(a) && m[a].contains_spec(px, py) by {
                assert(leaves(n)[0] == id);
                assert(m[id].contains_spec(px, py));
            }
        },
        Node::Split { direction, ratio_permille, left, right } => {
            let (lb, rb) = child_bounds(bounds, direction, ratio_permille, 0);
            let ll = leaves(*left);
            let lr = leaves(*right);
            let l0 = geometries_spec(*left, lb, 0, Map::empty());
            let r0 = geometries_spec(*right, rb, 0, Map::empty());
            lemma_no_dup_concat(ll, lr);
            let total = match direction {
                Direction::Horizontal => bounds.width,
                Direction::Vertical => bounds.height,
            };
            let first = share_of(total, ratio_permille);
            assert(split_sizes(total, ratio_permille, 0) == (first, (total - first) as u32));
            assert(first <= i32::MAX);
            // The two halves, side by side.
            match direction {
                Direction::Horizontal => {
                    assert(lb == Geometry { x: bounds.x, y: bounds.y, width: first, height: bounds.height });
                    assert(rb == Geometry {
                        x: (bounds.x + first) as i32,
                        y: bounds.y,
                        width: (bounds.width - first) as u32,
                        height: bounds.height,
                    });
                },
                Direction::Vertical => {
                    assert(lb == Geometry { x: bounds.x, y: bounds.y, width: bounds.width, height: first });
                    assert(rb == Geometry {
                        x: bounds.x,
                        y: (bounds.y + first) as i32,
                        width: bounds.width,
                        height: (bounds.height - first) as u32,
                    });
                },
            }
            lemma_tree_tiles_alone(*left, lb);
            lemma_tree_tiles_alone(*right, rb);
            lemma_geometries_domain(*left, lb, 0, Map::empty());
            lemma_geometries_domain(*right, rb, 0, Map::empty());
            lemma_geometries_acc(*right, rb, 0, l0);
            assert(m == l0.union_prefer_right(r0));
            // Each window keeps the area its own half gives it.
            assert forall|a: u64| ll.contains(a) implies #[trigger] m[a] == l0[a] && l0.contains_key(a) by {
                assert(ll.to_set().contains(a));
                assert(!lr.to_set().contains(a));
            }
            assert forall|a: u64| lr.contains(a) implies #[trigger] m[a] == r0[a] && r0.contains_key(a) by {
                assert(lr.to_set().contains(a));
            }
            assert forall|a: u64| #[trigger] leaves(n).contains(a) implies ll.contains(a) || lr.contains(a) by {
                lemma_concat_contains(ll, lr, a);
            }
            assert forall|a: u64| #[trigger] leaves(n).contains(a) implies m.contains_key(a) && rect_within(
                m[a],
                bounds,
            ) by {
                lemma_concat_contains(ll, lr, a);
                if ll.contains(a) {
                    assert(m[a] == l0[a]);
                } else {
                    assert(m[a] == r0[a]);
                }
            }
            assert forall|a: u64, b: u64, px: int, py: int|
                leaves(n).contains(a) && leaves(n).contains(b) && a != b implies !(
                #[trigger] m[a].contains_spec(px, py) && #[trigger] m[b].contains_spec(px, py)) by {
                lemma_concat_contains(ll, lr, a);
                lemma_concat_contains(ll, lr, b);
                if ll.contains(a) && ll.contains(b) {
                    assert(m[a] == l0[a] && m[b] == l0[b]);
                    assert(l0[a].contains_spec(px, py) ==> !l0[b].contains_spec(px, py));
                } else if lr.contains(a) && lr.contains(b) {
                    assert(m[a] == r0[a] && m[b] == r0[b]);
                    assert(r0[a].contains_spec(px, py) ==> !r0[b].contains_spec(px, py));
                } else if ll.contains(a) {
                    assert(m[a] == l0[a] && m[b] == r0[b]);
                    assert(rect_within(l0[a], lb) && rect_within(r0[b], rb));
                } else {
                    assert(m[a] == r0[a] && m[b] == l0[b]);
                    assert(rect_within(r0[a], rb) && rect_within(l0[b], lb));
                }
            }
            assert forall|px: int, py: int| #[trigger] bounds.contains_spec(px, py) implies exists|a: u64|
                #![trigger m[a].contains_spec(px, py)]
                leaves(n).contains(a) && m[a].contains_spec(px, py) by {
                if lb.contains_spec(px, py) {
                    let a = choose|a: u64|
                        #![trigger l0[a].contains_spec(px, py)]
                        ll.contains(a) && l0[a].contains_spec(px, py);
                    lemma_concat_contains(ll, lr, a);
                    assert(m[a] == l0[a]);
                    assert(m[a].contains_spec(px, py));
                } else {
                    assert(rb.contains_spec(px, py));
                    let a = choose|a: u64|
                        #![trigger r0[a].contains_spec(px, py)]
                        lr.contains(a) && r0[a].contains_spec(px, py);
                    lemma_concat_contains(ll, lr, a);
                    assert(m[a] == r0[a]);
                    assert(m[a].contains_spec(px, py));
                }
            }
        },
    }
}

/// With no inner gap and every split giving each side at least a pixel,
/// the windows of a tree with distinct ids tile the area it is laid out
/// in, whatever map the areas are recorded in: each window's area lies
/// inside it, no point lies in the areas of two windows, every point of it
/// lies in the area of some window, and the windows' areas add up to its
/// area. All coordinates then stay within `i32`.
pub proof fn lemma_tree_tiles(n: Node, bounds: Geometry, acc: Map<u64, Geometry>)
    requires
        leaves(n).no_duplicates(),
        splits_proper(n, bounds),
        in_i32_plane(bounds),
    ensures
        geometries_fit(n, bounds, 0),
        forall|a: u64|
            #![trigger leaves(n).contains(a)]
            leaves(n).contains(a) ==> geometries_spec(n, bounds, 0, acc).contains_key(a) && rect_within(
                geometries_spec(n, bounds, 0, acc)[a],
                bounds,
            ),
        forall|a: u64, b: u64, px: int, py: int|
            #![trigger geometries_spec(n, bounds, 0, acc)[a].contains_spec(px, py), geometries_spec(n, bounds, 0, acc)[b].contains_spec(px, py)]
            leaves(n).contains(a) && leaves(n).contains(b) && a != b ==> !(geometries_spec(
                n,
                bounds,
                0,
                acc,
            )[a].contains_spec(px, py) && geometries_spec(n, bounds, 0, acc)[b].contains_spec(px, py)),
        forall|px: int, py: int|
            #![trigger bounds.contains_spec(px, py)]
            bounds.contains_spec(px, py) ==> exists|a: u64|
                #![trigger geometries_spec(n, bounds, 0, acc)[a].contains_spec(px, py)]
                leaves(n).contains(a) && geometries_spec(n, bounds, 0, acc)[a].contains_spec(px, py),
        area_sum(geometries_spec(n, bounds, 0, acc), leaves(n)) == bounds.width * bounds.height,
{
    let m = geometries_spec(n, bounds, 0, acc);
    let m0 = geometries_spec(n, bounds, 0, Map::empty());
    lemma_tree_tiles_alone(n, bounds);
    lemma_geometries_acc(n, bounds, 0, acc);
    lemma_geometries_domain(n, bounds, 0, Map::empty());
    assert forall|a: u64| leaves(n).contains(a) implies #[trigger] m[a] == m0[a] && m0.contains_key(a) by {
        assert(leaves(n).to_set().contains(a));
    }
    assert forall|a: u64| #[trigger] leaves(n).contains(a) implies m.contains_key(a) && rect_within(
        m[a],
        bounds,
    ) by {
        assert(m[a] == m0[a]);
    }
    assert forall|a: u64, b: u64, px: int, py: int|
        leaves(n).contains(a) && leaves(n).contains(b) && a != b implies !(
        #[trigger] m[a].contains_spec(px, py) && #[trigger] m[b].contains_spec(px, py)) by {
        assert(m[a] == m0[a] && m[b] == m0[b]);
        assert(m0[a].contains_spec(px, py) ==> !m0[b].contains_spec(px, py));
    }
    assert forall|px: int, py: int| #[trigger] bounds.contains_spec(px, py) implies exists|a: u64|
        #![trigger m[a].contains_spec(px, py)]
        leaves(n).contains(a) && m[a].contains_spec(px, py) by {
        let a = choose|a: u64|
            #![trigger m0[a].contains_spec(px, py)]
            leaves(n).contains(a) && m0[a].contains_spec(px, py);
        assert(m[a] == m0[a]);
        assert(m[a].contains_spec(px, py));
    }
    assert forall|k: int| 0 <= k < leaves(n).len() implies m[#[trigger] leaves(n)[k]] == m0[leaves(n)[k]] by {
        assert(leaves(n).contains(leaves(n)[k]));
    }
    lemma_area_sum_agree(m, m0, leaves(n));
}

/// The direction and ratio of every split of the tree, parents before
/// their children, left before right.
pub open spec fn split_kinds(n: Node) -> Seq<(Direction, u32)>
    decreases n,
{
    match n {
        Node::Window { .. } => Seq::empty(),
        Node::Split { direction, ratio_permille, left, right } => seq![(direction, ratio_permille)]
            + split_kinds(*left) + split_kinds(*right),
    }
}

/// Inserting into a single window whose id is the target (or with no
/// target) turns it into an even left/right split of that window and the
/// new one, whatever the windows' geometries.
pub proof fn lemma_insert_into_window(
    id: u64,
    original_geometry: Geometry,
    new_id: u64,
    geom: Geometry,
    target: Option<u64>,
)
    requires
        target is None || target == Some(id),
    ensures
        insert_spec(Node::Window { id, original_geometry }, new_id, geom, target) == (
            true,
            Node::Split {
                direction: Direction::Horizontal,
                ratio_permille: 500,
                left: Box::new(Node::Window { id, original_geometry }),
                right: Box::new(Node::Window { id: new_id, original_geometry: geom }),
            },
        ),
{
}

/// A successful insertion adds exactly one split, an even left/right one,
/// and keeps the direction, ratio and order of every split already there;
/// a failed one changes nothing.
pub proof fn lemma_insert_adds_even_split(n: Node, new_id: u64, geom: Geometry, target: Option<u64>)
    ensures
        insert_spec(n, new_id, geom, target).0 ==> exists|j: int|
            0 <= j <= split_kinds(n).len() && split_kinds(insert_spec(n, new_id, geom, target).1)
                == split_kinds(n).insert(j, (Direction::Horizontal, 500u32)),
        !insert_spec(n, new_id, geom, target).0 ==> insert_spec(n, new_id, geom, target).1 == n,
    decreases n,
{
    lemma_insert_shape(n, new_id, geom, target);
    let x = (Direction::Horizontal, 500u32);
    match n {
        Node::Window { id, original_geometry } => {
            if insert_spec(n, new_id, geom, target).0 {
                let after = insert_spec(n, new_id, geom, target).1;
                let w1 = Node::Window { id, original_geometry };
                let w2 = Node::Window { id: new_id, original_geometry: geom };
                assert(split_kinds(w1) =~= Seq::<(Direction, u32)>::empty());
                assert(split_kinds(w2) =~= Seq::<(Direction, u32)>::empty());
                assert(split_kinds(after) =~= split_kinds(n).insert(0, x));
            }
        },
        Node::Split { direction, ratio_permille, left, right } => {
            lemma_insert_adds_even_split(*left, new_id, geom, target);
            lemma_insert_adds_even_split(*right, new_id, geom, target);
            let head = seq![(direction, ratio_permille)];
            let sl = split_kinds(*left);
            let sr = split_kinds(*right);
            let (bl, l2) = insert_spec(*left, new_id, geom, target);
            let (br, r2) = insert_spec(*right, new_id, geom, target);
            let after = insert_spec(n, new_id, geom, target).1;
            if bl {
                let j = choose|j: int| 0 <= j <= sl.len() && split_kinds(l2) == sl.insert(j, x);
                assert(split_kinds(after) =~= split_kinds(n).insert(1 + j, x));
            } else if br {
                let j = choose|j: int| 0 <= j <= sr.len() && split_kinds(r2) == sr.insert(j, x);
                assert(l2 == *left);
                assert(split_kinds(after) =~= split_kinds(n).insert(1 + sl.len() + j, x));
            }
        },
    }
}

/// The sibling handed back by `remove` is exactly the other child of the
/// split whose child was the removed window, untouched.
pub proof fn lemma_remove_hands_back_sibling(n: Node, t: u64)
    ensures
        remove_spec(n, t).1 matches Some(s) ==> (n matches Node::Split { left, right, .. } && (
        (*left matches Node::Window { id, .. } && id == t && s == *right) || (
        *right matches Node::Window { id, .. } && id == t && s == *left))),
{
}

/// Removing a window drops exactly one split, the one that held it, and
/// keeps the direction, ratio and order of every other split.
pub proof fn lemma_remove_drops_one_split(n: Node, t: u64)
    requires
        n is Split,
        leaves(n).contains(t),
    ensures
        exists|j: int|
            0 <= j < split_kinds(n).len() && split_kinds(removed(n, t)) == split_kinds(n).remove(j),
    decreases n,
{
    lemma_remove_found(n, t);
    if let Node::Split { direction, ratio_permille, left, right } = n {
        let sl = split_kinds(*left);
        let sr = split_kinds(*right);
        if (*left matches Node::Window { id, .. } && id == t) {
            assert(sl =~= Seq::<(Direction, u32)>::empty());
            assert(split_kinds(removed(n, t)) =~= split_kinds(n).remove(0));
        } else if (*right matches Node::Window { id, .. } && id == t) {
            assert(sr =~= Seq::<(Direction, u32)>::empty());
            assert(split_kinds(removed(n, t)) =~= split_kinds(n).remove(0));
        } else {
            lemma_remove_found(*left, t);
            lemma_remove_found(*right, t);
            let (bl, rl, l2) = remove_spec(*left, t);
            if bl {
                assert(*left is Split);
                lemma_remove_drops_one_split(*left, t);
                let j = choose|j: int| 0 <= j < sl.len() && split_kinds(removed(*left, t)) == sl.remove(j);
                assert(split_kinds(removed(n, t)) =~= split_kinds(n).remove(1 + j));
            } else {
                assert(l2 == *left);
                lemma_concat_contains(leaves(*left), leaves(*right), t);
                assert(*right is Split);
                lemma_remove_drops_one_split(*right, t);
                let j = choose|j: int| 0 <= j < sr.len() && split_kinds(removed(*right, t)) == sr.remove(j);
                assert(split_kinds(removed(n, t)) =~= split_kinds(n).remove(1 + sl.len() + j));
            }
        }
    }
}

} // verus!
