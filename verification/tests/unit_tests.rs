use kinetix::engine::drag_detect::{DragDetector, DropZone};
use kinetix::engine::layouts::{DwindleLayout, FloatingLayout, LayoutStrategy, MasterStackLayout};
use kinetix::engine::tree::{geometries_fit_check, Direction, Node};
use kinetix::state::{Geometry, StateManager};
use std::collections::HashMap;

#[test]
fn test_geometry_center_and_contains() {
    let geom = Geometry::new(100, 100, 400, 300);
    assert_eq!(geom.center(), (300, 250));
    assert!(geom.contains_point(150, 150));
    assert!(!geom.contains_point(50, 50));
    assert!(!geom.contains_point(500, 400));
}

#[test]
fn test_state_manager_tileable_filters() {
    let sm = StateManager::new();
    assert!(!sm.is_tileable("plasmashell", None));
    assert!(!sm.is_tileable("kinetix", None));
    assert!(!sm.is_tileable("yakuake", None));
    assert!(!sm.is_tileable("some-app", Some("DIALOG")));
    assert!(sm.is_tileable("firefox", Some("NORMAL")));
}

#[test]
fn test_dwindle_layout_computation() {
    let layout = DwindleLayout;
    let screen = Geometry::new(0, 0, 1920, 1080);
    let windows = vec![1, 2, 3];

    let geoms = layout.compute_layout(&windows, screen, 10, 5);
    assert_eq!(geoms.len(), 3);
    assert!(geoms.contains_key(&1));
    assert!(geoms.contains_key(&2));
    assert!(geoms.contains_key(&3));
}

#[test]
fn test_master_stack_layout_computation() {
    let layout = MasterStackLayout { master_ratio_permille: 600 };
    let screen = Geometry::new(0, 0, 1000, 1000);
    let windows = vec![1, 2, 3];

    let geoms = layout.compute_layout(&windows, screen, 0, 0);
    assert_eq!(geoms.len(), 3);
    assert_eq!(geoms[&1].width, 600);
    assert_eq!(geoms[&2].width, 400);
    assert_eq!(geoms[&3].width, 400);
}

#[test]
fn test_drag_detector_edge_and_center() {
    let detector = DragDetector::new();
    let screen = Geometry::new(0, 0, 1920, 1080);
    let mut tiled = HashMap::new();
    tiled.insert(100, Geometry::new(100, 100, 800, 600));

    // Top edge drop
    let drop_top = detector.detect_drop_zone(500, 10, screen, &tiled, 200);
    assert_eq!(drop_top, DropZone::EdgeTop);

    // Center swap drop
    let drop_center = detector.detect_drop_zone(400, 300, screen, &tiled, 200);
    assert_eq!(drop_center, DropZone::CenterSwap { target_id: 100 });
}

#[test]
fn test_bsp_tree_insert_remove_swap() {
    let mut root = Node::new_window(1, Geometry::new(0, 0, 100, 100));
    root.insert(2, Geometry::new(0, 0, 100, 100), None);

    let mut geoms = HashMap::new();
    root.compute_geometries(Geometry::new(0, 0, 1000, 1000), 0, &mut geoms);
    assert_eq!(geoms.len(), 2);

    root.swap(1, 2);
    let mut geoms_swapped = HashMap::new();
    root.compute_geometries(Geometry::new(0, 0, 1000, 1000), 0, &mut geoms_swapped);
    assert_eq!(geoms_swapped.len(), 2);
}

#[test]
fn test_geometry_center_lies_inside() {
    let g = Geometry::new(-50, 20, 7, 3);
    let (cx, cy) = g.center();
    assert_eq!((cx, cy), (-47, 21));
    assert!(g.contains_point(cx, cy));
    // The right and bottom edges are outside.
    assert!(!g.contains_point(-43, 21));
    assert!(!g.contains_point(-47, 23));
    assert!(g.contains_point(-50, 20));
}

#[test]
fn test_tileable_is_case_insensitive_and_by_substring() {
    let sm = StateManager::new();
    assert!(!sm.is_tileable("PlasmaShell", None));
    assert!(!sm.is_tileable("org.kde.krunner", None));
    assert!(!sm.is_tileable("kded6", None));
    assert!(!sm.is_tileable("my-desktop-app", None));
    assert!(!sm.is_tileable("app", Some("PopupMenu")));
    assert!(!sm.is_tileable("app", Some("Splash")));
    assert!(!sm.is_tileable("app", Some("_NET_WM_WINDOW_TYPE_TOOLBAR")));
    assert!(!sm.is_tileable("app", Some("notification")));
    assert!(!sm.is_tileable("app", Some("DOCK")));
    assert!(sm.is_tileable("konsole", Some("normal")));
    assert!(sm.is_tileable("firefox", None));
}

#[test]
fn test_register_update_unregister() {
    let mut sm = StateManager::new();
    let g = Geometry::new(1, 2, 3, 4);
    sm.register_window(7, "app".to_string(), "Title".to_string(), g, true);
    // A second registration of the same id changes nothing.
    sm.register_window(7, "other".to_string(), "Other".to_string(), Geometry::new(9, 9, 9, 9), false);
    assert_eq!(sm.windows.len(), 1);
    assert_eq!(sm.windows[&7].class, "app");
    assert!(sm.windows[&7].is_tiled);
    assert!(!sm.windows[&7].is_being_dragged);

    let g2 = Geometry::new(10, 20, 30, 40);
    sm.update_geometry(7, g2);
    sm.update_geometry(8, g2);
    assert_eq!(sm.windows[&7].current_geometry, g2);
    assert_eq!(sm.windows[&7].original_geometry, g);
    assert_eq!(sm.windows.len(), 1);

    let removed = sm.unregister_window(7).unwrap();
    assert_eq!(removed.id, 7);
    assert_eq!(removed.title, "Title");
    assert!(sm.windows.is_empty());
    assert!(sm.unregister_window(7).is_none());
}

#[test]
fn test_tiled_window_ids() {
    let mut sm = StateManager::new();
    let g = Geometry::new(0, 0, 10, 10);
    sm.register_window(1, "a".to_string(), "a".to_string(), g, true);
    sm.register_window(2, "b".to_string(), "b".to_string(), g, false);
    sm.register_window(3, "c".to_string(), "c".to_string(), g, true);
    let mut ids = sm.get_tiled_window_ids();
    ids.sort();
    assert_eq!(ids, vec![1, 3]);
    assert!(StateManager::new().get_tiled_window_ids().is_empty());
}

#[test]
fn test_dwindle_exact_tiles() {
    let geoms = DwindleLayout.compute_layout(&[1, 2, 3], Geometry::new(0, 0, 1920, 1080), 10, 5);
    assert_eq!(geoms[&1], Geometry::new(10, 10, 948, 1060));
    assert_eq!(geoms[&2], Geometry::new(963, 10, 947, 528));
    assert_eq!(geoms[&3], Geometry::new(963, 543, 947, 527));
    assert!(DwindleLayout.compute_layout(&[], Geometry::new(0, 0, 1920, 1080), 10, 5).is_empty());
    let one = DwindleLayout.compute_layout(&[4], Geometry::new(5, 6, 100, 50), 2, 8);
    assert_eq!(one[&4], Geometry::new(7, 8, 96, 46));
}

#[test]
fn test_dwindle_tiles_do_not_overlap() {
    let geoms = DwindleLayout.compute_layout(&[1, 2, 3, 4, 5], Geometry::new(0, 0, 1600, 900), 0, 4);
    let tiles: Vec<Geometry> = (1..=5u64).map(|k| geoms[&k]).collect();
    for (i, a) in tiles.iter().enumerate() {
        for b in tiles.iter().skip(i + 1) {
            let disjoint = a.x + a.width as i32 <= b.x
                || b.x + b.width as i32 <= a.x
                || a.y + a.height as i32 <= b.y
                || b.y + b.height as i32 <= a.y;
            assert!(disjoint, "{:?} overlaps {:?}", a, b);
        }
    }
}

#[test]
fn test_master_stack_exact_tiles() {
    let layout = MasterStackLayout { master_ratio_permille: 600 };
    let geoms = layout.compute_layout(&[1, 2, 3], Geometry::new(0, 0, 1000, 1000), 0, 0);
    assert_eq!(geoms[&1], Geometry::new(0, 0, 600, 1000));
    assert_eq!(geoms[&2], Geometry::new(600, 0, 400, 500));
    assert_eq!(geoms[&3], Geometry::new(600, 500, 400, 500));

    let half = MasterStackLayout { master_ratio_permille: 500 };
    let g = half.compute_layout(&[1, 2, 3], Geometry::new(0, 0, 1000, 1000), 10, 10);
    // usable 980x980 at (10, 10); master 490 - 5 = 485 wide
    assert_eq!(g[&1], Geometry::new(10, 10, 485, 980));
    assert_eq!(g[&2], Geometry::new(505, 10, 485, 485));
    assert_eq!(g[&3], Geometry::new(505, 505, 485, 485));

    let single = half.compute_layout(&[9], Geometry::new(0, 0, 800, 600), 4, 10);
    assert_eq!(single[&9], Geometry::new(4, 4, 792, 592));
}

#[test]
fn test_floating_layout_assigns_nothing() {
    let geoms = FloatingLayout.compute_layout(&[1, 2], Geometry::new(0, 0, 100, 100), 0, 0);
    assert!(geoms.is_empty());
}

#[test]
fn test_drag_detector_all_zones() {
    let detector = DragDetector::new();
    let screen = Geometry::new(0, 0, 1920, 1080);
    let mut tiled = HashMap::new();
    tiled.insert(100, Geometry::new(100, 100, 800, 600));
    tiled.insert(200, Geometry::new(1000, 100, 800, 600));
    assert_eq!(detector.detect_drop_zone(500, 30, screen, &tiled, 1), DropZone::EdgeTop);
    assert_eq!(detector.detect_drop_zone(500, 1050, screen, &tiled, 1), DropZone::EdgeBottom);
    assert_eq!(detector.detect_drop_zone(30, 500, screen, &tiled, 1), DropZone::EdgeLeft);
    assert_eq!(detector.detect_drop_zone(1890, 500, screen, &tiled, 1), DropZone::EdgeRight);
    assert_eq!(
        detector.detect_drop_zone(1200, 300, screen, &tiled, 1),
        DropZone::CenterSwap { target_id: 200 }
    );
    // The dragged window itself is never a target.
    assert_eq!(detector.detect_drop_zone(1200, 300, screen, &tiled, 200), DropZone::NoZone);
    // Between the windows there is nothing to drop on.
    assert_eq!(detector.detect_drop_zone(950, 300, screen, &tiled, 1), DropZone::NoZone);
}

#[test]
fn test_tree_insert_at_target_and_remove() {
    let g = Geometry::new(0, 0, 100, 100);
    let mut root = Node::new_window(1, g);
    assert!(root.insert(2, g, Some(1)));
    assert!(root.insert(3, g, Some(2)));
    assert!(!root.insert(4, g, Some(99)));

    let mut out = HashMap::new();
    root.compute_geometries(Geometry::new(0, 0, 1000, 800), 0, &mut out);
    assert_eq!(out[&1], Geometry::new(0, 0, 500, 800));
    assert_eq!(out[&2], Geometry::new(500, 0, 250, 800));
    assert_eq!(out[&3], Geometry::new(750, 0, 250, 800));

    // Removing 3: its split's parent takes the sibling in its place.
    let (found, replacement) = root.remove(3);
    assert!(found);
    assert!(replacement.is_none());
    let mut out = HashMap::new();
    root.compute_geometries(Geometry::new(0, 0, 1000, 800), 0, &mut out);
    assert_eq!(out.len(), 2);
    assert_eq!(out[&2], Geometry::new(500, 0, 500, 800));

    // Removing a direct child of the root hands back the sibling.
    let (found, replacement) = root.remove(1);
    assert!(found);
    let rest = replacement.unwrap();
    let mut out = HashMap::new();
    rest.compute_geometries(Geometry::new(0, 0, 1000, 800), 0, &mut out);
    assert_eq!(out.len(), 1);
    assert_eq!(out[&2], Geometry::new(0, 0, 1000, 800));

    let (found, replacement) = root.remove(42);
    assert!(!found);
    assert!(replacement.is_none());
}

#[test]
fn test_tree_insert_then_remove_restores() {
    let g = Geometry::new(0, 0, 10, 10);
    let mut root = Node::new_window(1, g);
    root.insert(2, g, None);
    root.insert(3, g, Some(2));
    let mut before = HashMap::new();
    root.compute_geometries(Geometry::new(0, 0, 1200, 600), 8, &mut before);

    root.insert(4, g, Some(1));
    let (found, replacement) = root.remove(4);
    assert!(found);
    if let Some(r) = replacement {
        root = r;
    }
    let mut after = HashMap::new();
    root.compute_geometries(Geometry::new(0, 0, 1200, 600), 8, &mut after);
    assert_eq!(before, after);
}

#[test]
fn test_tree_swap_twice_restores() {
    let g = Geometry::new(0, 0, 10, 10);
    let mut root = Node::new_window(1, g);
    root.insert(2, g, None);
    root.insert(3, g, Some(2));
    let bounds = Geometry::new(0, 0, 1000, 1000);
    let mut before = HashMap::new();
    root.compute_geometries(bounds, 0, &mut before);

    root.swap(1, 3);
    let mut swapped = HashMap::new();
    root.compute_geometries(bounds, 0, &mut swapped);
    assert_eq!(swapped[&1], before[&3]);
    assert_eq!(swapped[&3], before[&1]);
    assert_eq!(swapped[&2], before[&2]);

    root.swap(1, 3);
    let mut again = HashMap::new();
    root.compute_geometries(bounds, 0, &mut again);
    assert_eq!(again, before);

    // A swap with an absent id does nothing.
    root.swap(1, 77);
    let mut same = HashMap::new();
    root.compute_geometries(bounds, 0, &mut same);
    assert_eq!(same, before);
}

#[test]
fn test_tree_vertical_split_with_gaps() {
    let g = Geometry::new(0, 0, 10, 10);
    let root = Node::Split {
        direction: Direction::Vertical,
        ratio_permille: 250,
        left: Box::new(Node::new_window(1, g)),
        right: Box::new(Node::new_window(2, g)),
    };
    let mut out = HashMap::new();
    root.compute_geometries(Geometry::new(10, 20, 400, 1000), 10, &mut out);
    // 1000 * 0.25 = 250, less half the gap
    assert_eq!(out[&1], Geometry::new(10, 20, 400, 245));
    assert_eq!(out[&2], Geometry::new(10, 270, 400, 750));
    let copy = root.clone();
    let mut out2 = HashMap::new();
    copy.compute_geometries(Geometry::new(10, 20, 400, 1000), 10, &mut out2);
    assert_eq!(out, out2);
}

#[test]
fn test_tree_parts_are_at_least_one_pixel() {
    let g = Geometry::new(0, 0, 10, 10);
    let mut root = Node::new_window(1, g);
    root.insert(2, g, None);
    let mut out = HashMap::new();
    root.compute_geometries(Geometry::new(0, 0, 4, 4), 20, &mut out);
    assert_eq!(out[&1].width, 1);
    assert_eq!(out[&2].width, 1);
}

#[test]
fn test_master_stack_tiles_do_not_overlap() {
    let layout = MasterStackLayout { master_ratio_permille: 550 };
    let geoms = layout.compute_layout(&[1, 2, 3, 4, 5], Geometry::new(0, 0, 1600, 900), 6, 4);
    let tiles: Vec<Geometry> = (1..=5u64).map(|k| geoms[&k]).collect();
    for (i, a) in tiles.iter().enumerate() {
        for b in tiles.iter().skip(i + 1) {
            let disjoint = a.x + a.width as i32 <= b.x
                || b.x + b.width as i32 <= a.x
                || a.y + a.height as i32 <= b.y
                || b.y + b.height as i32 <= a.y;
            assert!(disjoint, "{:?} overlaps {:?}", a, b);
        }
    }
}

#[test]
fn test_tree_layout_fit_check() {
    let g = Geometry::new(0, 0, 10, 10);
    let mut root = Node::new_window(1, g);
    root.insert(2, g, None);
    assert!(geometries_fit_check(&root, Geometry::new(0, 0, 1000, 1000), 10));
    assert!(!geometries_fit_check(&root, Geometry::new(i32::MAX - 10, 0, 1000, 1000), 0));
    assert!(geometries_fit_check(&Node::new_window(3, g), Geometry::new(i32::MAX, 0, u32::MAX, 1), 0));
}

#[test]
fn test_tree_tiles_bounds_without_gap() {
    let g = Geometry::new(0, 0, 10, 10);
    let mut root = Node::new_window(1, g);
    root.insert(2, g, None);
    root.insert(3, g, Some(2));
    root.insert(4, g, Some(1));
    let bounds = Geometry::new(-50, 30, 1001, 777);
    let mut out = HashMap::new();
    root.compute_geometries(bounds, 0, &mut out);
    assert_eq!(out.len(), 4);
    let mut area: u64 = 0;
    for g in out.values() {
        assert!(g.x >= bounds.x && g.x + g.width as i32 <= bounds.x + bounds.width as i32);
        assert!(g.y >= bounds.y && g.y + g.height as i32 <= bounds.y + bounds.height as i32);
        area += g.width as u64 * g.height as u64;
    }
    assert_eq!(area, 1001 * 777);
    // Every pixel lies in exactly one window's area.
    for px in (bounds.x..bounds.x + 1001).step_by(7) {
        for py in (bounds.y..bounds.y + 777).step_by(5) {
            let n = out.values().filter(|g| g.contains_point(px, py)).count();
            assert_eq!(n, 1, "({}, {})", px, py);
        }
    }
}

#[test]
fn test_dwindle_repeated_window_keeps_one_tile() {
    let geoms = DwindleLayout.compute_layout(&[1, 2, 1, 3], Geometry::new(0, 0, 1600, 900), 0, 0);
    assert_eq!(geoms.len(), 3);
    // Window 1 keeps the tile of its later position.
    assert_eq!(geoms[&1], Geometry::new(800, 450, 400, 450));
    assert_eq!(geoms[&2], Geometry::new(800, 0, 800, 450));
    assert_eq!(geoms[&3], Geometry::new(1200, 450, 400, 450));
    let tiles = [geoms[&1], geoms[&2], geoms[&3]];
    for (i, a) in tiles.iter().enumerate() {
        for b in tiles.iter().skip(i + 1) {
            let disjoint = a.x + a.width as i32 <= b.x
                || b.x + b.width as i32 <= a.x
                || a.y + a.height as i32 <= b.y
                || b.y + b.height as i32 <= a.y;
            assert!(disjoint, "{:?} overlaps {:?}", a, b);
        }
    }
}

#[test]
fn test_dwindle_tiles_abut_one_gap_apart() {
    let ids = [1u64, 2, 3, 4, 5];
    let geoms = DwindleLayout.compute_layout(&ids, Geometry::new(0, 0, 1600, 900), 10, 6);
    // usable area: (10, 10) 1580 x 880
    assert_eq!((geoms[&1].x, geoms[&1].y), (10, 10));
    for i in 0..ids.len() - 1 {
        let a = geoms[&ids[i]];
        let b = geoms[&ids[i + 1]];
        if i % 2 == 0 {
            assert_eq!(b.x, a.x + a.width as i32 + 6);
            assert_eq!(b.y, a.y);
        } else {
            assert_eq!(b.y, a.y + a.height as i32 + 6);
            assert_eq!(b.x, a.x);
        }
    }
    let last = geoms[&5];
    assert_eq!(last.x + last.width as i32, 10 + 1580);
    assert_eq!(last.y + last.height as i32, 10 + 880);
}

#[test]
fn test_master_stack_closed_form() {
    let layout = MasterStackLayout { master_ratio_permille: 550 };
    let ids = [7u64, 8, 9, 10];
    let g = layout.compute_layout(&ids, Geometry::new(0, 0, 1200, 1000), 20, 8);
    // usable (20, 20) 1160 x 960; master 1160 * 0.55 = 638, less 4
    let mw = 634;
    assert_eq!(g[&7], Geometry::new(20, 20, mw, 960));
    // stack height (960 - 8 * 2) / 3 = 314
    let sh = 314;
    for k in 1..ids.len() {
        let t = g[&ids[k]];
        assert_eq!(t.x, 20 + mw as i32 + 8);
        assert_eq!(t.y, 20 + (k as i32 - 1) * (sh + 8));
        assert_eq!(t.width, 1160 - (mw + 8));
        assert_eq!(t.height, sh as u32);
    }
}
