use kinetix::backend::{WindowEvent, WindowInfo};
use kinetix::config::{Config, LayoutType};
use kinetix::engine::Engine;
use kinetix::state::Geometry;

fn info(id: u64, class: &str) -> WindowInfo {
    WindowInfo {
        id,
        class: class.to_string(),
        title: format!("Window {}", id),
        geometry: Geometry::new(0, 0, 400, 300),
        is_tileable: true,
    }
}

#[test]
fn test_config_defaults() {
    let c = Config::default();
    assert_eq!(c.layout, LayoutType::Dwindle);
    assert_eq!(c.gaps, 0);
    assert_eq!(c.inner_gaps, 0);
    assert_eq!(c.drag_threshold, 20);
    assert!(c.restore_on_exit);
    assert!(!c.debug);
    assert!(!c.force_sudo);
    assert_eq!(c.master_ratio_permille, 500);
    assert_eq!(c.max_windows, 0);
    assert_eq!(c.swap_zone_permille, 400);
}

#[test]
fn test_layout_names() {
    assert_eq!(LayoutType::Dwindle.name(), "dwindle");
    assert_eq!(LayoutType::MasterStack.name(), "master-stack");
    assert_eq!(LayoutType::Floating.name(), "floating");
}

#[test]
fn test_engine_lays_out_created_windows() {
    let mut engine = Engine::new(Config::default());
    let screen = Geometry::new(0, 0, 1000, 500);
    let first = engine.handle_event(WindowEvent::WindowCreated { info: info(1, "konsole"), screen_bounds: Some(screen) });
    assert_eq!(first.len(), 1);
    assert_eq!(first[&1], screen);
    // The area is recorded once it has been sent.
    assert_eq!(engine.state_manager().windows[&1].current_geometry, Geometry::new(0, 0, 400, 300));
    engine.commit_geometry(1, first[&1]);
    assert_eq!(engine.state_manager().windows[&1].current_geometry, screen);
    assert_eq!(engine.state_manager().windows[&1].original_geometry, Geometry::new(0, 0, 400, 300));

    let second = engine.handle_event(WindowEvent::WindowCreated { info: info(2, "firefox"), screen_bounds: None });
    assert_eq!(second.len(), 2);
    let mut tiles = vec![second[&1], second[&2]];
    tiles.sort_by_key(|g| g.x);
    assert_eq!(tiles, vec![Geometry::new(0, 0, 500, 500), Geometry::new(500, 0, 500, 500)]);

    // An ignored class is registered but never tiled.
    let third = engine.handle_event(WindowEvent::WindowCreated { info: info(3, "plasmashell"), screen_bounds: None });
    assert_eq!(third.len(), 2);
    assert!(!engine.state_manager().windows[&3].is_tiled);

    let after_destroy = engine.handle_event(WindowEvent::WindowDestroyed(1));
    assert_eq!(after_destroy.len(), 1);
    assert_eq!(after_destroy[&2], screen);
    assert!(!engine.state_manager().windows.contains_key(&1));
}

#[test]
fn test_engine_moves_and_quiet_events() {
    let mut engine = Engine::new(Config::default());
    engine.set_screen_bounds(Geometry::new(0, 0, 1000, 500));
    engine.handle_event(WindowEvent::WindowCreated { info: info(1, "a"), screen_bounds: None });
    let moved = Geometry::new(3, 4, 50, 60);
    let r = engine.handle_event(WindowEvent::WindowMovedResized { id: 1, geometry: moved, is_user_drag: false });
    assert!(r.is_empty());
    assert_eq!(engine.state_manager().windows[&1].current_geometry, moved);

    let dragged = engine.handle_event(WindowEvent::WindowMovedResized { id: 1, geometry: moved, is_user_drag: true });
    assert_eq!(dragged[&1], Geometry::new(0, 0, 1000, 500));
    assert!(engine.handle_event(WindowEvent::WindowFocused(1)).is_empty());
    assert!(engine.handle_event(WindowEvent::ScriptReady).is_empty());
}

#[test]
fn test_engine_floating_and_restore() {
    let mut cfg = Config::default();
    cfg.layout = LayoutType::Floating;
    let mut engine = Engine::new(cfg);
    let g = Geometry::new(5, 5, 100, 100);
    engine.state_manager_mut().register_window(1, "a".to_string(), "a".to_string(), g, true);
    engine.state_manager_mut().register_window(2, "b".to_string(), "b".to_string(), g, false);
    assert!(engine.apply_layout().is_empty());
    assert_eq!(engine.state_manager().windows[&1].current_geometry, g);

    engine.state_manager_mut().update_geometry(1, Geometry::new(0, 0, 1, 1));
    let restore = engine.restore_all_windows();
    assert_eq!(restore, vec![(1, g)]);
}

#[test]
fn test_engine_master_stack_and_drop() {
    let mut cfg = Config::default();
    cfg.layout = LayoutType::MasterStack;
    cfg.master_ratio_permille = 600;
    let mut engine = Engine::new(cfg);
    engine.set_screen_bounds(Geometry::new(0, 0, 1000, 1000));
    let g = Geometry::new(0, 0, 10, 10);
    engine.state_manager_mut().register_window(1, "a".to_string(), "a".to_string(), g, true);
    let single = engine.apply_layout();
    assert_eq!(single[&1], Geometry::new(0, 0, 1000, 1000));
    engine.state_manager_mut().register_window(2, "b".to_string(), "b".to_string(), g, true);
    let plan = engine.handle_drag_drop(2, 300, 300);
    assert_eq!(plan.len(), 2);
    let mut widths = vec![plan[&1].width, plan[&2].width];
    widths.sort();
    assert_eq!(widths, vec![400, 600]);
}

#[test]
fn test_engine_commit_geometry_one_window() {
    let mut engine = Engine::new(Config::default());
    engine.set_screen_bounds(Geometry::new(0, 0, 1000, 800));
    let g = Geometry::new(0, 0, 10, 10);
    engine.state_manager_mut().register_window(1, "a".to_string(), "a".to_string(), g, true);
    engine.state_manager_mut().register_window(2, "b".to_string(), "b".to_string(), g, true);
    let plan = engine.apply_layout();
    assert_eq!(plan.len(), 2);
    // Laying out records nothing by itself.
    assert_eq!(engine.state_manager().windows[&1].current_geometry, g);
    assert_eq!(engine.state_manager().windows[&2].current_geometry, g);
    // Only the window whose area was sent is recorded.
    engine.commit_geometry(1, plan[&1]);
    assert_eq!(engine.state_manager().windows[&1].current_geometry, plan[&1]);
    assert_eq!(engine.state_manager().windows[&2].current_geometry, g);
    assert_eq!(engine.state_manager().windows[&1].original_geometry, g);
    // An unknown window is ignored.
    engine.commit_geometry(9, plan[&1]);
    assert_eq!(engine.state_manager().windows.len(), 2);
}

#[test]
fn test_engine_drop_fits_check() {
    let mut engine = Engine::new(Config::default());
    engine.set_screen_bounds(Geometry::new(0, 0, 1000, 800));
    let g = Geometry::new(0, 0, 10, 10);
    engine.state_manager_mut().register_window(1, "a".to_string(), "a".to_string(), g, true);
    engine.state_manager_mut().register_window(2, "b".to_string(), "b".to_string(), g, true);
    assert!(engine.drop_fits_check(2, 500, 400));
    // A tiled window whose right edge lies past i32::MAX cannot be tested
    // against a point to its right.
    engine.state_manager_mut().update_geometry(1, Geometry::new(i32::MAX - 5, 0, 100, 100));
    assert!(!engine.drop_fits_check(2, i32::MAX - 1, 10));
    // The dragged window itself is not tested.
    assert!(engine.drop_fits_check(1, i32::MAX - 1, 10));
}
