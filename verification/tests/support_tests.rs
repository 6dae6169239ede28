use kinetix::backend::wayland_bridge::{overlay_request_from_fields, parse_overlay_payload, OverlayRequest};
use kinetix::backend::x11::{is_user_drag, should_manage, window_class_from_wm_class};
use kinetix::overlay::{
    compute_pixel, hollow_inner_size, OverlayPlace, OverlayState, OverlayStep, VisualMasks, MIN_SIDE_PX,
};
use kinetix::startup::{check_sudo, select_backend, BackendKind, SudoCheck};
use kinetix::state::StateManager;
use kinetix::text::str_contains;

#[test]
fn test_sudo_check() {
    assert_eq!(check_sudo(1000, false), SudoCheck::Proceed);
    assert_eq!(check_sudo(1000, true), SudoCheck::Proceed);
    assert_eq!(check_sudo(0, false), SudoCheck::Refuse);
    assert_eq!(check_sudo(0, true), SudoCheck::ProceedAsRoot);
}

#[test]
fn test_backend_selection() {
    assert_eq!(select_backend(Some("wayland-0"), true, true), Some(BackendKind::WaylandBridge));
    assert_eq!(select_backend(Some(""), true, true), Some(BackendKind::X11));
    assert_eq!(select_backend(Some("wayland-0"), false, true), Some(BackendKind::X11));
    assert_eq!(select_backend(None, true, false), None);
    assert_eq!(select_backend(Some("wayland-0"), false, false), None);
}

#[test]
fn test_pixel_from_visual_masks() {
    let visuals = vec![
        VisualMasks { visual_id: 1, red_mask: 0x1f, green_mask: 0x3e0, blue_mask: 0x7c00 },
        VisualMasks { visual_id: 33, red_mask: 0xff0000, green_mask: 0xff00, blue_mask: 0xff },
    ];
    assert_eq!(compute_pixel(&visuals, 33, 0x3D, 0x9A, 0xE8), 0x3D9AE8);
    assert_eq!(compute_pixel(&visuals, 1, 1, 1, 1), 1 | (1 << 5) | (1 << 10));
    assert_eq!(compute_pixel(&visuals, 99, 0x3D, 0x9A, 0xE8), 0x3D9AE8);
    assert_eq!(compute_pixel(&[], 99, 1, 2, 3), 0x010203);
}

#[test]
fn test_hollow_border_hole() {
    assert_eq!(hollow_inner_size(100, 50), Some((90, 40)));
    assert_eq!(hollow_inner_size(10, 50), None);
    assert_eq!(hollow_inner_size(12, 12), Some((2, 2)));
    assert_eq!(hollow_inner_size(0, 0), None);
}

#[test]
fn test_overlay_payload() {
    let q = parse_overlay_payload(r#"{"x":10,"y":-20,"w":300,"h":200,"screenW":1920,"screenH":1080,"blocked":true}"#)
        .unwrap();
    assert_eq!(
        q,
        OverlayRequest { x: 10, y: -20, w: 300, h: 200, screen_w: 1920, screen_h: 1080, blocked: true }
    );
    let d = parse_overlay_payload("{}").unwrap();
    assert_eq!(d, OverlayRequest { x: 0, y: 0, w: 100, h: 100, screen_w: 0, screen_h: 0, blocked: false });
    let small = parse_overlay_payload(r#"{"w":0,"h":-5,"screenW":-1}"#).unwrap();
    assert_eq!((small.w, small.h, small.screen_w), (1, 1, 0));
    assert!(parse_overlay_payload("not json").is_none());
    assert!(parse_overlay_payload("").is_none());
}

#[test]
fn test_overlay_fields_defaults_and_casts() {
    let r = overlay_request_from_fields(Some(1 << 33), None, Some(-3), None, Some(5), None, Some(false));
    assert_eq!(r, OverlayRequest { x: 0, y: 0, w: 1, h: 100, screen_w: 5, screen_h: 0, blocked: false });
}

#[test]
fn test_window_class_from_wm_class() {
    assert_eq!(window_class_from_wm_class(b"xterm\0XTerm\0"), "XTerm");
    assert_eq!(window_class_from_wm_class(b"konsole\0konsole"), "konsole");
    assert_eq!(window_class_from_wm_class(b"a\0\0b\0\0"), "b");
    assert_eq!(window_class_from_wm_class(b""), "x11-window");
    assert_eq!(window_class_from_wm_class(b"\0\0"), "x11-window");
    assert_eq!(window_class_from_wm_class(b"ab\xffc"), "ab\u{FFFD}c");
}

#[test]
fn test_text_helpers() {
    // Classes are lowered before they are matched.
    assert!(!StateManager::new().is_tileable("KINETIX", None));
    assert!(!StateManager::new().is_tileable("x", Some("ÜberDialog")));
    assert!(str_contains("org.kde.plasmashell", "plasma"));
    assert!(str_contains("abc", ""));
    assert!(!str_contains("ab", "abc"));
    assert!(!str_contains("dialog", "Dialog"));
    assert!(str_contains("ääb", "äb"));
}

#[test]
fn test_x11_management_rules() {
    assert!(should_manage(false, true));
    assert!(!should_manage(true, true));
    assert!(!should_manage(false, false));
    assert!(is_user_drag(None));
    assert!(!is_user_drag(Some(0)));
    assert!(!is_user_drag(Some(99_999_999)));
    assert!(is_user_drag(Some(100_000_000)));
}

#[test]
fn test_overlay_payload_reads_each_field_from_its_key() {
    let q = parse_overlay_payload(r#"{"y":2,"x":1,"h":4,"w":3,"screenH":6,"screenW":5,"blocked":false}"#).unwrap();
    assert_eq!((q.x, q.y, q.w, q.h, q.screen_w, q.screen_h, q.blocked), (1, 2, 3, 4, 5, 6, false));
    // Members of the wrong JSON type count as missing.
    let t = parse_overlay_payload(r#"{"x":"1","w":2.5,"screenW":7,"blocked":1}"#).unwrap();
    assert_eq!((t.x, t.w, t.screen_w, t.blocked), (0, 100, 7, false));
    // A JSON value that is no object has no members.
    let a = parse_overlay_payload("[1,2]").unwrap();
    assert_eq!((a.x, a.y, a.w, a.h), (0, 0, 100, 100));
}

#[test]
fn test_overlay_state_machine() {
    let s0 = OverlayState::initial();
    assert_eq!(s0, OverlayState { visible: false, cur_w: 8, cur_h: 8 });
    assert_eq!(s0.on_expose(), OverlayStep { place: None, map: false, unmap: false, redraw: false });
    let (s1, step) = s0.on_show(10, -4, 300, 5);
    assert_eq!(s1, OverlayState { visible: true, cur_w: 300, cur_h: MIN_SIDE_PX });
    assert_eq!(
        step,
        OverlayStep { place: Some(OverlayPlace { x: 10, y: -4, w: 300, h: 12 }), map: true, unmap: false, redraw: true }
    );
    // A second show moves the window but does not map it again.
    let (s2, step) = s1.on_show(0, 0, 50, 60);
    assert!(!step.map && step.redraw);
    assert_eq!(s2.on_expose().redraw, true);
    let (s3, step) = s2.on_hide();
    assert_eq!(s3, OverlayState { visible: false, cur_w: 50, cur_h: 60 });
    assert_eq!(step, OverlayStep { place: None, map: false, unmap: true, redraw: false });
    // Hiding a hidden overlay does nothing.
    let (s4, step) = s3.on_hide();
    assert_eq!(s4, s3);
    assert_eq!(step, OverlayStep { place: None, map: false, unmap: false, redraw: false });
}
