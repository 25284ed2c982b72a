use lib::model::{Orientation, Region};
use lib::selector::{begin, hwnd, take_result, Selector, VK_ESCAPE, VK_RETURN};
use lib::win::POINT;

fn sel() -> Selector {
    Selector::new(9, (-1920, 0), 3840, 1080)
}

#[test]
fn points_closer_than_the_sampling_distance_are_dropped() {
    let mut s = sel();
    s.add_point(0, 0);
    s.add_point(2, 2);
    assert_eq!(s.current.len(), 1);
    s.add_point(3, 2);
    assert_eq!(s.current.len(), 2);
    s.add_point(3, -2);
    assert_eq!(s.current.len(), 2);
    s.add_point(3, -3);
    assert_eq!(s.current.len(), 3);
}

#[test]
fn a_loop_becomes_a_region_in_screen_coordinates() {
    let mut s = sel();
    s.on_lbutton_down(100, 100);
    assert!(s.on_mouse_move(200, 100));
    assert!(s.on_mouse_move(200, 180));
    s.on_lbutton_up(100, 180);
    assert!(!s.pressed);
    assert!(s.current.is_empty());
    assert_eq!(s.regions.len(), 1);
    let r = &s.regions[0];
    assert_eq!((r.x, r.y, r.w, r.h), (-1820, 100, 100, 80));
    assert_eq!(r.points[0].x, -1820);
}

#[test]
fn short_or_thin_loops_are_dropped() {
    let mut s = sel();
    s.on_lbutton_down(0, 0);
    s.on_lbutton_up(50, 50);
    assert!(s.regions.is_empty());
    s.on_lbutton_down(0, 0);
    s.on_mouse_move(100, 1);
    s.on_lbutton_up(200, 0);
    assert!(s.regions.is_empty());
}

#[test]
fn moving_without_button_does_nothing() {
    let mut s = sel();
    assert!(!s.on_mouse_move(10, 10));
    assert!(s.current.is_empty());
}

#[test]
fn right_button_enter_and_esc_finish() {
    let mut s = sel();
    assert!(!s.on_key(0x41));
    assert!(!s.finished);
    assert!(s.on_key(VK_RETURN));
    assert!(s.finished);
    let mut s = sel();
    assert!(s.on_key(VK_ESCAPE));
    assert!(s.finished);
    let mut s = sel();
    s.on_rbutton();
    assert!(s.finished);
}

#[test]
fn begin_resets_and_take_result_empties() {
    let mut o = Some(sel());
    let old = vec![Region::from_points(vec![POINT { x: 1, y: 2 }, POINT { x: 30, y: 40 }])];
    begin(&mut o, &old, Orientation::Horizontal);
    {
        let s = o.as_mut().unwrap();
        assert_eq!(s.reference.len(), 1);
        assert_eq!((s.reference[0].x, s.reference[0].w), (1, 29));
        assert_eq!(s.orientation, Orientation::Horizontal);
        assert!(!s.finished && !s.pressed);
        s.on_lbutton_down(0, 0);
        s.on_mouse_move(100, 0);
        s.on_mouse_move(100, 100);
        s.on_lbutton_up(0, 100);
    }
    let got = take_result(&mut o);
    assert_eq!(got.len(), 1);
    assert!(take_result(&mut o).is_empty());
    assert_eq!(hwnd(&o), 9);
    let mut none: Option<Selector> = None;
    assert!(take_result(&mut none).is_empty());
    assert_eq!(hwnd(&none), 0);
}

#[test]
fn guides_and_labels() {
    let mut s = sel();
    let r = Region::from_points(vec![POINT { x: -1000, y: 10 }, POINT { x: -900, y: 60 }]);
    assert_eq!(s.guide_lines(&r), (920, 1020));
    assert_eq!(s.label_text("新标记"), "新标记（竖条纹）");
    s.orientation = Orientation::Horizontal;
    assert_eq!(s.guide_lines(&r), (10, 60));
    assert_eq!(s.label_text("原标记"), "原标记（横条纹）");
}

#[test]
fn outline_and_label_in_mask_coordinates() {
    let s = sel();
    let r = Region::from_points(vec![
        POINT { x: -1800, y: 50 },
        POINT { x: -1700, y: 50 },
        POINT { x: -1700, y: 150 },
    ]);
    let pts = s.outline(&r);
    assert_eq!(pts.len(), 3);
    assert_eq!((pts[0].x, pts[0].y), (120, 50));
    assert_eq!((pts[1].x, pts[1].y), (220, 50));
    assert_eq!((pts[2].x, pts[2].y), (220, 150));
    let rc = s.label_rect(&r);
    assert_eq!((rc.left, rc.top, rc.right, rc.bottom), (126, 56, 320, 76));
}

#[test]
fn moving_with_the_button_extends_the_trace_only() {
    let mut s = sel();
    s.on_lbutton_down(10, 10);
    assert!(s.on_mouse_move(12, 11));
    assert_eq!(s.current.len(), 1);
    assert!(s.on_mouse_move(20, 10));
    assert_eq!(s.current.len(), 2);
    assert_eq!((s.current[1].x, s.current[1].y), (20, 10));
    assert!(s.pressed && !s.finished && s.regions.is_empty());
    // releasing closes the loop with the release point: this one is too thin
    s.on_lbutton_up(30, 11);
    assert!(!s.pressed && s.current.is_empty() && s.regions.is_empty());
    // a loop with the release point added becomes a region in screen coordinates
    s.on_lbutton_down(0, 0);
    s.on_mouse_move(40, 0);
    s.on_mouse_move(40, 30);
    s.on_lbutton_up(0, 30);
    assert_eq!(s.regions.len(), 1);
    let r = &s.regions[0];
    assert_eq!(r.points.len(), 4);
    assert_eq!((r.x, r.y, r.w, r.h), (-1920, 0, 40, 30));
}
