use lib::layer::{
    brush_colors, can_lay_out, capture_change_needed, capture_excluded, flicker_on, hide_layer, hwnd, rebuild,
    set_brushes, set_capture_excluded, set_flicker, show, stripe_rect, total_line_count,
    visible_line_count, Layer,
};
use lib::model::{ColorMode, Orientation, Region, Stripe, KEY_COLOR};
use lib::win::{POINT, RECT};

fn square(x: i32, y: i32, w: i32, h: i32) -> Region {
    Region::from_points(vec![
        POINT { x, y },
        POINT { x: x + w, y },
        POINT { x: x + w, y: y + h },
        POINT { x, y: y + h },
    ])
}

fn layer() -> Option<Layer> {
    Some(Layer::new(7, (0, 0), 1920, 1080))
}

fn lit(l: &Layer, i: usize) -> usize {
    l.regions[i].iter().filter(|s| s.visible).count()
}

#[test]
fn new_layer_is_idle() {
    let l = layer();
    assert!(!flicker_on(&l));
    assert!(!capture_excluded(&l));
    assert_eq!(hwnd(&l), 7);
    assert_eq!(total_line_count(&l), 0);
    assert_eq!(visible_line_count(&l), 0);
    let none: Option<Layer> = None;
    assert_eq!(hwnd(&none), 0);
    assert_eq!(total_line_count(&none), 0);
}

#[test]
fn show_lays_out_each_region() {
    let mut l = layer();
    let regions = vec![square(100, 100, 200, 50), square(900, 400, 30, 300)];
    show(&mut l, &regions, Orientation::Vertical, ColorMode::Multi, false, 0);
    let la = l.as_ref().unwrap();
    assert!(la.shown);
    assert_eq!(la.regions.len(), 2);
    for s in &la.regions[0] {
        assert!(s.pos >= 100 && s.pos < 300);
    }
    for s in &la.regions[1] {
        assert!(s.pos >= 900 && s.pos < 930);
    }
    let total = total_line_count(&l);
    assert!(total > 0);
    assert_eq!(visible_line_count(&l), total);
}

#[test]
fn horizontal_uses_top_bottom_range() {
    let mut l = Some(Layer::new(1, (-1920, -100), 3840, 1180));
    let regions = vec![square(0, 200, 500, 40)];
    show(&mut l, &regions, Orientation::Horizontal, ColorMode::Black, false, 0);
    let la = l.as_ref().unwrap();
    for s in &la.regions[0] {
        assert!(s.pos >= 300 && s.pos < 340);
        assert_eq!(s.color, 0);
    }
}

#[test]
fn hide_keeps_lines() {
    let mut l = layer();
    show(&mut l, &[square(0, 0, 100, 100)], Orientation::Vertical, ColorMode::White, false, 0);
    let before = total_line_count(&l);
    hide_layer(&mut l);
    assert!(!l.as_ref().unwrap().shown);
    assert_eq!(total_line_count(&l), before);
}

#[test]
fn flicker_picks_a_few_lines_per_region() {
    let mut l = layer();
    let regions = vec![square(0, 0, 300, 10), square(500, 0, 1, 10), square(800, 0, 3, 10)];
    show(&mut l, &regions, Orientation::Vertical, ColorMode::Multi, true, 1000);
    let la = l.as_ref().unwrap();
    for (i, lines) in la.regions.iter().enumerate() {
        let n = lines.len();
        let k = lines.iter().filter(|s| s.flickers).count();
        assert!(k <= n && k <= 6);
        assert!(k >= 2 || k == n);
        assert_eq!(lit(la, i), n);
        for s in lines.iter().filter(|s| s.flickers) {
            assert!(s.next_flip >= 2000 && s.next_flip <= 6000);
        }
    }
}

#[test]
fn no_region_ever_goes_dark() {
    let mut l = layer();
    let regions = vec![square(0, 0, 2, 10), square(100, 0, 40, 10), square(300, 0, 1, 10)];
    show(&mut l, &regions, Orientation::Vertical, ColorMode::Multi, true, 0);
    let mut now: u64 = 0;
    let mut went_dark = 0;
    for _ in 0..5000 {
        now += 40;
        let dirty = l.as_mut().unwrap().tick(now);
        let la = l.as_ref().unwrap();
        for i in 0..la.regions.len() {
            let n = la.regions[i].len();
            assert!(n == 0 || lit(la, i) >= 1);
            assert_eq!(la.visible_counts[i], lit(la, i));
            // lines that do not flicker stay lit
            assert!(la.regions[i].iter().all(|s| s.flickers || s.visible));
        }
        went_dark += dirty.len();
    }
    // lines did blink
    assert!(went_dark > 0);
}

#[test]
fn tick_flips_due_lines_only() {
    let mut l = layer();
    show(&mut l, &[square(0, 0, 50, 10)], Orientation::Vertical, ColorMode::Multi, true, 0);
    let before: Vec<Stripe> = l.as_ref().unwrap().regions[0].clone();
    // nothing is due before the earliest flip
    let dirty = l.as_mut().unwrap().tick(999);
    assert!(dirty.is_empty());
    let after = &l.as_ref().unwrap().regions[0];
    for k in 0..before.len() {
        assert_eq!(before[k].visible, after[k].visible);
        assert_eq!(before[k].next_flip, after[k].next_flip);
    }
    // at 5000 ms every flickering line is due; the dirty rectangles are those of flipped lines
    let dirty = l.as_mut().unwrap().tick(5000);
    let after = l.as_ref().unwrap().regions[0].clone();
    let mut want = Vec::new();
    for k in 0..before.len() {
        if before[k].flickers {
            assert!(after[k].next_flip > 5000);
        } else {
            assert_eq!(after[k].visible, before[k].visible);
        }
        if after[k].visible != before[k].visible {
            assert!(!after[k].visible);
            assert!(after[k].next_flip >= 5100 && after[k].next_flip <= 8000);
            want.push(stripe_rect(Orientation::Vertical, 1920, 1080, &after[k]));
        }
    }
    assert_eq!(dirty.len(), want.len());
    for k in 0..want.len() {
        assert_eq!((dirty[k].left, dirty[k].right, dirty[k].top, dirty[k].bottom),
                   (want[k].left, want[k].right, want[k].top, want[k].bottom));
    }
}

#[test]
fn tick_does_nothing_without_flicker_or_window() {
    let mut l = layer();
    show(&mut l, &[square(0, 0, 50, 10)], Orientation::Vertical, ColorMode::Multi, false, 0);
    assert!(l.as_mut().unwrap().tick(100_000).is_empty());
    let mut l2 = Some(Layer::new(0, (0, 0), 100, 100));
    show(&mut l2, &[square(0, 0, 50, 10)], Orientation::Vertical, ColorMode::Multi, true, 0);
    assert!(l2.as_mut().unwrap().tick(100_000).is_empty());
}

#[test]
fn flicker_off_lights_everything() {
    let mut l = layer();
    show(&mut l, &[square(0, 0, 20, 10)], Orientation::Vertical, ColorMode::Multi, true, 0);
    for t in 1..200u64 {
        l.as_mut().unwrap().tick(t * 100);
    }
    set_flicker(&mut l, false, 20_000);
    let la = l.as_ref().unwrap();
    assert!(!la.flicker_on);
    assert!(la.regions[0].iter().all(|s| s.visible && !s.flickers));
    assert_eq!(visible_line_count(&l), total_line_count(&l));
    // setting the same value again changes nothing
    set_flicker(&mut l, false, 0);
    assert!(!flicker_on(&l));
    set_flicker(&mut l, true, 30_000);
    assert!(flicker_on(&l));
}

#[test]
fn rebuild_keeps_flicker_setting() {
    let mut l = layer();
    let regions = vec![square(0, 0, 100, 60)];
    show(&mut l, &regions, Orientation::Vertical, ColorMode::Multi, true, 0);
    rebuild(&mut l, &regions, Orientation::Horizontal, ColorMode::Black, 0);
    let la = l.as_ref().unwrap();
    assert!(la.flicker_on);
    assert_eq!(la.orientation, Orientation::Horizontal);
    for s in &la.regions[0] {
        assert!(s.pos >= 0 && s.pos < 60);
        assert_eq!(s.color, 0);
    }
}

#[test]
fn brush_colors_are_pool_and_key() {
    assert_eq!(brush_colors(ColorMode::Multi), vec![0x0000FF, 0x00FF00, 0xFF0000, 0, 0xFFFFFF, KEY_COLOR]);
    assert_eq!(brush_colors(ColorMode::Black), vec![0, KEY_COLOR]);
    assert_eq!(brush_colors(ColorMode::White), vec![0xFFFFFF, KEY_COLOR]);
}

#[test]
fn brushes_and_paint_plan() {
    let mut l = layer();
    show(&mut l, &[square(10, 0, 40, 10)], Orientation::Vertical, ColorMode::Black, false, 0);
    set_brushes(&mut l, vec![(0, 501), (KEY_COLOR, 502)]);
    let la = l.as_ref().unwrap();
    assert_eq!(la.key_brush, 502);
    assert_eq!(la.brush_of(0), 501);
    assert_eq!(la.brush_of(0xFFFFFF), 0);
    let all = la.paint_plan(&RECT::new(0, 0, 1920, 1080));
    assert_eq!(all.len(), la.regions[0].len());
    for (r, b) in &all {
        assert_eq!(*b, 501);
        assert_eq!((r.top, r.bottom), (0, 1080));
        assert_eq!(r.right - r.left, 1);
    }
    let part = la.paint_plan(&RECT::new(0, 0, 20, 1080));
    assert!(part.iter().all(|(r, _)| r.left < 20));
    assert!(part.len() < all.len());
}

#[test]
fn capture_setting_follows_the_system() {
    let mut l = layer();
    assert!(capture_change_needed(&l, true));
    set_capture_excluded(&mut l, true, false);
    assert!(!capture_excluded(&l));
    set_capture_excluded(&mut l, true, true);
    assert!(capture_excluded(&l));
    assert!(!capture_change_needed(&l, true));
    let mut no_window = Some(Layer::new(0, (0, 0), 10, 10));
    assert!(!capture_change_needed(&no_window, true));
    set_capture_excluded(&mut no_window, true, true);
    assert!(!capture_excluded(&no_window));
}

#[test]
fn stripe_rects_span_the_screen() {
    let s = Stripe { pos: 40, w: 1, color: 0, visible: true, flickers: false, next_flip: 0 };
    let v = stripe_rect(Orientation::Vertical, 1920, 1080, &s);
    assert_eq!((v.left, v.top, v.right, v.bottom), (40, 0, 41, 1080));
    let h = stripe_rect(Orientation::Horizontal, 1920, 1080, &s);
    assert_eq!((h.left, h.top, h.right, h.bottom), (0, 40, 1920, 41));
}

#[test]
fn regions_that_can_be_laid_out() {
    let rs = vec![square(100, 100, 50, 50), square(-300, 20, 40, 10)];
    assert!(can_lay_out(&rs, Orientation::Vertical, (-1920, 0)));
    assert!(can_lay_out(&rs, Orientation::Horizontal, (0, 0)));
    assert!(can_lay_out(&[], Orientation::Vertical, (i32::MAX, i32::MAX)));
    let edge = vec![square(i32::MAX - 10, 0, 8, 8)];
    assert!(!can_lay_out(&edge, Orientation::Vertical, (0, 0)));
    assert!(can_lay_out(&edge, Orientation::Horizontal, (0, 0)));
    let far = vec![square(100, 100, 5, 5)];
    assert!(!can_lay_out(&far, Orientation::Vertical, (i32::MIN, 0)));
}

#[test]
fn line_totals_and_capture_setting_through_a_session() {
    let mut l = layer();
    assert_eq!(total_line_count(&None), 0);
    assert_eq!(visible_line_count(&None), 0);
    assert!(!capture_excluded(&None));
    assert!(!capture_excluded(&l));
    let regions = vec![square(10, 10, 120, 40), square(500, 0, 60, 60)];
    show(&mut l, &regions, Orientation::Vertical, ColorMode::White, false, 0);
    let total = total_line_count(&l);
    assert_eq!(visible_line_count(&l), total);
    assert!(!capture_excluded(&l));
    set_flicker(&mut l, true, 0);
    assert_eq!(total_line_count(&l), total);
    let mut now: u64 = 0;
    for _ in 0..300 {
        now += 40;
        l.as_mut().unwrap().tick(now);
        assert_eq!(total_line_count(&l), total);
        assert!(visible_line_count(&l) <= total);
    }
    hide_layer(&mut l);
    assert_eq!(total_line_count(&l), total);
    set_flicker(&mut l, false, now);
    assert_eq!(total_line_count(&l), total);
    assert_eq!(visible_line_count(&l), total);
    rebuild(&mut l, &regions, Orientation::Horizontal, ColorMode::Black, now);
    assert_eq!(visible_line_count(&l), total_line_count(&l));
    assert!(!capture_excluded(&l));
}
