use lib::model::{
    build_lines, ColorMode, Orientation, Region, Rng, Stripe, GAP_POOL, KEY_COLOR, MAX_LINES,
    POOL_BLACK, POOL_MULTI, POOL_WHITE,
};
use lib::win::POINT;

fn xs(x: u64) -> u64 {
    let mut x = x;
    x ^= x << 13;
    x ^= x >> 7;
    x ^= x << 17;
    x
}

#[test]
fn below_draws_next_state_modulo_n() {
    let mut rng = Rng::new(42);
    let s1 = xs(42 | 1);
    assert_eq!(rng.below(10), (s1 % 10) as u32);
    let s2 = xs(s1);
    assert_eq!(rng.below(7), (s2 % 7) as u32);
}

#[test]
fn below_zero_is_zero_and_does_not_advance() {
    let mut a = Rng::new(5);
    let mut b = Rng::new(5);
    assert_eq!(a.below(0), 0);
    assert_eq!(a.below(1000), b.below(1000));
}

#[test]
fn seed_zero_still_draws() {
    // the low bit is forced on, so the state is 1 and never zero
    let mut rng = Rng::new(0);
    assert_eq!(rng.below(u32::MAX), (xs(1) % (u32::MAX as u64)) as u32);
    let mut seen_nonzero = false;
    for _ in 0..100 {
        if rng.below(1000) != 0 {
            seen_nonzero = true;
        }
    }
    assert!(seen_nonzero);
}

#[test]
fn range_stays_in_closed_range() {
    let mut rng = Rng::new(7);
    for _ in 0..1000 {
        let r = rng.range(2, 6);
        assert!((2..=6).contains(&r));
    }
    assert_eq!(rng.range(9, 9), 9);
    assert_eq!(rng.range(9, 3), 9);
}

#[test]
fn range_value_is_a_plus_below() {
    let mut rng = Rng::new(99);
    let s1 = xs(99);
    assert_eq!(rng.range(1000, 5000), 1000 + (s1 % 4001) as u32);
}

#[test]
fn range_ms_stays_in_closed_range() {
    let mut rng = Rng::new(3);
    for _ in 0..1000 {
        let r = rng.range_ms(100, 3000);
        assert!((100..=3000).contains(&r));
    }
    assert_eq!(rng.range_ms(50, 10), 50);
    let mut rng2 = Rng::new(11);
    assert_eq!(rng2.range_ms(1000, 5000), 1000 + xs(11) % 4001);
}

#[test]
fn pick_returns_an_item_by_below() {
    let items = [10u32, 20, 30];
    let mut rng = Rng::new(8);
    let want = items[(xs(9) % 3) as usize];
    assert_eq!(rng.pick(&items), want);
    for _ in 0..200 {
        assert!(items.contains(&rng.pick(&items)));
    }
}

#[test]
fn pools_and_names() {
    assert_eq!(ColorMode::Multi.pool(), &[0x0000FF, 0x00FF00, 0xFF0000, 0x000000, 0xFFFFFF]);
    assert_eq!(ColorMode::Black.pool(), &[0u32]);
    assert_eq!(ColorMode::White.pool(), &[0xFFFFFFu32]);
    assert_eq!(POOL_MULTI.len(), 5);
    assert_eq!(POOL_BLACK, [0]);
    assert_eq!(POOL_WHITE, [0xFFFFFF]);
    assert_eq!(KEY_COLOR, 0x030201);
    assert_eq!(GAP_POOL, [0, 0, 0, 0, 1, 1, 2, 3]);
    assert_eq!(ColorMode::Multi.name(), "多色");
    assert_eq!(ColorMode::Black.name(), "纯黑");
    assert_eq!(ColorMode::White.name(), "纯白");
    assert_eq!(Orientation::Vertical.name(), "竖条纹");
    assert_eq!(Orientation::Horizontal.name(), "横条纹");
}

fn check_layout(lines: &[Stripe], a0: i32, span: i32, pool: &[u32]) {
    let hi = a0 + span;
    assert!(!lines.is_empty());
    assert_eq!(lines[0].pos, a0);
    for l in lines {
        assert!(l.pos >= a0 && l.pos < hi);
        assert_eq!(l.w, 1);
        assert!(l.visible && !l.flickers && l.next_flip == 0);
        assert!(pool.contains(&l.color));
    }
    for k in 1..lines.len() {
        let gap = lines[k].pos - lines[k - 1].pos - 1;
        assert!((0..=3).contains(&gap));
        if gap == 0 {
            assert_eq!(lines[k].color, lines[k - 1].color);
        }
    }
    if lines.len() < MAX_LINES {
        assert!(lines[lines.len() - 1].pos >= hi - 4);
    }
}

#[test]
fn build_lines_follows_the_layout_rules() {
    for seed in [1u64, 2, 3, 0x9E37_79B9_7F4A_7C15, 12345] {
        let mut rng = Rng::new(seed);
        let lines = build_lines(-40, 600, &POOL_MULTI, &mut rng);
        check_layout(&lines, -40, 600, &POOL_MULTI);
    }
}

#[test]
fn build_lines_single_pixel_span() {
    let mut rng = Rng::new(1);
    let lines = build_lines(100, 1, &POOL_BLACK, &mut rng);
    assert_eq!(lines.len(), 1);
    assert_eq!(lines[0].pos, 100);
    assert_eq!(lines[0].color, 0);
}

#[test]
fn build_lines_empty_inputs() {
    let mut rng = Rng::new(1);
    assert!(build_lines(0, 0, &POOL_MULTI, &mut rng).is_empty());
    assert!(build_lines(0, -5, &POOL_MULTI, &mut rng).is_empty());
    assert!(build_lines(0, 50, &[], &mut rng).is_empty());
    // an empty pool gives no lines even where the range would not fit
    assert!(build_lines(i32::MAX - 1, i32::MAX, &[], &mut rng).is_empty());
    // nothing was drawn from the source
    let mut fresh = Rng::new(1);
    assert_eq!(rng.below(1000), fresh.below(1000));
}

#[test]
fn build_lines_is_deterministic_per_seed() {
    let mut a = Rng::new(77);
    let mut b = Rng::new(77);
    let la = build_lines(0, 300, &POOL_MULTI, &mut a);
    let lb = build_lines(0, 300, &POOL_MULTI, &mut b);
    assert_eq!(la.len(), lb.len());
    for k in 0..la.len() {
        assert_eq!((la[k].pos, la[k].color), (lb[k].pos, lb[k].color));
    }
}

#[test]
fn build_lines_draws_colour_then_gap() {
    // first line: colour from pool via below(len), then a gap via below(8)
    let mut rng = Rng::new(1);
    let lines = build_lines(0, 100, &POOL_MULTI, &mut rng);
    let s1 = xs(1);
    let s2 = xs(s1);
    assert_eq!(lines[0].color, POOL_MULTI[(s1 % 5) as usize]);
    let gap = GAP_POOL[(s2 % 8) as usize];
    assert_eq!(lines[1].pos, 1 + gap);
}

#[test]
fn build_lines_caps_line_count() {
    let mut rng = Rng::new(5);
    let lines = build_lines(0, 200_000, &POOL_WHITE, &mut rng);
    assert_eq!(lines.len(), MAX_LINES);
}

fn pt(x: i32, y: i32) -> POINT {
    POINT { x, y }
}

#[test]
fn from_points_bounding_box() {
    let r = Region::from_points(vec![pt(10, 50), pt(-5, 20), pt(30, 80), pt(0, 10)]);
    assert_eq!((r.x, r.y, r.w, r.h), (-5, 10, 35, 70));
    assert_eq!(r.points.len(), 4);
}

#[test]
fn from_points_empty_is_zero() {
    let r = Region::from_points(Vec::new());
    assert_eq!((r.x, r.y, r.w, r.h), (0, 0, 0, 0));
}

#[test]
fn region_rect_and_axis() {
    let r = Region::from_points(vec![pt(100, 200), pt(300, 260)]);
    let rc = r.rect();
    assert_eq!((rc.left, rc.top, rc.right, rc.bottom), (100, 200, 300, 260));
    assert_eq!(r.axis(Orientation::Vertical, (-1920, 0)), (2020, 200));
    assert_eq!(r.axis(Orientation::Horizontal, (0, 100)), (100, 60));
}

#[test]
fn region_summary_texts() {
    let r = Region::from_points(vec![pt(10, -20), pt(110, 30)]);
    assert_eq!(r.summary(Orientation::Vertical), "区域：x 10~110（宽 100px），竖线贯穿屏幕高度");
    assert_eq!(r.summary(Orientation::Horizontal), "区域：y -20~30（高 50px），横线贯穿屏幕宽度");
}

#[test]
fn next_u64_is_one_xorshift_step() {
    let mut r = Rng::new(0);
    assert_eq!(r.next_u64(), 1082269761);
    assert_eq!(r.next_u64(), 1152992998833853505);
    let mut q = Rng::new(0x1234_5678);
    let s = 0x1234_5678u64 | 1;
    assert_eq!(q.next_u64(), xs(s));
}
