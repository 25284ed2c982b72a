use lib::text::{decimal_string, hex2_string, unsigned_string};
use lib::win::{center_in_work_area, cursor_from_lparam, rgb, wide, RECT};

#[test]
fn rgb_packs_bgr() {
    assert_eq!(rgb(255, 0, 0), 0x0000FF);
    assert_eq!(rgb(0, 255, 0), 0x00FF00);
    assert_eq!(rgb(0, 0, 255), 0xFF0000);
    assert_eq!(rgb(1, 2, 3), 0x030201);
}

#[test]
fn rect_size_and_half_open_contains() {
    let r = RECT::new(10, 20, 110, 70);
    assert_eq!(r.w(), 100);
    assert_eq!(r.h(), 50);
    assert!(r.contains(10, 20));
    assert!(r.contains(109, 69));
    assert!(!r.contains(110, 30));
    assert!(!r.contains(50, 70));
    assert!(!r.contains(9, 30));
}

#[test]
fn intersects_is_symmetric() {
    let a = RECT::new(0, 0, 10, 10);
    let b = RECT::new(9, 9, 20, 20);
    let c = RECT::new(10, 0, 20, 10);
    assert!(a.intersects(&b) && b.intersects(&a));
    assert!(!a.intersects(&c) && !c.intersects(&a));
}

#[test]
fn cursor_is_sign_extended() {
    assert_eq!(cursor_from_lparam(0x0020_0010), (16, 32));
    assert_eq!(cursor_from_lparam(0xFFFF_FFFE), (-2, -1));
    assert_eq!(cursor_from_lparam(0x8000_7FFF), (32767, -32768));
}

#[test]
fn wide_is_zero_terminated_utf16() {
    assert_eq!(wide(""), vec![0]);
    assert_eq!(wide("A中😀"), vec![0x41, 0x4E2D, 0xD83D, 0xDE00, 0]);
    let s = "屏幕条纹生成器";
    let mut want: Vec<u16> = s.encode_utf16().collect();
    want.push(0);
    assert_eq!(wide(s), want);
}

#[test]
fn centre_in_work_area() {
    let wa = RECT::new(0, 0, 1920, 1040);
    assert_eq!(center_in_work_area(Some(wa), 1920, 1080, 560, 430), (680, 305));
    // a window bigger than the work area sits at its top-left corner
    let small = RECT::new(100, 50, 400, 250);
    assert_eq!(center_in_work_area(Some(small), 1920, 1080, 560, 430), (100, 50));
    // no work area: centre on the screen, clamped at 0
    assert_eq!(center_in_work_area(None, 1000, 800, 560, 430), (220, 185));
    assert_eq!(center_in_work_area(None, 500, 400, 561, 430), (0, 0));
    let empty = RECT::new(0, 0, 0, 0);
    assert_eq!(center_in_work_area(Some(empty), 1000, 800, 560, 430), (220, 185));
}

#[test]
fn number_texts() {
    assert_eq!(decimal_string(-42), "-42");
    assert_eq!(decimal_string(0), "0");
    assert_eq!(decimal_string(i64::MIN), "-9223372036854775808");
    assert_eq!(unsigned_string(u64::MAX), "18446744073709551615");
    assert_eq!(hex2_string(5), "05");
    assert_eq!(hex2_string(0xAB), "AB");
    assert_eq!(hex2_string(0x1FF), "1FF");
}
