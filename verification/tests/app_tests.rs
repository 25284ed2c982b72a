use lib::app::{
    click_action, debug_add_region, debug_set, debug_state, hwnd, modifier_mask, r_boss, r_close,
    r_flick, r_gen, r_orient, r_preview, r_sel, vk_name, App, HotkeyStep, PanelAction, HIT_BOSS, HIT_CLOSE, HIT_FLICK, HIT_GEN0,
    HIT_GEN1, HIT_GEN2, HIT_NONE, HIT_ORIENT, HIT_SEL, MOD_ALT, MOD_CONTROL, MOD_SHIFT, MOD_WIN,
    VK_CONTROL, VK_ESCAPE,
};
use lib::layer::{total_line_count, Layer};
use lib::model::{ColorMode, Orientation, Region};
use lib::selector::Selector;
use lib::win::{POINT, RECT};

fn sq(x: i32, y: i32, w: i32, h: i32) -> Region {
    Region::from_points(vec![
        POINT { x, y },
        POINT { x: x + w, y },
        POINT { x: x + w, y: y + h },
        POINT { x, y: y + h },
    ])
}

fn centre(r: RECT) -> (i32, i32) {
    ((r.left + r.right) / 2, (r.top + r.bottom) / 2)
}

#[test]
fn hit_finds_each_button() {
    let a = App::new(1);
    let cases = [
        (r_sel(), HIT_SEL),
        (r_gen(0), HIT_GEN0),
        (r_gen(1), HIT_GEN1),
        (r_gen(2), HIT_GEN2),
        (r_close(), HIT_CLOSE),
        (r_flick(), HIT_FLICK),
        (r_orient(), HIT_ORIENT),
        (r_boss(), HIT_BOSS),
    ];
    for (r, h) in cases {
        let (x, y) = centre(r);
        assert_eq!(a.hit(x, y), h);
    }
    let (x, y) = centre(r_preview());
    assert_eq!(a.hit(x, y), HIT_NONE);
    // the gap between two colour buttons hits nothing
    assert_eq!(a.hit(147, 150), HIT_NONE);
    assert_eq!(a.hit(0, 0), HIT_NONE);
}

#[test]
fn button_geometry() {
    let g = r_gen(2);
    assert_eq!((g.left, g.top, g.right, g.bottom), (284, 138, 411, 176));
    let s = r_sel();
    assert_eq!((s.left, s.top, s.right, s.bottom), (18, 70, 412, 112));
}

#[test]
fn key_names() {
    assert_eq!(vk_name(0x42), "B");
    assert_eq!(vk_name(0x37), "7");
    assert_eq!(vk_name(0x70), "F1");
    assert_eq!(vk_name(0x7B), "F12");
    assert_eq!(vk_name(0x20), "Space");
    assert_eq!(vk_name(0x2E), "Delete");
    assert_eq!(vk_name(0xBA), "0xBA");
    assert_eq!(vk_name(0x05), "0x05");
}

#[test]
fn boss_key_texts() {
    let mut a = App::new(1);
    assert_eq!(a.boss_text_of(MOD_CONTROL | MOD_ALT, 0x42), "Ctrl+Alt+B");
    assert_eq!(a.boss_text_of(MOD_WIN | MOD_SHIFT, 0x70), "Shift+Win+F1");
    assert_eq!(a.boss_label(), "老板键：未设置（点击设置）");
    a.apply_hotkey(MOD_CONTROL, 0x51, true);
    assert_eq!(a.boss_text(), "Ctrl+Q");
    assert_eq!(a.boss_label(), "老板键：Ctrl+Q（点击重设）");
    a.toggle_capture();
    assert_eq!(a.boss_label(), "请按下要绑定的组合键…（Esc 取消）");
}

#[test]
fn generate_without_region_asks_for_one() {
    let mut a = App::new(1);
    let mut l = Some(Layer::new(2, (0, 0), 1920, 1080));
    assert!(!a.generate(&mut l, ColorMode::Black, 0));
    assert_eq!(a.mode, ColorMode::Black);
    assert!(!a.stripe_visible);
    assert_eq!(a.hint.as_deref(), Some("请先点「开始划定区域」圈出条纹的覆盖范围"));
    assert_eq!(a.status_label(), "请先点「开始划定区域」圈出条纹的覆盖范围");
    assert!(!l.as_ref().unwrap().shown);
}

#[test]
fn close_keeps_regions_and_generate_brings_stripes_back() {
    let mut a = App::new(1);
    let mut l = Some(Layer::new(2, (0, 0), 1920, 1080));
    let mut app = Some(a);
    debug_add_region(&mut app, &mut l, 100, 100, 300, 200, 0);
    a = app.unwrap();
    assert!(a.stripe_visible);
    assert!(l.as_ref().unwrap().shown);
    let lines = total_line_count(&l);
    assert!(lines > 0);
    a.close_stripes(&mut l);
    assert!(!a.stripe_visible);
    assert_eq!(a.regions.len(), 1);
    assert!(!l.as_ref().unwrap().shown);
    assert_eq!(total_line_count(&l), lines);
    assert!(a.generate(&mut l, ColorMode::White, 0));
    assert!(l.as_ref().unwrap().shown);
    assert_eq!(l.as_ref().unwrap().mode, ColorMode::White);
}

#[test]
fn orientation_and_flicker_toggles() {
    let mut a = App::new(1);
    let mut l = Some(Layer::new(2, (0, 0), 1920, 1080));
    a.regions = vec![sq(0, 0, 50, 80)];
    assert!(!a.toggle_orientation(&mut l, 0));
    assert_eq!(a.orientation, Orientation::Horizontal);
    assert!(a.generate(&mut l, ColorMode::Multi, 0));
    assert!(a.toggle_orientation(&mut l, 0));
    assert_eq!(a.orientation, Orientation::Vertical);
    assert_eq!(l.as_ref().unwrap().orientation, Orientation::Vertical);
    a.toggle_flicker(&mut l, 0);
    assert!(a.flicker && l.as_ref().unwrap().flicker_on);
    // switching on chooses a few flickering lines in the region
    let n = l.as_ref().unwrap().regions[0].iter().filter(|s| s.flickers).count();
    assert!(n >= 2 && n <= 6);
    assert!(l.as_ref().unwrap().regions[0].iter().all(|s| s.visible));
    l.as_mut().unwrap().tick(5000);
    a.toggle_flicker(&mut l, 0);
    assert!(!a.flicker && !l.as_ref().unwrap().flicker_on);
    // switching off lights every line and stops all flickering
    assert!(l.as_ref().unwrap().regions[0].iter().all(|s| s.visible && !s.flickers));
}

#[test]
fn selecting_replaces_or_keeps_regions() {
    let mut a = App::new(1);
    let mut l = Some(Layer::new(2, (0, 0), 1920, 1080));
    let mut s = Some(Selector::new(3, (0, 0), 1920, 1080));
    a.regions = vec![sq(0, 0, 50, 80)];
    a.generate(&mut l, ColorMode::Multi, 0);
    let restore = a.start_select(&mut l, &mut s);
    assert!(restore);
    assert!(!a.stripe_visible && !l.as_ref().unwrap().shown);
    assert_eq!(s.as_ref().unwrap().reference.len(), 1);
    // nothing drawn: old regions stay, stripes come back
    a.finish_select(&mut l, &mut s, restore, 0);
    assert_eq!(a.regions.len(), 1);
    assert!(a.stripe_visible && l.as_ref().unwrap().shown);
    // two loops drawn: they replace the old region
    let restore = a.start_select(&mut l, &mut s);
    {
        let sel = s.as_mut().unwrap();
        for (x0, y0) in [(100, 100), (500, 500)] {
            sel.on_lbutton_down(x0, y0);
            sel.on_mouse_move(x0 + 100, y0);
            sel.on_mouse_move(x0 + 100, y0 + 100);
            sel.on_lbutton_up(x0, y0 + 100);
        }
    }
    a.finish_select(&mut l, &mut s, restore, 0);
    assert_eq!(a.regions.len(), 2);
    assert_eq!(a.regions[1].x, 500);
    // stripes were off: they stay off, and any hint is cleared
    a.close_stripes(&mut l);
    let restore = a.start_select(&mut l, &mut s);
    assert!(!restore);
    a.hint = Some(String::from("old"));
    a.finish_select(&mut l, &mut s, restore, 0);
    assert!(!a.stripe_visible);
    assert!(a.hint.is_none());
}

#[test]
fn capturing_a_hotkey() {
    let mut a = App::new(1);
    a.toggle_capture();
    assert!(a.capturing);
    assert!(matches!(a.capture_hotkey(VK_CONTROL, MOD_CONTROL), HotkeyStep::Ignore));
    assert!(a.capturing);
    assert!(matches!(a.capture_hotkey(0x42, 0), HotkeyStep::Done));
    assert!(!a.capturing);
    assert_eq!(a.hint.as_deref(), Some("快捷键需至少包含一个修饰键（Ctrl / Alt / Shift / Win）"));
    a.toggle_capture();
    assert!(a.hint.is_none());
    match a.capture_hotkey(0x42, MOD_CONTROL | MOD_ALT) {
        HotkeyStep::Register { mods, vk, unregister_old } => {
            assert_eq!((mods, vk, unregister_old), (MOD_CONTROL | MOD_ALT, 0x42, false));
            assert!(!a.hotkey_registered(mods, vk, true));
        }
        _ => panic!("expected a registration"),
    }
    assert!(a.boss_set && !a.capturing);
    a.toggle_capture();
    match a.capture_hotkey(0x43, MOD_SHIFT) {
        HotkeyStep::Register { mods, vk, unregister_old } => {
            assert!(unregister_old);
            assert!(a.hotkey_registered(mods, vk, false));
        }
        _ => panic!("expected a registration"),
    }
    assert_eq!(a.hint.as_deref(), Some("「Shift+C」已被其它程序占用，请换一组"));
    assert_eq!((a.boss_mods, a.boss_vk), (MOD_CONTROL | MOD_ALT, 0x42));
    a.toggle_capture();
    assert!(matches!(a.capture_hotkey(VK_ESCAPE, MOD_ALT), HotkeyStep::Done));
    assert!(!a.capturing);
}

#[test]
fn panel_texts() {
    let mut a = App::new(1);
    assert_eq!(a.orient_label(), "条纹方向：竖条纹（点击切换）");
    assert_eq!(a.count_label(), "已标记区域：0 个（已记忆）");
    assert_eq!(a.status_label(), "条纹：已关闭　　闪烁：关");
    assert_eq!(a.detail(), "（暂无标记区域，请点「开始划定区域」）");
    a.regions = vec![sq(0, 0, 10, 10), sq(20, 0, 5, 10), sq(40, 0, 1, 10), sq(90, 0, 2, 10)];
    assert_eq!(a.count_label(), "已标记区域：4 个（已记忆）");
    assert_eq!(
        a.detail(),
        "区域：x 0~10（宽 10px），竖线贯穿屏幕高度\n区域：x 20~25（宽 5px），竖线贯穿屏幕高度\n区域：x 40~41（宽 1px），竖线贯穿屏幕高度"
    );
    a.stripe_visible = true;
    a.flicker = true;
    a.mode = ColorMode::Black;
    assert_eq!(a.status_label(), "条纹：显示中（纯黑 · 竖条纹）　　闪烁：开");
}

#[test]
fn debug_interfaces() {
    let none: Option<App> = None;
    assert_eq!(debug_state(&none), "无状态");
    assert_eq!(hwnd(&none), 0);
    let mut app = Some(App::new(5));
    let mut l = Some(Layer::new(2, (0, 0), 1920, 1080));
    assert_eq!(hwnd(&app), 5);
    debug_add_region(&mut app, &mut l, 620, 300, 600, 420, 0);
    assert_eq!(
        debug_state(&app),
        "regions=1 orientation=竖条纹 mode=多色 flicker=false visible=true"
    );
    let r = &app.as_ref().unwrap().regions[0];
    assert_eq!((r.x, r.y, r.w, r.h), (620, 300, 600, 420));
    debug_set(&mut app, &mut l, Some(Orientation::Horizontal), Some(true), Some(ColorMode::White), 0);
    assert_eq!(
        debug_state(&app),
        "regions=1 orientation=横条纹 mode=纯白 flicker=true visible=true"
    );
    let la = l.as_ref().unwrap();
    assert!(la.flicker_on && la.orientation == Orientation::Horizontal);
    for s in &la.regions[0] {
        assert!(s.pos >= 300 && s.pos < 720);
    }
    // adding a region again keeps orientation and flicker, shows multi-colour
    debug_add_region(&mut app, &mut l, 100, 100, 50, 50, 0);
    let a = app.as_ref().unwrap();
    assert_eq!(a.orientation, Orientation::Horizontal);
    assert!(a.flicker && a.stripe_visible && a.mode == ColorMode::Multi);
    assert_eq!(a.regions.len(), 1);
}

#[test]
fn clicks_map_to_actions() {
    assert_eq!(click_action(HIT_SEL), PanelAction::Select);
    assert_eq!(click_action(HIT_GEN0), PanelAction::Generate(ColorMode::Multi));
    assert_eq!(click_action(HIT_GEN1), PanelAction::Generate(ColorMode::Black));
    assert_eq!(click_action(HIT_GEN2), PanelAction::Generate(ColorMode::White));
    assert_eq!(click_action(HIT_CLOSE), PanelAction::Close);
    assert_eq!(click_action(HIT_FLICK), PanelAction::Flicker);
    assert_eq!(click_action(HIT_ORIENT), PanelAction::Orient);
    assert_eq!(click_action(HIT_BOSS), PanelAction::Boss);
    assert_eq!(click_action(HIT_NONE), PanelAction::Nothing);
    assert_eq!(click_action(9), PanelAction::Nothing);
    assert_eq!(click_action(-1), PanelAction::Nothing);
}

#[test]
fn modifier_masks() {
    assert_eq!(modifier_mask(false, false, false, false), 0);
    assert_eq!(modifier_mask(true, false, false, false), MOD_CONTROL);
    assert_eq!(modifier_mask(true, true, false, false), MOD_CONTROL | MOD_ALT);
    assert_eq!(modifier_mask(false, false, true, true), MOD_SHIFT | MOD_WIN);
    assert_eq!(modifier_mask(true, true, true, true), 0x0F);
}

#[test]
fn escape_closes_only_outside_capture() {
    let mut a = App::new(1);
    assert!(a.closes_on(VK_ESCAPE));
    assert!(!a.closes_on(0x41));
    a.toggle_capture();
    assert!(!a.closes_on(VK_ESCAPE));
}

#[test]
fn stripes_need_only_the_orientation_laid_out() {
    // this region lies at the bottom edge of the coordinate range: its
    // vertical lines fit, horizontal ones would not
    let mut a = App::new(1);
    let mut l = Some(Layer::new(2, (0, 0), 1920, 1080));
    a.regions = vec![sq(100, i32::MAX - 5, 40, 4)];
    assert!(lib::layer::can_lay_out(&a.regions, Orientation::Vertical, (0, 0)));
    assert!(!lib::layer::can_lay_out(&a.regions, Orientation::Horizontal, (0, 0)));
    assert!(a.generate(&mut l, ColorMode::Black, 0));
    assert!(total_line_count(&l) > 0);
    // flicker does not lay lines out anew
    a.toggle_flicker(&mut l, 0);
    assert!(l.as_ref().unwrap().flicker_on);
}
