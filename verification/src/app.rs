//! The control panel: what a click or a key does to the marked regions, the
//! stripe settings and the boss key, and the texts the panel shows.

use vstd::prelude::*;
use vstd::string::StringExecFns;
use crate::layer::{self, layer_ok, regions_fit, restriped, with_settings, Layer};
use crate::model::{
    bounds_points, lemma_box_fits, summary_text, ColorMode, Orientation, Region, FLICKER_GAP_MAX_MS,
};
use crate::text::{char_text, decimal, decimal_string, hex2, hex2_string, unsigned_string};
use crate::selector::{self, Selector, region_ok};
use crate::win::{rect_contains, POINT, RECT};

verus! {

/// Client width of the panel.
pub const CW: i32 = 430;

/// Client height of the panel.
pub const CH: i32 = 852;

/// Left margin of the content.
pub const X0: i32 = 18;

/// Width of the content.
pub const W: i32 = 394;

/// Hit-test targets.
pub const HIT_NONE: i32 = 0;

pub const HIT_SEL: i32 = 1;

pub const HIT_GEN0: i32 = 2;

pub const HIT_GEN1: i32 = 3;

pub const HIT_GEN2: i32 = 4;

pub const HIT_CLOSE: i32 = 5;

pub const HIT_FLICK: i32 = 6;

pub const HIT_ORIENT: i32 = 7;

pub const HIT_BOSS: i32 = 8;

/// Hot-key modifier flags.
pub const MOD_ALT: u32 = 0x0001;

pub const MOD_CONTROL: u32 = 0x0002;

pub const MOD_SHIFT: u32 = 0x0004;

pub const MOD_WIN: u32 = 0x0008;

/// Virtual-key codes of Esc and of the modifier keys.
pub const VK_ESCAPE: u32 = 0x1B;

pub const VK_SHIFT: u32 = 0x10;

pub const VK_CONTROL: u32 = 0x11;

pub const VK_MENU: u32 = 0x12;

pub const VK_LWIN: u32 = 0x5B;

/// Virtual-key codes of the window system's named keys.
pub const VK_TAB: u32 = 0x09;

pub const VK_RETURN: u32 = 0x0D;

pub const VK_SPACE: u32 = 0x20;

pub const VK_PRIOR: u32 = 0x21;

pub const VK_NEXT: u32 = 0x22;

pub const VK_END: u32 = 0x23;

pub const VK_HOME: u32 = 0x24;

pub const VK_LEFT: u32 = 0x25;

pub const VK_UP: u32 = 0x26;

pub const VK_RIGHT: u32 = 0x27;

pub const VK_DOWN: u32 = 0x28;

pub const VK_INSERT: u32 = 0x2D;

pub const VK_DELETE: u32 = 0x2E;

/// Virtual-key codes of the digit keys `0`..`9`, the letter keys `A`..`Z` and
/// the function keys `F1`..`F12`: each run is consecutive.
pub const VK_0: u32 = 0x30;

pub const VK_A: u32 = 0x41;

pub const VK_F1: u32 = 0x70;

/// "Start selecting region" button.
pub fn r_sel() -> (r: RECT)
    ensures
        r == target_rect(HIT_SEL),
{
    RECT::new(X0, 70, X0 + W, 112)
}

/// The colour button number `i` (multi, black, white).
pub fn r_gen(i: i32) -> (r: RECT)
    requires
        -16_000_000 <= i <= 16_000_000,
    ensures
        r == gen_rect(i as int),
{
    let w: i32 = 127;
    assert(-2_128_000_000 <= i * 133 <= 2_128_000_000) by (nonlinear_arith)
        requires
            -16_000_000 <= i <= 16_000_000,
    ;
    let x: i32 = X0 + i * (w + 6);
    RECT::new(x, 138, x + w, 176)
}

/// "Close stripes" button.
pub fn r_close() -> (r: RECT)
    ensures
        r == target_rect(HIT_CLOSE),
{
    RECT::new(X0, 184, X0 + W, 226)
}

/// "Random flicker" check row.
pub fn r_flick() -> (r: RECT)
    ensures
        r == target_rect(HIT_FLICK),
{
    RECT::new(X0, 234, X0 + W, 256)
}

/// Orientation switch row.
pub fn r_orient() -> (r: RECT)
    ensures
        r == target_rect(HIT_ORIENT),
{
    RECT::new(X0, 262, X0 + W, 298)
}

/// Boss-key row.
pub fn r_boss() -> (r: RECT)
    ensures
        r == target_rect(HIT_BOSS),
{
    RECT::new(X0, 306, X0 + W, 342)
}

/// Virtual-desktop preview.
pub fn r_preview() -> (r: RECT)
    ensures
        r == (RECT { left: 18, top: 412, right: 412, bottom: 562 }),
{
    RECT::new(X0, 412, X0 + W, 562)
}

/// The rectangle of colour button `i`.
pub open spec fn gen_rect(i: int) -> RECT {
    let x = 18 + i * 133;
    RECT { left: x as i32, top: 138, right: (x + 127) as i32, bottom: 176 }
}

/// The rectangle of each hit target.
pub open spec fn target_rect(t: i32) -> RECT {
    if t == HIT_SEL {
        RECT { left: 18, top: 70, right: 412, bottom: 112 }
    } else if t == HIT_GEN0 || t == HIT_GEN1 || t == HIT_GEN2 {
        gen_rect(t - HIT_GEN0)
    } else if t == HIT_CLOSE {
        RECT { left: 18, top: 184, right: 412, bottom: 226 }
    } else if t == HIT_FLICK {
        RECT { left: 18, top: 234, right: 412, bottom: 256 }
    } else if t == HIT_ORIENT {
        RECT { left: 18, top: 262, right: 412, bottom: 298 }
    } else {
        RECT { left: 18, top: 306, right: 412, bottom: 342 }
    }
}

/// The target under `(x, y)`: the first of select, the three colour buttons,
/// close, flicker, orientation and boss key whose rectangle holds the point.
pub open spec fn hit_at(x: int, y: int) -> i32 {
    if rect_contains(target_rect(HIT_SEL), x, y) {
        HIT_SEL
    } else if rect_contains(target_rect(HIT_GEN0), x, y) {
        HIT_GEN0
    } else if rect_contains(target_rect(HIT_GEN1), x, y) {
        HIT_GEN1
    } else if rect_contains(target_rect(HIT_GEN2), x, y) {
        HIT_GEN2
    } else if rect_contains(target_rect(HIT_CLOSE), x, y) {
        HIT_CLOSE
    } else if rect_contains(target_rect(HIT_FLICK), x, y) {
        HIT_FLICK
    } else if rect_contains(target_rect(HIT_ORIENT), x, y) {
        HIT_ORIENT
    } else if rect_contains(target_rect(HIT_BOSS), x, y) {
        HIT_BOSS
    } else {
        HIT_NONE
    }
}

/// The targets do not overlap: a point in the rectangle of target `t` hits `t`,
/// and a point in none of them hits nothing.
pub proof fn lemma_hit_exact(x: int, y: int, t: i32)
    requires
        HIT_SEL <= t <= HIT_BOSS,
    ensures
        rect_contains(target_rect(t), x, y) <==> hit_at(x, y) == t,
        hit_at(x, y) == HIT_NONE <==> forall|u: i32|
            HIT_SEL <= u <= HIT_BOSS ==> !rect_contains(#[trigger] target_rect(u), x, y),
{
    if hit_at(x, y) == HIT_NONE {
        assert forall|u: i32| HIT_SEL <= u <= HIT_BOSS implies !rect_contains(
            #[trigger] target_rect(u),
            x,
            y,
        ) by {
            assert(u == 1 || u == 2 || u == 3 || u == 4 || u == 5 || u == 6 || u == 7 || u == 8);
        }
    } else {
        let h = hit_at(x, y);
        assert(HIT_SEL <= h <= HIT_BOSS && rect_contains(target_rect(h), x, y));
    }
}

/// The display name of a virtual key.
pub open spec fn vk_text(vk: u32) -> Seq<char> {
    if (0x30 <= vk <= 0x39) || (0x41 <= vk <= 0x5A) {
        seq![vk as char]
    } else if 0x70 <= vk <= 0x7B {
        "F"@ + decimal(vk - 0x6F)
    } else if vk == 0x20 {
        "Space"@
    } else if vk == 0x0D {
        "Enter"@
    } else if vk == 0x09 {
        "Tab"@
    } else if vk == 0x25 {
        "Left"@
    } else if vk == 0x26 {
        "Up"@
    } else if vk == 0x27 {
        "Right"@
    } else if vk == 0x28 {
        "Down"@
    } else if vk == 0x24 {
        "Home"@
    } else if vk == 0x23 {
        "End"@
    } else if vk == 0x21 {
        "PageUp"@
    } else if vk == 0x22 {
        "PageDown"@
    } else if vk == 0x2D {
        "Insert"@
    } else if vk == 0x2E {
        "Delete"@
    } else {
        "0x"@ + hex2(vk as nat)
    }
}

/// The name of each key code, by the window system's key table: the arrow keys
/// are named by their direction (`VK_LEFT` is "Left", `VK_RIGHT` "Right", ...),
/// the other named keys by their labels, digit and letter keys by their
/// character (`VK_0 + d` is the digit `d`, `VK_A + d` the `d`-th letter),
/// `VK_F1 + k` is "F" and `k + 1`; any other code is `0x` and its
/// hex digits.
pub proof fn lemma_key_names(vk: u32)
    ensures
        vk == VK_LEFT ==> vk_text(vk) == "Left"@,
        vk == VK_RIGHT ==> vk_text(vk) == "Right"@,
        vk == VK_UP ==> vk_text(vk) == "Up"@,
        vk == VK_DOWN ==> vk_text(vk) == "Down"@,
        vk == VK_HOME ==> vk_text(vk) == "Home"@,
        vk == VK_END ==> vk_text(vk) == "End"@,
        vk == VK_PRIOR ==> vk_text(vk) == "PageUp"@,
        vk == VK_NEXT ==> vk_text(vk) == "PageDown"@,
        vk == VK_INSERT ==> vk_text(vk) == "Insert"@,
        vk == VK_DELETE ==> vk_text(vk) == "Delete"@,
        vk == VK_SPACE ==> vk_text(vk) == "Space"@,
        vk == VK_RETURN ==> vk_text(vk) == "Enter"@,
        vk == VK_TAB ==> vk_text(vk) == "Tab"@,
        VK_0 <= vk < VK_0 + 10 ==> vk_text(vk) == seq![(('0' as u32) + (vk - VK_0)) as char],
        VK_A <= vk < VK_A + 26 ==> vk_text(vk) == seq![(('A' as u32) + (vk - VK_A)) as char],
        VK_F1 <= vk < VK_F1 + 12 ==> vk_text(vk) == "F"@ + decimal(vk - VK_F1 + 1),
        !(VK_0 <= vk < VK_0 + 10 || VK_A <= vk < VK_A + 26 || VK_F1 <= vk < VK_F1 + 12 || vk == VK_LEFT
            || vk == VK_RIGHT || vk == VK_UP || vk == VK_DOWN || vk == VK_HOME || vk == VK_END || vk
            == VK_PRIOR || vk == VK_NEXT || vk == VK_INSERT || vk == VK_DELETE || vk == VK_SPACE || vk
            == VK_RETURN || vk == VK_TAB) ==> vk_text(vk) == "0x"@ + hex2(vk as nat),
{
    reveal_strlit("Left");
    reveal_strlit("Right");
    reveal_strlit("Up");
    reveal_strlit("Down");
}

/// Virtual key -> readable name: digits and letters as themselves, F1..F12,
/// named keys, anything else as `0x` and two or more hex digits.
pub fn vk_name(vk: u32) -> (s: String)
    ensures
        s@ == vk_text(vk),
{
    if (0x30 <= vk && vk <= 0x39) || (0x41 <= vk && vk <= 0x5A) {
        char_text(vk)
    } else if 0x70 <= vk && vk <= 0x7B {
        let mut s = String::from_str("F");
        s.append(decimal_string((vk - 0x6F) as i64).as_str());
        s
    } else if vk == 0x20 {
        String::from_str("Space")
    } else if vk == 0x0D {
        String::from_str("Enter")
    } else if vk == 0x09 {
        String::from_str("Tab")
    } else if vk == 0x25 {
        String::from_str("Left")
    } else if vk == 0x26 {
        String::from_str("Up")
    } else if vk == 0x27 {
        String::from_str("Right")
    } else if vk == 0x28 {
        String::from_str("Down")
    } else if vk == 0x24 {
        String::from_str("Home")
    } else if vk == 0x23 {
        String::from_str("End")
    } else if vk == 0x21 {
        String::from_str("PageUp")
    } else if vk == 0x22 {
        String::from_str("PageDown")
    } else if vk == 0x2D {
        String::from_str("Insert")
    } else if vk == 0x2E {
        String::from_str("Delete")
    } else {
        let mut s = String::from_str("0x");
        s.append(hex2_string(vk).as_str());
        s
    }
}

/// The text of a hot key: its modifiers (Ctrl, Alt, Shift, Win, in that order,
/// each followed by `+`) and the key's name.
pub open spec fn hotkey_text(mods: u32, vk: u32) -> Seq<char> {
    (if mods & MOD_CONTROL != 0 {
        "Ctrl+"@
    } else {
        seq![]
    }) + (if mods & MOD_ALT != 0 {
        "Alt+"@
    } else {
        seq![]
    }) + (if mods & MOD_SHIFT != 0 {
        "Shift+"@
    } else {
        seq![]
    }) + (if mods & MOD_WIN != 0 {
        "Win+"@
    } else {
        seq![]
    }) + vk_text(vk)
}

/// The text of the hot key `mods` + `vk`.
pub fn hotkey_string(mods: u32, vk: u32) -> (s: String)
    ensures
        s@ == hotkey_text(mods, vk),
{
    let mut s = String::new();
    if mods & MOD_CONTROL != 0 {
        s.append("Ctrl+");
    }
    if mods & MOD_ALT != 0 {
        s.append("Alt+");
    }
    if mods & MOD_SHIFT != 0 {
        s.append("Shift+");
    }
    if mods & MOD_WIN != 0 {
        s.append("Win+");
    }
    s.append(vk_name(vk).as_str());
    proof {
        assert(s@ =~= hotkey_text(mods, vk));
    }
    s
}

/// Hint when stripes are asked for before any region is marked.
pub open spec fn hint_no_region() -> Seq<char> {
    "请先点「开始划定区域」圈出条纹的覆盖范围"@
}

/// Hint when a hot key without modifier is pressed.
pub open spec fn hint_no_modifier() -> Seq<char> {
    "快捷键需至少包含一个修饰键（Ctrl / Alt / Shift / Win）"@
}

/// Hint when the hot key could not be registered.
pub open spec fn hint_taken(mods: u32, vk: u32) -> Seq<char> {
    "「"@ + hotkey_text(mods, vk) + "」已被其它程序占用，请换一组"@
}

/// The control-panel state.
pub struct App {
    /// Window handle of the panel (0 = none).
    pub hwnd: isize,
    /// The marked regions (screen coordinates); kept when stripes are closed.
    pub regions: Vec<Region>,
    pub orientation: Orientation,
    pub mode: ColorMode,
    pub flicker: bool,
    /// Whether the stripes are on screen.
    pub stripe_visible: bool,
    /// The target under the mouse.
    pub hover: i32,
    /// Whether the next key press sets the boss key.
    pub capturing: bool,
    pub boss_mods: u32,
    pub boss_vk: u32,
    pub boss_set: bool,
    /// A warning shown in the status line.
    pub hint: Option<String>,
}

/// The other orientation.
pub open spec fn flipped(o: Orientation) -> Orientation {
    match o {
        Orientation::Vertical => Orientation::Horizontal,
        Orientation::Horizontal => Orientation::Vertical,
    }
}

/// Switching orientation twice gives the orientation back.
pub proof fn lemma_flip_twice(o: Orientation)
    ensures
        flipped(flipped(o)) == o,
        flipped(o) != o,
{
}

/// What the window system is asked to do after a key press while setting the boss key.
pub enum HotkeyStep {
    /// Nothing (a bare modifier key was pressed; still waiting).
    Ignore,
    /// Nothing more (cancelled, or no modifier held).
    Done,
    /// Register `mods` + `vk`, first dropping the current boss key when `unregister_old`.
    Register { mods: u32, vk: u32, unregister_old: bool },
}

impl App {
    /// Every marked region's box describes its outline.
    pub open spec fn wf(&self) -> bool {
        forall|i: int| 0 <= i < self.regions@.len() ==> (#[trigger] self.regions@[i]).wf()
    }

    /// The panel at start: no regions, vertical multi-colour stripes, no
    /// flicker, nothing shown, no boss key.
    pub fn new(hwnd: isize) -> (a: Self)
        ensures
            a.wf(),
            a.hwnd == hwnd,
            a.regions@.len() == 0,
            a.orientation == Orientation::Vertical,
            a.mode == ColorMode::Multi,
            !a.flicker,
            !a.stripe_visible,
            a.hover == HIT_NONE,
            !a.capturing,
            a.boss_mods == 0,
            a.boss_vk == 0,
            !a.boss_set,
            a.hint is None,
    {
        App {
            hwnd,
            regions: Vec::new(),
            orientation: Orientation::Vertical,
            mode: ColorMode::Multi,
            flicker: false,
            stripe_visible: false,
            hover: HIT_NONE,
            capturing: false,
            boss_mods: 0,
            boss_vk: 0,
            boss_set: false,
            hint: None,
        }
    }

    /// The target under `(x, y)`.
    pub fn hit(&self, x: i32, y: i32) -> (h: i32)
        ensures
            h == hit_at(x as int, y as int),
    {
        if r_sel().contains(x, y) {
            return HIT_SEL;
        }
        let mut i: i32 = 0;
        while i < 3
            invariant
                0 <= i <= 3,
                !rect_contains(target_rect(HIT_SEL), x as int, y as int),
                forall|j: int| 0 <= j < i ==> !rect_contains(#[trigger] gen_rect(j), x as int, y as int),
            decreases 3 - i,
        {
            if r_gen(i).contains(x, y) {
                return HIT_GEN0 + i;
            }
            i += 1;
        }
        assert(!rect_contains(gen_rect(0), x as int, y as int));
        assert(!rect_contains(gen_rect(1), x as int, y as int));
        assert(!rect_contains(gen_rect(2), x as int, y as int));
        if r_close().contains(x, y) {
            return HIT_CLOSE;
        }
        if r_flick().contains(x, y) {
            return HIT_FLICK;
        }
        if r_orient().contains(x, y) {
            return HIT_ORIENT;
        }
        if r_boss().contains(x, y) {
            return HIT_BOSS;
        }
        HIT_NONE
    }

    /// The mouse is over target `h`; true when that changes the hover state.
    pub fn set_hover(&mut self, h: i32) -> (changed: bool)
        ensures
            changed == (h != old(self).hover),
            *final(self) == (App { hover: h, ..*old(self) }),
    {
        if h != self.hover {
            self.hover = h;
            true
        } else {
            false
        }
    }
}

/// The panel and the overlay are consistent.
pub open spec fn panel_ok(app: App, layer: Option<Layer>) -> bool {
    &&& app.wf()
    &&& layer_ok(layer)
}

/// The regions `rs` can be laid out in orientation `o` on the overlay `layer`
/// (when there is one).
pub open spec fn fits_on(rs: Seq<Region>, o: Orientation, layer: Option<Layer>) -> bool {
    layer is Some ==> regions_fit(rs, o, layer->0.origin)
}

/// `after` is the overlay `before` showing the lines of `app`'s regions in
/// `app`'s orientation, mode and flicker setting.
pub open spec fn shows(before: Option<Layer>, after: Option<Layer>, app: App, now: u64) -> bool {
    &&& before is None ==> after is None
    &&& before is Some ==> after is Some && restriped(
        with_settings(before->0, app.orientation, app.mode, app.flicker),
        after->0,
        app.regions@,
        now,
    )
}

/// `after` is the overlay `before` taken off screen.
pub open spec fn hidden(before: Option<Layer>, after: Option<Layer>) -> bool {
    &&& before is None ==> after is None
    &&& before is Some ==> after == Some(
        Layer { shown: before->0.shown && before->0.hwnd == 0, ..before->0 },
    )
}

impl App {
    /// A colour button: with regions marked, shows stripes of colour `mode` over
    /// them (true: the panel must be raised above the overlay); without, only
    /// asks for a region first.
    pub fn generate(&mut self, layer: &mut Option<Layer>, mode: ColorMode, now: u64) -> (shown: bool)
        requires
            panel_ok(*old(self), *old(layer)),
            fits_on(old(self).regions@, old(self).orientation, *old(layer)),
            now <= u64::MAX - FLICKER_GAP_MAX_MS,
        ensures
            panel_ok(*final(self), *final(layer)),
            shown == (old(self).regions@.len() > 0),
            shown ==> *final(self) == (App { mode, stripe_visible: true, hint: None, ..*old(self) })
                && shows(*old(layer), *final(layer), *final(self), now),
            !shown ==> final(self).hint is Some && final(self).hint->0@ == hint_no_region()
                && *final(self) == (App { mode, hint: final(self).hint, ..*old(self) }) && *final(layer)
                == *old(layer),
    {
        self.mode = mode;
        if self.regions.len() == 0 {
            self.hint = Some(String::from_str("请先点「开始划定区域」圈出条纹的覆盖范围"));
            return false;
        }
        self.hint = None;
        layer::show(layer, self.regions.as_slice(), self.orientation, self.mode, self.flicker, now);
        self.stripe_visible = true;
        true
    }

    /// "Close stripes": takes the stripes off screen; the regions are kept.
    pub fn close_stripes(&mut self, layer: &mut Option<Layer>)
        ensures
            *final(self) == (App { stripe_visible: false, hint: None, ..*old(self) }),
            hidden(*old(layer), *final(layer)),
    {
        layer::hide_layer(layer);
        self.stripe_visible = false;
        self.hint = None;
    }

    /// Starts selecting regions: the stripes go off screen for the time being
    /// and the mask shows the current regions for reference. Gives whether
    /// stripes were on screen, to restore them afterwards.
    pub fn start_select(&mut self, layer: &mut Option<Layer>, sel: &mut Option<Selector>) -> (restore: bool)
        requires
            *old(sel) is Some ==> (*old(sel))->0.wf(),
        ensures
            restore == old(self).stripe_visible,
            *final(self) == (App { stripe_visible: false, hint: None, ..*old(self) }),
            restore ==> hidden(*old(layer), *final(layer)),
            !restore ==> *final(layer) == *old(layer),
            *old(sel) is None ==> *final(sel) is None,
            *old(sel) is Some ==> {
                let b = (*final(sel))->0;
                &&& *final(sel) is Some
                &&& b.wf()
                &&& b.reference@.len() == old(self).regions@.len()
                &&& forall|i: int|
                    0 <= i < b.reference@.len() ==> selector::same_region(
                        #[trigger] b.reference@[i],
                        old(self).regions@[i],
                    )
                &&& b.orientation == old(self).orientation
                &&& b.regions@.len() == 0
                &&& !b.finished
            },
    {
        let restore = self.stripe_visible;
        if self.stripe_visible {
            layer::hide_layer(layer);
            self.stripe_visible = false;
        }
        self.hint = None;
        selector::begin(sel, self.regions.as_slice(), self.orientation);
        restore
    }

    /// Ends selection: newly drawn regions replace the old ones (none drawn:
    /// the old ones stay); then the stripes come back when they were on screen
    /// before (`restore`) and there are regions, else they stay off.
    pub fn finish_select(
        &mut self,
        layer: &mut Option<Layer>,
        sel: &mut Option<Selector>,
        restore: bool,
        now: u64,
    )
        requires
            panel_ok(*old(self), *old(layer)),
            *old(sel) is Some ==> (*old(sel))->0.wf(),
            restore ==> fits_on(
                if *old(sel) is Some && (*old(sel))->0.regions@.len() > 0 {
                    (*old(sel))->0.regions@
                } else {
                    old(self).regions@
                },
                old(self).orientation,
                *old(layer),
            ),
            now <= u64::MAX - FLICKER_GAP_MAX_MS,
        ensures
            panel_ok(*final(self), *final(layer)),
            final(self).regions@ == if *old(sel) is Some && (*old(sel))->0.regions@.len() > 0 {
                (*old(sel))->0.regions@
            } else {
                old(self).regions@
            },
            *old(sel) is Some ==> *final(sel) is Some && (*final(sel))->0.regions@.len() == 0,
            restore && final(self).regions@.len() > 0 ==> final(self).stripe_visible && shows(
                *old(layer),
                *final(layer),
                *final(self),
                now,
            ),
            !(restore && final(self).regions@.len() > 0) ==> !final(self).stripe_visible && hidden(
                *old(layer),
                *final(layer),
            ),
            *final(self) == (App {
                regions: final(self).regions,
                stripe_visible: final(self).stripe_visible,
                hint: None,
                ..*old(self)
            }),
    {
        let fresh = selector::take_result(sel);
        if fresh.len() > 0 {
            self.regions = fresh;
            proof {
                assert forall|i: int| 0 <= i < self.regions@.len() implies (#[trigger] self.regions@[i]).wf() by {
                    assert(region_ok(self.regions@[i]));
                }
            }
        }
        if restore && self.regions.len() > 0 {
            let mode = self.mode;
            self.generate(layer, mode, now);
        } else {
            layer::hide_layer(layer);
            self.stripe_visible = false;
            self.hint = None;
        }
    }

    /// Switches orientation; stripes on screen are laid out anew right away
    /// (true: the panel must be raised above the overlay).
    pub fn toggle_orientation(&mut self, layer: &mut Option<Layer>, now: u64) -> (rebuilt: bool)
        requires
            panel_ok(*old(self), *old(layer)),
            old(self).stripe_visible && old(self).regions@.len() > 0 ==> fits_on(
                old(self).regions@,
                flipped(old(self).orientation),
                *old(layer),
            ),
            now <= u64::MAX - FLICKER_GAP_MAX_MS,
        ensures
            panel_ok(*final(self), *final(layer)),
            *final(self) == (App { orientation: flipped(old(self).orientation), ..*old(self) }),
            rebuilt == (old(self).stripe_visible && old(self).regions@.len() > 0),
            rebuilt ==> {
                &&& *old(layer) is None ==> *final(layer) is None
                &&& *old(layer) is Some ==> *final(layer) is Some && restriped(
                    Layer {
                        orientation: final(self).orientation,
                        mode: final(self).mode,
                        ..(*old(layer))->0
                    },
                    (*final(layer))->0,
                    final(self).regions@,
                    now,
                )
            },
            !rebuilt ==> *final(layer) == *old(layer),
    {
        self.orientation = match self.orientation {
            Orientation::Vertical => Orientation::Horizontal,
            Orientation::Horizontal => Orientation::Vertical,
        };
        if self.stripe_visible && self.regions.len() > 0 {
            layer::rebuild(layer, self.regions.as_slice(), self.orientation, self.mode, now);
            true
        } else {
            false
        }
    }

    /// Switches flicker; stripes on screen follow right away.
    pub fn toggle_flicker(&mut self, layer: &mut Option<Layer>, now: u64)
        requires
            panel_ok(*old(self), *old(layer)),
            now <= u64::MAX - FLICKER_GAP_MAX_MS,
        ensures
            panel_ok(*final(self), *final(layer)),
            *final(self) == (App { flicker: !old(self).flicker, ..*old(self) }),
            !old(self).stripe_visible ==> *final(layer) == *old(layer),
            old(self).stripe_visible && *old(layer) is None ==> *final(layer) is None,
            old(self).stripe_visible && *old(layer) is Some ==> *final(layer) is Some && layer::flicker_set(
                (*old(layer))->0,
                (*final(layer))->0,
                final(self).flicker,
                now,
            ),
    {
        self.flicker = !self.flicker;
        if self.stripe_visible {
            layer::set_flicker(layer, self.flicker, now);
        }
    }

    /// The boss-key row: starts or cancels waiting for a key combination.
    pub fn toggle_capture(&mut self)
        ensures
            *final(self) == (App { capturing: !old(self).capturing, hint: None, ..*old(self) }),
    {
        self.capturing = !self.capturing;
        self.hint = None;
    }
}

/// What a click on the panel asks for.
#[derive(Clone, Copy, PartialEq, Eq, Debug, Structural)]
pub enum PanelAction {
    /// Mark regions on screen.
    Select,
    /// Show stripes in the given colour mode.
    Generate(ColorMode),
    /// Take the stripes off screen.
    Close,
    /// Switch flicker.
    Flicker,
    /// Switch orientation.
    Orient,
    /// Start or cancel waiting for a boss-key combination.
    Boss,
    /// Nothing (outside every control).
    Nothing,
}

/// The action of a click on the control `h` (see `hit_at`): the selection
/// row selects, the three colour buttons show multi-colour, black and white
/// stripes, and each other row does its own switch.
pub fn click_action(h: i32) -> (a: PanelAction)
    ensures
        h == HIT_SEL <==> a is Select,
        h == HIT_GEN0 <==> a == PanelAction::Generate(ColorMode::Multi),
        h == HIT_GEN1 <==> a == PanelAction::Generate(ColorMode::Black),
        h == HIT_GEN2 <==> a == PanelAction::Generate(ColorMode::White),
        h == HIT_CLOSE <==> a is Close,
        h == HIT_FLICK <==> a is Flicker,
        h == HIT_ORIENT <==> a is Orient,
        h == HIT_BOSS <==> a is Boss,
        !(HIT_SEL <= h <= HIT_BOSS) <==> a is Nothing,
{
    match h {
        HIT_SEL => PanelAction::Select,
        HIT_GEN0 => PanelAction::Generate(ColorMode::Multi),
        HIT_GEN1 => PanelAction::Generate(ColorMode::Black),
        HIT_GEN2 => PanelAction::Generate(ColorMode::White),
        HIT_CLOSE => PanelAction::Close,
        HIT_FLICK => PanelAction::Flicker,
        HIT_ORIENT => PanelAction::Orient,
        HIT_BOSS => PanelAction::Boss,
        _ => PanelAction::Nothing,
    }
}

/// The modifier flags of a key combination from which of Ctrl, Alt, Shift and
/// Win are held.
pub fn modifier_mask(ctrl: bool, alt: bool, shift: bool, win: bool) -> (mods: u32)
    ensures
        mods == (if ctrl { MOD_CONTROL } else { 0 }) + (if alt { MOD_ALT } else { 0 }) + (if shift {
            MOD_SHIFT
        } else {
            0
        }) + (if win { MOD_WIN } else { 0 }),
{
    let mut mods: u32 = 0;
    if ctrl {
        mods += MOD_CONTROL;
    }
    if alt {
        mods += MOD_ALT;
    }
    if shift {
        mods += MOD_SHIFT;
    }
    if win {
        mods += MOD_WIN;
    }
    mods
}

impl App {
    /// Whether the key `vk` closes the panel: Esc does, unless the panel is
    /// waiting for a boss-key combination (then the key goes to `capture_hotkey`).
    pub fn closes_on(&self, vk: u32) -> (b: bool)
        ensures
            b == (!self.capturing && vk == VK_ESCAPE),
    {
        !self.capturing && vk == VK_ESCAPE
    }
}

/// Whether `vk` is one of the modifier keys themselves.
pub open spec fn is_modifier_key(vk: u32) -> bool {
    vk == VK_CONTROL || vk == VK_SHIFT || vk == VK_MENU || vk == VK_LWIN
}

impl App {
    /// A key pressed while waiting for the boss key, with the modifiers `mods`
    /// held: Esc cancels; a bare modifier key is ignored; a key without modifier
    /// is refused with a hint; otherwise the combination is to be registered
    /// (dropping the current boss key first when there is one).
    pub fn capture_hotkey(&mut self, vk: u32, mods: u32) -> (step: HotkeyStep)
        ensures
            vk == VK_ESCAPE ==> step is Done && *final(self) == (App { capturing: false, ..*old(self) }),
            vk != VK_ESCAPE && is_modifier_key(vk) ==> step is Ignore && *final(self) == *old(self),
            vk != VK_ESCAPE && !is_modifier_key(vk) && mods == 0 ==> step is Done
                && final(self).hint is Some && final(self).hint->0@ == hint_no_modifier()
                && *final(self) == (App { capturing: false, hint: final(self).hint, ..*old(self) }),
            vk != VK_ESCAPE && !is_modifier_key(vk) && mods != 0 ==> step == (HotkeyStep::Register {
                mods,
                vk,
                unregister_old: old(self).boss_set,
            }) && *final(self) == *old(self),
    {
        if vk == VK_ESCAPE {
            self.capturing = false;
            return HotkeyStep::Done;
        }
        if vk == VK_CONTROL || vk == VK_SHIFT || vk == VK_MENU || vk == VK_LWIN {
            return HotkeyStep::Ignore;
        }
        if mods == 0 {
            self.hint = Some(String::from_str("快捷键需至少包含一个修饰键（Ctrl / Alt / Shift / Win）"));
            self.capturing = false;
            return HotkeyStep::Done;
        }
        HotkeyStep::Register { mods, vk, unregister_old: self.boss_set }
    }

    /// The outcome of registering `mods` + `vk` as the boss key: on success it
    /// becomes the boss key; on failure a hint names the taken combination and
    /// the previous boss key stays. Waiting for a key ends either way. Gives
    /// whether the previous boss key must be registered again.
    pub fn hotkey_registered(&mut self, mods: u32, vk: u32, ok: bool) -> (reregister: bool)
        ensures
            ok ==> !reregister && *final(self) == (App {
                boss_mods: mods,
                boss_vk: vk,
                boss_set: true,
                hint: None,
                capturing: false,
                ..*old(self)
            }),
            !ok ==> reregister == old(self).boss_set && final(self).hint is Some
                && final(self).hint->0@ == hint_taken(mods, vk) && *final(self) == (App {
                hint: final(self).hint,
                capturing: false,
                ..*old(self)
            }),
    {
        let reregister = if ok {
            self.boss_mods = mods;
            self.boss_vk = vk;
            self.boss_set = true;
            self.hint = None;
            false
        } else {
            let mut h = String::from_str("「");
            h.append(self.boss_text_of(mods, vk).as_str());
            h.append("」已被其它程序占用，请换一组");
            self.hint = Some(h);
            self.boss_set
        };
        self.capturing = false;
        reregister
    }

    /// The outcome of registering `mods` + `vk` directly (without waiting for a
    /// key): on success it becomes the boss key.
    pub fn apply_hotkey(&mut self, mods: u32, vk: u32, ok: bool)
        ensures
            ok ==> *final(self) == (App { boss_mods: mods, boss_vk: vk, boss_set: true, ..*old(self) }),
            !ok ==> *final(self) == *old(self),
    {
        if ok {
            self.boss_mods = mods;
            self.boss_vk = vk;
            self.boss_set = true;
        }
    }

    /// The text of the hot key `mods` + `vk`.
    pub fn boss_text_of(&self, mods: u32, vk: u32) -> (s: String)
        ensures
            s@ == hotkey_text(mods, vk),
    {
        hotkey_string(mods, vk)
    }

    /// The text of the current boss key.
    pub fn boss_text(&self) -> (s: String)
        ensures
            s@ == hotkey_text(self.boss_mods, self.boss_vk),
    {
        hotkey_string(self.boss_mods, self.boss_vk)
    }
}

/// The word for a flicker setting.
pub open spec fn on_off(b: bool) -> Seq<char> {
    if b {
        "开"@
    } else {
        "关"@
    }
}

/// The name of an orientation.
pub open spec fn orientation_name(o: Orientation) -> Seq<char> {
    match o {
        Orientation::Vertical => "竖条纹"@,
        Orientation::Horizontal => "横条纹"@,
    }
}

/// The name of a colour mode.
pub open spec fn mode_name(m: ColorMode) -> Seq<char> {
    match m {
        ColorMode::Multi => "多色"@,
        ColorMode::Black => "纯黑"@,
        ColorMode::White => "纯白"@,
    }
}

/// The summaries of `rs`, one per line.
pub open spec fn joined_summaries(rs: Seq<Region>, o: Orientation) -> Seq<char>
    decreases rs.len(),
{
    if rs.len() == 0 {
        seq![]
    } else if rs.len() == 1 {
        summary_text(rs[0], o)
    } else {
        joined_summaries(rs.drop_last(), o) + "\n"@ + summary_text(rs.last(), o)
    }
}

/// The region detail of the panel: the first three regions, or a prompt when there are none.
pub open spec fn detail_text(rs: Seq<Region>, o: Orientation) -> Seq<char> {
    if rs.len() == 0 {
        "（暂无标记区域，请点「开始划定区域」）"@
    } else {
        joined_summaries(rs.take(if rs.len() < 3 { rs.len() as int } else { 3 }), o)
    }
}

impl App {
    /// The orientation row.
    pub fn orient_label(&self) -> (s: String)
        ensures
            s@ == "条纹方向："@ + orientation_name(self.orientation) + "（点击切换）"@,
    {
        let mut s = String::from_str("条纹方向：");
        s.append(self.orientation.name());
        s.append("（点击切换）");
        s
    }

    /// The boss-key row.
    pub fn boss_label(&self) -> (s: String)
        ensures
            s@ == if self.capturing {
                "请按下要绑定的组合键…（Esc 取消）"@
            } else if self.boss_set {
                "老板键："@ + hotkey_text(self.boss_mods, self.boss_vk) + "（点击重设）"@
            } else {
                "老板键：未设置（点击设置）"@
            },
    {
        if self.capturing {
            String::from_str("请按下要绑定的组合键…（Esc 取消）")
        } else if self.boss_set {
            let mut s = String::from_str("老板键：");
            s.append(self.boss_text().as_str());
            s.append("（点击重设）");
            s
        } else {
            String::from_str("老板键：未设置（点击设置）")
        }
    }

    /// The region count line.
    pub fn count_label(&self) -> (s: String)
        ensures
            s@ == "已标记区域："@ + decimal(self.regions@.len() as int) + " 个（已记忆）"@,
    {
        let mut s = String::from_str("已标记区域：");
        s.append(unsigned_string(self.regions.len() as u64).as_str());
        s.append(" 个（已记忆）");
        s
    }

    /// The status line: the hint when there is one, else whether stripes show
    /// (with colour and orientation) and whether flicker is on.
    pub fn status_label(&self) -> (s: String)
        ensures
            s@ == if self.hint is Some {
                self.hint->0@
            } else if self.stripe_visible {
                "条纹：显示中（"@ + mode_name(self.mode) + " · "@ + orientation_name(self.orientation)
                    + "）　　闪烁："@ + on_off(self.flicker)
            } else {
                "条纹：已关闭　　闪烁："@ + on_off(self.flicker)
            },
    {
        match &self.hint {
            Some(h) => h.clone(),
            None => {
                let mut s = if self.stripe_visible {
                    let mut t = String::from_str("条纹：显示中（");
                    t.append(self.mode.name());
                    t.append(" · ");
                    t.append(self.orientation.name());
                    t.append("）　　闪烁：");
                    t
                } else {
                    String::from_str("条纹：已关闭　　闪烁：")
                };
                s.append(if self.flicker {
                    "开"
                } else {
                    "关"
                });
                s
            },
        }
    }

    /// The region detail text.
    pub fn detail(&self) -> (s: String)
        requires
            self.wf(),
        ensures
            s@ == detail_text(self.regions@, self.orientation),
    {
        let n = self.regions.len();
        if n == 0 {
            return String::from_str("（暂无标记区域，请点「开始划定区域」）");
        }
        let k: usize = if n < 3 {
            n
        } else {
            3
        };
        let mut s = String::new();
        let mut i: usize = 0;
        proof {
            assert(self.regions@.take(0) =~= Seq::<Region>::empty());
        }
        while i < k
            invariant
                k <= n,
                n == self.regions@.len(),
                i <= k,
                self.wf(),
                s@ == joined_summaries(self.regions@.take(i as int), self.orientation),
            decreases k - i,
        {
            proof {
                lemma_box_fits(self.regions@[i as int]);
                assert(self.regions@.take(i + 1).drop_last() =~= self.regions@.take(i as int));
            }
            if i > 0 {
                s.append("\n");
            }
            let line = self.regions[i].summary(self.orientation);
            s.append(line.as_str());
            proof {
                if i == 0 {
                    assert(s@ =~= summary_text(self.regions@[0], self.orientation));
                }
            }
            i += 1;
        }
        s
    }
}

/// The word for a boolean, as Rust prints it.
pub open spec fn bool_text(b: bool) -> Seq<char> {
    if b {
        "true"@
    } else {
        "false"@
    }
}

fn bool_str(b: bool) -> (s: &'static str)
    ensures
        s@ == bool_text(b),
{
    if b {
        "true"
    } else {
        "false"
    }
}

/// The one-line summary of the panel state used by the self test.
pub fn debug_state(app: &Option<App>) -> (s: String)
    ensures
        app is None ==> s@ == "无状态"@,
        app is Some ==> {
            let a = app->0;
            s@ == "regions="@ + decimal(a.regions@.len() as int) + " orientation="@ + orientation_name(
                a.orientation,
            ) + " mode="@ + mode_name(a.mode) + " flicker="@ + bool_text(a.flicker) + " visible="@
                + bool_text(a.stripe_visible)
        },
{
    match app {
        Some(a) => {
            let mut s = String::from_str("regions=");
            s.append(unsigned_string(a.regions.len() as u64).as_str());
            s.append(" orientation=");
            s.append(a.orientation.name());
            s.append(" mode=");
            s.append(a.mode.name());
            s.append(" flicker=");
            s.append(bool_str(a.flicker));
            s.append(" visible=");
            s.append(bool_str(a.stripe_visible));
            s
        },
        None => String::from_str("无状态"),
    }
}

/// Window handle of the panel (0 without one).
pub fn hwnd(app: &Option<App>) -> (h: isize)
    ensures
        h == if app is Some {
            app->0.hwnd
        } else {
            0
        },
{
    match app {
        Some(a) => a.hwnd,
        None => 0,
    }
}

/// The smaller of two integers.
pub open spec fn min2(a: int, b: int) -> int {
    if a < b {
        a
    } else {
        b
    }
}

/// The size of an extent, whichever way it points.
pub open spec fn size(d: int) -> int {
    if d < 0 {
        -d
    } else {
        d
    }
}

/// The rectangle with corner `(x, y)` and extent `w` x `h` (either sign) can be
/// a region laid out on an overlay at `origin` in orientation `o`.
pub open spec fn square_fits(x: i32, y: i32, w: i32, h: i32, origin: (i32, i32), o: Orientation) -> bool {
    let bx = min2(x as int, x + w) - origin.0;
    let by = min2(y as int, y + h) - origin.1;
    match o {
        Orientation::Vertical => i32::MIN <= bx <= i32::MAX && (size(w as int) < 1 || bx + size(w as int)
            + 3 <= i32::MAX),
        Orientation::Horizontal => i32::MIN <= by <= i32::MAX && (size(h as int) < 1 || by + size(h as int)
            + 3 <= i32::MAX),
    }
}

/// Self test: marks the single region with corner `(x, y)` and extent `w` x `h`
/// and shows multi-colour stripes over it.
pub fn debug_add_region(
    app: &mut Option<App>,
    layer: &mut Option<Layer>,
    x: i32,
    y: i32,
    w: i32,
    h: i32,
    now: u64,
)
    requires
        *old(app) is Some ==> panel_ok((*old(app))->0, *old(layer)),
        i32::MIN < w && i32::MIN < h,
        i32::MIN <= x + w <= i32::MAX,
        i32::MIN <= y + h <= i32::MAX,
        *old(app) is Some && *old(layer) is Some ==> square_fits(
            x,
            y,
            w,
            h,
            (*old(layer))->0.origin,
            (*old(app))->0.orientation,
        ),
        now <= u64::MAX - FLICKER_GAP_MAX_MS,
    ensures
        *old(app) is None ==> *final(app) is None && *final(layer) == *old(layer),
        *old(app) is Some ==> {
            let a = (*final(app))->0;
            &&& *final(app) is Some
            &&& panel_ok(a, *final(layer))
            &&& a.regions@.len() == 1
            &&& a.regions@[0].points@ == seq![
                POINT { x, y },
                POINT { x: (x + w) as i32, y },
                POINT { x: (x + w) as i32, y: (y + h) as i32 },
                POINT { x, y: (y + h) as i32 },
            ]
            &&& a == (App {
                regions: a.regions,
                mode: ColorMode::Multi,
                stripe_visible: true,
                hint: None,
                ..(*old(app))->0
            })
            &&& shows(*old(layer), *final(layer), a, now)
        },
{
    match app {
        Some(a) => {
            let pts = vec![
                POINT { x, y },
                POINT { x: x + w, y },
                POINT { x: x + w, y: y + h },
                POINT { x, y: y + h },
            ];
            let ghost p = pts@;
            assert(p.len() == 4);
            assert(forall|i: int| 0 <= i < 4 ==> p[i].x == x || p[i].x == x + w);
            assert(forall|i: int| 0 <= i < 4 ==> p[i].y == y || p[i].y == y + h);
            let reg = Region::from_points(pts);
            proof {
                let rx = min2(x as int, x + w);
                let ry = min2(y as int, y + h);
                assert(bounds_points(p, reg.x as int, reg.y as int, reg.w as int, reg.h as int));
                assert(reg.x <= p[0].x && reg.x <= p[1].x && reg.y <= p[0].y && reg.y <= p[2].y);
                assert(p[0].x <= reg.x + reg.w && p[1].x <= reg.x + reg.w);
                assert(p[0].y <= reg.y + reg.h && p[2].y <= reg.y + reg.h);
                let i = choose|i: int| 0 <= i < p.len() && #[trigger] p[i].x == reg.x;
                let j = choose|i: int| 0 <= i < p.len() && #[trigger] p[i].x == reg.x + reg.w;
                let k = choose|i: int| 0 <= i < p.len() && #[trigger] p[i].y == reg.y;
                let l = choose|i: int| 0 <= i < p.len() && #[trigger] p[i].y == reg.y + reg.h;
                assert(reg.x == rx && reg.w == size(w as int));
                assert(reg.y == ry && reg.h == size(h as int));
            }
            a.regions = vec![reg];
            proof {
                assert(a.regions@.len() == 1);
                assert forall|i: int| 0 <= i < a.regions@.len() implies (#[trigger] a.regions@[i]).wf() by {}
            }
            a.generate(layer, ColorMode::Multi, now);
        },
        None => {},
    }
}

/// Self test: sets orientation, flicker and colour where given; stripes on
/// screen are shown anew with the new settings.
pub fn debug_set(
    app: &mut Option<App>,
    layer: &mut Option<Layer>,
    orientation: Option<Orientation>,
    flicker: Option<bool>,
    mode: Option<ColorMode>,
    now: u64,
)
    requires
        *old(app) is Some ==> panel_ok((*old(app))->0, *old(layer)),
        *old(app) is Some && (*old(app))->0.stripe_visible && (*old(app))->0.regions@.len() > 0 ==> fits_on(
            (*old(app))->0.regions@,
            if orientation is Some {
                orientation->0
            } else {
                (*old(app))->0.orientation
            },
            *old(layer),
        ),
        now <= u64::MAX - FLICKER_GAP_MAX_MS,
    ensures
        *old(app) is None ==> *final(app) is None && *final(layer) == *old(layer),
        *old(app) is Some ==> {
            let a0 = (*old(app))->0;
            let a = (*final(app))->0;
            &&& *final(app) is Some
            &&& panel_ok(a, *final(layer))
            &&& a == (App {
                orientation: if orientation is Some {
                    orientation->0
                } else {
                    a0.orientation
                },
                flicker: if flicker is Some {
                    flicker->0
                } else {
                    a0.flicker
                },
                mode: if mode is Some {
                    mode->0
                } else {
                    a0.mode
                },
                ..a0
            })
            &&& a.stripe_visible && a.regions@.len() > 0 ==> shows(*old(layer), *final(layer), a, now)
            &&& !(a.stripe_visible && a.regions@.len() > 0) ==> *final(layer) == *old(layer)
        },
{
    match app {
        Some(a) => {
            if let Some(o) = orientation {
                a.orientation = o;
            }
            if let Some(m) = mode {
                a.mode = m;
            }
            if let Some(f) = flicker {
                a.flicker = f;
            }
            if a.stripe_visible && a.regions.len() > 0 {
                layer::show(layer, a.regions.as_slice(), a.orientation, a.mode, a.flicker, now);
            }
        },
        None => {},
    }
}

} // verus!
