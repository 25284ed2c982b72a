//! The startup disclaimer: it must be accepted before anything else appears;
//! declining, Esc or closing the window all mean "no".

use vstd::prelude::*;
use vstd::string::StringExecFns;
use crate::win::{rect_contains, RECT};

verus! {

/// Client width of the dialog.
pub const CW: i32 = 560;

/// Client height of the dialog.
pub const CH: i32 = 430;

/// Left margin of the content.
pub const X0: i32 = 24;

/// Width of the content.
pub const W: i32 = 512;

/// Hit-test targets.
pub const HIT_NONE: i32 = 0;

pub const HIT_AGREE: i32 = 1;

pub const HIT_DECLINE: i32 = 2;

/// Virtual-key codes of Enter and Esc.
pub const VK_RETURN: u32 = 0x0D;

pub const VK_ESCAPE: u32 = 0x1B;

/// The "agree and continue" button.
pub fn r_agree() -> (r: RECT)
    ensures
        r == (RECT { left: 336, top: 354, right: 536, bottom: 396 }),
{
    RECT::new(X0 + W - 200, 354, X0 + W, 396)
}

/// The "decline and quit" button.
pub fn r_decline() -> (r: RECT)
    ensures
        r == (RECT { left: 24, top: 354, right: 224, bottom: 396 }),
{
    RECT::new(X0, 354, X0 + 200, 396)
}

/// The button under `(x, y)`.
pub open spec fn hit_at(x: int, y: int) -> i32 {
    if rect_contains(RECT { left: 336, top: 354, right: 536, bottom: 396 }, x, y) {
        HIT_AGREE
    } else if rect_contains(RECT { left: 24, top: 354, right: 224, bottom: 396 }, x, y) {
        HIT_DECLINE
    } else {
        HIT_NONE
    }
}

/// The dialog state.
pub struct Disclaimer {
    /// Window handle of the dialog (0 = none).
    pub hwnd: isize,
    /// The button under the mouse.
    pub hover: i32,
    /// The answer: `Some(true)` agreed, `Some(false)` declined, `None` not yet.
    pub agreed: Option<bool>,
}

impl Disclaimer {
    /// The dialog before any answer.
    pub fn new(hwnd: isize) -> (d: Self)
        ensures
            d.hwnd == hwnd,
            d.hover == HIT_NONE,
            d.agreed is None,
    {
        Disclaimer { hwnd, hover: HIT_NONE, agreed: None }
    }

    /// The button under `(x, y)`.
    pub fn hit(&self, x: i32, y: i32) -> (h: i32)
        ensures
            h == hit_at(x as int, y as int),
    {
        if r_agree().contains(x, y) {
            HIT_AGREE
        } else if r_decline().contains(x, y) {
            HIT_DECLINE
        } else {
            HIT_NONE
        }
    }

    /// The mouse is over `h`; true when that changes the hover state.
    pub fn set_hover(&mut self, h: i32) -> (changed: bool)
        ensures
            changed == (h != old(self).hover),
            *final(self) == (Disclaimer { hover: h, ..*old(self) }),
    {
        if h != self.hover {
            self.hover = h;
            true
        } else {
            false
        }
    }

    /// A click at `(x, y)`: the agree button agrees, the decline button
    /// declines, elsewhere nothing. True when answered (the dialog goes away).
    pub fn on_click(&mut self, x: i32, y: i32) -> (answered: bool)
        ensures
            answered == (hit_at(x as int, y as int) != HIT_NONE),
            hit_at(x as int, y as int) == HIT_AGREE ==> final(self).agreed == Some(true),
            hit_at(x as int, y as int) == HIT_DECLINE ==> final(self).agreed == Some(false),
            hit_at(x as int, y as int) == HIT_NONE ==> *final(self) == *old(self),
            final(self).hwnd == old(self).hwnd,
            final(self).hover == old(self).hover,
    {
        let h = self.hit(x, y);
        if h == HIT_AGREE {
            self.agreed = Some(true);
            true
        } else if h == HIT_DECLINE {
            self.agreed = Some(false);
            true
        } else {
            false
        }
    }

    /// A key: Enter agrees, Esc declines. True when handled (answered).
    pub fn on_key(&mut self, vk: u32) -> (handled: bool)
        ensures
            handled == (vk == VK_RETURN || vk == VK_ESCAPE),
            vk == VK_RETURN ==> final(self).agreed == Some(true),
            vk == VK_ESCAPE ==> final(self).agreed == Some(false),
            !handled ==> *final(self) == *old(self),
            final(self).hwnd == old(self).hwnd,
            final(self).hover == old(self).hover,
    {
        if vk == VK_RETURN || vk == VK_ESCAPE {
            self.agreed = Some(vk == VK_RETURN);
            true
        } else {
            false
        }
    }

    /// Closing the window declines, so the disclaimer cannot be bypassed.
    pub fn on_close(&mut self)
        ensures
            *final(self) == (Disclaimer { agreed: Some(false), ..*old(self) }),
    {
        self.agreed = Some(false);
    }
}

/// Whether there is a dialog to ask with (a window was made).
pub fn can_ask(dlg: &Option<Disclaimer>) -> (b: bool)
    ensures
        b == (dlg is Some && dlg->0.hwnd != 0),
{
    match dlg {
        Some(d) => d.hwnd != 0,
        None => false,
    }
}

/// Whether waiting for the answer is over: answered, or no dialog.
pub fn answered(dlg: &Option<Disclaimer>) -> (b: bool)
    ensures
        b == (dlg is None || dlg->0.agreed is Some),
{
    match dlg {
        Some(d) => d.agreed.is_some(),
        None => true,
    }
}

/// The outcome: true only when the user agreed.
pub fn answer(dlg: &Option<Disclaimer>) -> (b: bool)
    ensures
        b == (dlg is Some && dlg->0.agreed == Some(true)),
{
    match dlg {
        Some(d) => match d.agreed {
            Some(a) => a,
            None => false,
        },
        None => false,
    }
}

/// The result of asking: the program goes on only when the dialog was shown
/// (a window was made) and the user explicitly agreed; without a dialog window
/// nobody can agree, so it does not go on.
pub fn ask_outcome(dlg: &Option<Disclaimer>) -> (go_on: bool)
    ensures
        go_on == (dlg is Some && dlg->0.hwnd != 0 && dlg->0.agreed == Some(true)),
{
    if !can_ask(dlg) {
        return false;
    }
    answer(dlg)
}

/// The disclaimer text, paragraphs separated by a blank line.
pub fn body() -> (s: String)
    ensures
        s@ == paragraph(0) + "\n\n"@ + paragraph(1) + "\n\n"@ + paragraph(2) + "\n\n"@ + paragraph(3),
{
    let mut s = String::from_str("本软件是一款免费开源软件，遵循 MIT 开源协议；不包含也不提供任何收费内容或付费功能。");
    s.append("\n\n");
    s.append("本软件仅用于屏幕显示效果的演示与娱乐用途。请勿用于任何违法或不当用途，包括但不限于：伪造设备故障以骗取维修、保修或保险赔付；干扰他人正常工作、学习或造成他人损失；用于任何需要真实性的场合（如报修、举证、鉴定）。");
    s.append("\n\n");
    s.append("依据 MIT 协议，本软件按「原样」提供，不附带任何明示或默示的担保。如将本软件用于非法或不当用途，由此产生的一切法律责任与后果均由使用者自行承担，作者与贡献者不承担任何责任。");
    s.append("\n\n");
    s.append("点击「同意并继续」表示你已阅读、理解并接受上述全部条款；点击「不同意」将立即退出本软件。");
    s
}

/// The paragraphs of the disclaimer.
pub open spec fn paragraph(i: int) -> Seq<char> {
    if i == 0 {
        "本软件是一款免费开源软件，遵循 MIT 开源协议；不包含也不提供任何收费内容或付费功能。"@
    } else if i == 1 {
        "本软件仅用于屏幕显示效果的演示与娱乐用途。请勿用于任何违法或不当用途，包括但不限于：伪造设备故障以骗取维修、保修或保险赔付；干扰他人正常工作、学习或造成他人损失；用于任何需要真实性的场合（如报修、举证、鉴定）。"@
    } else if i == 2 {
        "依据 MIT 协议，本软件按「原样」提供，不附带任何明示或默示的担保。如将本软件用于非法或不当用途，由此产生的一切法律责任与后果均由使用者自行承担，作者与贡献者不承担任何责任。"@
    } else {
        "点击「同意并继续」表示你已阅读、理解并接受上述全部条款；点击「不同意」将立即退出本软件。"@
    }
}

} // verus!
