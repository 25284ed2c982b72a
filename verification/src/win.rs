//! Plain values shared with the windowing layer: colours, points, rectangles,
//! wide strings and mouse coordinates packed into a message parameter.

use vstd::prelude::*;

verus! {

/// A colour as the window system stores it: `0x00BBGGRR`.
pub open spec fn spec_rgb(r: u8, g: u8, b: u8) -> u32 {
    (r as u32) | ((g as u32) << 8u32) | ((b as u32) << 16u32)
}

/// Packs red, green and blue into a colour value (`0x00BBGGRR`).
pub fn rgb(r: u8, g: u8, b: u8) -> (c: u32)
    ensures
        c == spec_rgb(r, g, b),
        c == r + 256 * g + 65536 * b,
{
    let c = (r as u32) | ((g as u32) << 8u32) | ((b as u32) << 16u32);
    assert((r as u32) | ((g as u32) << 8u32) | ((b as u32) << 16u32) == r + 256 * g + 65536 * b)
        by (bit_vector);
    c
}


/// A point in pixels.
#[derive(Clone, Copy, Default)]
pub struct POINT {
    pub x: i32,
    pub y: i32,
}

/// A rectangle in pixels; `right` and `bottom` lie just outside it.
#[derive(Clone, Copy, Default)]
pub struct RECT {
    pub left: i32,
    pub top: i32,
    pub right: i32,
    pub bottom: i32,
}

/// Whether `(x, y)` lies in the half-open rectangle `r`.
pub open spec fn rect_contains(r: RECT, x: int, y: int) -> bool {
    r.left <= x < r.right && r.top <= y < r.bottom
}

/// Whether two half-open rectangles share an interior point.
pub open spec fn rects_intersect(a: RECT, b: RECT) -> bool {
    a.left < b.right && b.left < a.right && a.top < b.bottom && b.top < a.bottom
}

impl RECT {
    pub fn new(l: i32, t: i32, r: i32, b: i32) -> (rc: Self)
        ensures
            rc.left == l,
            rc.top == t,
            rc.right == r,
            rc.bottom == b,
    {
        RECT { left: l, top: t, right: r, bottom: b }
    }

    /// Width.
    pub fn w(&self) -> (w: i32)
        requires
            i32::MIN <= self.right - self.left <= i32::MAX,
        ensures
            w == self.right - self.left,
    {
        self.right - self.left
    }

    /// Height.
    pub fn h(&self) -> (h: i32)
        requires
            i32::MIN <= self.bottom - self.top <= i32::MAX,
        ensures
            h == self.bottom - self.top,
    {
        self.bottom - self.top
    }

    /// Whether `(x, y)` lies inside; the right and bottom edges are outside.
    pub fn contains(&self, x: i32, y: i32) -> (b: bool)
        ensures
            b == rect_contains(*self, x as int, y as int),
    {
        x >= self.left && x < self.right && y >= self.top && y < self.bottom
    }

    /// Whether the two rectangles overlap.
    pub fn intersects(&self, o: &RECT) -> (b: bool)
        ensures
            b == rects_intersect(*self, *o),
    {
        self.left < o.right && o.left < self.right && self.top < o.bottom && o.top < self.bottom
    }
}

/// Overlap does not depend on the order of the two rectangles, and a point
/// inside both rectangles makes them overlap.
pub proof fn lemma_intersects_symmetric(a: RECT, b: RECT, x: int, y: int)
    ensures
        rects_intersect(a, b) == rects_intersect(b, a),
        rect_contains(a, x, y) && rect_contains(b, x, y) ==> rects_intersect(a, b),
{
}

/// Half of `v`, rounded toward zero (as integer division does).
pub open spec fn half(v: int) -> int {
    if v >= 0 {
        v / 2
    } else {
        -((-v) / 2)
    }
}

/// `v`, but not below zero.
pub open spec fn at_least_zero(v: int) -> int {
    if v < 0 {
        0
    } else {
        v
    }
}

/// Where a `w` x `h` window goes to sit in the middle: of the work area `wa`
/// when it is known and not empty (clamped to its top-left corner when the
/// window is bigger), else of the `sw` x `sh` screen (clamped to 0).
pub open spec fn centered(wa: Option<RECT>, sw: i32, sh: i32, w: i32, h: i32) -> (int, int) {
    if wa is Some && wa->0.right - wa->0.left > 0 && wa->0.bottom - wa->0.top > 0 {
        let a = wa->0;
        (
            a.left + at_least_zero(half(a.right - a.left - w)),
            a.top + at_least_zero(half(a.bottom - a.top - h)),
        )
    } else {
        (at_least_zero(half(sw - w)), at_least_zero(half(sh - h)))
    }
}

/// The position that centres a `w` x `h` window in the work area `wa` (`None`
/// when the system did not give one) or else on the `sw` x `sh` screen.
pub fn center_in_work_area(wa: Option<RECT>, sw: i32, sh: i32, w: i32, h: i32) -> (p: (i32, i32))
    requires
        wa is Some ==> i32::MIN <= wa->0.right - wa->0.left <= i32::MAX && i32::MIN <= wa->0.bottom
            - wa->0.top <= i32::MAX,
        wa is Some && wa->0.right - wa->0.left > 0 && wa->0.bottom - wa->0.top > 0 ==> {
            &&& i32::MIN <= wa->0.right - wa->0.left - w <= i32::MAX
            &&& i32::MIN <= wa->0.bottom - wa->0.top - h <= i32::MAX
            &&& i32::MIN <= centered(wa, sw, sh, w, h).0 <= i32::MAX
            &&& i32::MIN <= centered(wa, sw, sh, w, h).1 <= i32::MAX
        },
        !(wa is Some && wa->0.right - wa->0.left > 0 && wa->0.bottom - wa->0.top > 0) ==> i32::MIN
            <= sw - w <= i32::MAX && i32::MIN <= sh - h <= i32::MAX,
    ensures
        p.0 == centered(wa, sw, sh, w, h).0,
        p.1 == centered(wa, sw, sh, w, h).1,
{
    if let Some(a) = wa {
        if a.w() > 0 && a.h() > 0 {
            let dx = (a.w() - w) / 2;
            let dy = (a.h() - h) / 2;
            let x = a.left + if dx > 0 {
                dx
            } else {
                0
            };
            let y = a.top + if dy > 0 {
                dy
            } else {
                0
            };
            return (x, y);
        }
    }
    let dx = (sw - w) / 2;
    let dy = (sh - h) / 2;
    (if dx > 0 {
        dx
    } else {
        0
    }, if dy > 0 {
        dy
    } else {
        0
    })
}

/// The signed value of the low 16 bits of `v`.
pub open spec fn low_word_signed(v: int) -> int {
    let w = v % 0x10000;
    if w >= 0x8000 {
        w - 0x10000
    } else {
        w
    }
}

/// The mouse position packed in a message parameter: `x` in the low 16 bits,
/// `y` in the next 16, each a signed 16-bit value.
pub fn cursor_from_lparam(lp: isize) -> (p: (i32, i32))
    ensures
        p.0 == low_word_signed(lp as int),
        p.1 == low_word_signed(lp as int / 0x10000),
{
    let x = (lp & 0xFFFF) as u16 as i16 as i32;
    let y = ((lp >> 16u32) & 0xFFFF) as u16 as i16 as i32;
    assert(((lp & 0xFFFF) as u16 as i16 as i32) as int == low_word_signed(lp as int)) by (bit_vector);
    assert((((lp >> 16u32) & 0xFFFF) as u16 as i16 as i32) as int == low_word_signed(lp as int / 0x10000)) by (bit_vector);
    (x, y)
}

/// The UTF-16 code units of one character.
pub open spec fn utf16_of(c: char) -> Seq<u16> {
    let v = c as u32;
    if v < 0x10000 {
        seq![v as u16]
    } else {
        let u = (v - 0x10000) as u32;
        seq![(0xD800 + u / 0x400) as u16, (0xDC00 + u % 0x400) as u16]
    }
}

/// The UTF-16 encoding of a character sequence.
pub open spec fn utf16(s: Seq<char>) -> Seq<u16>
    decreases s.len(),
{
    if s.len() == 0 {
        seq![]
    } else {
        utf16(s.drop_last()) + utf16_of(s.last())
    }
}

/// A zero-terminated UTF-16 copy of `s`, as the wide-character calls want it.
pub fn wide(s: &str) -> (w: Vec<u16>)
    ensures
        w@ == utf16(s@).push(0u16),
{
    broadcast use vstd::string::group_string_axioms;
    let mut out: Vec<u16> = Vec::new();
    for c in it: s.chars()
        invariant
            it.seq() == s@,
            out@ == utf16(it.seq().take(it.index() as int)),
    {
        let ghost pre = out@;
        let ghost k = it.index() as int;
        assert(c == it.seq()[k]);
        let v = #[verifier::truncate] (c as u32);
        if v < 0x10000 {
            out.push(v as u16);
        } else {
            let u = v - 0x10000;
            out.push(#[verifier::truncate] ((0xD800 + u / 0x400) as u16));
            out.push(#[verifier::truncate] ((0xDC00 + u % 0x400) as u16));
        }
        proof {
            let sq = s@.take(k + 1);
            assert(sq.drop_last() =~= s@.take(k));
            assert(out@ =~= pre + utf16_of(c));
        }
    }
    proof {
        assert(s@.take(s@.len() as int) =~= s@);
    }
    out.push(0);
    out
}

} // verus!
