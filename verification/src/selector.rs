//! The selection mask: the user draws loops on a dimmed full-screen window,
//! each loop big enough becomes a marked region.

use vstd::prelude::*;
use vstd::string::StringExecFns;
use crate::model::{bounds_points, spread_fits, Orientation, Region, MIN_POINT_DIST, MIN_REGION};
use crate::win::{POINT, RECT};

verus! {

/// Virtual-key code of Esc.
pub const VK_ESCAPE: u32 = 0x1B;

/// Virtual-key code of Enter.
pub const VK_RETURN: u32 = 0x0D;

/// The selection state.
pub struct Selector {
    /// Window handle of the mask (0 = none).
    pub hwnd: isize,
    /// Top-left corner of the virtual desktop, where the mask sits.
    pub origin: (i32, i32),
    pub vw: i32,
    pub vh: i32,
    pub orientation: Orientation,
    /// The regions marked before, shown for reference.
    pub reference: Vec<Region>,
    /// The regions drawn this time (screen coordinates).
    pub regions: Vec<Region>,
    /// The trace being drawn (mask coordinates).
    pub current: Vec<POINT>,
    pub pressed: bool,
    pub finished: bool,
}

/// Manhattan distance from `p` to `(x, y)`.
pub open spec fn manhattan(p: POINT, x: i32, y: i32) -> int {
    let dx = x - p.x;
    let dy = y - p.y;
    (if dx < 0 {
        -dx
    } else {
        dx
    }) + (if dy < 0 {
        -dy
    } else {
        dy
    })
}

/// Successive points of a trace are at least `MIN_POINT_DIST` apart.
pub open spec fn sampled(pts: Seq<POINT>) -> bool {
    forall|i: int|
        0 < i < pts.len() ==> manhattan(#[trigger] pts[i - 1], pts[i].x, pts[i].y) >= MIN_POINT_DIST
}

/// A marked region: its box describes its outline and spans at least
/// `MIN_REGION` pixels both ways.
pub open spec fn region_ok(r: Region) -> bool {
    &&& r.wf()
    &&& r.w >= MIN_REGION
    &&& r.h >= MIN_REGION
}

/// `pts` shifted by `(ox, oy)`.
pub open spec fn shifted(pts: Seq<POINT>, ox: i32, oy: i32) -> Seq<POINT> {
    pts.map_values(|p: POINT| POINT { x: (p.x + ox) as i32, y: (p.y + oy) as i32 })
}

/// The trace can be moved to screen coordinates and boxed within `i32`.
pub open spec fn trace_fits(pts: Seq<POINT>, origin: (i32, i32)) -> bool {
    &&& forall|i: int|
        0 <= i < pts.len() ==> i32::MIN <= #[trigger] pts[i].x + origin.0 <= i32::MAX && i32::MIN
            <= pts[i].y + origin.1 <= i32::MAX
    &&& spread_fits(pts)
}

/// The trace `cur` after offering the point `(x, y)`: kept as it is when the
/// point lies closer than `MIN_POINT_DIST` to the last point, else extended by it.
pub open spec fn traced(cur: Seq<POINT>, x: i32, y: i32) -> Seq<POINT> {
    if cur.len() > 0 && manhattan(cur.last(), x, y) < MIN_POINT_DIST {
        cur
    } else {
        cur.push(POINT { x, y })
    }
}

/// How closing the trace `trace` (mask coordinates, mask at `origin`) turns the
/// regions `before` into `after`: with at least 3 points whose box spans at
/// least `MIN_REGION` both ways, the loop moved to screen coordinates is
/// appended as a region; otherwise the regions stay.
pub open spec fn lassoed(before: Seq<Region>, after: Seq<Region>, trace: Seq<POINT>, origin: (i32, i32)) -> bool {
    let pts = shifted(trace, origin.0, origin.1);
    if trace.len() >= 3 && exists|r: Region| r.points@ == pts && r.wf() && r.w >= MIN_REGION && r.h >= MIN_REGION {
        &&& after.len() == before.len() + 1
        &&& after.drop_last() == before
        &&& after.last().points@ == pts
    } else {
        after == before
    }
}

/// The sampling rule of a trace, whatever its length: a point at Manhattan
/// distance `MIN_POINT_DIST` or more from the last point (or the first point)
/// is appended, a closer one is dropped; the trace grows by at most one point
/// and keeps what it had.
pub proof fn lemma_trace_rule(cur: Seq<POINT>, x: i32, y: i32)
    ensures
        cur.len() == 0 || manhattan(cur.last(), x, y) >= MIN_POINT_DIST ==> traced(cur, x, y) == cur.push(
            POINT { x, y },
        ),
        cur.len() > 0 && manhattan(cur.last(), x, y) < MIN_POINT_DIST ==> traced(cur, x, y) == cur,
        traced(cur, x, y).len() <= cur.len() + 1,
        traced(cur, x, y).take(cur.len() as int) == cur,
{
    assert(cur.push(POINT { x, y }).take(cur.len() as int) =~= cur);
    assert(cur.take(cur.len() as int) =~= cur);
}

impl Selector {
    /// The selection invariant: a sampled trace and well-formed regions.
    pub open spec fn wf(&self) -> bool {
        &&& sampled(self.current@)
        &&& forall|i: int| 0 <= i < self.regions@.len() ==> region_ok(#[trigger] self.regions@[i])
    }

    /// The mask over the virtual desktop at `origin` of size `vw` x `vh`, idle.
    pub fn new(hwnd: isize, origin: (i32, i32), vw: i32, vh: i32) -> (s: Self)
        ensures
            s.wf(),
            s.hwnd == hwnd,
            s.origin == origin,
            s.vw == vw,
            s.vh == vh,
            s.orientation == Orientation::Vertical,
            s.reference@.len() == 0,
            s.regions@.len() == 0,
            s.current@.len() == 0,
            !s.pressed,
            !s.finished,
    {
        Selector {
            hwnd,
            origin,
            vw,
            vh,
            orientation: Orientation::Vertical,
            reference: Vec::new(),
            regions: Vec::new(),
            current: Vec::new(),
            pressed: false,
            finished: false,
        }
    }

    /// Adds `(x, y)` to the trace unless it lies closer than `MIN_POINT_DIST`
    /// to the last point.
    pub fn add_point(&mut self, x: i32, y: i32)
        requires
            old(self).wf(),
            old(self).current@.len() > 0 ==> manhattan(old(self).current@.last(), x, y) <= i32::MAX,
        ensures
            final(self).wf(),
            final(self).current@ == traced(old(self).current@, x, y),
            *final(self) == (Selector { current: final(self).current, ..*old(self) }),
            old(self).current@.len() == 0 || manhattan(old(self).current@.last(), x, y) >= MIN_POINT_DIST
                ==> final(self).current@ == old(self).current@.push(POINT { x, y }),
            old(self).current@.len() > 0 && manhattan(old(self).current@.last(), x, y) < MIN_POINT_DIST
                ==> final(self).current@ == old(self).current@,
    {
        let n = self.current.len();
        if n > 0 {
            let last = self.current[n - 1];
            let dx = if x >= last.x {
                x as i64 - last.x as i64
            } else {
                last.x as i64 - x as i64
            };
            let dy = if y >= last.y {
                y as i64 - last.y as i64
            } else {
                last.y as i64 - y as i64
            };
            if dx + dy < MIN_POINT_DIST as i64 {
                return;
            }
        }
        self.current.push(POINT { x, y });
        proof {
            let c = self.current@;
            assert forall|i: int| 0 < i < c.len() implies manhattan(#[trigger] c[i - 1], c[i].x, c[i].y)
                >= MIN_POINT_DIST by {
                if i < c.len() - 1 {
                    assert(c[i - 1] == old(self).current@[i - 1]);
                    assert(c[i] == old(self).current@[i]);
                }
            }
        }
    }
}

impl Selector {
    /// Ends the current loop: with at least 3 points it becomes a region (in
    /// screen coordinates) when its box spans at least `MIN_REGION` both ways;
    /// the trace is cleared either way.
    pub fn finish_lasso(&mut self)
        requires
            old(self).wf(),
            trace_fits(old(self).current@, old(self).origin),
        ensures
            final(self).wf(),
            final(self).current@.len() == 0,
            lassoed(old(self).regions@, final(self).regions@, old(self).current@, old(self).origin),
            *final(self) == (Selector { current: final(self).current, regions: final(self).regions, ..*old(self) }),
    {
        let ghost pts = shifted(self.current@, self.origin.0, self.origin.1);
        if self.current.len() >= 3 {
            let (ox, oy) = self.origin;
            let mut moved: Vec<POINT> = Vec::new();
            let mut i: usize = 0;
            while i < self.current.len()
                invariant
                    i <= self.current@.len(),
                    (ox, oy) == self.origin,
                    trace_fits(self.current@, self.origin),
                    pts == shifted(self.current@, ox, oy),
                    moved@ == pts.take(i as int),
                decreases self.current@.len() - i,
            {
                let p = self.current[i];
                moved.push(POINT { x: p.x + ox, y: p.y + oy });
                proof {
                    assert(pts.take(i + 1) =~= pts.take(i as int).push(pts[i as int]));
                }
                i += 1;
            }
            proof {
                assert(pts.take(i as int) =~= pts);
                let c = self.current@;
                assert forall|a: int, b: int|
                    0 <= a < pts.len() && 0 <= b < pts.len() implies #[trigger] pts[a].x
                        - #[trigger] pts[b].x <= i32::MAX by {
                    assert(c[a].x - c[b].x <= i32::MAX);
                }
                assert forall|a: int, b: int|
                    0 <= a < pts.len() && 0 <= b < pts.len() implies #[trigger] pts[a].y
                        - #[trigger] pts[b].y <= i32::MAX by {
                    assert(c[a].y - c[b].y <= i32::MAX);
                }
            }
            let reg = Region::from_points(moved);
            if reg.w >= MIN_REGION && reg.h >= MIN_REGION {
                self.regions.push(reg);
                proof {
                    assert(self.regions@.drop_last() =~= old(self).regions@);
                    assert forall|i: int| 0 <= i < self.regions@.len() implies region_ok(
                        #[trigger] self.regions@[i],
                    ) by {
                        if i < old(self).regions@.len() {
                            assert(self.regions@[i] == old(self).regions@[i]);
                        }
                    }
                }
            } else {
                proof {
                    assert forall|r: Region| r.points@ == pts && r.wf() implies !(r.w >= MIN_REGION
                        && r.h >= MIN_REGION) by {
                        lemma_box_unique(pts, r, reg);
                    }
                }
            }
        }
        self.current.clear();
    }
}

/// The bounding box of a non-empty outline is unique.
#[verifier::spinoff_prover]
pub proof fn lemma_box_unique(pts: Seq<POINT>, a: Region, b: Region)
    requires
        a.points@ == pts,
        b.points@ == pts,
        a.wf(),
        b.wf(),
    ensures
        a.x == b.x && a.y == b.y && a.w == b.w && a.h == b.h,
{
    assert(bounds_points(pts, a.x as int, a.y as int, a.w as int, a.h as int));
    assert(bounds_points(pts, b.x as int, b.y as int, b.w as int, b.h as int));
    if pts.len() > 0 {
        let i = choose|i: int| 0 <= i < pts.len() && #[trigger] pts[i].x == a.x;
        let j = choose|i: int| 0 <= i < pts.len() && #[trigger] pts[i].x == b.x;
        let k = choose|i: int| 0 <= i < pts.len() && #[trigger] pts[i].x == a.x + a.w;
        let l = choose|i: int| 0 <= i < pts.len() && #[trigger] pts[i].x == b.x + b.w;
        let i2 = choose|i: int| 0 <= i < pts.len() && #[trigger] pts[i].y == a.y;
        let j2 = choose|i: int| 0 <= i < pts.len() && #[trigger] pts[i].y == b.y;
        let k2 = choose|i: int| 0 <= i < pts.len() && #[trigger] pts[i].y == a.y + a.h;
        let l2 = choose|i: int| 0 <= i < pts.len() && #[trigger] pts[i].y == b.y + b.h;
        assert(a.x <= pts[j].x && b.x <= pts[i].x);
        assert(pts[l].x <= a.x + a.w && pts[k].x <= b.x + b.w);
        assert(b.x <= pts[i2].x <= b.x + b.w && b.y <= pts[i2].y <= b.y + b.h);
        assert(a.x <= pts[j2].x <= a.x + a.w && a.y <= pts[j2].y <= a.y + a.h);
        assert(b.x <= pts[k2].x <= b.x + b.w && b.y <= pts[k2].y <= b.y + b.h);
        assert(a.x <= pts[l2].x <= a.x + a.w && a.y <= pts[l2].y <= a.y + a.h);
    }
}

/// Two regions with the same outline and box.
pub open spec fn same_region(a: Region, b: Region) -> bool {
    a.points@ == b.points@ && a.x == b.x && a.y == b.y && a.w == b.w && a.h == b.h
}

/// A copy of a region.
pub fn copy_region(r: &Region) -> (c: Region)
    ensures
        same_region(c, *r),
{
    let mut pts: Vec<POINT> = Vec::new();
    let mut i: usize = 0;
    while i < r.points.len()
        invariant
            i <= r.points@.len(),
            pts@ == r.points@.take(i as int),
        decreases r.points@.len() - i,
    {
        pts.push(r.points[i]);
        proof {
            assert(r.points@.take(i + 1) =~= r.points@.take(i as int).push(r.points@[i as int]));
        }
        i += 1;
    }
    proof {
        assert(r.points@.take(i as int) =~= r.points@);
    }
    Region { points: pts, x: r.x, y: r.y, w: r.w, h: r.h }
}

/// Copies of regions, in order.
pub fn copy_regions(rs: &[Region]) -> (c: Vec<Region>)
    ensures
        c@.len() == rs@.len(),
        forall|i: int| 0 <= i < rs@.len() ==> same_region(#[trigger] c@[i], rs@[i]),
{
    let mut out: Vec<Region> = Vec::new();
    let mut i: usize = 0;
    while i < rs.len()
        invariant
            i <= rs@.len(),
            out@.len() == i,
            forall|t: int| 0 <= t < i ==> same_region(#[trigger] out@[t], rs@[t]),
        decreases rs@.len() - i,
    {
        out.push(copy_region(&rs[i]));
        i += 1;
    }
    out
}

/// Enters selection mode: `reference` (the regions marked so far) is shown for
/// reference, nothing is drawn yet, and the mask waits for input.
pub fn begin(sel: &mut Option<Selector>, reference: &[Region], orientation: Orientation)
    requires
        *old(sel) is Some ==> (*old(sel))->0.wf(),
    ensures
        *old(sel) is None ==> *final(sel) is None,
        *old(sel) is Some ==> {
            let a = (*old(sel))->0;
            let b = (*final(sel))->0;
            &&& *final(sel) is Some
            &&& b.wf()
            &&& b.reference@.len() == reference@.len()
            &&& forall|i: int| 0 <= i < reference@.len() ==> same_region(#[trigger] b.reference@[i], reference@[i])
            &&& b.orientation == orientation
            &&& b.regions@.len() == 0
            &&& b.current@.len() == 0
            &&& !b.pressed
            &&& !b.finished
            &&& b.hwnd == a.hwnd
            &&& b.origin == a.origin
            &&& b.vw == a.vw
            &&& b.vh == a.vh
        },
{
    match sel {
        Some(s) => {
            s.reference = copy_regions(reference);
            s.orientation = orientation;
            s.regions.clear();
            s.current.clear();
            s.pressed = false;
            s.finished = false;
        },
        None => {},
    }
}

/// Takes the regions drawn this time, leaving none (no selector: none).
pub fn take_result(sel: &mut Option<Selector>) -> (r: Vec<Region>)
    requires
        *old(sel) is Some ==> (*old(sel))->0.wf(),
    ensures
        *old(sel) is None ==> *final(sel) is None && r@.len() == 0,
        *old(sel) is Some ==> {
            &&& r@ == (*old(sel))->0.regions@
            &&& *final(sel) is Some
            &&& (*final(sel))->0 == Selector { regions: (*final(sel))->0.regions, ..(*old(sel))->0 }
            &&& (*final(sel))->0.regions@.len() == 0
            &&& (*final(sel))->0.wf()
        },
        forall|i: int| 0 <= i < r@.len() ==> region_ok(#[trigger] r@[i]),
{
    match sel {
        Some(s) => {
            let mut out: Vec<Region> = Vec::new();
            std::mem::swap(&mut out, &mut s.regions);
            out
        },
        None => Vec::new(),
    }
}

/// Window handle of the mask (0 without one).
pub fn hwnd(sel: &Option<Selector>) -> (h: isize)
    ensures
        h == if sel is Some {
            sel->0.hwnd
        } else {
            0
        },
{
    match sel {
        Some(s) => s.hwnd,
        None => 0,
    }
}

/// A mouse position on the mask can be traced: any two positions are close
/// enough that their distance fits `i32`, and moving them to the screen fits too.
pub open spec fn pos_ok(s: Selector, x: i32, y: i32) -> bool {
    &&& forall|i: int|
        0 <= i < s.current@.len() ==> manhattan(#[trigger] s.current@[i], x, y) <= i32::MAX
    &&& trace_fits(s.current@.push(POINT { x, y }), s.origin)
}

impl Selector {
    /// Whether `(x, y)` can end the trace (see `pos_ok`).
    #[verifier::spinoff_prover]
    pub fn accepts_point(&self, x: i32, y: i32) -> (b: bool)
        ensures
            b == pos_ok(*self, x, y),
    {
        let ghost pts = self.current@.push(POINT { x, y });
        let n = self.current.len();
        let (ox, oy) = self.origin;
        let mut min_x = x as i64;
        let mut max_x = x as i64;
        let mut min_y = y as i64;
        let mut max_y = y as i64;
        let ghost mut ix0: int = n as int;
        let ghost mut ix1: int = n as int;
        let ghost mut iy0: int = n as int;
        let ghost mut iy1: int = n as int;
        let mut ok = (x as i64 + ox as i64) >= i32::MIN as i64 && (x as i64 + ox as i64) <= i32::MAX as i64
            && (y as i64 + oy as i64) >= i32::MIN as i64 && (y as i64 + oy as i64) <= i32::MAX as i64;
        let mut i: usize = 0;
        assert(pts[n as int] == POINT { x, y });
        while i < n
            invariant
                n == self.current@.len(),
                pts == self.current@.push(POINT { x, y }),
                (ox, oy) == self.origin,
                i <= n,
                0 <= ix0 <= n && pts[ix0].x == min_x,
                0 <= ix1 <= n && pts[ix1].x == max_x,
                0 <= iy0 <= n && pts[iy0].y == min_y,
                0 <= iy1 <= n && pts[iy1].y == max_y,
                (ix0 == n || ix0 < i) && (ix1 == n || ix1 < i) && (iy0 == n || iy0 < i) && (iy1 == n
                    || iy1 < i),
                min_x <= x <= max_x && min_y <= y <= max_y,
                forall|t: int|
                    0 <= t < i ==> min_x <= #[trigger] pts[t].x <= max_x && min_y <= pts[t].y <= max_y,
                ok == ((forall|t: int| 0 <= t < i ==> manhattan(#[trigger] self.current@[t], x, y) <= i32::MAX)
                    && (forall|t: int|
                    0 <= t < i ==> i32::MIN <= #[trigger] self.current@[t].x + ox <= i32::MAX && i32::MIN
                        <= self.current@[t].y + oy <= i32::MAX) && i32::MIN <= x + ox <= i32::MAX
                    && i32::MIN <= y + oy <= i32::MAX),
            decreases n - i,
        {
            let p = self.current[i];
            let dx: i64 = if x as i64 >= p.x as i64 {
                x as i64 - p.x as i64
            } else {
                p.x as i64 - x as i64
            };
            let dy: i64 = if y as i64 >= p.y as i64 {
                y as i64 - p.y as i64
            } else {
                p.y as i64 - y as i64
            };
            let fits = p.x as i64 + ox as i64 >= i32::MIN as i64 && p.x as i64 + ox as i64
                <= i32::MAX as i64 && p.y as i64 + oy as i64 >= i32::MIN as i64 && p.y as i64 + oy as i64
                <= i32::MAX as i64;
            ok = ok && dx + dy <= i32::MAX as i64 && fits;
            if (p.x as i64) < min_x {
                min_x = p.x as i64;
                proof {
                    ix0 = i as int;
                }
            }
            if p.x as i64 > max_x {
                max_x = p.x as i64;
                proof {
                    ix1 = i as int;
                }
            }
            if (p.y as i64) < min_y {
                min_y = p.y as i64;
                proof {
                    iy0 = i as int;
                }
            }
            if p.y as i64 > max_y {
                max_y = p.y as i64;
                proof {
                    iy1 = i as int;
                }
            }
            proof {
                assert(pts[i as int] == p);
                assert(min_x <= pts[i as int].x <= max_x && min_y <= pts[i as int].y <= max_y);
            }
            i += 1;
        }
        let spread = max_x - min_x <= i32::MAX as i64 && max_y - min_y <= i32::MAX as i64;
        proof {
            assert(forall|t: int| 0 <= t <= n ==> min_x <= #[trigger] pts[t].x <= max_x && min_y <= pts[t].y
                <= max_y);
            if spread {
                assert forall|a: int, b: int| 0 <= a < pts.len() && 0 <= b < pts.len() implies #[trigger] pts[a].x
                    - #[trigger] pts[b].x <= i32::MAX by {
                    assert(min_x <= pts[a].x <= max_x && min_x <= pts[b].x <= max_x);
                }
                assert forall|a: int, b: int| 0 <= a < pts.len() && 0 <= b < pts.len() implies #[trigger] pts[a].y
                    - #[trigger] pts[b].y <= i32::MAX by {
                    assert(min_x <= pts[a].x <= max_x && min_x <= pts[b].x <= max_x);
                    assert(min_y <= pts[a].y <= max_y && min_y <= pts[b].y <= max_y);
                }
            } else {
                if max_x - min_x > i32::MAX {
                    assert(pts[ix1].x - pts[ix0].x > i32::MAX);
                } else {
                    assert(pts[iy1].y - pts[iy0].y > i32::MAX);
                }
                assert(!spread_fits(pts));
            }
            if ok {
                assert forall|t: int| 0 <= t < pts.len() implies i32::MIN <= #[trigger] pts[t].x + ox
                    <= i32::MAX && i32::MIN <= pts[t].y + oy <= i32::MAX by {
                    if t < n {
                        assert(pts[t] == self.current@[t]);
                    }
                }
            } else {
                if !(i32::MIN <= x + ox <= i32::MAX && i32::MIN <= y + oy <= i32::MAX) {
                    assert(pts[n as int].x == x);
                } else if !(forall|t: int| 0 <= t < n ==> manhattan(#[trigger] self.current@[t], x, y) <= i32::MAX) {
                } else {
                    let t = choose|t: int| 0 <= t < n && !(i32::MIN <= #[trigger] self.current@[t].x + ox <= i32::MAX
                        && i32::MIN <= self.current@[t].y + oy <= i32::MAX);
                    assert(pts[t] == self.current@[t]);
                }
            }
        }
        ok && spread
    }

    /// Left button down at `(x, y)`: a new trace starts there.
    pub fn on_lbutton_down(&mut self, x: i32, y: i32)
        requires
            old(self).wf(),
        ensures
            final(self).wf(),
            *final(self) == (Selector { pressed: true, current: final(self).current, ..*old(self) }),
            final(self).current@ == seq![POINT { x, y }],
    {
        self.pressed = true;
        self.current.clear();
        self.add_point(x, y);
        assert(self.current@ =~= seq![POINT { x, y }]);
    }

    /// Mouse moved to `(x, y)`: extends the trace while the button is down; true
    /// when the mask needs repainting.
    pub fn on_mouse_move(&mut self, x: i32, y: i32) -> (redraw: bool)
        requires
            old(self).wf(),
            old(self).current@.len() > 0 ==> manhattan(old(self).current@.last(), x, y) <= i32::MAX,
        ensures
            final(self).wf(),
            redraw == old(self).pressed,
            !old(self).pressed ==> *final(self) == *old(self),
            old(self).pressed ==> *final(self) == (Selector { current: final(self).current, ..*old(self) })
                && final(self).current@ == traced(old(self).current@, x, y),
    {
        if self.pressed {
            self.add_point(x, y);
            true
        } else {
            false
        }
    }

    /// Left button up at `(x, y)`: the point ends the trace and the loop is closed.
    pub fn on_lbutton_up(&mut self, x: i32, y: i32)
        requires
            old(self).wf(),
            pos_ok(*old(self), x, y),
        ensures
            final(self).wf(),
            *final(self) == (Selector {
                pressed: false,
                current: final(self).current,
                regions: final(self).regions,
                ..*old(self)
            }),
            final(self).current@.len() == 0,
            lassoed(
                old(self).regions@,
                final(self).regions@,
                traced(old(self).current@, x, y),
                old(self).origin,
            ),
    {
        let ghost before = self.current@;
        proof {
            if before.len() > 0 {
                assert(manhattan(before[before.len() - 1], x, y) <= i32::MAX);
            }
        }
        self.add_point(x, y);
        proof {
            let c = self.current@;
            let all = before.push(POINT { x, y });
            assert forall|i: int| 0 <= i < c.len() implies i32::MIN <= #[trigger] c[i].x + self.origin.0
                <= i32::MAX && i32::MIN <= c[i].y + self.origin.1 <= i32::MAX by {
                assert(c[i] == all[i]);
            }
            assert forall|a: int, b: int| 0 <= a < c.len() && 0 <= b < c.len() implies #[trigger] c[a].x
                - #[trigger] c[b].x <= i32::MAX by {
                assert(c[a] == all[a] && c[b] == all[b]);
            }
            assert forall|a: int, b: int| 0 <= a < c.len() && 0 <= b < c.len() implies #[trigger] c[a].y
                - #[trigger] c[b].y <= i32::MAX by {
                assert(c[a] == all[a] && c[b] == all[b]);
            }
        }
        self.pressed = false;
        self.finish_lasso();
    }

    /// Right button: selection ends.
    pub fn on_rbutton(&mut self)
        ensures
            *final(self) == (Selector { finished: true, ..*old(self) }),
    {
        self.finished = true;
    }

    /// A key: Esc or Enter ends selection (true: the key was handled).
    pub fn on_key(&mut self, vk: u32) -> (handled: bool)
        ensures
            handled == (vk == VK_ESCAPE || vk == VK_RETURN),
            handled ==> *final(self) == (Selector { finished: true, ..*old(self) }),
            !handled ==> *final(self) == *old(self),
    {
        if vk == VK_ESCAPE || vk == VK_RETURN {
            self.finished = true;
            true
        } else {
            false
        }
    }
}

/// The two guide lines of region `r` in mask coordinates: its left and right
/// edges for vertical stripes, its top and bottom edges for horizontal ones.
pub open spec fn guides_of(r: Region, o: Orientation, origin: (i32, i32)) -> (int, int) {
    match o {
        Orientation::Vertical => (r.x - origin.0, r.x + r.w - origin.0),
        Orientation::Horizontal => (r.y - origin.1, r.y + r.h - origin.1),
    }
}

impl Selector {
    /// Where the full-length guide lines of region `r` go.
    pub fn guide_lines(&self, r: &Region) -> (g: (i32, i32))
        requires
            i32::MIN <= guides_of(*r, self.orientation, self.origin).0 <= i32::MAX,
            i32::MIN <= guides_of(*r, self.orientation, self.origin).1 <= i32::MAX,
            i32::MIN <= r.x + r.w <= i32::MAX,
            i32::MIN <= r.y + r.h <= i32::MAX,
        ensures
            g.0 == guides_of(*r, self.orientation, self.origin).0,
            g.1 == guides_of(*r, self.orientation, self.origin).1,
    {
        let (ox, oy) = self.origin;
        match self.orientation {
            Orientation::Vertical => (r.x - ox, r.x + r.w - ox),
            Orientation::Horizontal => (r.y - oy, r.y + r.h - oy),
        }
    }

    /// The outline of region `r` in mask coordinates: each point less the
    /// mask's origin.
    pub fn outline(&self, r: &Region) -> (pts: Vec<POINT>)
        requires
            forall|i: int|
                0 <= i < r.points@.len() ==> i32::MIN <= #[trigger] r.points@[i].x - self.origin.0
                    <= i32::MAX && i32::MIN <= r.points@[i].y - self.origin.1 <= i32::MAX,
        ensures
            pts@.len() == r.points@.len(),
            forall|i: int|
                0 <= i < pts@.len() ==> #[trigger] pts@[i].x == r.points@[i].x - self.origin.0
                    && pts@[i].y == r.points@[i].y - self.origin.1,
    {
        let (ox, oy) = self.origin;
        let mut pts: Vec<POINT> = Vec::new();
        let mut i: usize = 0;
        while i < r.points.len()
            invariant
                (ox, oy) == self.origin,
                i <= r.points@.len(),
                pts@.len() == i,
                forall|t: int|
                    0 <= t < r.points@.len() ==> i32::MIN <= #[trigger] r.points@[t].x - ox <= i32::MAX
                        && i32::MIN <= r.points@[t].y - oy <= i32::MAX,
                forall|t: int|
                    0 <= t < i ==> #[trigger] pts@[t].x == r.points@[t].x - ox && pts@[t].y
                        == r.points@[t].y - oy,
            decreases r.points@.len() - i,
        {
            let p = r.points[i];
            pts.push(POINT { x: p.x - ox, y: p.y - oy });
            i += 1;
        }
        pts
    }

    /// Where the label of region `r` goes in mask coordinates: from 6 px
    /// inside the top-left corner of its box, 194 x 20 px.
    pub fn label_rect(&self, r: &Region) -> (rc: RECT)
        requires
            i32::MIN <= r.x - self.origin.0 + 6,
            r.x - self.origin.0 + 200 <= i32::MAX,
            i32::MIN <= r.y - self.origin.1 + 6,
            r.y - self.origin.1 + 26 <= i32::MAX,
        ensures
            rc.left == r.x - self.origin.0 + 6,
            rc.top == r.y - self.origin.1 + 6,
            rc.right == r.x - self.origin.0 + 200,
            rc.bottom == r.y - self.origin.1 + 26,
    {
        let (ox, oy) = self.origin;
        let x: i64 = r.x as i64 - ox as i64;
        let y: i64 = r.y as i64 - oy as i64;
        RECT::new((x + 6) as i32, (y + 6) as i32, (x + 200) as i32, (y + 26) as i32)
    }

    /// The label of a region: `text` and the orientation name in brackets.
    pub fn label_text(&self, text: &str) -> (s: String)
        ensures
            s@ == text@ + "（"@ + crate::app::orientation_name(self.orientation) + "）"@,
    {
        let mut s = String::from_str(text);
        s.append("（");
        s.append(self.orientation.name());
        s.append("）");
        s
    }
}

} // verus!
