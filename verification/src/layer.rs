//! The stripe overlay: per-region lines, which of them flicker, and the
//! schedule that blinks them while every region keeps at least one line lit.

use vstd::prelude::*;
use crate::model::{
    build_lines, layout, ColorMode, Orientation, Region, Rng, Stripe, FLICKER_GAP_MAX_MS,
    FLICKER_GAP_MIN_MS, FLICKER_LINES_MAX, FLICKER_LINES_MIN, FLICKER_MAX_MS, FLICKER_MIN_MS,
    KEY_COLOR, pool_of, range_spec, below_spec, MAX_LINES, laid_out, well_laid,
};
use crate::win::{rects_intersect, RECT};

verus! {

/// How many lines of `s` satisfy `p`.
pub open spec fn count_by(s: Seq<Stripe>, p: spec_fn(Stripe) -> bool) -> nat
    decreases s.len(),
{
    if s.len() == 0 {
        0
    } else {
        count_by(s.drop_last(), p) + if p(s.last()) {
            1nat
        } else {
            0nat
        }
    }
}

/// Lines currently shown.
pub open spec fn is_lit() -> spec_fn(Stripe) -> bool {
    |s: Stripe| s.visible
}

/// Lines taking part in flickering.
pub open spec fn is_flickering() -> spec_fn(Stripe) -> bool {
    |s: Stripe| s.flickers
}

pub proof fn lemma_count_push(s: Seq<Stripe>, x: Stripe, p: spec_fn(Stripe) -> bool)
    ensures
        count_by(s.push(x), p) == count_by(s, p) + if p(x) {
            1nat
        } else {
            0nat
        },
{
    assert(s.push(x).drop_last() =~= s);
}

pub proof fn lemma_count_bound(s: Seq<Stripe>, p: spec_fn(Stripe) -> bool)
    ensures
        count_by(s, p) <= s.len(),
    decreases s.len(),
{
    if s.len() > 0 {
        lemma_count_bound(s.drop_last(), p);
    }
}

/// Changing one line changes the count by what that line contributes.
pub proof fn lemma_count_update(s: Seq<Stripe>, i: int, x: Stripe, p: spec_fn(Stripe) -> bool)
    requires
        0 <= i < s.len(),
    ensures
        count_by(s.update(i, x), p) + (if p(s[i]) {
            1int
        } else {
            0int
        }) == count_by(s, p) + (if p(x) {
            1int
        } else {
            0int
        }),
    decreases s.len(),
{
    if i == s.len() - 1 {
        assert(s.update(i, x).drop_last() =~= s.drop_last());
    } else {
        lemma_count_update(s.drop_last(), i, x, p);
        assert(s.update(i, x).drop_last() =~= s.drop_last().update(i, x));
    }
}

/// Counting distributes over concatenation.
pub proof fn lemma_count_concat(a: Seq<Stripe>, b: Seq<Stripe>, p: spec_fn(Stripe) -> bool)
    ensures
        count_by(a + b, p) == count_by(a, p) + count_by(b, p),
    decreases b.len(),
{
    if b.len() == 0 {
        assert(a + b =~= a);
    } else {
        lemma_count_concat(a, b.drop_last(), p);
        assert((a + b).drop_last() =~= a + b.drop_last());
    }
}

/// The count of a suffix, taken one line at a time from its front.
pub proof fn lemma_count_skip(s: Seq<Stripe>, j: int, p: spec_fn(Stripe) -> bool)
    requires
        0 <= j < s.len(),
    ensures
        count_by(s.skip(j), p) == count_by(s.skip(j + 1), p) + if p(s[j]) {
            1nat
        } else {
            0nat
        },
{
    assert(s.skip(j) =~= seq![s[j]] + s.skip(j + 1));
    lemma_count_concat(seq![s[j]], s.skip(j + 1), p);
    assert(seq![s[j]].drop_last() =~= Seq::<Stripe>::empty());
    assert(count_by(seq![s[j]], p) == count_by(Seq::<Stripe>::empty(), p) + if p(s[j]) {
        1nat
    } else {
        0nat
    });
}

/// Every line of `s` satisfies `p` exactly when the count is the length.
pub proof fn lemma_count_all(s: Seq<Stripe>, p: spec_fn(Stripe) -> bool)
    ensures
        (forall|i: int| 0 <= i < s.len() ==> p(#[trigger] s[i])) ==> count_by(s, p) == s.len(),
        (forall|i: int| 0 <= i < s.len() ==> !p(#[trigger] s[i])) ==> count_by(s, p) == 0,
    decreases s.len(),
{
    if s.len() > 0 {
        lemma_count_all(s.drop_last(), p);
        assert forall|i: int| 0 <= i < s.drop_last().len() implies s.drop_last()[i] == s[i] by {}
    }
}

/// The seed of the overlay's random source.
pub const LAYER_SEED: u64 = 0x9E37_79B9_7F4A_7C15;

/// The overlay model: the lines of each marked region and how they blink.
pub struct Layer {
    /// Window handle of the overlay (0 = none).
    pub hwnd: isize,
    /// Top-left corner of the virtual desktop, where the overlay sits.
    pub origin: (i32, i32),
    /// Size of the virtual desktop.
    pub vw: i32,
    pub vh: i32,
    pub orientation: Orientation,
    pub mode: ColorMode,
    pub flicker_on: bool,
    /// Whether the overlay is on screen.
    pub shown: bool,
    /// The lines of each region.
    pub regions: Vec<Vec<Stripe>>,
    /// How many lines of each region are lit now.
    pub visible_counts: Vec<usize>,
    /// Brush handle of the colour key.
    pub key_brush: isize,
    /// Brush handle of each colour in use.
    pub brushes: Vec<(u32, isize)>,
    pub rng: Rng,
    /// Whether the overlay is kept out of screen captures.
    pub capture_excluded: bool,
}

/// The lines of every region fit the coordinate range, and the lit counts
/// match the lines; a region with lines always has one lit.
pub open spec fn lines_ok(regions: Seq<Vec<Stripe>>, counts: Seq<usize>) -> bool {
    &&& regions.len() == counts.len()
    &&& forall|i: int|
        0 <= i < regions.len() ==> #[trigger] counts[i] == count_by(regions[i]@, is_lit())
    &&& forall|i: int|
        0 <= i < regions.len() && regions[i]@.len() > 0 ==> #[trigger] counts[i] >= 1
    &&& forall|i: int| 0 <= i < regions.len() ==> (#[trigger] regions[i])@.len() <= MAX_LINES
    &&& forall|i: int, j: int|
        0 <= i < regions.len() && 0 <= j < regions[i]@.len() ==> i32::MIN <= #[trigger] regions[i]@[j].pos
            + regions[i]@[j].w <= i32::MAX
}

impl Layer {
    /// The overlay invariant.
    pub open spec fn wf(&self) -> bool {
        lines_ok(self.regions@, self.visible_counts@)
    }

    /// The overlay covering the virtual desktop at `origin` of size `vw` x `vh`:
    /// vertical, multi-colour, no flicker, hidden, no lines.
    pub fn new(hwnd: isize, origin: (i32, i32), vw: i32, vh: i32) -> (l: Self)
        ensures
            l.wf(),
            l.hwnd == hwnd,
            l.origin == origin,
            l.vw == vw,
            l.vh == vh,
            l.orientation == Orientation::Vertical,
            l.mode == ColorMode::Multi,
            !l.flicker_on,
            !l.shown,
            l.regions@.len() == 0,
            l.brushes@.len() == 0,
            l.key_brush == 0,
            l.rng@ == LAYER_SEED | 1,
            !l.capture_excluded,
            quiet(l),
    {
        Layer {
            hwnd,
            origin,
            vw,
            vh,
            orientation: Orientation::Vertical,
            mode: ColorMode::Multi,
            flicker_on: false,
            shown: false,
            regions: Vec::new(),
            visible_counts: Vec::new(),
            key_brush: 0,
            brushes: Vec::new(),
            rng: Rng::new(LAYER_SEED),
            capture_excluded: false,
        }
    }
}

/// The screen rectangle of a line: vertical lines span the full height,
/// horizontal ones the full width.
pub open spec fn spec_stripe_rect(orientation: Orientation, vw: i32, vh: i32, s: Stripe) -> RECT {
    match orientation {
        Orientation::Vertical => RECT { left: s.pos, top: 0, right: (s.pos + s.w) as i32, bottom: vh },
        Orientation::Horizontal => RECT { left: 0, top: s.pos, right: vw, bottom: (s.pos + s.w) as i32 },
    }
}

/// The rectangle of one line in overlay coordinates.
pub fn stripe_rect(orientation: Orientation, vw: i32, vh: i32, s: &Stripe) -> (r: RECT)
    requires
        i32::MIN <= s.pos + s.w <= i32::MAX,
    ensures
        r == spec_stripe_rect(orientation, vw, vh, *s),
{
    match orientation {
        Orientation::Vertical => RECT::new(s.pos, 0, s.pos + s.w, vh),
        Orientation::Horizontal => RECT::new(0, s.pos, vw, s.pos + s.w),
    }
}

/// The brush of the first entry of `brushes` with colour `color`, or 0.
pub open spec fn spec_brush_of(brushes: Seq<(u32, isize)>, color: u32) -> isize
    decreases brushes.len(),
{
    if brushes.len() == 0 {
        0
    } else if brushes[0].0 == color {
        brushes[0].1
    } else {
        spec_brush_of(brushes.drop_first(), color)
    }
}

impl Layer {
    /// The brush drawing `color` (0 when there is none).
    pub fn brush_of(&self, color: u32) -> (b: isize)
        ensures
            b == spec_brush_of(self.brushes@, color),
    {
        let mut i: usize = 0;
        assert(self.brushes@.skip(0) =~= self.brushes@);
        while i < self.brushes.len()
            invariant
                i <= self.brushes@.len(),
                spec_brush_of(self.brushes@, color) == spec_brush_of(self.brushes@.skip(i as int), color),
            decreases self.brushes@.len() - i,
        {
            let (c, b) = self.brushes[i];
            if c == color {
                return b;
            }
            assert(self.brushes@.skip(i as int).drop_first() =~= self.brushes@.skip(i + 1));
            i += 1;
        }
        0
    }
}

/// `k` steps of the random source from state `s`.
pub open spec fn xorshift_n(s: u64, k: nat) -> u64
    decreases k,
{
    if k == 0 {
        s
    } else {
        crate::model::xorshift(xorshift_n(s, (k - 1) as nat))
    }
}

/// Lines whose flicker time has come at `now`.
pub open spec fn is_due(now: u64) -> spec_fn(Stripe) -> bool {
    |s: Stripe| s.flickers && now >= s.next_flip
}

/// How a flicker tick at `now` may change one line `o` into `n`: a line that is
/// not due stays as it is; a due lit line goes dark for 100..=3000 ms or stays
/// lit for another 1000..=5000 ms; a due dark line lights up for 1000..=5000 ms.
/// Position, width, colour and participation never change.
pub open spec fn tick_line(o: Stripe, n: Stripe, now: u64) -> bool {
    if !o.flickers || now < o.next_flip {
        n == o
    } else {
        &&& n.pos == o.pos
        &&& n.w == o.w
        &&& n.color == o.color
        &&& n.flickers
        &&& if o.visible {
            ||| (!n.visible && now + FLICKER_MIN_MS <= n.next_flip <= now + FLICKER_MAX_MS)
            ||| (n.visible && now + FLICKER_GAP_MIN_MS <= n.next_flip <= now + FLICKER_GAP_MAX_MS)
        } else {
            n.visible && now + FLICKER_GAP_MIN_MS <= n.next_flip <= now + FLICKER_GAP_MAX_MS
        }
    }
}

/// When a due line flips next, from the draw `x` of the random source: a line
/// that is now lit is next due `1000 + x % 4001` ms from `now`, a dark one
/// `100 + x % 2901` ms from `now`.
pub open spec fn flip_time(now: u64, lit: bool, x: u64) -> int {
    if lit {
        now + FLICKER_GAP_MIN_MS + x % ((FLICKER_GAP_MAX_MS - FLICKER_GAP_MIN_MS + 1) as u64)
    } else {
        now + FLICKER_MIN_MS + x % ((FLICKER_MAX_MS - FLICKER_MIN_MS + 1) as u64)
    }
}

/// The due lines of `old` take their draws in order from the random state `s`:
/// the k-th due line (counting from 0) gets the state after k + 1 steps.
pub open spec fn drawn(old: Seq<Stripe>, new: Seq<Stripe>, now: u64, s: u64) -> bool {
    forall|j: int|
        0 <= j < old.len() && is_due(now)(#[trigger] old[j]) ==> new[j].next_flip == flip_time(
            now,
            new[j].visible,
            xorshift_n(s, count_by(old.take(j), is_due(now)) + 1),
        )
}

/// How many lines other than line `j` are lit when line `j` takes its turn:
/// the already updated lines before it and the not yet updated ones after it.
pub open spec fn others_lit(old: Seq<Stripe>, new: Seq<Stripe>, j: int) -> nat {
    count_by(new.take(j), is_lit()) + count_by(old.skip(j + 1), is_lit())
}

/// The rectangles of the lines whose lit state differs between `old` and `new`, in order.
pub open spec fn flips(old: Seq<Stripe>, new: Seq<Stripe>, o: Orientation, vw: i32, vh: i32) -> Seq<RECT>
    decreases new.len(),
{
    if new.len() == 0 || old.len() == 0 {
        seq![]
    } else {
        flips(old.drop_last(), new.drop_last(), o, vw, vh) + if old.last().visible
            != new.last().visible {
            seq![spec_stripe_rect(o, vw, vh, new.last())]
        } else {
            seq![]
        }
    }
}

/// One flicker tick of a region, line by line in order: `old` becomes `new`;
/// a due lit line goes dark exactly when some other line is lit at its turn,
/// so the region never goes dark as a whole.
pub open spec fn ticked(old: Seq<Stripe>, new: Seq<Stripe>, now: u64) -> bool {
    &&& new.len() == old.len()
    &&& forall|j: int| 0 <= j < old.len() ==> tick_line(#[trigger] old[j], new[j], now)
    &&& forall|j: int|
        0 <= j < old.len() && is_due(now)(#[trigger] old[j]) && old[j].visible ==> (new[j].visible
            <==> others_lit(old, new, j) == 0)
}

proof fn lemma_flips_step(
    old: Seq<Stripe>,
    new: Seq<Stripe>,
    j: int,
    n: Stripe,
    o: Orientation,
    vw: i32,
    vh: i32,
)
    requires
        0 <= j < old.len(),
        new.len() == j,
    ensures
        flips(old.take(j + 1), new.push(n), o, vw, vh) == flips(old.take(j), new, o, vw, vh) + if old[j].visible
            != n.visible {
            seq![spec_stripe_rect(o, vw, vh, n)]
        } else {
            seq![]
        },
{
    assert(old.take(j + 1).drop_last() =~= old.take(j));
    assert(new.push(n).drop_last() =~= new);
}

/// One flicker tick of one region, appending the rectangles of the lines that
/// change to `dirty`; gives the new lines and their lit count.
fn tick_region(
    stripes: &Vec<Stripe>,
    count: usize,
    now: u64,
    rng: &mut Rng,
    orientation: Orientation,
    vw: i32,
    vh: i32,
    dirty: &mut Vec<RECT>,
) -> (res: (Vec<Stripe>, usize))
    requires
        now <= u64::MAX - FLICKER_GAP_MAX_MS,
        count == count_by(stripes@, is_lit()),
        stripes@.len() > 0 ==> count >= 1,
        forall|j: int|
            0 <= j < stripes@.len() ==> i32::MIN <= #[trigger] stripes@[j].pos + stripes@[j].w
                <= i32::MAX,
    ensures
        ticked(stripes@, res.0@, now),
        res.1 == count_by(res.0@, is_lit()),
        res.0@.len() > 0 ==> res.1 >= 1,
        drawn(stripes@, res.0@, now, old(rng)@),
        final(dirty)@ == old(dirty)@ + flips(stripes@, res.0@, orientation, vw, vh),
        final(rng)@ == xorshift_n(old(rng)@, count_by(stripes@, is_due(now))),
{
    let mut out: Vec<Stripe> = Vec::new();
    let mut c = count;
    let mut j: usize = 0;
    let n = stripes.len();
    let ghost old_dirty = dirty@;
    let ghost s0 = rng@;
    proof {
        assert(stripes@.skip(0) =~= stripes@);
        assert(stripes@.take(0) =~= Seq::<Stripe>::empty());
        assert(out@.take(0) =~= Seq::<Stripe>::empty());
    }
    while j < n
        invariant
            n == stripes@.len(),
            j <= n,
            now <= u64::MAX - FLICKER_GAP_MAX_MS,
            out@.len() == j,
            c == count_by(out@, is_lit()) + count_by(stripes@.skip(j as int), is_lit()),
            n > 0 ==> c >= 1,
            forall|t: int| 0 <= t < j ==> tick_line(#[trigger] stripes@[t], out@[t], now),
            forall|t: int|
                0 <= t < j && is_due(now)(#[trigger] stripes@[t]) && stripes@[t].visible ==> (
                out@[t].visible <==> others_lit(stripes@, out@, t) == 0),
            dirty@ == old_dirty + flips(stripes@.take(j as int), out@, orientation, vw, vh),
            rng@ == xorshift_n(s0, count_by(stripes@.take(j as int), is_due(now))),
            forall|t: int|
                0 <= t < j && is_due(now)(#[trigger] stripes@[t]) ==> out@[t].next_flip == flip_time(
                    now,
                    out@[t].visible,
                    xorshift_n(s0, count_by(stripes@.take(t), is_due(now)) + 1),
                ),
            forall|t: int|
                0 <= t < stripes@.len() ==> i32::MIN <= #[trigger] stripes@[t].pos + stripes@[t].w
                    <= i32::MAX,
        decreases n - j,
    {
        let ghost prev = out@;
        proof {
            lemma_count_skip(stripes@, j as int, is_lit());
            assert(stripes@.take(j + 1) =~= stripes@.take(j as int).push(stripes@[j as int]));
            lemma_count_push(stripes@.take(j as int), stripes@[j as int], is_due(now));
            lemma_flips_step(stripes@, out@, j as int, stripes@[j as int], orientation, vw, vh);
        }
        let mut s = stripes[j];
        if !s.flickers || now < s.next_flip {
            out.push(s);
            proof {
                lemma_count_push(prev, s, is_lit());
                lemma_flips_step(stripes@, prev, j as int, s, orientation, vw, vh);
            }
        } else if s.visible {
            if c <= 1 {
                s.next_flip = now + rng.range_ms(FLICKER_GAP_MIN_MS, FLICKER_GAP_MAX_MS);
                out.push(s);
                proof {
                    lemma_count_push(prev, s, is_lit());
                    lemma_flips_step(stripes@, prev, j as int, s, orientation, vw, vh);
                }
            } else {
                s.visible = false;
                c -= 1;
                s.next_flip = now + rng.range_ms(FLICKER_MIN_MS, FLICKER_MAX_MS);
                out.push(s);
                dirty.push(stripe_rect(orientation, vw, vh, &s));
                proof {
                    lemma_count_push(prev, s, is_lit());
                    lemma_flips_step(stripes@, prev, j as int, s, orientation, vw, vh);
                }
            }
        } else {
            s.visible = true;
            proof {
                lemma_count_bound(out@, is_lit());
                lemma_count_bound(stripes@.skip(j + 1), is_lit());
            }
            c += 1;
            s.next_flip = now + rng.range_ms(FLICKER_GAP_MIN_MS, FLICKER_GAP_MAX_MS);
            out.push(s);
            dirty.push(stripe_rect(orientation, vw, vh, &s));
            proof {
                lemma_count_push(prev, s, is_lit());
                lemma_flips_step(stripes@, prev, j as int, s, orientation, vw, vh);
            }
        }
        proof {
            assert(out@.take(j as int) =~= prev);
            assert forall|t: int|
                0 <= t < j && is_due(now)(#[trigger] stripes@[t]) && stripes@[t].visible implies (
                out@[t].visible <==> others_lit(stripes@, out@, t) == 0) by {
                assert(out@.take(t) =~= prev.take(t));
                assert(out@[t] == prev[t]);
            }
            assert forall|t: int|
                0 <= t < j + 1 && is_due(now)(#[trigger] stripes@[t]) implies out@[t].next_flip == flip_time(
                now,
                out@[t].visible,
                xorshift_n(s0, count_by(stripes@.take(t), is_due(now)) + 1),
            ) by {
                if t < j {
                    assert(out@[t] == prev[t]);
                }
            }
        }
        j += 1;
    }
    proof {
        assert(stripes@.take(n as int) =~= stripes@);
        assert(stripes@.skip(n as int) =~= Seq::<Stripe>::empty());
    }
    (out, c)
}

/// Taking `a` and then `b` steps is taking `a + b` steps.
pub proof fn lemma_xorshift_n_add(s: u64, a: nat, b: nat)
    ensures
        xorshift_n(xorshift_n(s, a), b) == xorshift_n(s, a + b),
    decreases b,
{
    if b > 0 {
        lemma_xorshift_n_add(s, a, (b - 1) as nat);
    }
}

/// The changed-line rectangles of all regions, region by region.
pub open spec fn all_flips(
    olds: Seq<Vec<Stripe>>,
    news: Seq<Vec<Stripe>>,
    o: Orientation,
    vw: i32,
    vh: i32,
) -> Seq<RECT>
    decreases news.len(),
{
    if news.len() == 0 || olds.len() == 0 {
        seq![]
    } else {
        all_flips(olds.drop_last(), news.drop_last(), o, vw, vh) + flips(
            olds.last()@,
            news.last()@,
            o,
            vw,
            vh,
        )
    }
}

/// How many lines of all regions are due at `now`.
pub open spec fn due_total(regions: Seq<Vec<Stripe>>, now: u64) -> nat
    decreases regions.len(),
{
    if regions.len() == 0 {
        0
    } else {
        due_total(regions.drop_last(), now) + count_by(regions.last()@, is_due(now))
    }
}

impl Layer {
    /// The flicker schedule at time `now` (ms): flips every due line of every
    /// region, region by region and line by line, and gives the rectangles of
    /// the lines that went dark or lit, to be repainted. Nothing happens while
    /// flicker is off or there is no window.
    #[verifier::spinoff_prover]
    #[verifier::rlimit(30)]
    pub fn tick(&mut self, now: u64) -> (dirty: Vec<RECT>)
        requires
            old(self).wf(),
            now <= u64::MAX - FLICKER_GAP_MAX_MS,
        ensures
            final(self).wf(),
            !old(self).flicker_on || old(self).hwnd == 0 ==> *final(self) == *old(self)
                && dirty@.len() == 0,
            old(self).flicker_on && old(self).hwnd != 0 ==> {
                &&& final(self).regions@.len() == old(self).regions@.len()
                &&& forall|i: int|
                    0 <= i < old(self).regions@.len() ==> ticked(
                        #[trigger] old(self).regions@[i]@,
                        final(self).regions@[i]@,
                        now,
                    )
                &&& forall|i: int|
                    0 <= i < old(self).regions@.len() ==> drawn(
                        #[trigger] old(self).regions@[i]@,
                        final(self).regions@[i]@,
                        now,
                        xorshift_n(old(self).rng@, due_total(old(self).regions@.take(i), now)),
                    )
                &&& dirty@ == all_flips(
                    old(self).regions@,
                    final(self).regions@,
                    old(self).orientation,
                    old(self).vw,
                    old(self).vh,
                )
                &&& final(self).rng@ == xorshift_n(old(self).rng@, due_total(old(self).regions@, now))
            },
            final(self).hwnd == old(self).hwnd,
            final(self).origin == old(self).origin,
            final(self).vw == old(self).vw,
            final(self).vh == old(self).vh,
            final(self).orientation == old(self).orientation,
            final(self).mode == old(self).mode,
            final(self).flicker_on == old(self).flicker_on,
            final(self).shown == old(self).shown,
            final(self).key_brush == old(self).key_brush,
            final(self).brushes@ == old(self).brushes@,
            final(self).capture_excluded == old(self).capture_excluded,
            quiet(*old(self)) ==> quiet(*final(self)),
            sum_lens(final(self).regions@) == sum_lens(old(self).regions@),
            applied(*old(self), LayerCall::Tick { now }, *final(self)),
    {
        let mut dirty: Vec<RECT> = Vec::new();
        if !self.flicker_on || self.hwnd == 0 {
            return dirty;
        }
        let ghost olds = self.regions@;
        let ghost s0 = self.rng@;
        let n = self.regions.len();
        let mut ri: usize = 0;
        proof {
            assert(olds.take(0) =~= Seq::<Vec<Stripe>>::empty());
            assert(self.regions@.take(0) =~= Seq::<Vec<Stripe>>::empty());
        }
        while ri < n
            invariant
                n == olds.len(),
                ri <= n,
                now <= u64::MAX - FLICKER_GAP_MAX_MS,
                self.wf(),
                self.regions@.len() == n,
                forall|t: int| 0 <= t < ri ==> ticked(#[trigger] olds[t]@, self.regions@[t]@, now),
                forall|t: int|
                    0 <= t < ri ==> drawn(
                        #[trigger] olds[t]@,
                        self.regions@[t]@,
                        now,
                        xorshift_n(s0, due_total(olds.take(t), now)),
                    ),
                forall|t: int| ri <= t < n ==> #[trigger] self.regions@[t] == olds[t],
                dirty@ == all_flips(
                    olds.take(ri as int),
                    self.regions@.take(ri as int),
                    self.orientation,
                    self.vw,
                    self.vh,
                ),
                self.rng@ == xorshift_n(s0, due_total(olds.take(ri as int), now)),
                self.hwnd == old(self).hwnd,
                self.origin == old(self).origin,
                self.vw == old(self).vw,
                self.vh == old(self).vh,
                self.orientation == old(self).orientation,
                self.mode == old(self).mode,
                self.flicker_on == old(self).flicker_on,
                self.shown == old(self).shown,
                self.key_brush == old(self).key_brush,
                self.brushes@ == old(self).brushes@,
                self.capture_excluded == old(self).capture_excluded,
            decreases n - ri,
        {
            let ghost before = self.regions@;
            let ghost rng_before = self.rng@;
            let ghost dirty_before = dirty@;
            proof {
                assert(self.regions@[ri as int] == olds[ri as int]);
                assert(forall|j: int|
                    0 <= j < olds[ri as int]@.len() ==> i32::MIN <= #[trigger] olds[ri as int]@[j].pos
                        + olds[ri as int]@[j].w <= i32::MAX);
            }
            let (lines, c) = tick_region(
                &self.regions[ri],
                self.visible_counts[ri],
                now,
                &mut self.rng,
                self.orientation,
                self.vw,
                self.vh,
                &mut dirty,
            );
            self.regions.set(ri, lines);
            self.visible_counts.set(ri, c);
            proof {
                lemma_xorshift_n_add(s0, due_total(olds.take(ri as int), now), count_by(olds[ri as int]@, is_due(now)));
                assert(olds.take(ri + 1).drop_last() =~= olds.take(ri as int));
                assert(self.regions@.take(ri + 1).drop_last() =~= before.take(ri as int));
                assert(before.take(ri as int) =~= self.regions@.take(ri as int));
                assert forall|i: int, j: int|
                    0 <= i < self.regions@.len() && 0 <= j < self.regions@[i]@.len() implies i32::MIN
                        <= #[trigger] self.regions@[i]@[j].pos + self.regions@[i]@[j].w <= i32::MAX by {
                    if i == ri {
                        assert(tick_line(olds[i]@[j], self.regions@[i]@[j], now));
                    } else {
                        assert(self.regions@[i] == before[i]);
                    }
                }
                assert forall|i: int| 0 <= i < self.regions@.len() implies (#[trigger] self.regions@[i])@.len()
                    <= MAX_LINES by {
                    if i != ri {
                        assert(self.regions@[i] == before[i]);
                    }
                }
                assert forall|t: int| 0 <= t < ri + 1 implies ticked(#[trigger] olds[t]@, self.regions@[t]@, now) by {
                    if t < ri {
                        assert(self.regions@[t] == before[t]);
                    }
                }
                assert forall|t: int| 0 <= t < ri + 1 implies drawn(
                    #[trigger] olds[t]@,
                    self.regions@[t]@,
                    now,
                    xorshift_n(s0, due_total(olds.take(t), now)),
                ) by {
                    if t < ri {
                        assert(self.regions@[t] == before[t]);
                    }
                }
            }
            ri += 1;
        }
        proof {
            assert(olds.take(n as int) =~= olds);
            assert(self.regions@.take(n as int) =~= self.regions@);
            assert forall|i: int| 0 <= i < olds.len() implies (#[trigger] olds[i])@.len()
                == self.regions@[i]@.len() by {
                assert(ticked(olds[i]@, self.regions@[i]@, now));
            }
            lemma_same_sizes_same_total(olds, self.regions@);
        }
        dirty
    }
}

/// Draws after which choosing the flickering lines of a region stops drawing
/// and takes the lowest lines not yet chosen. The xorshift64 generator runs
/// through every non-zero state once per period of `2^64 - 1` steps, so this
/// many draws meet every line index; the fallback only bounds the loop.
pub const MAX_DRAWS: u64 = 0xFFFF_FFFF_FFFF_FFFF;

/// How many lines of a region of `n` lines flicker, from the state `s` of the
/// random source: a draw in `FLICKER_LINES_MIN..=FLICKER_LINES_MAX`, at most `n`.
pub open spec fn flicker_quota(s: u64, n: nat) -> nat {
    let k = range_spec(s, FLICKER_LINES_MIN, FLICKER_LINES_MAX).1;
    if (k as int) < ((n as u32) as int) {
        k as nat
    } else {
        (n as u32) as nat
    }
}

/// The region `old` after choosing its flickering lines at `now`: every line is
/// lit, exactly `quota` lines flicker and are next due 1000..=5000 ms from now,
/// the others keep their due time; position, width and colour do not change.
pub open spec fn picked(old: Seq<Stripe>, new: Seq<Stripe>, now: u64, quota: nat) -> bool {
    &&& new.len() == old.len()
    &&& forall|j: int|
        0 <= j < old.len() ==> {
            let o = #[trigger] old[j];
            let n = new[j];
            &&& n.pos == o.pos
            &&& n.w == o.w
            &&& n.color == o.color
            &&& n.visible
            &&& !n.flickers ==> n.next_flip == o.next_flip
            &&& n.flickers ==> now + FLICKER_GAP_MIN_MS <= n.next_flip <= now + FLICKER_GAP_MAX_MS
        }
    &&& count_by(new, is_flickering()) == quota
}

/// Drawing distinct line indices below `n` until `k` are chosen or the draws
/// run out: each draw is `below(n)`, a repeat is skipped. Gives the indices in
/// the order drawn and the random state afterwards.
pub open spec fn draw_distinct(s: u64, n: nat, k: nat, chosen: Seq<usize>, draws: nat) -> (
    Seq<usize>,
    u64,
)
    decreases MAX_DRAWS - draws,
{
    if chosen.len() < k && draws < MAX_DRAWS {
        let (s1, i) = below_spec(s, n as u32);
        let next = if chosen.contains(i as usize) {
            chosen
        } else {
            chosen.push(i as usize)
        };
        draw_distinct(s1, n, k, next, draws + 1)
    } else {
        (chosen, s)
    }
}

/// Completing `chosen` to `k` indices with the lowest ones not chosen yet, from `f` up.
pub open spec fn fill_lowest(n: nat, k: nat, chosen: Seq<usize>, f: nat) -> Seq<usize>
    decreases n - f,
{
    if chosen.len() < k && f < n {
        fill_lowest(
            n,
            k,
            if chosen.contains(f as usize) {
                chosen
            } else {
                chosen.push(f as usize)
            },
            f + 1,
        )
    } else {
        chosen
    }
}

/// The draw with index `t` (counting from 0) of line indices below `n` from
/// state `s`: `below(n)` after `t` earlier steps.
pub open spec fn nth_draw(s: u64, n: nat, t: int) -> usize {
    below_spec(xorshift_n(s, t as nat), n as u32).1 as usize
}

/// The first `m` draws of line indices below `n` from state `s`.
pub open spec fn first_draws(s: u64, n: nat, m: nat) -> Seq<usize> {
    Seq::new(m, |t: int| nth_draw(s, n, t))
}

/// Drawing distinct indices never loses one already chosen.
proof fn lemma_draws_keep(s: u64, n: nat, k: nat, chosen: Seq<usize>, draws: nat, x: usize)
    requires
        chosen.contains(x),
    ensures
        draw_distinct(s, n, k, chosen, draws).0.contains(x),
    decreases MAX_DRAWS - draws,
{
    if chosen.len() < k && draws < MAX_DRAWS {
        let (s1, i) = below_spec(s, n as u32);
        let next = if chosen.contains(i as usize) {
            chosen
        } else {
            chosen.push(i as usize)
        };
        let w = choose|w: int| 0 <= w < chosen.len() && chosen[w] == x;
        assert(next[w] == x);
        lemma_draws_keep(s1, n, k, next, draws + 1, x);
    }
}

/// Completing the chosen indices never loses one.
proof fn lemma_fill_keeps(n: nat, k: nat, chosen: Seq<usize>, f: nat, x: usize)
    requires
        chosen.contains(x),
    ensures
        fill_lowest(n, k, chosen, f).contains(x),
    decreases n - f,
{
    if chosen.len() < k && f < n {
        let next = if chosen.contains(f as usize) {
            chosen
        } else {
            chosen.push(f as usize)
        };
        let w = choose|w: int| 0 <= w < chosen.len() && chosen[w] == x;
        assert(next[w] == x);
        lemma_fill_keeps(n, k, next, f + 1, x);
    }
}

/// When the first `k` draws are all different, drawing distinct indices takes
/// exactly them, in order, after `k` steps.
proof fn lemma_draws_distinct(s: u64, n: nat, k: nat, m: nat)
    requires
        0 < n <= MAX_LINES,
        m <= k < MAX_DRAWS,
        forall|a: int, b: int| 0 <= a < b < k ==> #[trigger] nth_draw(s, n, a) != #[trigger] nth_draw(s, n, b),
    ensures
        draw_distinct(xorshift_n(s, m), n, k, first_draws(s, n, m), m) == (first_draws(s, n, k), xorshift_n(s, k)),
    decreases k - m,
{
    let cur = first_draws(s, n, m);
    if m < k {
        let st = xorshift_n(s, m);
        let (s1, i) = below_spec(st, n as u32);
        assert((n as u32) as int == n) by {
            let w = n as u64;
            assert(w <= 20000 ==> (w as u32) as u64 == w) by (bit_vector);
        }
        assert(xorshift_n(s, (m + 1) as nat) == crate::model::xorshift(xorshift_n(s, m)));
        assert(s1 == xorshift_n(s, m + 1));
        assert(i as usize == nth_draw(s, n, m as int));
        assert(!cur.contains(i as usize)) by {
            if cur.contains(i as usize) {
                let w = choose|w: int| 0 <= w < cur.len() && cur[w] == i as usize;
                assert(nth_draw(s, n, w) != nth_draw(s, n, m as int));
            }
        }
        assert(cur.push(i as usize) =~= first_draws(s, n, m + 1));
        lemma_draws_distinct(s, n, k, m + 1);
    } else {
        assert(cur =~= first_draws(s, n, k));
    }
}

/// The flickering lines of a region of `n > 0` lines chosen from random state
/// `s`: the quota is drawn first, then distinct indices (see `draw_distinct`,
/// completed by `fill_lowest`). Gives the indices and the state afterwards.
#[verifier::opaque]
pub open spec fn flicker_choice(s: u64, n: nat) -> (Seq<usize>, u64) {
    let (s1, d) = range_spec(s, FLICKER_LINES_MIN, FLICKER_LINES_MAX);
    let k = flicker_quota(s, n);
    let (c, s2) = draw_distinct(s1, n, k, seq![], 0);
    (fill_lowest(n, k, c, 0), s2)
}

/// The region `old` after choosing its flickering lines at `now` from random
/// state `s` (see `picked`): exactly the lines of `flicker_choice` flicker, and
/// the m-th chosen line is next due `1000 + x % 4001` ms from now, `x` being
/// the state after m + 1 further steps.
#[verifier::opaque]
pub open spec fn picked_exactly(old: Seq<Stripe>, new: Seq<Stripe>, now: u64, s: u64) -> bool {
    if old.len() == 0 {
        new.len() == 0
    } else {
        let (chosen, s2) = flicker_choice(s, old.len());
        &&& picked(old, new, now, chosen.len())
        &&& forall|t: int| 0 <= t < old.len() ==> ((#[trigger] new[t]).flickers <==> chosen.contains(t as usize))
        &&& forall|m: int|
            0 <= m < chosen.len() ==> new[#[trigger] chosen[m] as int].next_flip == now + FLICKER_GAP_MIN_MS
                + xorshift_n(s2, (m + 1) as nat) % ((FLICKER_GAP_MAX_MS - FLICKER_GAP_MIN_MS + 1) as u64)
    }
}

/// The random state after choosing the flickering lines of a region of `n` lines from `s`.
pub open spec fn state_after_pick(s: u64, n: nat) -> u64 {
    if n == 0 {
        s
    } else {
        let (chosen, s2) = flicker_choice(s, n);
        xorshift_n(s2, chosen.len())
    }
}

/// The random state after choosing the flickering lines of all `regions` in order from `s`.
pub open spec fn pick_chain(regions: Seq<Seq<Stripe>>, s: u64) -> u64
    decreases regions.len(),
{
    if regions.len() == 0 {
        s
    } else {
        state_after_pick(pick_chain(regions.drop_last(), s), regions.last().len())
    }
}

/// The random state before choosing the flickering lines of region `i` of
/// `regions`, when the choice over all of them starts from `s`.
#[verifier::opaque]
pub open spec fn chain_before(regions: Seq<Seq<Stripe>>, i: int, s: u64) -> u64 {
    pick_chain(regions.take(i), s)
}

/// One step of `chain_before`: region `i` starts from where region `i - 1` left off.
proof fn lemma_chain_step(regions: Seq<Seq<Stripe>>, i: int, s: u64)
    requires
        0 <= i < regions.len(),
    ensures
        chain_before(regions, i + 1, s) == state_after_pick(chain_before(regions, i, s), regions[i].len()),
{
    reveal(chain_before);
    assert(regions.take(i + 1).drop_last() =~= regions.take(i));
}

/// `chain_before` at both ends: nothing is drawn before the first region, and
/// past the last one it is the state after all of them.
proof fn lemma_chain_ends(regions: Seq<Seq<Stripe>>, s: u64)
    ensures
        chain_before(regions, 0, s) == s,
        chain_before(regions, regions.len() as int, s) == pick_chain(regions, s),
{
    reveal(chain_before);
    assert(regions.take(0) =~= Seq::<Seq<Stripe>>::empty());
    assert(regions.take(regions.len() as int) =~= regions);
}

/// How the flickering lines of a region of `n` lines come from the random
/// source at state `s`: after the quota draw (state `s1`), the index of the
/// first draw `below(n)` always flickers; and whenever the first `k` draws
/// (`k` the quota) are all different, the flickering lines are exactly those `k`
/// drawn indices, and the source has advanced by `2 k` steps past `s1` (the `k`
/// draws, then one flip time for each chosen line).
pub proof fn lemma_pick_draws(old: Seq<Stripe>, new: Seq<Stripe>, now: u64, s: u64)
    requires
        picked_exactly(old, new, now, s),
        0 < old.len() <= MAX_LINES,
    ensures
        ({
            let n = old.len();
            let s1 = range_spec(s, FLICKER_LINES_MIN, FLICKER_LINES_MAX).0;
            let k = flicker_quota(s, n);
            &&& nth_draw(s1, n, 0) < n
            &&& new[nth_draw(s1, n, 0) as int].flickers
            &&& (forall|a: int, b: int|
                0 <= a < b < k ==> #[trigger] nth_draw(s1, n, a) != #[trigger] nth_draw(s1, n, b)) ==> {
                &&& forall|j: int|
                    0 <= j < n ==> ((#[trigger] new[j]).flickers <==> exists|t: int|
                        0 <= t < k && nth_draw(s1, n, t) == j)
                &&& state_after_pick(s, n) == xorshift_n(s1, 2 * k)
            }
        }),
{
    reveal(picked_exactly);
    reveal(flicker_choice);
    let n = old.len();
    let s1 = range_spec(s, FLICKER_LINES_MIN, FLICKER_LINES_MAX).0;
    let k = flicker_quota(s, n);
    lemma_flicker_quota(s, n);
    let (c, s2) = draw_distinct(s1, n, k, seq![], 0);
    let chosen = fill_lowest(n, k, c, 0);
    assert(flicker_choice(s, n) == (chosen, s2));
    let d0 = nth_draw(s1, n, 0);
    assert(xorshift_n(s1, 0) == s1);
    assert((n as u32) as nat == n);
    // the first draw is taken and kept
    let (t1, i1) = below_spec(s1, n as u32);
    assert(i1 as usize == d0);
    let next = seq![i1 as usize];
    assert(Seq::<usize>::empty().push(i1 as usize) =~= next);
    assert(next[0] == d0);
    lemma_draws_keep(t1, n, k, next, 1, d0);
    assert(draw_distinct(s1, n, k, seq![], 0) == draw_distinct(t1, n, k, next, 1));
    lemma_fill_keeps(n, k, c, 0, d0);
    assert(new[d0 as int].flickers);
    if forall|a: int, b: int| 0 <= a < b < k ==> #[trigger] nth_draw(s1, n, a) != #[trigger] nth_draw(s1, n, b) {
        assert(first_draws(s1, n, 0) =~= Seq::<usize>::empty());
        lemma_draws_distinct(s1, n, k, 0);
        assert(c == first_draws(s1, n, k));
        assert(chosen == c);
        assert forall|j: int| 0 <= j < n implies ((#[trigger] new[j]).flickers <==> exists|t: int|
            0 <= t < k && nth_draw(s1, n, t) == j) by {
            if new[j].flickers {
                assert(chosen.contains(j as usize));
                let t = choose|t: int| 0 <= t < chosen.len() && chosen[t] == j as usize;
                assert(nth_draw(s1, n, t) == j);
            }
            if exists|t: int| 0 <= t < k && nth_draw(s1, n, t) == j {
                let t = choose|t: int| 0 <= t < k && nth_draw(s1, n, t) == j;
                assert(chosen[t] == j as usize);
                assert(chosen.contains(j as usize));
            }
        }
        lemma_xorshift_n_add(s1, k, k);
    }
}

/// Whether `v` holds `x`.
fn holds(v: &Vec<usize>, x: usize) -> (b: bool)
    ensures
        b == v@.contains(x),
{
    let mut i: usize = 0;
    while i < v.len()
        invariant
            i <= v@.len(),
            forall|t: int| 0 <= t < i ==> v@[t] != x,
        decreases v@.len() - i,
    {
        if v[i] == x {
            return true;
        }
        i += 1;
    }
    false
}

/// Chooses the flickering lines of one region at `now`.
fn pick_region(stripes: &Vec<Stripe>, now: u64, rng: &mut Rng) -> (out: Vec<Stripe>)
    requires
        now <= u64::MAX - FLICKER_GAP_MAX_MS,
        stripes@.len() <= MAX_LINES,
    ensures
        picked(
            stripes@,
            out@,
            now,
            if stripes@.len() == 0 {
                0
            } else {
                flicker_quota(old(rng)@, stripes@.len())
            },
        ),
        picked_exactly(stripes@, out@, now, old(rng)@),
        final(rng)@ == state_after_pick(old(rng)@, stripes@.len()),
{
    let n = stripes.len();
    if n == 0 {
        proof {
            reveal(picked_exactly);
        }
        return Vec::new();
    }
    let ghost s0 = rng@;
    let k = rng.range(FLICKER_LINES_MIN, FLICKER_LINES_MAX).min(n as u32) as usize;
    assert(k == flicker_quota(s0, n as nat));
    let ghost s1 = rng@;
    let ghost total_draw = draw_distinct(s1, n as nat, k as nat, seq![], 0);
    let mut chosen: Vec<usize> = Vec::with_capacity(k);
    let mut draws: u64 = 0;
    assert(chosen@ =~= Seq::<usize>::empty());
    while chosen.len() < k && draws < MAX_DRAWS
        invariant
            draw_distinct(rng@, n as nat, k as nat, chosen@, draws as nat) == total_draw,
            draws <= MAX_DRAWS,
            n == stripes@.len(),
            0 < n <= MAX_LINES,
            k <= n,
            chosen@.len() <= k,
            forall|a: int| 0 <= a < chosen@.len() ==> #[trigger] chosen@[a] < n,
            forall|a: int, b: int|
                0 <= a < b < chosen@.len() ==> #[trigger] chosen@[a] != #[trigger] chosen@[b],
        decreases MAX_DRAWS - draws,
    {
        draws += 1;
        let i = rng.below(n as u32) as usize;
        if !holds(&chosen, i) {
            chosen.push(i);
        }
    }
    let ghost drawn_chosen = chosen@;
    let ghost s2 = rng@;
    assert(total_draw == (drawn_chosen, s2));
    let mut f: usize = 0;
    while chosen.len() < k && f < n
        invariant
            fill_lowest(n as nat, k as nat, chosen@, f as nat) == fill_lowest(
                n as nat,
                k as nat,
                drawn_chosen,
                0,
            ),
            rng@ == s2,
            n == stripes@.len(),
            k <= n,
            chosen@.len() <= k,
            f <= n,
            forall|a: int| 0 <= a < chosen@.len() ==> #[trigger] chosen@[a] < n,
            forall|a: int, b: int|
                0 <= a < b < chosen@.len() ==> #[trigger] chosen@[a] != #[trigger] chosen@[b],
            chosen@.len() < k ==> forall|t: int| 0 <= t < f ==> #[trigger] chosen@.contains(t as usize),
        decreases n - f,
    {
        let ghost before = chosen@;
        if !holds(&chosen, f) {
            chosen.push(f);
        }
        proof {
            if chosen@.len() < k {
                assert(before.len() < k);
                assert(forall|t: int| 0 <= t < f ==> #[trigger] before.contains(t as usize));
            }
            assert forall|t: int| 0 <= t < f + 1 && chosen@.len() < k implies #[trigger] chosen@.contains(t as usize) by {
                if t < f {
                    assert(before.contains(t as usize));
                    let a = choose|a: int| 0 <= a < before.len() && before[a] == t as usize;
                    assert(chosen@[a] == before[a]);
                } else if !before.contains(f) {
                    assert(chosen@[before.len() as int] == f);
                } else {
                    let a = choose|a: int| 0 <= a < before.len() && before[a] == f;
                    assert(chosen@[a] == before[a]);
                }
            }
        }
        f += 1;
    }
    proof {
        if chosen@.len() < k {
            // every index below n is chosen, so there are n distinct entries
            assert(forall|t: int| 0 <= t < n ==> #[trigger] chosen@.contains(t as usize));
            lemma_distinct_cover(chosen@, n as nat);
            assert(false);
        }
    }
    let mut out: Vec<Stripe> = Vec::new();
    let mut j: usize = 0;
    while j < n
        invariant
            n == stripes@.len(),
            j <= n,
            out@.len() == j,
            forall|t: int|
                0 <= t < j ==> {
                    let o = #[trigger] stripes@[t];
                    let s = out@[t];
                    &&& s.pos == o.pos
                    &&& s.w == o.w
                    &&& s.color == o.color
                    &&& s.visible
                    &&& !s.flickers
                    &&& s.next_flip == o.next_flip
                },
        decreases n - j,
    {
        let mut s = stripes[j];
        s.flickers = false;
        s.visible = true;
        out.push(s);
        j += 1;
    }
    proof {
        lemma_count_all(out@, is_flickering());
    }
    let mut m: usize = 0;
    proof {
        assert(chosen@.take(0) =~= Seq::<usize>::empty());
        assert forall|i: int| 0 <= i < out@.len() implies !is_flickering()(#[trigger] out@[i]) by {
            let o = stripes@[i];
        }
        lemma_count_all(out@, is_flickering());
    }
    while m < chosen.len()
        invariant
            n == stripes@.len(),
            chosen@.len() == k,
            m <= k,
            now <= u64::MAX - FLICKER_GAP_MAX_MS,
            out@.len() == n,
            forall|a: int| 0 <= a < chosen@.len() ==> #[trigger] chosen@[a] < n,
            forall|a: int, b: int|
                0 <= a < b < chosen@.len() ==> #[trigger] chosen@[a] != #[trigger] chosen@[b],
            forall|t: int|
                0 <= t < n ==> ((#[trigger] out@[t]).flickers <==> chosen@.take(m as int).contains(
                    t as usize,
                )),
            count_by(out@, is_flickering()) == m,
            rng@ == xorshift_n(s2, m as nat),
            forall|a: int|
                0 <= a < m ==> out@[#[trigger] chosen@[a] as int].next_flip == now + FLICKER_GAP_MIN_MS
                    + xorshift_n(s2, (a + 1) as nat) % ((FLICKER_GAP_MAX_MS - FLICKER_GAP_MIN_MS
                    + 1) as u64),
            forall|t: int|
                0 <= t < n ==> {
                    let o = #[trigger] stripes@[t];
                    let s = out@[t];
                    &&& s.pos == o.pos
                    &&& s.w == o.w
                    &&& s.color == o.color
                    &&& s.visible
                    &&& !s.flickers ==> s.next_flip == o.next_flip
                    &&& s.flickers ==> now + FLICKER_GAP_MIN_MS <= s.next_flip <= now
                        + FLICKER_GAP_MAX_MS
                },
        decreases k - m,
    {
        let c = chosen[m];
        let ghost prev = out@;
        proof {
            if chosen@.take(m as int).contains(c) {
                let a = choose|a: int| 0 <= a < m && chosen@.take(m as int)[a] == c;
                assert(chosen@[a] == chosen@[m as int]);
            }
            assert(!prev[c as int].flickers);
        }
        let mut s = out[c];
        s.flickers = true;
        s.next_flip = now + rng.range_ms(FLICKER_GAP_MIN_MS, FLICKER_GAP_MAX_MS);
        out.set(c, s);
        proof {
            assert forall|t: int| 0 <= t < n implies {
                let o = #[trigger] stripes@[t];
                let s = out@[t];
                &&& s.pos == o.pos
                &&& s.w == o.w
                &&& s.color == o.color
                &&& s.visible
                &&& !s.flickers ==> s.next_flip == o.next_flip
                &&& s.flickers ==> now + FLICKER_GAP_MIN_MS <= s.next_flip <= now
                    + FLICKER_GAP_MAX_MS
            } by {
                if t != c {
                    assert(out@[t] == prev[t]);
                }
            }
            lemma_count_update(prev, c as int, s, is_flickering());
            assert(chosen@.take(m + 1) =~= chosen@.take(m as int).push(c));
            assert forall|a: int| 0 <= a < m + 1 implies out@[#[trigger] chosen@[a] as int].next_flip == now
                + FLICKER_GAP_MIN_MS + xorshift_n(s2, (a + 1) as nat) % ((FLICKER_GAP_MAX_MS
                - FLICKER_GAP_MIN_MS + 1) as u64) by {
                if a < m {
                    assert(chosen@[a] != chosen@[m as int]);
                    assert(out@[chosen@[a] as int] == prev[chosen@[a] as int]);
                }
            }
            assert forall|t: int| 0 <= t < n implies ((#[trigger] out@[t]).flickers
                <==> chosen@.take(m + 1).contains(t as usize)) by {
                let tk = chosen@.take(m as int);
                if t != c {
                    assert(out@[t] == prev[t]);
                    if tk.push(c).contains(t as usize) {
                        let a = choose|a: int| 0 <= a < tk.len() + 1 && tk.push(c)[a] == t as usize;
                        assert(a < tk.len());
                        assert(tk[a] == t as usize);
                    }
                    if tk.contains(t as usize) {
                        let a = choose|a: int| 0 <= a < tk.len() && tk[a] == t as usize;
                        assert(tk.push(c)[a] == t as usize);
                    }
                } else {
                    assert(tk.push(c)[tk.len() as int] == c);
                }
            }
        }
        m += 1;
    }
    proof {
        assert(chosen@.take(k as int) =~= chosen@);
        reveal(flicker_choice);
        assert(flicker_choice(s0, n as nat) == (chosen@, s2));
        reveal(picked_exactly);
    }
    out
}

/// A sequence that holds every value below `n` is at least `n` long.
proof fn lemma_distinct_cover(s: Seq<usize>, n: nat)
    requires
        n <= usize::MAX,
        forall|t: int| 0 <= t < n ==> #[trigger] s.contains(t as usize),
    ensures
        s.len() >= n,
{
    let si = s.map_values(|v: usize| v as int);
    let range = vstd::set_lib::set_int_range(0, n as int);
    vstd::set_lib::lemma_int_range(0, n as int);
    vstd::seq_lib::seq_to_set_is_finite(si);
    assert forall|t: int| range.contains(t) implies si.to_set().contains(t) by {
        assert(s.contains(t as usize));
        let a = choose|a: int| 0 <= a < s.len() && s[a] == t as usize;
        assert(si[a] == t);
    }
    vstd::set_lib::lemma_len_subset(range, si.to_set());
    si.lemma_cardinality_of_set();
}

/// How many lines of a region of `n` lines may flicker: none of an empty
/// region, otherwise `FLICKER_LINES_MIN..=FLICKER_LINES_MAX` but at most `n`.
pub open spec fn quota_ok(n: nat, q: nat) -> bool {
    if n == 0 {
        q == 0
    } else {
        &&& q <= n
        &&& q <= FLICKER_LINES_MAX
        &&& q >= FLICKER_LINES_MIN || q == n
    }
}

proof fn lemma_flicker_quota(s: u64, n: nat)
    requires
        0 < n <= MAX_LINES,
    ensures
        quota_ok(n, flicker_quota(s, n)),
{
    assert((n as u32) as int == n) by {
        let m = n as u64;
        assert(m <= 20000 ==> (m as u32) as u64 == m) by (bit_vector);
    }
}

/// The region `old` after choosing its flickering lines at `now` (see `picked`),
/// with an allowed number of flickering lines (see `quota_ok`).
pub open spec fn repicked(old: Seq<Stripe>, new: Seq<Stripe>, now: u64) -> bool {
    &&& picked(old, new, now, count_by(new, is_flickering()))
    &&& quota_ok(old.len(), count_by(new, is_flickering()))
}

impl Layer {
    /// Chooses anew the flickering lines of every region at `now`: every line is
    /// lit, a few lines of each region flicker (see `quota_ok`) and are next due
    /// 1000..=5000 ms from now; positions and colours stay.
    #[verifier::rlimit(30)]
    pub fn pick_flicker_lines(&mut self, now: u64)
        requires
            old(self).wf(),
            now <= u64::MAX - FLICKER_GAP_MAX_MS,
        ensures
            final(self).wf(),
            final(self).regions@.len() == old(self).regions@.len(),
            forall|i: int|
                0 <= i < old(self).regions@.len() ==> repicked(
                    #[trigger] old(self).regions@[i]@,
                    final(self).regions@[i]@,
                    now,
                ),
            forall|i: int|
                0 <= i < old(self).regions@.len() ==> picked_exactly(
                    #[trigger] old(self).regions@[i]@,
                    final(self).regions@[i]@,
                    now,
                    chain_before(views(old(self).regions@), i, old(self).rng@),
                ),
            final(self).rng@ == pick_chain(views(old(self).regions@), old(self).rng@),
            forall|i: int|
                0 <= i < old(self).regions@.len() ==> #[trigger] final(self).visible_counts@[i]
                    == old(self).regions@[i]@.len(),
            final(self).hwnd == old(self).hwnd,
            final(self).origin == old(self).origin,
            final(self).vw == old(self).vw,
            final(self).vh == old(self).vh,
            final(self).orientation == old(self).orientation,
            final(self).mode == old(self).mode,
            final(self).flicker_on == old(self).flicker_on,
            final(self).shown == old(self).shown,
            final(self).key_brush == old(self).key_brush,
            final(self).brushes@ == old(self).brushes@,
            final(self).capture_excluded == old(self).capture_excluded,
    {
        let ghost olds = self.regions@;
        let ghost s0 = self.rng@;
        let n = self.regions.len();
        let mut ri: usize = 0;
        proof {
            lemma_chain_ends(views(olds), s0);
        }
        while ri < n
            invariant
                n == olds.len(),
                ri <= n,
                now <= u64::MAX - FLICKER_GAP_MAX_MS,
                self.wf(),
                self.regions@.len() == n,
                forall|t: int| 0 <= t < ri ==> repicked(#[trigger] olds[t]@, self.regions@[t]@, now),
                forall|t: int|
                    0 <= t < ri ==> picked_exactly(
                        #[trigger] olds[t]@,
                        self.regions@[t]@,
                        now,
                        chain_before(views(olds), t, s0),
                    ),
                self.rng@ == chain_before(views(olds), ri as int, s0),
                forall|t: int| 0 <= t < ri ==> #[trigger] self.visible_counts@[t] == olds[t]@.len(),
                forall|t: int| ri <= t < n ==> #[trigger] self.regions@[t] == olds[t],
                self.hwnd == old(self).hwnd,
                self.origin == old(self).origin,
                self.vw == old(self).vw,
                self.vh == old(self).vh,
                self.orientation == old(self).orientation,
                self.mode == old(self).mode,
                self.flicker_on == old(self).flicker_on,
                self.shown == old(self).shown,
                self.key_brush == old(self).key_brush,
                self.brushes@ == old(self).brushes@,
                self.capture_excluded == old(self).capture_excluded,
            decreases n - ri,
        {
            let ghost before = self.regions@;
            let ghost s_before = self.rng@;
            proof {
                assert(self.regions@[ri as int] == olds[ri as int]);
            }
            let lines = pick_region(&self.regions[ri], now, &mut self.rng);
            let len = lines.len();
            proof {
                let old_lines = olds[ri as int]@;
                let q = if old_lines.len() == 0 {
                    0
                } else {
                    flicker_quota(s_before, old_lines.len())
                };
                if old_lines.len() > 0 {
                    lemma_flicker_quota(s_before, old_lines.len());
                }
                assert(quota_ok(old_lines.len(), q));
                assert forall|j: int| 0 <= j < lines@.len() implies is_lit()(#[trigger] lines@[j]) by {
                    let o = old_lines[j];
                }
                lemma_count_all(lines@, is_lit());
            }
            self.regions.set(ri, lines);
            self.visible_counts.set(ri, len);
            proof {
                assert forall|i: int, j: int|
                    0 <= i < self.regions@.len() && 0 <= j < self.regions@[i]@.len() implies i32::MIN
                        <= #[trigger] self.regions@[i]@[j].pos + self.regions@[i]@[j].w <= i32::MAX by {
                    if i == ri {
                        let o = olds[i]@[j];
                    } else {
                        assert(self.regions@[i] == before[i]);
                    }
                }
                assert forall|i: int| 0 <= i < self.regions@.len() implies (#[trigger] self.regions@[i])@.len()
                    <= MAX_LINES by {
                    if i != ri {
                        assert(self.regions@[i] == before[i]);
                    }
                }
                lemma_chain_step(views(olds), ri as int, s0);
                assert forall|t: int| 0 <= t < ri + 1 implies picked_exactly(
                    #[trigger] olds[t]@,
                    self.regions@[t]@,
                    now,
                    chain_before(views(olds), t, s0),
                ) by {
                    if t < ri {
                        assert(self.regions@[t] == before[t]);
                    }
                }
                assert forall|t: int| 0 <= t < ri + 1 implies repicked(#[trigger] olds[t]@, self.regions@[t]@, now) by {
                    if t < ri {
                        assert(self.regions@[t] == before[t]);
                    } else {
                        let old_lines = olds[ri as int]@;
                        let q = if old_lines.len() == 0 {
                            0
                        } else {
                            flicker_quota(s_before, old_lines.len())
                        };
                        assert(quota_ok(old_lines.len(), q));
                    }
                }
            }
            ri += 1;
        }
        proof {
            lemma_chain_ends(views(olds), s0);
        }
    }
}

/// Start and span of the layout axis of region `r` relative to `origin`: the
/// left-right range for vertical lines, the top-bottom range for horizontal ones.
pub open spec fn axis_of(r: Region, o: Orientation, origin: (i32, i32)) -> (int, int) {
    match o {
        Orientation::Vertical => (r.x - origin.0, r.w as int),
        Orientation::Horizontal => (r.y - origin.1, r.h as int),
    }
}

/// The lines of region `r` can be laid out in overlay coordinates.
pub open spec fn region_fits(r: Region, o: Orientation, origin: (i32, i32)) -> bool {
    let (a0, span) = axis_of(r, o, origin);
    &&& i32::MIN <= a0 <= i32::MAX
    &&& span < 1 || a0 + span + 3 <= i32::MAX
}

/// Every region of `rs` can be laid out.
pub open spec fn regions_fit(rs: Seq<Region>, o: Orientation, origin: (i32, i32)) -> bool {
    forall|i: int| 0 <= i < rs.len() ==> region_fits(#[trigger] rs[i], o, origin)
}

/// Whether every region of `regions` can be laid out in orientation `o` on an
/// overlay at `origin` (see `region_fits`).
pub fn can_lay_out(regions: &[Region], o: Orientation, origin: (i32, i32)) -> (b: bool)
    ensures
        b == regions_fit(regions@, o, origin),
{
    let mut i: usize = 0;
    while i < regions.len()
        invariant
            i <= regions@.len(),
            forall|t: int| 0 <= t < i ==> region_fits(#[trigger] regions@[t], o, origin),
        decreases regions@.len() - i,
    {
        let r = &regions[i];
        let (a0, span): (i64, i64) = match o {
            Orientation::Vertical => (r.x as i64 - origin.0 as i64, r.w as i64),
            Orientation::Horizontal => (r.y as i64 - origin.1 as i64, r.h as i64),
        };
        if a0 < i32::MIN as i64 || a0 > i32::MAX as i64 {
            return false;
        }
        if span >= 1 && a0 + span + 3 > i32::MAX as i64 {
            return false;
        }
        i += 1;
    }
    true
}

/// The lines of each of the regions `rs`, laid out one region after the other
/// from random state `s`, and the state afterwards.
pub open spec fn layout_all(
    rs: Seq<Region>,
    o: Orientation,
    origin: (i32, i32),
    pool: Seq<u32>,
    s: u64,
) -> (Seq<Seq<Stripe>>, u64)
    decreases rs.len(),
{
    if rs.len() == 0 {
        (seq![], s)
    } else {
        let (prev, s1) = layout_all(rs.drop_last(), o, origin, pool, s);
        let (a0, span) = axis_of(rs.last(), o, origin);
        if span < 1 || pool.len() == 0 {
            (prev.push(seq![]), s1)
        } else {
            let (lines, s2) = layout(a0, a0 + span, None, pool, s1, 0);
            (prev.push(lines), s2)
        }
    }
}

/// The contents of each region's lines.
pub open spec fn views(v: Seq<Vec<Stripe>>) -> Seq<Seq<Stripe>> {
    v.map_values(|x: Vec<Stripe>| x@)
}

impl Layer {
    /// Lays out the lines of `regions` anew by the current orientation and
    /// mode, then chooses the flickering lines at `now` when flicker is on.
    #[verifier::spinoff_prover]
    #[verifier::rlimit(40)]
    fn rebuild_stripes(&mut self, regions: &[Region], now: u64)
        requires
            old(self).wf(),
            regions_fit(regions@, old(self).orientation, old(self).origin),
            now <= u64::MAX - FLICKER_GAP_MAX_MS,
        ensures
            restriped(*old(self), *final(self), regions@, now),
    {
        let pool = self.mode.pool();
        let mut all: Vec<Vec<Stripe>> = Vec::new();
        let mut counts: Vec<usize> = Vec::new();
        let ghost s0 = self.rng@;
        let n = regions.len();
        let mut i: usize = 0;
        proof {
            assert(regions@.take(0) =~= Seq::<Region>::empty());
            assert(views(all@) =~= Seq::<Seq<Stripe>>::empty());
        }
        while i < n
            invariant
                n == regions@.len(),
                i <= n,
                pool@ == pool_of(self.mode),
                regions_fit(regions@, self.orientation, self.origin),
                all@.len() == i,
                lines_ok(all@, counts@),
                forall|t: int| 0 <= t < i ==> #[trigger] counts@[t] == all@[t]@.len(),
                forall|t: int|
                    0 <= t < i ==> {
                        let (a0, span) = axis_of(#[trigger] regions@[t], self.orientation, self.origin);
                        well_laid(all@[t]@, a0, a0 + span, pool@)
                    },
                (views(all@), self.rng@) == layout_all(
                    regions@.take(i as int),
                    self.orientation,
                    self.origin,
                    pool@,
                    s0,
                ),
                self.hwnd == old(self).hwnd,
                self.origin == old(self).origin,
                self.vw == old(self).vw,
                self.vh == old(self).vh,
                self.orientation == old(self).orientation,
                self.mode == old(self).mode,
                self.flicker_on == old(self).flicker_on,
                self.shown == old(self).shown,
                self.key_brush == old(self).key_brush,
                self.brushes@ == old(self).brushes@,
                self.capture_excluded == old(self).capture_excluded,
                self.wf(),
            decreases n - i,
        {
            let ghost s_before = self.rng@;
            let ghost all_before = all@;
            let ghost counts_before = counts@;
            proof {
                assert(region_fits(regions@[i as int], self.orientation, self.origin));
            }
            let (a0, span) = regions[i].axis(self.orientation, self.origin);
            let lines = build_lines(a0, span, pool, &mut self.rng);
            let len = lines.len();
            proof {
                lemma_count_all(lines@, is_lit());
                assert forall|j: int| 0 <= j < lines@.len() implies is_lit()(#[trigger] lines@[j]) by {}
                lemma_count_all(lines@, is_lit());
            }
            counts.push(len);
            all.push(lines);
            proof {
                assert(regions@.take(i + 1).drop_last() =~= regions@.take(i as int));
                assert(regions@.take(i + 1).last() == regions@[i as int]);
                assert(views(all@) =~= views(all_before).push(lines@));
                if span < 1 {
                    assert(lines@ =~= Seq::<Stripe>::empty());
                }
                assert forall|t: int| 0 <= t < i + 1 implies #[trigger] counts@[t] == all@[t]@.len() by {}
                assert forall|t: int| 0 <= t < i + 1 implies #[trigger] counts@[t] == count_by(all@[t]@, is_lit()) by {
                    if t < i {
                        assert(all@[t] == all_before[t]);
                    }
                }
            }
            i += 1;
        }
        proof {
            assert(regions@.take(n as int) =~= regions@);
        }
        self.regions = all;
        self.visible_counts = counts;
        proof {
            assert forall|i: int| 0 <= i < regions@.len() implies same_lines(
                (#[trigger] self.regions@[i])@,
                layout_all(regions@, self.orientation, self.origin, pool_of(self.mode), s0).0[i],
            ) by {
                assert(views(self.regions@)[i] == self.regions@[i]@);
            }
        }
        proof {
            if !self.flicker_on {
                assert forall|i: int, j: int|
                    0 <= i < self.regions@.len() && 0 <= j < self.regions@[i]@.len() implies (
                    #[trigger] self.regions@[i]@[j]).visible by {
                    assert(self.visible_counts@[i] == self.regions@[i]@.len());
                    assert(self.visible_counts@[i] == count_by(self.regions@[i]@, is_lit()));
                    lemma_count_full(self.regions@[i]@, is_lit());
                    assert(is_lit()(self.regions@[i]@[j]));
                }
            }
        }
        if self.flicker_on {
            let ghost laid = self.regions@;
            self.pick_flicker_lines(now);
            proof {
                assert forall|i: int, j: int|
                    0 <= i < self.regions@.len() && 0 <= j < self.regions@[i]@.len() implies (
                    #[trigger] self.regions@[i]@[j]).visible by {
                    assert(repicked(laid[i]@, self.regions@[i]@, now));
                    let o = laid[i]@[j];
                }
                let (lines, s) = layout_all(
                    regions@,
                    old(self).orientation,
                    old(self).origin,
                    pool_of(old(self).mode),
                    s0,
                );
                assert(views(laid) == lines);
                assert forall|i: int| 0 <= i < regions@.len() implies picked_exactly(
                    #[trigger] lines[i],
                    self.regions@[i]@,
                    now,
                    chain_before(lines, i, s),
                ) by {
                    assert(views(laid)[i] == laid[i]@);
                }
                assert forall|i: int| 0 <= i < regions@.len() implies same_lines(
                    (#[trigger] self.regions@[i])@,
                    layout_all(regions@, self.orientation, self.origin, pool_of(self.mode), s0).0[i],
                ) by {
                    let lay = layout_all(regions@, self.orientation, self.origin, pool_of(self.mode), s0).0[i];
                    assert(same_lines(laid[i]@, lay));
                    assert(repicked(laid[i]@, self.regions@[i]@, now));
                    assert forall|j: int| 0 <= j < self.regions@[i]@.len() implies (#[trigger] self.regions@[i]@[j]).pos
                        == lay[j].pos && self.regions@[i]@[j].w == lay[j].w && self.regions@[i]@[j].color
                        == lay[j].color by {
                        let o = laid[i]@[j];
                    }
                }
                assert forall|i: int| 0 <= i < regions@.len() implies {
                    let (a0, span) = axis_of(#[trigger] regions@[i], old(self).orientation, old(self).origin);
                    laid_out(self.regions@[i]@, a0, a0 + span, pool_of(old(self).mode))
                } by {
                    let (a0, span) = axis_of(regions@[i], old(self).orientation, old(self).origin);
                    assert(repicked(laid[i]@, self.regions@[i]@, now));
                    lemma_laid_out_transfer(laid[i]@, self.regions@[i]@, a0, a0 + span, pool_of(old(self).mode));
                }
                assert forall|i: int| 0 <= i < regions@.len() implies {
                    let lines = (#[trigger] self.regions@[i])@;
                    &&& forall|j: int| 0 <= j < lines.len() ==> (#[trigger] lines[j]).visible
                    &&& quota_ok(lines.len(), count_by(lines, is_flickering()))
                } by {
                    assert(repicked(laid[i]@, self.regions@[i]@, now));
                    let lines = self.regions@[i]@;
                    assert forall|j: int| 0 <= j < lines.len() implies (#[trigger] lines[j]).visible by {
                        let o = laid[i]@[j];
                    }
                }
            }
        }
    }
}

/// Lines with the same positions, widths and colours lie the same way.
pub proof fn lemma_laid_out_transfer(a: Seq<Stripe>, b: Seq<Stripe>, lo: int, hi: int, pool: Seq<u32>)
    requires
        laid_out(a, lo, hi, pool),
        a.len() == b.len(),
        forall|j: int|
            0 <= j < a.len() ==> (#[trigger] b[j]).pos == a[j].pos && b[j].w == a[j].w && b[j].color
                == a[j].color,
    ensures
        laid_out(b, lo, hi, pool),
{
    assert forall|i: int| 0 <= i < b.len() - 1 implies {
        let gap = b[i + 1].pos - b[i].pos - 1;
        &&& 0 <= gap <= 3
        &&& gap == 0 ==> b[i + 1].color == #[trigger] b[i].color
    } by {
        let x = a[i];
        let y = a[i + 1];
    }
    assert forall|i: int| 0 <= i < b.len() implies {
        let l = #[trigger] b[i];
        &&& lo <= l.pos < hi
        &&& l.w == 1
        &&& pool.contains(l.color)
    } by {
        let x = a[i];
    }
}

/// Two runs of lines at the same positions, with the same widths and colours.
pub open spec fn same_lines(a: Seq<Stripe>, b: Seq<Stripe>) -> bool {
    &&& a.len() == b.len()
    &&& forall|j: int|
        0 <= j < a.len() ==> (#[trigger] a[j]).pos == b[j].pos && a[j].w == b[j].w && a[j].color
            == b[j].color
}

/// Everything but the lines, their lit counts and the random source is the same.
pub open spec fn same_settings(a: Layer, b: Layer) -> bool {
    &&& b.hwnd == a.hwnd
    &&& b.origin == a.origin
    &&& b.vw == a.vw
    &&& b.vh == a.vh
    &&& b.orientation == a.orientation
    &&& b.mode == a.mode
    &&& b.flicker_on == a.flicker_on
    &&& b.shown == a.shown
    &&& b.key_brush == a.key_brush
    &&& b.brushes@ == a.brushes@
    &&& b.capture_excluded == a.capture_excluded
}

/// `after` is `before` with the lines of `regions` laid out anew by the
/// orientation and mode of `before`: exactly by `layout_all` when flicker is off;
/// when it is on, laid out the same way with every line lit and a few lines of
/// each region flickering.
pub open spec fn restriped(before: Layer, after: Layer, regions: Seq<Region>, now: u64) -> bool {
    &&& after.wf()
    &&& quiet(after)
    &&& all_lit(after.regions@)
    &&& same_settings(before, after)
    &&& after.regions@.len() == regions.len()
    &&& forall|i: int|
        0 <= i < regions.len() ==> {
            let (a0, span) = axis_of(#[trigger] regions[i], before.orientation, before.origin);
            laid_out(after.regions@[i]@, a0, a0 + span, pool_of(before.mode))
        }
    &&& forall|i: int|
        0 <= i < regions.len() ==> same_lines(
            (#[trigger] after.regions@[i])@,
            layout_all(regions, before.orientation, before.origin, pool_of(before.mode), before.rng@).0[i],
        )
    &&& !before.flicker_on ==> {
        let (lines, s) = layout_all(
            regions,
            before.orientation,
            before.origin,
            pool_of(before.mode),
            before.rng@,
        );
        &&& views(after.regions@) == lines
        &&& after.rng@ == s
        &&& forall|i: int|
            0 <= i < regions.len() ==> #[trigger] after.visible_counts@[i] == after.regions@[i]@.len()
    }
    &&& before.flicker_on ==> forall|i: int|
        0 <= i < regions.len() ==> {
            let lines = (#[trigger] after.regions@[i])@;
            &&& forall|j: int| 0 <= j < lines.len() ==> (#[trigger] lines[j]).visible
            &&& quota_ok(lines.len(), count_by(lines, is_flickering()))
        }
    &&& before.flicker_on ==> {
        let (lines, s) = layout_all(
            regions,
            before.orientation,
            before.origin,
            pool_of(before.mode),
            before.rng@,
        );
        &&& after.rng@ == pick_chain(lines, s)
        &&& forall|i: int|
            0 <= i < regions.len() ==> picked_exactly(
                #[trigger] lines[i],
                after.regions@[i]@,
                now,
                chain_before(lines, i, s),
            )
    }
}


/// The overlay, if it exists, is consistent.
pub open spec fn layer_ok(layer: Option<Layer>) -> bool {
    layer is Some ==> layer->0.wf() && quiet(layer->0)
}

/// Every line of every region is lit.
pub open spec fn all_lit(regions: Seq<Vec<Stripe>>) -> bool {
    forall|i: int, j: int| 0 <= i < regions.len() && 0 <= j < regions[i]@.len() ==> (#[trigger] regions[i]@[j]).visible
}

/// With flicker off every line is lit.
pub open spec fn quiet(l: Layer) -> bool {
    !l.flicker_on ==> all_lit(l.regions@)
}

/// A run of lines counted by `p` to its full length satisfies `p` throughout.
pub proof fn lemma_count_full(s: Seq<Stripe>, p: spec_fn(Stripe) -> bool)
    requires
        count_by(s, p) == s.len(),
    ensures
        forall|i: int| 0 <= i < s.len() ==> p(#[trigger] s[i]),
    decreases s.len(),
{
    if s.len() > 0 {
        lemma_count_bound(s.drop_last(), p);
        lemma_count_full(s.drop_last(), p);
        assert forall|i: int| 0 <= i < s.len() implies p(#[trigger] s[i]) by {
            if i < s.len() - 1 {
                assert(s[i] == s.drop_last()[i]);
            }
        }
    }
}

/// With flicker off the lit lines of a consistent overlay are all its lines:
/// `visible_line_count` equals `total_line_count`.
pub proof fn lemma_quiet_counts(l: Layer)
    requires
        l.wf(),
        quiet(l),
        !l.flicker_on,
    ensures
        sum_counts(l.visible_counts@) == sum_lens(l.regions@),
{
    lemma_all_lit_sums(l.regions@, l.visible_counts@);
}

proof fn lemma_all_lit_sums(regions: Seq<Vec<Stripe>>, counts: Seq<usize>)
    requires
        lines_ok(regions, counts),
        all_lit(regions),
    ensures
        sum_counts(counts) == sum_lens(regions),
    decreases regions.len(),
{
    if regions.len() > 0 {
        let r = regions.drop_last();
        let c = counts.drop_last();
        let k = regions.len() - 1;
        assert(lines_ok(r, c)) by {
            assert forall|i: int| 0 <= i < r.len() implies #[trigger] c[i] == count_by(r[i]@, is_lit()) by {
                assert(counts[i] == count_by(regions[i]@, is_lit()));
            }
            assert forall|i: int| 0 <= i < r.len() && r[i]@.len() > 0 implies #[trigger] c[i] >= 1 by {
                assert(counts[i] >= 1 || regions[i]@.len() == 0);
            }
            assert forall|i: int| 0 <= i < r.len() implies (#[trigger] r[i])@.len() <= MAX_LINES by {
                assert(regions[i]@.len() <= MAX_LINES);
            }
            assert forall|i: int, j: int|
                0 <= i < r.len() && 0 <= j < r[i]@.len() implies i32::MIN <= #[trigger] r[i]@[j].pos
                    + r[i]@[j].w <= i32::MAX by {
                assert(r[i] == regions[i]);
            }
        }
        assert(all_lit(r)) by {
            assert forall|i: int, j: int| 0 <= i < r.len() && 0 <= j < r[i]@.len() implies (#[trigger] r[i]@[j]).visible by {
                assert(r[i] == regions[i]);
            }
        }
        lemma_all_lit_sums(r, c);
        let last = regions[k]@;
        assert forall|j: int| 0 <= j < last.len() implies is_lit()(#[trigger] last[j]) by {
            assert(regions[k]@[j].visible);
        }
        lemma_count_all(last, is_lit());
        assert(counts[k] == count_by(last, is_lit()));
    }
}

/// `before` with new orientation, mode and flicker setting, on screen.
pub open spec fn with_settings(before: Layer, o: Orientation, m: ColorMode, flicker: bool) -> Layer {
    Layer { orientation: o, mode: m, flicker_on: flicker, shown: true, ..before }
}

/// Lays out the lines of `regions` by `orientation` and `mode` (choosing the
/// flickering lines at `now` when `flicker` is on) and puts the overlay on screen.
pub fn show(
    layer: &mut Option<Layer>,
    regions: &[Region],
    orientation: Orientation,
    mode: ColorMode,
    flicker: bool,
    now: u64,
)
    requires
        layer_ok(*old(layer)),
        *old(layer) is Some ==> regions_fit(regions@, orientation, (*old(layer))->0.origin),
        now <= u64::MAX - FLICKER_GAP_MAX_MS,
    ensures
        layer_ok(*final(layer)),
        *old(layer) is None ==> *final(layer) is None,
        *old(layer) is Some ==> *final(layer) is Some && restriped(
            with_settings((*old(layer))->0, orientation, mode, flicker),
            (*final(layer))->0,
            regions@,
            now,
        ),
        *old(layer) is Some ==> applied(
            (*old(layer))->0,
            (LayerCall::Show { regions: regions@, orientation, mode, flicker, now }),
            (*final(layer))->0,
        ),
        *old(layer) is Some ==> (*final(layer))->0.capture_excluded == (*old(layer))->0.capture_excluded,
{
    match layer {
        Some(l) => {
            l.orientation = orientation;
            l.mode = mode;
            l.flicker_on = flicker;
            l.shown = true;
            l.rebuild_stripes(regions, now);
        },
        None => {},
    }
}

/// Lays out the lines of `regions` anew by `orientation` and `mode` (when the
/// regions, orientation or colour change), keeping the flicker setting.
pub fn rebuild(
    layer: &mut Option<Layer>,
    regions: &[Region],
    orientation: Orientation,
    mode: ColorMode,
    now: u64,
)
    requires
        layer_ok(*old(layer)),
        *old(layer) is Some ==> regions_fit(regions@, orientation, (*old(layer))->0.origin),
        now <= u64::MAX - FLICKER_GAP_MAX_MS,
    ensures
        layer_ok(*final(layer)),
        *old(layer) is None ==> *final(layer) is None,
        *old(layer) is Some ==> *final(layer) is Some && restriped(
            Layer { orientation, mode, ..(*old(layer))->0 },
            (*final(layer))->0,
            regions@,
            now,
        ),
        *old(layer) is Some ==> applied(
            (*old(layer))->0,
            (LayerCall::Rebuild { regions: regions@, orientation, mode, now }),
            (*final(layer))->0,
        ),
        *old(layer) is Some ==> (*final(layer))->0.capture_excluded == (*old(layer))->0.capture_excluded,
{
    match layer {
        Some(l) => {
            l.orientation = orientation;
            l.mode = mode;
            l.rebuild_stripes(regions, now);
        },
        None => {},
    }
}

/// Takes the overlay off screen; its lines are kept.
pub fn hide_layer(layer: &mut Option<Layer>)
    ensures
        *old(layer) is None ==> *final(layer) is None,
        *old(layer) is Some ==> *final(layer) == Some(
            Layer {
                shown: (*old(layer))->0.shown && (*old(layer))->0.hwnd == 0,
                ..(*old(layer))->0
            },
        ),
        *old(layer) is Some ==> applied((*old(layer))->0, LayerCall::Hide, (*final(layer))->0),
{
    match layer {
        Some(l) => {
            if l.hwnd != 0 {
                l.shown = false;
            }
        },
        None => {},
    }
}

/// Every line of `new` is lit and not flickering; otherwise it is the line of `old`.
pub open spec fn calmed(old: Seq<Stripe>, new: Seq<Stripe>) -> bool {
    &&& new.len() == old.len()
    &&& forall|j: int|
        0 <= j < old.len() ==> #[trigger] new[j] == (Stripe { visible: true, flickers: false, ..old[j] })
}

impl Layer {
    /// Stops all flickering: every line lit, none flickering.
    fn calm(&mut self)
        requires
            old(self).wf(),
        ensures
            final(self).wf(),
            same_settings(*old(self), *final(self)),
            final(self).rng@ == old(self).rng@,
            final(self).regions@.len() == old(self).regions@.len(),
            forall|i: int|
                0 <= i < old(self).regions@.len() ==> calmed(
                    #[trigger] old(self).regions@[i]@,
                    final(self).regions@[i]@,
                ),
            forall|i: int|
                0 <= i < old(self).regions@.len() ==> #[trigger] final(self).visible_counts@[i]
                    == old(self).regions@[i]@.len(),
    {
        let ghost olds = self.regions@;
        let n = self.regions.len();
        let mut ri: usize = 0;
        while ri < n
            invariant
                n == olds.len(),
                ri <= n,
                self.wf(),
                self.regions@.len() == n,
                same_settings(*old(self), *self),
                self.rng@ == old(self).rng@,
                forall|t: int| 0 <= t < ri ==> calmed(#[trigger] olds[t]@, self.regions@[t]@),
                forall|t: int| 0 <= t < ri ==> #[trigger] self.visible_counts@[t] == olds[t]@.len(),
                forall|t: int| ri <= t < n ==> #[trigger] self.regions@[t] == olds[t],
            decreases n - ri,
        {
            let ghost before = self.regions@;
            let m = self.regions[ri].len();
            let mut lines: Vec<Stripe> = Vec::new();
            let mut j: usize = 0;
            while j < m
                invariant
                    m == self.regions@[ri as int]@.len(),
                    ri < n,
                    n == self.regions@.len(),
                    j <= m,
                    lines@.len() == j,
                    forall|t: int|
                        0 <= t < j ==> #[trigger] lines@[t] == (Stripe {
                            visible: true,
                            flickers: false,
                            ..self.regions@[ri as int]@[t]
                        }),
                decreases m - j,
            {
                let mut st = self.regions[ri][j];
                st.flickers = false;
                st.visible = true;
                lines.push(st);
                j += 1;
            }
            proof {
                assert(self.regions@[ri as int] == olds[ri as int]);
                assert forall|j: int| 0 <= j < lines@.len() implies is_lit()(#[trigger] lines@[j]) by {}
                lemma_count_all(lines@, is_lit());
            }
            self.regions.set(ri, lines);
            self.visible_counts.set(ri, m);
            proof {
                assert forall|i: int, j: int|
                    0 <= i < self.regions@.len() && 0 <= j < self.regions@[i]@.len() implies i32::MIN
                        <= #[trigger] self.regions@[i]@[j].pos + self.regions@[i]@[j].w <= i32::MAX by {
                    if i == ri {
                        let o = olds[i]@[j];
                    } else {
                        assert(self.regions@[i] == before[i]);
                    }
                }
                assert forall|i: int| 0 <= i < self.regions@.len() implies (#[trigger] self.regions@[i])@.len()
                    <= MAX_LINES by {
                    if i != ri {
                        assert(self.regions@[i] == before[i]);
                    }
                }
                assert forall|t: int| 0 <= t < ri + 1 implies calmed(#[trigger] olds[t]@, self.regions@[t]@) by {
                    if t < ri {
                        assert(self.regions@[t] == before[t]);
                    }
                }
            }
            ri += 1;
        }
    }
}

/// The overlay `a` with flicker switched to `on` at `now` is `b`: nothing
/// changes when it already is; switching on chooses the flickering lines of
/// every region anew (see `repicked`, `picked_exactly`); switching off lights
/// every line and stops all flickering (see `calmed`). The other settings stay.
pub open spec fn flicker_set(a: Layer, b: Layer, on: bool, now: u64) -> bool {
    &&& a.flicker_on == on ==> b == a
    &&& a.flicker_on != on ==> {
        &&& same_settings(Layer { flicker_on: on, ..a }, b)
        &&& b.regions@.len() == a.regions@.len()
        &&& forall|i: int|
            0 <= i < a.regions@.len() ==> #[trigger] b.visible_counts@[i] == a.regions@[i]@.len()
        &&& on ==> forall|i: int|
            0 <= i < a.regions@.len() ==> repicked(#[trigger] a.regions@[i]@, b.regions@[i]@, now)
        &&& on ==> forall|i: int|
            0 <= i < a.regions@.len() ==> picked_exactly(
                #[trigger] a.regions@[i]@,
                b.regions@[i]@,
                now,
                chain_before(views(a.regions@), i, a.rng@),
            )
        &&& on ==> b.rng@ == pick_chain(views(a.regions@), a.rng@)
        &&& !on ==> b.rng@ == a.rng@
        &&& !on ==> forall|i: int|
            0 <= i < a.regions@.len() ==> calmed(#[trigger] a.regions@[i]@, b.regions@[i]@)
    }
}

/// Turns flicker on (choosing the flickering lines at `now`) or off (every line
/// lit again); nothing changes when the setting is already `on`.
pub fn set_flicker(layer: &mut Option<Layer>, on: bool, now: u64)
    requires
        layer_ok(*old(layer)),
        now <= u64::MAX - FLICKER_GAP_MAX_MS,
    ensures
        layer_ok(*final(layer)),
        *old(layer) is None ==> *final(layer) is None,
        *old(layer) is Some ==> *final(layer) is Some && flicker_set(
            (*old(layer))->0,
            (*final(layer))->0,
            on,
            now,
        ),
        *old(layer) is Some ==> sum_lens((*final(layer))->0.regions@) == sum_lens((*old(layer))->0.regions@),
        *old(layer) is Some ==> (*final(layer))->0.capture_excluded == (*old(layer))->0.capture_excluded,
        *old(layer) is Some ==> applied((*old(layer))->0, (LayerCall::SetFlicker { on, now }), (*final(layer))->0),
{
    match layer {
        Some(l) => {
            if l.flicker_on == on {
                return;
            }
            l.flicker_on = on;
            let ghost start = l.regions@;
            if on {
                l.pick_flicker_lines(now);
                proof {
                    assert forall|i: int| 0 <= i < start.len() implies (#[trigger] start[i])@.len()
                        == l.regions@[i]@.len() by {
                        assert(repicked(start[i]@, l.regions@[i]@, now));
                    }
                    lemma_same_sizes_same_total(start, l.regions@);
                }
            } else {
                let ghost before = l.regions@;
                l.calm();
                proof {
                    assert forall|i: int, j: int|
                        0 <= i < l.regions@.len() && 0 <= j < l.regions@[i]@.len() implies (
                        #[trigger] l.regions@[i]@[j]).visible by {
                        assert(calmed(before[i]@, l.regions@[i]@));
                    }
                    assert forall|i: int| 0 <= i < start.len() implies (#[trigger] start[i])@.len()
                        == l.regions@[i]@.len() by {
                        assert(calmed(start[i]@, l.regions@[i]@));
                    }
                    lemma_same_sizes_same_total(start, l.regions@);
                }
            }
        },
        None => {},
    }
}

/// Whether flicker is on (false without an overlay).
pub fn flicker_on(layer: &Option<Layer>) -> (b: bool)
    ensures
        b == (layer is Some && layer->0.flicker_on),
{
    match layer {
        Some(l) => l.flicker_on,
        None => false,
    }
}

/// Window handle of the overlay (0 without one).
pub fn hwnd(layer: &Option<Layer>) -> (h: isize)
    ensures
        h == if layer is Some {
            layer->0.hwnd
        } else {
            0
        },
{
    match layer {
        Some(l) => l.hwnd,
        None => 0,
    }
}

/// Whether the overlay is kept out of screen captures (false without one).
pub fn capture_excluded(layer: &Option<Layer>) -> (b: bool)
    ensures
        b == (layer is Some && layer->0.capture_excluded),
{
    match layer {
        Some(l) => l.capture_excluded,
        None => false,
    }
}

/// Whether switching capture exclusion to `on` needs the window system: there
/// is an overlay window and its setting differs.
pub fn capture_change_needed(layer: &Option<Layer>, on: bool) -> (b: bool)
    ensures
        b == (layer is Some && layer->0.hwnd != 0 && layer->0.capture_excluded != on),
{
    match layer {
        Some(l) => l.hwnd != 0 && l.capture_excluded != on,
        None => false,
    }
}

/// Records the outcome of switching capture exclusion to `on`: the setting
/// changes only when the change was needed and the window system took it (`ok`).
pub fn set_capture_excluded(layer: &mut Option<Layer>, on: bool, ok: bool)
    ensures
        *old(layer) is None ==> *final(layer) is None,
        *old(layer) is Some ==> *final(layer) == Some(
            Layer {
                capture_excluded: if (*old(layer))->0.hwnd != 0 && (*old(layer))->0.capture_excluded
                    != on && ok {
                    on
                } else {
                    (*old(layer))->0.capture_excluded
                },
                ..(*old(layer))->0
            },
        ),
        *old(layer) is Some ==> applied((*old(layer))->0, (LayerCall::SetCapture { on, ok }), (*final(layer))->0),
{
    match layer {
        Some(l) => {
            if l.hwnd == 0 || l.capture_excluded == on {
                return;
            }
            if ok {
                l.capture_excluded = on;
            }
        },
        None => {},
    }
}

/// The sum of the lit counts.
pub open spec fn sum_counts(s: Seq<usize>) -> int
    decreases s.len(),
{
    if s.len() == 0 {
        0
    } else {
        sum_counts(s.drop_last()) + s.last()
    }
}

/// The number of lines of all regions.
pub open spec fn sum_lens(v: Seq<Vec<Stripe>>) -> int
    decreases v.len(),
{
    if v.len() == 0 {
        0
    } else {
        sum_lens(v.drop_last()) + v.last()@.len()
    }
}

/// How many regions have lines.
pub open spec fn nonempty_regions(v: Seq<Vec<Stripe>>) -> int
    decreases v.len(),
{
    if v.len() == 0 {
        0
    } else {
        nonempty_regions(v.drop_last()) + if v.last()@.len() > 0 {
            1int
        } else {
            0int
        }
    }
}

/// In a consistent overlay every region that has lines shows at least one of
/// them: a region never goes completely empty.
pub proof fn lemma_region_never_dark(l: Layer, i: int)
    requires
        l.wf(),
        0 <= i < l.regions@.len(),
        l.regions@[i]@.len() > 0,
    ensures
        exists|j: int| 0 <= j < l.regions@[i]@.len() && (#[trigger] l.regions@[i]@[j]).visible,
{
    let lines = l.regions@[i]@;
    assert(l.visible_counts@[i] >= 1);
    lemma_count_all(lines, is_lit());
    if forall|j: int| 0 <= j < lines.len() ==> !(#[trigger] lines[j]).visible {
        assert(forall|j: int| 0 <= j < lines.len() ==> !is_lit()(#[trigger] lines[j]));
        assert(count_by(lines, is_lit()) == 0);
        assert(false);
    }
}

/// Lines that do not flicker stay lit through a flicker tick: when every such
/// line of `old` is lit, every such line of `new` is lit too.
pub proof fn lemma_steady_lines_stay_lit(old: Seq<Stripe>, new: Seq<Stripe>, now: u64)
    requires
        ticked(old, new, now),
        forall|j: int| 0 <= j < old.len() && !(#[trigger] old[j]).flickers ==> old[j].visible,
    ensures
        forall|j: int| 0 <= j < new.len() && !(#[trigger] new[j]).flickers ==> new[j].visible,
{
    assert forall|j: int| 0 <= j < new.len() && !(#[trigger] new[j]).flickers implies new[j].visible by {
        assert(tick_line(old[j], new[j], now));
    }
}

/// Regions of the same sizes hold the same number of lines in all.
pub proof fn lemma_same_sizes_same_total(a: Seq<Vec<Stripe>>, b: Seq<Vec<Stripe>>)
    requires
        a.len() == b.len(),
        forall|i: int| 0 <= i < a.len() ==> (#[trigger] a[i])@.len() == b[i]@.len(),
    ensures
        sum_lens(a) == sum_lens(b),
    decreases a.len(),
{
    if a.len() > 0 {
        assert forall|i: int| 0 <= i < a.drop_last().len() implies (#[trigger] a.drop_last()[i])@.len()
            == b.drop_last()[i]@.len() by {
            assert(a.drop_last()[i] == a[i] && b.drop_last()[i] == b[i]);
        }
        lemma_same_sizes_same_total(a.drop_last(), b.drop_last());
    }
}

/// In a consistent overlay the lit lines are at most all lines, and at least one
/// per region that has lines: no region ever goes dark as a whole.
pub proof fn lemma_lit_bounds(regions: Seq<Vec<Stripe>>, counts: Seq<usize>)
    requires
        lines_ok(regions, counts),
    ensures
        nonempty_regions(regions) <= sum_counts(counts) <= sum_lens(regions),
    decreases regions.len(),
{
    if regions.len() > 0 {
        let r = regions.drop_last();
        let c = counts.drop_last();
        assert(lines_ok(r, c)) by {
            assert forall|i: int| 0 <= i < r.len() implies #[trigger] c[i] == count_by(r[i]@, is_lit()) by {
                assert(counts[i] == count_by(regions[i]@, is_lit()));
            }
            assert forall|i: int| 0 <= i < r.len() && r[i]@.len() > 0 implies #[trigger] c[i] >= 1 by {
                assert(counts[i] >= 1 || regions[i]@.len() == 0);
            }
            assert forall|i: int| 0 <= i < r.len() implies (#[trigger] r[i])@.len() <= MAX_LINES by {
                assert(regions[i]@.len() <= MAX_LINES);
            }
            assert forall|i: int, j: int|
                0 <= i < r.len() && 0 <= j < r[i]@.len() implies i32::MIN <= #[trigger] r[i]@[j].pos
                    + r[i]@[j].w <= i32::MAX by {
                assert(regions[i]@[j] == r[i]@[j]);
            }
        }
        lemma_lit_bounds(r, c);
        let last = regions.len() - 1;
        assert(counts[last] == count_by(regions[last]@, is_lit()));
        lemma_count_bound(regions[last]@, is_lit());
        assert(regions[last]@.len() > 0 ==> counts[last] >= 1);
    }
}

/// How many lines are lit now, over all regions (0 without an overlay).
pub fn visible_line_count(layer: &Option<Layer>) -> (n: usize)
    requires
        layer is Some ==> sum_counts(layer->0.visible_counts@) <= usize::MAX,
    ensures
        n == if layer is Some {
            sum_counts(layer->0.visible_counts@)
        } else {
            0
        },
{
    match layer {
        Some(l) => {
            let mut total: usize = 0;
            let mut i: usize = 0;
            while i < l.visible_counts.len()
                invariant
                    i <= l.visible_counts@.len(),
                    total == sum_counts(l.visible_counts@.take(i as int)),
                    sum_counts(l.visible_counts@) <= usize::MAX,
                decreases l.visible_counts@.len() - i,
            {
                proof {
                    assert(l.visible_counts@.take(i + 1).drop_last() =~= l.visible_counts@.take(i as int));
                    lemma_sum_counts_prefix(l.visible_counts@, i + 1);
                }
                total = total + l.visible_counts[i];
                i += 1;
            }
            proof {
                assert(l.visible_counts@.take(i as int) =~= l.visible_counts@);
            }
            total
        },
        None => 0,
    }
}

/// A prefix sums to at most the whole.
proof fn lemma_sum_counts_prefix(s: Seq<usize>, k: int)
    requires
        0 <= k <= s.len(),
    ensures
        sum_counts(s.take(k)) <= sum_counts(s),
    decreases s.len(),
{
    if k < s.len() {
        assert(s.drop_last().take(k) =~= s.take(k));
        lemma_sum_counts_prefix(s.drop_last(), k);
    } else {
        assert(s.take(k) =~= s);
    }
}

/// A prefix has at most as many lines as the whole.
proof fn lemma_sum_lens_prefix(s: Seq<Vec<Stripe>>, k: int)
    requires
        0 <= k <= s.len(),
    ensures
        sum_lens(s.take(k)) <= sum_lens(s),
    decreases s.len(),
{
    if k < s.len() {
        assert(s.drop_last().take(k) =~= s.take(k));
        lemma_sum_lens_prefix(s.drop_last(), k);
    } else {
        assert(s.take(k) =~= s);
    }
}

/// How many lines there are, over all regions (0 without an overlay).
pub fn total_line_count(layer: &Option<Layer>) -> (n: usize)
    requires
        layer is Some ==> sum_lens(layer->0.regions@) <= usize::MAX,
    ensures
        n == if layer is Some {
            sum_lens(layer->0.regions@)
        } else {
            0
        },
{
    match layer {
        Some(l) => {
            let mut total: usize = 0;
            let mut i: usize = 0;
            while i < l.regions.len()
                invariant
                    i <= l.regions@.len(),
                    total == sum_lens(l.regions@.take(i as int)),
                    sum_lens(l.regions@) <= usize::MAX,
                decreases l.regions@.len() - i,
            {
                proof {
                    assert(l.regions@.take(i + 1).drop_last() =~= l.regions@.take(i as int));
                    lemma_sum_lens_prefix(l.regions@, i + 1);
                }
                total = total + l.regions[i].len();
                i += 1;
            }
            proof {
                assert(l.regions@.take(i as int) =~= l.regions@);
            }
            total
        },
        None => 0,
    }
}

/// `s` without repeats, first occurrences kept in order.
pub open spec fn dedup(s: Seq<u32>) -> Seq<u32>
    decreases s.len(),
{
    if s.len() == 0 {
        seq![]
    } else if dedup(s.drop_last()).contains(s.last()) {
        dedup(s.drop_last())
    } else {
        dedup(s.drop_last()).push(s.last())
    }
}

/// Whether `v` holds the colour `c`.
fn holds_color(v: &Vec<u32>, c: u32) -> (b: bool)
    ensures
        b == v@.contains(c),
{
    let mut i: usize = 0;
    while i < v.len()
        invariant
            i <= v@.len(),
            forall|t: int| 0 <= t < i ==> v@[t] != c,
        decreases v@.len() - i,
    {
        if v[i] == c {
            return true;
        }
        i += 1;
    }
    false
}

/// The colours that need a brush in `mode`: its pool and the colour key, each once.
pub fn brush_colors(mode: ColorMode) -> (colors: Vec<u32>)
    ensures
        colors@ == dedup(pool_of(mode).push(KEY_COLOR)),
{
    let pool = mode.pool();
    let mut all: Vec<u32> = Vec::new();
    let mut i: usize = 0;
    while i < pool.len()
        invariant
            i <= pool@.len(),
            all@ == pool@.take(i as int),
        decreases pool@.len() - i,
    {
        all.push(pool[i]);
        proof {
            assert(pool@.take(i + 1) =~= pool@.take(i as int).push(pool@[i as int]));
        }
        i += 1;
    }
    proof {
        assert(pool@.take(i as int) =~= pool@);
    }
    all.push(KEY_COLOR);
    let mut out: Vec<u32> = Vec::new();
    let mut j: usize = 0;
    proof {
        assert(all@.take(0) =~= Seq::<u32>::empty());
    }
    while j < all.len()
        invariant
            j <= all@.len(),
            out@ == dedup(all@.take(j as int)),
        decreases all@.len() - j,
    {
        let c = all[j];
        proof {
            assert(all@.take(j + 1).drop_last() =~= all@.take(j as int));
        }
        if !holds_color(&out, c) {
            out.push(c);
        }
        j += 1;
    }
    proof {
        assert(all@.take(j as int) =~= all@);
    }
    out
}

/// Installs the brushes made for the colours in use; the colour-key brush is
/// looked up among them.
pub fn set_brushes(layer: &mut Option<Layer>, brushes: Vec<(u32, isize)>)
    ensures
        *old(layer) is None ==> *final(layer) is None,
        *old(layer) is Some ==> *final(layer) == Some(
            Layer {
                brushes: brushes,
                key_brush: spec_brush_of(brushes@, KEY_COLOR),
                ..(*old(layer))->0
            },
        ),
{
    match layer {
        Some(l) => {
            l.brushes = brushes;
            l.key_brush = l.brush_of(KEY_COLOR);
        },
        None => {},
    }
}

/// The fills that paint the lines of `lines` inside `rc`: each lit line whose
/// rectangle meets `rc` and whose colour has a brush, in order.
pub open spec fn plan_lines(
    lines: Seq<Stripe>,
    o: Orientation,
    vw: i32,
    vh: i32,
    brushes: Seq<(u32, isize)>,
    rc: RECT,
) -> Seq<(RECT, isize)>
    decreases lines.len(),
{
    if lines.len() == 0 {
        seq![]
    } else {
        let s = lines.last();
        let r = spec_stripe_rect(o, vw, vh, s);
        let b = spec_brush_of(brushes, s.color);
        plan_lines(lines.drop_last(), o, vw, vh, brushes, rc) + if s.visible && rects_intersect(r, rc)
            && b != 0 {
            seq![(r, b)]
        } else {
            seq![]
        }
    }
}

/// The fills of all regions, region by region.
pub open spec fn plan_all(
    regions: Seq<Vec<Stripe>>,
    o: Orientation,
    vw: i32,
    vh: i32,
    brushes: Seq<(u32, isize)>,
    rc: RECT,
) -> Seq<(RECT, isize)>
    decreases regions.len(),
{
    if regions.len() == 0 {
        seq![]
    } else {
        plan_all(regions.drop_last(), o, vw, vh, brushes, rc) + plan_lines(
            regions.last()@,
            o,
            vw,
            vh,
            brushes,
            rc,
        )
    }
}

/// `(r, b)` fills the line `s`: its rectangle and the brush of its colour.
pub open spec fn fills(f: (RECT, isize), s: Stripe, o: Orientation, vw: i32, vh: i32, brushes: Seq<(u32, isize)>) -> bool {
    f.0 == spec_stripe_rect(o, vw, vh, s) && f.1 == spec_brush_of(brushes, s.color)
}

/// Every fill of `plan` is that of a lit line of `lines` whose rectangle meets
/// `rc` and whose colour has a brush.
pub open spec fn fills_only_lit(
    plan: Seq<(RECT, isize)>,
    lines: Seq<Stripe>,
    o: Orientation,
    vw: i32,
    vh: i32,
    brushes: Seq<(u32, isize)>,
    rc: RECT,
) -> bool {
    forall|k: int|
        0 <= k < plan.len() ==> exists|j: int|
            0 <= j < lines.len() && (#[trigger] lines[j]).visible && fills(#[trigger] plan[k], lines[j], o, vw, vh, brushes)
                && rects_intersect(plan[k].0, rc) && plan[k].1 != 0
}

/// Every lit line of `lines` whose rectangle meets `rc` and whose colour has a
/// brush is filled by `plan`.
pub open spec fn fills_every_lit(
    plan: Seq<(RECT, isize)>,
    lines: Seq<Stripe>,
    o: Orientation,
    vw: i32,
    vh: i32,
    brushes: Seq<(u32, isize)>,
    rc: RECT,
) -> bool {
    forall|j: int|
        0 <= j < lines.len() && (#[trigger] lines[j]).visible && rects_intersect(
            spec_stripe_rect(o, vw, vh, lines[j]),
            rc,
        ) && spec_brush_of(brushes, lines[j].color) != 0 ==> plan.contains(
            (spec_stripe_rect(o, vw, vh, lines[j]), spec_brush_of(brushes, lines[j].color)),
        )
}

/// What is painted of one region inside `rc`: every fill is that of a lit line
/// meeting `rc` with a brush, and every lit line meeting `rc` with a brush
/// gets its fill; dark lines are never painted.
#[verifier::spinoff_prover]
pub proof fn lemma_plan_lines(
    lines: Seq<Stripe>,
    o: Orientation,
    vw: i32,
    vh: i32,
    brushes: Seq<(u32, isize)>,
    rc: RECT,
)
    ensures
        fills_only_lit(plan_lines(lines, o, vw, vh, brushes, rc), lines, o, vw, vh, brushes, rc),
        fills_every_lit(plan_lines(lines, o, vw, vh, brushes, rc), lines, o, vw, vh, brushes, rc),
    decreases lines.len(),
{
    let p = plan_lines(lines, o, vw, vh, brushes, rc);
    if lines.len() > 0 {
        let d = lines.drop_last();
        let q = plan_lines(d, o, vw, vh, brushes, rc);
        lemma_plan_lines(d, o, vw, vh, brushes, rc);
        let s = lines.last();
        let r = spec_stripe_rect(o, vw, vh, s);
        let b = spec_brush_of(brushes, s.color);
        let tail: Seq<(RECT, isize)> = if s.visible && rects_intersect(r, rc) && b != 0 {
            seq![(r, b)]
        } else {
            seq![]
        };
        assert(p == q + tail);
        assert forall|k: int| 0 <= k < p.len() implies exists|j: int|
            0 <= j < lines.len() && (#[trigger] lines[j]).visible && fills(#[trigger] p[k], lines[j], o, vw, vh, brushes)
                && rects_intersect(p[k].0, rc) && p[k].1 != 0 by {
            if k < q.len() {
                assert(p[k] == q[k]);
                let j = choose|j: int|
                    0 <= j < d.len() && (#[trigger] d[j]).visible && fills(q[k], d[j], o, vw, vh, brushes)
                        && rects_intersect(q[k].0, rc) && q[k].1 != 0;
                assert(lines[j] == d[j]);
            } else {
                assert(p[k] == (r, b));
                assert(lines[lines.len() - 1] == s);
            }
        }
        assert forall|j: int|
            0 <= j < lines.len() && (#[trigger] lines[j]).visible && rects_intersect(
                spec_stripe_rect(o, vw, vh, lines[j]),
                rc,
            ) && spec_brush_of(brushes, lines[j].color) != 0 implies p.contains(
            (spec_stripe_rect(o, vw, vh, lines[j]), spec_brush_of(brushes, lines[j].color)),
        ) by {
            let f = (spec_stripe_rect(o, vw, vh, lines[j]), spec_brush_of(brushes, lines[j].color));
            if j < d.len() {
                assert(d[j] == lines[j]);
                assert(q.contains(f));
                let k = choose|k: int| 0 <= k < q.len() && q[k] == f;
                assert(p[k] == f);
            } else {
                assert(p[q.len() as int] == f);
            }
        }
    }
}

/// Every fill of `plan` is that of a lit line of some region of `regions`
/// whose rectangle meets `rc` and whose colour has a brush: dark lines are
/// never painted.
pub open spec fn paints_only_lit(
    plan: Seq<(RECT, isize)>,
    regions: Seq<Vec<Stripe>>,
    o: Orientation,
    vw: i32,
    vh: i32,
    brushes: Seq<(u32, isize)>,
    rc: RECT,
) -> bool {
    forall|k: int|
        0 <= k < plan.len() ==> exists|i: int, j: int|
            0 <= i < regions.len() && 0 <= j < regions[i]@.len() && (#[trigger] regions[i]@[j]).visible
                && fills(#[trigger] plan[k], regions[i]@[j], o, vw, vh, brushes) && rects_intersect(plan[k].0, rc)
                && plan[k].1 != 0
}

/// Every lit line of `regions` whose rectangle meets `rc` and whose colour has
/// a brush is filled by `plan`.
pub open spec fn paints_every_lit(
    plan: Seq<(RECT, isize)>,
    regions: Seq<Vec<Stripe>>,
    o: Orientation,
    vw: i32,
    vh: i32,
    brushes: Seq<(u32, isize)>,
    rc: RECT,
) -> bool {
    forall|i: int, j: int|
        0 <= i < regions.len() && 0 <= j < regions[i]@.len() && (#[trigger] regions[i]@[j]).visible
            && rects_intersect(spec_stripe_rect(o, vw, vh, regions[i]@[j]), rc) && spec_brush_of(
            brushes,
            regions[i]@[j].color,
        ) != 0 ==> plan.contains(
            (spec_stripe_rect(o, vw, vh, regions[i]@[j]), spec_brush_of(brushes, regions[i]@[j].color)),
        )
}

/// What is painted inside `rc`: every fill is that of a lit line of some region
/// meeting `rc` with a brush, and every such lit line gets its fill; lines that
/// are dark (flickered off) are never painted.
#[verifier::spinoff_prover]
pub proof fn lemma_plan_all(
    regions: Seq<Vec<Stripe>>,
    o: Orientation,
    vw: i32,
    vh: i32,
    brushes: Seq<(u32, isize)>,
    rc: RECT,
)
    ensures
        paints_only_lit(plan_all(regions, o, vw, vh, brushes, rc), regions, o, vw, vh, brushes, rc),
        paints_every_lit(plan_all(regions, o, vw, vh, brushes, rc), regions, o, vw, vh, brushes, rc),
    decreases regions.len(),
{
    let p = plan_all(regions, o, vw, vh, brushes, rc);
    if regions.len() > 0 {
        let d = regions.drop_last();
        let last = regions.last()@;
        let q = plan_all(d, o, vw, vh, brushes, rc);
        let t = plan_lines(last, o, vw, vh, brushes, rc);
        lemma_plan_all(d, o, vw, vh, brushes, rc);
        lemma_plan_lines(last, o, vw, vh, brushes, rc);
        assert(p == q + t);
        let n = regions.len() - 1;
        assert forall|k: int| 0 <= k < p.len() implies exists|i: int, j: int|
            0 <= i < regions.len() && 0 <= j < regions[i]@.len() && (#[trigger] regions[i]@[j]).visible
                && fills(#[trigger] p[k], regions[i]@[j], o, vw, vh, brushes) && rects_intersect(p[k].0, rc) && p[k].1
                != 0 by {
            if k < q.len() {
                assert(p[k] == q[k]);
                let (i, j) = choose|i: int, j: int|
                    0 <= i < d.len() && 0 <= j < d[i]@.len() && (#[trigger] d[i]@[j]).visible && fills(
                        q[k],
                        d[i]@[j],
                        o,
                        vw,
                        vh,
                        brushes,
                    ) && rects_intersect(q[k].0, rc) && q[k].1 != 0;
                assert(regions[i] == d[i]);
                assert(regions[i]@[j] == d[i]@[j]);
            } else {
                let kk = k - q.len();
                assert(p[k] == t[kk]);
                let j = choose|j: int|
                    0 <= j < last.len() && (#[trigger] last[j]).visible && fills(t[kk], last[j], o, vw, vh, brushes)
                        && rects_intersect(t[kk].0, rc) && t[kk].1 != 0;
                assert(regions[n]@[j] == last[j]);
            }
        }
        assert forall|i: int, j: int|
            0 <= i < regions.len() && 0 <= j < regions[i]@.len() && (#[trigger] regions[i]@[j]).visible
                && rects_intersect(spec_stripe_rect(o, vw, vh, regions[i]@[j]), rc) && spec_brush_of(
                brushes,
                regions[i]@[j].color,
            ) != 0 implies p.contains(
            (spec_stripe_rect(o, vw, vh, regions[i]@[j]), spec_brush_of(brushes, regions[i]@[j].color)),
        ) by {
            let f = (spec_stripe_rect(o, vw, vh, regions[i]@[j]), spec_brush_of(brushes, regions[i]@[j].color));
            if i < d.len() {
                assert(d[i] == regions[i]);
                assert(d[i]@[j] == regions[i]@[j]);
                assert(q.contains(f));
                let k = choose|k: int| 0 <= k < q.len() && q[k] == f;
                assert(p[k] == f);
            } else {
                assert(last[j] == regions[i]@[j]);
                assert(t.contains(f));
                let k = choose|k: int| 0 <= k < t.len() && t[k] == f;
                assert(p[q.len() + k] == f);
            }
        }
    }
}

impl Layer {
    /// What to paint over the colour key inside `rc`: the rectangle and brush of
    /// every lit line that meets `rc`.
    pub fn paint_plan(&self, rc: &RECT) -> (plan: Vec<(RECT, isize)>)
        requires
            self.wf(),
        ensures
            plan@ == plan_all(self.regions@, self.orientation, self.vw, self.vh, self.brushes@, *rc),
            paints_only_lit(plan@, self.regions@, self.orientation, self.vw, self.vh, self.brushes@, *rc),
            paints_every_lit(plan@, self.regions@, self.orientation, self.vw, self.vh, self.brushes@, *rc),
    {
        proof {
            lemma_plan_all(self.regions@, self.orientation, self.vw, self.vh, self.brushes@, *rc);
        }
        let mut plan: Vec<(RECT, isize)> = Vec::new();
        let n = self.regions.len();
        let mut i: usize = 0;
        proof {
            assert(self.regions@.take(0) =~= Seq::<Vec<Stripe>>::empty());
        }
        while i < n
            invariant
                n == self.regions@.len(),
                i <= n,
                self.wf(),
                plan@ == plan_all(
                    self.regions@.take(i as int),
                    self.orientation,
                    self.vw,
                    self.vh,
                    self.brushes@,
                    *rc,
                ),
            decreases n - i,
        {
            let m = self.regions[i].len();
            let ghost lines = self.regions@[i as int]@;
            let ghost base = plan@;
            let mut j: usize = 0;
            proof {
                assert(lines.take(0) =~= Seq::<Stripe>::empty());
                assert(base + seq![] =~= base);
            }
            while j < m
                invariant
                    n == self.regions@.len(),
                    i < n,
                    lines == self.regions@[i as int]@,
                    m == lines.len(),
                    j <= m,
                    self.wf(),
                    plan@ == base + plan_lines(
                        lines.take(j as int),
                        self.orientation,
                        self.vw,
                        self.vh,
                        self.brushes@,
                        *rc,
                    ),
                decreases m - j,
            {
                let s = self.regions[i][j];
                proof {
                    assert(lines.take(j + 1).drop_last() =~= lines.take(j as int));
                    assert(lines.take(j + 1).last() == s);
                }
                if s.visible {
                    let r = stripe_rect(self.orientation, self.vw, self.vh, &s);
                    if r.intersects(rc) {
                        let b = self.brush_of(s.color);
                        if b != 0 {
                            plan.push((r, b));
                        }
                    }
                }
                proof {
                    let step = plan_lines(
                        lines.take(j + 1),
                        self.orientation,
                        self.vw,
                        self.vh,
                        self.brushes@,
                        *rc,
                    );
                    let prev = plan_lines(
                        lines.take(j as int),
                        self.orientation,
                        self.vw,
                        self.vh,
                        self.brushes@,
                        *rc,
                    );
                    assert(base + step =~= base + prev + (step.subrange(prev.len() as int, step.len() as int)));
                }
                j += 1;
            }
            proof {
                assert(lines.take(m as int) =~= lines);
                assert(self.regions@.take(i + 1).drop_last() =~= self.regions@.take(i as int));
            }
            i += 1;
        }
        proof {
            assert(self.regions@.take(n as int) =~= self.regions@);
        }
        plan
    }
}

/// One flicker tick of the whole overlay `a` at `now` giving `b` (see `Layer::tick`):
/// nothing changes without flicker or window; otherwise each region ticks by
/// `ticked`, the due lines draw in order from the random source, and the
/// settings stay.
pub open spec fn tick_step(a: Layer, b: Layer, now: u64) -> bool {
    &&& same_settings(a, b)
    &&& !a.flicker_on || a.hwnd == 0 ==> b == a
    &&& a.flicker_on && a.hwnd != 0 ==> {
        &&& b.regions@.len() == a.regions@.len()
        &&& forall|i: int|
            0 <= i < a.regions@.len() ==> ticked(#[trigger] a.regions@[i]@, b.regions@[i]@, now)
        &&& forall|i: int|
            0 <= i < a.regions@.len() ==> drawn(
                #[trigger] a.regions@[i]@,
                b.regions@[i]@,
                now,
                xorshift_n(a.rng@, due_total(a.regions@.take(i), now)),
            )
        &&& b.rng@ == xorshift_n(a.rng@, due_total(a.regions@, now))
    }
}

/// An operation on the overlay, with its arguments.
pub enum LayerCall {
    /// `show`: lay out `regions` anew with these settings and go on screen.
    Show { regions: Seq<Region>, orientation: Orientation, mode: ColorMode, flicker: bool, now: u64 },
    /// `rebuild`: lay out `regions` anew, keeping the flicker setting.
    Rebuild { regions: Seq<Region>, orientation: Orientation, mode: ColorMode, now: u64 },
    /// `hide_layer`.
    Hide,
    /// `set_flicker`.
    SetFlicker { on: bool, now: u64 },
    /// `set_capture_excluded`, with whether the window system took the change.
    SetCapture { on: bool, ok: bool },
    /// `Layer::tick`.
    Tick { now: u64 },
}

/// The overlay `a` after the operation `c` is `b`, as each operation states it;
/// the overlay invariant carries over.
pub open spec fn applied(a: Layer, c: LayerCall, b: Layer) -> bool {
    match c {
        LayerCall::Show { regions, orientation, mode, flicker, now } => restriped(
            with_settings(a, orientation, mode, flicker),
            b,
            regions,
            now,
        ),
        LayerCall::Rebuild { regions, orientation, mode, now } => restriped(
            Layer { orientation, mode, ..a },
            b,
            regions,
            now,
        ),
        LayerCall::Hide => b == (Layer { shown: a.shown && a.hwnd == 0, ..a }),
        LayerCall::SetFlicker { on, now } => flicker_set(a, b, on, now) && (layer_ok(Some(a))
            ==> layer_ok(Some(b))),
        LayerCall::SetCapture { on, ok } => b == (Layer {
            capture_excluded: if a.hwnd != 0 && a.capture_excluded != on && ok {
                on
            } else {
                a.capture_excluded
            },
            ..a
        }),
        LayerCall::Tick { now } => tick_step(a, b, now) && (a.wf() ==> b.wf()) && (quiet(a) ==> quiet(b)),
    }
}

/// A run of overlay operations: `states[i + 1]` is `states[i]` after `calls[i]`.
pub open spec fn session(states: Seq<Layer>, calls: Seq<LayerCall>) -> bool {
    &&& states.len() == calls.len() + 1
    &&& forall|i: int| 0 <= i < calls.len() ==> applied(states[i], #[trigger] calls[i], states[i + 1])
}

/// How many lines of all regions are lit.
pub open spec fn lit_lines(v: Seq<Vec<Stripe>>) -> int
    decreases v.len(),
{
    if v.len() == 0 {
        0
    } else {
        lit_lines(v.drop_last()) + count_by(v.last()@, is_lit())
    }
}

/// A shorter run of a session is a session.
proof fn lemma_session_prefix(states: Seq<Layer>, calls: Seq<LayerCall>)
    requires
        session(states, calls),
        calls.len() > 0,
    ensures
        session(states.drop_last(), calls.drop_last()),
{
    assert forall|i: int| 0 <= i < calls.drop_last().len() implies applied(
        states.drop_last()[i],
        #[trigger] calls.drop_last()[i],
        states.drop_last()[i + 1],
    ) by {
        assert(calls.drop_last()[i] == calls[i]);
        assert(applied(states[i], calls[i], states[i + 1]));
    }
}

/// Every overlay operation keeps the overlay invariant: from a consistent
/// overlay (such as `Layer::new`), every state of a session is consistent.
pub proof fn lemma_session_consistent(states: Seq<Layer>, calls: Seq<LayerCall>)
    requires
        session(states, calls),
        states[0].wf(),
        quiet(states[0]),
    ensures
        forall|i: int| 0 <= i < states.len() ==> (#[trigger] states[i]).wf() && quiet(states[i]),
    decreases calls.len(),
{
    if calls.len() > 0 {
        lemma_session_prefix(states, calls);
        lemma_session_consistent(states.drop_last(), calls.drop_last());
        let k = calls.len() - 1;
        assert(states.drop_last()[k] == states[k]);
        assert(states[k].wf() && quiet(states[k]));
        assert(applied(states[k], calls[k], states[k + 1]));
        assert forall|i: int| 0 <= i < states.len() implies (#[trigger] states[i]).wf() && quiet(states[i]) by {
            if i < states.len() - 1 {
                assert(states.drop_last()[i] == states[i]);
            }
        }
    }
}

/// In a consistent overlay the lit counts add up to the lit lines.
proof fn lemma_counts_are_lit_lines(regions: Seq<Vec<Stripe>>, counts: Seq<usize>)
    requires
        lines_ok(regions, counts),
    ensures
        sum_counts(counts) == lit_lines(regions),
    decreases regions.len(),
{
    if regions.len() > 0 {
        let r = regions.drop_last();
        let c = counts.drop_last();
        assert(lines_ok(r, c)) by {
            assert forall|i: int| 0 <= i < r.len() implies #[trigger] c[i] == count_by(r[i]@, is_lit()) by {
                assert(counts[i] == count_by(regions[i]@, is_lit()));
            }
            assert forall|i: int| 0 <= i < r.len() && r[i]@.len() > 0 implies #[trigger] c[i] >= 1 by {
                assert(counts[i] >= 1 || regions[i]@.len() == 0);
            }
            assert forall|i: int| 0 <= i < r.len() implies (#[trigger] r[i])@.len() <= MAX_LINES by {
                assert(regions[i]@.len() <= MAX_LINES);
            }
            assert forall|i: int, j: int|
                0 <= i < r.len() && 0 <= j < r[i]@.len() implies i32::MIN <= #[trigger] r[i]@[j].pos
                    + r[i]@[j].w <= i32::MAX by {
                assert(r[i] == regions[i]);
            }
        }
        lemma_counts_are_lit_lines(r, c);
        assert(counts[regions.len() - 1] == count_by(regions.last()@, is_lit()));
    }
}

/// Visible and total lines over any session from a consistent overlay (such as
/// `Layer::new`): in every state the visible count (`visible_line_count`) is
/// the number of lit lines and at most the total (`total_line_count`); they are
/// equal whenever flicker is off and right after `show` or `rebuild`.
pub proof fn lemma_session_visible_lines(states: Seq<Layer>, calls: Seq<LayerCall>)
    requires
        session(states, calls),
        states[0].wf(),
        quiet(states[0]),
    ensures
        forall|i: int|
            0 <= i < states.len() ==> {
                let l = #[trigger] states[i];
                &&& sum_counts(l.visible_counts@) == lit_lines(l.regions@)
                &&& sum_counts(l.visible_counts@) <= sum_lens(l.regions@)
                &&& !l.flicker_on ==> sum_counts(l.visible_counts@) == sum_lens(l.regions@)
            },
        forall|i: int|
            0 <= i < calls.len() && ((#[trigger] calls[i]) is Show || calls[i] is Rebuild) ==> sum_counts(
                states[i + 1].visible_counts@,
            ) == sum_lens(states[i + 1].regions@),
{
    lemma_session_consistent(states, calls);
    assert forall|i: int| 0 <= i < states.len() implies {
        let l = #[trigger] states[i];
        &&& sum_counts(l.visible_counts@) == lit_lines(l.regions@)
        &&& sum_counts(l.visible_counts@) <= sum_lens(l.regions@)
        &&& !l.flicker_on ==> sum_counts(l.visible_counts@) == sum_lens(l.regions@)
    } by {
        let l = states[i];
        assert(l.wf() && quiet(l));
        lemma_counts_are_lit_lines(l.regions@, l.visible_counts@);
        lemma_lit_bounds(l.regions@, l.visible_counts@);
        if !l.flicker_on {
            lemma_quiet_counts(l);
        }
    }
    assert forall|i: int|
        0 <= i < calls.len() && ((#[trigger] calls[i]) is Show || calls[i] is Rebuild) implies sum_counts(
        states[i + 1].visible_counts@,
    ) == sum_lens(states[i + 1].regions@) by {
        assert(applied(states[i], calls[i], states[i + 1]));
        let b = states[i + 1];
        assert(b.wf() && all_lit(b.regions@));
        lemma_all_lit_sums(b.regions@, b.visible_counts@);
    }
}

/// Every operation but `show` and `rebuild` keeps the size of each region.
proof fn lemma_step_keeps_sizes(a: Layer, c: LayerCall, b: Layer)
    requires
        applied(a, c, b),
        !(c is Show),
        !(c is Rebuild),
    ensures
        sum_lens(b.regions@) == sum_lens(a.regions@),
{
    let ar = a.regions@;
    let br = b.regions@;
    match c {
        LayerCall::SetFlicker { on, now } => {
            if a.flicker_on != on {
                assert forall|i: int| 0 <= i < ar.len() implies (#[trigger] ar[i])@.len() == br[i]@.len() by {
                    if on {
                        assert(repicked(ar[i]@, br[i]@, now));
                    } else {
                        assert(calmed(ar[i]@, br[i]@));
                    }
                }
                lemma_same_sizes_same_total(ar, br);
            }
        },
        LayerCall::Tick { now } => {
            if a.flicker_on && a.hwnd != 0 {
                assert forall|i: int| 0 <= i < ar.len() implies (#[trigger] ar[i])@.len() == br[i]@.len() by {
                    assert(ticked(ar[i]@, br[i]@, now));
                }
                lemma_same_sizes_same_total(ar, br);
            }
        },
        _ => {},
    }
}

/// Total lines over a session: without `show` or `rebuild`, every state holds
/// as many lines in all as the first (`hide_layer`, `set_flicker`,
/// `set_capture_excluded` and ticks never change `total_line_count`).
pub proof fn lemma_session_total_lines(states: Seq<Layer>, calls: Seq<LayerCall>)
    requires
        session(states, calls),
        forall|i: int| 0 <= i < calls.len() ==> !((#[trigger] calls[i]) is Show) && !(calls[i] is Rebuild),
    ensures
        forall|i: int| 0 <= i < states.len() ==> sum_lens((#[trigger] states[i]).regions@) == sum_lens(
            states[0].regions@,
        ),
    decreases calls.len(),
{
    if calls.len() > 0 {
        lemma_session_prefix(states, calls);
        assert forall|i: int| 0 <= i < calls.drop_last().len() implies !((#[trigger] calls.drop_last()[i]) is Show)
            && !(calls.drop_last()[i] is Rebuild) by {
            assert(calls.drop_last()[i] == calls[i]);
        }
        lemma_session_total_lines(states.drop_last(), calls.drop_last());
        let k = calls.len() - 1;
        assert(states.drop_last()[k] == states[k]);
        assert(applied(states[k], calls[k], states[k + 1]));
        lemma_step_keeps_sizes(states[k], calls[k], states[k + 1]);
        assert forall|i: int| 0 <= i < states.len() implies sum_lens((#[trigger] states[i]).regions@) == sum_lens(
            states[0].regions@,
        ) by {
            if i < states.len() - 1 {
                assert(states.drop_last()[i] == states[i]);
            }
            assert(states.drop_last()[0] == states[0]);
        }
    }
}

/// Every operation but `set_capture_excluded` keeps the capture setting.
proof fn lemma_step_keeps_capture(a: Layer, c: LayerCall, b: Layer)
    requires
        applied(a, c, b),
        !(c is SetCapture),
    ensures
        b.capture_excluded == a.capture_excluded,
{
}

/// Capture setting over a session: without `set_capture_excluded` it never
/// changes, so from `Layer::new` the overlay stays capturable (`capture_excluded`
/// is false) until that call.
pub proof fn lemma_session_capture(states: Seq<Layer>, calls: Seq<LayerCall>)
    requires
        session(states, calls),
        forall|i: int| 0 <= i < calls.len() ==> !((#[trigger] calls[i]) is SetCapture),
    ensures
        forall|i: int| 0 <= i < states.len() ==> (#[trigger] states[i]).capture_excluded
            == states[0].capture_excluded,
    decreases calls.len(),
{
    if calls.len() > 0 {
        lemma_session_prefix(states, calls);
        assert forall|i: int| 0 <= i < calls.drop_last().len() implies !((
        #[trigger] calls.drop_last()[i]) is SetCapture) by {
            assert(calls.drop_last()[i] == calls[i]);
        }
        lemma_session_capture(states.drop_last(), calls.drop_last());
        let k = calls.len() - 1;
        assert(states.drop_last()[k] == states[k]);
        assert(applied(states[k], calls[k], states[k + 1]));
        lemma_step_keeps_capture(states[k], calls[k], states[k + 1]);
        assert forall|i: int| 0 <= i < states.len() implies (#[trigger] states[i]).capture_excluded
            == states[0].capture_excluded by {
            if i < states.len() - 1 {
                assert(states.drop_last()[i] == states[i]);
            }
            assert(states.drop_last()[0] == states[0]);
        }
    }
}

} // verus!
