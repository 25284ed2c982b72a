//! The window-independent model: the random source, stripe layout, marked
//! regions and the tunable parameters of the effect.

use vstd::prelude::*;
use vstd::string::StringExecFns;
use crate::win::{POINT, RECT};
use crate::text::{decimal, decimal_string};

verus! {

/// Colour key: pixels of this colour in the overlay are see-through (`rgb(1, 2, 3)`).
pub const KEY_COLOR: u32 = 0x0003_0201;

/// Five-colour pool: red, green, blue, black, white.
pub const POOL_MULTI: [u32; 5] = [0x0000_00FF, 0x0000_FF00, 0x00FF_0000, 0x0000_0000, 0x00FF_FFFF];

/// Black only.
pub const POOL_BLACK: [u32; 1] = [0x0000_0000];

/// White only.
pub const POOL_WHITE: [u32; 1] = [0x00FF_FFFF];

/// Gap pool: `0` (two lines touching) weighs most, at most 3 px.
pub const GAP_POOL: [i32; 8] = [0, 0, 0, 0, 1, 1, 2, 3];

/// Smallest span of a valid marked region (pixels).
pub const MIN_REGION: i32 = 2;

/// Sampling distance of the hand-drawn trace, so the point count stays small.
pub const MIN_POINT_DIST: i32 = 5;

/// Flicker rhythm: lit for 1000..=5000 ms, gone for 100..=3000 ms, lit again...
pub const FLICKER_GAP_MIN_MS: u64 = 1000;

pub const FLICKER_GAP_MAX_MS: u64 = 5000;

pub const FLICKER_MIN_MS: u64 = 100;

pub const FLICKER_MAX_MS: u64 = 3000;

/// How many lines of each region take part in flickering.
pub const FLICKER_LINES_MIN: u32 = 2;

pub const FLICKER_LINES_MAX: u32 = 6;

/// The gap drawn with index `i` from `GAP_POOL`.
pub open spec fn gap_at(i: int) -> i32 {
    if i < 4 {
        0
    } else if i < 6 {
        1
    } else if i == 6 {
        2
    } else {
        3
    }
}

/// The colour choices of the stripes.
#[derive(Clone, Copy, PartialEq, Eq, Debug, Structural)]
pub enum ColorMode {
    Multi,
    Black,
    White,
}

/// The colours a mode draws from.
pub open spec fn pool_of(m: ColorMode) -> Seq<u32> {
    match m {
        ColorMode::Multi => seq![0x0000_00FFu32, 0x0000_FF00u32, 0x00FF_0000u32, 0u32, 0x00FF_FFFFu32],
        ColorMode::Black => seq![0u32],
        ColorMode::White => seq![0x00FF_FFFFu32],
    }
}

impl ColorMode {
    /// The colour pool of this mode.
    pub fn pool(self) -> (p: &'static [u32])
        ensures
            p@ == pool_of(self),
    {
        match self {
            ColorMode::Multi => &POOL_MULTI,
            ColorMode::Black => &POOL_BLACK,
            ColorMode::White => &POOL_WHITE,
        }
    }

    /// The display name of this mode.
    pub fn name(self) -> (s: &'static str)
        ensures
            self == ColorMode::Multi ==> s@ == "多色"@,
            self == ColorMode::Black ==> s@ == "纯黑"@,
            self == ColorMode::White ==> s@ == "纯白"@,
    {
        match self {
            ColorMode::Multi => "多色",
            ColorMode::Black => "纯黑",
            ColorMode::White => "纯白",
        }
    }
}

/// Which way the stripes run.
#[derive(Clone, Copy, PartialEq, Eq, Debug, Structural)]
pub enum Orientation {
    Vertical,
    Horizontal,
}

impl Orientation {
    /// The display name of this orientation.
    pub fn name(self) -> (s: &'static str)
        ensures
            self == Orientation::Vertical ==> s@ == "竖条纹"@,
            self == Orientation::Horizontal ==> s@ == "横条纹"@,
    {
        match self {
            Orientation::Vertical => "竖条纹",
            Orientation::Horizontal => "横条纹",
        }
    }
}

/// One xorshift64 step (shifts 13, 7, 17).
pub open spec fn xorshift(x: u64) -> u64 {
    let a = x ^ (x << 13u64);
    let b = a ^ (a >> 7u64);
    b ^ (b << 17u64)
}

/// A xorshift step never reaches the all-zero state from a non-zero one.
pub proof fn lemma_xorshift_nonzero(x: u64)
    requires
        x != 0,
    ensures
        xorshift(x) != 0,
{
    let a = x ^ (x << 13u64);
    assert(x != 0 ==> (x ^ (x << 13u64)) != 0) by (bit_vector);
    assert(a != 0 ==> (a ^ (a >> 7u64)) != 0) by (bit_vector);
    let b = a ^ (a >> 7u64);
    assert(b != 0 ==> (b ^ (b << 17u64)) != 0) by (bit_vector);
}

/// What `Rng::below` does to a state `s` with bound `n`: the next state and the draw.
pub open spec fn below_spec(s: u64, n: u32) -> (u64, u32) {
    if n == 0 {
        (s, 0u32)
    } else {
        (xorshift(s), (xorshift(s) % (n as u64)) as u32)
    }
}

/// What `Rng::range` does: a draw in the closed range `[a, b]`.
pub open spec fn range_spec(s: u64, a: u32, b: u32) -> (u64, u32) {
    if b <= a {
        (s, a)
    } else {
        let (s1, d) = below_spec(s, (b - a + 1) as u32);
        (s1, (a + d) as u32)
    }
}

/// What `Rng::range_ms` does: a draw in the closed range `[a, b]`.
pub open spec fn range_ms_spec(s: u64, a: u64, b: u64) -> (u64, u64) {
    if b <= a {
        (s, a)
    } else {
        (xorshift(s), (a + xorshift(s) % ((b - a + 1) as u64)) as u64)
    }
}

/// Deterministic xorshift64 random source. Its state is never zero.
pub struct Rng(u64);

impl View for Rng {
    type V = u64;

    closed spec fn view(&self) -> u64 {
        self.0
    }
}

impl Rng {
    #[verifier::type_invariant]
    spec fn state_nonzero(self) -> bool {
        self.0 != 0
    }

    /// Seeds a generator; the low bit is forced on so the state is never zero.
    pub fn new(seed: u64) -> (r: Self)
        ensures
            r@ == seed | 1,
            r@ != 0,
    {
        assert((seed | 1) != 0) by (bit_vector);
        Rng(seed | 1)
    }

    /// One step of the generator (xorshift64 with shifts 13, 7, 17); gives the
    /// new state, which is never zero.
    pub fn next_u64(&mut self) -> (x: u64)
        ensures
            final(self)@ == xorshift(old(self)@),
            x == final(self)@,
            final(self)@ != 0,
    {
        proof {
            use_type_invariant(&*self);
            lemma_xorshift_nonzero(self.0);
        }
        let mut x = self.0;
        x ^= x << 13u64;
        x ^= x >> 7u64;
        x ^= x << 17u64;
        self.0 = x;
        x
    }

    /// A draw in `[0, n)`; `0` without advancing when `n == 0`.
    pub fn below(&mut self, n: u32) -> (r: u32)
        ensures
            (final(self)@, r) == below_spec(old(self)@, n),
            n > 0 ==> r < n,
            n == 0 ==> r == 0,
            final(self)@ != 0,
    {
        proof { use_type_invariant(&*self); }
        if n == 0 {
            return 0;
        }
        (self.next_u64() % n as u64) as u32
    }

    /// A draw in the closed range `[a, b]`; `a` without advancing when `b <= a`.
    pub fn range(&mut self, a: u32, b: u32) -> (r: u32)
        requires
            b <= a || b - a < u32::MAX,
        ensures
            (final(self)@, r) == range_spec(old(self)@, a, b),
            b <= a ==> r == a,
            a < b ==> a <= r <= b,
            final(self)@ != 0,
    {
        proof { use_type_invariant(&*self); }
        if b <= a {
            return a;
        }
        a + self.below(b - a + 1)
    }

    /// A draw in the closed range `[a, b]` (milliseconds); `a` without advancing when `b <= a`.
    pub fn range_ms(&mut self, a: u64, b: u64) -> (r: u64)
        requires
            b <= a || b - a < u64::MAX,
        ensures
            (final(self)@, r) == range_ms_spec(old(self)@, a, b),
            b <= a ==> r == a,
            a < b ==> a <= r <= b,
            final(self)@ != 0,
    {
        proof { use_type_invariant(&*self); }
        if b <= a {
            return a;
        }
        a + (self.next_u64() % (b - a + 1))
    }

    /// An element of `items` chosen by `below(items.len())`.
    pub fn pick<T: Copy>(&mut self, items: &[T]) -> (r: T)
        requires
            items@.len() > 0,
        ensures
            ({
                let (s, i) = below_spec(old(self)@, items@.len() as u32);
                &&& final(self)@ == s
                &&& r == items@[i as int]
            }),
            items@.contains(r),
            final(self)@ != 0,
    {
        let len = items.len();
        let i = self.below(len as u32);
        proof {
            let l = len as u64;
            assert((l as u32) as u64 <= l) by (bit_vector);
        }
        items[i as usize]
    }
}

/// One line of the effect.
#[derive(Clone, Copy)]
pub struct Stripe {
    /// Position along the layout axis (x for vertical lines, y for horizontal ones).
    pub pos: i32,
    /// Line width in pixels.
    pub w: i32,
    pub color: u32,
    /// Flicker state: whether the line is shown right now.
    pub visible: bool,
    /// Whether the line takes part in flickering.
    pub flickers: bool,
    /// When the line next changes state (ms; meaningful only while it flickers).
    pub next_flip: u64,
}

/// Upper bound on the number of lines laid out for one region.
pub const MAX_LINES: usize = 20000;

/// The layout rule, from position `x` up to (not including) `hi`: each line is
/// 1 px wide; a line that touches the previous one (gap 0) keeps its colour
/// (`prev` is that colour), any other line draws its colour from `pool`; then a
/// gap is drawn from `GAP_POOL`. At most `MAX_LINES` lines in all; `n` counts
/// those already laid. Gives the lines and the random state afterwards.
pub open spec fn layout(x: int, hi: int, prev: Option<u32>, pool: Seq<u32>, s: u64, n: nat) -> (
    Seq<Stripe>,
    u64,
)
    decreases MAX_LINES - n,
{
    if x < hi && n < MAX_LINES {
        let (s1, color) = match prev {
            Some(c) => (s, c),
            None => {
                let (t, i) = below_spec(s, pool.len() as u32);
                (t, pool[i as int])
            },
        };
        let (s2, gi) = below_spec(s1, 8);
        let gap = gap_at(gi as int);
        let line = Stripe { pos: x as i32, w: 1, color, visible: true, flickers: false, next_flip: 0 };
        let (rest, s3) = layout(
            x + 1 + gap,
            hi,
            if gap == 0 { Some(color) } else { None },
            pool,
            s2,
            n + 1,
        );
        (seq![line] + rest, s3)
    } else {
        (seq![], s)
    }
}

/// Where the lines of a run lie on `[lo, hi)` with colours from `pool`: inside
/// the range, 1 px wide, in increasing order with a gap of 0..=3 px between
/// neighbours, colours from the pool, and touching neighbours of one colour.
pub open spec fn laid_out(lines: Seq<Stripe>, lo: int, hi: int, pool: Seq<u32>) -> bool {
    &&& forall|i: int|
        0 <= i < lines.len() ==> {
            let l = #[trigger] lines[i];
            &&& lo <= l.pos < hi
            &&& l.w == 1
            &&& pool.contains(l.color)
        }
    &&& forall|i: int|
        0 <= i < lines.len() - 1 ==> {
            let gap = lines[i + 1].pos - lines[i].pos - 1;
            &&& 0 <= gap <= 3
            &&& gap == 0 ==> lines[i + 1].color == #[trigger] lines[i].color
        }
}

/// A freshly laid-out run: `laid_out`, and every line shown, not flickering.
pub open spec fn well_laid(lines: Seq<Stripe>, lo: int, hi: int, pool: Seq<u32>) -> bool {
    &&& laid_out(lines, lo, hi, pool)
    &&& forall|i: int|
        0 <= i < lines.len() ==> {
            let l = #[trigger] lines[i];
            &&& l.visible
            &&& !l.flickers
            &&& l.next_flip == 0
        }
}

/// The layout rule gives well-laid lines that start at `x`, fill the range up
/// to its last 4 px unless the line limit was reached, and keep the colour of a
/// touching previous line.
pub proof fn lemma_layout_shape(
    x: int,
    hi: int,
    prev: Option<u32>,
    pool: Seq<u32>,
    s: u64,
    n: nat,
)
    requires
        pool.len() > 0,
        n <= MAX_LINES,
        i32::MIN <= x,
        hi <= i32::MAX,
        prev is Some ==> pool.contains(prev->0),
    ensures
        ({
            let lines = layout(x, hi, prev, pool, s, n).0;
            &&& well_laid(lines, x, hi, pool)
            &&& lines.len() <= MAX_LINES - n
            &&& lines.len() == 0 <==> (x >= hi || n == MAX_LINES)
            &&& lines.len() > 0 ==> lines[0].pos == x
            &&& lines.len() > 0 && prev is Some ==> lines[0].color == prev->0
            &&& lines.len() > 0 && n + lines.len() < MAX_LINES ==> lines.last().pos >= hi - 4
        }),
    decreases MAX_LINES - n,
{
    if x < hi && n < MAX_LINES {
        let (s1, color) = match prev {
            Some(c) => (s, c),
            None => {
                let (t, i) = below_spec(s, pool.len() as u32);
                (t, pool[i as int])
            },
        };
        if prev is None {
            let (t, i) = below_spec(s, pool.len() as u32);
            assert((pool.len() as u32) as int <= pool.len()) by {
                let l = pool.len() as u64;
                assert((l as u32) as u64 <= l) by (bit_vector);
            }
            assert(pool.contains(pool[i as int]));
        }
        let (s2, gi) = below_spec(s1, 8);
        let gap = gap_at(gi as int);
        let nprev = if gap == 0 { Some(color) } else { None };
        lemma_layout_shape(x + 1 + gap, hi, nprev, pool, s2, n + 1);
        let rest = layout(x + 1 + gap, hi, nprev, pool, s2, n + 1).0;
        let line = Stripe { pos: x as i32, w: 1, color, visible: true, flickers: false, next_flip: 0 };
        let lines = layout(x, hi, prev, pool, s, n).0;
        assert(lines == seq![line] + rest);
        assert forall|i: int| 0 <= i < lines.len() implies {
            let l = #[trigger] lines[i];
            &&& x <= l.pos < hi
            &&& l.w == 1
            &&& l.visible
            &&& !l.flickers
            &&& l.next_flip == 0
            &&& pool.contains(l.color)
        } by {
            if i > 0 {
                assert(lines[i] == rest[i - 1]);
            }
        }
        assert forall|i: int| 0 <= i < lines.len() implies {
            let l = #[trigger] lines[i];
            &&& x <= l.pos < hi
            &&& l.w == 1
            &&& pool.contains(l.color)
        } by {
            if i > 0 {
                assert(lines[i] == rest[i - 1]);
            }
        }
        assert forall|i: int| 0 <= i < lines.len() - 1 implies {
            let gap = lines[i + 1].pos - lines[i].pos - 1;
            &&& 0 <= gap <= 3
            &&& gap == 0 ==> lines[i + 1].color == #[trigger] lines[i].color
        } by {
            assert(lines[i + 1] == rest[i]);
            if i > 0 {
                assert(lines[i] == rest[i - 1]);
                assert(rest[i] == rest[(i - 1) + 1]);
            }
        }
        if rest.len() > 0 {
            assert(lines.last() == rest.last());
        }
    }
}

/// Whether line `i` of a run starts a new colour: the first line when no colour
/// is carried in (`first_fresh`), any later line when it does not touch the
/// line before it.
pub open spec fn fresh_colour(lines: Seq<Stripe>, first_fresh: bool, i: int) -> bool {
    if i == 0 {
        first_fresh
    } else {
        lines[i].pos - lines[i - 1].pos > 1
    }
}

/// How many draws of the random source the lines before line `i` take: one
/// for each new colour and one for each gap.
pub open spec fn draws_before(lines: Seq<Stripe>, first_fresh: bool, i: nat) -> nat
    decreases i,
{
    if i == 0 {
        0
    } else {
        draws_before(lines, first_fresh, (i - 1) as nat) + 1 + if fresh_colour(lines, first_fresh, i - 1) {
            1nat
        } else {
            0nat
        }
    }
}

/// The random draws behind a run of lines laid from state `s`: line `i` is laid
/// from the state `st` after `draws_before(i)` steps; a line that starts a new
/// colour takes `pool[below(pool.len())]` drawn from `st`, any other line keeps
/// the colour before it (`prev` for the first line); the gap after line `i` is
/// the `GAP_POOL` entry drawn next.
pub open spec fn drawn_run(lines: Seq<Stripe>, prev: Option<u32>, pool: Seq<u32>, s: u64) -> bool {
    let ff = prev is None;
    forall|i: int|
        0 <= i < lines.len() ==> {
            let st = crate::layer::xorshift_n(s, draws_before(lines, ff, i as nat));
            let after_colour = if fresh_colour(lines, ff, i) {
                xorshift(st)
            } else {
                st
            };
            &&& fresh_colour(lines, ff, i) ==> (#[trigger] lines[i]).color == pool[below_spec(
                st,
                pool.len() as u32,
            ).1 as int]
            &&& !fresh_colour(lines, ff, i) && i == 0 ==> lines[i].color == prev->0
            &&& !fresh_colour(lines, ff, i) && i > 0 ==> lines[i].color == lines[i - 1].color
            &&& i + 1 < lines.len() ==> lines[i + 1].pos - lines[i].pos - 1 == gap_at(
                below_spec(after_colour, 8).1 as int,
            )
        }
}

/// Counting the draws of a run from its second line on.
proof fn lemma_draws_shift(lines: Seq<Stripe>, rest: Seq<Stripe>, ff: bool, ff2: bool, i: nat)
    requires
        lines.len() == rest.len() + 1,
        forall|j: int| 0 <= j < rest.len() ==> #[trigger] rest[j] == lines[j + 1],
        rest.len() > 0 ==> (ff2 <==> lines[1].pos - lines[0].pos > 1),
        1 <= i <= lines.len(),
    ensures
        draws_before(lines, ff, i) == 1 + (if ff {
            1nat
        } else {
            0nat
        }) + draws_before(rest, ff2, (i - 1) as nat),
    decreases i,
{
    assert(draws_before(rest, ff2, 0) == 0);
    assert(draws_before(lines, ff, 0) == 0);
    if i == 1 {
        assert(draws_before(lines, ff, 1) == draws_before(lines, ff, 0) + 1 + if fresh_colour(lines, ff, 0) {
            1nat
        } else {
            0nat
        });
    }
    if i > 1 {
        lemma_draws_shift(lines, rest, ff, ff2, (i - 1) as nat);
        let k = i - 2;
        if k == 0 {
            assert(fresh_colour(lines, ff, 1) == fresh_colour(rest, ff2, 0));
        } else {
            assert(rest[k] == lines[k + 1] && rest[k - 1] == lines[k]);
            assert(fresh_colour(lines, ff, k + 1) == fresh_colour(rest, ff2, k));
        }
    }
}

/// The draws of a run whose first line is followed by the run `rest`, laid from
/// `s2` after the first line's `d0` draws and its gap `gap`.
proof fn lemma_run_step(
    lines: Seq<Stripe>,
    rest: Seq<Stripe>,
    prev: Option<u32>,
    nprev: Option<u32>,
    pool: Seq<u32>,
    s: u64,
    s2: u64,
    d0: nat,
    gap: i32,
)
    requires
        lines.len() == rest.len() + 1,
        forall|j: int| 0 <= j < rest.len() ==> #[trigger] rest[j] == lines[j + 1],
        nprev is None <==> gap != 0,
        rest.len() > 0 ==> lines[1].pos - lines[0].pos == 1 + gap,
        rest.len() > 0 && nprev is Some ==> rest[0].color == nprev->0,
        nprev is Some ==> nprev->0 == lines[0].color,
        d0 == 1 + (if prev is None {
            1nat
        } else {
            0nat
        }),
        crate::layer::xorshift_n(s, d0) == s2,
        prev is None ==> lines[0].color == pool[below_spec(s, pool.len() as u32).1 as int],
        prev is Some ==> lines[0].color == prev->0,
        gap == gap_at(below_spec(if prev is None {
            xorshift(s)
        } else {
            s
        }, 8).1 as int),
        drawn_run(rest, nprev, pool, s2),
        forall|i: int|
            1 <= i <= lines.len() ==> #[trigger] draws_before(lines, prev is None, i as nat) == d0
                + draws_before(rest, nprev is None, (i - 1) as nat),
    ensures
        drawn_run(lines, prev, pool, s),
{
    let ff = prev is None;
    let ff2 = nprev is None;
    assert forall|i: int| 0 <= i < lines.len() implies {
        let st = crate::layer::xorshift_n(s, draws_before(lines, ff, i as nat));
        let after_colour = if fresh_colour(lines, ff, i) {
            xorshift(st)
        } else {
            st
        };
        &&& fresh_colour(lines, ff, i) ==> (#[trigger] lines[i]).color == pool[below_spec(
            st,
            pool.len() as u32,
        ).1 as int]
        &&& !fresh_colour(lines, ff, i) && i == 0 ==> lines[i].color == prev->0
        &&& !fresh_colour(lines, ff, i) && i > 0 ==> lines[i].color == lines[i - 1].color
        &&& i + 1 < lines.len() ==> lines[i + 1].pos - lines[i].pos - 1 == gap_at(
            below_spec(after_colour, 8).1 as int,
        )
    } by {
        if i == 0 {
            assert(draws_before(lines, ff, 0) == 0);
            assert(crate::layer::xorshift_n(s, 0) == s);
        } else {
            let r = i - 1;
            let dr = draws_before(rest, ff2, r as nat);
            crate::layer::lemma_xorshift_n_add(s, d0, dr);
            assert(lines[i] == rest[r]);
            if r == 0 {
                assert(fresh_colour(lines, ff, i) == fresh_colour(rest, ff2, r));
            } else {
                assert(lines[i - 1] == rest[r - 1]);
                assert(fresh_colour(lines, ff, i) == fresh_colour(rest, ff2, r));
            }
            if i + 1 < lines.len() {
                assert(lines[i + 1] == rest[r + 1]);
            }
        }
    }
}

/// The layout rule, read back from its lines: which lines start a new colour,
/// which colours and gaps they draw, and the state afterwards, all from the
/// successive draws of the random source (see `drawn_run`). In particular only
/// a touching line keeps the colour before it.
#[verifier::spinoff_prover]
pub proof fn lemma_layout_draws(x: int, hi: int, prev: Option<u32>, pool: Seq<u32>, s: u64, n: nat)
    requires
        0 < pool.len() <= u32::MAX,
        n <= MAX_LINES,
        i32::MIN <= x,
        hi <= i32::MAX,
        prev is Some ==> pool.contains(prev->0),
    ensures
        drawn_run(layout(x, hi, prev, pool, s, n).0, prev, pool, s),
        layout(x, hi, prev, pool, s, n).1 == crate::layer::xorshift_n(
            s,
            draws_before(layout(x, hi, prev, pool, s, n).0, prev is None, layout(x, hi, prev, pool, s, n).0.len()),
        ),
    decreases MAX_LINES - n,
{
    let lines = layout(x, hi, prev, pool, s, n).0;
    let ff = prev is None;
    if x < hi && n < MAX_LINES {
        let (s1, color) = match prev {
            Some(c) => (s, c),
            None => {
                let (t, i) = below_spec(s, pool.len() as u32);
                (t, pool[i as int])
            },
        };
        let (s2, gi) = below_spec(s1, 8);
        let gap = gap_at(gi as int);
        let nprev = if gap == 0 {
            Some(color)
        } else {
            None
        };
        if prev is None {
            let (t, i) = below_spec(s, pool.len() as u32);
            assert((pool.len() as u32) as int == pool.len());
            assert(pool.contains(pool[i as int]));
        }
        lemma_layout_draws(x + 1 + gap, hi, nprev, pool, s2, n + 1);
        lemma_layout_shape(x + 1 + gap, hi, nprev, pool, s2, n + 1);
        let rest = layout(x + 1 + gap, hi, nprev, pool, s2, n + 1).0;
        let line = Stripe { pos: x as i32, w: 1, color, visible: true, flickers: false, next_flip: 0 };
        assert(lines == seq![line] + rest);
        let ff2 = nprev is None;
        let d0: nat = 1 + if ff {
            1nat
        } else {
            0nat
        };
        assert forall|j: int| 0 <= j < rest.len() implies #[trigger] rest[j] == lines[j + 1] by {}
        if rest.len() > 0 {
            assert(lines[1].pos - lines[0].pos == 1 + gap);
        }
        assert(crate::layer::xorshift_n(s, 0) == s);
        assert(crate::layer::xorshift_n(s, 1) == xorshift(s));
        assert(crate::layer::xorshift_n(s, 2) == xorshift(xorshift(s)));
        assert(crate::layer::xorshift_n(s, d0) == s2);
        assert forall|i: int| 1 <= i <= lines.len() implies #[trigger] draws_before(lines, ff, i as nat) == d0
            + draws_before(rest, ff2, (i - 1) as nat) by {
            lemma_draws_shift(lines, rest, ff, ff2, i as nat);
        }
        lemma_run_step(lines, rest, prev, nprev, pool, s, s2, d0, gap);
        crate::layer::lemma_xorshift_n_add(s, d0, draws_before(rest, ff2, rest.len()));
    } else {
        assert(lines.len() == 0);
    }
}

/// Lays hairlines along `[a0, a0 + span)` by the rule of `layout`: width 1,
/// gaps from `GAP_POOL`, and a line that touches the previous one keeps its colour.
pub fn build_lines(a0: i32, span: i32, pool: &[u32], rng: &mut Rng) -> (out: Vec<Stripe>)
    requires
        span < 1 || pool@.len() == 0 || a0 + span + 3 <= i32::MAX,
    ensures
        span < 1 || pool@.len() == 0 ==> out@.len() == 0 && final(rng)@ == old(rng)@,
        span >= 1 && pool@.len() > 0 ==> (out@, final(rng)@) == layout(
            a0 as int,
            a0 + span,
            None,
            pool@,
            old(rng)@,
            0,
        ),
        span >= 1 && pool@.len() > 0 ==> {
            &&& well_laid(out@, a0 as int, a0 + span, pool@)
            &&& out@.len() > 0
            &&& out@[0].pos == a0
            &&& out@.len() <= MAX_LINES
            &&& out@.len() < MAX_LINES ==> out@.last().pos >= a0 + span - 4
        },
        span >= 1 && 0 < pool@.len() <= u32::MAX ==> drawn_run(out@, None, pool@, old(rng)@) && final(rng)@
            == crate::layer::xorshift_n(old(rng)@, draws_before(out@, true, out@.len())),
{
    let mut out: Vec<Stripe> = Vec::new();
    if span < 1 || pool.len() == 0 {
        return out;
    }
    let hi = a0 + span;
    let mut x = a0;
    let mut prev_color: Option<u32> = None;
    let mut prev_gap: i32 = -1;
    let mut guard: usize = 0;
    let ghost s0 = rng@;
    let ghost total = layout(a0 as int, hi as int, None, pool@, s0, 0);
    while x < hi && guard < MAX_LINES
        invariant
            hi == a0 + span,
            hi + 3 <= i32::MAX,
            pool@.len() > 0,
            a0 <= x,
            guard == out@.len(),
            guard <= MAX_LINES,
            prev_gap == -1 <==> guard == 0,
            prev_gap == -1 ==> prev_color is None,
            prev_gap != -1 ==> prev_color is Some && 0 <= prev_gap <= 3,
            total == layout(a0 as int, hi as int, None, pool@, s0, 0),
            ({
                let (rest, s_end) = layout(
                    x as int,
                    hi as int,
                    if prev_gap == 0 { prev_color } else { None },
                    pool@,
                    rng@,
                    guard as nat,
                );
                &&& total.0 == out@ + rest
                &&& total.1 == s_end
            }),
        ensures
            total.0 == out@,
            total.1 == rng@,
        decreases MAX_LINES - guard,
    {
        guard += 1;
        let mut w: i32 = 1;
        if x + w > hi {
            w = hi - x;
        }
        if w < 1 {
            break;
        }
        let color = match (prev_gap == 0, prev_color) {
            (true, Some(c)) => c,
            _ => rng.pick(pool),
        };
        out.push(Stripe { pos: x, w, color, visible: true, flickers: false, next_flip: 0 });
        let gap = rng.pick(&GAP_POOL);
        x += w + gap;
        prev_color = Some(color);
        prev_gap = gap;
    }
    proof {
        assert(total.0 == out@ + seq![]);
        lemma_layout_shape(a0 as int, hi as int, None, pool@, s0, 0);
        if pool@.len() <= u32::MAX {
            lemma_layout_draws(a0 as int, hi as int, None, pool@, s0, 0);
        }
    }
    out
}

/// `(x, y, w, h)` is the bounding box of `pts`: every point lies in
/// `[x, x + w] x [y, y + h]` and each edge is touched by a point; all zero for no points.
pub open spec fn bounds_points(pts: Seq<POINT>, x: int, y: int, w: int, h: int) -> bool {
    if pts.len() == 0 {
        x == 0 && y == 0 && w == 0 && h == 0
    } else {
        &&& forall|i: int|
            0 <= i < pts.len() ==> x <= #[trigger] pts[i].x <= x + w && y <= pts[i].y <= y + h
        &&& exists|i: int| 0 <= i < pts.len() && #[trigger] pts[i].x == x
        &&& exists|i: int| 0 <= i < pts.len() && #[trigger] pts[i].x == x + w
        &&& exists|i: int| 0 <= i < pts.len() && #[trigger] pts[i].y == y
        &&& exists|i: int| 0 <= i < pts.len() && #[trigger] pts[i].y == y + h
    }
}

/// The spread of the points fits in `i32` on both axes.
pub open spec fn spread_fits(pts: Seq<POINT>) -> bool {
    &&& forall|i: int, j: int|
        0 <= i < pts.len() && 0 <= j < pts.len() ==> #[trigger] pts[i].x - #[trigger] pts[j].x
            <= i32::MAX
    &&& forall|i: int, j: int|
        0 <= i < pts.len() && 0 <= j < pts.len() ==> #[trigger] pts[i].y - #[trigger] pts[j].y
            <= i32::MAX
}

/// A marked region: the hand-drawn outline and its bounding box.
#[derive(Clone)]
pub struct Region {
    pub points: Vec<POINT>,
    pub x: i32,
    pub y: i32,
    pub w: i32,
    pub h: i32,
}

impl Region {
    /// The bounding box fields describe the outline.
    pub open spec fn wf(&self) -> bool {
        bounds_points(self.points@, self.x as int, self.y as int, self.w as int, self.h as int)
    }

    /// The region of an outline, with its bounding box.
    pub fn from_points(points: Vec<POINT>) -> (r: Self)
        requires
            spread_fits(points@),
        ensures
            r.points@ == points@,
            r.wf(),
    {
        let n = points.len();
        if n == 0 {
            return Region { points, x: 0, y: 0, w: 0, h: 0 };
        }
        let mut min_x = points[0].x;
        let mut max_x = points[0].x;
        let mut min_y = points[0].y;
        let mut max_y = points[0].y;
        let ghost mut ix0: int = 0;
        let ghost mut ix1: int = 0;
        let ghost mut iy0: int = 0;
        let ghost mut iy1: int = 0;
        let mut k: usize = 1;
        while k < n
            invariant
                n == points@.len(),
                1 <= k <= n,
                0 <= ix0 < k && points@[ix0].x == min_x,
                0 <= ix1 < k && points@[ix1].x == max_x,
                0 <= iy0 < k && points@[iy0].y == min_y,
                0 <= iy1 < k && points@[iy1].y == max_y,
                forall|i: int|
                    0 <= i < k ==> min_x <= #[trigger] points@[i].x <= max_x && min_y
                        <= points@[i].y <= max_y,
            decreases n - k,
        {
            let p = points[k];
            if p.x < min_x {
                min_x = p.x;
                proof {
                    ix0 = k as int;
                }
            }
            if p.x > max_x {
                max_x = p.x;
                proof {
                    ix1 = k as int;
                }
            }
            if p.y < min_y {
                min_y = p.y;
                proof {
                    iy0 = k as int;
                }
            }
            if p.y > max_y {
                max_y = p.y;
                proof {
                    iy1 = k as int;
                }
            }
            k += 1;
        }
        proof {
            assert(points@[ix1].x - points@[ix0].x <= i32::MAX);
            assert(points@[iy1].y - points@[iy0].y <= i32::MAX);
        }
        let r = Region { points, x: min_x, y: min_y, w: max_x - min_x, h: max_y - min_y };
        proof {
            assert(r.points@[ix0].x == r.x);
            assert(r.points@[ix1].x == r.x + r.w);
            assert(r.points@[iy0].y == r.y);
            assert(r.points@[iy1].y == r.y + r.h);
        }
        r
    }

    /// The bounding box as a rectangle.
    pub fn rect(&self) -> (rc: RECT)
        requires
            self.x + self.w <= i32::MAX,
            self.y + self.h <= i32::MAX,
            i32::MIN <= self.x + self.w,
            i32::MIN <= self.y + self.h,
        ensures
            rc.left == self.x,
            rc.top == self.y,
            rc.right == self.x + self.w,
            rc.bottom == self.y + self.h,
    {
        RECT::new(self.x, self.y, self.x + self.w, self.y + self.h)
    }

    /// Start and span of the stripe layout axis, relative to `origin` (the corner
    /// of the virtual desktop): vertical stripes take the left-right range of
    /// the region, horizontal ones its top-bottom range.
    pub fn axis(&self, orientation: Orientation, origin: (i32, i32)) -> (a: (i32, i32))
        requires
            orientation == Orientation::Vertical ==> i32::MIN <= self.x - origin.0 <= i32::MAX,
            orientation == Orientation::Horizontal ==> i32::MIN <= self.y - origin.1 <= i32::MAX,
        ensures
            orientation == Orientation::Vertical ==> a.0 == self.x - origin.0 && a.1 == self.w,
            orientation == Orientation::Horizontal ==> a.0 == self.y - origin.1 && a.1 == self.h,
    {
        match orientation {
            Orientation::Vertical => (self.x - origin.0, self.w),
            Orientation::Horizontal => (self.y - origin.1, self.h),
        }
    }

    /// One line describing the region for the panel.
    pub fn summary(&self, orientation: Orientation) -> (s: String)
        requires
            orientation == Orientation::Vertical ==> self.x + self.w <= i32::MAX,
            orientation == Orientation::Horizontal ==> self.y + self.h <= i32::MAX,
            orientation == Orientation::Vertical ==> i32::MIN <= self.x + self.w,
            orientation == Orientation::Horizontal ==> i32::MIN <= self.y + self.h,
        ensures
            s@ == summary_text(*self, orientation),
    {
        let mut s = String::new();
        match orientation {
            Orientation::Vertical => {
                s.append("区域：x ");
                s.append(decimal_string(self.x as i64).as_str());
                s.append("~");
                s.append(decimal_string((self.x + self.w) as i64).as_str());
                s.append("（宽 ");
                s.append(decimal_string(self.w as i64).as_str());
                s.append("px），竖线贯穿屏幕高度");
            },
            Orientation::Horizontal => {
                s.append("区域：y ");
                s.append(decimal_string(self.y as i64).as_str());
                s.append("~");
                s.append(decimal_string((self.y + self.h) as i64).as_str());
                s.append("（高 ");
                s.append(decimal_string(self.h as i64).as_str());
                s.append("px），横线贯穿屏幕宽度");
            },
        }
        s
    }
}

/// The far corner of a region's box is the coordinate of some outline point,
/// so it fits `i32`.
pub proof fn lemma_box_fits(r: Region)
    requires
        r.wf(),
    ensures
        i32::MIN <= r.x + r.w <= i32::MAX,
        i32::MIN <= r.y + r.h <= i32::MAX,
        r.w >= 0,
        r.h >= 0,
{
    let pts = r.points@;
    if pts.len() > 0 {
        let k = choose|i: int| 0 <= i < pts.len() && #[trigger] pts[i].x == r.x + r.w;
        let l = choose|i: int| 0 <= i < pts.len() && #[trigger] pts[i].y == r.y + r.h;
        assert(r.x <= pts[k].x <= r.x + r.w && r.y <= pts[k].y <= r.y + r.h);
        assert(r.x <= pts[l].x <= r.x + r.w && r.y <= pts[l].y <= r.y + r.h);
    }
}

/// The summary line of a region: its range along the layout axis and its extent.
pub open spec fn summary_text(r: Region, orientation: Orientation) -> Seq<char> {
    match orientation {
        Orientation::Vertical => "区域：x "@ + decimal(r.x as int) + "~"@ + decimal(r.x + r.w) + "（宽 "@
            + decimal(r.w as int) + "px），竖线贯穿屏幕高度"@,
        Orientation::Horizontal => "区域：y "@ + decimal(r.y as int) + "~"@ + decimal(r.y + r.h)
            + "（高 "@ + decimal(r.h as int) + "px），横线贯穿屏幕宽度"@,
    }
}

} // verus!
