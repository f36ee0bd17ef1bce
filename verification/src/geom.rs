//! Fixed-point plane geometry for the simulation core.
//!
//! Coordinates are `i64` values in thousandths of a unit (milli-units), so
//! the world position (100, 100) is stored as (100_000, 100_000). Steering
//! advances a point toward a target at `SPEED` milli-units per tick along
//! the straight line between them, clamping the final step so the point
//! lands exactly on the target instead of oscillating around it.

use vstd::arithmetic::div_mod::lemma_div_is_ordered;
use vstd::arithmetic::div_mod::lemma_div_is_ordered_by_denominator;
use vstd::arithmetic::div_mod::lemma_div_multiples_vanish;
use vstd::arithmetic::div_mod::lemma_div_pos_is_pos;
use vstd::prelude::*;

verus! {

/// Distance travelled per tick along the line toward the target, in
/// milli-units: five world units.
pub const SPEED: i64 = 5000;

/// Largest magnitude a stored world or UI coordinate may have, in
/// milli-units (one million world units).
pub const COORD_LIMIT: i64 = 1_000_000_000;

/// Largest screen coordinate and viewport extent, in milli-pixels
/// (ten thousand pixels).
pub const SCREEN_LIMIT: i64 = 10_000_000;

/// Milli-units per unit: the fixed-point scale shared by all coordinates.
pub const MILLI: i64 = 1000;

/// Smallest accepted display scale factor, in thousandths (0.1x).
pub const SCALE_MIN: i64 = 100;

/// Largest accepted display scale factor, in thousandths (10x).
pub const SCALE_MAX: i64 = 10_000;

/// A point or displacement in the plane, in milli-units.
#[derive(Clone, Copy, Debug, PartialEq, Eq, Structural)]
pub struct Vec2 {
    pub x: i64,
    pub y: i64,
}

pub open spec fn in_coord(c: int) -> bool {
    -COORD_LIMIT <= c <= COORD_LIMIT
}

pub open spec fn in_bounds(v: Vec2) -> bool {
    in_coord(v.x as int) && in_coord(v.y as int)
}

/// Squared distance between two points.
pub open spec fn dist2(p: Vec2, t: Vec2) -> int {
    (t.x - p.x) * (t.x - p.x) + (t.y - p.y) * (t.y - p.y)
}

/// Largest `r` with `r * r <= n` (and 0 for non-positive `n`).
pub open spec fn sqrt_floor(n: int) -> int
    decreases n,
{
    if n <= 0 {
        0
    } else {
        let s = sqrt_floor(n - 1);
        if (s + 1) * (s + 1) <= n {
            s + 1
        } else {
            s
        }
    }
}

pub proof fn lemma_sqrt_floor_bounds(n: int)
    requires
        n >= 0,
    ensures
        sqrt_floor(n) >= 0,
        sqrt_floor(n) * sqrt_floor(n) <= n,
        n < (sqrt_floor(n) + 1) * (sqrt_floor(n) + 1),
    decreases n,
{
    if n > 0 {
        lemma_sqrt_floor_bounds(n - 1);
        let s = sqrt_floor(n - 1);
        if (s + 1) * (s + 1) <= n {
            assert(n - 1 < (s + 1) * (s + 1));
            assert(n == (s + 1) * (s + 1));
            assert(n < (s + 2) * (s + 2)) by (nonlinear_arith)
                requires n == (s + 1) * (s + 1) && s >= 0;
        }
    }
}

pub proof fn lemma_sqrt_unique(n: int, a: int)
    requires
        n >= 0,
        a >= 0,
        a * a <= n,
        n < (a + 1) * (a + 1),
    ensures
        a == sqrt_floor(n),
{
    lemma_sqrt_floor_bounds(n);
    let s = sqrt_floor(n);
    if a < s {
        assert((a + 1) * (a + 1) <= s * s) by (nonlinear_arith)
            requires 0 <= a && a + 1 <= s;
    }
    if s < a {
        assert((s + 1) * (s + 1) <= a * a) by (nonlinear_arith)
            requires 0 <= s && s + 1 <= a;
    }
}

/// Integer square root: the floor of the real square root of `n`.
pub fn isqrt(n: u64) -> (r: u64)
    ensures
        r == sqrt_floor(n as int),
        r * r <= n,
{
    let mut lo: u64 = 0;
    let mut hi: u64 = 4_294_967_296;
    proof {
        assert((4_294_967_296int) * (4_294_967_296int) > u64::MAX as int) by (nonlinear_arith);
    }
    while hi - lo > 1
        invariant
            lo < hi <= 4_294_967_296,
            lo * lo <= n,
            (n as int) < (hi as int) * (hi as int),
        decreases hi - lo,
    {
        let mid: u64 = lo + (hi - lo) / 2;
        proof {
            assert(lo < mid < hi);
            assert((mid as int) * (mid as int) <= (4_294_967_295int) * (4_294_967_295int))
                by (nonlinear_arith)
                requires 0 <= (mid as int) <= 4_294_967_295int;
        }
        if mid * mid <= n {
            lo = mid;
        } else {
            hi = mid;
        }
    }
    proof {
        assert(hi == lo + 1);
        lemma_sqrt_unique(n as int, lo as int);
    }
    lo
}

/// Magnitude of the per-axis steering step: `SPEED * d / l` for a
/// non-negative axis distance `d` and line length `l`.
pub open spec fn step_mag(d: int, l: int) -> int {
    SPEED * d / l
}

/// Signed per-axis steering step toward a target `d` away along this axis,
/// where `l` is the length of the full displacement.
pub open spec fn axis_step(d: int, l: int) -> int {
    if d >= 0 {
        step_mag(d, l)
    } else {
        -step_mag(-d, l)
    }
}

/// The position one steering step advances `p` toward `t`: unchanged when
/// already at the target, exactly `t` once within one step of it, and
/// otherwise `p` plus `SPEED / |t - p|` of the displacement per axis.
pub open spec fn steer_spec(p: Vec2, t: Vec2) -> Vec2 {
    if p == t {
        p
    } else {
        let l = sqrt_floor(dist2(p, t));
        if l <= SPEED {
            t
        } else {
            Vec2 {
                x: (p.x + axis_step(t.x - p.x, l)) as i64,
                y: (p.y + axis_step(t.y - p.y, l)) as i64,
            }
        }
    }
}

/// One non-negative axis of the steering step, computed exactly as
/// `step_mag` describes.
fn step_axis_mag(d: u64, l: u64) -> (r: u64)
    requires
        d <= 2 * COORD_LIMIT,
        SPEED < l,
        d <= l,
    ensures
        r == step_mag(d as int, l as int),
        r <= SPEED,
        r <= d,
{
    let r: u64 = (SPEED as u64) * d / l;
    proof {
        let di = d as int;
        let li = l as int;
        assert(SPEED * di <= li * di) by (nonlinear_arith)
            requires 0 <= di && SPEED <= li;
        assert(SPEED * di <= SPEED * li) by (nonlinear_arith)
            requires 0 <= SPEED && di <= li;
        lemma_div_pos_is_pos(SPEED * di, li);
        lemma_div_is_ordered(SPEED * di, li * di, li);
        lemma_div_multiples_vanish(di, li);
        lemma_div_is_ordered(SPEED * di, SPEED * li, li);
        lemma_div_multiples_vanish(SPEED as int, li);
    }
    r
}

/// Advance `p` one steering step toward `t`.
///
/// The result is pinned to `steer_spec`; the extra clauses say the point
/// never leaves the axis-aligned box spanned by `p` and `t`, which keeps
/// every stepped coordinate within bounds.
pub fn steer_step(p: Vec2, t: Vec2) -> (r: Vec2)
    requires
        in_bounds(p),
        in_bounds(t),
    ensures
        r == steer_spec(p, t),
        in_bounds(r),
        p.x <= t.x ==> p.x <= r.x <= t.x,
        t.x <= p.x ==> t.x <= r.x <= p.x,
        p.y <= t.y ==> p.y <= r.y <= t.y,
        t.y <= p.y ==> t.y <= r.y <= p.y,
{
    if p.x == t.x && p.y == t.y {
        return p;
    }
    let dx: i64 = t.x - p.x;
    let dy: i64 = t.y - p.y;
    proof {
        assert(dx * dx <= (2 * COORD_LIMIT) * (2 * COORD_LIMIT) && dx * dx >= 0)
            by (nonlinear_arith)
            requires -2 * COORD_LIMIT <= dx <= 2 * COORD_LIMIT;
        assert(dy * dy <= (2 * COORD_LIMIT) * (2 * COORD_LIMIT) && dy * dy >= 0)
            by (nonlinear_arith)
            requires -2 * COORD_LIMIT <= dy <= 2 * COORD_LIMIT;
    }
    let d2: i64 = dx * dx + dy * dy;
    let l: u64 = isqrt(d2 as u64);
    if l <= SPEED as u64 {
        t
    } else {
        let ax: u64 = if dx >= 0 {
            dx as u64
        } else {
            (-dx) as u64
        };
        let ay: u64 = if dy >= 0 {
            dy as u64
        } else {
            (-dy) as u64
        };
        proof {
            lemma_sqrt_floor_bounds(d2 as int);
            let axi = ax as int;
            let ayi = ay as int;
            let dxi = dx as int;
            let dyi = dy as int;
            assert(axi * axi == dxi * dxi) by (nonlinear_arith)
                requires axi == dxi || axi == -dxi;
            assert(ayi * ayi == dyi * dyi) by (nonlinear_arith)
                requires ayi == dyi || ayi == -dyi;
            lemma_axis_within_length(axi, ayi, l as int);
        }
        let sx: u64 = step_axis_mag(ax, l);
        let sy: u64 = step_axis_mag(ay, l);
        let rx: i64 = if dx >= 0 {
            p.x + sx as i64
        } else {
            p.x - sx as i64
        };
        let ry: i64 = if dy >= 0 {
            p.y + sy as i64
        } else {
            p.y - sy as i64
        };
        Vec2 { x: rx, y: ry }
    }
}

/// The display viewport: extents in milli-pixels and the device pixel
/// scale factor in thousandths (1000 is a scale of 1.0).
#[derive(Clone, Copy, Debug, PartialEq, Eq, Structural)]
pub struct Viewport {
    pub width: i64,
    pub height: i64,
    pub scale: i64,
}

impl Viewport {
    pub open spec fn valid(self) -> bool {
        &&& 0 < self.width <= SCREEN_LIMIT
        &&& 0 < self.height <= SCREEN_LIMIT
        &&& SCALE_MIN <= self.scale <= SCALE_MAX
    }
}

/// Where a screen pixel lands in world space: screen space has its origin
/// at the top left with y growing downward, world space is centred on the
/// viewport with y growing upward, and every screen coordinate is first
/// divided by the scale factor.
pub open spec fn screen_to_world_spec(p: Vec2, vp: Viewport) -> Vec2 {
    Vec2 {
        x: (MILLI * p.x / (vp.scale as int) - (MILLI * vp.width / (vp.scale as int)) / 2) as i64,
        y: (-(MILLI * p.y / (vp.scale as int)) + (MILLI * vp.height / (vp.scale as int)) / 2)
            as i64,
    }
}

/// Map a pointer position in screen pixels to the world-space point it
/// names, as `screen_to_world_spec` describes.
pub fn screen_to_world(p: Vec2, vp: &Viewport) -> (r: Vec2)
    requires
        vp.valid(),
        0 <= p.x <= SCREEN_LIMIT,
        0 <= p.y <= SCREEN_LIMIT,
    ensures
        r == screen_to_world_spec(p, *vp),
        in_bounds(r),
{
    let px: u64 = (MILLI as u64) * (p.x as u64) / (vp.scale as u64);
    let py: u64 = (MILLI as u64) * (p.y as u64) / (vp.scale as u64);
    let half_w: u64 = (MILLI as u64) * (vp.width as u64) / (vp.scale as u64) / 2;
    let half_h: u64 = (MILLI as u64) * (vp.height as u64) / (vp.scale as u64) / 2;
    proof {
        lemma_div_is_ordered(MILLI * p.x, MILLI * SCREEN_LIMIT, vp.scale as int);
        lemma_div_is_ordered(MILLI * p.y, MILLI * SCREEN_LIMIT, vp.scale as int);
        lemma_div_is_ordered(MILLI * vp.width, MILLI * SCREEN_LIMIT, vp.scale as int);
        lemma_div_is_ordered(MILLI * vp.height, MILLI * SCREEN_LIMIT, vp.scale as int);
        lemma_div_is_ordered_by_denominator(MILLI * SCREEN_LIMIT, SCALE_MIN as int, vp.scale as int);
        lemma_div_pos_is_pos(MILLI * p.x, vp.scale as int);
        lemma_div_pos_is_pos(MILLI * p.y, vp.scale as int);
        lemma_div_pos_is_pos(MILLI * vp.width, vp.scale as int);
        lemma_div_pos_is_pos(MILLI * vp.height, vp.scale as int);
    }
    let rx: i64 = px as i64 - half_w as i64;
    let ry: i64 = -(py as i64) + half_h as i64;
    Vec2 { x: rx, y: ry }
}

/// The pointer and command state one tick reads from the input
/// collaborator: whether the move command is held, where the pointer is in
/// screen pixels (absent when it left the capture area), and the viewport.
#[derive(Clone, Copy, Debug, PartialEq, Eq, Structural)]
pub struct PointerInput {
    pub move_active: bool,
    pub pointer: Option<Vec2>,
    pub viewport: Viewport,
}

impl PointerInput {
    pub open spec fn valid(self) -> bool {
        &&& self.viewport.valid()
        &&& match self.pointer {
            Some(p) => 0 <= p.x <= SCREEN_LIMIT && 0 <= p.y <= SCREEN_LIMIT,
            None => true,
        }
    }

    /// The movement target this input names while the move command is
    /// held: the pointer's world-space point, or no target at all when the
    /// pointer is unavailable.
    pub open spec fn new_target(self) -> Option<Vec2> {
        match self.pointer {
            Some(p) => Some(screen_to_world_spec(p, self.viewport)),
            None => None,
        }
    }
}

/// Compute the movement target named by `inp`, as `new_target` describes.
pub fn compute_target(inp: &PointerInput) -> (r: Option<Vec2>)
    requires
        inp.valid(),
    ensures
        r == inp.new_target(),
        match r {
            Some(t) => in_bounds(t),
            None => true,
        },
{
    match inp.pointer {
        Some(p) => Some(screen_to_world(p, &inp.viewport)),
        None => None,
    }
}

pub open spec fn clamp_coord(c: int) -> int {
    if c < -COORD_LIMIT {
        -(COORD_LIMIT as int)
    } else if c > COORD_LIMIT {
        COORD_LIMIT as int
    } else {
        c
    }
}

/// Shift a UI-space mirror position by a displacement, saturating at the
/// coordinate range so the mirror can never leave it.
pub fn mirror_shift(ui: Vec2, dx: i64, dy: i64) -> (r: Vec2)
    requires
        in_bounds(ui),
        -2 * COORD_LIMIT <= dx <= 2 * COORD_LIMIT,
        -2 * COORD_LIMIT <= dy <= 2 * COORD_LIMIT,
    ensures
        r.x == clamp_coord(ui.x + dx),
        r.y == clamp_coord(ui.y + dy),
        in_bounds(r),
{
    let sx: i64 = ui.x + dx;
    let sy: i64 = ui.y + dy;
    let rx: i64 = if sx < -COORD_LIMIT {
        -COORD_LIMIT
    } else if sx > COORD_LIMIT {
        COORD_LIMIT
    } else {
        sx
    };
    let ry: i64 = if sy < -COORD_LIMIT {
        -COORD_LIMIT
    } else if sy > COORD_LIMIT {
        COORD_LIMIT
    } else {
        sy
    };
    Vec2 { x: rx, y: ry }
}

/// Bounded steering step: from farther away than one step, a single step
/// strictly approaches the target, never moves an axis past it, moves at
/// most `SPEED` per axis, and does move.
pub proof fn lemma_bounded_step(p: Vec2, t: Vec2)
    requires
        in_bounds(p),
        in_bounds(t),
        dist2(p, t) > SPEED * SPEED,
    ensures
        steer_spec(p, t) != p,
        dist2(steer_spec(p, t), t) < dist2(p, t),
        -SPEED <= steer_spec(p, t).x - p.x <= SPEED,
        -SPEED <= steer_spec(p, t).y - p.y <= SPEED,
        p.x <= t.x ==> p.x <= steer_spec(p, t).x <= t.x,
        t.x <= p.x ==> t.x <= steer_spec(p, t).x <= p.x,
        p.y <= t.y ==> p.y <= steer_spec(p, t).y <= t.y,
        t.y <= p.y ==> t.y <= steer_spec(p, t).y <= p.y,
{
    let dx = t.x - p.x;
    let dy = t.y - p.y;
    let ax = if dx >= 0 { dx as int } else { -dx as int };
    let ay = if dy >= 0 { dy as int } else { -dy as int };
    let d2 = dist2(p, t);
    assert(ax * ax == dx * dx) by (nonlinear_arith)
        requires ax == dx || ax == -dx;
    assert(ay * ay == dy * dy) by (nonlinear_arith)
        requires ay == dy || ay == -dy;
    assert(p != t) by {
        if p == t {
            assert(d2 == 0);
        }
    }
    lemma_sqrt_floor_bounds(d2);
    let l = sqrt_floor(d2);
    lemma_axis_within_length(ax, ay, l);
    let r = steer_spec(p, t);
    if l <= SPEED {
        // Within one step of the target: the step lands exactly on it.
        assert(r == t);
        assert(ax <= SPEED && ay <= SPEED);
        assert(dist2(t, t) == 0);
    } else {
        let sx = step_mag(ax, l);
        let sy = step_mag(ay, l);
        assert(SPEED * ax <= l * ax && SPEED * ax <= SPEED * l) by (nonlinear_arith)
            requires 0 <= ax <= l && 0 < SPEED <= l;
        assert(SPEED * ay <= l * ay && SPEED * ay <= SPEED * l) by (nonlinear_arith)
            requires 0 <= ay <= l && 0 < SPEED <= l;
        lemma_div_pos_is_pos(SPEED * ax, l);
        lemma_div_pos_is_pos(SPEED * ay, l);
        lemma_div_is_ordered(SPEED * ax, l * ax, l);
        lemma_div_is_ordered(SPEED * ay, l * ay, l);
        lemma_div_multiples_vanish(ax, l);
        lemma_div_multiples_vanish(ay, l);
        lemma_div_is_ordered(SPEED * ax, SPEED * l, l);
        lemma_div_is_ordered(SPEED * ay, SPEED * l, l);
        lemma_div_multiples_vanish(SPEED as int, l);
        assert(0 <= sx <= ax && 0 <= sy <= ay && sx <= SPEED && sy <= SPEED);
        // The longer axis moves by at least half a step, so the point moves.
        let am = if ax >= ay { ax } else { ay };
        assert(am >= 1);
        assert(l <= 2 * am) by {
            if l > 2 * am {
                assert(ax * ax + ay * ay <= 2 * (am * am)) by (nonlinear_arith)
                    requires 0 <= ax <= am && 0 <= ay <= am;
                assert((2 * am + 1) * (2 * am + 1) > 2 * (am * am)) by (nonlinear_arith)
                    requires am >= 1;
                assert(l * l >= (2 * am + 1) * (2 * am + 1)) by (nonlinear_arith)
                    requires l >= 2 * am + 1 && am >= 1;
            }
        }
        lemma_div_is_ordered_by_denominator(SPEED * am, l, 2 * am);
        assert((SPEED * am) / (2 * am) == 2500) by {
            assert(SPEED * am == (2 * am) * 2500) by (nonlinear_arith);
            lemma_div_multiples_vanish(2500, 2 * am);
        }
        assert(step_mag(am, l) >= 2500);
        // Both axes shrink in magnitude, the longer one strictly.
        let nx = ax - sx;
        let ny = ay - sy;
        assert(nx * nx <= ax * ax) by (nonlinear_arith)
            requires 0 <= nx <= ax;
        assert(ny * ny <= ay * ay) by (nonlinear_arith)
            requires 0 <= ny <= ay;
        if ax >= ay {
            assert(nx * nx < ax * ax) by (nonlinear_arith)
                requires 0 <= nx < ax;
        } else {
            assert(ny * ny < ay * ay) by (nonlinear_arith)
                requires 0 <= ny < ay;
        }
        assert(r.x - p.x == axis_step(dx as int, l) && r.y - p.y == axis_step(dy as int, l));
        let ndx = t.x - r.x;
        let ndy = t.y - r.y;
        assert(ndx == dx - axis_step(dx as int, l) && ndy == dy - axis_step(dy as int, l));
        assert(ndx * ndx == nx * nx) by (nonlinear_arith)
            requires ndx == nx || ndx == -nx;
        assert(ndy * ndy == ny * ny) by (nonlinear_arith)
            requires ndy == ny || ndy == -ny;
    }
}

/// Along a single axis, a step from farther away than one step length
/// advances by exactly `SPEED`: the "reduces the distance by exactly the
/// speed" reading of the bounded step, stated where fixed-point division
/// is exact.
pub proof fn lemma_straight_step_exact(p: Vec2, t: Vec2)
    requires
        in_bounds(p),
        in_bounds(t),
        p.y == t.y,
        t.x - p.x > SPEED,
    ensures
        steer_spec(p, t).x == p.x + SPEED,
        steer_spec(p, t).y == p.y,
{
    let d = t.x - p.x;
    assert(dist2(p, t) == d * d);
    assert(d * d > SPEED * SPEED) by (nonlinear_arith)
        requires d > SPEED > 0;
    assert(d * d < (d + 1) * (d + 1)) by (nonlinear_arith)
        requires d > 0;
    lemma_sqrt_unique(d * d, d);
    assert(sqrt_floor(dist2(p, t)) == d);
    assert(step_mag(d, d) == SPEED) by {
        assert(SPEED * d == d * SPEED);
        lemma_div_multiples_vanish(SPEED as int, d);
    }
    assert(step_mag(0, d) == 0) by {
        assert(SPEED * 0 == 0int);
        lemma_div_multiples_vanish(0, d);
        assert((d * 0) / d == 0int);
    }
}

/// Each axis of a displacement is no longer than the floor of the
/// displacement's length, because the squares already order them.
proof fn lemma_axis_within_length(ax: int, ay: int, l: int)
    requires
        ax >= 0,
        ay >= 0,
        l >= 0,
        ax * ax + ay * ay < (l + 1) * (l + 1),
    ensures
        ax <= l,
        ay <= l,
{
    if ax > l {
        assert((l + 1) * (l + 1) <= ax * ax) by (nonlinear_arith)
            requires 0 <= l && l + 1 <= ax;
        assert(ay * ay >= 0) by (nonlinear_arith);
    }
    if ay > l {
        assert((l + 1) * (l + 1) <= ay * ay) by (nonlinear_arith)
            requires 0 <= l && l + 1 <= ay;
        assert(ax * ax >= 0) by (nonlinear_arith);
    }
}

} // verus!
