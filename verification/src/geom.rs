//! Integer geometry: truncating division, how a requested window size is
//! held to the screen and to the client's size hints, and snapping.
use vstd::prelude::*;
use crate::wm::SizeHints;

verus! {

/// Whether `v` is an `i32` value.
pub open spec fn in32(v: int) -> bool {
    i32::MIN <= v <= i32::MAX
}

/// The absolute value of `a`.
pub open spec fn iabs(a: int) -> int {
    if a >= 0 { a } else { -a }
}

/// Division rounding toward zero, as Rust's `/` on integers does.
pub open spec fn tdiv(a: int, b: int) -> int {
    if (a >= 0) == (b > 0) { iabs(a) / iabs(b) } else { -(iabs(a) / iabs(b)) }
}

/// The remainder of Rust's `%`: it has the sign of `a`.
pub open spec fn trem(a: int, b: int) -> int {
    if a >= 0 { a % iabs(b) } else { -((-a) % iabs(b)) }
}

/// `a / b`, rounding toward zero, for a positive `b`.
pub fn div_t(a: i32, b: i32) -> (q: i32)
    requires
        b > 0,
    ensures
        q == tdiv(a as int, b as int),
{
    a / b
}

/// `a % b`, with the sign of `a`.
pub fn rem_t(a: i64, b: i64) -> (r: i64)
    requires
        b != 0,
        -0x1_0000_0000_0000 <= a <= 0x1_0000_0000_0000,
        -0x1_0000_0000_0000 <= b <= 0x1_0000_0000_0000,
    ensures
        r == trem(a as int, b as int),
        iabs(r as int) < iabs(b as int),
        iabs(r as int) <= iabs(a as int),
        a >= 0 ==> r >= 0,
        a < 0 ==> r <= 0,
{
    let aa: i64 = if a >= 0 { a } else { -a };
    let bb: i64 = if b >= 0 { b } else { -b };
    let m = aa % bb;
    proof {
        vstd::arithmetic::div_mod::lemma_mod_pos_bound(aa as int, bb as int);
        vstd::arithmetic::div_mod::lemma_mod_decreases(aa as nat, bb as nat);
    }
    if a >= 0 { m } else { -m }
}

/// Bound on the coordinates and sizes handled here: far beyond what an X
/// server (16-bit coordinates) produces, small enough that no sum or
/// difference of a few of them leaves `i32`.
pub const COORD_MAX: i32 = 0x1000_0000;

/// Whether `v` is within `COORD_MAX` of zero.
pub open spec fn coord(v: int) -> bool {
    -COORD_MAX <= v <= COORD_MAX
}

/// A window geometry.
#[derive(Clone, Copy, PartialEq, Eq, Structural, Debug)]
pub struct Geom {
    pub x: i32,
    pub y: i32,
    pub w: i32,
    pub h: i32,
}

/// Whether every field of `g` is a valid coordinate.
pub open spec fn geom_ok(g: Geom) -> bool {
    coord(g.x as int) && coord(g.y as int) && coord(g.w as int) && coord(g.h as int)
}

/// Where a requested geometry may go: the screen size, the window area of
/// the client's monitor, and the bar height (the smallest size allowed).
#[derive(Clone, Copy)]
pub struct Bounds {
    pub sw: i32,
    pub sh: i32,
    pub wx: i32,
    pub wy: i32,
    pub ww: i32,
    pub wh: i32,
    pub bh: i32,
}

/// Whether every field of `b` is a valid coordinate.
pub open spec fn bounds_ok(b: Bounds) -> bool {
    coord(b.sw as int) && coord(b.sh as int) && coord(b.wx as int) && coord(b.wy as int)
        && coord(b.ww as int) && coord(b.wh as int) && coord(b.bh as int)
}

/// The larger of two integers.
pub open spec fn imax(a: int, b: int) -> int {
    if a > b { a } else { b }
}

/// The smaller of two integers.
pub open spec fn imin(a: int, b: int) -> int {
    if a < b { a } else { b }
}

/// A requested geometry `r` held to the screen (when the user moves or
/// resizes the window interactively) or to the monitor's window area
/// (otherwise), for a client now `cw` by `ch` with border `bw`: sizes are
/// at least 1; a window entirely past the right or bottom edge is pulled
/// back so that it ends there; one entirely before the left or top edge
/// starts there (on the screen: at 0); sizes below the bar height become
/// the bar height.
pub open spec fn constrained(r: Geom, cw: int, ch: int, bw: int, interact: bool, b: Bounds) -> Geom {
    let w = imax(1, r.w as int);
    let h = imax(1, r.h as int);
    let width = cw + 2 * bw;
    let height = ch + 2 * bw;
    let (x, y) = if interact {
        let x1 = if r.x > b.sw { b.sw - width } else { r.x as int };
        let y1 = if r.y > b.sh { b.sh - height } else { r.y as int };
        (if x1 + w + 2 * bw < 0 { 0 } else { x1 }, if y1 + h + 2 * bw < 0 { 0 } else { y1 })
    } else {
        let x1 = if r.x >= b.wx + b.ww { b.wx + b.ww - width } else { r.x as int };
        let y1 = if r.y >= b.wy + b.wh { b.wy + b.wh - height } else { r.y as int };
        (if x1 + w + 2 * bw <= b.wx { b.wx as int } else { x1 }, if y1 + h + 2 * bw <= b.wy { b.wy as int } else { y1 })
    };
    Geom {
        x: x as i32,
        y: y as i32,
        w: (if w < b.bh { b.bh as int } else { w }) as i32,
        h: (if h < b.bh { b.bh as int } else { h }) as i32,
    }
}

/// Whether holding `r` to its bounds (see `constrained`) computes within
/// `i32`, step by step as the sums and differences are formed.
pub open spec fn constrain_fits(r: Geom, cw: int, ch: int, bw: int, interact: bool, b: Bounds) -> bool {
    let w = imax(1, r.w as int);
    let h = imax(1, r.h as int);
    let bw2 = 2 * bw;
    let width = cw + bw2;
    let height = ch + bw2;
    &&& in32(bw2)
    &&& if interact {
        let x1 = if r.x > b.sw { b.sw - width } else { r.x as int };
        let y1 = if r.y > b.sh { b.sh - height } else { r.y as int };
        &&& r.x > b.sw ==> in32(width) && in32(b.sw - width)
        &&& r.y > b.sh ==> in32(height) && in32(b.sh - height)
        &&& in32(x1 + w) && in32(x1 + w + bw2)
        &&& in32(y1 + h) && in32(y1 + h + bw2)
    } else {
        let x1 = if r.x >= b.wx + b.ww { b.wx + b.ww - width } else { r.x as int };
        let y1 = if r.y >= b.wy + b.wh { b.wy + b.wh - height } else { r.y as int };
        &&& in32(b.wx + b.ww) && in32(b.wy + b.wh)
        &&& r.x >= b.wx + b.ww ==> in32(width) && in32(b.wx + b.ww - width)
        &&& r.y >= b.wy + b.wh ==> in32(height) && in32(b.wy + b.wh - height)
        &&& in32(x1 + w) && in32(x1 + w + bw2)
        &&& in32(y1 + h) && in32(y1 + h + bw2)
    }
}

/// Computes `constrained`; `None` when a step leaves `i32` (see `constrain_fits`).
pub fn constrain(r: Geom, cw: i32, ch: i32, bw: i32, interact: bool, b: Bounds) -> (g: Option<Geom>)
    ensures
        constrain_fits(r, cw as int, ch as int, bw as int, interact, b) <==> g is Some,
        g matches Some(g) ==> g == constrained(r, cw as int, ch as int, bw as int, interact, b) && g.w >= 1
            && g.h >= 1 && g.w >= b.bh && g.h >= b.bh,
{
    let w: i64 = if r.w > 1 { r.w as i64 } else { 1 };
    let h: i64 = if r.h > 1 { r.h as i64 } else { 1 };
    let bw2: i64 = 2 * bw as i64;
    let width: i64 = cw as i64 + bw2;
    let height: i64 = ch as i64 + bw2;
    let mut x: i64 = r.x as i64;
    let mut y: i64 = r.y as i64;
    let mut ok: bool = fits32(bw2);
    if interact {
        if x > b.sw as i64 {
            ok = ok && fits32(width) && fits32(b.sw as i64 - width);
            x = b.sw as i64 - width;
        }
        if y > b.sh as i64 {
            ok = ok && fits32(height) && fits32(b.sh as i64 - height);
            y = b.sh as i64 - height;
        }
        ok = ok && fits32(x + w) && fits32(x + w + bw2) && fits32(y + h) && fits32(y + h + bw2);
        if x + w + bw2 < 0 {
            x = 0;
        }
        if y + h + bw2 < 0 {
            y = 0;
        }
    } else {
        let right: i64 = b.wx as i64 + b.ww as i64;
        let bottom: i64 = b.wy as i64 + b.wh as i64;
        ok = ok && fits32(right) && fits32(bottom);
        if x >= right {
            ok = ok && fits32(width) && fits32(right - width);
            x = right - width;
        }
        if y >= bottom {
            ok = ok && fits32(height) && fits32(bottom - height);
            y = bottom - height;
        }
        ok = ok && fits32(x + w) && fits32(x + w + bw2) && fits32(y + h) && fits32(y + h + bw2);
        if x + w + bw2 <= b.wx as i64 {
            x = b.wx as i64;
        }
        if y + h + bw2 <= b.wy as i64 {
            y = b.wy as i64;
        }
    }
    if !ok {
        return None;
    }
    let h2 = if h < b.bh as i64 { b.bh as i64 } else { h };
    let w2 = if w < b.bh as i64 { b.bh as i64 } else { w };
    Some(Geom { x: x as i32, y: y as i32, w: w2 as i32, h: h2 as i32 })
}

/// Whether `v` is an `i32` value.
pub fn fits32(v: i64) -> (r: bool)
    ensures
        r == in32(v as int),
{
    i32::MIN as i64 <= v && v <= i32::MAX as i64
}

/// Whether the base size doubles as the minimum size (ICCCM 4.1.2.3).
pub open spec fn base_is_min(s: SizeHints) -> bool {
    s.basew == s.minw && s.baseh == s.minh
}

/// The first step of applying size hints to a size: the base size is taken
/// off, unless it doubles as the minimum size. (The aspect limits are
/// applied next, then `hinted_size`.)
pub open spec fn base_removed(w: int, h: int, s: SizeHints) -> (int, int) {
    if base_is_min(s) { (w, h) } else { (w - s.basew, h - s.baseh) }
}

/// Computes `base_removed`; `None` when the result leaves `i32`.
pub fn remove_base(w: i32, h: i32, s: SizeHints) -> (r: Option<(i32, i32)>)
    ensures
        ({
            let (w1, h1) = base_removed(w as int, h as int, s);
            &&& r is Some <==> (in32(w1) && in32(h1))
            &&& r matches Some(v) ==> v.0 as int == w1 && v.1 as int == h1
        }),
{
    if s.basew == s.minw && s.baseh == s.minh {
        Some((w, h))
    } else {
        let w1 = w as i64 - s.basew as i64;
        let h1 = h as i64 - s.baseh as i64;
        if fits32(w1) && fits32(h1) {
            Some((w1 as i32, h1 as i32))
        } else {
            None
        }
    }
}

/// The size after the second base step of `hinted_size`.
pub open spec fn base_stripped(w: int, h: int, s: SizeHints) -> (int, int) {
    if base_is_min(s) { (w - s.basew, h - s.baseh) } else { (w, h) }
}

/// The last step of applying size hints to a size `(w, h)` that went through
/// `base_removed` and the aspect limits: the base size is taken off now if
/// it doubles as the minimum, the size is rounded toward zero to a whole
/// number of increments, the base size is put back, and the result is held
/// between the minimum and (when given) the maximum size.
pub open spec fn hinted_size(w: int, h: int, s: SizeHints) -> (int, int) {
    let (w1, h1) = base_stripped(w, h, s);
    let w2 = if s.incw != 0 { w1 - trem(w1, s.incw as int) } else { w1 };
    let h2 = if s.inch != 0 { h1 - trem(h1, s.inch as int) } else { h1 };
    let w3 = imax(w2 + s.basew, s.minw as int);
    let h3 = imax(h2 + s.baseh, s.minh as int);
    (if s.maxw != 0 { imin(w3, s.maxw as int) } else { w3 }, if s.maxh != 0 { imin(h3, s.maxh as int) } else { h3 })
}

/// Whether `hinted_size` computes within `i32`, step by step.
pub open spec fn hinted_fits(w: int, h: int, s: SizeHints) -> bool {
    let (w1, h1) = base_stripped(w, h, s);
    let w2 = if s.incw != 0 { w1 - trem(w1, s.incw as int) } else { w1 };
    let h2 = if s.inch != 0 { h1 - trem(h1, s.inch as int) } else { h1 };
    &&& in32(w1) && in32(h1)
    &&& !(s.incw == -1 && w1 == i32::MIN)
    &&& !(s.inch == -1 && h1 == i32::MIN)
    &&& in32(w2 + s.basew) && in32(h2 + s.baseh)
}

/// Computes `hinted_size`; `None` when a step leaves `i32` (see `hinted_fits`).
pub fn apply_hints(w: i32, h: i32, s: SizeHints) -> (r: Option<(i32, i32)>)
    ensures
        r is Some <==> hinted_fits(w as int, h as int, s),
        r matches Some(v) ==> (v.0 as int, v.1 as int) == hinted_size(w as int, h as int, s),
{
    let mut w1: i64 = w as i64;
    let mut h1: i64 = h as i64;
    if s.basew == s.minw && s.baseh == s.minh {
        w1 = w1 - s.basew as i64;
        h1 = h1 - s.baseh as i64;
    }
    if !(fits32(w1) && fits32(h1)) {
        return None;
    }
    if (s.incw == -1 && w1 == i32::MIN as i64) || (s.inch == -1 && h1 == i32::MIN as i64) {
        return None;
    }
    let w2: i64 = if s.incw != 0 { w1 - rem_t(w1, s.incw as i64) } else { w1 };
    let h2: i64 = if s.inch != 0 { h1 - rem_t(h1, s.inch as i64) } else { h1 };
    if !(fits32(w2 + s.basew as i64) && fits32(h2 + s.baseh as i64)) {
        return None;
    }
    let w3: i64 = if w2 + s.basew as i64 > s.minw as i64 { w2 + s.basew as i64 } else { s.minw as i64 };
    let h3: i64 = if h2 + s.baseh as i64 > s.minh as i64 { h2 + s.baseh as i64 } else { s.minh as i64 };
    let w4: i64 = if s.maxw != 0 && (s.maxw as i64) < w3 { s.maxw as i64 } else { w3 };
    let h4: i64 = if s.maxh != 0 && (s.maxh as i64) < h3 { s.maxh as i64 } else { h3 };
    Some((w4 as i32, h4 as i32))
}

/// A size that went through all of the hints respects them: it is at least
/// the minimum size and at most the maximum size (when given and not below
/// the minimum), and past the base size it is a whole number of increments
/// unless the minimum or maximum size cut in.
pub proof fn lemma_hinted_size_respects(w: int, h: int, s: SizeHints)
    requires
        s.incw > 0,
        s.inch > 0,
    ensures
        ({
            let (w2, h2) = hinted_size(w, h, s);
            &&& s.maxw != 0 && s.maxw >= s.minw ==> s.minw <= w2 <= s.maxw
            &&& s.maxw == 0 ==> w2 >= s.minw
            &&& s.maxh != 0 && s.maxh >= s.minh ==> s.minh <= h2 <= s.maxh
            &&& s.maxh == 0 ==> h2 >= s.minh
            &&& (w2 > s.minw && (s.maxw == 0 || w2 < s.maxw)) ==> trem(w2 - s.basew, s.incw as int) == 0
            &&& (h2 > s.minh && (s.maxh == 0 || h2 < s.maxh)) ==> trem(h2 - s.baseh, s.inch as int) == 0
        }),
{
    let (w1, h1) = if base_is_min(s) { (w - s.basew, h - s.baseh) } else { (w, h) };
    lemma_round_to_increment(w1, s.incw as int);
    lemma_round_to_increment(h1, s.inch as int);
}

/// Taking away the remainder leaves a multiple of the increment.
pub proof fn lemma_round_to_increment(a: int, inc: int)
    requires
        inc > 0,
    ensures
        trem(a - trem(a, inc), inc) == 0,
{
    if a >= 0 {
        vstd::arithmetic::div_mod::lemma_fundamental_div_mod(a, inc);
        vstd::arithmetic::div_mod::lemma_mod_pos_bound(a, inc);
        let q = a / inc;
        assert(a - trem(a, inc) == inc * q);
        assert(q >= 0) by (nonlinear_arith)
            requires
                a == inc * q + a % inc,
                0 <= a % inc < inc,
                a >= 0,
                inc > 0,
        ;
        assert(inc * q >= 0) by (nonlinear_arith)
            requires
                inc > 0,
                q >= 0,
        ;
        vstd::arithmetic::div_mod::lemma_mod_multiples_basic(q, inc);
        assert((q * inc) % inc == 0);
        assert(q * inc == inc * q) by (nonlinear_arith);
    } else {
        vstd::arithmetic::div_mod::lemma_fundamental_div_mod(-a, inc);
        vstd::arithmetic::div_mod::lemma_mod_pos_bound(-a, inc);
        let q = (-a) / inc;
        assert(a - trem(a, inc) == -(inc * q));
        assert(q >= 0) by (nonlinear_arith)
            requires
                -a == inc * q + (-a) % inc,
                0 <= (-a) % inc < inc,
                -a > 0,
                inc > 0,
        ;
        assert(inc * q >= 0) by (nonlinear_arith)
            requires
                inc > 0,
                q >= 0,
        ;
        vstd::arithmetic::div_mod::lemma_mod_multiples_basic(q, inc);
        assert(q * inc == inc * q) by (nonlinear_arith);
        let m = inc * q;
        if q == 0 {
            assert(m == 0) by (nonlinear_arith)
                requires
                    m == inc * q,
                    q == 0,
            ;
            assert(a - trem(a, inc) == 0);
        } else {
            assert(m > 0) by (nonlinear_arith)
                requires
                    m == inc * q,
                    q > 0,
                    inc > 0,
            ;
            assert(trem(-m, inc) == -(m % inc));
        }
    }
}

/// Flags of WM_NORMAL_HINTS: which fields a window gives.
pub const P_MIN_SIZE: i64 = 16;
pub const P_MAX_SIZE: i64 = 32;
pub const P_RESIZE_INC: i64 = 64;
pub const P_BASE_SIZE: i64 = 256;

/// The size fields of a window's WM_NORMAL_HINTS (its aspect limits are
/// read by the caller).
#[derive(Clone, Copy)]
pub struct NormalHints {
    pub flags: i64,
    pub base_width: i32,
    pub base_height: i32,
    pub min_width: i32,
    pub min_height: i32,
    pub max_width: i32,
    pub max_height: i32,
    pub width_inc: i32,
    pub height_inc: i32,
}

/// The size hints a window gives (none when it has no WM_NORMAL_HINTS):
/// the base size, or else the minimum size; the increments; the maximum
/// size; the minimum size, or else the base size; a field not given is 0.
pub open spec fn hints_of(n: Option<NormalHints>) -> SizeHints {
    match n {
        None => SizeHints { basew: 0, baseh: 0, incw: 0, inch: 0, maxw: 0, maxh: 0, minw: 0, minh: 0 },
        Some(h) => {
            let base = h.flags & P_BASE_SIZE != 0;
            let min = h.flags & P_MIN_SIZE != 0;
            let inc = h.flags & P_RESIZE_INC != 0;
            let max = h.flags & P_MAX_SIZE != 0;
            SizeHints {
                basew: if base { h.base_width } else if min { h.min_width } else { 0 },
                baseh: if base { h.base_height } else if min { h.min_height } else { 0 },
                incw: if inc { h.width_inc } else { 0 },
                inch: if inc { h.height_inc } else { 0 },
                maxw: if max { h.max_width } else { 0 },
                maxh: if max { h.max_height } else { 0 },
                minw: if min { h.min_width } else if base { h.base_width } else { 0 },
                minh: if min { h.min_height } else if base { h.base_height } else { 0 },
            }
        },
    }
}

/// The size hints a window gives; see `hints_of`.
pub fn size_hints(n: Option<NormalHints>) -> (r: SizeHints)
    ensures
        r == hints_of(n),
{
    match n {
        None => SizeHints { basew: 0, baseh: 0, incw: 0, inch: 0, maxw: 0, maxh: 0, minw: 0, minh: 0 },
        Some(h) => {
            let base = h.flags & P_BASE_SIZE != 0;
            let min = h.flags & P_MIN_SIZE != 0;
            let inc = h.flags & P_RESIZE_INC != 0;
            let max = h.flags & P_MAX_SIZE != 0;
            SizeHints {
                basew: if base { h.base_width } else if min { h.min_width } else { 0 },
                baseh: if base { h.base_height } else if min { h.min_height } else { 0 },
                incw: if inc { h.width_inc } else { 0 },
                inch: if inc { h.height_inc } else { 0 },
                maxw: if max { h.max_width } else { 0 },
                maxh: if max { h.max_height } else { 0 },
                minw: if min { h.min_width } else if base { h.base_width } else { 0 },
                minh: if min { h.min_height } else if base { h.base_height } else { 0 },
            }
        },
    }
}

} // verus!
