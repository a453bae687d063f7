//! Moving and resizing the selected client with the mouse: snapping to the
//! edges of the monitor, when a tiled client comes loose, and which monitor
//! a client belongs to once dropped.
use vstd::prelude::*;
use crate::wm::{Wm, Monitor, FocusChange};
use crate::config::{arranges, FLOATING_LAYOUT, REFRESH_RATE};
use crate::geom::{iabs, imax, imin};
use crate::seqs::lemma_push_front_then_remove;
use crate::tags::current;
use crate::manage::x_coord;

verus! {

/// Whether a pointer motion at `time` comes too soon after the one handled
/// at `last` to be handled (motions are handled at most `REFRESH_RATE`
/// times a second).
pub open spec fn too_soon(time: u64, last: u64) -> bool {
    time - last <= 1000int / (REFRESH_RATE as int)
}

/// Whether a pointer motion at `time` comes too soon; see `too_soon`.
pub fn motion_too_soon(time: u64, last: u64) -> (r: bool)
    requires
        last <= time,
    ensures
        r == too_soon(time, last),
{
    time - last <= 1000 / (REFRESH_RATE as u64)
}

/// Whether `v` is a coordinate on a screen (X coordinates are 16-bit signed).
pub open spec fn screen_coord(v: int) -> bool {
    -0x8000 <= v <= 0x8000
}

/// Tests `screen_coord`.
pub fn is_screen_coord(v: i32) -> (r: bool)
    ensures
        r == screen_coord(v as int),
{
    -0x8000 <= v && v <= 0x8000
}

/// Tests `mons_on_screen` on the monitors of `mons`.
pub fn all_mons_on_screen(mons: &Vec<Monitor>) -> (r: bool)
    ensures
        r == mons_on_screen(mons@),
{
    let mut k: usize = 0;
    while k < mons.len()
        invariant
            k <= mons@.len(),
            forall|j: int| 0 <= j < k ==> {
                &&& screen_coord(#[trigger] mons@[j].wx as int)
                &&& screen_coord(mons@[j].wy as int)
                &&& 0 <= mons@[j].ww <= 0x8000
                &&& 0 <= mons@[j].wh <= 0x8000
            },
        decreases mons@.len() - k,
    {
        let m = &mons[k];
        if !(is_screen_coord(m.wx) && is_screen_coord(m.wy) && 0 <= m.ww && m.ww <= 0x8000 && 0 <= m.wh && m.wh <= 0x8000) {
            assert(!screen_coord(mons@[k as int].wx as int) || !screen_coord(mons@[k as int].wy as int)
                || !(0 <= mons@[k as int].ww <= 0x8000) || !(0 <= mons@[k as int].wh <= 0x8000));
            return false;
        }
        assert forall|j: int| 0 <= j < k + 1 implies {
                &&& screen_coord(#[trigger] mons@[j].wx as int)
                &&& screen_coord(mons@[j].wy as int)
                &&& 0 <= mons@[j].ww <= 0x8000
                &&& 0 <= mons@[j].wh <= 0x8000
            } by {
            if j < k {
                assert(screen_coord(mons@[j].wx as int));
            }
        }
        k = k + 1;
    }
    true
}

/// Whether the window area of every monitor lies on the screen.
pub open spec fn mons_on_screen(mons: Seq<Monitor>) -> bool {
    forall|k: int| 0 <= k < mons.len() ==> {
        &&& screen_coord(#[trigger] mons[k].wx as int)
        &&& screen_coord(mons[k].wy as int)
        &&& 0 <= mons[k].ww <= 0x8000
        &&& 0 <= mons[k].wh <= 0x8000
    }
}

/// How much of `[lo1, hi1)` lies in `[lo2, hi2)`.
pub open spec fn overlap(lo1: int, hi1: int, lo2: int, hi2: int) -> int {
    imax(0, imin(hi1, hi2) - imax(lo1, lo2))
}

/// How much of the rectangle `(x, y, w, h)` lies in the window area of `m`.
pub open spec fn area_on(m: Monitor, x: int, y: int, w: int, h: int) -> int {
    overlap(x, x + w, m.wx as int, m.wx + m.ww) * overlap(y, y + h, m.wy as int, m.wy + m.wh)
}

/// Going through the monitors from `k` on with the best so far `r`
/// (covering `area`): the first monitor that covers the most of the
/// rectangle, more than `area`, or else `r`.
pub open spec fn best_mon_from(mons: Seq<Monitor>, k: int, r: usize, area: int, x: int, y: int, w: int, h: int) -> usize
    decreases mons.len() - k,
{
    if k < 0 || k >= mons.len() {
        r
    } else {
        let a = area_on(mons[k], x, y, w, h);
        if a > area {
            best_mon_from(mons, k + 1, k as usize, a, x, y, w, h)
        } else {
            best_mon_from(mons, k + 1, r, area, x, y, w, h)
        }
    }
}

/// The monitor a rectangle belongs to: the first one whose window area
/// covers the most of it, or the selected monitor when none covers any.
pub open spec fn rect_mon(w: Wm, x: int, y: int, wd: int, ht: int) -> usize {
    best_mon_from(w.mons@, 0, w.selmon, 0, x, y, wd, ht)
}

/// A coordinate `n` along one axis of a window of outer size `size`, on a
/// monitor whose window area spans `len` from `lo`: within `snap` of the
/// start it moves to the start; otherwise, with its far side within `snap`
/// of the end, it moves so that its far side is at the end.
pub open spec fn snap_axis(n: int, lo: int, len: int, size: int, snap: int) -> int {
    if iabs(lo - n) < snap {
        lo
    } else if iabs((lo + len) - (n + size)) < snap {
        lo + len - size
    } else {
        n
    }
}

/// Computes `snap_axis`.
fn snap_to(n: i32, lo: i32, len: i32, size: i32, snap: i32) -> (r: i32)
    requires
        x_coord(n as int) || (-0x3_0000 <= n <= 0x3_0000),
        screen_coord(lo as int),
        0 <= len <= 0x8000,
        x_coord(size as int) || (-0x3_0000 <= size <= 0x3_0000),
        0 <= snap <= 0x1_0000,
    ensures
        r == snap_axis(n as int, lo as int, len as int, size as int, snap as int),
{
    let d1 = lo - n;
    let a1 = if d1 < 0 { -d1 } else { d1 };
    if a1 < snap {
        return lo;
    }
    let d2 = (lo + len) - (n + size);
    let a2 = if d2 < 0 { -d2 } else { d2 };
    if a2 < snap {
        lo + len - size
    } else {
        n
    }
}

/// What one motion of the pointer does while a client is moved.
pub struct MoveStep {
    /// Whether the client came loose from the tiling (and now floats).
    pub loosened: bool,
    /// The position the client is moved to, when it is moved.
    pub target: Option<(i32, i32)>,
}

/// What one motion of the pointer does while a client is resized.
pub struct ResizeStep {
    /// Whether the client came loose from the tiling (and now floats).
    pub loosened: bool,
    /// The geometry the client is resized to, when it is resized.
    pub target: Option<(i32, i32, i32, i32)>,
}

impl Wm {
    /// Whether the selected client can be moved or resized with the mouse:
    /// there is one, and it is not fullscreen.
    pub open spec fn grabbable(self) -> bool {
        self.mons@[self.selmon as int].sel matches Some(s) && !self.clients@[s as int].isfullscreen
    }

    /// Whether the layout of the selected monitor arranges clients.
    pub open spec fn sel_arranges(self) -> bool {
        let m = self.mons@[self.selmon as int];
        arranges(m.lt[m.sellt as int])
    }

    /// Whether the selected client is small enough to move around: its
    /// geometry and border are X coordinates.
    pub open spec fn sel_small(self) -> bool {
        let c = self.clients@[self.mons@[self.selmon as int].sel->0 as int];
        x_coord(c.x as int) && x_coord(c.y as int) && x_coord(c.w as int) && x_coord(c.h as int)
            && 0 <= c.bw <= 0x4000
    }

    /// The position the selected client is dragged to: started at
    /// `(ocx, ocy)` with the pointer at `(x0, y0)`, the pointer now at
    /// `(px, py)`, snapped to the edges of the selected monitor's window area.
    pub open spec fn drag_target(self, ocx: int, ocy: int, x0: int, y0: int, px: int, py: int, snap: int) -> (int, int) {
        let m = self.mons@[self.selmon as int];
        let c = self.clients@[m.sel->0 as int];
        (
            snap_axis(ocx + (px - x0), m.wx as int, m.ww as int, c.w + 2 * c.bw, snap),
            snap_axis(ocy + (py - y0), m.wy as int, m.wh as int, c.h + 2 * c.bw, snap),
        )
    }

    /// One pointer motion while the selected client is moved (started at
    /// `(ocx, ocy)` with the pointer at `(x0, y0)`, the pointer now at
    /// `(px, py)`): the target is `drag_target`; a tiled client under an
    /// arranging layout comes loose (toggles to floating) once the target is
    /// more than `snap` away from where it is; the client moves to the target
    /// when it floats or the layout arranges nothing.
    pub fn move_step(&mut self, ocx: i32, ocy: i32, x0: i32, y0: i32, px: i32, py: i32, snap: i32) -> (r: MoveStep)
        requires
            old(self).wf(),
            old(self).grabbable(),
            old(self).sel_small(),
            mons_on_screen(old(self).mons@),
            screen_coord(ocx as int) && screen_coord(ocy as int),
            screen_coord(x0 as int) && screen_coord(y0 as int),
            screen_coord(px as int) && screen_coord(py as int),
            0 <= snap <= 0x1_0000,
        ensures
            final(self).wf(),
            final(self).mons == old(self).mons,
            final(self).selmon == old(self).selmon,
            ({
                let s = old(self).mons@[old(self).selmon as int].sel->0;
                let c = old(self).clients@[s as int];
                let (nx, ny) = old(self).drag_target(ocx as int, ocy as int, x0 as int, y0 as int, px as int, py as int, snap as int);
                let loosen = !c.isfloating && old(self).sel_arranges() && (iabs(nx - c.x) > snap || iabs(ny - c.y) > snap);
                let floats = if loosen { !c.isfloating || c.isfixed } else { c.isfloating };
                &&& r.loosened == loosen
                &&& final(self).clients@ == if loosen {
                    old(self).clients@.update(s as int, crate::wm::Client { isfloating: floats, ..c })
                } else {
                    old(self).clients@
                }
                &&& r.target == if !old(self).sel_arranges() || floats { Some((nx as i32, ny as i32)) } else { None }
            }),
    {
        proof {
            assert(self.mon_ok(self.selmon as int));
            assert(screen_coord(self.mons@[self.selmon as int].wx as int));
        }
        let s = match self.mons[self.selmon].sel {
            Some(s) => s,
            None => { return MoveStep { loosened: false, target: None }; },
        };
        let sm = self.selmon;
        let c = self.clients[s];
        let nx = snap_to(ocx + (px - x0), self.mons[sm].wx, self.mons[sm].ww, c.w + 2 * c.bw, snap);
        let ny = snap_to(ocy + (py - y0), self.mons[sm].wy, self.mons[sm].wh, c.h + 2 * c.bw, snap);
        let lt = self.mons[sm].lt[self.mons[sm].sellt];
        let arr = lt != FLOATING_LAYOUT;
        let dx = nx - c.x;
        let dy = ny - c.y;
        let far = (if dx < 0 { -dx } else { dx }) > snap || (if dy < 0 { -dy } else { dy }) > snap;
        let loosen = !c.isfloating && arr && far;
        if loosen {
            self.togglefloating();
        }
        let floats = self.clients[s].isfloating;
        let target = if !arr || floats { Some((nx, ny)) } else { None };
        MoveStep { loosened: loosen, target }
    }

    /// The size the selected client is dragged to: its top-left corner
    /// stays at `(ocx, ocy)` and its bottom-right corner follows the pointer
    /// at `(px, py)`; at least 1 by 1.
    pub open spec fn drag_size(self, ocx: int, ocy: int, px: int, py: int) -> (int, int) {
        let c = self.clients@[self.mons@[self.selmon as int].sel->0 as int];
        (imax(1, px - ocx - 2 * c.bw + 1), imax(1, py - ocy - 2 * c.bw + 1))
    }

    /// One pointer motion while the selected client is resized (its corner
    /// at `(ocx, ocy)`, the pointer now at `(px, py)`): the size is
    /// `drag_size`; a tiled client under an arranging layout comes loose
    /// (toggles to floating) once the new size, placed at the window area of
    /// its own monitor, stays within the selected monitor's and differs by
    /// more than `snap` from its size; the client is resized, at its place,
    /// when it floats or the layout arranges nothing.
    pub fn resize_step(&mut self, ocx: i32, ocy: i32, px: i32, py: i32, snap: i32) -> (r: ResizeStep)
        requires
            old(self).wf(),
            old(self).grabbable(),
            old(self).sel_small(),
            mons_on_screen(old(self).mons@),
            screen_coord(ocx as int) && screen_coord(ocy as int),
            screen_coord(px as int) && screen_coord(py as int),
            0 <= snap <= 0x1_0000,
        ensures
            final(self).wf(),
            final(self).mons == old(self).mons,
            final(self).selmon == old(self).selmon,
            ({
                let s = old(self).mons@[old(self).selmon as int].sel->0;
                let c = old(self).clients@[s as int];
                let (nw, nh) = old(self).drag_size(ocx as int, ocy as int, px as int, py as int);
                let cm = old(self).mons@[c.mon as int];
                let sm = old(self).mons@[old(self).selmon as int];
                let inside = cm.wx + nw >= sm.wx && cm.wx + nw <= sm.wx + sm.ww && cm.wy + nh >= sm.wy
                    && cm.wy + nh <= sm.wy + sm.wh;
                let loosen = inside && !c.isfloating && old(self).sel_arranges()
                    && (iabs(nw - c.w) > snap || iabs(nh - c.h) > snap);
                let floats = if loosen { !c.isfloating || c.isfixed } else { c.isfloating };
                &&& r.loosened == loosen
                &&& final(self).clients@ == if loosen {
                    old(self).clients@.update(s as int, crate::wm::Client { isfloating: floats, ..c })
                } else {
                    old(self).clients@
                }
                &&& r.target == if !old(self).sel_arranges() || floats {
                    Some((c.x, c.y, nw as i32, nh as i32))
                } else {
                    None
                }
            }),
    {
        proof {
            assert(self.mon_ok(self.selmon as int));
            assert(screen_coord(self.mons@[self.selmon as int].wx as int));
        }
        let s = match self.mons[self.selmon].sel {
            Some(s) => s,
            None => { return ResizeStep { loosened: false, target: None }; },
        };
        let sm = self.selmon;
        let c = self.clients[s];
        proof {
            assert(self.mons@[sm as int].clients@.contains(s));
            assert(c.mon < self.mons@.len());
            assert(screen_coord(self.mons@[c.mon as int].wx as int));
        }
        let w1 = px - ocx - 2 * c.bw + 1;
        let h1 = py - ocy - 2 * c.bw + 1;
        let nw = if w1 > 1 { w1 } else { 1 };
        let nh = if h1 > 1 { h1 } else { 1 };
        let cm = &self.mons[c.mon];
        let smon = &self.mons[sm];
        let inside = cm.wx + nw >= smon.wx && cm.wx + nw <= smon.wx + smon.ww && cm.wy + nh >= smon.wy
            && cm.wy + nh <= smon.wy + smon.wh;
        let lt = smon.lt[smon.sellt];
        let arr = lt != FLOATING_LAYOUT;
        let dw = nw - c.w;
        let dh = nh - c.h;
        let far = (if dw < 0 { -dw } else { dw }) > snap || (if dh < 0 { -dh } else { dh }) > snap;
        let loosen = inside && !c.isfloating && arr && far;
        if loosen {
            self.togglefloating();
        }
        let floats = self.clients[s].isfloating;
        let target = if !arr || floats { Some((c.x, c.y, nw, nh)) } else { None };
        ResizeStep { loosened: loosen, target }
    }

    /// The monitor a rectangle belongs to; see `rect_mon`.
    pub fn recttomon(&self, x: i32, y: i32, w: i32, h: i32) -> (r: usize)
        requires
            self.wf(),
            mons_on_screen(self.mons@),
            screen_coord(x as int) && screen_coord(y as int),
            x_coord(w as int) && x_coord(h as int),
        ensures
            r == rect_mon(*self, x as int, y as int, w as int, h as int),
            r < self.mons@.len(),
    {
        let mut r = self.selmon;
        let mut area: i32 = 0;
        let mut k: usize = 0;
        while k < self.mons.len()
            invariant
                self.wf(),
                mons_on_screen(self.mons@),
                screen_coord(x as int) && screen_coord(y as int),
                x_coord(w as int) && x_coord(h as int),
                k <= self.mons@.len(),
                r < self.mons@.len(),
                0 <= area,
                rect_mon(*self, x as int, y as int, w as int, h as int) == best_mon_from(self.mons@, k as int, r,
                    area as int, x as int, y as int, w as int, h as int),
            decreases self.mons@.len() - k,
        {
            let m = &self.mons[k];
            proof {
                assert(screen_coord(self.mons@[k as int].wx as int));
            }
            let hi_x = if x + w < m.wx + m.ww { x + w } else { m.wx + m.ww };
            let lo_x = if x > m.wx { x } else { m.wx };
            let hi_y = if y + h < m.wy + m.wh { y + h } else { m.wy + m.wh };
            let lo_y = if y > m.wy { y } else { m.wy };
            let ox = if hi_x - lo_x > 0 { hi_x - lo_x } else { 0 };
            let oy = if hi_y - lo_y > 0 { hi_y - lo_y } else { 0 };
            proof {
                assert(0 <= ox <= 0x8000);
                assert(0 <= oy <= 0x8000);
                assert(0 <= ox * oy <= 0x4000_0000) by (nonlinear_arith)
                    requires
                        0 <= ox <= 0x8000,
                        0 <= oy <= 0x8000,
                ;
            }
            let a = ox * oy;
            if a > area {
                area = a;
                r = k;
            }
            k = k + 1;
        }
        r
    }

    /// Makes `m` the selected monitor.
    fn select_mon(&mut self, m: usize)
        requires
            old(self).wf(),
            m < old(self).mons@.len(),
        ensures
            final(self).wf(),
            final(self).selmon == m,
            final(self).mons == old(self).mons,
            final(self).clients == old(self).clients,
    {
        let ghost old_state = *self;
        self.selmon = m;
        proof {
            assert forall|k: int| 0 <= k < self.mons@.len() implies #[trigger] self.mon_ok(k) by {
                assert(old_state.mon_ok(k));
            }
        }
    }

    /// After a move or resize with the mouse, client `c` goes to the monitor
    /// its rectangle belongs to (see `rect_mon`) when that is not the
    /// selected one: it is sent there (see `sendmon`), that monitor becomes
    /// the selected one, and the focus goes to its most recently focused
    /// shown client. Returns that focus change, or `None` when nothing moved.
    #[verifier::spinoff_prover]
    pub fn drop_client(&mut self, c: usize) -> (r: Option<FocusChange>)
        requires
            old(self).wf(),
            c < old(self).clients@.len(),
            old(self).attached(c),
            mons_on_screen(old(self).mons@),
            screen_coord(old(self).clients@[c as int].x as int) && screen_coord(old(self).clients@[c as int].y as int),
            x_coord(old(self).clients@[c as int].w as int) && x_coord(old(self).clients@[c as int].h as int),
        ensures
            final(self).wf(),
            ({
                let cl = old(self).clients@[c as int];
                let m = rect_mon(*old(self), cl.x as int, cl.y as int, cl.w as int, cl.h as int);
                &&& m == old(self).selmon ==> r is None && *final(self) == *old(self)
                &&& m != old(self).selmon ==> r is Some && final(self).selmon == m
                    && final(self).clients@[c as int].mon == m
                &&& m != old(self).selmon ==> (r matches Some(f) && final(self).mons@[m as int].sel == f.focused)
                &&& m != old(self).selmon ==> (r matches Some(f) && (f.focused matches Some(x) ==> {
                    &&& final(self).mons@[m as int].stack@.len() > 0
                    &&& final(self).mons@[m as int].stack@[0] == x
                    &&& !final(self).clients@[x as int].isurgent
                }))
                &&& m != old(self).selmon && cl.mon != m ==> {
                    &&& r matches Some(f) && f.focused == Some(c)
                    &&& final(self).mons@[m as int].sel == Some(c)
                    &&& final(self).mons@[m as int].stack@ == old(self).mons@[m as int].stack@.insert(0, c)
                    &&& !final(self).clients@[c as int].isurgent
                }
            }),
    {
        let cl = self.clients[c];
        let m = self.recttomon(cl.x, cl.y, cl.w, cl.h);
        if m == self.selmon {
            return None;
        }
        let ghost before = *self;
        self.sendmon(c, m);
        let ghost sent = *self;
        self.select_mon(m);
        let ghost selected = *self;
        proof {
            if before.clients@[c as int].mon != m {
                let t = current(before.mons@[m as int].tag_state());
                assert(before.mon_ok(m as int));
                assert(t != 0);
                assert(t & t != 0) by (bit_vector)
                    requires t != 0;
                assert(selected.mons@[m as int].cur_tags() == t);
                assert(selected.visible(c));
                assert(selected.mons@[m as int].stack@[0] == c);
                assert(!before.mons@[m as int].stack@.contains(c)) by {
                    if before.mons@[m as int].stack@.contains(c) {
                        assert(before.mons@[m as int].clients@.contains(c));
                    }
                }
                lemma_push_front_then_remove(before.mons@[m as int].stack@, c);
            }
        }
        let f = self.focus(None);
        proof {
            assert(sent.clients@[c as int].mon == m);
            match f.focused {
                Some(x) => {
                    assert(self.selmon == selected.clients@[x as int].mon);
                    assert(self.clients@[c as int].mon == selected.clients@[c as int].mon);
                    assert(selected.mons@[m as int].stack@.contains(x)) by {
                        selected.lemma_first_visible_is_first(selected.mons@[m as int].stack@);
                    }
                    assert(selected.mon_ok(m as int));
                    assert(selected.mons@[m as int].clients@.contains(x));
                },
                None => {
                    assert(self.clients@[c as int].mon == selected.clients@[c as int].mon);
                },
            }
        }
        Some(f)
    }
}

/// Going through the monitors from `k` on keeps the best one found: either
/// no monitor from `k` on covers more than `area` and the result is `r`, or
/// the result is the first monitor from `k` on that covers the most, more
/// than `area`.
proof fn lemma_best_from(mons: Seq<Monitor>, k: int, r: usize, area: int, x: int, y: int, w: int, h: int)
    requires
        0 <= k <= mons.len(),
        mons.len() <= usize::MAX,
    ensures
        ({
            let b = best_mon_from(mons, k, r, area, x, y, w, h);
            ||| b == r && forall|j: int| k <= j < mons.len() ==> #[trigger] area_on(mons[j], x, y, w, h) <= area
            ||| {
                &&& k <= b < mons.len()
                &&& area_on(mons[b as int], x, y, w, h) > area
                &&& forall|j: int| k <= j < mons.len() ==> #[trigger] area_on(mons[j], x, y, w, h) <= area_on(mons[b as int], x, y, w, h)
                &&& forall|j: int| k <= j < b ==> #[trigger] area_on(mons[j], x, y, w, h) < area_on(mons[b as int], x, y, w, h)
            }
        }),
    decreases mons.len() - k,
{
    if k < mons.len() {
        let a = area_on(mons[k], x, y, w, h);
        if a > area {
            lemma_best_from(mons, k + 1, k as usize, a, x, y, w, h);
        } else {
            lemma_best_from(mons, k + 1, r, area, x, y, w, h);
        }
    }
}

/// A rectangle belongs to a monitor that covers the most of it: when some
/// monitor covers any of it, the result is the first monitor that covers
/// the most; otherwise it is the selected monitor.
pub proof fn lemma_rect_mon_best(w: Wm, x: int, y: int, wd: int, ht: int)
    requires
        w.mons@.len() <= usize::MAX,
    ensures
        ({
            let b = rect_mon(w, x, y, wd, ht);
            ||| b == w.selmon && forall|j: int| 0 <= j < w.mons@.len() ==> #[trigger] area_on(w.mons@[j], x, y, wd, ht) <= 0
            ||| {
                &&& 0 <= b < w.mons@.len()
                &&& area_on(w.mons@[b as int], x, y, wd, ht) > 0
                &&& forall|j: int| 0 <= j < w.mons@.len() ==> #[trigger] area_on(w.mons@[j], x, y, wd, ht) <= area_on(w.mons@[b as int], x, y, wd, ht)
                &&& forall|j: int| 0 <= j < b ==> #[trigger] area_on(w.mons@[j], x, y, wd, ht) < area_on(w.mons@[b as int], x, y, wd, ht)
            }
        }),
{
    lemma_best_from(w.mons@, 0, w.selmon, 0, x, y, wd, ht);
}

} // verus!
