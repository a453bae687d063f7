//! What the window manager decides on the events the X server sends:
//! which handler an event goes to, which errors are expected, modifier
//! masks, and the changes that requests and notifications make.
use vstd::prelude::*;
use crate::wm::{Wm, Client, Monitor, FocusChange, FullscreenChange, resized};
use crate::tags::SPTAGMASK;
use crate::config::{arranges, FLOATING_LAYOUT};
use crate::geom::{tdiv, div_t};
use crate::manage::x_coord;
use crate::rules::mons_small;
use crate::mouse::{rect_mon, mons_on_screen, screen_coord, is_screen_coord};

verus! {

/// The events the window manager handles.
#[derive(Clone, Copy, PartialEq, Eq, Structural, Debug)]
pub enum EventKind {
    KeyPress,
    ButtonPress,
    MotionNotify,
    EnterNotify,
    FocusIn,
    Expose,
    DestroyNotify,
    UnmapNotify,
    MapRequest,
    ConfigureNotify,
    ConfigureRequest,
    PropertyNotify,
    ClientMessage,
    MappingNotify,
}

/// The handler for an event of X event type `t`, if it is one that is handled.
pub open spec fn spec_event_kind(t: i32) -> Option<EventKind> {
    if t == 2 {
        Some(EventKind::KeyPress)
    } else if t == 4 {
        Some(EventKind::ButtonPress)
    } else if t == 6 {
        Some(EventKind::MotionNotify)
    } else if t == 7 {
        Some(EventKind::EnterNotify)
    } else if t == 9 {
        Some(EventKind::FocusIn)
    } else if t == 12 {
        Some(EventKind::Expose)
    } else if t == 17 {
        Some(EventKind::DestroyNotify)
    } else if t == 18 {
        Some(EventKind::UnmapNotify)
    } else if t == 20 {
        Some(EventKind::MapRequest)
    } else if t == 22 {
        Some(EventKind::ConfigureNotify)
    } else if t == 23 {
        Some(EventKind::ConfigureRequest)
    } else if t == 28 {
        Some(EventKind::PropertyNotify)
    } else if t == 33 {
        Some(EventKind::ClientMessage)
    } else if t == 34 {
        Some(EventKind::MappingNotify)
    } else {
        None
    }
}

/// The handler for an event of X event type `t`; see `spec_event_kind`.
pub fn event_kind(t: i32) -> (r: Option<EventKind>)
    ensures
        r == spec_event_kind(t),
{
    match t {
        2 => Some(EventKind::KeyPress),
        4 => Some(EventKind::ButtonPress),
        6 => Some(EventKind::MotionNotify),
        7 => Some(EventKind::EnterNotify),
        9 => Some(EventKind::FocusIn),
        12 => Some(EventKind::Expose),
        17 => Some(EventKind::DestroyNotify),
        18 => Some(EventKind::UnmapNotify),
        20 => Some(EventKind::MapRequest),
        22 => Some(EventKind::ConfigureNotify),
        23 => Some(EventKind::ConfigureRequest),
        28 => Some(EventKind::PropertyNotify),
        33 => Some(EventKind::ClientMessage),
        34 => Some(EventKind::MappingNotify),
        _ => None,
    }
}

/// X error codes.
pub const BAD_WINDOW: u8 = 3;
pub const BAD_MATCH: u8 = 8;
pub const BAD_DRAWABLE: u8 = 9;
pub const BAD_ACCESS: u8 = 10;

/// X request codes.
pub const X_CONFIGURE_WINDOW: u8 = 12;
pub const X_GRAB_BUTTON: u8 = 28;
pub const X_GRAB_KEY: u8 = 33;
pub const X_SET_INPUT_FOCUS: u8 = 42;
pub const X_COPY_AREA: u8 = 62;
pub const X_POLY_SEGMENT: u8 = 66;
pub const X_POLY_FILL_RECTANGLE: u8 = 70;
pub const X_POLY_TEXT8: u8 = 74;

/// Whether an X error is one that is expected and ignored: a window that
/// is gone, and the errors that requests on windows that are going away
/// give; every other error is fatal.
pub open spec fn error_ignored(request: u8, error: u8) -> bool {
    ||| error == BAD_WINDOW
    ||| request == X_SET_INPUT_FOCUS && error == BAD_MATCH
    ||| request == X_POLY_TEXT8 && error == BAD_DRAWABLE
    ||| request == X_POLY_FILL_RECTANGLE && error == BAD_DRAWABLE
    ||| request == X_POLY_SEGMENT && error == BAD_DRAWABLE
    ||| request == X_CONFIGURE_WINDOW && error == BAD_MATCH
    ||| request == X_GRAB_BUTTON && error == BAD_ACCESS
    ||| request == X_GRAB_KEY && error == BAD_ACCESS
    ||| request == X_COPY_AREA && error == BAD_DRAWABLE
}

/// Whether an X error is ignored; see `error_ignored`.
pub fn xerror_ignored(request: u8, error: u8) -> (r: bool)
    ensures
        r == error_ignored(request, error),
{
    error == BAD_WINDOW || (request == X_SET_INPUT_FOCUS && error == BAD_MATCH)
        || (request == X_POLY_TEXT8 && error == BAD_DRAWABLE)
        || (request == X_POLY_FILL_RECTANGLE && error == BAD_DRAWABLE)
        || (request == X_POLY_SEGMENT && error == BAD_DRAWABLE)
        || (request == X_CONFIGURE_WINDOW && error == BAD_MATCH)
        || (request == X_GRAB_BUTTON && error == BAD_ACCESS)
        || (request == X_GRAB_KEY && error == BAD_ACCESS)
        || (request == X_COPY_AREA && error == BAD_DRAWABLE)
}

/// Modifier masks.
pub const SHIFT_MASK: u32 = 1;
pub const LOCK_MASK: u32 = 2;
pub const CONTROL_MASK: u32 = 4;
pub const MOD1_MASK: u32 = 8;
pub const MOD2_MASK: u32 = 16;
pub const MOD3_MASK: u32 = 32;
pub const MOD4_MASK: u32 = 64;
pub const MOD5_MASK: u32 = 128;

/// The modifiers of `mask` that bindings look at: Shift, Control and
/// Mod1 to Mod5, without Caps Lock and Num Lock (`numlock`).
pub open spec fn clean(mask: u32, numlock: u32) -> u32 {
    mask & !(numlock | LOCK_MASK) & (SHIFT_MASK | CONTROL_MASK | MOD1_MASK | MOD2_MASK | MOD3_MASK | MOD4_MASK | MOD5_MASK)
}

/// The modifiers of `mask` that bindings look at; see `clean`.
pub fn cleanmask(mask: u32, numlock: u32) -> (r: u32)
    ensures
        r == clean(mask, numlock),
{
    mask & !(numlock | LOCK_MASK) & (SHIFT_MASK | CONTROL_MASK | MOD1_MASK | MOD2_MASK | MOD3_MASK | MOD4_MASK | MOD5_MASK)
}

/// Caps Lock and Num Lock never matter to bindings, and cleaning twice is
/// cleaning once.
pub proof fn lemma_clean_ignores_locks(mask: u32, numlock: u32)
    ensures
        clean(mask | LOCK_MASK | numlock, numlock) == clean(mask, numlock),
        clean(clean(mask, numlock), numlock) == clean(mask, numlock),
{
    assert(clean(mask | LOCK_MASK | numlock, numlock) == clean(mask, numlock)) by (bit_vector);
    assert(clean(clean(mask, numlock), numlock) == clean(mask, numlock)) by (bit_vector);
}

/// Whether a binding for `sym` with modifiers `modmask` fires for a key or
/// button `ev_sym` pressed with modifiers `state`.
pub fn binding_fires(sym: u64, modmask: u32, ev_sym: u64, state: u32, numlock: u32) -> (r: bool)
    ensures
        r == (sym == ev_sym && clean(modmask, numlock) == clean(state, numlock)),
{
    sym == ev_sym && cleanmask(modmask, numlock) == cleanmask(state, numlock)
}

/// The Num Lock modifier found in a modifier map (eight modifiers, `per`
/// key codes each) from modifier `i` on, given the mask found so far: the
/// last modifier that has the Num Lock key code `key` among its key codes.
pub open spec fn numlock_from(map: Seq<u8>, per: int, key: u8, i: int, found: u32) -> u32
    decreases 8 - i,
{
    if i < 0 || i >= 8 {
        found
    } else {
        let hit = exists|j: int| 0 <= j < per && #[trigger] map[i * per + j] == key;
        numlock_from(map, per, key, i + 1, if hit { 1u32 << (i as u32) } else { found })
    }
}

/// The Num Lock modifier mask, 0 when no modifier has the Num Lock key;
/// see `numlock_from`.
pub fn numlock_mask(map: &Vec<u8>, per: usize, key: u8) -> (r: u32)
    requires
        map@.len() == 8 * per,
    ensures
        r == numlock_from(map@, per as int, key, 0, 0),
{
    let mut found: u32 = 0;
    let mut i: usize = 0;
    let len = map.len();
    while i < 8
        invariant
            map@.len() == 8 * per,
            len == map@.len(),
            i <= 8,
            numlock_from(map@, per as int, key, 0, 0) == numlock_from(map@, per as int, key, i as int, found),
        decreases 8 - i,
    {
        let mut j: usize = 0;
        let mut hit = false;
        while j < per
            invariant
                map@.len() == 8 * per,
                len == map@.len(),
                i < 8,
                j <= per,
                hit == exists|k: int| 0 <= k < j && #[trigger] map@[i * per + k] == key,
            decreases per - j,
        {
            proof {
                assert(i * per + j < 8 * per) by (nonlinear_arith)
                    requires
                        i < 8,
                        j < per,
                ;
                assert(i * per <= 8 * per) by (nonlinear_arith)
                    requires
                        i < 8,
                ;
            }
            if map[i * per + j] == key {
                hit = true;
            }
            j = j + 1;
        }
        if hit {
            found = 1u32 << (i as u32);
        }
        i = i + 1;
    }
    found
}

/// What a client message asks of a managed client.
#[derive(Clone, Copy)]
pub enum ClientMessage {
    /// A change of its state: `action` is 0 to remove, 1 to add, 2 to
    /// toggle; it names fullscreen or sticky (or both) among its properties.
    State { action: i64, fullscreen: bool, sticky: bool },
    /// A request to make it the active window.
    ActiveWindow,
    /// Anything else.
    Other,
}

/// What a client message did.
pub struct MessageEffect {
    pub fullscreen: FullscreenChange,
    pub sticky_changed: bool,
    pub urgent_set: bool,
}

/// The fullscreen state a state change asks for: added, or toggled.
pub open spec fn wanted(action: i64, now: bool) -> bool {
    action == 1 || (action == 2 && !now)
}

impl Wm {
    /// Acts on a client message for client `c`: a state change that names
    /// fullscreen makes it fullscreen or not (see `wanted`), one that names
    /// sticky makes it sticky or not; a request to activate a client that
    /// is not the selected one and not urgent makes it urgent.
    pub fn client_message(&mut self, c: usize, msg: ClientMessage) -> (r: MessageEffect)
        requires
            old(self).wf(),
            c < old(self).clients@.len(),
        ensures
            final(self).wf(),
            final(self).mons == old(self).mons,
            final(self).selmon == old(self).selmon,
            ({
                let cl = old(self).clients@[c as int];
                match msg {
                    ClientMessage::State { action, fullscreen, sticky } => {
                        let f = fullscreen && wanted(action, cl.isfullscreen);
                        let c1 = if fullscreen && f && !cl.isfullscreen {
                            crate::wm::entered_fullscreen(cl, old(self).mons@[cl.mon as int].mx,
                                old(self).mons@[cl.mon as int].my, old(self).mons@[cl.mon as int].mw,
                                old(self).mons@[cl.mon as int].mh)
                        } else if fullscreen && !f && cl.isfullscreen {
                            crate::wm::left_fullscreen(cl)
                        } else {
                            cl
                        };
                        let s = wanted(action, cl.issticky);
                        let c2 = if sticky { Client { issticky: s, ..c1 } } else { c1 };
                        &&& final(self).clients@ == old(self).clients@.update(c as int, c2)
                        &&& r.sticky_changed == (sticky && s != cl.issticky)
                        &&& !r.urgent_set
                    },
                    ClientMessage::ActiveWindow => {
                        let set = old(self).mons@[old(self).selmon as int].sel != Some(c) && !cl.isurgent;
                        &&& r.urgent_set == set
                        &&& final(self).clients@ == if set {
                            old(self).clients@.update(c as int, Client { isurgent: true, ..cl })
                        } else {
                            old(self).clients@
                        }
                    },
                    ClientMessage::Other => {
                        &&& final(self).clients == old(self).clients
                        &&& !r.urgent_set
                    },
                }
            }),
    {
        match msg {
            ClientMessage::State { action, fullscreen, sticky } => {
                let ghost old_state = *self;
                let mut fs = FullscreenChange::Unchanged;
                if fullscreen {
                    let on = action == 1 || (action == 2 && !self.clients[c].isfullscreen);
                    fs = self.setfullscreen(c, on);
                }
                let ghost mid = *self;
                proof {
                    assert(mid.clients@[c as int].issticky == old_state.clients@[c as int].issticky);
                }
                let mut changed = false;
                if sticky {
                    let on = action == 1 || (action == 2 && !self.clients[c].issticky);
                    changed = self.setsticky(c, on);
                }
                proof {
                    if !fullscreen {
                        assert(mid.clients == old_state.clients);
                    }
                    if !sticky {
                        assert(self.clients@ =~= mid.clients@);
                    }
                }
                MessageEffect { fullscreen: fs, sticky_changed: changed, urgent_set: false }
            },
            ClientMessage::ActiveWindow => {
                proof {
                    assert(self.mon_ok(self.selmon as int));
                }
                let set = self.mons[self.selmon].sel != Some(c) && !self.clients[c].isurgent;
                if set {
                    self.seturgent(c, true);
                }
                MessageEffect { fullscreen: FullscreenChange::Unchanged, sticky_changed: false, urgent_set: set }
            },
            ClientMessage::Other => {
                MessageEffect { fullscreen: FullscreenChange::Unchanged, sticky_changed: false, urgent_set: false }
            },
        }
    }
}

/// Bits of a configure request's value mask.
pub const CW_X: u32 = 1;
pub const CW_Y: u32 = 2;
pub const CW_WIDTH: u32 = 4;
pub const CW_HEIGHT: u32 = 8;
pub const CW_BORDER_WIDTH: u32 = 16;

/// What a managed window asks for in a configure request: the fields that
/// `mask` names (position relative to its monitor).
#[derive(Clone, Copy)]
pub struct ConfigureRequest {
    pub mask: u32,
    pub x: i32,
    pub y: i32,
    pub w: i32,
    pub h: i32,
    pub border: i32,
}

/// How a configure request of a managed client was answered.
#[derive(Clone, Copy, PartialEq, Eq, Structural, Debug)]
pub enum Configured {
    /// Its border width was taken.
    Border,
    /// It floats (or nothing is arranged): its geometry was taken. The
    /// caller tells it its geometry when it only moved (`notify`), and moves
    /// its window when it is shown (`shown`).
    Geometry { notify: bool, shown: bool },
    /// It is tiled: the caller tells it the geometry it keeps.
    Refused,
}

/// Client `c` on monitor `m` with the fields a configure request names
/// (the position taken relative to the monitor), remembering the old ones.
pub open spec fn request_applied(c: Client, m: Monitor, r: ConfigureRequest) -> Client {
    Client {
        oldx: if r.mask & CW_X != 0 { c.x } else { c.oldx },
        x: if r.mask & CW_X != 0 { (m.mx + r.x) as i32 } else { c.x },
        oldy: if r.mask & CW_Y != 0 { c.y } else { c.oldy },
        y: if r.mask & CW_Y != 0 { (m.my + r.y) as i32 } else { c.y },
        oldw: if r.mask & CW_WIDTH != 0 { c.w } else { c.oldw },
        w: if r.mask & CW_WIDTH != 0 { r.w } else { c.w },
        oldh: if r.mask & CW_HEIGHT != 0 { c.h } else { c.oldh },
        h: if r.mask & CW_HEIGHT != 0 { r.h } else { c.h },
        ..c
    }
}

/// A floating scratchpad `c` centred in the window area of `m`; any other
/// floating client that passes the right or bottom edge of the monitor
/// centred on the monitor along that direction.
pub open spec fn recentred(c: Client, m: Monitor) -> Client {
    let width = c.w + 2 * c.bw;
    let height = c.h + 2 * c.bw;
    if c.tags & SPTAGMASK != 0 && c.isfloating {
        Client {
            x: (m.wx + (tdiv(m.ww as int, 2) - tdiv(width, 2))) as i32,
            y: (m.wy + (tdiv(m.wh as int, 2) - tdiv(height, 2))) as i32,
            ..c
        }
    } else {
        Client {
            x: if c.x + c.w > m.mx + m.mw && c.isfloating {
                (m.mx + (tdiv(m.mw as int, 2) - tdiv(width, 2))) as i32
            } else {
                c.x
            },
            y: if c.y + c.h > m.my + m.mh && c.isfloating {
                (m.my + (tdiv(m.mh as int, 2) - tdiv(height, 2))) as i32
            } else {
                c.y
            },
            ..c
        }
    }
}

/// A configure request sets exactly the size it names: the width when it
/// names the width and the height when it names the height, each
/// remembering the size before; a size it does not name stays. Recentring
/// only moves the client: its border, tags, monitor, window and floating
/// state stay as they were.
pub proof fn lemma_request_sets_size(c: Client, m: Monitor, r: ConfigureRequest)
    ensures
        ({
            let nc = requested(c, m, r);
            &&& r.mask & CW_WIDTH != 0 ==> nc.w == r.w && nc.oldw == c.w
            &&& r.mask & CW_WIDTH == 0 ==> nc.w == c.w && nc.oldw == c.oldw
            &&& r.mask & CW_HEIGHT != 0 ==> nc.h == r.h && nc.oldh == c.h
            &&& r.mask & CW_HEIGHT == 0 ==> nc.h == c.h && nc.oldh == c.oldh
            &&& nc.bw == c.bw && nc.tags == c.tags && nc.mon == c.mon && nc.win == c.win
            &&& nc.isfloating == c.isfloating && nc.isfullscreen == c.isfullscreen
        }),
{
}

/// A configure request that names a position puts the client there,
/// relative to the monitor, unless it is a floating scratchpad (centred in
/// the window area) or a floating client that would then pass the
/// monitor's right (bottom) edge; a position it does not name stays under
/// the same exceptions.
pub proof fn lemma_request_sets_position(c: Client, m: Monitor, r: ConfigureRequest)
    requires
        screen_coord(m.mx as int) && screen_coord(m.my as int),
        x_coord(r.x as int) && x_coord(r.y as int),
    ensures
        ({
            let nc = requested(c, m, r);
            let w = if r.mask & CW_WIDTH != 0 { r.w } else { c.w };
            let h = if r.mask & CW_HEIGHT != 0 { r.h } else { c.h };
            let x = if r.mask & CW_X != 0 { m.mx + r.x } else { c.x as int };
            let y = if r.mask & CW_Y != 0 { m.my + r.y } else { c.y as int };
            let scratch = c.tags & SPTAGMASK != 0 && c.isfloating;
            &&& !scratch && !(c.isfloating && x + w > m.mx + m.mw) ==> nc.x == x
            &&& !scratch && !(c.isfloating && y + h > m.my + m.mh) ==> nc.y == y
        }),
{
}

/// Client `c` on monitor `m` with the geometry a configure request asks for
/// (see `request_applied`), then recentred (see `recentred`).
pub open spec fn requested(c: Client, m: Monitor, r: ConfigureRequest) -> Client {
    recentred(request_applied(c, m, r), m)
}

/// Client `c` on monitor `m` with the geometry a configure request asks
/// for; see `requested`.
fn requested_client(c: Client, m: &Monitor, r: ConfigureRequest) -> (nc: Client)
    requires
        screen_coord(m.wx as int) && screen_coord(m.wy as int) && 0 <= m.ww <= 0x8000 && 0 <= m.wh <= 0x8000,
        screen_coord(m.mx as int) && screen_coord(m.my as int) && 0 <= m.mw <= 0x8000 && 0 <= m.mh <= 0x8000,
        x_coord(r.x as int) && x_coord(r.y as int) && x_coord(r.w as int) && x_coord(r.h as int),
        x_coord(c.x as int) && x_coord(c.y as int) && x_coord(c.w as int) && x_coord(c.h as int),
        x_coord(c.bw as int),
    ensures
        nc == requested(c, *m, r),
{
    let bx = r.mask & CW_X != 0;
    let by = r.mask & CW_Y != 0;
    let bw = r.mask & CW_WIDTH != 0;
    let bh = r.mask & CW_HEIGHT != 0;
    let cl = Client {
        oldx: if bx { c.x } else { c.oldx },
        x: if bx { m.mx + r.x } else { c.x },
        oldy: if by { c.y } else { c.oldy },
        y: if by { m.my + r.y } else { c.y },
        oldw: if bw { c.w } else { c.oldw },
        w: if bw { r.w } else { c.w },
        oldh: if bh { c.h } else { c.oldh },
        h: if bh { r.h } else { c.h },
        ..c
    };
    recentre(cl, m)
}

/// Recentres client `c` on monitor `m`; see `recentred`.
fn recentre(c: Client, m: &Monitor) -> (nc: Client)
    requires
        screen_coord(m.wx as int) && screen_coord(m.wy as int) && 0 <= m.ww <= 0x8000 && 0 <= m.wh <= 0x8000,
        screen_coord(m.mx as int) && screen_coord(m.my as int) && 0 <= m.mw <= 0x8000 && 0 <= m.mh <= 0x8000,
        -0x2_0000 <= c.x <= 0x2_0000 && -0x2_0000 <= c.y <= 0x2_0000,
        x_coord(c.w as int) && x_coord(c.h as int) && x_coord(c.bw as int),
    ensures
        nc == recentred(c, *m),
{
    let width = c.w + 2 * c.bw;
    let height = c.h + 2 * c.bw;
    let mut cl = c;
    if c.tags & SPTAGMASK != 0 && c.isfloating {
        cl.x = m.wx + (div_t(m.ww, 2) - div_t(width, 2));
        cl.y = m.wy + (div_t(m.wh, 2) - div_t(height, 2));
    } else {
        if c.x + c.w > m.mx + m.mw && c.isfloating {
            cl.x = m.mx + (div_t(m.mw, 2) - div_t(width, 2));
        }
        if c.y + c.h > m.my + m.mh && c.isfloating {
            cl.y = m.my + (div_t(m.mh, 2) - div_t(height, 2));
        }
    }
    cl
}

/// Whether every monitor's area lies on the screen.
pub open spec fn mon_areas_on_screen(mons: Seq<Monitor>) -> bool {
    forall|k: int| 0 <= k < mons.len() ==> {
        &&& screen_coord(#[trigger] mons[k].mx as int) && screen_coord(mons[k].my as int)
        &&& 0 <= mons[k].mw <= 0x8000 && 0 <= mons[k].mh <= 0x8000
    }
}

/// Tests `mon_areas_on_screen` on the monitors of `mons`.
pub fn all_mon_areas_on_screen(mons: &Vec<Monitor>) -> (r: bool)
    ensures
        r == mon_areas_on_screen(mons@),
{
    let mut k: usize = 0;
    while k < mons.len()
        invariant
            k <= mons@.len(),
            forall|j: int| 0 <= j < k ==> {
                &&& screen_coord(#[trigger] mons@[j].mx as int) && screen_coord(mons@[j].my as int)
                &&& 0 <= mons@[j].mw <= 0x8000 && 0 <= mons@[j].mh <= 0x8000
            },
        decreases mons@.len() - k,
    {
        let m = &mons[k];
        if !(is_screen_coord(m.mx) && is_screen_coord(m.my) && 0 <= m.mw && m.mw <= 0x8000 && 0 <= m.mh && m.mh <= 0x8000) {
            assert(!screen_coord(mons@[k as int].mx as int) || !screen_coord(mons@[k as int].my as int)
                || !(0 <= mons@[k as int].mw <= 0x8000) || !(0 <= mons@[k as int].mh <= 0x8000));
            return false;
        }
        assert forall|j: int| 0 <= j < k + 1 implies {
                &&& screen_coord(#[trigger] mons@[j].mx as int) && screen_coord(mons@[j].my as int)
                &&& 0 <= mons@[j].mw <= 0x8000 && 0 <= mons@[j].mh <= 0x8000
            } by {
            if j < k {
                assert(screen_coord(mons@[j].mx as int));
            }
        }
        k = k + 1;
    }
    true
}

impl Wm {
    /// Answers a configure request of client `c`: a request that names the
    /// border width sets it; otherwise a floating client (or any client when
    /// the selected monitor arranges nothing) gets the geometry it asks for
    /// (see `requested`); a tiled client keeps its geometry.
    pub fn configurerequest(&mut self, c: usize, r: ConfigureRequest) -> (a: Configured)
        requires
            old(self).wf(),
            c < old(self).clients@.len(),
            mons_on_screen(old(self).mons@),
            mon_areas_on_screen(old(self).mons@),
            x_coord(r.x as int) && x_coord(r.y as int) && x_coord(r.w as int) && x_coord(r.h as int),
            x_coord(old(self).clients@[c as int].x as int) && x_coord(old(self).clients@[c as int].y as int),
            x_coord(old(self).clients@[c as int].w as int) && x_coord(old(self).clients@[c as int].h as int),
            x_coord(old(self).clients@[c as int].bw as int),
        ensures
            final(self).wf(),
            final(self).mons == old(self).mons,
            final(self).selmon == old(self).selmon,
            ({
                let cl = old(self).clients@[c as int];
                let sm = old(self).mons@[old(self).selmon as int];
                if r.mask & CW_BORDER_WIDTH != 0 {
                    &&& a == Configured::Border
                    &&& final(self).clients@ == old(self).clients@.update(c as int, Client { bw: r.border, ..cl })
                } else if cl.isfloating || !arranges(sm.lt[sm.sellt as int]) {
                    let nc = requested(cl, old(self).mons@[cl.mon as int], r);
                    &&& final(self).clients@ == old(self).clients@.update(c as int, nc)
                    &&& final(self).clients@[c as int].w == (if r.mask & CW_WIDTH != 0 { r.w } else { cl.w })
                    &&& final(self).clients@[c as int].h == (if r.mask & CW_HEIGHT != 0 { r.h } else { cl.h })
                    &&& a == Configured::Geometry {
                        notify: r.mask & (CW_X | CW_Y) != 0 && r.mask & (CW_WIDTH | CW_HEIGHT) == 0,
                        shown: old(self).visible(c),
                    }
                } else {
                    &&& a == Configured::Refused
                    &&& final(self).clients == old(self).clients
                }
            }),
    {
        let mut cl = self.clients[c];
        if r.mask & CW_BORDER_WIDTH != 0 {
            cl.bw = r.border;
            self.update_client(c, cl);
            return Configured::Border;
        }
        proof {
            assert(self.mon_ok(self.selmon as int));
        }
        let sm = self.selmon;
        let lt = self.mons[sm].lt[self.mons[sm].sellt];
        if !(cl.isfloating || lt == FLOATING_LAYOUT) {
            return Configured::Refused;
        }
        proof {
            assert(self.mon_ok(cl.mon as int));
            assert(screen_coord(self.mons@[cl.mon as int].wx as int));
            assert(screen_coord(self.mons@[cl.mon as int].mx as int));
        }
        let shown = self.is_visible(c);
        proof {
            lemma_request_sets_size(cl, self.mons@[cl.mon as int], r);
        }
        let cl = requested_client(cl, &self.mons[cl.mon], r);
        self.update_client(c, cl);
        Configured::Geometry {
            notify: r.mask & (CW_X | CW_Y) != 0 && r.mask & (CW_WIDTH | CW_HEIGHT) == 0,
            shown,
        }
    }

    /// The monitor a window belongs to: for the root window, the one under
    /// the pointer (at `ptr`, when known); for a bar, its monitor; for a
    /// managed client, its monitor; otherwise the selected one.
    pub fn wintomon(&self, w: u64, root: u64, ptr: Option<(i32, i32)>) -> (r: usize)
        requires
            self.wf(),
            mons_on_screen(self.mons@),
            ptr matches Some(p) ==> screen_coord(p.0 as int) && screen_coord(p.1 as int),
        ensures
            r < self.mons@.len(),
            r == if w == root && ptr is Some {
                match ptr {
                    Some(p) => rect_mon(*self, p.0 as int, p.1 as int, 1, 1),
                    None => 0,
                }
            } else if exists|k: int| 0 <= k < self.mons@.len() && #[trigger] self.mons@[k].barwin == w {
                self.first_bar(w, 0)
            } else {
                match self.query_result(crate::lookup::ClientQuery::Win(w)) {
                    Some(c) => self.clients@[c as int].mon,
                    None => self.selmon,
                }
            },
    {
        if w == root {
            if let Some((x, y)) = ptr {
                return self.recttomon(x, y, 1, 1);
            }
        }
        let mut k: usize = 0;
        while k < self.mons.len()
            invariant
                self.wf(),
                k <= self.mons@.len(),
                !(w == root && ptr is Some),
                forall|j: int| 0 <= j < k ==> #[trigger] self.mons@[j].barwin != w,
            decreases self.mons@.len() - k,
        {
            if self.mons[k].barwin == w {
                proof {
                    self.lemma_first_bar(w, 0, k as int);
                    assert(self.mons@[k as int].barwin == w);

                }
                return k;
            }
            k = k + 1;
        }
        match self.wintoclient(w) {
            Some(c) => {
                proof {
                    assert(self.clients@[c as int].mon < self.mons@.len());
                }
                self.clients[c].mon
            },
            None => self.selmon,
        }
    }

    /// The first monitor, from `k` on, whose bar is window `w`.
    pub open spec fn first_bar(self, w: u64, k: int) -> usize
        decreases self.mons@.len() - k,
    {
        if k < 0 || k >= self.mons@.len() {
            0
        } else if self.mons@[k].barwin == w {
            k as usize
        } else {
            self.first_bar(w, k + 1)
        }
    }

    /// When no monitor before `k` has bar `w` and monitor `k` has, it is the first.
    proof fn lemma_first_bar(self, w: u64, i: int, k: int)
        requires
            0 <= i <= k < self.mons@.len(),
            self.mons@[k].barwin == w,
            forall|j: int| 0 <= j < k ==> #[trigger] self.mons@[j].barwin != w,
            self.mons@.len() <= usize::MAX,
        ensures
            self.first_bar(w, i) == k,
        decreases k - i,
    {
        if i < k {
            self.lemma_first_bar(w, i + 1, k);
        }
    }

    /// Makes `m` the selected monitor.
    fn set_selmon(&mut self, m: usize)
        requires
            old(self).wf(),
            m < old(self).mons@.len(),
        ensures
            final(self).wf(),
            final(self).selmon == m,
            final(self).mons == old(self).mons,
            final(self).clients == old(self).clients,
    {
        let ghost old_state = *self;
        self.selmon = m;
        proof {
            assert forall|k: int| 0 <= k < self.mons@.len() implies #[trigger] self.mon_ok(k) by {
                assert(old_state.mon_ok(k));
            }
        }
    }

    /// The pointer entered a window, showing client `c` (if managed) on
    /// monitor `m`: another monitor becomes the selected one (the client
    /// selected before is returned, to be shown unfocused) and `c` gets the
    /// focus; on the selected monitor, a managed client other than the
    /// selected one gets the focus; otherwise nothing happens.
    pub fn enter(&mut self, c: Option<usize>, m: usize) -> (r: Option<(Option<usize>, FocusChange)>)
        requires
            old(self).wf(),
            m < old(self).mons@.len(),
            c matches Some(x) ==> x < old(self).clients@.len() && old(self).attached(x),
        ensures
            final(self).wf(),
            ({
                let sel = old(self).mons@[old(self).selmon as int].sel;
                if m != old(self).selmon {
                    r matches Some((u, f)) && u == sel
                        && f.focused == Wm { selmon: m, ..*old(self) }.focus_target(c)
                        && Wm::focus_outcome(Wm { selmon: m, ..*old(self) }, *final(self), f, c)
                } else if c is None || c == sel {
                    r is None && *final(self) == *old(self)
                } else {
                    r matches Some((u, f)) && u is None && f.focused == old(self).focus_target(c)
                        && Wm::focus_outcome(*old(self), *final(self), f, c)
                }
            }),
    {
        proof {
            assert(self.mon_ok(self.selmon as int));
        }
        let sel = self.mons[self.selmon].sel;
        if m != self.selmon {
            let ghost before = *self;
            self.set_selmon(m);
            proof {
                assert(*self == Wm { selmon: m, ..before });
            }
            let f = self.focus(c);
            return Some((sel, f));
        }
        if c.is_none() || c == sel {
            return None;
        }
        let f = self.focus(c);
        Some((None, f))
    }

    /// The pointer moved on the root window to monitor `m`, having been on
    /// `last` before (if known): on a change, `m` becomes the selected
    /// monitor (the client selected before is returned) and the focus goes
    /// to its most recently focused shown client.
    pub fn motion(&mut self, m: usize, last: Option<usize>) -> (r: Option<(Option<usize>, FocusChange)>)
        requires
            old(self).wf(),
            m < old(self).mons@.len(),
        ensures
            final(self).wf(),
            ({
                let sel = old(self).mons@[old(self).selmon as int].sel;
                match last {
                    Some(l) if l != m => r matches Some((u, f)) && u == sel && final(self).selmon == (match f.focused {
                        Some(x) => old(self).clients@[x as int].mon,
                        None => m,
                    }) && f.focused == Wm { selmon: m, ..*old(self) }.focus_target(None)
                        && Wm::focus_outcome(Wm { selmon: m, ..*old(self) }, *final(self), f, None),
                    _ => r is None && *final(self) == *old(self),
                }
            }),
    {
        match last {
            Some(l) => {
                if l == m {
                    return None;
                }
                proof {
                    assert(self.mon_ok(self.selmon as int));
                }
                let sel = self.mons[self.selmon].sel;
                let ghost before = *self;
                self.set_selmon(m);
                proof {
                    assert(*self == Wm { selmon: m, ..before });
                }
                let f = self.focus(None);
                Some((sel, f))
            },
            None => None,
        }
    }

    /// The client whose focus was taken by window `w`: the selected client,
    /// when `w` is not its window (it takes the focus back).
    pub fn focus_taken(&self, w: u64) -> (r: Option<usize>)
        requires
            self.wf(),
        ensures
            r == match self.mons@[self.selmon as int].sel {
                Some(s) if self.clients@[s as int].win != w => Some(s),
                _ => None,
            },
    {
        proof {
            assert(self.mon_ok(self.selmon as int));
        }
        match self.mons[self.selmon].sel {
            Some(s) => if self.clients[s].win != w { Some(s) } else { None },
            None => None,
        }
    }

    /// Client `c` changed the window it is transient for: a client that does
    /// not float starts floating when that window is managed (`managed`).
    /// Returns whether it floats now.
    pub fn transient_changed(&mut self, c: usize, managed: bool) -> (r: bool)
        requires
            old(self).wf(),
            c < old(self).clients@.len(),
        ensures
            final(self).wf(),
            final(self).mons == old(self).mons,
            final(self).selmon == old(self).selmon,
            ({
                let cl = old(self).clients@[c as int];
                &&& final(self).clients@ == if !cl.isfloating {
                    old(self).clients@.update(c as int, Client { isfloating: managed, ..cl })
                } else {
                    old(self).clients@
                }
                &&& r == (cl.isfloating || managed)
            }),
    {
        if self.clients[c].isfloating {
            return true;
        }
        let mut cl = self.clients[c];
        cl.isfloating = managed;
        self.update_client(c, cl);
        managed
    }

    /// Client `c` changed its size hints: they are read again before next use.
    pub fn hints_changed(&mut self, c: usize)
        requires
            old(self).wf(),
            c < old(self).clients@.len(),
        ensures
            final(self).wf(),
            final(self).mons == old(self).mons,
            final(self).selmon == old(self).selmon,
            final(self).clients@ == old(self).clients@.update(c as int, Client { hintsvalid: false, ..old(self).clients@[c as int] }),
    {
        let mut cl = self.clients[c];
        cl.hintsvalid = false;
        self.update_client(c, cl);
    }

    /// After the screen changed, every fullscreen client of monitors `0..k`
    /// covers its monitor.
    pub open spec fn fullscreen_fit_upto(self, k: int) -> bool {
        forall|c: usize| c < self.clients@.len() && self.clients@[c as int].mon < k
            && #[trigger] self.clients@[c as int].isfullscreen
            && self.mons@[self.clients@[c as int].mon as int].clients@.contains(c) ==> {
            let m = self.mons@[self.clients@[c as int].mon as int];
            let cl = self.clients@[c as int];
            cl.x == m.mx && cl.y == m.my && cl.w == m.mw && cl.h == m.mh
        }
    }

    /// Makes every listed fullscreen client cover its monitor again (after
    /// the screen changed).
    pub fn refit_fullscreen(&mut self)
        requires
            old(self).wf(),
        ensures
            final(self).wf(),
            final(self).mons == old(self).mons,
            final(self).selmon == old(self).selmon,
            final(self).fullscreen_fit_upto(final(self).mons@.len() as int),
            final(self).clients@.len() == old(self).clients@.len(),
            forall|c: usize| c < old(self).clients@.len() ==> {
                let o = #[trigger] old(self).clients@[c as int];
                let n = final(self).clients@[c as int];
                &&& n.isfullscreen == o.isfullscreen && n.mon == o.mon && n.isfloating == o.isfloating
                &&& n.tags == o.tags && n.win == o.win
                &&& !(o.isfullscreen && old(self).attached(c)) ==> n == o
            },
    {
        let ghost old_state = *self;
        let mut m: usize = 0;
        while m < self.mons.len()
            invariant
                self.wf(),
                self.mons == old_state.mons,
                self.selmon == old_state.selmon,
                m <= self.mons@.len(),
                self.clients@.len() == old_state.clients@.len(),
                self.fullscreen_fit_upto(m as int),
                forall|c: usize| c < old_state.clients@.len() ==> {
                    let o = #[trigger] old_state.clients@[c as int];
                    let n = self.clients@[c as int];
                    &&& n.isfullscreen == o.isfullscreen && n.mon == o.mon && n.isfloating == o.isfloating
                    &&& n.tags == o.tags && n.win == o.win
                    &&& !(o.isfullscreen && old_state.attached(c) && o.mon < m) ==> n == o
                },
            decreases self.mons@.len() - m,
        {
            let mut i: usize = 0;
            proof {
                assert(self.mon_ok(m as int));
            }
            while i < self.mons[m].clients.len()
                invariant
                    self.wf(),
                    self.mons == old_state.mons,
                    self.selmon == old_state.selmon,
                    m < self.mons@.len(),
                    i <= self.mons@[m as int].clients@.len(),
                    self.clients@.len() == old_state.clients@.len(),
                    self.fullscreen_fit_upto(m as int),
                    forall|j: int| 0 <= j < i ==> {
                        let c = #[trigger] self.mons@[m as int].clients@[j];
                        let cl = self.clients@[c as int];
                        let mm = self.mons@[m as int];
                        cl.isfullscreen ==> cl.x == mm.mx && cl.y == mm.my && cl.w == mm.mw && cl.h == mm.mh
                    },
                    forall|c: usize| c < old_state.clients@.len() ==> {
                        let o = #[trigger] old_state.clients@[c as int];
                        let n = self.clients@[c as int];
                        &&& n.isfullscreen == o.isfullscreen && n.mon == o.mon && n.isfloating == o.isfloating
                        &&& n.tags == o.tags && n.win == o.win
                        &&& !(o.isfullscreen && old_state.attached(c) && o.mon <= m) ==> n == o
                    },
                decreases self.mons@[m as int].clients@.len() - i,
            {
                let c = self.mons[m].clients[i];
                proof {
                    assert(self.mon_ok(m as int));
                    assert(self.mons@[m as int].clients@.contains(c));
                }
                if self.clients[c].isfullscreen {
                    let mx = self.mons[m].mx;
                    let my = self.mons[m].my;
                    let mw = self.mons[m].mw;
                    let mh = self.mons[m].mh;
                    let ghost before = *self;
                    self.resizeclient(c, mx, my, mw, mh);
                    proof {
                        assert forall|j: int| 0 <= j < i + 1 implies {
                            let c2 = #[trigger] self.mons@[m as int].clients@[j];
                            let cl = self.clients@[c2 as int];
                            let mm = self.mons@[m as int];
                            cl.isfullscreen ==> cl.x == mm.mx && cl.y == mm.my && cl.w == mm.mw && cl.h == mm.mh
                        } by {
                            let c2 = self.mons@[m as int].clients@[j];
                            assert(before.mon_ok(m as int));
                            assert(before.mons@[m as int].clients@.contains(c2));
                        }
                        assert(old_state.clients@[c as int].mon == m);
                        assert(old_state.attached(c));
                    }
                }
                i = i + 1;
            }
            proof {
                assert forall|c: usize| c < self.clients@.len() && self.clients@[c as int].mon < m + 1
                    && #[trigger] self.clients@[c as int].isfullscreen
                    && self.mons@[self.clients@[c as int].mon as int].clients@.contains(c) implies {
                    let mm = self.mons@[self.clients@[c as int].mon as int];
                    let cl = self.clients@[c as int];
                    cl.x == mm.mx && cl.y == mm.my && cl.w == mm.mw && cl.h == mm.mh
                } by {
                    if self.clients@[c as int].mon == m {
                        let j = choose|j: int| 0 <= j < self.mons@[m as int].clients@.len()
                            && self.mons@[m as int].clients@[j] == c;
                        assert(self.mons@[m as int].clients@[j] == c);
                    }
                }
            }
            m = m + 1;
        }
    }
}

} // verus!
