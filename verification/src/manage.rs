//! Taking a new window under management, and letting one go: where it goes,
//! which tags and flags it gets, and terminals that stand aside for the
//! windows they start (swallowing).
use vstd::prelude::*;
use crate::wm::{Wm, Client, Monitor, SizeHints, entered_fullscreen, left_fullscreen, other_mons_same, same_settings};
use crate::seqs::{position, without, lemma_without_keeps, lemma_push_front_then_remove};
use crate::rules::{Rule, RuleState, apply_rules_upto, final_tags, mons_small, applyrules};
use crate::lookup::ClientQuery;
use crate::geom::imax;

verus! {

/// Whether `v` fits the 16-bit coordinates and sizes of the X protocol.
pub open spec fn x_coord(v: int) -> bool {
    -0x1_0000 <= v <= 0x1_0000
}

/// Tests `x_coord`.
pub fn is_x_coord(v: i32) -> (r: bool)
    ensures
        r == x_coord(v as int),
{
    -0x1_0000 <= v && v <= 0x1_0000
}

/// What a window asks for in its WM hints.
#[derive(Clone, Copy)]
pub struct WmHints {
    pub urgent: bool,
    /// Whether the input hint is given.
    pub has_input: bool,
    /// The input hint: whether the window takes focus.
    pub input: bool,
}

/// What a window asks for through its properties.
#[derive(Clone, Copy)]
pub struct WindowState {
    /// The window it is transient for, when it says so.
    pub transient: Option<u64>,
    /// Whether its state asks for fullscreen.
    pub fullscreen: bool,
    /// Whether its state asks to be sticky.
    pub sticky: bool,
    /// Whether it is a dialog.
    pub dialog: bool,
    pub hints: SizeHints,
    pub wm_hints: Option<WmHints>,
}

/// What is known of a window that asks to be managed.
pub struct NewWindow {
    pub win: u64,
    pub x: i32,
    pub y: i32,
    pub w: i32,
    pub h: i32,
    /// Its border width before it was managed.
    pub border: i32,
    /// Its process, 0 when unknown.
    pub pid: i32,
    pub class: Vec<u8>,
    pub instance: Vec<u8>,
    pub title: Vec<u8>,
    /// Its process chain: the process, its parent, and so on up to the first
    /// process without a parent.
    pub chain: Vec<i32>,
    pub state: WindowState,
}

/// What taking a window under management did, for the caller to show.
pub struct Managed {
    /// The new client.
    pub client: usize,
    /// The terminal that should swallow it, if any.
    pub term: Option<usize>,
    /// The client that was selected on the selected monitor, when the new
    /// client replaces it as selected there.
    pub unfocused: Option<usize>,
}

/// The record of a new window before rules apply: its own geometry and old
/// border, no border, no tags, no flags, on monitor `mon`.
pub open spec fn fresh_client(nw: NewWindow, mon: usize) -> Client {
    Client {
        win: nw.win,
        tags: 0,
        x: nw.x,
        y: nw.y,
        w: nw.w,
        h: nw.h,
        oldx: nw.x,
        oldy: nw.y,
        oldw: nw.w,
        oldh: nw.h,
        bw: 0,
        oldbw: nw.border,
        hints: SizeHints { basew: 0, baseh: 0, incw: 0, inch: 0, maxw: 0, maxh: 0, minw: 0, minh: 0 },
        hintsvalid: false,
        isfixed: false,
        isfloating: false,
        isurgent: false,
        neverfocus: false,
        oldstate: false,
        isfullscreen: false,
        isterminal: false,
        noswallow: false,
        issticky: false,
        pid: nw.pid,
        mon,
        swallowing: None,
        alive: true,
    }
}

/// The managed client the new window is transient for, if any.
pub open spec fn transient_parent(w: Wm, nw: NewWindow) -> Option<usize> {
    match nw.state.transient {
        Some(t) => w.query_result(ClientQuery::Win(t)),
        None => None,
    }
}

/// What the rules decide for the new window (see `applyrules`).
pub open spec fn rules_outcome(w: Wm, nw: NewWindow, rules: Seq<Rule>) -> RuleState {
    let s0 = RuleState { tags: 0, isfloating: false, isterminal: false, noswallow: false, mon: w.selmon, x: nw.x, y: nw.y };
    let s = apply_rules_upto(s0, rules, rules.len() as int, w.mons@, nw.w as int, nw.h as int, nw.class@,
        nw.instance@, nw.title@);
    RuleState { tags: final_tags(s, w.mons@), ..s }
}

/// The new window's monitor and tags: those of the client it is transient
/// for, or else what the rules decide.
pub open spec fn assigned(w: Wm, nw: NewWindow, rules: Seq<Rule>) -> Client {
    let base = fresh_client(nw, w.selmon);
    match transient_parent(w, nw) {
        Some(t) => Client { mon: w.clients@[t as int].mon, tags: w.clients@[t as int].tags, ..base },
        None => {
            let s = rules_outcome(w, nw, rules);
            Client {
                tags: s.tags,
                isfloating: s.isfloating,
                isterminal: s.isterminal,
                noswallow: s.noswallow,
                mon: s.mon,
                x: s.x,
                y: s.y,
                ..base
            }
        },
    }
}

/// Where client `c` goes in the window area of `m`: moved back so that it
/// does not pass the right or bottom edge, then so that it does not start
/// before the left or top edge.
pub open spec fn placed(c: Client, m: Monitor) -> (int, int) {
    let width = c.w + 2 * c.bw;
    let height = c.h + 2 * c.bw;
    let x1 = if c.x + width > m.wx + m.ww { m.wx + m.ww - width } else { c.x as int };
    let y1 = if c.y + height > m.wy + m.wh { m.wy + m.wh - height } else { c.y as int };
    (imax(x1, m.wx as int), imax(y1, m.wy as int))
}

/// Client `c` placed in the window area of `m` (see `placed`) with border width `bw`.
pub open spec fn placed_client(c: Client, m: Monitor, bw: i32) -> Client {
    let (px, py) = placed(c, m);
    Client { x: px as i32, y: py as i32, bw, ..c }
}

/// A placed new client `c` on monitor `m` made fullscreen, sticky or
/// floating as the window's state and type ask.
pub open spec fn stated(c: Client, m: Monitor, nw: WindowState) -> Client {
    let c3 = if nw.fullscreen && !c.isfullscreen { entered_fullscreen(c, m.mx, m.my, m.mw, m.mh) } else { c };
    let c4 = if nw.sticky { Client { issticky: true, ..c3 } } else { c3 };
    if nw.dialog { Client { isfloating: true, ..c4 } } else { c4 }
}

/// Client `c` with the window's size and WM hints; when it does not float
/// yet, it floats exactly when it is transient or has a fixed size.
pub open spec fn hinted(c: Client, nw: WindowState) -> Client {
    let h = nw.hints;
    let c6 = Client {
        hints: h,
        isfixed: h.maxw != 0 && h.maxh != 0 && h.maxw == h.minw && h.maxh == h.minh,
        hintsvalid: true,
        ..c
    };
    let c7 = match nw.wm_hints {
        Some(wh) => Client { isurgent: wh.urgent, neverfocus: wh.has_input && !wh.input, ..c6 },
        None => c6,
    };
    let fl = (nw.transient matches Some(t) && t != 0) || c7.isfixed;
    if !c7.isfloating { Client { oldstate: fl, isfloating: fl, ..c7 } } else { c7 }
}

/// A placed new client `c` on monitor `m` as its state, type and hints ask
/// (see `stated` and `hinted`).
pub open spec fn finished(c: Client, m: Monitor, nw: WindowState) -> Client {
    hinted(stated(c, m, nw), nw)
}

/// The record of the new window once managed, with border width `bw`:
/// assigned (see `assigned`), placed on its monitor, then finished (see `finished`).
pub open spec fn managed_record(w: Wm, nw: NewWindow, rules: Seq<Rule>, bw: i32) -> Client {
    let c1 = assigned(w, nw, rules);
    let m = w.mons@[c1.mon as int];
    finished(placed_client(c1, m, bw), m, nw.state)
}

/// A new window floats when its rules make it float, when it is a dialog,
/// when it is transient for another window, or when its size is fixed (its
/// size hints give equal non-zero minimum and maximum sizes).
pub proof fn lemma_managed_floats(w: Wm, nw: NewWindow, rules: Seq<Rule>, bw: i32)
    ensures
        ({
            let rec = managed_record(w, nw, rules, bw);
            let h = nw.state.hints;
            &&& assigned(w, nw, rules).isfloating ==> rec.isfloating
            &&& nw.state.dialog ==> rec.isfloating
            &&& (nw.state.transient matches Some(t) && t != 0) ==> rec.isfloating
            &&& (h.maxw != 0 && h.maxh != 0 && h.maxw == h.minw && h.maxh == h.minh) ==> rec.isfloating
        }),
{
}

/// A new window takes the state it asks for: fullscreen (then also
/// floating), sticky, and urgent or not as its WM hints say; its tags,
/// monitor and window are those its rules assigned.
pub proof fn lemma_managed_state(w: Wm, nw: NewWindow, rules: Seq<Rule>, bw: i32)
    ensures
        ({
            let rec = managed_record(w, nw, rules, bw);
            let a = assigned(w, nw, rules);
            &&& nw.state.fullscreen ==> rec.isfullscreen && rec.isfloating
            &&& nw.state.sticky ==> rec.issticky
            &&& (nw.state.wm_hints matches Some(wh) ==> rec.isurgent == wh.urgent)
            &&& rec.tags == a.tags && rec.mon == a.mon && rec.win == a.win
        }),
{
}

/// The terminal that swallows the new window: none for a transient window;
/// otherwise as `termforwin` finds it.
pub open spec fn swallowing_term(w: Wm, nw: NewWindow, rules: Seq<Rule>) -> Option<usize> {
    if transient_parent(w, nw) is Some || nw.pid == 0 || rules_outcome(w, nw, rules).isterminal {
        None
    } else {
        w.query_result(ClientQuery::Terminal(nw.chain))
    }
}

impl Wm {
    /// Adds the record of a client that is not in any list yet.
    fn add_client(&mut self, cl: Client) -> (c: usize)
        requires
            old(self).wf(),
            cl.mon < old(self).mons@.len(),
            old(self).clients@.len() < usize::MAX,
        ensures
            final(self).wf(),
            c == old(self).clients@.len(),
            final(self).clients@ == old(self).clients@.push(cl),
            final(self).mons == old(self).mons,
            final(self).selmon == old(self).selmon,
            !final(self).attached(c),
    {
        let ghost old_state = *self;
        let c = self.clients.len();
        self.clients.push(cl);
        proof {
            assert forall|k: int| 0 <= k < self.mons@.len() implies #[trigger] self.mon_ok(k) by {
                assert(old_state.mon_ok(k));
                let mon = self.mons@[k];
                assert forall|x: usize| #[trigger] mon.clients@.contains(x) implies x < self.clients@.len()
                    && self.clients@[x as int].mon == k && self.clients@[x as int].alive by {
                    assert(self.clients@[x as int] == old_state.clients@[x as int]);
                }
            }
            assert forall|x: int| 0 <= x < self.clients@.len() implies #[trigger] self.clients@[x].mon
                < self.mons@.len() by {
                if x < c {
                    assert(old_state.clients@[x].mon < old_state.mons@.len());
                }
            }
            let m = cl.mon as int;
            assert(old_state.mon_ok(m));
            assert(!self.mons@[m].clients@.contains(c));
        }
        c
    }

    /// Sets whether client `c` floats.
    pub fn set_floating(&mut self, c: usize, f: bool)
        requires
            old(self).wf(),
            c < old(self).clients@.len(),
        ensures
            final(self).wf(),
            final(self).clients@ == old(self).clients@.update(c as int, Client { isfloating: f, ..old(self).clients@[c as int] }),
            final(self).mons == old(self).mons,
            final(self).selmon == old(self).selmon,
    {
        let ghost old_state = *self;
        self.clients[c].isfloating = f;
        proof {
            assert(self.clients@ =~= old_state.clients@.update(c as int, Client { isfloating: f, ..old_state.clients@[c as int] }));
            assert(old_state.mon_ok(self.selmon as int));
            Wm::lemma_wf_frame(old_state, *self, self.selmon as int);
        }
    }

    /// The new window's monitor, tags and rule flags (see `assigned`), and
    /// whether it is transient for a managed client.
    fn assign_client(&self, nw: &NewWindow, rules: &Vec<Rule>) -> (r: (Client, bool))
        requires
            self.wf(),
            mons_small(self.mons@),
            x_coord(nw.x as int) && x_coord(nw.y as int) && x_coord(nw.w as int) && x_coord(nw.h as int),
        ensures
            r.0 == assigned(*self, *nw, rules@),
            r.1 == transient_parent(*self, *nw) is Some,
            r.0.mon < self.mons@.len(),
            -0x2000_0000 <= r.0.x <= 0x2000_0000,
            -0x2000_0000 <= r.0.y <= 0x2000_0000,
    {
        let parent = match nw.state.transient {
            Some(t) => self.wintoclient(t),
            None => None,
        };
        let nmons = self.mons.len();
        let mut cl = Client {
            win: nw.win,
            tags: 0,
            x: nw.x,
            y: nw.y,
            w: nw.w,
            h: nw.h,
            oldx: nw.x,
            oldy: nw.y,
            oldw: nw.w,
            oldh: nw.h,
            bw: 0,
            oldbw: nw.border,
            hints: SizeHints { basew: 0, baseh: 0, incw: 0, inch: 0, maxw: 0, maxh: 0, minw: 0, minh: 0 },
            hintsvalid: false,
            isfixed: false,
            isfloating: false,
            isurgent: false,
            neverfocus: false,
            oldstate: false,
            isfullscreen: false,
            isterminal: false,
            noswallow: false,
            issticky: false,
            pid: nw.pid,
            mon: self.selmon,
            swallowing: None,
            alive: true,
        };
        match parent {
            Some(t) => {
                cl.mon = self.clients[t].mon;
                cl.tags = self.clients[t].tags;
                (cl, true)
            },
            None => {
                let s = applyrules(rules, &self.mons, self.selmon, nw.x, nw.y, nw.w, nw.h, &nw.class,
                    &nw.instance, &nw.title, false, false);
                proof {
                    let s0 = RuleState { tags: 0, isfloating: false, isterminal: false, noswallow: false,
                        mon: self.selmon, x: nw.x, y: nw.y };
                    lemma_rules_keep_small(s0, rules@, rules@.len() as int, self.mons@, *nw);
                }
                cl.tags = s.tags;
                cl.isfloating = s.isfloating;
                cl.isterminal = s.isterminal;
                cl.noswallow = s.noswallow;
                cl.mon = s.mon;
                cl.x = s.x;
                cl.y = s.y;
                (cl, false)
            },
        }
    }

    /// Makes the new client `c` fullscreen, sticky or floating as the window
    /// asks (see `stated`).
    fn state_client(&mut self, c: usize, nw: WindowState)
        requires
            old(self).wf(),
            c < old(self).clients@.len(),
        ensures
            final(self).wf(),
            final(self).clients@ == old(self).clients@.update(c as int, stated(old(self).clients@[c as int],
                old(self).mons@[old(self).clients@[c as int].mon as int], nw)),
            final(self).mons == old(self).mons,
            final(self).selmon == old(self).selmon,
    {
        let ghost old_state = *self;
        let ghost cl = old_state.clients@[c as int];
        let ghost m = old_state.mons@[cl.mon as int];
        if nw.fullscreen {
            self.setfullscreen(c, true);
        }
        let ghost c3 = if nw.fullscreen && !cl.isfullscreen { entered_fullscreen(cl, m.mx, m.my, m.mw, m.mh) } else { cl };
        proof {
            if !(nw.fullscreen && !cl.isfullscreen) {
                assert(self.clients@ =~= old_state.clients@.update(c as int, c3));
            }
        }
        if nw.sticky {
            self.setsticky(c, true);
        }
        let ghost c4 = if nw.sticky { Client { issticky: true, ..c3 } } else { c3 };
        proof {
            assert(self.clients@ =~= old_state.clients@.update(c as int, c4));
        }
        if nw.dialog {
            self.set_floating(c, true);
        }
        proof {
            assert(self.clients@ =~= old_state.clients@.update(c as int, stated(cl, m, nw)));
        }
    }

    /// Records the new client's hints and decides whether it floats (see `hinted`).
    fn hint_client(&mut self, c: usize, nw: WindowState)
        requires
            old(self).wf(),
            c < old(self).clients@.len(),
            !old(self).attached(c),
        ensures
            final(self).wf(),
            final(self).clients@ == old(self).clients@.update(c as int, hinted(old(self).clients@[c as int], nw)),
            final(self).mons == old(self).mons,
            final(self).selmon == old(self).selmon,
    {
        let ghost old_state = *self;
        let ghost cl = old_state.clients@[c as int];
        let h = nw.hints;
        self.set_size_hints(c, h);
        let ghost c6 = Client {
            hints: h,
            isfixed: h.maxw != 0 && h.maxh != 0 && h.maxw == h.minw && h.maxh == h.minh,
            hintsvalid: true,
            ..cl
        };
        proof {
            assert(self.clients@[c as int] == c6);
        }
        self.record_wm_hints(c, nw.wm_hints);
        let ghost c7 = match nw.wm_hints {
            Some(wh) => Client { isurgent: wh.urgent, neverfocus: wh.has_input && !wh.input, ..c6 },
            None => c6,
        };
        proof {
            assert(self.clients@ =~= old_state.clients@.update(c as int, c7));
        }
        let trans = match nw.transient { Some(t) => t != 0, None => false };
        self.decide_floating(c, trans);
        proof {
            assert(self.clients@ =~= old_state.clients@.update(c as int, hinted(cl, nw)));
        }
    }

    /// Records the WM hints of client `c`, which is in no list (so not selected).
    fn record_wm_hints(&mut self, c: usize, wm_hints: Option<WmHints>)
        requires
            old(self).wf(),
            c < old(self).clients@.len(),
            !old(self).attached(c),
        ensures
            final(self).wf(),
            final(self).clients@ == match wm_hints {
                Some(wh) => old(self).clients@.update(c as int, Client {
                    isurgent: wh.urgent,
                    neverfocus: wh.has_input && !wh.input,
                    ..old(self).clients@[c as int]
                }),
                None => old(self).clients@,
            },
            final(self).mons == old(self).mons,
            final(self).selmon == old(self).selmon,
    {
        if let Some(wh) = wm_hints {
            proof {
                assert(self.mon_ok(self.selmon as int));
                assert(self.mon_ok(self.clients@[c as int].mon as int));
                if self.mons@[self.selmon as int].sel == Some(c) {
                    assert(self.mons@[self.selmon as int].clients@.contains(c));
                }
            }
            self.updatewmhints(c, wh.urgent, wh.has_input, wh.input);
        }
    }

    /// A client that does not float yet floats exactly when it is transient
    /// (`trans`) or has a fixed size; this is also what it remembers.
    fn decide_floating(&mut self, c: usize, trans: bool)
        requires
            old(self).wf(),
            c < old(self).clients@.len(),
        ensures
            final(self).wf(),
            ({
                let cl = old(self).clients@[c as int];
                let fl = trans || cl.isfixed;
                final(self).clients@ == if !cl.isfloating {
                    old(self).clients@.update(c as int, Client { oldstate: fl, isfloating: fl, ..cl })
                } else {
                    old(self).clients@
                }
            }),
            final(self).mons == old(self).mons,
            final(self).selmon == old(self).selmon,
    {
        if !self.clients[c].isfloating {
            let fl = trans || self.clients[c].isfixed;
            let ghost before = *self;
            self.clients[c].oldstate = fl;
            self.clients[c].isfloating = fl;
            proof {
                assert(self.clients@ =~= before.clients@.update(c as int, Client { oldstate: fl, isfloating: fl, ..before.clients@[c as int] }));
                assert(before.mon_ok(self.selmon as int));
                Wm::lemma_wf_frame(before, *self, self.selmon as int);
            }
        }
    }

    /// Makes the new client `c` what the window asks for (see `finished`).
    fn finish_client(&mut self, c: usize, nw: WindowState)
        requires
            old(self).wf(),
            c < old(self).clients@.len(),
            !old(self).attached(c),
        ensures
            final(self).wf(),
            final(self).clients@ == old(self).clients@.update(c as int, finished(old(self).clients@[c as int],
                old(self).mons@[old(self).clients@[c as int].mon as int], nw)),
            final(self).mons == old(self).mons,
            final(self).selmon == old(self).selmon,
    {
        let ghost old_state = *self;
        self.state_client(c, nw);
        proof {
            assert(!self.attached(c)) by {
                assert(self.clients@[c as int].mon == old_state.clients@[c as int].mon);
            }
        }
        self.hint_client(c, nw);
        proof {
            assert(self.clients@ =~= old_state.clients@.update(c as int, finished(old_state.clients@[c as int],
                old_state.mons@[old_state.clients@[c as int].mon as int], nw)));
        }
    }

    /// Takes a new window under management with border width `bw` (see
    /// `managed_record`): it joins the head of both lists of its monitor and
    /// becomes that monitor's selected client. Returns its index, the terminal
    /// that should swallow it (see `swallowing_term`), and the client it
    /// replaces as selected on the selected monitor.
    pub fn manage(&mut self, nw: NewWindow, rules: &Vec<Rule>, bw: i32) -> (r: Managed)
        requires
            old(self).wf(),
            mons_small(old(self).mons@),
            old(self).clients@.len() < usize::MAX,
            x_coord(nw.x as int) && x_coord(nw.y as int) && x_coord(nw.w as int) && x_coord(nw.h as int),
            0 <= bw <= 0x1_0000,
        ensures
            final(self).wf(),
            r.client == old(self).clients@.len(),
            ({
                let rec = managed_record(*old(self), nw, rules@, bw);
                let m = rec.mon as int;
                &&& final(self).clients@ == old(self).clients@.push(rec)
                &&& final(self).attached(r.client)
                &&& final(self).mons@[m].clients@ == old(self).mons@[m].clients@.insert(0, r.client)
                &&& final(self).mons@[m].stack@ == old(self).mons@[m].stack@.insert(0, r.client)
                &&& final(self).mons@[m].sel == Some(r.client)
                &&& same_settings(final(self).mons@[m], old(self).mons@[m])
                &&& other_mons_same(*old(self), *final(self), m)
                &&& r.unfocused == if m == old(self).selmon { old(self).mons@[m].sel } else { None }
            }),
            r.term == swallowing_term(*old(self), nw, rules@),
            nw.state.dialog ==> final(self).clients@[r.client as int].isfloating,
            final(self).selmon == old(self).selmon,
    {
        let ghost old_state = *self;
        let ghost nw0 = nw;
        let (cl, has_parent) = self.assign_client(&nw, rules);
        let term = if has_parent { None } else { self.termforwin(nw.pid, cl.isterminal, nw.chain) };
        let m = cl.mon;
        let placed = place_client(cl, &self.mons[m], bw);
        let c = self.add_client(placed);
        let ghost st = *self;
        proof {
            assert(st.mon_ok(m as int));
        }
        self.finish_client(c, nw.state);
        proof {
            assert(self.clients@ =~= old_state.clients@.push(managed_record(old_state, nw0, rules@, bw)));
            assert(!self.attached(c)) by {
                assert(st.mon_ok(m as int));
            }
        }
        let unfocused = if m == self.selmon {
            proof {
                assert(self.mon_ok(m as int));
            }
            self.mons[m].sel
        } else {
            None
        };
        self.attach_all(c);
        let ghost attached_state = *self;
        self.mons[m].sel = Some(c);
        proof {
            assert(attached_state.mon_ok(m as int));
            assert(self.mons@[m as int].clients@.contains(c));
            assert(self.mon_ok(m as int));
            Wm::lemma_wf_frame(attached_state, *self, m as int);
        }
        proof {
            lemma_managed_floats(old_state, nw0, rules@, bw);
        }
        Managed { client: c, term, unfocused }
    }
}

/// What letting a client go did, for the caller to show.
#[derive(Clone, Copy, PartialEq, Eq, Structural, Debug)]
pub enum Unmanaged {
    /// The client had swallowed a window: it shows that window again, and
    /// the record that kept it (the index given) is freed.
    Unswallowed(usize),
    /// The client was the window a terminal (the index given) stood in for:
    /// the terminal lets it go.
    Released(usize),
    /// The client left the lists of its monitor and is freed.
    Removed,
}

/// Record `r` freed unless it is in the lists of its monitor in `w`.
pub open spec fn freed_unless_attached(w: Wm, r: Client, s: usize) -> Client {
    if w.attached(s) { r } else { Client { alive: false, ..r } }
}

/// Client `c` showing the window kept in the record it swallowed again, no
/// longer swallowing, and out of fullscreen.
pub open spec fn unswallowed(w: Wm, c: usize) -> Client {
    let cl = w.clients@[c as int];
    let s = cl.swallowing->0;
    let c1 = Client { win: w.clients@[s as int].win, swallowing: None, ..cl };
    if c1.isfullscreen { left_fullscreen(c1) } else { c1 }
}

impl Wm {
    /// Whether client `c` is in the lists of its monitor; see `attached`.
    pub fn is_attached(&self, c: usize) -> (r: bool)
        requires
            self.wf(),
            c < self.clients@.len(),
        ensures
            r == self.attached(c),
    {
        let m = self.clients[c].mon;
        position(&self.mons[m].clients, c).is_some()
    }

    /// Changes the record of client `c`, which is in no list.
    fn set_detached_client(&mut self, c: usize, v: Client)
        requires
            old(self).wf(),
            c < old(self).clients@.len(),
            !old(self).attached(c),
            v.mon < old(self).mons@.len(),
        ensures
            final(self).wf(),
            final(self).clients@ == old(self).clients@.update(c as int, v),
            final(self).mons == old(self).mons,
            final(self).selmon == old(self).selmon,
            !final(self).attached(c),
    {
        let ghost old_state = *self;
        self.clients.set(c, v);
        proof {
            assert forall|k: int| 0 <= k < self.mons@.len() implies #[trigger] self.mon_ok(k) by {
                assert(old_state.mon_ok(k));
                let mon = self.mons@[k];
                assert forall|x: usize| #[trigger] mon.clients@.contains(x) implies x < self.clients@.len()
                    && self.clients@[x as int].mon == k && self.clients@[x as int].alive by {
                    if x == c {
                        assert(old_state.clients@[c as int].mon == k);
                    }
                }
            }
            assert forall|x: int| 0 <= x < self.clients@.len() implies #[trigger] self.clients@[x].mon
                < self.mons@.len() by {
                assert(old_state.clients@[x].mon < old_state.mons@.len());
            }
            assert(old_state.mon_ok(v.mon as int));
        }
    }

    /// Frees record `s` unless it is in the lists of its monitor.
    fn free_record(&mut self, s: usize)
        requires
            old(self).wf(),
            s < old(self).clients@.len(),
        ensures
            final(self).wf(),
            final(self).clients@ == old(self).clients@.update(s as int, freed_unless_attached(*old(self),
                old(self).clients@[s as int], s)),
            final(self).mons == old(self).mons,
            final(self).selmon == old(self).selmon,
    {
        if !self.is_attached(s) {
            let mut sc = self.clients[s];
            sc.alive = false;
            proof {
                assert(self.clients@[s as int].mon < self.mons@.len());
            }
            self.set_detached_client(s, sc);
        } else {
            proof {
                assert(self.clients@ =~= self.clients@.update(s as int, self.clients@[s as int]));
            }
        }
    }

    /// Terminal `p` swallows client `c`: unless `c` never swallows or is a
    /// terminal itself, `c` leaves the lists of its monitor (see
    /// `detach_all`) and moves to `p`'s monitor, and the two trade windows:
    /// `p` shows `c`'s window and keeps `c`, whose record keeps `p`'s window.
    /// Returns whether it happened.
    pub fn swallow(&mut self, p: usize, c: usize) -> (done: bool)
        requires
            old(self).wf(),
            p < old(self).clients@.len(),
            c < old(self).clients@.len(),
            p != c,
            old(self).attached(p),
        ensures
            final(self).wf(),
            final(self).selmon == old(self).selmon,
            done == !(old(self).clients@[c as int].noswallow || old(self).clients@[c as int].isterminal),
            !done ==> *final(self) == *old(self),
            done ==> ({
                let pc = old(self).clients@[p as int];
                let cc = old(self).clients@[c as int];
                let mc = cc.mon as int;
                &&& final(self).clients@ == old(self).clients@.update(p as int, Client {
                    swallowing: Some(c),
                    win: cc.win,
                    ..pc
                }).update(c as int, Client { win: pc.win, mon: pc.mon, ..cc })
                &&& !final(self).attached(c)
                &&& final(self).attached(p)
                &&& final(self).mons@[mc].clients@ == without(old(self).mons@[mc].clients@, c)
                &&& final(self).mons@[mc].stack@ == without(old(self).mons@[mc].stack@, c)
                &&& final(self).mons@[mc].sel == if old(self).mons@[mc].sel == Some(c) {
                    old(self).first_visible(final(self).mons@[mc].stack@)
                } else {
                    old(self).mons@[mc].sel
                }
                &&& same_settings(final(self).mons@[mc], old(self).mons@[mc])
                &&& other_mons_same(*old(self), *final(self), mc)
            }),
    {
        if self.clients[c].noswallow || self.clients[c].isterminal {
            return false;
        }
        let ghost old_state = *self;
        let ghost mp = old_state.clients@[p as int].mon as int;
        self.detach_all(c);
        proof {
            if mp == old_state.clients@[c as int].mon as int {
                lemma_without_keeps(old_state.mons@[mp].clients@, c, p);
            }
            assert(self.attached(p));
        }
        let pwin = self.clients[p].win;
        let cwin = self.clients[c].win;
        let pmon = self.clients[p].mon;
        let ghost detached = *self;
        let mut pc = self.clients[p];
        pc.swallowing = Some(c);
        pc.win = cwin;
        self.update_client(p, pc);
        proof {
            assert(!self.attached(c)) by {
                assert(self.mons == detached.mons);
            }
            assert(self.mons == detached.mons);
        }
        let mut cc = self.clients[c];
        cc.win = pwin;
        cc.mon = pmon;
        self.set_detached_client(c, cc);
        proof {
            assert(self.attached(p)) by {
                assert(self.clients@[p as int].mon == detached.clients@[p as int].mon);
            }
        }
        true
    }

    /// Client `c`, which swallowed a window, shows it again: it takes the
    /// window back from the record that kept it (which is freed unless it is
    /// in a list) and leaves fullscreen. Returns that record.
    pub fn unswallow(&mut self, c: usize) -> (freed: usize)
        requires
            old(self).wf(),
            c < old(self).clients@.len(),
            old(self).clients@[c as int].swallowing matches Some(s) && s < old(self).clients@.len() && s != c,
        ensures
            final(self).wf(),
            Some(freed) == old(self).clients@[c as int].swallowing,
            final(self).clients@ == old(self).clients@.update(freed as int, freed_unless_attached(*old(self),
                old(self).clients@[freed as int], freed)).update(c as int, unswallowed(*old(self), c)),
            final(self).mons == old(self).mons,
            final(self).selmon == old(self).selmon,
    {
        let ghost old_state = *self;
        let s = match self.clients[c].swallowing {
            Some(s) => s,
            None => { return 0; },
        };
        let swin = self.clients[s].win;
        self.free_record(s);
        let mut cl = self.clients[c];
        cl.win = swin;
        cl.swallowing = None;
        self.update_client(c, cl);
        self.setfullscreen(c, false);
        proof {
            assert(self.clients@ =~= old_state.clients@.update(s as int, freed_unless_attached(old_state,
                old_state.clients@[s as int], s)).update(c as int, unswallowed(old_state, c)));
        }
        s
    }

    /// Lets client `c` go: a client that swallowed a window shows it again
    /// (see `unswallow`); the window a terminal stands in for is released by
    /// that terminal, and its record freed unless it is in a list; any other
    /// client leaves its monitor's lists (see `detach_all`) and is freed.
    pub fn unmanage(&mut self, c: usize) -> (r: Unmanaged)
        requires
            old(self).wf(),
            c < old(self).clients@.len(),
            old(self).clients@[c as int].swallowing matches Some(s) ==> s < old(self).clients@.len() && s != c,
        ensures
            final(self).wf(),
            final(self).selmon == old(self).selmon,
            match old(self).clients@[c as int].swallowing {
                Some(s) => {
                    &&& r == Unmanaged::Unswallowed(s)
                    &&& final(self).clients@ == old(self).clients@.update(s as int, freed_unless_attached(*old(self),
                        old(self).clients@[s as int], s)).update(c as int, unswallowed(*old(self), c))
                    &&& final(self).mons == old(self).mons
                },
                None => match old(self).query_result(ClientQuery::Swallower(old(self).clients@[c as int].win)) {
                    Some(o) => {
                        let s = old(self).clients@[o as int].swallowing->0;
                        let mid = old(self).clients@.update(o as int, Client { swallowing: None, ..old(self).clients@[o as int] });
                        &&& r == Unmanaged::Released(o)
                        &&& final(self).clients@ == mid.update(s as int, freed_unless_attached(*old(self), mid[s as int], s))
                        &&& final(self).mons == old(self).mons
                    },
                    None => {
                        let mc = old(self).clients@[c as int].mon as int;
                        &&& r == Unmanaged::Removed
                        &&& final(self).clients@ == old(self).clients@.update(c as int, Client { alive: false, ..old(self).clients@[c as int] })
                        &&& !final(self).attached(c)
                        &&& final(self).mons@[mc].clients@ == without(old(self).mons@[mc].clients@, c)
                        &&& final(self).mons@[mc].stack@ == without(old(self).mons@[mc].stack@, c)
                        &&& final(self).mons@[mc].sel == if old(self).mons@[mc].sel == Some(c) {
                            old(self).first_visible(final(self).mons@[mc].stack@)
                        } else {
                            old(self).mons@[mc].sel
                        }
                        &&& same_settings(final(self).mons@[mc], old(self).mons@[mc])
                        &&& other_mons_same(*old(self), *final(self), mc)
                    },
                },
            },
    {
        if self.clients[c].swallowing.is_some() {
            let s = self.unswallow(c);
            return Unmanaged::Unswallowed(s);
        }
        let ghost old_state = *self;
        let win = self.clients[c].win;
        match self.swallowingclient(win) {
            Some(o) => {
                proof {
                    crate::lookup::lemma_first_where_found(old_state.listed(),
                        |x: usize| ClientQuery::Swallower(win).holds(old_state, x));
                }
                let s = match self.clients[o].swallowing {
                    Some(s) => s,
                    None => { return Unmanaged::Released(o); },
                };
                let mut oc = self.clients[o];
                oc.swallowing = None;
                self.update_client(o, oc);
                let ghost mid = *self;
                self.free_record(s);
                proof {
                    assert(mid.attached(s) == old_state.attached(s));
                }
                Unmanaged::Released(o)
            },
            None => {
                self.detach_all(c);
                let mut cc = self.clients[c];
                cc.alive = false;
                proof {
                    assert(self.clients@[c as int].mon < self.mons@.len());
                }
                self.set_detached_client(c, cc);
                Unmanaged::Removed
            },
        }
    }
}

/// Client `c` placed in the window area of `m` with border width `bw`; see `placed_client`.
fn place_client(c: Client, m: &Monitor, bw: i32) -> (r: Client)
    requires
        -0x2000_0000 <= c.x <= 0x2000_0000,
        -0x2000_0000 <= c.y <= 0x2000_0000,
        x_coord(c.w as int) && x_coord(c.h as int) && x_coord(c.bw as int),
        -0x1000_0000 <= m.wx <= 0x1000_0000,
        -0x1000_0000 <= m.wy <= 0x1000_0000,
        -0x1000_0000 <= m.ww <= 0x1000_0000,
        -0x1000_0000 <= m.wh <= 0x1000_0000,
    ensures
        r == placed_client(c, *m, bw),
{
    let width = c.w + 2 * c.bw;
    let height = c.h + 2 * c.bw;
    let mut x = c.x;
    let mut y = c.y;
    if x + width > m.wx + m.ww {
        x = m.wx + m.ww - width;
    }
    if y + height > m.wy + m.wh {
        y = m.wy + m.wh - height;
    }
    if x < m.wx {
        x = m.wx;
    }
    if y < m.wy {
        y = m.wy;
    }
    Client { x, y, bw, ..c }
}

/// Rules keep a new window's position near the monitors: it stays where it
/// was or is centred on a monitor.
proof fn lemma_rules_keep_small(s0: RuleState, rules: Seq<Rule>, k: int, mons: Seq<Monitor>, nw: NewWindow)
    requires
        mons_small(mons),
        mons.len() <= usize::MAX,
        0 <= k <= rules.len(),
        s0.mon < mons.len(),
        x_coord(s0.x as int) && x_coord(s0.y as int),
        x_coord(nw.w as int) && x_coord(nw.h as int),
    ensures
        ({
            let s = apply_rules_upto(s0, rules, k, mons, nw.w as int, nw.h as int, nw.class@, nw.instance@, nw.title@);
            &&& -0x2000_0000 <= s.x <= 0x2000_0000
            &&& -0x2000_0000 <= s.y <= 0x2000_0000
            &&& s.mon < mons.len()
        }),
    decreases k,
{
    if k > 0 {
        lemma_rules_keep_small(s0, rules, k - 1, mons, nw);
        let s = apply_rules_upto(s0, rules, k - 1, mons, nw.w as int, nw.h as int, nw.class@, nw.instance@, nw.title@);
        assert(-0x1000_0000 <= mons[s.mon as int].wx <= 0x1000_0000);
        let r = rules[k - 1];
        crate::rules::lemma_mon_with_num_from_valid(mons, r.monitor, 0);
        let m = mons[s.mon as int];
        assert(-0x1000_0000 <= m.ww <= 0x1000_0000 && -0x1000_0000 <= m.wy <= 0x1000_0000
            && -0x1000_0000 <= m.wh <= 0x1000_0000);
        lemma_half_bound(m.ww as int);
        lemma_half_bound(m.wh as int);
        lemma_half_bound(nw.w as int);
        lemma_half_bound(nw.h as int);
    }
}

/// Halving toward zero keeps a number within half its bound.
proof fn lemma_half_bound(a: int)
    requires
        -0x1000_0000 <= a <= 0x1000_0000,
    ensures
        -0x0800_0000 <= crate::geom::tdiv(a, 2) <= 0x0800_0000,
{
    let b = crate::geom::iabs(a);
    assert(0 <= b <= 0x1000_0000);
    assert(0 <= b / 2 <= 0x0800_0000) by (nonlinear_arith)
        requires
            0 <= b <= 0x1000_0000,
    ;
    assert(crate::geom::iabs(2) == 2);
}

/// Managing a window and letting it go again leaves the lists of its
/// monitor as they were: `w1` is `w0` after `manage` gave client `c` to
/// monitor `m`, and `w2` is `w1` after `unmanage` removed it.
pub proof fn lemma_manage_then_unmanage(w0: Wm, w1: Wm, w2: Wm, c: usize, m: int)
    requires
        w0.wf(),
        0 <= m < w0.mons@.len(),
        c == w0.clients@.len(),
        w1.mons@[m].clients@ == w0.mons@[m].clients@.insert(0, c),
        w1.mons@[m].stack@ == w0.mons@[m].stack@.insert(0, c),
        w2.mons@[m].clients@ == without(w1.mons@[m].clients@, c),
        w2.mons@[m].stack@ == without(w1.mons@[m].stack@, c),
    ensures
        w2.mons@[m].clients@ == w0.mons@[m].clients@,
        w2.mons@[m].stack@ == w0.mons@[m].stack@,
{
    assert(w0.mon_ok(m));
    assert(!w0.mons@[m].clients@.contains(c));
    assert(!w0.mons@[m].stack@.contains(c));
    lemma_push_front_then_remove(w0.mons@[m].clients@, c);
    lemma_push_front_then_remove(w0.mons@[m].stack@, c);
}

/// A terminal that swallowed a window and gives it back shows its own
/// window again: `w1` is `w0` after terminal `p` swallowed client `c`
/// (see `swallow`); then `unswallow(p)` leaves `p` with its own window and
/// swallowing nothing.
pub proof fn lemma_swallow_then_unswallow(w0: Wm, w1: Wm, p: usize, c: usize)
    requires
        p != c,
        p < w0.clients@.len(),
        c < w0.clients@.len(),
        w1.clients@ == w0.clients@.update(p as int, Client {
            swallowing: Some(c),
            win: w0.clients@[c as int].win,
            ..w0.clients@[p as int]
        }).update(c as int, Client { win: w0.clients@[p as int].win, mon: w0.clients@[p as int].mon, ..w0.clients@[c as int] }),
    ensures
        unswallowed(w1, p).win == w0.clients@[p as int].win,
        unswallowed(w1, p).swallowing is None,
        unswallowed(w1, p).mon == w0.clients@[p as int].mon,
        unswallowed(w1, p).tags == w0.clients@[p as int].tags,
{
}

} // verus!
