//! The state of the window manager: the managed clients, the monitors, the
//! order of clients on each monitor (for tiling) and their focus history
//! (the stack), and the operations that change them.
use vstd::prelude::*;
use crate::seqs::{position, remove_value, without, lemma_remove_contents, lemma_push_front_contents,
    lemma_without_absent, lemma_without_contents,
    lemma_insert_contents, lemma_remove_subset};
use crate::config::{PREV_SEL, arranges, FLOATING_LAYOUT, NUM_LAYOUTS, LOCK_FULLSCREEN, layout_symbol, spec_layout_symbol};
use crate::tags::{TAGMASK, shift, spec_shift, sptag, shift_search_within, shift_iter, shift_stops, spec_sptag,
    NUM_SCRATCHPADS, TagSets, tagsets_ok, current, view_result, toggleview_result, tag_result,
    toggletag_result, swap_result, lemma_view_keeps_ok, lemma_toggletag_twice};

verus! {

/// The size constraints a client asks for (ICCCM WM_NORMAL_HINTS); zero means
/// "not given". Aspect limits are kept by the caller.
#[derive(Clone, Copy, PartialEq, Eq, Structural)]
pub struct SizeHints {
    pub basew: i32,
    pub baseh: i32,
    pub incw: i32,
    pub inch: i32,
    pub maxw: i32,
    pub maxh: i32,
    pub minw: i32,
    pub minh: i32,
}

/// A managed top-level window.
#[derive(Clone, Copy)]
pub struct Client {
    pub win: u64,
    pub tags: u32,
    pub x: i32,
    pub y: i32,
    pub w: i32,
    pub h: i32,
    pub oldx: i32,
    pub oldy: i32,
    pub oldw: i32,
    pub oldh: i32,
    pub bw: i32,
    pub oldbw: i32,
    pub hints: SizeHints,
    pub hintsvalid: bool,
    pub isfixed: bool,
    pub isfloating: bool,
    pub isurgent: bool,
    pub neverfocus: bool,
    pub oldstate: bool,
    pub isfullscreen: bool,
    pub isterminal: bool,
    pub noswallow: bool,
    pub issticky: bool,
    pub pid: i32,
    /// Index of the monitor the client is on.
    pub mon: usize,
    /// The client whose window this terminal stands in for, if it swallowed one.
    pub swallowing: Option<usize>,
    /// Whether this slot holds a managed client (slots are reused).
    pub alive: bool,
}

/// A monitor (screen area) with its own tag sets, layout and client lists.
pub struct Monitor {
    pub num: i32,
    /// Bar position.
    pub by: i32,
    /// Monitor area.
    pub mx: i32,
    pub my: i32,
    pub mw: i32,
    pub mh: i32,
    /// Window area: the monitor area without the bar.
    pub wx: i32,
    pub wy: i32,
    pub ww: i32,
    pub wh: i32,
    pub gappih: i32,
    pub gappiv: i32,
    pub gappoh: i32,
    pub gappov: i32,
    /// Which of the two tag sets is shown (0 or 1).
    pub seltags: usize,
    /// Which of the two layouts is in use (0 or 1).
    pub sellt: usize,
    pub tagset: [u32; 2],
    pub showbar: bool,
    pub topbar: bool,
    pub nmaster: i32,
    /// Clients in tiling order.
    pub clients: Vec<usize>,
    /// Clients in focus order, most recent first.
    pub stack: Vec<usize>,
    /// The selected client.
    pub sel: Option<usize>,
    pub barwin: u64,
    /// The two layouts, as indices into the layout table.
    pub lt: [usize; 2],
}

/// All monitors and clients.
pub struct Wm {
    pub clients: Vec<Client>,
    pub mons: Vec<Monitor>,
    pub selmon: usize,
}

impl Monitor {
    /// The tag set shown on this monitor.
    pub open spec fn cur_tags(self) -> u32 {
        self.tagset[self.seltags as int]
    }

    /// The two tag sets and which one is shown.
    pub open spec fn tag_state(self) -> TagSets {
        TagSets { tagset0: self.tagset[0], tagset1: self.tagset[1], seltags: self.seltags }
    }

    /// Tag sets and selectors hold their ranges.
    pub open spec fn tags_ok(self) -> bool {
        &&& tagsets_ok(self.tag_state())
        &&& self.sellt < 2
    }

    /// A monitor with no clients, showing the first tag, with the first two layouts.
    pub fn new(num: i32, nmaster: i32, gappih: i32, gappiv: i32, gappoh: i32, gappov: i32, showbar: bool, topbar: bool, nlayouts: usize) -> (m: Monitor)
        requires
            nlayouts > 0,
        ensures
            m.num == num,
            m.nmaster == nmaster,
            m.gappih == gappih && m.gappiv == gappiv && m.gappoh == gappoh && m.gappov == gappov,
            m.showbar == showbar && m.topbar == topbar,
            m.tagset[0] == 1 && m.tagset[1] == 1,
            m.seltags == 0 && m.sellt == 0,
            m.lt[0] == 0 && m.lt[1] == 1usize % nlayouts,
            m.clients@.len() == 0 && m.stack@.len() == 0 && m.sel is None,
            m.mx == 0 && m.my == 0 && m.mw == 0 && m.mh == 0,
            m.wx == 0 && m.wy == 0 && m.ww == 0 && m.wh == 0 && m.by == 0,
            m.barwin == 0,
            m.tags_ok(),
            spec_layout_symbol(m.lt[m.sellt as int]) == spec_layout_symbol(0),
    {
        let m = Monitor {
            num,
            by: 0,
            mx: 0,
            my: 0,
            mw: 0,
            mh: 0,
            wx: 0,
            wy: 0,
            ww: 0,
            wh: 0,
            gappih,
            gappiv,
            gappoh,
            gappov,
            seltags: 0,
            sellt: 0,
            tagset: [1, 1],
            showbar,
            topbar,
            nmaster,
            clients: Vec::new(),
            stack: Vec::new(),
            sel: None,
            barwin: 0,
            lt: [0, 1 % nlayouts],
        };
        assert(1u32 & !0x3ffu32 == 0) by (bit_vector);
        assert(m.tagset[0] == 1 && m.tagset[1] == 1);
        m
    }
}

impl Monitor {
    /// The bar symbol of the layout in use on this monitor.
    pub fn symbol(&self) -> (r: &'static str)
        requires
            self.sellt < 2,
            self.lt[self.sellt as int] < NUM_LAYOUTS,
        ensures
            r@ == spec_layout_symbol(self.lt[self.sellt as int]),
    {
        layout_symbol(self.lt[self.sellt])
    }
}

impl Wm {
    /// Whether client `c` is shown: it has a tag its monitor shows, or it is sticky.
    pub open spec fn visible(self, c: usize) -> bool {
        let cl = self.clients@[c as int];
        (cl.tags & self.mons@[cl.mon as int].cur_tags()) != 0 || cl.issticky
    }

    /// Whether client `c` takes part in tiling: shown and not floating.
    pub open spec fn tiled(self, c: usize) -> bool {
        self.visible(c) && !self.clients@[c as int].isfloating
    }

    /// The lists of monitor `m` hold valid, distinct clients of that monitor,
    /// the focus stack holds the same clients as the tiling list, and the
    /// selected client is one of them.
    pub open spec fn mon_ok(self, m: int) -> bool {
        let mon = self.mons@[m];
        &&& mon.tags_ok()
        &&& mon.clients@.no_duplicates()
        &&& mon.stack@.no_duplicates()
        &&& forall|c: usize| #[trigger] mon.clients@.contains(c) <==> mon.stack@.contains(c)
        &&& forall|c: usize| #[trigger] mon.clients@.contains(c) ==> {
            &&& c < self.clients@.len()
            &&& self.clients@[c as int].mon == m
            &&& self.clients@[c as int].alive
        }
        &&& mon.sel matches Some(s) ==> mon.clients@.contains(s)
    }

    /// The whole state is consistent.
    pub open spec fn wf(self) -> bool {
        &&& self.mons@.len() > 0
        &&& self.selmon < self.mons@.len()
        &&& forall|c: int| 0 <= c < self.clients@.len() ==> #[trigger] self.clients@[c].mon < self.mons@.len()
        &&& forall|m: int| 0 <= m < self.mons@.len() ==> #[trigger] self.mon_ok(m)
    }

    /// Every focus stack holds valid clients of its own monitor, and every
    /// monitor's tag selector is 0 or 1.
    pub open spec fn stacks_valid(self) -> bool {
        forall|m: int| 0 <= m < self.mons@.len() ==> {
            &&& #[trigger] self.mons@[m].seltags < 2
            &&& forall|x: usize| #[trigger] self.mons@[m].stack@.contains(x) ==> x < self.clients@.len()
                && self.clients@[x as int].mon == m
        }
    }

    /// A consistent state has valid stacks.
    pub proof fn lemma_wf_stacks_valid(self)
        requires
            self.wf(),
        ensures
            self.stacks_valid(),
    {
        assert forall|m: int| 0 <= m < self.mons@.len() implies {
            &&& #[trigger] self.mons@[m].seltags < 2
            &&& forall|x: usize| #[trigger] self.mons@[m].stack@.contains(x) ==> x < self.clients@.len()
                && self.clients@[x as int].mon == m
        } by {
            assert(self.mon_ok(m));
            assert forall|x: usize| #[trigger] self.mons@[m].stack@.contains(x) implies x < self.clients@.len()
                && self.clients@[x as int].mon == m by {
                assert(self.mons@[m].clients@.contains(x));
            }
        }
    }

    /// Whether client `c` is in the lists of its monitor.
    pub open spec fn attached(self, c: usize) -> bool {
        self.mons@[self.clients@[c as int].mon as int].clients@.contains(c)
    }

    /// Whether `c` is shown; see `visible`.
    pub fn is_visible(&self, c: usize) -> (r: bool)
        requires
            c < self.clients@.len(),
            self.clients@[c as int].mon < self.mons@.len(),
            self.mons@[self.clients@[c as int].mon as int].seltags < 2,
        ensures
            r == self.visible(c),
    {
        let cl = &self.clients[c];
        let m = &self.mons[cl.mon];
        (cl.tags & m.tagset[m.seltags]) != 0 || cl.issticky
    }

    /// Whether the size hints of client `c` are honoured when it is resized:
    /// always when `resizehints` is set, otherwise only for a floating client
    /// or on a monitor whose layout in use arranges nothing.
    pub fn hints_apply(&self, c: usize, resizehints: bool) -> (r: bool)
        requires
            self.wf(),
            c < self.clients@.len(),
        ensures
            ({
                let cl = self.clients@[c as int];
                let m = self.mons@[cl.mon as int];
                r == (resizehints || cl.isfloating || !arranges(m.lt[m.sellt as int]))
            }),
    {
        let cl = &self.clients[c];
        proof {
            assert(self.mon_ok(cl.mon as int));
        }
        let m = &self.mons[cl.mon];
        resizehints || cl.isfloating || m.lt[m.sellt] == FLOATING_LAYOUT
    }
}


/// Two monitors agree on everything but their client lists and selection.
pub open spec fn same_settings(a: Monitor, b: Monitor) -> bool {
    &&& a.num == b.num
    &&& a.by == b.by
    &&& a.mx == b.mx && a.my == b.my && a.mw == b.mw && a.mh == b.mh
    &&& a.wx == b.wx && a.wy == b.wy && a.ww == b.ww && a.wh == b.wh
    &&& a.gappih == b.gappih && a.gappiv == b.gappiv && a.gappoh == b.gappoh && a.gappov == b.gappov
    &&& a.seltags == b.seltags
    &&& a.sellt == b.sellt
    &&& a.tagset == b.tagset
    &&& a.showbar == b.showbar && a.topbar == b.topbar
    &&& a.nmaster == b.nmaster
    &&& a.barwin == b.barwin
    &&& a.lt == b.lt
}

/// `b` has the monitors of `a`, all but monitor `m` unchanged.
pub open spec fn other_mons_same(a: Wm, b: Wm, m: int) -> bool {
    &&& b.mons@.len() == a.mons@.len()
    &&& forall|k: int| 0 <= k < a.mons@.len() && k != m ==> #[trigger] b.mons@[k] == a.mons@[k]
}

impl Wm {
    /// The first client in `s` that is shown, if any.
    pub open spec fn first_visible(self, s: Seq<usize>) -> Option<usize>
        decreases s.len(),
    {
        if s.len() == 0 {
            None
        } else if self.visible(s[0]) {
            Some(s[0])
        } else {
            self.first_visible(s.drop_first())
        }
    }

    proof fn lemma_first_visible_step(self, s: Seq<usize>, i: int)
        requires
            0 <= i < s.len(),
            !self.visible(s[i]),
        ensures
            self.first_visible(s.skip(i)) == self.first_visible(s.skip(i + 1)),
    {
        assert(s.skip(i).drop_first() =~= s.skip(i + 1));
    }

    proof fn lemma_first_visible_found(self, s: Seq<usize>, i: int)
        requires
            0 <= i < s.len(),
            self.visible(s[i]),
        ensures
            self.first_visible(s.skip(i)) == Some(s[i]),
    {
    }

    /// The first visible client of `s`: `Some(x)` is shown, and nothing before it is.
    pub proof fn lemma_first_visible_is_first(self, s: Seq<usize>)
        ensures
            match self.first_visible(s) {
                Some(x) => exists|k: int|
                    0 <= k < s.len() && s[k] == x && self.visible(x) && forall|j: int|
                        0 <= j < k ==> !self.visible(#[trigger] s[j]),
                None => forall|j: int| 0 <= j < s.len() ==> !self.visible(#[trigger] s[j]),
            },
        decreases s.len(),
    {
        if s.len() > 0 {
            if !self.visible(s[0]) {
                self.lemma_first_visible_is_first(s.drop_first());
                match self.first_visible(s) {
                    Some(x) => {
                        let k = choose|k: int|
                            0 <= k < s.drop_first().len() && s.drop_first()[k] == x && self.visible(x)
                                && forall|j: int|
                                0 <= j < k ==> !self.visible(#[trigger] s.drop_first()[j]);
                        assert(s[k + 1] == x);
                        assert forall|j: int| 0 <= j < k + 1 implies !self.visible(#[trigger] s[j]) by {
                            if j > 0 {
                                assert(s[j] == s.drop_first()[j - 1]);
                            }
                        }
                    },
                    None => {
                        assert forall|j: int| 0 <= j < s.len() implies !self.visible(#[trigger] s[j]) by {
                            if j > 0 {
                                assert(s[j] == s.drop_first()[j - 1]);
                            }
                        }
                    },
                }
            }
        }
    }

    /// The first shown client in `v`.
    pub fn first_visible_of(&self, v: &Vec<usize>) -> (r: Option<usize>)
        requires
            forall|x: usize| #[trigger] v@.contains(x) ==> x < self.clients@.len()
                && self.clients@[x as int].mon < self.mons@.len()
                && self.mons@[self.clients@[x as int].mon as int].seltags < 2,
        ensures
            r == self.first_visible(v@),
            r matches Some(x) ==> v@.contains(x),
    {
        let ghost s = v@;
        assert(s.skip(0) =~= s);
        let mut i: usize = 0;
        while i < v.len()
            invariant
                s == v@,
                forall|x: usize| #[trigger] v@.contains(x) ==> x < self.clients@.len()
                    && self.clients@[x as int].mon < self.mons@.len()
                    && self.mons@[self.clients@[x as int].mon as int].seltags < 2,
                i <= s.len(),
                self.first_visible(s) == self.first_visible(s.skip(i as int)),
            decreases s.len() - i,
        {
            let c = v[i];
            assert(s.contains(c));
            if self.is_visible(c) {
                proof {
                    self.lemma_first_visible_found(s, i as int);
                }
                return Some(c);
            }
            proof {
                self.lemma_first_visible_step(s, i as int);
            }
            i = i + 1;
        }
        assert(s.skip(i as int).len() == 0);
        None
    }

    /// The first shown client in the focus stack of monitor `m`.
    pub fn first_visible_in_stack(&self, m: usize) -> (r: Option<usize>)
        requires
            self.wf(),
            m < self.mons@.len(),
        ensures
            r == self.first_visible(self.mons@[m as int].stack@),
            r matches Some(x) ==> self.mons@[m as int].stack@.contains(x),
    {
        assert(self.mon_ok(m as int));
        assert forall|x: usize| #[trigger] self.mons@[m as int].stack@.contains(x) implies x
            < self.clients@.len() && self.clients@[x as int].mon < self.mons@.len()
            && self.mons@[self.clients@[x as int].mon as int].seltags < 2 by {
            assert(self.mons@[m as int].clients@.contains(x));
        }
        self.first_visible_of(&self.mons[m].stack)
    }

    /// Puts client `c` at the head of its monitor's tiling list.
    pub fn attach(&mut self, c: usize)
        requires
            c < old(self).clients@.len(),
            old(self).clients@[c as int].mon < old(self).mons@.len(),
        ensures
            ({
                let m = old(self).clients@[c as int].mon as int;
                &&& final(self).mons@[m].clients@ == old(self).mons@[m].clients@.insert(0, c)
                &&& final(self).mons@[m].stack == old(self).mons@[m].stack
                &&& final(self).mons@[m].sel == old(self).mons@[m].sel
                &&& same_settings(final(self).mons@[m], old(self).mons@[m])
                &&& other_mons_same(*old(self), *final(self), m)
            }),
            final(self).clients == old(self).clients,
            final(self).selmon == old(self).selmon,
    {
        let m = self.clients[c].mon;
        self.mons[m].clients.insert(0, c);
    }

    /// Takes client `c` out of its monitor's tiling list, keeping the order of the rest.
    pub fn detach(&mut self, c: usize)
        requires
            c < old(self).clients@.len(),
            old(self).clients@[c as int].mon < old(self).mons@.len(),
        ensures
            ({
                let m = old(self).clients@[c as int].mon as int;
                &&& final(self).mons@[m].clients@ == without(old(self).mons@[m].clients@, c)
                &&& old(self).mons@[m].clients@.contains(c) ==> exists|i: int|
                    0 <= i < old(self).mons@[m].clients@.len() && old(self).mons@[m].clients@[i] == c
                        && final(self).mons@[m].clients@ == old(self).mons@[m].clients@.remove(i)
                &&& !old(self).mons@[m].clients@.contains(c) ==> final(self).mons@[m].clients@
                    == old(self).mons@[m].clients@
                &&& final(self).mons@[m].stack == old(self).mons@[m].stack
                &&& final(self).mons@[m].sel == old(self).mons@[m].sel
                &&& same_settings(final(self).mons@[m], old(self).mons@[m])
                &&& other_mons_same(*old(self), *final(self), m)
            }),
            final(self).clients == old(self).clients,
            final(self).selmon == old(self).selmon,
    {
        let m = self.clients[c].mon;
        remove_value(&mut self.mons[m].clients, c);
    }

    /// Puts client `c` on top of its monitor's focus stack.
    pub fn attachstack(&mut self, c: usize)
        requires
            c < old(self).clients@.len(),
            old(self).clients@[c as int].mon < old(self).mons@.len(),
        ensures
            ({
                let m = old(self).clients@[c as int].mon as int;
                &&& final(self).mons@[m].stack@ == old(self).mons@[m].stack@.insert(0, c)
                &&& final(self).mons@[m].clients == old(self).mons@[m].clients
                &&& final(self).mons@[m].sel == old(self).mons@[m].sel
                &&& same_settings(final(self).mons@[m], old(self).mons@[m])
                &&& other_mons_same(*old(self), *final(self), m)
            }),
            final(self).clients == old(self).clients,
            final(self).selmon == old(self).selmon,
    {
        let m = self.clients[c].mon;
        self.mons[m].stack.insert(0, c);
    }

    /// Takes client `c` out of its monitor's focus stack; when it was the
    /// selected client, the first shown client left in the stack becomes selected.
    pub fn detachstack(&mut self, c: usize)
        requires
            old(self).stacks_valid(),
            c < old(self).clients@.len(),
            old(self).clients@[c as int].mon < old(self).mons@.len(),
        ensures
            ({
                let m = old(self).clients@[c as int].mon as int;
                &&& final(self).mons@[m].stack@ == without(old(self).mons@[m].stack@, c)
                &&& old(self).mons@[m].stack@.contains(c) ==> exists|i: int|
                    0 <= i < old(self).mons@[m].stack@.len() && old(self).mons@[m].stack@[i] == c
                        && final(self).mons@[m].stack@ == old(self).mons@[m].stack@.remove(i)
                &&& !old(self).mons@[m].stack@.contains(c) ==> final(self).mons@[m].stack@
                    == old(self).mons@[m].stack@
                &&& final(self).mons@[m].sel == if old(self).mons@[m].sel == Some(c) {
                    old(self).first_visible(final(self).mons@[m].stack@)
                } else {
                    old(self).mons@[m].sel
                }
                &&& final(self).mons@[m].clients == old(self).mons@[m].clients
                &&& same_settings(final(self).mons@[m], old(self).mons@[m])
                &&& other_mons_same(*old(self), *final(self), m)
            }),
            final(self).clients == old(self).clients,
            final(self).selmon == old(self).selmon,
    {
        let m = self.clients[c].mon;
        let ghost before = self.mons@[m as int].stack@;
        remove_value(&mut self.mons[m].stack, c);
        proof {
            let after = self.mons@[m as int].stack@;
            if before.contains(c) {
                let i = choose|i: int| 0 <= i < before.len() && before[i] == c && after == before.remove(i);
                lemma_remove_subset(before, i);
            }
            assert forall|x: usize| #[trigger] after.contains(x) implies x < self.clients@.len()
                && self.clients@[x as int].mon < self.mons@.len()
                && self.mons@[self.clients@[x as int].mon as int].seltags < 2 by {
                assert(before.contains(x));
            }
        }
        if self.mons[m].sel == Some(c) {
            let t = self.first_visible_of(&self.mons[m].stack);
            proof {
                let s = self.mons@[m as int].stack@;
                assert forall|x: usize| #[trigger] s.contains(x) implies old(self).visible(x) == self.visible(x) by {
                }
                self.lemma_first_visible_same(*old(self), s);
            }
            self.mons[m].sel = t;
        }
    }

    /// Visibility of the listed clients decides `first_visible`, so two states
    /// that agree on it agree on the first visible client.
    proof fn lemma_first_visible_same(self, other: Wm, s: Seq<usize>)
        requires
            forall|x: usize| #[trigger] s.contains(x) ==> self.visible(x) == other.visible(x),
        ensures
            self.first_visible(s) == other.first_visible(s),
        decreases s.len(),
    {
        if s.len() > 0 {
            assert(s.contains(s[0]));
            assert forall|x: usize| #[trigger] s.drop_first().contains(x) implies self.visible(x)
                == other.visible(x) by {
                let j = choose|j: int| 0 <= j < s.drop_first().len() && s.drop_first()[j] == x;
                assert(s[j + 1] == x);
                assert(s.contains(x));
            }
            self.lemma_first_visible_same(other, s.drop_first());
        }
    }
}


/// What a change of focus did, for the caller to show: the client that lost
/// focus, the client that got it, and whether its urgency was cleared.
pub struct FocusChange {
    pub unfocused: Option<usize>,
    pub focused: Option<usize>,
    pub urgent_cleared: bool,
}

impl Wm {
    /// The clients of `b` are those of `a`, with the same monitor and liveness.
    pub open spec fn same_membership(a: Wm, b: Wm) -> bool {
        &&& b.clients@.len() == a.clients@.len()
        &&& forall|c: int| 0 <= c < a.clients@.len() ==> {
            &&& #[trigger] b.clients@[c].mon == a.clients@[c].mon
            &&& b.clients@[c].alive == a.clients@[c].alive
        }
    }

    /// A change confined to monitor `m` keeps the state consistent when that
    /// monitor's lists are consistent afterwards.
    pub(crate) proof fn lemma_wf_frame(old: Wm, new: Wm, m: int)
        requires
            old.wf(),
            0 <= m < old.mons@.len(),
            Wm::same_membership(old, new),
            other_mons_same(old, new, m),
            new.selmon < new.mons@.len(),
            new.mon_ok(m),
        ensures
            new.wf(),
    {
        assert forall|k: int| 0 <= k < new.mons@.len() implies #[trigger] new.mon_ok(k) by {
            if k != m {
                assert(old.mon_ok(k));
                assert(new.mons@[k] == old.mons@[k]);
                let mon = new.mons@[k];
                assert forall|x: usize| #[trigger] mon.clients@.contains(x) implies x < new.clients@.len()
                    && new.clients@[x as int].mon == k && new.clients@[x as int].alive by {
                    assert(old.clients@[x as int].mon == new.clients@[x as int].mon);
                }
            }
        }
        assert forall|c: int| 0 <= c < new.clients@.len() implies #[trigger] new.clients@[c].mon
            < new.mons@.len() by {
            assert(old.clients@[c].mon < old.mons@.len());
        }
    }

    /// What `focus(c)` does, taking `a` to `b` and reporting `r`: the client
    /// it settles on (see `focus_target`) becomes the selected client of its
    /// monitor, which becomes the selected monitor; it goes to the top of its
    /// monitor's focus stack and loses its urgency; the client selected
    /// before is reported as unfocused. With nothing to focus, the selected
    /// monitor has no selection and nothing else changes.
    pub open spec fn focus_outcome(a: Wm, b: Wm, r: FocusChange, c: Option<usize>) -> bool {
        &&& r.focused == a.focus_target(c)
        &&& r.unfocused == match (a.mons@[a.selmon as int].sel, r.focused) {
            (Some(s), Some(f)) => if s != f { Some(s) } else { None },
            _ => None,
        }
        &&& Wm::same_membership(a, b)
        &&& match r.focused {
            Some(f) => {
                let m = a.clients@[f as int].mon as int;
                &&& a.visible(f)
                &&& b.selmon == m
                &&& b.mons@[m].stack@ == without(a.mons@[m].stack@, f).insert(0, f)
                &&& b.mons@[m].clients == a.mons@[m].clients
                &&& b.mons@[m].sel == Some(f)
                &&& same_settings(b.mons@[m], a.mons@[m])
                &&& other_mons_same(a, b, m)
                &&& r.urgent_cleared == a.clients@[f as int].isurgent
                &&& b.clients@ == a.clients@.update(f as int, Client { isurgent: false, ..a.clients@[f as int] })
            },
            None => {
                let m = a.selmon as int;
                &&& b.selmon == a.selmon
                &&& b.mons@[m].stack == a.mons@[m].stack
                &&& b.mons@[m].clients == a.mons@[m].clients
                &&& b.mons@[m].sel is None
                &&& same_settings(b.mons@[m], a.mons@[m])
                &&& other_mons_same(a, b, m)
                &&& !r.urgent_cleared
                &&& b.clients == a.clients
            },
        }
    }

    /// The selection, focus stack and urgency after a change of focus `r`
    /// from `a` to `b` (as `focus_outcome` has them, whatever else changed):
    /// the focused client is selected on its monitor, which is selected, and
    /// tops its focus stack without its urgency; with nothing focused, the
    /// selected monitor keeps nothing selected.
    pub open spec fn focus_moved(a: Wm, b: Wm, r: FocusChange) -> bool {
        &&& r.unfocused == match (a.mons@[a.selmon as int].sel, r.focused) {
            (Some(s), Some(f)) => if s != f { Some(s) } else { None },
            _ => None,
        }
        &&& match r.focused {
            Some(f) => {
                let m = a.clients@[f as int].mon as int;
                &&& b.selmon == m
                &&& b.mons@[m].sel == Some(f)
                &&& b.mons@[m].stack@ == without(a.mons@[m].stack@, f).insert(0, f)
                &&& r.urgent_cleared == a.clients@[f as int].isurgent
                &&& b.clients@ == a.clients@.update(f as int, Client { isurgent: false, ..a.clients@[f as int] })
            },
            None => {
                &&& b.selmon == a.selmon
                &&& b.mons@[a.selmon as int].sel is None
                &&& !r.urgent_cleared
                &&& b.clients == a.clients
            },
        }
    }

    /// The client that `focus(c)` settles on: `c` itself when it is shown,
    /// otherwise the most recently focused shown client of the selected monitor.
    pub open spec fn focus_target(self, c: Option<usize>) -> Option<usize> {
        match c {
            Some(x) if self.visible(x) => Some(x),
            _ => self.first_visible(self.mons@[self.selmon as int].stack@),
        }
    }

    /// Gives the input focus to client `c`, or to the most recently focused
    /// shown client when `c` is absent or hidden: its monitor becomes the
    /// selected one, it goes to the top of the focus stack, it loses its
    /// urgency and becomes its monitor's selected client. With no client to
    /// focus, the selected monitor has no selection.
    pub fn focus(&mut self, c: Option<usize>) -> (r: FocusChange)
        requires
            old(self).wf(),
            c matches Some(x) ==> x < old(self).clients@.len() && old(self).attached(x),
        ensures
            final(self).wf(),
            r.focused == old(self).focus_target(c),
            r.focused matches Some(f) ==> f < old(self).clients@.len() && old(self).attached(f),
            r.unfocused == match (old(self).mons@[old(self).selmon as int].sel, r.focused) {
                (Some(s), Some(f)) => if s != f { Some(s) } else { None },
                _ => None,
            },
            Wm::same_membership(*old(self), *final(self)),
            match r.focused {
                Some(f) => {
                    let m = old(self).clients@[f as int].mon as int;
                    &&& old(self).visible(f)
                    &&& final(self).selmon == m
                    &&& final(self).mons@[m].stack@ == without(old(self).mons@[m].stack@, f).insert(0, f)
                    &&& final(self).mons@[m].clients == old(self).mons@[m].clients
                    &&& final(self).mons@[m].sel == Some(f)
                    &&& same_settings(final(self).mons@[m], old(self).mons@[m])
                    &&& other_mons_same(*old(self), *final(self), m)
                    &&& r.urgent_cleared == old(self).clients@[f as int].isurgent
                    &&& final(self).clients@ == old(self).clients@.update(f as int, Client { isurgent: false, ..old(self).clients@[f as int] })
                },
                None => {
                    let m = old(self).selmon as int;
                    &&& final(self).selmon == old(self).selmon
                    &&& final(self).mons@[m].stack == old(self).mons@[m].stack
                    &&& final(self).mons@[m].clients == old(self).mons@[m].clients
                    &&& final(self).mons@[m].sel is None
                    &&& same_settings(final(self).mons@[m], old(self).mons@[m])
                    &&& other_mons_same(*old(self), *final(self), m)
                    &&& !r.urgent_cleared
                    &&& final(self).clients == old(self).clients
                },
            },
    {
        let target = self.find_focus_target(c);
        let prev = self.mons[self.selmon].sel;
        let unfocused = match (prev, target) {
            (Some(s), Some(f)) => if s != f { Some(s) } else { None },
            _ => None,
        };
        match target {
            Some(f) => {
                let urgent = self.raise_focus(f);
                FocusChange { unfocused, focused: target, urgent_cleared: urgent }
            },
            None => {
                let ghost old_state = *self;
                let sm = self.selmon;
                self.mons[sm].sel = None;
                proof {
                    assert(old_state.mon_ok(sm as int));
                    Wm::lemma_wf_frame(old_state, *self, sm as int);
                }
                FocusChange { unfocused, focused: None, urgent_cleared: false }
            },
        }
    }

    /// Computes `focus_target(c)`.
    fn find_focus_target(&self, c: Option<usize>) -> (r: Option<usize>)
        requires
            self.wf(),
            c matches Some(x) ==> x < self.clients@.len() && self.attached(x),
        ensures
            r == self.focus_target(c),
            r matches Some(f) ==> f < self.clients@.len() && self.attached(f) && self.visible(f),
    {
        if let Some(x) = c {
            proof {
                assert(self.mon_ok(self.clients@[x as int].mon as int));
            }
            if self.is_visible(x) {
                return Some(x);
            }
        }
        let t = self.first_visible_in_stack(self.selmon);
        proof {
            assert(self.mon_ok(self.selmon as int));
            self.lemma_first_visible_is_first(self.mons@[self.selmon as int].stack@);
            if let Some(f) = t {
                assert(self.mons@[self.selmon as int].clients@.contains(f));
            }
        }
        t
    }

    /// Makes the attached client `f` the selected client of its monitor, its
    /// monitor the selected one and `f` the top of the focus stack; clears
    /// its urgency and returns whether it was urgent.
    fn raise_focus(&mut self, f: usize) -> (urgent: bool)
        requires
            old(self).wf(),
            f < old(self).clients@.len(),
            old(self).attached(f),
        ensures
            final(self).wf(),
            Wm::same_membership(*old(self), *final(self)),
            ({
                let m = old(self).clients@[f as int].mon as int;
                &&& final(self).selmon == m
                &&& final(self).mons@[m].stack@ == without(old(self).mons@[m].stack@, f).insert(0, f)
                &&& final(self).mons@[m].clients == old(self).mons@[m].clients
                &&& final(self).mons@[m].sel == Some(f)
                &&& same_settings(final(self).mons@[m], old(self).mons@[m])
                &&& other_mons_same(*old(self), *final(self), m)
                &&& urgent == old(self).clients@[f as int].isurgent
                &&& final(self).clients@ == old(self).clients@.update(f as int, Client { isurgent: false, ..old(self).clients@[f as int] })
            }),
    {
        let ghost old_state = *self;
        let m = self.clients[f].mon;
        proof {
            assert(self.mon_ok(m as int));
            assert(self.mons@[m as int].stack@.contains(f));
        }
        let ghost st = self.mons@[m as int].stack@;
        self.selmon = m;
        let urgent = self.clients[f].isurgent;
        self.clients[f].isurgent = false;
        remove_value(&mut self.mons[m].stack, f);
        self.mons[m].stack.insert(0, f);
        self.mons[m].sel = Some(f);
        proof {
            let i = choose|i: int| 0 <= i < st.len() && st[i] == f && without(st, f) == st.remove(i);
            lemma_remove_contents(st, i);
            lemma_push_front_contents(st.remove(i), f);
            let mon = self.mons@[m as int];
            assert forall|x: usize| #[trigger] mon.clients@.contains(x) implies x < self.clients@.len()
                && self.clients@[x as int].mon == m && self.clients@[x as int].alive by {
                assert(old_state.mons@[m as int].clients@.contains(x));
            }
            assert forall|x: usize| #[trigger] mon.clients@.contains(x) <==> mon.stack@.contains(x) by {
                assert(old_state.mons@[m as int].clients@.contains(x) <==> st.contains(x));
            }
            assert(self.mon_ok(m as int));
            Wm::lemma_wf_frame(old_state, *self, m as int);
        }
        urgent
    }
}


/// Two monitors agree on everything but their tag sets.
pub open spec fn same_but_tags(a: Monitor, b: Monitor) -> bool {
    &&& a.num == b.num
    &&& a.by == b.by
    &&& a.mx == b.mx && a.my == b.my && a.mw == b.mw && a.mh == b.mh
    &&& a.wx == b.wx && a.wy == b.wy && a.ww == b.ww && a.wh == b.wh
    &&& a.gappih == b.gappih && a.gappiv == b.gappiv && a.gappoh == b.gappoh && a.gappov == b.gappov
    &&& a.sellt == b.sellt
    &&& a.showbar == b.showbar && a.topbar == b.topbar
    &&& a.nmaster == b.nmaster
    &&& a.barwin == b.barwin
    &&& a.lt == b.lt
    &&& a.clients == b.clients
    &&& a.stack == b.stack
    &&& a.sel == b.sel
}

impl Wm {
    /// The shown tag set of the selected monitor.
    pub open spec fn sel_tags(self) -> u32 {
        current(self.mons@[self.selmon as int].tag_state())
    }

    /// Sets the selected monitor's tag sets to `t`.
    fn set_tag_state(&mut self, t: TagSets)
        requires
            old(self).wf(),
            tagsets_ok(t),
        ensures
            final(self).wf(),
            final(self).mons@[old(self).selmon as int].tag_state() == t,
            same_but_tags(final(self).mons@[old(self).selmon as int], old(self).mons@[old(self).selmon as int]),
            other_mons_same(*old(self), *final(self), old(self).selmon as int),
            final(self).clients == old(self).clients,
            final(self).selmon == old(self).selmon,
    {
        let ghost old_state = *self;
        let sm = self.selmon;
        self.mons[sm].seltags = t.seltags;
        self.mons[sm].tagset[0] = t.tagset0;
        self.mons[sm].tagset[1] = t.tagset1;
        proof {
            assert(old_state.mon_ok(sm as int));
            assert(self.mons@[sm as int].tag_state() == t);
            Wm::lemma_wf_frame(old_state, *self, sm as int);
        }
    }

    /// Shows the tags `ui` on the selected monitor (see `view_result`);
    /// returns whether anything changed.
    pub fn view(&mut self, ui: u32) -> (changed: bool)
        requires
            old(self).wf(),
        ensures
            final(self).wf(),
            changed == (ui & TAGMASK != old(self).sel_tags()),
            final(self).mons@[old(self).selmon as int].tag_state() == view_result(
                old(self).mons@[old(self).selmon as int].tag_state(),
                ui,
            ),
            same_but_tags(final(self).mons@[old(self).selmon as int], old(self).mons@[old(self).selmon as int]),
            other_mons_same(*old(self), *final(self), old(self).selmon as int),
            final(self).clients == old(self).clients,
            final(self).selmon == old(self).selmon,
    {
        let sm = self.selmon;
        proof {
            assert(self.mon_ok(sm as int));
        }
        let st = self.mons[sm].seltags;
        let cur = self.mons[sm].tagset[st];
        let m = ui & TAGMASK;
        let ns: usize = 1 - st;
        let t = TagSets { tagset0: self.mons[sm].tagset[0], tagset1: self.mons[sm].tagset[1], seltags: ns };
        let t = if m != 0 {
            if ns == 0 { TagSets { tagset0: m, ..t } } else { TagSets { tagset1: m, ..t } }
        } else {
            t
        };
        if m == cur {
            return false;
        }
        proof {
            lemma_view_keeps_ok(self.mons@[sm as int].tag_state(), ui);
        }
        self.set_tag_state(t);
        true
    }

    /// Adds or removes the tags `ui` from the selected monitor's shown set,
    /// unless that would leave it empty (see `toggleview_result`); returns
    /// whether anything changed.
    pub fn toggleview(&mut self, ui: u32) -> (changed: bool)
        requires
            old(self).wf(),
        ensures
            final(self).wf(),
            changed == (old(self).sel_tags() ^ (ui & TAGMASK) != 0),
            final(self).mons@[old(self).selmon as int].tag_state() == toggleview_result(
                old(self).mons@[old(self).selmon as int].tag_state(),
                ui,
            ),
            same_but_tags(final(self).mons@[old(self).selmon as int], old(self).mons@[old(self).selmon as int]),
            other_mons_same(*old(self), *final(self), old(self).selmon as int),
            final(self).clients == old(self).clients,
            final(self).selmon == old(self).selmon,
    {
        let sm = self.selmon;
        proof {
            assert(self.mon_ok(sm as int));
        }
        let st = self.mons[sm].seltags;
        let n = self.mons[sm].tagset[st] ^ (ui & TAGMASK);
        if n == 0 {
            return false;
        }
        let t = TagSets { tagset0: self.mons[sm].tagset[0], tagset1: self.mons[sm].tagset[1], seltags: st };
        let t = if st == 0 { TagSets { tagset0: n, ..t } } else { TagSets { tagset1: n, ..t } };
        proof {
            lemma_view_keeps_ok(self.mons@[sm as int].tag_state(), ui);
        }
        self.set_tag_state(t);
        true
    }

    /// Sets the tags of client `c`, leaving everything else as it was.
    fn set_client_tags(&mut self, c: usize, tags: u32)
        requires
            old(self).wf(),
            c < old(self).clients@.len(),
        ensures
            final(self).wf(),
            final(self).clients@ == old(self).clients@.update(c as int, Client { tags, ..old(self).clients@[c as int] }),
            final(self).mons == old(self).mons,
            final(self).selmon == old(self).selmon,
    {
        let ghost old_state = *self;
        self.clients[c].tags = tags;
        proof {
            assert(old_state.mon_ok(self.selmon as int));
            Wm::lemma_wf_frame(old_state, *self, self.selmon as int);
        }
    }

    /// Gives the selected client the tags `ui`, when there is one and `ui`
    /// names some tag (see `tag_result`); returns whether a client was retagged.
    pub fn tag(&mut self, ui: u32) -> (changed: bool)
        requires
            old(self).wf(),
        ensures
            final(self).wf(),
            changed == (old(self).mons@[old(self).selmon as int].sel is Some && ui & TAGMASK != 0),
            match old(self).mons@[old(self).selmon as int].sel {
                Some(s) => final(self).clients@ == old(self).clients@.update(
                    s as int,
                    Client { tags: tag_result(old(self).clients@[s as int].tags, ui), ..old(self).clients@[s as int] },
                ),
                None => final(self).clients == old(self).clients,
            },
            match old(self).mons@[old(self).selmon as int].sel {
                Some(s) => ui & TAGMASK != 0 ==> final(self).clients@[s as int].tags == ui & TAGMASK,
                None => true,
            },
            final(self).mons == old(self).mons,
            final(self).selmon == old(self).selmon,
    {
        let sm = self.selmon;
        proof {
            assert(self.mon_ok(sm as int));
        }
        match self.mons[sm].sel {
            Some(s) => {
                if ui & TAGMASK != 0 {
                    self.set_client_tags(s, ui & TAGMASK);
                    true
                } else {
                    proof {
                        assert(self.clients@.update(s as int, Client { tags: tag_result(self.clients@[s as int].tags, ui), ..self.clients@[s as int] }) =~= self.clients@);
                    }
                    false
                }
            },
            None => false,
        }
    }

    /// Adds or removes the tags `ui` from the selected client, unless that
    /// would leave it with none (see `toggletag_result`); returns whether the
    /// client was retagged.
    pub fn toggletag(&mut self, ui: u32) -> (changed: bool)
        requires
            old(self).wf(),
        ensures
            final(self).wf(),
            changed == match old(self).mons@[old(self).selmon as int].sel {
                Some(s) => old(self).clients@[s as int].tags ^ (ui & TAGMASK) != 0,
                None => false,
            },
            match old(self).mons@[old(self).selmon as int].sel {
                Some(s) => final(self).clients@ == old(self).clients@.update(
                    s as int,
                    Client { tags: toggletag_result(old(self).clients@[s as int].tags, ui), ..old(self).clients@[s as int] },
                ),
                None => final(self).clients == old(self).clients,
            },
            final(self).mons == old(self).mons,
            final(self).selmon == old(self).selmon,
    {
        let sm = self.selmon;
        proof {
            assert(self.mon_ok(sm as int));
        }
        match self.mons[sm].sel {
            Some(s) => {
                let n = self.clients[s].tags ^ (ui & TAGMASK);
                if n != 0 {
                    self.set_client_tags(s, n);
                    true
                } else {
                    proof {
                        assert(self.clients@.update(s as int, Client { tags: toggletag_result(self.clients@[s as int].tags, ui), ..self.clients@[s as int] }) =~= self.clients@);
                    }
                    false
                }
            },
            None => false,
        }
    }
}


/// What `togglescratch` found: a client of the scratchpad (and whether the
/// shown tags changed), or no such client, so the scratchpad must be started.
pub enum ScratchAction {
    Toggled { client: usize, tags_changed: bool },
    Spawn,
}

impl Wm {
    /// The union of the tags of the clients in `s`.
    pub open spec fn tags_union(self, s: Seq<usize>) -> u32
        decreases s.len(),
    {
        if s.len() == 0 {
            0
        } else {
            self.tags_union(s.drop_last()) | self.clients@[s.last() as int].tags
        }
    }

    /// The union of the tags of the selected monitor's clients.
    pub fn occupied_tags(&self) -> (r: u32)
        requires
            self.wf(),
        ensures
            r == self.tags_union(self.mons@[self.selmon as int].clients@),
    {
        let sm = self.selmon;
        proof {
            assert(self.mon_ok(sm as int));
        }
        let ghost s = self.mons@[sm as int].clients@;
        let mut occ: u32 = 0;
        let mut k: usize = 0;
        assert(s.take(0) =~= Seq::<usize>::empty());
        while k < self.mons[sm].clients.len()
            invariant
                self.wf(),
                sm == self.selmon,
                s == self.mons@[sm as int].clients@,
                k <= s.len(),
                occ == self.tags_union(s.take(k as int)),
            decreases s.len() - k,
        {
            let c = self.mons[sm].clients[k];
            proof {
                assert(self.mon_ok(sm as int));
                assert(s.contains(c));
                assert(s.take(k + 1).drop_last() =~= s.take(k as int));
            }
            occ = occ | self.clients[c].tags;
            k = k + 1;
        }
        assert(s.take(k as int) =~= s);
        occ
    }

    /// Swaps the shown tag with the tags `ui` on every client of the selected
    /// monitor (see `swap_result`). Nothing happens when `ui` names the shown
    /// tag or when the shown tag set is not a single tag; returns whether the
    /// clients were retagged.
    pub fn swaptags(&mut self, ui: u32) -> (changed: bool)
        requires
            old(self).wf(),
        ensures
            final(self).wf(),
            ({
                let cur = old(self).sel_tags();
                let new = ui & TAGMASK;
                changed == !(new == cur || cur == 0 || cur & ((cur - 1) as u32) != 0)
            }),
            final(self).clients@.len() == old(self).clients@.len(),
            forall|c: int| 0 <= c < old(self).clients@.len() ==> #[trigger] final(self).clients@[c] == if changed
                && old(self).mons@[old(self).selmon as int].clients@.contains(c as usize) {
                Client { tags: swap_result(old(self).clients@[c].tags, old(self).sel_tags(), ui & TAGMASK), ..old(self).clients@[c] }
            } else {
                old(self).clients@[c]
            },
            final(self).mons == old(self).mons,
            final(self).selmon == old(self).selmon,
    {
        let sm = self.selmon;
        proof {
            assert(self.mon_ok(sm as int));
        }
        let newtag = ui & TAGMASK;
        let curtag = self.mons[sm].tagset[self.mons[sm].seltags];
        if newtag == curtag || curtag == 0 || (curtag & (curtag - 1)) != 0 {
            return false;
        }
        let ghost s = self.mons@[sm as int].clients@;
        let ghost old_clients = self.clients@;
        let mut k: usize = 0;
        while k < self.mons[sm].clients.len()
            invariant
                self.wf(),
                sm == self.selmon,
                s == self.mons@[sm as int].clients@,
                self.mons == old(self).mons,
                self.selmon == old(self).selmon,
                old_clients == old(self).clients@,
                curtag == old(self).sel_tags(),
                newtag == ui & TAGMASK,
                s.no_duplicates(),
                k <= s.len(),
                self.clients@.len() == old_clients.len(),
                forall|c: int| 0 <= c < old_clients.len() ==> #[trigger] self.clients@[c] == if s.take(k as int).contains(c as usize) {
                    Client { tags: swap_result(old_clients[c].tags, curtag, newtag), ..old_clients[c] }
                } else {
                    old_clients[c]
                },
            decreases s.len() - k,
        {
            let c = self.mons[sm].clients[k];
            proof {
                assert(self.mon_ok(sm as int));
                assert(s.contains(c));
                assert(!s.take(k as int).contains(c)) by {
                    if s.take(k as int).contains(c) {
                        let j = choose|j: int| 0 <= j < k && #[trigger] s.take(k as int)[j] == c;
                        assert(s[j] == s[k as int]);
                    }
                }
            }
            let t = self.clients[c].tags;
            let t1 = if t & newtag != 0 || t & curtag != 0 { t ^ curtag ^ newtag } else { t };
            let t2 = if t1 == 0 { newtag } else { t1 };
            let ghost prev = self.clients@;
            self.set_client_tags(c, t2);
            proof {
                assert(prev[c as int] == old_clients[c as int]);
                assert forall|x: usize| #[trigger] s.take(k + 1).contains(x) <==> (s.take(k as int).contains(x) || x == c) by {
                    if s.take(k + 1).contains(x) {
                        let j = choose|j: int| 0 <= j < k + 1 && #[trigger] s.take(k + 1)[j] == x;
                        if j < k {
                            assert(s.take(k as int)[j] == x);
                        }
                    }
                    if s.take(k as int).contains(x) {
                        let j = choose|j: int| 0 <= j < k && #[trigger] s.take(k as int)[j] == x;
                        assert(s.take(k + 1)[j] == x);
                    }
                    if x == c {
                        assert(s.take(k + 1)[k as int] == x);
                    }
                }
                assert forall|x: int| 0 <= x < old_clients.len() implies #[trigger] self.clients@[x] == if s.take(k + 1).contains(x as usize) {
                    Client { tags: swap_result(old_clients[x].tags, curtag, newtag), ..old_clients[x] }
                } else {
                    old_clients[x]
                } by {
                    if x != c as int {
                        let xu = x as usize;
                        assert(x < self.clients.len());
                        assert(xu as int == x);
                        assert(xu != c);
                        assert(self.clients@[x] == prev[x]);
                        assert(s.take(k + 1).contains(xu) <==> (s.take(k as int).contains(xu) || xu == c));
                    }
                }
            }
            k = k + 1;
        }
        assert(s.take(k as int) =~= s);
        true
    }

    /// Retags the selected client with the shown tags shifted by `ai` (when the
    /// selected monitor has clients); returns whether a client was retagged.
    pub fn shifttag(&mut self, ai: i32) -> (changed: bool)
        requires
            old(self).wf(),
            -9 <= ai <= 9,
        ensures
            final(self).wf(),
            changed == (old(self).mons@[old(self).selmon as int].clients@.len() > 0
                && old(self).mons@[old(self).selmon as int].sel is Some
                && spec_shift(old(self).sel_tags(), ai as int) & TAGMASK != 0),
            match old(self).mons@[old(self).selmon as int].sel {
                Some(s) if old(self).mons@[old(self).selmon as int].clients@.len() > 0 => final(self).clients@
                    == old(self).clients@.update(
                    s as int,
                    Client { tags: tag_result(old(self).clients@[s as int].tags, spec_shift(old(self).sel_tags(), ai as int)), ..old(self).clients@[s as int] },
                ),
                _ => final(self).clients == old(self).clients,
            },
            final(self).mons == old(self).mons,
            final(self).selmon == old(self).selmon,
    {
        let sm = self.selmon;
        proof {
            assert(self.mon_ok(sm as int));
        }
        if self.mons[sm].clients.len() == 0 {
            return false;
        }
        let shifted = shift(self.mons[sm].tagset[self.mons[sm].seltags], ai);
        self.tag(shifted)
    }

    /// Shows the selected monitor's tags shifted by `ai`; returns whether anything changed.
    pub fn shiftview(&mut self, ai: i32) -> (changed: bool)
        requires
            old(self).wf(),
            -9 <= ai <= 9,
        ensures
            final(self).wf(),
            changed == (spec_shift(old(self).sel_tags(), ai as int) & TAGMASK != old(self).sel_tags()),
            final(self).mons@[old(self).selmon as int].tag_state() == view_result(
                old(self).mons@[old(self).selmon as int].tag_state(),
                spec_shift(old(self).sel_tags(), ai as int),
            ),
            same_but_tags(final(self).mons@[old(self).selmon as int], old(self).mons@[old(self).selmon as int]),
            other_mons_same(*old(self), *final(self), old(self).selmon as int),
            final(self).clients == old(self).clients,
            final(self).selmon == old(self).selmon,
    {
        let sm = self.selmon;
        proof {
            assert(self.mon_ok(sm as int));
        }
        let shifted = shift(self.mons[sm].tagset[self.mons[sm].seltags], ai);
        self.view(shifted)
    }

    /// Swaps the shown tag with the one `ai` places along; see `swaptags`.
    pub fn shiftswaptags(&mut self, ai: i32) -> (changed: bool)
        requires
            old(self).wf(),
            -9 <= ai <= 9,
        ensures
            final(self).wf(),
            ({
                let cur = old(self).sel_tags();
                let new = spec_shift(cur, ai as int) & TAGMASK;
                changed == !(new == cur || cur == 0 || cur & ((cur - 1) as u32) != 0)
            }),
            final(self).clients@.len() == old(self).clients@.len(),
            forall|c: int| 0 <= c < old(self).clients@.len() ==> #[trigger] final(self).clients@[c] == if changed
                && old(self).mons@[old(self).selmon as int].clients@.contains(c as usize) {
                Client { tags: swap_result(old(self).clients@[c].tags, old(self).sel_tags(), spec_shift(old(self).sel_tags(), ai as int) & TAGMASK), ..old(self).clients@[c] }
            } else {
                old(self).clients@[c]
            },
            final(self).mons == old(self).mons,
            final(self).selmon == old(self).selmon,
    {
        let sm = self.selmon;
        proof {
            assert(self.mon_ok(sm as int));
        }
        let shifted = shift(self.mons[sm].tagset[self.mons[sm].seltags], ai);
        self.swaptags(shifted)
    }

    /// The tag set reached by shifting the shown tags by `ai` until it meets
    /// a tag of some client of the selected monitor (searching at most
    /// `limit` steps; see `shift_search_within`).
    pub fn occupied_shift(&self, ai: i32, limit: u32) -> (r: Option<u32>)
        requires
            self.wf(),
            -9 <= ai <= 9,
        ensures
            ({
                let t = self.sel_tags();
                let occ = self.tags_union(self.mons@[self.selmon as int].clients@);
                match r {
                    Some(v) => exists|k: nat|
                        1 <= k <= limit && v == shift_iter(t, ai as int, k) && #[trigger] shift_stops(
                            t,
                            ai as int,
                            occ,
                            k,
                        ) && forall|j: nat| 1 <= j < k ==> !#[trigger] shift_stops(t, ai as int, occ, j),
                    None => forall|j: nat| 1 <= j <= limit ==> !#[trigger] shift_stops(t, ai as int, occ, j),
                }
            }),
    {
        let sm = self.selmon;
        proof {
            assert(self.mon_ok(sm as int));
        }
        let occ = self.occupied_tags();
        assert(self.mons@[sm as int].tagset[self.mons@[sm as int].seltags as int] == self.sel_tags());
        shift_search_within(self.mons[sm].tagset[self.mons[sm].seltags], ai, occ, limit)
    }

    /// The first client of the selected monitor's tiling list with one of the tags `t`.
    pub fn find_tagged(&self, t: u32) -> (r: Option<usize>)
        requires
            self.wf(),
        ensures
            ({
                let list = self.mons@[self.selmon as int].clients@;
                match r {
                    Some(c) => exists|k: int|
                        0 <= k < list.len() && list[k] == c && self.clients@[c as int].tags & t != 0
                            && forall|j: int| 0 <= j < k ==> self.clients@[#[trigger] list[j] as int].tags & t == 0,
                    None => forall|j: int| 0 <= j < list.len() ==> self.clients@[#[trigger] list[j] as int].tags & t == 0,
                }
            }),
    {
        let sm = self.selmon;
        let mut k: usize = 0;
        while k < self.mons[sm].clients.len()
            invariant
                self.wf(),
                sm == self.selmon,
                k <= self.mons@[sm as int].clients@.len(),
                forall|j: int| 0 <= j < k ==> self.clients@[#[trigger] self.mons@[sm as int].clients@[j] as int].tags & t == 0,
            decreases self.mons@[sm as int].clients@.len() - k,
        {
            let c = self.mons[sm].clients[k];
            proof {
                assert(self.mon_ok(sm as int));
                assert(self.mons@[sm as int].clients@.contains(c));
            }
            if self.clients[c].tags & t != 0 {
                return Some(c);
            }
            k = k + 1;
        }
        None
    }

    /// Looks for a client of scratchpad `i` on the selected monitor. When
    /// there is one, the scratchpad tag is toggled in the shown tag set
    /// (unless that would leave it empty); otherwise the scratchpad tag is
    /// added to the shown set and the scratchpad has to be started.
    pub fn togglescratch(&mut self, i: u32) -> (r: ScratchAction)
        requires
            old(self).wf(),
            i < NUM_SCRATCHPADS,
        ensures
            final(self).wf(),
            ({
                let sm = old(self).selmon as int;
                let st = old(self).mons@[sm].tag_state();
                let scratchtag = spec_sptag(i);
                let list = old(self).mons@[sm].clients@;
                match r {
                    ScratchAction::Toggled { client, tags_changed } => {
                        &&& exists|k: int|
                            0 <= k < list.len() && list[k] == client && old(self).clients@[client as int].tags & scratchtag != 0
                                && forall|j: int| 0 <= j < k ==> old(self).clients@[#[trigger] list[j] as int].tags & scratchtag == 0
                        &&& tags_changed == (current(st) ^ scratchtag != 0)
                        &&& final(self).mons@[sm].tag_state() == toggleview_result(st, scratchtag)
                    },
                    ScratchAction::Spawn => {
                        &&& forall|j: int| 0 <= j < list.len() ==> old(self).clients@[#[trigger] list[j] as int].tags & scratchtag == 0
                        &&& final(self).mons@[sm].tag_state() == crate::tags::with_current(st, current(st) | scratchtag)
                    },
                }
            }),
            same_but_tags(final(self).mons@[old(self).selmon as int], old(self).mons@[old(self).selmon as int]),
            other_mons_same(*old(self), *final(self), old(self).selmon as int),
            final(self).clients == old(self).clients,
            final(self).selmon == old(self).selmon,
    {
        let sm = self.selmon;
        proof {
            assert(self.mon_ok(sm as int));
        }
        let scratchtag = sptag(i);
        let found = self.find_tagged(scratchtag);
        let st = self.mons[sm].seltags;
        let cur = self.mons[sm].tagset[st];
        let base = TagSets { tagset0: self.mons[sm].tagset[0], tagset1: self.mons[sm].tagset[1], seltags: st };
        assert(i == 0);
        assert(scratchtag & !0x3ffu32 == 0) by (bit_vector)
            requires scratchtag == 1u32 << 9u32;
        assert(scratchtag & 0x3ff == scratchtag) by (bit_vector)
            requires scratchtag == 1u32 << 9u32;
        assert(cur == current(self.mons@[sm as int].tag_state()));
        match found {
            Some(c) => {
                let n = cur ^ scratchtag;
                if n != 0 {
                    let t = if st == 0 { TagSets { tagset0: n, ..base } } else { TagSets { tagset1: n, ..base } };
                    proof {
                        lemma_view_keeps_ok(self.mons@[sm as int].tag_state(), scratchtag);
                        assert(scratchtag & 0x3ff == scratchtag) by (bit_vector)
                            requires scratchtag == 1u32 << 9u32;
                    }
                    self.set_tag_state(t);
                }
                ScratchAction::Toggled { client: c, tags_changed: n != 0 }
            },
            None => {
                let n = cur | scratchtag;
                let t = if st == 0 { TagSets { tagset0: n, ..base } } else { TagSets { tagset1: n, ..base } };
                assert(n != 0 && n & !0x3ffu32 == 0) by (bit_vector)
                    requires n == cur | scratchtag, cur & !0x3ffu32 == 0, scratchtag == 1u32 << 9u32;
                self.set_tag_state(t);
                ScratchAction::Spawn
            },
        }
    }

    /// After the scratchpad tag was toggled, the scratchpad client that was
    /// found gets the focus when it is shown (see `focus`); when it is
    /// hidden nothing changes.
    pub fn scratch_focus(&mut self, client: usize) -> (r: Option<FocusChange>)
        requires
            old(self).wf(),
            client < old(self).clients@.len(),
            old(self).attached(client),
        ensures
            final(self).wf(),
            match r {
                Some(f) => old(self).visible(client) && Wm::focus_outcome(*old(self), *final(self), f, Some(client)),
                None => !old(self).visible(client) && *final(self) == *old(self),
            },
    {
        proof {
            assert(self.clients@[client as int].mon < self.mons@.len());
            assert(self.mon_ok(self.clients@[client as int].mon as int));
        }
        if self.is_visible(client) {
            Some(self.focus(Some(client)))
        } else {
            None
        }
    }
}


impl Wm {
    /// How many clients of `s` are shown.
    pub open spec fn count_visible(self, s: Seq<usize>) -> nat
        decreases s.len(),
    {
        if s.len() == 0 {
            0
        } else {
            self.count_visible(s.drop_last()) + if self.visible(s.last()) { 1nat } else { 0nat }
        }
    }

    /// The first client of `s` that is shown and is not `sel`.
    pub open spec fn first_other_visible(self, s: Seq<usize>, sel: Option<usize>) -> Option<usize>
        decreases s.len(),
    {
        if s.len() == 0 {
            None
        } else if self.visible(s[0]) && sel != Some(s[0]) {
            Some(s[0])
        } else {
            self.first_other_visible(s.drop_first(), sel)
        }
    }

    /// Number of shown clients among the first `k` of monitor `m`'s tiling list.
    pub fn count_visible_prefix(&self, m: usize, k: usize) -> (r: u64)
        requires
            self.wf(),
            m < self.mons@.len(),
            k <= self.mons@[m as int].clients@.len(),
        ensures
            r == self.count_visible(self.mons@[m as int].clients@.take(k as int)),
            r <= k,
    {
        let ghost s = self.mons@[m as int].clients@;
        let mut i: usize = 0;
        let mut n: u64 = 0;
        assert(s.take(0) =~= Seq::<usize>::empty());
        while i < k
            invariant
                self.wf(),
                m < self.mons@.len(),
                s == self.mons@[m as int].clients@,
                k <= s.len(),
                i <= k,
                n == self.count_visible(s.take(i as int)),
                n <= i,
            decreases k - i,
        {
            let c = self.mons[m].clients[i];
            proof {
                assert(self.mon_ok(m as int));
                assert(s.contains(c));
                assert(s.take(i + 1).drop_last() =~= s.take(i as int));
            }
            if self.is_visible(c) {
                n = n + 1;
            }
            i = i + 1;
        }
        n
    }

    /// The position in the selected monitor's tiling list that the stack
    /// argument `ai` names, counting shown clients only: `PREV_SEL` is the most
    /// recently focused other shown client; `2000 + d` (for `-1000 < d < 1000`)
    /// is `d` places from the selected client, wrapping around; a negative
    /// `ai` counts from the end; any other value is itself. -1 when there is
    /// no such client or no clients at all.
    pub open spec fn spec_stackpos(self, ai: i32) -> int {
        let m = self.mons@[self.selmon as int];
        let list = m.clients@;
        if list.len() == 0 {
            -1
        } else if ai == PREV_SEL {
            match self.first_other_visible(m.stack@, m.sel) {
                None => -1,
                Some(l) => self.count_visible(list.take(list.index_of(l))) as int,
            }
        } else if 1000 < ai < 3000 {
            match m.sel {
                None => -1,
                Some(s) => (self.count_visible(list.take(list.index_of(s))) + (ai - 2000)) % (self.count_visible(list) as int),
            }
        } else if ai < 0 {
            if self.count_visible(list) + ai > 0 { self.count_visible(list) + ai } else { 0 }
        } else {
            ai as int
        }
    }

    /// Whether the stack argument `ai` can be worked out: one that counts
    /// from the selected client needs some shown client to count among.
    pub open spec fn stack_arg_ok(self, ai: i32) -> bool {
        let m = self.mons@[self.selmon as int];
        1000 < ai < 3000 && m.sel is Some ==> self.count_visible(m.clients@) > 0
    }

    /// Whether the selected monitor's selected client, if any, is fullscreen
    /// while fullscreen windows keep the focus.
    pub open spec fn fullscreen_locked(self) -> bool {
        LOCK_FULLSCREEN && (self.mons@[self.selmon as int].sel matches Some(s)
            && self.clients@[s as int].isfullscreen)
    }

    proof fn lemma_count_visible_split(self, s: Seq<usize>, k: int)
        requires
            0 <= k <= s.len(),
        ensures
            self.count_visible(s) == self.count_visible(s.take(k)) + self.count_visible(s.skip(k)),
        decreases s.len(),
    {
        if k == s.len() {
            assert(s.take(k) =~= s);
            assert(s.skip(k).len() == 0);
        } else {
            self.lemma_count_visible_split(s.drop_last(), k);
            assert(s.drop_last().take(k) =~= s.take(k));
            assert(s.skip(k).drop_last() =~= s.drop_last().skip(k));
            assert(s.skip(k).last() == s.last());
        }
    }

    /// Computes `spec_stackpos(ai)`.
    pub fn stackpos(&self, ai: i32) -> (r: i32)
        requires
            self.wf(),
            self.mons@[self.selmon as int].clients@.len() < 0x1000_0000,
            self.stack_arg_ok(ai),
        ensures
            r == self.spec_stackpos(ai),
    {
        let sm = self.selmon;
        proof {
            assert(self.mon_ok(sm as int));
        }
        let ghost list = self.mons@[sm as int].clients@;
        let len = self.mons[sm].clients.len();
        if len == 0 {
            return -1;
        }
        if ai == PREV_SEL {
            let sel = self.mons[sm].sel;
            let mut j: usize = 0;
            let ghost st = self.mons@[sm as int].stack@;
            assert(st.skip(0) =~= st);
            let mut l: Option<usize> = None;
            while j < self.mons[sm].stack.len()
                invariant
                    self.wf(),
                    sm == self.selmon,
                    st == self.mons@[sm as int].stack@,
                    list == self.mons@[sm as int].clients@,
                    list.len() < 0x1000_0000,
                    ai == PREV_SEL,
                    sel == self.mons@[sm as int].sel,
                    j <= st.len(),
                    l is None,
                    self.first_other_visible(st, sel) == self.first_other_visible(st.skip(j as int), sel),
                decreases st.len() - j,
            {
                let x = self.mons[sm].stack[j];
                proof {
                    assert(self.mon_ok(sm as int));
                    assert(st.contains(x));
                    assert(self.mons@[sm as int].stack@.contains(x));
                    assert(list.contains(x));
                    assert(st.skip(j as int).drop_first() =~= st.skip(j + 1));
                }
                if self.is_visible(x) && sel != Some(x) {
                    let p = match position(&self.mons[sm].clients, x) {
                        Some(p) => p,
                        None => {
                            proof {
                                assert(self.mons@[sm as int].clients@.contains(x));
                            }
                            0
                        },
                    };
                    proof {
                        assert(list.index_of(x) == p as int) by {
                            assert(list.contains(x));
                            assert(list.no_duplicates());
                            let q = list.index_of(x);
                            assert(list[q] == x);
                        }
                    }
                    let n = self.count_visible_prefix(sm, p);
                    proof {
                        assert(st.skip(j as int)[0] == x);
                        assert(self.first_other_visible(st.skip(j as int), sel) == Some(x));

                    }
                    return n as i32;
                }
                j = j + 1;
            }
            assert(st.skip(j as int).len() == 0);
            return -1;
        }
        if 1000 < ai && ai < 3000 {
            match self.mons[sm].sel {
                None => {
                    return -1;
                },
                Some(s) => {
                    let p = match position(&self.mons[sm].clients, s) {
                        Some(p) => p,
                        None => {
                            proof {
                                assert(self.mons@[sm as int].clients@.contains(s));
                            }
                            0
                        },
                    };
                    proof {
                        assert(list.index_of(s) == p as int) by {
                            assert(list.contains(s));
                            let q = list.index_of(s);
                            assert(list[q] == s);
                        }
                    }
                    let i = self.count_visible_prefix(sm, p);
                    let n = self.count_visible_prefix(sm, len);
                    proof {
                        assert(list.take(len as int) =~= list);
                        self.lemma_count_visible_split(list, p as int);
                    }
                    let x: i64 = i as i64 + (ai as i64 - 2000);
                    let shifted: i64 = x + 1000 * (n as i64);
                    let r = (shifted % (n as i64)) as i32;
                    proof {
                        vstd::arithmetic::div_mod::lemma_mod_multiples_vanish(1000, x as int, n as int);
                    }
                    return r;
                },
            }
        }
        if ai < 0 {
            let n = self.count_visible_prefix(sm, len);
            proof {
                assert(list.take(len as int) =~= list);
            }
            let v = n as i32 + ai;
            return if v > 0 { v } else { 0 };
        }
        ai
    }
}


/// `s` with `x` put right after the element `a`.
pub open spec fn insert_after(s: Seq<usize>, a: usize, x: usize) -> Seq<usize> {
    s.insert(s.index_of(a) + 1, x)
}

impl Wm {
    /// The first position at or after `from` in monitor `m`'s tiling list
    /// holding a tiled (shown, non-floating) client.
    pub open spec fn first_tiled_from(self, s: Seq<usize>, from: int) -> Option<int>
        decreases s.len() - from,
    {
        if from < 0 || from >= s.len() {
            None
        } else if self.tiled(s[from]) {
            Some(from)
        } else {
            self.first_tiled_from(s, from + 1)
        }
    }

    /// A found position is at or after `from`, inside the list, and holds a tiled client.
    pub proof fn lemma_first_tiled_from(self, s: Seq<usize>, from: int)
        ensures
            self.first_tiled_from(s, from) matches Some(p) ==> from <= p < s.len() && self.tiled(s[p]),
        decreases s.len() - from,
    {
        if 0 <= from < s.len() && !self.tiled(s[from]) {
            self.lemma_first_tiled_from(s, from + 1);
        }
    }

    /// The position of the next tiled client in monitor `m`'s tiling list,
    /// starting at position `from`.
    pub fn nexttiled(&self, m: usize, from: usize) -> (r: Option<usize>)
        requires
            self.wf(),
            m < self.mons@.len(),
        ensures
            r == match self.first_tiled_from(self.mons@[m as int].clients@, from as int) {
                Some(p) => Some(p as usize),
                None => None::<usize>,
            },
            r matches Some(p) ==> p < self.mons@[m as int].clients@.len() && from <= p,
    {
        let ghost s = self.mons@[m as int].clients@;
        proof {
            self.lemma_first_tiled_from(s, from as int);
        }
        let mut k = from;
        while k < self.mons[m].clients.len()
            invariant
                self.wf(),
                m < self.mons@.len(),
                s == self.mons@[m as int].clients@,
                from <= k,
                self.first_tiled_from(s, from as int) == self.first_tiled_from(s, k as int),
            decreases s.len() - k,
        {
            let c = self.mons[m].clients[k];
            proof {
                assert(self.mon_ok(m as int));
                assert(s.contains(c));
            }
            if self.is_visible(c) && !self.clients[c].isfloating {
                return Some(k);
            }
            k = k + 1;
        }
        None
    }

    /// A reordering of monitor `m`'s tiling list that keeps its clients keeps the state consistent.
    proof fn lemma_reorder_ok(old: Wm, new: Wm, m: int)
        requires
            old.wf(),
            0 <= m < old.mons@.len(),
            new.clients == old.clients,
            new.selmon == old.selmon,
            other_mons_same(old, new, m),
            same_settings(new.mons@[m], old.mons@[m]),
            new.mons@[m].stack == old.mons@[m].stack,
            new.mons@[m].sel == old.mons@[m].sel,
            new.mons@[m].clients@.no_duplicates(),
            forall|x: usize| #[trigger] new.mons@[m].clients@.contains(x) <==> old.mons@[m].clients@.contains(x),
        ensures
            new.wf(),
    {
        assert(old.mon_ok(m));
        assert(new.mons@[m].tag_state() == old.mons@[m].tag_state());
        assert(new.mon_ok(m));
        Wm::lemma_wf_frame(old, new, m);
    }

    /// Moves client `c` to the head of its monitor's tiling list and focuses it.
    pub fn pop(&mut self, c: usize) -> (r: FocusChange)
        requires
            old(self).wf(),
            c < old(self).clients@.len(),
            old(self).attached(c),
        ensures
            final(self).wf(),
            r.focused == old(self).focus_target(Some(c)),
            Wm::focus_moved(*old(self), *final(self), r),
            ({
                let m = old(self).clients@[c as int].mon as int;
                &&& final(self).mons@.len() == old(self).mons@.len()
                &&& forall|k: int| 0 <= k < old(self).mons@.len() ==> #[trigger] final(self).mons@[k].clients@
                    == if k == m { without(old(self).mons@[m].clients@, c).insert(0, c) } else { old(self).mons@[k].clients@ }
            }),
    {
        let ghost old_state = *self;
        let m = self.clients[c].mon;
        proof {
            assert(self.mon_ok(m as int));
        }
        let ghost l = self.mons@[m as int].clients@;
        self.detach(c);
        self.attach(c);
        proof {
            let i = choose|i: int| 0 <= i < l.len() && l[i] == c && without(l, c) == l.remove(i);
            lemma_remove_contents(l, i);
            lemma_push_front_contents(l.remove(i), c);
            Wm::lemma_reorder_ok(old_state, *self, m as int);
            assert forall|x: usize| x < self.clients@.len() implies #[trigger] self.visible(x) == old_state.visible(x) by {
                let xm = self.clients@[x as int].mon as int;
                assert(old_state.clients@[x as int].mon < old_state.mons@.len());
                if xm != m as int {
                    assert(self.mons@[xm] == old_state.mons@[xm]);
                }
            }
            let st = self.mons@[self.selmon as int].stack@;
            assert(old_state.mon_ok(self.selmon as int));
            assert forall|x: usize| #[trigger] st.contains(x) implies self.visible(x) == old_state.visible(x) by {
                assert(old_state.mons@[self.selmon as int].clients@.contains(x));
            }
            self.lemma_first_visible_same(old_state, st);
        }
        let ghost mid = *self;
        let r = self.focus(Some(c));
        proof {
            assert(mid.selmon == old_state.selmon);
            assert(mid.clients == old_state.clients);
            assert forall|k: int| 0 <= k < old_state.mons@.len() implies #[trigger] mid.mons@[k].stack
                == old_state.mons@[k].stack && mid.mons@[k].sel == old_state.mons@[k].sel by {
                if k != m as int {
                    assert(mid.mons@[k] == old_state.mons@[k]);
                }
            }
            assert forall|k: int| 0 <= k < old_state.mons@.len() implies #[trigger] self.mons@[k].clients@
                == mid.mons@[k].clients@ by {
                if let Some(f) = r.focused {
                    let fm = mid.clients@[f as int].mon as int;
                    if k != fm {
                        assert(self.mons@[k] == mid.mons@[k]);
                    }
                } else {
                    if k != mid.selmon as int {
                        assert(self.mons@[k] == mid.mons@[k]);
                    }
                }
            }
        }
        r
    }

    /// The client `zoom` moves to the head of the tiling list: the selected
    /// client, or the next tiled one when the selected client already heads
    /// the tiled clients; none when the layout arranges nothing, nothing is
    /// selected, or the selected client floats.
    pub open spec fn zoom_target(self) -> Option<usize> {
        let m = self.mons@[self.selmon as int];
        if !arranges(m.lt[m.sellt as int]) {
            None
        } else {
            match m.sel {
                None => None,
                Some(s) => if self.clients@[s as int].isfloating {
                    None
                } else {
                    match self.first_tiled_from(m.clients@, 0) {
                        Some(p) if m.clients@[p] == s => match self.first_tiled_from(m.clients@, m.clients@.index_of(s) + 1) {
                            Some(q) => Some(m.clients@[q]),
                            None => None,
                        },
                        _ => Some(s),
                    }
                },
            }
        }
    }

    /// Computes `zoom_target()`.
    pub fn find_zoom_target(&self) -> (r: Option<usize>)
        requires
            self.wf(),
        ensures
            r == self.zoom_target(),
            r matches Some(c) ==> c < self.clients@.len() && self.attached(c),
    {
        let sm = self.selmon;
        proof {
            assert(self.mon_ok(sm as int));
        }
        let ghost list = self.mons@[sm as int].clients@;
        if self.mons[sm].lt[self.mons[sm].sellt] == crate::config::FLOATING_LAYOUT {
            return None;
        }
        assert(arranges(self.mons@[sm as int].lt[self.mons@[sm as int].sellt as int]));
        let s = match self.mons[sm].sel {
            None => { return None; },
            Some(s) => s,
        };
        if self.clients[s].isfloating {
            return None;
        }
        assert(list.contains(s));
        match self.nexttiled(sm, 0) {
            Some(p) => {
                proof {
                    self.lemma_first_tiled_from(list, 0);
                    assert(list.len() == self.mons[sm as int].clients.len());
                    assert(self.first_tiled_from(list, 0) == Some(p as int));
                }
                if self.mons[sm].clients[p] == s {
                    let ps = match position(&self.mons[sm].clients, s) {
                        Some(ps) => ps,
                        None => { return None; },
                    };
                    proof {
                        assert(list.index_of(s) == ps as int) by {
                            let q = list.index_of(s);
                            assert(list[q] == s);
                        }
                        assert(ps < self.mons[sm as int].clients.len());
                    }
                    let nt = self.nexttiled(sm, ps + 1);
                    proof {
                        self.lemma_first_tiled_from(list, ps + 1);
                        assert(list.len() == self.mons[sm as int].clients.len());
                        if let Some(q) = nt {
                            assert(self.first_tiled_from(list, ps + 1) == Some(q as int));
                        } else {
                            assert(self.first_tiled_from(list, ps + 1) is None);
                        }
                    }
                    match nt {
                        Some(q) => {
                            let c = self.mons[sm].clients[q];
                            proof {
                                assert(list.contains(c));
                                assert(self.zoom_target() == Some(c));
                            }
                            Some(c)
                        },
                        None => {
                            assert(self.zoom_target() is None);
                            None
                        },
                    }
                } else {
                    assert(self.zoom_target() == Some(s));
                    Some(s)
                }
            },
            None => {
                assert(self.zoom_target() == Some(s));
                Some(s)
            },
        }
    }

    /// The first tiled client from position `from` on heads the tiled
    /// clients of `s` from there; none found means none are left.
    proof fn lemma_first_tiled_filter(self, s: Seq<usize>, from: int)
        requires
            0 <= from <= s.len(),
        ensures
            match self.first_tiled_from(s, from) {
                None => s.skip(from).filter(self.tiled_pred()).len() == 0,
                Some(p) => {
                    &&& from <= p < s.len()
                    &&& s.skip(from).filter(self.tiled_pred()) == seq![s[p]] + s.skip(p + 1).filter(self.tiled_pred())
                },
            },
        decreases s.len() - from,
    {
        let pred = self.tiled_pred();
        if from == s.len() {
            assert(s.skip(from) =~= Seq::<usize>::empty());
            reveal(Seq::filter);
        } else {
            assert(s.skip(from) =~= seq![s[from]] + s.skip(from + 1));
            s.skip(from + 1).lemma_filter_prepend(s[from], pred);
            assert(pred(s[from]) == self.tiled(s[from]));
            self.lemma_first_tiled_filter(s, from + 1);
            if !self.tiled(s[from]) {
                assert(seq![s[from]].filter(pred) =~= Seq::<usize>::empty()) by {
                    reveal(Seq::filter);
                    assert(seq![s[from]].drop_last() =~= Seq::<usize>::empty());
                }
                assert(Seq::<usize>::empty() + s.skip(from + 1).filter(pred) =~= s.skip(from + 1).filter(pred));
            }
        }
    }

    /// Zooming picks a client by the tiled clients of the selected monitor,
    /// in order: the selected client when it is tiled but not their head;
    /// when it heads them, the tiled client right after it (none when it is
    /// the only one); nothing when the layout arranges nothing, nothing is
    /// selected or the selected client floats.
    pub proof fn lemma_zoom_target_tiled(w: Wm)
        requires
            w.wf(),
        ensures
            ({
                let m = w.mons@[w.selmon as int];
                let t = m.clients@.filter(w.tiled_pred());
                match m.sel {
                    Some(s) => if arranges(m.lt[m.sellt as int]) && !w.clients@[s as int].isfloating {
                        if t.len() > 0 && t[0] == s {
                            w.zoom_target() == if t.len() > 1 { Some(t[1]) } else { None::<usize> }
                        } else {
                            w.zoom_target() == Some(s)
                        }
                    } else {
                        w.zoom_target() is None
                    },
                    None => w.zoom_target() is None,
                }
            }),
    {
        let m = w.mons@[w.selmon as int];
        let list = m.clients@;
        let pred = w.tiled_pred();
        assert(w.mon_ok(w.selmon as int));
        assert(list.skip(0) =~= list);
        w.lemma_first_tiled_filter(list, 0);
        if let Some(s) = m.sel {
            if arranges(m.lt[m.sellt as int]) && !w.clients@[s as int].isfloating {
                if let Some(p) = w.first_tiled_from(list, 0) {
                    if list[p] == s {
                        assert(list.index_of(s) == p) by {
                            assert(list[p] == s);
                            let q = list.index_of(s);
                            assert(0 <= q < list.len() && list[q] == s);
                        }
                        w.lemma_first_tiled_filter(list, p + 1);
                        let t = list.filter(pred);
                        assert(t[0] == s);
                        match w.first_tiled_from(list, p + 1) {
                            Some(q) => {
                                assert(t[1] == list[q]);
                            },
                            None => {
                                assert(t.len() == 1);
                            },
                        }
                    }
                }
            }
        }
    }

    /// Swaps the selected client with the head of the tiled clients (see
    /// `zoom_target`) and focuses it.
    pub fn zoom(&mut self) -> (r: Option<FocusChange>)
        requires
            old(self).wf(),
        ensures
            final(self).wf(),
            match old(self).zoom_target() {
                None => r is None && *final(self) == *old(self),
                Some(c) => (r matches Some(f) && f.focused == old(self).focus_target(Some(c))
                    && Wm::focus_moved(*old(self), *final(self), f)) && ({
                    let m = old(self).clients@[c as int].mon as int;
                    &&& final(self).mons@.len() == old(self).mons@.len()
                    &&& forall|k: int| 0 <= k < old(self).mons@.len() ==> #[trigger] final(self).mons@[k].clients@
                        == if k == m { without(old(self).mons@[m].clients@, c).insert(0, c) } else { old(self).mons@[k].clients@ }
                }),
            },
    {
        match self.find_zoom_target() {
            None => None,
            Some(c) => Some(self.pop(c)),
        }
    }

    /// The `i`-th shown client of `s` (counting from 0), or the last client of
    /// `s` when fewer are shown.
    pub open spec fn nth_shown_or_last(self, s: Seq<usize>, i: nat) -> Option<usize>
        decreases s.len(),
    {
        if s.len() == 0 {
            None
        } else if self.visible(s[0]) && i == 0 {
            Some(s[0])
        } else if s.len() == 1 {
            Some(s[0])
        } else {
            self.nth_shown_or_last(s.drop_first(), if self.visible(s[0]) { (i - 1) as nat } else { i })
        }
    }

    /// Focuses the client that the stack argument `ai` names (see
    /// `spec_stackpos` and `nth_shown_or_last`), as `focus` does; nothing
    /// happens when it names none, or when the selected client is fullscreen
    /// and fullscreen windows keep the focus (`LOCK_FULLSCREEN`).
    pub fn focusstack(&mut self, ai: i32) -> (r: Option<FocusChange>)
        requires
            old(self).wf(),
            old(self).mons@[old(self).selmon as int].clients@.len() < 0x1000_0000,
            old(self).stack_arg_ok(ai),
        ensures
            final(self).wf(),
            old(self).fullscreen_locked() ==> r is None && *final(self) == *old(self),
            old(self).spec_stackpos(ai) < 0 ==> r is None && *final(self) == *old(self),
            !old(self).fullscreen_locked() && old(self).spec_stackpos(ai) >= 0 ==> (r matches Some(f) && Wm::focus_outcome(
                *old(self),
                *final(self),
                f,
                old(self).nth_shown_or_last(old(self).mons@[old(self).selmon as int].clients@, old(self).spec_stackpos(ai) as nat),
            )),
    {
        proof {
            assert(self.mon_ok(self.selmon as int));
        }
        if LOCK_FULLSCREEN {
            if let Some(s) = self.mons[self.selmon].sel {
                if self.clients[s].isfullscreen {
                    return None;
                }
            }
        }
        let i = self.stackpos(ai);
        if i < 0 {
            return None;
        }
        let sm = self.selmon;
        proof {
            assert(self.mon_ok(sm as int));
        }
        let ghost s = self.mons@[sm as int].clients@;
        let mut k: usize = 0;
        let mut left: u64 = i as u64;
        assert(s.skip(0) =~= s);
        while k < self.mons[sm].clients.len()
            invariant
                self.wf(),
                sm == self.selmon,
                s == self.mons@[sm as int].clients@,
                s.len() > 0,
                k < s.len(),
                i >= 0,
                *self == *old(self),
                !self.fullscreen_locked(),
                i as int == self.spec_stackpos(ai),
                self.nth_shown_or_last(s, i as nat) == self.nth_shown_or_last(s.skip(k as int), left as nat),
            decreases s.len() - k,
        {
            let c = self.mons[sm].clients[k];
            proof {
                assert(self.mon_ok(sm as int));
                assert(s.contains(c));
                assert(s.skip(k as int)[0] == c);
                assert(s.skip(k as int).drop_first() =~= s.skip(k + 1));
            }
            let vis = self.is_visible(c);
            if (vis && left == 0) || k + 1 == self.mons[sm].clients.len() {
                proof {
                    assert(self.nth_shown_or_last(s.skip(k as int), left as nat) == Some(c));
                }
                let f = self.focus(Some(c));
                return Some(f);
            }
            if vis {
                left = left - 1;
            }
            k = k + 1;
        }
        None
    }
}


impl Wm {
    /// The `i`-th (counting from 1) shown client of `s` other than `sel`, or
    /// the last client of `s` when there are fewer.
    pub open spec fn kth_other_or_last(self, s: Seq<usize>, sel: usize, i: nat) -> Option<usize>
        decreases s.len(),
    {
        if s.len() == 0 {
            None
        } else {
            let hit = self.visible(s[0]) && s[0] != sel;
            if hit && i <= 1 {
                Some(s[0])
            } else if s.len() == 1 {
                Some(s[0])
            } else {
                self.kth_other_or_last(s.drop_first(), sel, if hit { (i - 1) as nat } else { i })
            }
        }
    }

    /// The client after which `pushstack(i)` puts the selected client:
    /// see `kth_other_or_last`.
    pub fn pushstack_anchor(&self, i: u32) -> (r: Option<usize>)
        requires
            self.wf(),
            i >= 1,
            self.mons@[self.selmon as int].sel is Some,
        ensures
            r == self.kth_other_or_last(
                self.mons@[self.selmon as int].clients@,
                self.mons@[self.selmon as int].sel.unwrap(),
                i as nat,
            ),
            r matches Some(a) ==> self.mons@[self.selmon as int].clients@.contains(a),
    {
        let sm = self.selmon;
        proof {
            assert(self.mon_ok(sm as int));
        }
        let sel = self.mons[sm].sel.unwrap();
        let ghost s = self.mons@[sm as int].clients@;
        let len = self.mons[sm].clients.len();
        if len == 0 {
            return None;
        }
        let mut k: usize = 0;
        let mut left: u32 = i;
        assert(s.skip(0) =~= s);
        while k < len
            invariant
                self.wf(),
                sm == self.selmon,
                s == self.mons@[sm as int].clients@,
                len == s.len(),
                k < len,
                left >= 1,
                sel == self.mons@[sm as int].sel.unwrap(),
                self.kth_other_or_last(s, sel, i as nat) == self.kth_other_or_last(s.skip(k as int), sel, left as nat),
            decreases len - k,
        {
            let c = self.mons[sm].clients[k];
            proof {
                assert(self.mon_ok(sm as int));
                assert(s.contains(c));
                assert(s.skip(k as int)[0] == c);
                assert(s.skip(k as int).drop_first() =~= s.skip(k + 1));
            }
            let hit = self.is_visible(c) && c != sel;
            if (hit && left <= 1) || k + 1 == len {
                proof {
                    assert(s.skip(k as int).len() == len - k);
                }
                return Some(c);
            }
            if hit {
                left = left - 1;
            }
            k = k + 1;
        }
        None
    }

    /// Moves the selected client within the tiling list: to the head for
    /// position 0, otherwise right after `anchor` (see `pushstack_anchor`).
    pub fn pushstack(&mut self, i: u32, anchor: usize)
        requires
            old(self).wf(),
            old(self).mons@[old(self).selmon as int].sel is Some,
            i >= 1 ==> Some(anchor) == old(self).kth_other_or_last(
                old(self).mons@[old(self).selmon as int].clients@,
                old(self).mons@[old(self).selmon as int].sel.unwrap(),
                i as nat,
            ),
            i >= 1 ==> Some(anchor) != old(self).mons@[old(self).selmon as int].sel,
        ensures
            final(self).wf(),
            ({
                let sm = old(self).selmon as int;
                let sel = old(self).mons@[sm].sel.unwrap();
                let l = without(old(self).mons@[sm].clients@, sel);
                &&& final(self).mons@[sm].clients@ == if i == 0 { l.insert(0, sel) } else { insert_after(l, anchor, sel) }
                &&& final(self).mons@[sm].stack == old(self).mons@[sm].stack
                &&& final(self).mons@[sm].sel == old(self).mons@[sm].sel
                &&& same_settings(final(self).mons@[sm], old(self).mons@[sm])
                &&& other_mons_same(*old(self), *final(self), sm)
            }),
            final(self).clients == old(self).clients,
            final(self).selmon == old(self).selmon,
    {
        let ghost old_state = *self;
        let sm = self.selmon;
        proof {
            assert(self.mon_ok(sm as int));
        }
        let sel = self.mons[sm].sel.unwrap();
        let ghost l0 = self.mons@[sm as int].clients@;
        assert(l0.contains(sel));
        remove_value(&mut self.mons[sm].clients, sel);
        let ghost l = self.mons@[sm as int].clients@;
        proof {
            let j = choose|j: int| 0 <= j < l0.len() && l0[j] == sel && l == l0.remove(j);
            lemma_remove_contents(l0, j);
        }
        if i == 0 {
            self.mons[sm].clients.insert(0, sel);
            proof {
                lemma_insert_contents(l, 0, sel);
            }
        } else {
            proof {
                old_state.lemma_kth_in(l0, sel, i as nat);
                assert(old_state.kth_other_or_last(l0, sel, i as nat) == Some(anchor));
                assert(l0.contains(anchor));
                assert(anchor != sel);
                assert(l.contains(anchor));
            }
            let q = match position(&self.mons[sm].clients, anchor) {
                Some(q) => q,
                None => 0,
            };
            proof {
                assert(l.index_of(anchor) == q as int) by {
                    let t = l.index_of(anchor);
                    assert(l[t] == anchor);
                }
                assert(q < self.mons[sm as int].clients.len());
            }
            self.mons[sm].clients.insert(q + 1, sel);
            proof {
                lemma_insert_contents(l, q + 1, sel);
            }
        }
        proof {
            Wm::lemma_reorder_ok(old_state, *self, sm as int);
        }
    }

    /// The client `kth_other_or_last` names is in the list.
    proof fn lemma_kth_in(self, s: Seq<usize>, sel: usize, i: nat)
        ensures
            self.kth_other_or_last(s, sel, i) matches Some(a) ==> s.contains(a),
        decreases s.len(),
    {
        if s.len() > 1 {
            let hit = self.visible(s[0]) && s[0] != sel;
            if !(hit && i <= 1) {
                self.lemma_kth_in(s.drop_first(), sel, if hit { (i - 1) as nat } else { i });
                if let Some(a) = self.kth_other_or_last(s, sel, i) {
                    let j = choose|j: int| 0 <= j < s.drop_first().len() && s.drop_first()[j] == a;
                    assert(s[j + 1] == a);
                }
            } else {
                assert(s[0] == s[0]);
            }
        } else if s.len() == 1 {
            assert(s[0] == s[0]);
        }
    }
}


impl Wm {
    /// Takes client `c` out of both lists of its monitor (see `detach` and `detachstack`).
    pub fn detach_all(&mut self, c: usize)
        requires
            old(self).wf(),
            c < old(self).clients@.len(),
        ensures
            final(self).wf(),
            !final(self).attached(c),
            ({
                let m = old(self).clients@[c as int].mon as int;
                &&& final(self).mons@[m].clients@ == without(old(self).mons@[m].clients@, c)
                &&& final(self).mons@[m].stack@ == without(old(self).mons@[m].stack@, c)
                &&& final(self).mons@[m].sel == if old(self).mons@[m].sel == Some(c) {
                    old(self).first_visible(final(self).mons@[m].stack@)
                } else {
                    old(self).mons@[m].sel
                }
                &&& same_settings(final(self).mons@[m], old(self).mons@[m])
                &&& other_mons_same(*old(self), *final(self), m)
            }),
            final(self).clients == old(self).clients,
            final(self).selmon == old(self).selmon,
    {
        let ghost old_state = *self;
        let m = self.clients[c].mon;
        proof {
            assert(self.mon_ok(m as int));
        }
        let ghost l0 = self.mons@[m as int].clients@;
        let ghost s0 = self.mons@[m as int].stack@;
        self.detach(c);
        proof {
            old_state.lemma_wf_stacks_valid();
            assert forall|k: int| 0 <= k < self.mons@.len() implies #[trigger] self.mons@[k].stack == old_state.mons@[k].stack
                && self.mons@[k].seltags == old_state.mons@[k].seltags by {
                if k != m as int {
                    assert(self.mons@[k] == old_state.mons@[k]);
                }
            }
        }
        let ghost mid = *self;
        self.detachstack(c);
        proof {
            let l = self.mons@[m as int].clients@;
            let st = self.mons@[m as int].stack@;
            if l0.contains(c) {
                let i = choose|i: int| 0 <= i < l0.len() && l0[i] == c && l == l0.remove(i);
                lemma_remove_contents(l0, i);
            }
            if s0.contains(c) {
                let i = choose|i: int| 0 <= i < s0.len() && s0[i] == c && st == s0.remove(i);
                lemma_remove_contents(s0, i);
            }
            assert forall|x: usize| #[trigger] l.contains(x) <==> st.contains(x) by {
                assert(l0.contains(x) <==> s0.contains(x));
            }
            let mon = self.mons@[m as int];
            assert forall|x: usize| #[trigger] mon.clients@.contains(x) implies x < self.clients@.len()
                && self.clients@[x as int].mon == m && self.clients@[x as int].alive by {
                assert(l0.contains(x));
            }
            assert forall|x: usize| #[trigger] st.contains(x) implies mid.visible(x) == old_state.visible(x) by {
                assert(s0.contains(x));
                assert(old_state.mons@[m as int].clients@.contains(x));
            }
            mid.lemma_first_visible_same(old_state, st);
            if let Some(sl) = mon.sel {
                if old_state.mons@[m as int].sel == Some(c) {
                    old_state.lemma_first_visible_is_first(st);
                    let k = choose|k: int| 0 <= k < st.len() && st[k] == sl && old_state.visible(sl) && forall|j: int|
                        0 <= j < k ==> !old_state.visible(#[trigger] st[j]);
                    assert(st.contains(sl));
                } else {
                    assert(l0.contains(sl));
                }
            }
            assert(mon.tag_state() == old_state.mons@[m as int].tag_state());
            assert(self.mon_ok(m as int));
            Wm::lemma_wf_frame(old_state, *self, m as int);
            assert(!l.contains(c));
        }
    }
}


impl Wm {
    /// Puts the unattached live client `c` at the head of both lists of its
    /// monitor (see `attach` and `attachstack`).
    pub fn attach_all(&mut self, c: usize)
        requires
            old(self).wf(),
            c < old(self).clients@.len(),
            old(self).clients@[c as int].alive,
            !old(self).attached(c),
        ensures
            final(self).wf(),
            final(self).attached(c),
            ({
                let m = old(self).clients@[c as int].mon as int;
                &&& final(self).mons@[m].clients@ == old(self).mons@[m].clients@.insert(0, c)
                &&& final(self).mons@[m].stack@ == old(self).mons@[m].stack@.insert(0, c)
                &&& final(self).mons@[m].sel == old(self).mons@[m].sel
                &&& same_settings(final(self).mons@[m], old(self).mons@[m])
                &&& other_mons_same(*old(self), *final(self), m)
            }),
            final(self).clients == old(self).clients,
            final(self).selmon == old(self).selmon,
    {
        let ghost old_state = *self;
        let m = self.clients[c].mon;
        proof {
            assert(self.mon_ok(m as int));
        }
        let ghost l0 = self.mons@[m as int].clients@;
        let ghost s0 = self.mons@[m as int].stack@;
        self.attach(c);
        self.attachstack(c);
        proof {
            assert(!s0.contains(c));
            lemma_push_front_contents(l0, c);
            lemma_push_front_contents(s0, c);
            let mon = self.mons@[m as int];
            assert forall|x: usize| #[trigger] mon.clients@.contains(x) <==> mon.stack@.contains(x) by {
                assert(l0.contains(x) <==> s0.contains(x));
            }
            assert forall|x: usize| #[trigger] mon.clients@.contains(x) implies x < self.clients@.len()
                && self.clients@[x as int].mon == m && self.clients@[x as int].alive by {
                if x != c {
                    assert(l0.contains(x));
                }
            }
            if let Some(sl) = mon.sel {
                assert(l0.contains(sl));
            }
            assert(mon.tag_state() == old_state.mons@[m as int].tag_state());
            assert(self.mon_ok(m as int));
            Wm::lemma_wf_frame(old_state, *self, m as int);
        }
    }

    /// Changes fields of client `c` other than its monitor and liveness.
    pub(crate) fn update_client(&mut self, c: usize, v: Client)
        requires
            old(self).wf(),
            c < old(self).clients@.len(),
            v.mon == old(self).clients@[c as int].mon,
            v.alive == old(self).clients@[c as int].alive,
        ensures
            final(self).wf(),
            final(self).clients@ == old(self).clients@.update(c as int, v),
            final(self).mons == old(self).mons,
            final(self).selmon == old(self).selmon,
    {
        let ghost old_state = *self;
        self.clients.set(c, v);
        proof {
            assert(old_state.mon_ok(self.selmon as int));
            Wm::lemma_wf_frame(old_state, *self, self.selmon as int);
        }
    }

    /// Moves client `c` to monitor `m` (which it is not on): it leaves the
    /// lists of its monitor, takes the tags shown on `m` and joins the head
    /// of `m`'s lists; a fullscreen client takes `m`'s whole area.
    #[verifier::spinoff_prover]
    fn move_to_mon(&mut self, c: usize, m: usize)
        requires
            old(self).wf(),
            c < old(self).clients@.len(),
            old(self).attached(c),
            m < old(self).mons@.len(),
            old(self).clients@[c as int].mon != m,
        ensures
            final(self).wf(),
            final(self).attached(c),
            ({
                let cl = final(self).clients@[c as int];
                let ol = old(self).clients@[c as int];
                let mm = old(self).mons@[m as int];
                &&& cl.mon == m
                &&& cl.tags == current(mm.tag_state())
                &&& final(self).mons@[m as int].clients@ == mm.clients@.insert(0, c)
                &&& ol.isfullscreen ==> cl.x == mm.mx && cl.y == mm.my && cl.w == mm.mw && cl.h == mm.mh
                &&& !ol.isfullscreen ==> cl.x == ol.x && cl.y == ol.y && cl.w == ol.w && cl.h == ol.h
                &&& final(self).mons@[ol.mon as int].clients@ == without(old(self).mons@[ol.mon as int].clients@, c)
                &&& final(self).mons@[ol.mon as int].stack@ == without(old(self).mons@[ol.mon as int].stack@, c)
                &&& final(self).mons@[m as int].stack@ == mm.stack@.insert(0, c)
                &&& cl.isurgent == ol.isurgent
                &&& forall|k: int| 0 <= k < old(self).mons@.len() && k != ol.mon && k != m ==> #[trigger] final(self).mons@[k] == old(self).mons@[k]
            }),
            forall|x: int| 0 <= x < old(self).clients@.len() && x != c ==> #[trigger] final(self).clients@[x] == old(self).clients@[x],
            forall|k: int| 0 <= k < old(self).mons@.len() ==> #[trigger] final(self).mons@[k].tagset == old(self).mons@[k].tagset
                && final(self).mons@[k].seltags == old(self).mons@[k].seltags,
            forall|k: int| 0 <= k < old(self).mons@.len() ==> #[trigger] final(self).mons@[k].sel == old(self).moved_sel(c, k),
            final(self).selmon == old(self).selmon,
            final(self).clients@.len() == old(self).clients@.len(),
            final(self).mons@.len() == old(self).mons@.len(),
    {
        let ghost old_state = *self;
        let om = self.clients[c].mon;
        proof {
            assert(self.mon_ok(om as int));
            assert(self.clients@[c as int].alive);
        }
        self.detach_all(c);
        proof {
            assert(self.mon_ok(m as int));
            assert(self.mons@[m as int] == old_state.mons@[m as int]);
        }
        let tags = self.mons[m].tagset[self.mons[m].seltags];
        let old_c = &self.clients[c];
        let full = old_c.isfullscreen;
        let mx = self.mons[m].mx;
        let my = self.mons[m].my;
        let mw = self.mons[m].mw;
        let mh = self.mons[m].mh;
        let nc = Client {
            mon: m,
            tags,
            x: if full { mx } else { old_c.x },
            y: if full { my } else { old_c.y },
            w: if full { mw } else { old_c.w },
            h: if full { mh } else { old_c.h },
            oldx: if full { old_c.x } else { old_c.oldx },
            oldy: if full { old_c.y } else { old_c.oldy },
            oldw: if full { old_c.w } else { old_c.oldw },
            oldh: if full { old_c.h } else { old_c.oldh },
            win: old_c.win,
            bw: old_c.bw,
            oldbw: old_c.oldbw,
            hints: old_c.hints,
            hintsvalid: old_c.hintsvalid,
            isfixed: old_c.isfixed,
            isfloating: old_c.isfloating,
            isurgent: old_c.isurgent,
            neverfocus: old_c.neverfocus,
            oldstate: old_c.oldstate,
            isfullscreen: old_c.isfullscreen,
            isterminal: old_c.isterminal,
            noswallow: old_c.noswallow,
            issticky: old_c.issticky,
            pid: old_c.pid,
            swallowing: old_c.swallowing,
            alive: old_c.alive,
        };
        let ghost before_move = *self;
        self.clients.set(c, nc);
        proof {
            assert forall|k: int| 0 <= k < self.mons@.len() implies #[trigger] self.mon_ok(k) by {
                assert(before_move.mon_ok(k));
                let mon = self.mons@[k];
                assert forall|x: usize| #[trigger] mon.clients@.contains(x) implies x < self.clients@.len()
                    && self.clients@[x as int].mon == k && self.clients@[x as int].alive by {
                    if x == c {
                        assert(!before_move.attached(c));
                        assert(k == om as int);
                    }
                }
            }
            assert forall|x: int| 0 <= x < self.clients@.len() implies #[trigger] self.clients@[x].mon < self.mons@.len() by {
                assert(before_move.clients@[x].mon < before_move.mons@.len());
            }
            assert(!self.attached(c)) by {
                assert(before_move.mon_ok(m as int));
            }
        }
        let ghost after_move = *self;
        self.attach_all(c);
        proof {
            assert(self.mons@[om as int].clients@ == after_move.mons@[om as int].clients@);
            assert(self.mons@[om as int].stack@ == after_move.mons@[om as int].stack@);
            assert forall|k: int| 0 <= k < old_state.mons@.len() implies #[trigger] self.mons@[k].tagset == old_state.mons@[k].tagset
                && self.mons@[k].seltags == old_state.mons@[k].seltags by {
                if k != m as int {
                    assert(self.mons@[k] == after_move.mons@[k]);
                }
                if k != om as int {
                    assert(after_move.mons@[k] == old_state.mons@[k]);
                }
            }
            assert forall|k: int| 0 <= k < old_state.mons@.len() implies #[trigger] self.mons@[k].sel == old_state.moved_sel(c, k) by {
                assert(after_move.mons@[k] == before_move.mons@[k]);
                if k != m as int {
                    assert(self.mons@[k] == after_move.mons@[k]);
                }
                if k != om as int {
                    assert(before_move.mons@[k] == old_state.mons@[k]);
                }
            }
        }
    }

    /// The selected client of monitor `k` once client `c` left its monitor:
    /// on that monitor, when `c` was selected there, the first shown client
    /// left in its focus stack; elsewhere the selection stays.
    pub open spec fn moved_sel(self, c: usize, k: int) -> Option<usize> {
        if k == self.clients@[c as int].mon as int && self.mons@[k].sel == Some(c) {
            self.first_visible(without(self.mons@[k].stack@, c))
        } else {
            self.mons@[k].sel
        }
    }

    /// The focus stack of monitor `k` once client `c` left its monitor for `m`.
    pub open spec fn moved_stack(self, c: usize, m: usize, k: int) -> Seq<usize> {
        if k == self.clients@[c as int].mon as int {
            without(self.mons@[k].stack@, c)
        } else if k == m as int {
            self.mons@[k].stack@.insert(0, c)
        } else {
            self.mons@[k].stack@
        }
    }

    /// The client that gets the focus after client `c` moved to monitor `m`:
    /// `c` itself when `m` is the selected monitor, otherwise the most
    /// recently focused shown client that is left on the selected monitor.
    pub open spec fn sendmon_focus(self, c: usize, m: usize) -> Option<usize> {
        if self.selmon == m {
            Some(c)
        } else {
            self.first_visible(without(self.mons@[self.selmon as int].stack@, c))
        }
    }

    /// Moves client `c` to monitor `m` (see `move_to_mon`; the monitor it
    /// leaves selects what `moved_sel` says), then focuses the most recently
    /// focused shown client of the selected monitor. Returns `None`
    /// (changing nothing) when `c` is already on `m`.
    #[verifier::spinoff_prover]
    pub fn sendmon(&mut self, c: usize, m: usize) -> (r: Option<FocusChange>)
        requires
            old(self).wf(),
            c < old(self).clients@.len(),
            old(self).attached(c),
            m < old(self).mons@.len(),
        ensures
            final(self).wf(),
            old(self).clients@[c as int].mon == m ==> r is None && *final(self) == *old(self),
            old(self).clients@[c as int].mon != m ==> r is Some,
            final(self).clients@.len() == old(self).clients@.len(),
            final(self).mons@.len() == old(self).mons@.len(),
            old(self).clients@[c as int].mon != m ==> ({
                let cl = final(self).clients@[c as int];
                let ol = old(self).clients@[c as int];
                let mm = old(self).mons@[m as int];
                &&& cl.mon == m
                &&& cl.tags == current(mm.tag_state())
                &&& final(self).mons@[m as int].clients@ == mm.clients@.insert(0, c)
                &&& ol.isfullscreen ==> cl.x == mm.mx && cl.y == mm.my && cl.w == mm.mw && cl.h == mm.mh
                &&& !ol.isfullscreen ==> cl.x == ol.x && cl.y == ol.y && cl.w == ol.w && cl.h == ol.h
                &&& final(self).mons@[ol.mon as int].clients@ == without(old(self).mons@[ol.mon as int].clients@, c)
            }),
            forall|k: int| 0 <= k < old(self).mons@.len() ==> #[trigger] final(self).mons@[k].tagset == old(self).mons@[k].tagset
                && final(self).mons@[k].seltags == old(self).mons@[k].seltags,
            old(self).clients@[c as int].mon != m ==> forall|k: int| 0 <= k < old(self).mons@.len() && k != old(self).selmon
                ==> #[trigger] final(self).mons@[k].stack@ == old(self).moved_stack(c, m, k),
            old(self).clients@[c as int].mon != m ==> forall|k: int| 0 <= k < old(self).mons@.len() && k != old(self).selmon
                ==> #[trigger] final(self).mons@[k].sel == old(self).moved_sel(c, k),
            old(self).clients@[c as int].mon != m ==> ({
                let sm = old(self).selmon as int;
                &&& final(self).selmon == old(self).selmon
                &&& r matches Some(f) && f.unfocused == match (old(self).moved_sel(c, sm), f.focused) {
                    (Some(s), Some(x)) => if s != x { Some(s) } else { None },
                    _ => None,
                }
                &&& r matches Some(f) && f.focused == old(self).sendmon_focus(c, m) && match f.focused {
                    Some(x) => {
                        &&& final(self).mons@[sm].sel == Some(x)
                        &&& final(self).mons@[sm].stack@ == without(old(self).moved_stack(c, m, sm), x).insert(0, x)
                        &&& !final(self).clients@[x as int].isurgent
                        &&& f.urgent_cleared == old(self).clients@[x as int].isurgent
                    },
                    None => {
                        &&& final(self).mons@[sm].sel is None
                        &&& final(self).mons@[sm].stack@ == old(self).moved_stack(c, m, sm)
                    },
                }
            }),
    {
        if self.clients[c].mon == m {
            return None;
        }
        let ghost om = self.clients@[c as int].mon as int;
        assert(om < self.mons@.len());
        let ghost old_state = *self;
        self.move_to_mon(c, m);
        let ghost before_focus = *self;
        proof {
            self.lemma_sendmon_target(old_state, c, m);
        }
        let r = self.focus(None);
        proof {
            let sm = old_state.selmon as int;
            before_focus.lemma_first_visible_is_first(before_focus.mons@[sm].stack@);
            assert(before_focus.mon_ok(sm));
            if let Some(x) = r.focused {
                assert(before_focus.mons@[sm].stack@.contains(x));
                assert(before_focus.mons@[sm].clients@.contains(x));
                if x != c {
                    assert(before_focus.clients@[x as int] == old_state.clients@[x as int]);
                }
            }
        }
        proof {
            match r.focused {
                Some(f) => {
                    if f != c {
                        assert(self.clients@[c as int] == before_focus.clients@[c as int]);
                    }
                    let fm = before_focus.clients@[f as int].mon as int;
                    if om != fm {
                        assert(self.mons@[om] == before_focus.mons@[om]);
                    }
                    if m as int != fm {
                        assert(self.mons@[m as int] == before_focus.mons@[m as int]);
                    }
                },
                None => {
                    if om != before_focus.selmon as int {
                        assert(self.mons@[om] == before_focus.mons@[om]);
                    }
                    if m as int != before_focus.selmon as int {
                        assert(self.mons@[m as int] == before_focus.mons@[m as int]);
                    }
                },
            }
            let sm = old_state.selmon as int;
            assert forall|k: int| 0 <= k < old_state.mons@.len() implies #[trigger] self.mons@[k].tagset == old_state.mons@[k].tagset
                && self.mons@[k].seltags == old_state.mons@[k].seltags by {
                assert(before_focus.mons@[k].tagset == old_state.mons@[k].tagset);
                if k != sm {
                    assert(self.mons@[k] == before_focus.mons@[k]);
                } else {
                    if let Some(x) = r.focused {
                        assert(before_focus.mons@[sm].clients@.contains(x));
                        assert(before_focus.clients@[x as int].mon as int == sm);
                        assert(same_settings(self.mons@[sm], before_focus.mons@[sm]));
                    } else {
                        assert(same_settings(self.mons@[sm], before_focus.mons@[sm]));
                    }
                }
            }
            assert forall|k: int| 0 <= k < old_state.mons@.len() && k != sm implies #[trigger] self.mons@[k].stack@
                == old_state.moved_stack(c, m, k) by {
                assert(self.mons@[k] == before_focus.mons@[k]);
                if k != om && k != m as int {
                    assert(before_focus.mons@[k] == old_state.mons@[k]);
                }
            }
            assert forall|k: int| 0 <= k < old_state.mons@.len() && k != sm implies #[trigger] self.mons@[k].sel
                == old_state.moved_sel(c, k) by {
                assert(self.mons@[k] == before_focus.mons@[k]);
            }
            assert(before_focus.mons@[sm].sel == old_state.moved_sel(c, sm));
        }
        Some(r)
    }
}


impl Wm {
    /// After client `c` moved from `old` to monitor `m` (giving `self`), the
    /// selected monitor's focus stack is `moved_stack`, and its first shown
    /// client is `sendmon_focus`.
    proof fn lemma_sendmon_target(self, old: Wm, c: usize, m: usize)
        requires
            old.wf(),
            self.wf(),
            c < old.clients@.len(),
            old.attached(c),
            m < old.mons@.len(),
            old.clients@[c as int].mon != m,
            self.selmon == old.selmon,
            self.clients@.len() == old.clients@.len(),
            self.mons@.len() == old.mons@.len(),
            self.clients@[c as int].mon == m,
            self.clients@[c as int].tags == current(old.mons@[m as int].tag_state()),
            self.mons@[old.clients@[c as int].mon as int].stack@ == without(old.mons@[old.clients@[c as int].mon as int].stack@, c),
            self.mons@[m as int].stack@ == old.mons@[m as int].stack@.insert(0, c),
            forall|k: int| 0 <= k < old.mons@.len() && k != old.clients@[c as int].mon && k != m ==> #[trigger] self.mons@[k] == old.mons@[k],
            forall|x: int| 0 <= x < old.clients@.len() && x != c ==> #[trigger] self.clients@[x] == old.clients@[x],
            forall|k: int| 0 <= k < old.mons@.len() ==> #[trigger] self.mons@[k].tagset == old.mons@[k].tagset
                && self.mons@[k].seltags == old.mons@[k].seltags,
        ensures
            self.mons@[self.selmon as int].stack@ == old.moved_stack(c, m, old.selmon as int),
            self.first_visible(self.mons@[self.selmon as int].stack@) == old.sendmon_focus(c, m),
    {
        let sm = old.selmon as int;
        let om = old.clients@[c as int].mon as int;
        assert(old.mon_ok(sm));
        assert(old.mon_ok(om));
        assert(old.mon_ok(m as int));
        let st = self.mons@[sm].stack@;
        if sm == m as int {
            let t = current(old.mons@[m as int].tag_state());
            assert(tagsets_ok(old.mons@[m as int].tag_state()));
            assert(self.mons@[m as int].cur_tags() == t);
            assert(t != 0 ==> t & t != 0) by (bit_vector);
            assert(self.visible(c));
            assert(st[0] == c);
        } else {
            let os = old.mons@[sm].stack@;
            if sm != om {
                assert(!os.contains(c)) by {
                    if os.contains(c) {
                        assert(old.mons@[sm].clients@.contains(c));
                    }
                }
                lemma_without_absent(os, c);
            }
            lemma_without_contents(os, c);
            assert(st == without(os, c));
            assert forall|x: usize| #[trigger] st.contains(x) implies self.visible(x) == old.visible(x) by {
                assert(os.contains(x) && x != c);
                assert(old.mons@[sm].clients@.contains(x));
                assert(self.clients@[x as int] == old.clients@[x as int]);
                let xm = old.clients@[x as int].mon as int;
                assert(old.clients@[x as int].mon < old.mons@.len());
                assert(self.mons@[xm].tagset == old.mons@[xm].tagset);
            }
            self.lemma_first_visible_same(old, st);
        }
    }
}


/// Client `c` moved and resized to `(x, y, w, h)`, remembering its previous geometry.
pub open spec fn resized(c: Client, x: i32, y: i32, w: i32, h: i32) -> Client {
    Client { oldx: c.x, x, oldy: c.y, y, oldw: c.w, w, oldh: c.h, h, ..c }
}

/// Client `c` made fullscreen on a monitor with area `(mx, my, mw, mh)`: it
/// floats without a border over the whole monitor, remembering whether it
/// floated and its border.
pub open spec fn entered_fullscreen(c: Client, mx: i32, my: i32, mw: i32, mh: i32) -> Client {
    resized(
        Client { isfullscreen: true, oldstate: c.isfloating, oldbw: c.bw, bw: 0, isfloating: true, ..c },
        mx,
        my,
        mw,
        mh,
    )
}

/// Fullscreen client `c` restored: its floating state, border and geometry
/// before it went fullscreen come back.
pub open spec fn left_fullscreen(c: Client) -> Client {
    let r = Client {
        isfullscreen: false,
        isfloating: c.oldstate,
        bw: c.oldbw,
        x: c.oldx,
        y: c.oldy,
        w: c.oldw,
        h: c.oldh,
        ..c
    };
    resized(r, r.x, r.y, r.w, r.h)
}

/// Going fullscreen and back restores the client's geometry, border and
/// floating state.
pub proof fn lemma_fullscreen_roundtrip(c: Client, mx: i32, my: i32, mw: i32, mh: i32)
    requires
        !c.isfullscreen,
    ensures
        ({
            let r = left_fullscreen(entered_fullscreen(c, mx, my, mw, mh));
            &&& r.x == c.x && r.y == c.y && r.w == c.w && r.h == c.h
            &&& r.bw == c.bw
            &&& r.isfloating == c.isfloating
            &&& !r.isfullscreen
            &&& r.tags == c.tags && r.mon == c.mon && r.win == c.win
        }),
{
}

/// What `setfullscreen` did.
#[derive(PartialEq, Eq, Structural)]
pub enum FullscreenChange {
    Entered,
    Left,
    Unchanged,
}

/// The monitor `dir` steps from `sel` among `n` monitors: the next one for a
/// positive `dir`, the previous one otherwise, wrapping around.
pub open spec fn spec_dirtomon(sel: int, n: int, dir: i32) -> int {
    if dir > 0 {
        if sel + 1 < n { sel + 1 } else { 0 }
    } else if sel == 0 {
        n - 1
    } else {
        sel - 1
    }
}

impl Wm {
    /// The monitor next to the selected one in direction `dir` (see `spec_dirtomon`).
    pub fn dirtomon(&self, dir: i32) -> (r: usize)
        requires
            self.wf(),
        ensures
            r == spec_dirtomon(self.selmon as int, self.mons@.len() as int, dir),
            r < self.mons@.len(),
    {
        let n = self.mons.len();
        if dir > 0 {
            if self.selmon + 1 < n { self.selmon + 1 } else { 0 }
        } else if self.selmon == 0 {
            n - 1
        } else {
            self.selmon - 1
        }
    }

    /// Selects the monitor next to the selected one in direction `dir` and
    /// focuses there; returns the client that lost the selection and the
    /// focus change, or `None` when there is a single monitor.
    pub fn focusmon(&mut self, dir: i32) -> (r: Option<(Option<usize>, FocusChange)>)
        requires
            old(self).wf(),
        ensures
            final(self).wf(),
            ({
                let n = old(self).mons@.len() as int;
                let t = spec_dirtomon(old(self).selmon as int, n, dir);
                if n == 1 || t == old(self).selmon {
                    r is None && *final(self) == *old(self)
                } else {
                    r matches Some((prev, f)) && prev == old(self).mons@[old(self).selmon as int].sel
                        && f.focused == old(self).first_visible(old(self).mons@[t].stack@)
                        && final(self).selmon == t
                        && Wm::focus_outcome(Wm { selmon: t as usize, ..*old(self) }, *final(self), f, None)
                }
            }),
    {
        if self.mons.len() == 1 {
            return None;
        }
        let m = self.dirtomon(dir);
        if m == self.selmon {
            return None;
        }
        proof {
            assert(self.mon_ok(self.selmon as int));
        }
        let prev = self.mons[self.selmon].sel;
        let ghost old_state = *self;
        self.selmon = m;
        proof {
            assert forall|k: int| 0 <= k < self.mons@.len() implies #[trigger] self.mon_ok(k) by {
                assert(old_state.mon_ok(k));
            }
            assert forall|x: usize| #[trigger] self.mons@[m as int].stack@.contains(x) implies self.visible(x)
                == old_state.visible(x) by {
            }
            self.lemma_first_visible_same(old_state, self.mons@[m as int].stack@);
        }
        let ghost mid = *self;
        let f = self.focus(None);
        proof {
            assert(mid == Wm { selmon: m, ..old_state });
            mid.lemma_first_visible_is_first(mid.mons@[m as int].stack@);
            assert(mid.mon_ok(m as int));
            if let Some(x) = f.focused {
                assert(mid.mons@[m as int].stack@.contains(x));
                assert(mid.mons@[m as int].clients@.contains(x));
            }
        }
        Some((prev, f))
    }

    /// Sends the selected client to the monitor next to the selected one in
    /// direction `dir` (see `sendmon`); nothing happens without a selected
    /// client or with a single monitor.
    pub fn tagmon(&mut self, dir: i32) -> (r: Option<FocusChange>)
        requires
            old(self).wf(),
        ensures
            final(self).wf(),
            (old(self).mons@[old(self).selmon as int].sel is None || old(self).mons@.len() == 1) ==> r is None && *final(self) == *old(self),
            old(self).mons@.len() > 1 ==> (old(self).mons@[old(self).selmon as int].sel matches Some(s) ==> ({
                let sm = old(self).selmon as int;
                let t = spec_dirtomon(sm, old(self).mons@.len() as int, dir);
                let cl = final(self).clients@[s as int];
                let ol = old(self).clients@[s as int];
                let mm = old(self).mons@[t];
                &&& r is Some
                &&& final(self).clients@.len() == old(self).clients@.len()
                &&& final(self).mons@.len() == old(self).mons@.len()
                &&& cl.mon == t
                &&& cl.tags == current(mm.tag_state())
                &&& final(self).mons@[t].clients@ == mm.clients@.insert(0, s)
                &&& ol.isfullscreen ==> cl.x == mm.mx && cl.y == mm.my && cl.w == mm.mw && cl.h == mm.mh
                &&& !ol.isfullscreen ==> cl.x == ol.x && cl.y == ol.y && cl.w == ol.w && cl.h == ol.h
                &&& final(self).mons@[sm].clients@ == without(old(self).mons@[sm].clients@, s)
            })),
    {
        proof {
            assert(self.mon_ok(self.selmon as int));
        }
        match self.mons[self.selmon].sel {
            None => None,
            Some(s) => {
                if self.mons.len() == 1 {
                    return None;
                }
                let m = self.dirtomon(dir);
                self.sendmon(s, m)
            },
        }
    }

    /// Replaces the settings (everything but lists, selection and tags) of monitor `m`.
    fn set_mon_settings(&mut self, m: usize, v: Monitor)
        requires
            old(self).wf(),
            m < old(self).mons@.len(),
            v.clients == old(self).mons@[m as int].clients,
            v.stack == old(self).mons@[m as int].stack,
            v.sel == old(self).mons@[m as int].sel,
            v.tagset == old(self).mons@[m as int].tagset,
            v.seltags == old(self).mons@[m as int].seltags,
            v.sellt < 2,
        ensures
            final(self).wf(),
            final(self).mons@ == old(self).mons@.update(m as int, v),
            final(self).clients == old(self).clients,
            final(self).selmon == old(self).selmon,
    {
        let ghost old_state = *self;
        self.mons.set(m, v);
        proof {
            assert(old_state.mon_ok(m as int));
            assert(self.mon_ok(m as int));
            Wm::lemma_wf_frame(old_state, *self, m as int);
        }
    }

    /// Adds `i` to the number of master clients of the selected monitor, not
    /// going below zero.
    pub fn incnmaster(&mut self, i: i32)
        requires
            old(self).wf(),
            i32::MIN <= old(self).mons@[old(self).selmon as int].nmaster + i <= i32::MAX,
        ensures
            final(self).wf(),
            ({
                let sm = old(self).selmon as int;
                let n = old(self).mons@[sm].nmaster + i;
                &&& final(self).mons@[sm].nmaster == if n > 0 { n } else { 0 }
                &&& final(self).mons@[sm] == Monitor { nmaster: final(self).mons@[sm].nmaster, ..old(self).mons@[sm] }
                &&& other_mons_same(*old(self), *final(self), sm)
            }),
            final(self).clients == old(self).clients,
            final(self).selmon == old(self).selmon,
    {
        let sm = self.selmon;
        proof {
            assert(self.mon_ok(sm as int));
        }
        let n = self.mons[sm].nmaster + i;
        let n = if n > 0 { n } else { 0 };
        self.mons[sm].nmaster = n;
        let ghost v = self.mons@[sm as int];
        proof {
            assert(self.mons@[sm as int].tag_state() == old(self).mons@[sm as int].tag_state());
            assert(self.mon_ok(sm as int));
            Wm::lemma_wf_frame(*old(self), *self, sm as int);
        }
    }

    /// Sets the gaps of the selected monitor, negative values counting as zero.
    pub fn setgaps(&mut self, oh: i32, ov: i32, ih: i32, iv: i32)
        requires
            old(self).wf(),
        ensures
            final(self).wf(),
            ({
                let sm = old(self).selmon as int;
                let m = final(self).mons@[sm];
                &&& m.gappoh == if oh > 0 { oh } else { 0 }
                &&& m.gappov == if ov > 0 { ov } else { 0 }
                &&& m.gappih == if ih > 0 { ih } else { 0 }
                &&& m.gappiv == if iv > 0 { iv } else { 0 }
                &&& m == Monitor { gappoh: m.gappoh, gappov: m.gappov, gappih: m.gappih, gappiv: m.gappiv, ..old(self).mons@[sm] }
                &&& other_mons_same(*old(self), *final(self), sm)
            }),
            final(self).clients == old(self).clients,
            final(self).selmon == old(self).selmon,
    {
        let sm = self.selmon;
        proof {
            assert(self.mon_ok(sm as int));
        }
        self.mons[sm].gappoh = if oh > 0 { oh } else { 0 };
        self.mons[sm].gappov = if ov > 0 { ov } else { 0 };
        self.mons[sm].gappih = if ih > 0 { ih } else { 0 };
        self.mons[sm].gappiv = if iv > 0 { iv } else { 0 };
        proof {
            assert(self.mons@[sm as int].tag_state() == old(self).mons@[sm as int].tag_state());
            assert(self.mon_ok(sm as int));
            Wm::lemma_wf_frame(*old(self), *self, sm as int);
        }
    }

    /// Selects a layout on the selected monitor: switches to the other of its
    /// two layouts unless `layout` is the one in use, then puts `layout` (if
    /// given) in that place. Returns whether the monitor has a selected
    /// client (the caller then arranges, otherwise just redraws the bar).
    pub fn setlayout(&mut self, layout: Option<usize>) -> (has_sel: bool)
        requires
            old(self).wf(),
        ensures
            final(self).wf(),
            ({
                let sm = old(self).selmon as int;
                let om = old(self).mons@[sm];
                let m = final(self).mons@[sm];
                let toggle = match layout {
                    None => true,
                    Some(l) => l != om.lt[om.sellt as int],
                };
                &&& m.sellt == if toggle { (1 - om.sellt) as usize } else { om.sellt }
                &&& m.lt[m.sellt as int] == match layout { Some(l) => l, None => om.lt[m.sellt as int] }
                &&& m.lt[1 - m.sellt] == om.lt[1 - m.sellt]
                &&& m == Monitor { sellt: m.sellt, lt: m.lt, ..om }
                &&& other_mons_same(*old(self), *final(self), sm)
                &&& has_sel == om.sel is Some
            }),
            final(self).clients == old(self).clients,
            final(self).selmon == old(self).selmon,
    {
        let sm = self.selmon;
        proof {
            assert(self.mon_ok(sm as int));
        }
        let st = self.mons[sm].sellt;
        let toggle = match layout {
            None => true,
            Some(l) => l != self.mons[sm].lt[st],
        };
        let ns: usize = if toggle { 1 - st } else { st };
        self.mons[sm].sellt = ns;
        if let Some(l) = layout {
            self.mons[sm].lt[ns] = l;
        }
        proof {
            assert(self.mons@[sm as int].tag_state() == old(self).mons@[sm as int].tag_state());
            assert(self.mon_ok(sm as int));
            Wm::lemma_wf_frame(*old(self), *self, sm as int);
        }
        self.mons[sm].sel.is_some()
    }
}


/// Monitor `m` with its bar placed for bar height `bh`: the window area is
/// the monitor area less the bar (at the top or bottom) when the bar is
/// shown, and the whole monitor area otherwise, with the bar out of sight.
pub open spec fn bar_placed(m: Monitor, bh: i32) -> Monitor {
    if m.showbar {
        let wh = m.mh - bh;
        if m.topbar {
            Monitor { wy: (m.my + bh) as i32, wh: wh as i32, by: m.my, ..m }
        } else {
            Monitor { wy: m.my, wh: wh as i32, by: (m.my + wh) as i32, ..m }
        }
    } else {
        Monitor { wy: m.my, wh: m.mh, by: (-bh) as i32, ..m }
    }
}

/// Whether placing the bar of `m` computes within `i32`.
pub open spec fn bar_fits(m: Monitor, bh: i32) -> bool {
    &&& i32::MIN <= m.mh - bh <= i32::MAX
    &&& i32::MIN <= m.my + bh <= i32::MAX
    &&& i32::MIN <= m.my + m.mh - bh <= i32::MAX
    &&& bh > i32::MIN
}

impl Wm {
    /// Places the bar of monitor `m` (see `bar_placed`).
    pub fn updatebarpos(&mut self, m: usize, bh: i32)
        requires
            old(self).wf(),
            m < old(self).mons@.len(),
            bar_fits(old(self).mons@[m as int], bh),
        ensures
            final(self).wf(),
            final(self).mons@ == old(self).mons@.update(m as int, bar_placed(old(self).mons@[m as int], bh)),
            final(self).clients == old(self).clients,
            final(self).selmon == old(self).selmon,
    {
        proof {
            assert(self.mon_ok(m as int));
        }
        let mon = &self.mons[m];
        let mut wy = mon.my;
        let mut wh = mon.mh;
        let by;
        if mon.showbar {
            wh = wh - bh;
            by = if mon.topbar { wy } else { wy + wh };
            wy = if mon.topbar { wy + bh } else { wy };
        } else {
            by = -bh;
        }
        self.mons[m].wy = wy;
        self.mons[m].wh = wh;
        self.mons[m].by = by;
        proof {
            assert(self.mons@[m as int] == bar_placed(old(self).mons@[m as int], bh));
            assert(self.mons@[m as int].tag_state() == old(self).mons@[m as int].tag_state());
            assert(self.mon_ok(m as int));
            Wm::lemma_wf_frame(*old(self), *self, m as int);
        }
    }

    /// Shows or hides the bar of the selected monitor and places it again.
    pub fn togglebar(&mut self, bh: i32)
        requires
            old(self).wf(),
            bar_fits(old(self).mons@[old(self).selmon as int], bh),
        ensures
            final(self).wf(),
            ({
                let sm = old(self).selmon as int;
                let om = old(self).mons@[sm];
                final(self).mons@ == old(self).mons@.update(sm, bar_placed(Monitor { showbar: !om.showbar, ..om }, bh))
            }),
            final(self).clients == old(self).clients,
            final(self).selmon == old(self).selmon,
    {
        let sm = self.selmon;
        proof {
            assert(self.mon_ok(sm as int));
        }
        self.mons[sm].showbar = !self.mons[sm].showbar;
        proof {
            assert(self.mons@[sm as int].tag_state() == old(self).mons@[sm as int].tag_state());
            assert(self.mon_ok(sm as int));
            Wm::lemma_wf_frame(*old(self), *self, sm as int);
        }
        self.updatebarpos(sm, bh);
    }

    /// Adapts the first monitor to a screen of `sw` by `sh` pixels; returns
    /// whether its size changed. When it did, the first monitor becomes the
    /// selected one and its bar is placed again.
    pub fn updategeom(&mut self, sw: i32, sh: i32, bh: i32) -> (dirty: bool)
        requires
            old(self).wf(),
            bar_fits(Monitor { mw: sw, mh: sh, ..old(self).mons@[0] }, bh),
        ensures
            final(self).wf(),
            ({
                let om = old(self).mons@[0];
                &&& dirty == (om.mw != sw || om.mh != sh)
                &&& dirty ==> final(self).mons@ == old(self).mons@.update(0, bar_placed(Monitor { ww: sw, mw: sw, wh: sh, mh: sh, ..om }, bh))
                    && final(self).selmon == 0
                &&& !dirty ==> *final(self) == *old(self)
            }),
            final(self).clients == old(self).clients,
    {
        proof {
            assert(self.mon_ok(0));
        }
        if self.mons[0].mw != sw || self.mons[0].mh != sh {
            self.mons[0].ww = sw;
            self.mons[0].mw = sw;
            self.mons[0].wh = sh;
            self.mons[0].mh = sh;
            proof {
                assert(self.mons@[0].tag_state() == old(self).mons@[0].tag_state());
                assert(self.mon_ok(0));
                Wm::lemma_wf_frame(*old(self), *self, 0);
            }
            self.updatebarpos(0, bh);
            let ghost before = *self;
            self.selmon = 0;
            proof {
                assert forall|k: int| 0 <= k < self.mons@.len() implies #[trigger] self.mon_ok(k) by {
                    assert(before.mon_ok(k));
                }
            }
            true
        } else {
            false
        }
    }

    /// Makes client `c` fullscreen on its monitor or restores it (see
    /// `entered_fullscreen` and `left_fullscreen`); nothing changes when it is
    /// already in the asked state.
    pub fn setfullscreen(&mut self, c: usize, fullscreen: bool) -> (r: FullscreenChange)
        requires
            old(self).wf(),
            c < old(self).clients@.len(),
        ensures
            final(self).wf(),
            ({
                let cl = old(self).clients@[c as int];
                let m = old(self).mons@[cl.mon as int];
                if fullscreen && !cl.isfullscreen {
                    r == FullscreenChange::Entered && final(self).clients@ == old(self).clients@.update(
                        c as int,
                        entered_fullscreen(cl, m.mx, m.my, m.mw, m.mh),
                    )
                } else if !fullscreen && cl.isfullscreen {
                    r == FullscreenChange::Left && final(self).clients@ == old(self).clients@.update(
                        c as int,
                        left_fullscreen(cl),
                    )
                } else {
                    r == FullscreenChange::Unchanged && final(self).clients == old(self).clients
                }
            }),
            final(self).mons == old(self).mons,
            final(self).selmon == old(self).selmon,
    {
        let cl = &self.clients[c];
        if fullscreen && !cl.isfullscreen {
            let mon = &self.mons[cl.mon];
            let v = Client {
                isfullscreen: true,
                oldstate: cl.isfloating,
                oldbw: cl.bw,
                bw: 0,
                isfloating: true,
                oldx: cl.x,
                x: mon.mx,
                oldy: cl.y,
                y: mon.my,
                oldw: cl.w,
                w: mon.mw,
                oldh: cl.h,
                h: mon.mh,
                win: cl.win,
                tags: cl.tags,
                hints: cl.hints,
                hintsvalid: cl.hintsvalid,
                isfixed: cl.isfixed,
                isurgent: cl.isurgent,
                neverfocus: cl.neverfocus,
                isterminal: cl.isterminal,
                noswallow: cl.noswallow,
                issticky: cl.issticky,
                pid: cl.pid,
                mon: cl.mon,
                swallowing: cl.swallowing,
                alive: cl.alive,
            };
            self.update_client(c, v);
            FullscreenChange::Entered
        } else if !fullscreen && cl.isfullscreen {
            let v = Client {
                isfullscreen: false,
                isfloating: cl.oldstate,
                bw: cl.oldbw,
                oldx: cl.oldx,
                x: cl.oldx,
                oldy: cl.oldy,
                y: cl.oldy,
                oldw: cl.oldw,
                w: cl.oldw,
                oldh: cl.oldh,
                h: cl.oldh,
                oldstate: cl.oldstate,
                oldbw: cl.oldbw,
                win: cl.win,
                tags: cl.tags,
                hints: cl.hints,
                hintsvalid: cl.hintsvalid,
                isfixed: cl.isfixed,
                isurgent: cl.isurgent,
                neverfocus: cl.neverfocus,
                isterminal: cl.isterminal,
                noswallow: cl.noswallow,
                issticky: cl.issticky,
                pid: cl.pid,
                mon: cl.mon,
                swallowing: cl.swallowing,
                alive: cl.alive,
            };
            self.update_client(c, v);
            FullscreenChange::Left
        } else {
            FullscreenChange::Unchanged
        }
    }

    /// Makes client `c` sticky (shown on every tag) or not; returns whether it changed.
    pub fn setsticky(&mut self, c: usize, sticky: bool) -> (changed: bool)
        requires
            old(self).wf(),
            c < old(self).clients@.len(),
        ensures
            final(self).wf(),
            changed == (sticky != old(self).clients@[c as int].issticky),
            final(self).clients@ == old(self).clients@.update(c as int, Client { issticky: sticky, ..old(self).clients@[c as int] }),
            final(self).mons == old(self).mons,
            final(self).selmon == old(self).selmon,
    {
        if self.clients[c].issticky == sticky {
            proof {
                assert(self.clients@.update(c as int, Client { issticky: sticky, ..self.clients@[c as int] }) =~= self.clients@);
            }
            return false;
        }
        let ghost old_state = *self;
        self.clients[c].issticky = sticky;
        proof {
            assert(old_state.mon_ok(self.selmon as int));
            Wm::lemma_wf_frame(old_state, *self, self.selmon as int);
        }
        true
    }

    /// Marks client `c` urgent or not.
    pub fn seturgent(&mut self, c: usize, urgent: bool)
        requires
            old(self).wf(),
            c < old(self).clients@.len(),
        ensures
            final(self).wf(),
            final(self).clients@ == old(self).clients@.update(c as int, Client { isurgent: urgent, ..old(self).clients@[c as int] }),
            final(self).mons == old(self).mons,
            final(self).selmon == old(self).selmon,
    {
        let ghost old_state = *self;
        self.clients[c].isurgent = urgent;
        proof {
            assert(old_state.mon_ok(self.selmon as int));
            Wm::lemma_wf_frame(old_state, *self, self.selmon as int);
        }
    }

    /// Moves and resizes client `c`, remembering its previous geometry (see `resized`).
    pub fn resizeclient(&mut self, c: usize, x: i32, y: i32, w: i32, h: i32)
        requires
            old(self).wf(),
            c < old(self).clients@.len(),
        ensures
            final(self).wf(),
            final(self).clients@ == old(self).clients@.update(c as int, resized(old(self).clients@[c as int], x, y, w, h)),
            final(self).mons == old(self).mons,
            final(self).selmon == old(self).selmon,
    {
        let ghost old_state = *self;
        let ox = self.clients[c].x;
        let oy = self.clients[c].y;
        let ow = self.clients[c].w;
        let oh = self.clients[c].h;
        self.clients[c].oldx = ox;
        self.clients[c].x = x;
        self.clients[c].oldy = oy;
        self.clients[c].y = y;
        self.clients[c].oldw = ow;
        self.clients[c].w = w;
        self.clients[c].oldh = oh;
        self.clients[c].h = h;
        proof {
            assert(self.clients@[c as int] == resized(old_state.clients@[c as int], x, y, w, h));
            assert(self.clients@ =~= old_state.clients@.update(c as int, resized(old_state.clients@[c as int], x, y, w, h)));
            assert(old_state.mon_ok(self.selmon as int));
            Wm::lemma_wf_frame(old_state, *self, self.selmon as int);
        }
    }

    /// Toggles floating for the selected client (a fixed-size client always
    /// floats); nothing happens without a selected client or when it is
    /// fullscreen. Returns the client and whether it floats now.
    pub fn togglefloating(&mut self) -> (r: Option<(usize, bool)>)
        requires
            old(self).wf(),
        ensures
            final(self).wf(),
            match old(self).mons@[old(self).selmon as int].sel {
                Some(s) if !old(self).clients@[s as int].isfullscreen => {
                    let cl = old(self).clients@[s as int];
                    let f = !cl.isfloating || cl.isfixed;
                    &&& r == Some((s, f))
                    &&& final(self).clients@ == old(self).clients@.update(s as int, Client { isfloating: f, ..cl })
                },
                _ => r is None && final(self).clients == old(self).clients,
            },
            final(self).mons == old(self).mons,
            final(self).selmon == old(self).selmon,
    {
        proof {
            assert(self.mon_ok(self.selmon as int));
        }
        let s = match self.mons[self.selmon].sel {
            None => { return None; },
            Some(s) => s,
        };
        if self.clients[s].isfullscreen {
            return None;
        }
        let f = !self.clients[s].isfloating || self.clients[s].isfixed;
        let ghost old_state = *self;
        self.clients[s].isfloating = f;
        proof {
            assert(old_state.mon_ok(self.selmon as int));
            Wm::lemma_wf_frame(old_state, *self, self.selmon as int);
        }
        Some((s, f))
    }

    /// Records the size hints of client `c`; it counts as fixed-size when its
    /// maximum size is given and equals its minimum size.
    pub fn set_size_hints(&mut self, c: usize, hints: SizeHints)
        requires
            old(self).wf(),
            c < old(self).clients@.len(),
        ensures
            final(self).wf(),
            final(self).clients@ == old(self).clients@.update(c as int, Client {
                hints,
                isfixed: hints.maxw != 0 && hints.maxh != 0 && hints.maxw == hints.minw && hints.maxh == hints.minh,
                hintsvalid: true,
                ..old(self).clients@[c as int]
            }),
            final(self).mons == old(self).mons,
            final(self).selmon == old(self).selmon,
    {
        let ghost old_state = *self;
        self.clients[c].hints = hints;
        self.clients[c].isfixed = hints.maxw != 0 && hints.maxh != 0 && hints.maxw == hints.minw && hints.maxh == hints.minh;
        self.clients[c].hintsvalid = true;
        proof {
            assert(self.clients@ =~= old_state.clients@.update(c as int, Client {
                hints,
                isfixed: hints.maxw != 0 && hints.maxh != 0 && hints.maxw == hints.minw && hints.maxh == hints.minh,
                hintsvalid: true,
                ..old_state.clients@[c as int]
            }));
            assert(old_state.mon_ok(self.selmon as int));
            Wm::lemma_wf_frame(old_state, *self, self.selmon as int);
        }
    }

    /// Records the WM hints of client `c`: when it is the selected client and
    /// asks for attention, the caller clears the request (returns `true`);
    /// otherwise its urgency follows the request. It never takes focus when
    /// it says so through the input hint.
    #[verifier::spinoff_prover]
    #[verifier::rlimit(30)]
    pub fn updatewmhints(&mut self, c: usize, urgent: bool, has_input_hint: bool, input: bool) -> (clear: bool)
        requires
            old(self).wf(),
            c < old(self).clients@.len(),
        ensures
            final(self).wf(),
            ({
                let is_sel = old(self).mons@[old(self).selmon as int].sel == Some(c);
                let cl = old(self).clients@[c as int];
                &&& clear == (is_sel && urgent)
                &&& final(self).clients@ == old(self).clients@.update(c as int, Client {
                    isurgent: if clear { cl.isurgent } else { urgent },
                    neverfocus: has_input_hint && !input,
                    ..cl
                })
            }),
            final(self).mons == old(self).mons,
            final(self).selmon == old(self).selmon,
    {
        let ghost old_state = *self;
        proof {
            assert(self.mon_ok(self.selmon as int));
        }
        let is_sel = self.mons[self.selmon].sel == Some(c);
        let clear = is_sel && urgent;
        if !clear {
            self.clients[c].isurgent = urgent;
        }
        self.clients[c].neverfocus = has_input_hint && !input;
        proof {
            assert(self.clients@ =~= old_state.clients@.update(c as int, Client {
                isurgent: if clear { old_state.clients@[c as int].isurgent } else { urgent },
                neverfocus: has_input_hint && !input,
                ..old_state.clients@[c as int]
            }));
            assert(old_state.mon_ok(self.selmon as int));
            Wm::lemma_wf_frame(old_state, *self, self.selmon as int);
        }
        clear
    }
}

} // verus!
