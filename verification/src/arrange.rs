//! Showing and hiding the clients of a monitor and stacking them: which
//! windows are moved on or off the screen, in what order, and which are
//! raised or stacked below the bar.
use vstd::prelude::*;
use crate::wm::{Wm, Client};
use crate::tags::SPTAGMASK;
use crate::config::{arranges, FLOATING_LAYOUT};
use crate::geom::{tdiv, div_t};
use crate::rules::mons_small;
use crate::manage::x_coord;

verus! {

/// One step of showing or hiding the clients of a monitor.
#[derive(Clone, Copy, PartialEq, Eq, Structural, Debug)]
pub enum ShowHide {
    /// Move the client's window to its place; `resize` tells whether its
    /// geometry is to be applied again (it floats, or nothing is arranged,
    /// and it is not fullscreen).
    Show { c: usize, resize: bool },
    /// Move the client's window off the screen.
    Hide(usize),
}

impl Wm {
    /// Whether shown client `c` has its geometry applied again when shown.
    pub open spec fn reapplied(self, c: usize) -> bool {
        let cl = self.clients@[c as int];
        let m = self.mons@[cl.mon as int];
        (!arranges(m.lt[m.sellt as int]) || cl.isfloating) && !cl.isfullscreen
    }

    /// The steps for the clients of `s` (a focus stack): shown clients from
    /// the top down, hidden clients from the bottom up, all shown ones first.
    pub open spec fn show_plan(self, s: Seq<usize>) -> Seq<ShowHide>
        decreases s.len(),
    {
        if s.len() == 0 {
            Seq::empty()
        } else if self.visible(s[0]) {
            seq![ShowHide::Show { c: s[0], resize: self.reapplied(s[0]) }] + self.show_plan(s.drop_first())
        } else {
            self.show_plan(s.drop_first()).push(ShowHide::Hide(s[0]))
        }
    }

    /// Whether client `c` is a shown floating scratchpad, which is centred
    /// in its monitor's window area whenever it is shown.
    pub open spec fn centred_scratch(self, c: usize) -> bool {
        let cl = self.clients@[c as int];
        self.visible(c) && cl.tags & SPTAGMASK != 0 && cl.isfloating
    }

    /// Client `c` centred in the window area of its monitor.
    pub open spec fn centred(self, c: usize) -> Client {
        let cl = self.clients@[c as int];
        let m = self.mons@[cl.mon as int];
        Client {
            x: (m.wx + (tdiv(m.ww as int, 2) - tdiv(cl.w + 2 * cl.bw, 2))) as i32,
            y: (m.wy + (tdiv(m.wh as int, 2) - tdiv(cl.h + 2 * cl.bw, 2))) as i32,
            ..cl
        }
    }

    /// The steps for the focus stack of `m` from position `i` on; see `show_plan`.
    fn show_plan_from(&self, m: usize, i: usize) -> (r: Vec<ShowHide>)
        requires
            self.wf(),
            m < self.mons@.len(),
            i <= self.mons@[m as int].stack@.len(),
        ensures
            r@ == self.show_plan(self.mons@[m as int].stack@.skip(i as int)),
        decreases self.mons@[m as int].stack@.len() - i,
    {
        let ghost s = self.mons@[m as int].stack@;
        if i == self.mons[m].stack.len() {
            proof {
                assert(s.skip(i as int).len() == 0);
            }
            return Vec::new();
        }
        let c = self.mons[m].stack[i];
        proof {
            assert(s.skip(i as int).drop_first() =~= s.skip(i + 1));
            assert(s.skip(i as int)[0] == c);
            self.lemma_wf_stacks_valid();
            assert(s.contains(c));
            assert(self.mon_ok(m as int));
            assert(self.mons@[m as int].clients@.contains(c));
        }
        let mut rest = self.show_plan_from(m, i + 1);
        if self.is_visible(c) {
            let cl = &self.clients[c];
            let mon = &self.mons[cl.mon];
            let resize = (mon.lt[mon.sellt] == FLOATING_LAYOUT || cl.isfloating) && !cl.isfullscreen;
            rest.insert(0, ShowHide::Show { c, resize });
            proof {
                assert(rest@ =~= seq![ShowHide::Show { c, resize: self.reapplied(c) }] + self.show_plan(s.skip(i + 1)));
            }
        } else {
            rest.push(ShowHide::Hide(c));
        }
        rest
    }

    /// Shows and hides the clients of monitor `m`: each shown floating
    /// scratchpad in its focus stack is centred first (see `centred`); the
    /// steps are those of `show_plan` for the stack.
    pub fn showhide(&mut self, m: usize) -> (r: Vec<ShowHide>)
        requires
            old(self).wf(),
            m < old(self).mons@.len(),
            mons_small(old(self).mons@),
            forall|c: usize| #[trigger] old(self).mons@[m as int].stack@.contains(c) ==> {
                let cl = old(self).clients@[c as int];
                x_coord(cl.w as int) && x_coord(cl.h as int) && x_coord(cl.bw as int)
            },
        ensures
            final(self).wf(),
            final(self).mons == old(self).mons,
            final(self).selmon == old(self).selmon,
            final(self).clients@.len() == old(self).clients@.len(),
            forall|c: usize| c < old(self).clients@.len() ==> #[trigger] final(self).clients@[c as int] == if old(self).mons@[m as int].stack@.contains(c)
                && old(self).centred_scratch(c) {
                old(self).centred(c)
            } else {
                old(self).clients@[c as int]
            },
            r@ == old(self).show_plan(old(self).mons@[m as int].stack@),
    {
        let ghost old_state = *self;
        let ghost s = self.mons@[m as int].stack@;
        let mut i: usize = 0;
        proof {
            self.lemma_wf_stacks_valid();
            assert(self.mon_ok(m as int));
        }
        while i < self.mons[m].stack.len()
            invariant
                self.wf(),
                old_state.wf(),
                m < self.mons@.len(),
                self.mons == old_state.mons,
                self.selmon == old_state.selmon,
                s == old_state.mons@[m as int].stack@,
                s.no_duplicates(),
                mons_small(self.mons@),
                forall|c: usize| #[trigger] s.contains(c) ==> {
                    let cl = old_state.clients@[c as int];
                    x_coord(cl.w as int) && x_coord(cl.h as int) && x_coord(cl.bw as int)
                },
                i <= s.len(),
                self.clients@.len() == old_state.clients@.len(),
                forall|c: usize| c < old_state.clients@.len() ==> #[trigger] self.clients@[c as int] == if s.take(i as int).contains(c)
                    && old_state.centred_scratch(c) {
                    old_state.centred(c)
                } else {
                    old_state.clients@[c as int]
                },
            decreases s.len() - i,
        {
            let c = self.mons[m].stack[i];
            proof {
                assert(old_state.mon_ok(m as int));
                assert(s.contains(c));
                assert(old_state.mons@[m as int].clients@.contains(c));
                assert(!s.take(i as int).contains(c)) by {
                    if s.take(i as int).contains(c) {
                        let j = choose|j: int| 0 <= j < i && #[trigger] s.take(i as int)[j] == c;
                        assert(s[j] == s[i as int]);
                    }
                }
                assert forall|x: usize| #[trigger] s.take(i + 1).contains(x) <==> (s.take(i as int).contains(x) || x == c) by {
                    if s.take(i + 1).contains(x) {
                        let j = choose|j: int| 0 <= j < i + 1 && #[trigger] s.take(i + 1)[j] == x;
                        if j < i {
                            assert(s.take(i as int)[j] == x);
                        }
                    }
                    if s.take(i as int).contains(x) {
                        let j = choose|j: int| 0 <= j < i && #[trigger] s.take(i as int)[j] == x;
                        assert(s.take(i + 1)[j] == x);
                    }
                    if x == c {
                        assert(s.take(i + 1)[i as int] == x);
                    }
                }
                assert(self.clients@[c as int] == old_state.clients@[c as int]);
                assert(self.clients@[c as int].mon < self.mons@.len());
                assert(self.visible(c) == old_state.visible(c));
                assert(self.centred(c) == old_state.centred(c));
            }
            self.centre_if_scratch(c);
            i = i + 1;
        }
        proof {
            assert(s.take(i as int) =~= s);
        }
        let ghost mid = *self;
        let r = self.show_plan_from(m, 0);
        proof {
            assert(s.skip(0) =~= s);
            assert forall|c: usize| #[trigger] s.contains(c) implies mid.visible(c) == old_state.visible(c)
                && mid.reapplied(c) == old_state.reapplied(c) by {
                assert(old_state.mon_ok(m as int));
                assert(old_state.mons@[m as int].clients@.contains(c));
            }
            mid.lemma_show_plan_same(old_state, s);
        }
        r
    }

    /// Centres client `c` when it is a shown floating scratchpad; see `centred`.
    fn centre_if_scratch(&mut self, c: usize)
        requires
            old(self).wf(),
            c < old(self).clients@.len(),
            mons_small(old(self).mons@),
            x_coord(old(self).clients@[c as int].w as int) && x_coord(old(self).clients@[c as int].h as int),
            x_coord(old(self).clients@[c as int].bw as int),
        ensures
            final(self).wf(),
            final(self).mons == old(self).mons,
            final(self).selmon == old(self).selmon,
            final(self).clients@ == old(self).clients@.update(c as int, if old(self).centred_scratch(c) {
                old(self).centred(c)
            } else {
                old(self).clients@[c as int]
            }),
    {
        let cl = self.clients[c];
        proof {
            assert(self.clients@[c as int].mon < self.mons@.len());
            assert(self.mon_ok(cl.mon as int));
        }
        if self.is_visible(c) && cl.tags & SPTAGMASK != 0 && cl.isfloating {
            let mon = &self.mons[cl.mon];
            proof {
                assert(-0x1000_0000 <= self.mons@[cl.mon as int].wx <= 0x1000_0000);
            }
            let nx = mon.wx + (div_t(mon.ww, 2) - div_t(cl.w + 2 * cl.bw, 2));
            let ny = mon.wy + (div_t(mon.wh, 2) - div_t(cl.h + 2 * cl.bw, 2));
            let mut nc = cl;
            nc.x = nx;
            nc.y = ny;
            self.update_client(c, nc);
        } else {
            proof {
                assert(self.clients@ =~= self.clients@.update(c as int, self.clients@[c as int]));
            }
        }
    }

    /// The steps depend only on which clients are shown and how they are
    /// reapplied, which centring leaves alone.
    proof fn lemma_show_plan_same(self, other: Wm, s: Seq<usize>)
        requires
            forall|c: usize| #[trigger] s.contains(c) ==> self.visible(c) == other.visible(c)
                && self.reapplied(c) == other.reapplied(c),
        ensures
            self.show_plan(s) == other.show_plan(s),
        decreases s.len(),
    {
        if s.len() > 0 {
            assert(s.contains(s[0]));
            assert forall|c: usize| #[trigger] s.drop_first().contains(c) implies self.visible(c) == other.visible(c)
                && self.reapplied(c) == other.reapplied(c) by {
                let j = choose|j: int| 0 <= j < s.drop_first().len() && s.drop_first()[j] == c;
                assert(s[j + 1] == c);
                assert(s.contains(c));
            }
            self.lemma_show_plan_same(other, s.drop_first());
        }
    }
}

/// How the windows of a monitor are stacked.
pub struct Stacking {
    /// The client raised to the top: the selected one, when it floats or
    /// nothing is arranged.
    pub raise: Option<usize>,
    /// The tiled clients, in focus order, each stacked below the one before
    /// (the first below the bar).
    pub below: Vec<usize>,
}

impl Wm {
    /// Whether client `x` is shown and does not float.
    pub open spec fn stacked_pred(self) -> spec_fn(usize) -> bool {
        |x: usize| self.visible(x) && !self.clients@[x as int].isfloating
    }

    /// How the windows of monitor `m` are stacked: nothing without a
    /// selected client; otherwise the selected client is raised when it
    /// floats or the layout arranges nothing, and, when the layout arranges,
    /// the shown tiled clients follow the focus stack below the bar.
    pub fn restack(&self, m: usize) -> (r: Stacking)
        requires
            self.wf(),
            m < self.mons@.len(),
        ensures
            ({
                let mon = self.mons@[m as int];
                let arr = arranges(mon.lt[mon.sellt as int]);
                match mon.sel {
                    None => r.raise is None && r.below@.len() == 0,
                    Some(s) => {
                        &&& r.raise == if self.clients@[s as int].isfloating || !arr { Some(s) } else { None }
                        &&& r.below@ == if arr { mon.stack@.filter(self.stacked_pred()) } else { Seq::empty() }
                    },
                }
            }),
    {
        proof {
            assert(self.mon_ok(m as int));
            self.lemma_wf_stacks_valid();
        }
        let mon = &self.mons[m];
        let s = match mon.sel {
            None => { return Stacking { raise: None, below: Vec::new() }; },
            Some(s) => s,
        };
        let arr = mon.lt[mon.sellt] != FLOATING_LAYOUT;
        let raise = if self.clients[s].isfloating || !arr { Some(s) } else { None };
        let mut below: Vec<usize> = Vec::new();
        if arr {
            let ghost st = mon.stack@;
            let mut i: usize = 0;
            proof {
                reveal(Seq::filter);
                assert(st.take(0) =~= Seq::<usize>::empty());
            }
            while i < self.mons[m].stack.len()
                invariant
                    self.wf(),
                    self.stacks_valid(),
                    m < self.mons@.len(),
                    st == self.mons@[m as int].stack@,
                    i <= st.len(),
                    below@ == st.take(i as int).filter(self.stacked_pred()),
                decreases st.len() - i,
            {
                let x = self.mons[m].stack[i];
                proof {
                    assert(st.contains(x));
                    assert(st.take(i + 1).drop_last() =~= st.take(i as int));
                    assert(st.take(i + 1).last() == x);
                    reveal(Seq::filter);
                    assert(self.mon_ok(m as int));
                    assert(self.mons@[m as int].clients@.contains(x));
                }
                if !self.clients[x].isfloating && self.is_visible(x) {
                    below.push(x);
                }
                i = i + 1;
            }
            proof {
                assert(st.take(i as int) =~= st);
            }
        }
        Stacking { raise, below }
    }
}

} // verus!
