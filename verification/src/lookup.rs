//! Finding managed clients: by window, by the window they stand in for,
//! and the terminal that a new window's process descends from.
use vstd::prelude::*;
use crate::wm::{Wm, Client};

verus! {

/// What is looked for among the listed clients.
pub enum ClientQuery {
    /// The client showing this window.
    Win(u64),
    /// The terminal that swallowed the client with this window.
    Swallower(u64),
    /// A terminal, not swallowing anything, with a known process that is
    /// one of these (the process chain of a new window, from the window's
    /// own process up to the first process without a parent).
    Terminal(Vec<i32>),
}

/// The first element of `s` for which `p` holds.
pub open spec fn first_where(s: Seq<usize>, p: spec_fn(usize) -> bool) -> Option<usize>
    decreases s.len(),
{
    if s.len() == 0 {
        None
    } else if p(s[0]) {
        Some(s[0])
    } else {
        first_where(s.drop_first(), p)
    }
}

/// Searching a concatenation: the first hit in `a`, or else the first in `b`.
pub proof fn lemma_first_where_append(a: Seq<usize>, b: Seq<usize>, p: spec_fn(usize) -> bool)
    ensures
        first_where(a + b, p) == match first_where(a, p) {
            Some(x) => Some(x),
            None => first_where(b, p),
        },
    decreases a.len(),
{
    if a.len() == 0 {
        assert(a + b =~= b);
    } else {
        assert((a + b)[0] == a[0]);
        assert((a + b).drop_first() =~= a.drop_first() + b);
        lemma_first_where_append(a.drop_first(), b, p);
    }
}

/// A hit is an element of the sequence that satisfies the predicate.
pub proof fn lemma_first_where_found(s: Seq<usize>, p: spec_fn(usize) -> bool)
    ensures
        first_where(s, p) matches Some(x) ==> s.contains(x) && p(x),
        first_where(s, p) is None ==> forall|i: int| 0 <= i < s.len() ==> !p(#[trigger] s[i]),
    decreases s.len(),
{
    if s.len() > 0 {
        lemma_first_where_found(s.drop_first(), p);
        if first_where(s, p) is None {
            assert forall|i: int| 0 <= i < s.len() implies !p(#[trigger] s[i]) by {
                if i > 0 {
                    assert(s[i] == s.drop_first()[i - 1]);
                }
            }
        }
        if let Some(x) = first_where(s.drop_first(), p) {
            if !p(s[0]) {
                let j = choose|j: int| 0 <= j < s.drop_first().len() && s.drop_first()[j] == x;
                assert(s[j + 1] == x);
            }
        }
    }
}

impl ClientQuery {
    /// Whether client `x` of `w` is what the query looks for.
    pub open spec fn holds(self, w: Wm, x: usize) -> bool {
        let cl = w.clients@[x as int];
        match self {
            ClientQuery::Win(win) => cl.win == win,
            ClientQuery::Swallower(win) => match cl.swallowing {
                Some(s) => s < w.clients@.len() && w.clients@[s as int].win == win,
                None => false,
            },
            ClientQuery::Terminal(chain) => cl.isterminal && cl.swallowing is None && cl.pid != 0
                && chain@.contains(cl.pid),
        }
    }
}

impl Wm {
    /// The clients of the first `k` monitors, monitor by monitor, each in tiling order.
    pub open spec fn listed_upto(self, k: int) -> Seq<usize>
        decreases k,
    {
        if k <= 0 {
            Seq::empty()
        } else {
            self.listed_upto(k - 1) + self.mons@[k - 1].clients@
        }
    }

    /// All listed clients, monitor by monitor, each in tiling order.
    pub open spec fn listed(self) -> Seq<usize> {
        self.listed_upto(self.mons@.len() as int)
    }

    /// The first listed client that the query finds.
    pub open spec fn query_result(self, q: ClientQuery) -> Option<usize> {
        first_where(self.listed(), |x: usize| q.holds(self, x))
    }

    /// The clients of more monitors extend those of fewer.
    proof fn lemma_listed_extends(self, k1: int, k2: int) -> (rest: Seq<usize>)
        requires
            0 <= k1 <= k2,
        ensures
            self.listed_upto(k2) == self.listed_upto(k1) + rest,
        decreases k2 - k1,
    {
        if k1 == k2 {
            assert(self.listed_upto(k2) =~= self.listed_upto(k1) + Seq::<usize>::empty());
            Seq::empty()
        } else {
            let rest = self.lemma_listed_extends(k1, k2 - 1);
            assert(self.listed_upto(k2) =~= self.listed_upto(k1) + (rest + self.mons@[k2 - 1].clients@));
            rest + self.mons@[k2 - 1].clients@
        }
    }

    /// Whether client `x` answers query `q`; see `ClientQuery::holds`.
    fn query_holds(&self, q: &ClientQuery, x: usize) -> (r: bool)
        requires
            x < self.clients@.len(),
        ensures
            r == q.holds(*self, x),
    {
        let cl = &self.clients[x];
        match q {
            ClientQuery::Win(win) => cl.win == *win,
            ClientQuery::Swallower(win) => match cl.swallowing {
                Some(s) => s < self.clients.len() && self.clients[s].win == *win,
                None => false,
            },
            ClientQuery::Terminal(chain) => {
                if cl.isterminal && cl.swallowing.is_none() && cl.pid != 0 {
                    let mut k: usize = 0;
                    let mut found = false;
                    while k < chain.len()
                        invariant
                            k <= chain@.len(),
                            found == chain@.subrange(0, k as int).contains(cl.pid),
                        decreases chain@.len() - k,
                    {
                        let ghost sub = chain@.subrange(0, k as int);
                        let ghost sub2 = chain@.subrange(0, k + 1);
                        proof {
                            assert(sub2 =~= sub.push(chain@[k as int]));
                            if sub.contains(cl.pid) {
                                let j = choose|j: int| 0 <= j < sub.len() && sub[j] == cl.pid;
                                assert(sub2[j] == cl.pid);
                            }
                        }
                        if chain[k] == cl.pid {
                            found = true;
                            proof {
                                assert(sub2[k as int] == cl.pid);
                            }
                        } else {
                            proof {
                                if sub2.contains(cl.pid) {
                                    let j = choose|j: int| 0 <= j < sub2.len() && sub2[j] == cl.pid;
                                    assert(j < k);
                                    assert(sub[j] == cl.pid);
                                }
                            }
                        }
                        k = k + 1;
                    }
                    proof {
                        assert(chain@.subrange(0, k as int) =~= chain@);
                    }
                    found
                } else {
                    false
                }
            },
        }
    }

    /// The first listed client, monitor by monitor and each in tiling order,
    /// that the query finds.
    pub fn find_client(&self, q: &ClientQuery) -> (r: Option<usize>)
        requires
            self.wf(),
        ensures
            r == self.query_result(*q),
            r matches Some(x) ==> self.listed().contains(x) && x < self.clients@.len() && q.holds(*self, x),
    {
        let ghost p = |x: usize| q.holds(*self, x);
        let mut m: usize = 0;
        while m < self.mons.len()
            invariant
                self.wf(),
                m <= self.mons@.len(),
                p == (|x: usize| q.holds(*self, x)),
                first_where(self.listed_upto(m as int), p) is None,
            decreases self.mons@.len() - m,
        {
            let ghost before = self.listed_upto(m as int);
            proof {
                assert(self.mon_ok(m as int));
            }
            let mut i: usize = 0;
            while i < self.mons[m].clients.len()
                invariant
                    self.wf(),
                    m < self.mons@.len(),
                    i <= self.mons@[m as int].clients@.len(),
                    p == (|x: usize| q.holds(*self, x)),
                    before == self.listed_upto(m as int),
                    first_where(before + self.mons@[m as int].clients@.take(i as int), p) is None,
                decreases self.mons@[m as int].clients@.len() - i,
            {
                let x = self.mons[m].clients[i];
                proof {
                    assert(self.mon_ok(m as int));
                    assert(self.mons@[m as int].clients@.contains(x));
                }
                let ghost cur = self.mons@[m as int].clients@;
                proof {
                    lemma_first_where_append(before + cur.take(i as int), seq![x], p);
                    assert(before + cur.take(i + 1) =~= (before + cur.take(i as int)) + seq![x]);
                }
                if self.query_holds(q, x) {
                    proof {
                        assert(first_where(seq![x], p) == Some(x)) by {
                            reveal_with_fuel(first_where, 2);
                        }
                        let prefix = before + cur.take(i as int);
                        let rest = self.lemma_listed_extends(m + 1, self.mons@.len() as int);
                        assert(self.listed_upto(m + 1) == before + cur);
                        assert(cur =~= cur.take(i as int) + (seq![x] + cur.skip(i + 1)));
                        assert(self.listed() =~= prefix + (seq![x] + (cur.skip(i + 1) + rest)));
                        lemma_first_where_append(prefix, seq![x] + (cur.skip(i + 1) + rest), p);
                        lemma_first_where_append(seq![x], cur.skip(i + 1) + rest, p);
                        lemma_first_where_found(self.listed(), p);
                    }
                    return Some(x);
                }
                proof {
                    assert(first_where(seq![x], p) is None) by {
                        reveal_with_fuel(first_where, 2);
                    }
                }
                i = i + 1;
            }
            proof {
                assert(self.mons@[m as int].clients@.take(i as int) =~= self.mons@[m as int].clients@);
                assert(self.listed_upto(m + 1) == before + self.mons@[m as int].clients@);
            }
            m = m + 1;
        }
        None
    }

    /// The client showing window `w`, if it is managed.
    pub fn wintoclient(&self, w: u64) -> (r: Option<usize>)
        requires
            self.wf(),
        ensures
            r == self.query_result(ClientQuery::Win(w)),
            r matches Some(x) ==> x < self.clients@.len() && self.clients@[x as int].win == w
                && self.listed().contains(x),
    {
        self.find_client(&ClientQuery::Win(w))
    }

    /// The terminal that swallowed the client with window `w`, if any.
    pub fn swallowingclient(&self, w: u64) -> (r: Option<usize>)
        requires
            self.wf(),
        ensures
            r == self.query_result(ClientQuery::Swallower(w)),
            r matches Some(x) ==> x < self.clients@.len() && ClientQuery::Swallower(w).holds(*self, x),
    {
        self.find_client(&ClientQuery::Swallower(w))
    }

    /// The terminal a new window should replace: none for a window without a
    /// known process or that is itself a terminal; otherwise the first listed
    /// terminal, not swallowing anything, whose process is in the new
    /// window's process chain `chain`.
    pub fn termforwin(&self, pid: i32, isterminal: bool, chain: Vec<i32>) -> (r: Option<usize>)
        requires
            self.wf(),
        ensures
            r == if pid == 0 || isterminal { None } else { self.query_result(ClientQuery::Terminal(chain)) },
    {
        if pid == 0 || isterminal {
            return None;
        }
        self.find_client(&ClientQuery::Terminal(chain))
    }
}

} // verus!
