//! Window rules: which tags, floating state, monitor and swallowing
//! behaviour a new client gets from its class, instance and title.
use vstd::prelude::*;
use crate::tags::{TAGMASK, SPTAGMASK};
use crate::wm::Monitor;
use crate::geom::tdiv;

verus! {

/// Whether `needle` occurs as a contiguous part of `hay`.
pub open spec fn occurs_in(needle: Seq<u8>, hay: Seq<u8>) -> bool {
    exists|i: int| 0 <= i && i + needle.len() <= hay.len() && #[trigger] hay.subrange(i, i + needle.len()) == needle
}

/// Whether `needle` occurs in `hay` at position `i`.
fn matches_at(hay: &Vec<u8>, needle: &Vec<u8>, i: usize) -> (r: bool)
    requires
        i + needle@.len() <= hay@.len(),
    ensures
        r == (hay@.subrange(i as int, i + needle@.len()) == needle@),
{
    let n = needle.len();
    let len = hay.len();
    let mut t: usize = 0;
    while t < n
        invariant
            n == needle@.len(),
            len == hay@.len(),
            i + n <= hay@.len(),
            t <= n,
            forall|k: int| 0 <= k < t ==> hay@[i + k] == needle@[k],
        decreases n - t,
    {
        if hay[i + t] != needle[t] {
            assert(hay@.subrange(i as int, i + n)[t as int] == hay@[i + t]);
            return false;
        }
        t = t + 1;
    }
    assert(hay@.subrange(i as int, i + n) =~= needle@);
    true
}

/// Whether `needle` occurs in `hay` (an empty `needle` occurs everywhere).
pub fn find_sub(hay: &Vec<u8>, needle: &Vec<u8>) -> (r: bool)
    ensures
        r == occurs_in(needle@, hay@),
{
    let n = needle.len();
    if n > hay.len() {
        proof {
            assert forall|i: int| 0 <= i && i + n <= hay@.len() implies
                #[trigger] hay@.subrange(i, i + n) != needle@ by {}
        }
        return false;
    }
    let last = hay.len() - n;
    let mut i: usize = 0;
    loop
        invariant
            n == needle@.len(),
            n <= hay@.len(),
            last == hay@.len() - n,
            i <= last,
            forall|j: int| 0 <= j < i ==> #[trigger] hay@.subrange(j, j + n) != needle@,
        decreases last - i,
    {
        if matches_at(hay, needle, i) {
            return true;
        }
        if i == last {
            proof {
                assert forall|j: int| 0 <= j && j + n <= hay@.len() implies
                    #[trigger] hay@.subrange(j, j + n) != needle@ by {
                    if j == i {
                    } else {
                        assert(j < i);
                    }
                }
            }
            return false;
        }
        i = i + 1;
    }
}

/// A window rule: a client whose class, instance and title contain the
/// given patterns (an empty pattern matches anything) gets these settings.
pub struct Rule {
    pub class: Vec<u8>,
    pub instance: Vec<u8>,
    pub title: Vec<u8>,
    pub tags: u32,
    pub isfloating: bool,
    pub isterminal: bool,
    pub noswallow: bool,
    /// The number of the monitor to put the client on; one that no monitor
    /// has leaves the monitor as it is.
    pub monitor: i32,
}

/// The configured rules: class "Gimp" (bytes 71 105 109 112) floats; class
/// "Firefox" (bytes 70 105 114 101 102 111 120) goes to the ninth tag.
pub fn rules() -> (r: Vec<Rule>)
    ensures
        r@.len() == 2,
        r@[0].class@ == seq![71u8, 105, 109, 112],
        r@[0].instance@.len() == 0 && r@[0].title@.len() == 0,
        r@[0].tags == 0 && r@[0].isfloating && !r@[0].isterminal && !r@[0].noswallow && r@[0].monitor == -1,
        r@[1].class@ == seq![70u8, 105, 114, 101, 102, 111, 120],
        r@[1].instance@.len() == 0 && r@[1].title@.len() == 0,
        r@[1].tags == 1u32 << 8 && !r@[1].isfloating && !r@[1].isterminal && !r@[1].noswallow
            && r@[1].monitor == -1,
{
    let gimp = Rule {
        class: vec![71u8, 105, 109, 112],
        instance: Vec::new(),
        title: Vec::new(),
        tags: 0,
        isfloating: true,
        isterminal: false,
        noswallow: false,
        monitor: -1,
    };
    let firefox = Rule {
        class: vec![70u8, 105, 114, 101, 102, 111, 120],
        instance: Vec::new(),
        title: Vec::new(),
        tags: 1 << 8,
        isfloating: false,
        isterminal: false,
        noswallow: false,
        monitor: -1,
    };
    let mut r = Vec::new();
    r.push(gimp);
    r.push(firefox);
    r
}

/// Whether rule `r` applies to a client with this class, instance and title.
pub open spec fn rule_matches(r: Rule, class: Seq<u8>, instance: Seq<u8>, title: Seq<u8>) -> bool {
    &&& occurs_in(r.title@, title)
    &&& occurs_in(r.class@, class)
    &&& occurs_in(r.instance@, instance)
}

/// What the rules decide for a client, as they are applied one by one.
#[derive(Clone, Copy, PartialEq, Eq, Structural)]
pub struct RuleState {
    pub tags: u32,
    pub isfloating: bool,
    pub isterminal: bool,
    pub noswallow: bool,
    /// Index of the client's monitor.
    pub mon: usize,
    pub x: i32,
    pub y: i32,
}

/// The first monitor, from index `i` on, whose number is `num`, if any.
pub open spec fn mon_with_num_from(mons: Seq<Monitor>, num: i32, i: int) -> Option<usize>
    decreases mons.len() - i,
{
    if i < 0 || i >= mons.len() {
        None
    } else if mons[i].num == num {
        Some(i as usize)
    } else {
        mon_with_num_from(mons, num, i + 1)
    }
}

/// The first monitor whose number is `num`, if any.
pub open spec fn mon_with_num(mons: Seq<Monitor>, num: i32) -> Option<usize> {
    mon_with_num_from(mons, num, 0)
}

/// A monitor found by number is one of the monitors.
pub proof fn lemma_mon_with_num_from_valid(mons: Seq<Monitor>, num: i32, i: int)
    requires
        mons.len() <= usize::MAX,
    ensures
        mon_with_num_from(mons, num, i) matches Some(k) ==> i <= k < mons.len() && mons[k as int].num == num,
    decreases mons.len() - i,
{
    if 0 <= i < mons.len() && mons[i].num != num {
        lemma_mon_with_num_from_valid(mons, num, i + 1);
    }
}

/// The position that centres a window of outer size `width` by `height` in
/// the window area of monitor `m`.
pub open spec fn centred_on(m: Monitor, width: int, height: int) -> (int, int) {
    (m.wx + (tdiv(m.ww as int, 2) - tdiv(width, 2)), m.wy + (tdiv(m.wh as int, 2) - tdiv(height, 2)))
}

/// One rule applied to the state `s`, for a client of outer size `width`
/// by `height`: a matching rule sets the floating and swallowing flags,
/// adds its tags, centres a floating scratchpad on the client's current
/// monitor and moves the client to the rule's monitor when there is one.
pub open spec fn apply_rule(s: RuleState, r: Rule, mons: Seq<Monitor>, width: int, height: int,
    class: Seq<u8>, instance: Seq<u8>, title: Seq<u8>) -> RuleState {
    if rule_matches(r, class, instance, title) {
        let (x, y) = if r.tags & SPTAGMASK != 0 && r.isfloating {
            let (cx, cy) = centred_on(mons[s.mon as int], width, height);
            (cx as i32, cy as i32)
        } else {
            (s.x, s.y)
        };
        RuleState {
            tags: s.tags | r.tags,
            isfloating: r.isfloating,
            isterminal: r.isterminal,
            noswallow: r.noswallow,
            mon: match mon_with_num(mons, r.monitor) {
                Some(k) => k,
                None => s.mon,
            },
            x,
            y,
        }
    } else {
        s
    }
}

/// The first `k` rules applied in order to `s`.
pub open spec fn apply_rules_upto(s: RuleState, rules: Seq<Rule>, k: int, mons: Seq<Monitor>, width: int,
    height: int, class: Seq<u8>, instance: Seq<u8>, title: Seq<u8>) -> RuleState
    decreases k,
{
    if k <= 0 {
        s
    } else {
        apply_rule(
            apply_rules_upto(s, rules, k - 1, mons, width, height, class, instance, title),
            rules[k - 1],
            mons,
            width,
            height,
            class,
            instance,
            title,
        )
    }
}

/// The tags a client ends with: those the rules gave it (scratchpad tag
/// included), or else the tags its monitor shows, without the scratchpad tag.
pub open spec fn final_tags(s: RuleState, mons: Seq<Monitor>) -> u32 {
    if s.tags & TAGMASK != 0 {
        s.tags & TAGMASK
    } else {
        mons[s.mon as int].cur_tags() & !SPTAGMASK
    }
}

/// Whether every monitor has a window area whose centre computations stay
/// small, and a tag selector that is 0 or 1.
pub open spec fn mons_small(mons: Seq<Monitor>) -> bool {
    forall|k: int| 0 <= k < mons.len() ==> {
        &&& -0x1000_0000 <= #[trigger] mons[k].wx <= 0x1000_0000
        &&& -0x1000_0000 <= mons[k].wy <= 0x1000_0000
        &&& -0x1000_0000 <= mons[k].ww <= 0x1000_0000
        &&& -0x1000_0000 <= mons[k].wh <= 0x1000_0000
        &&& mons[k].seltags < 2
    }
}

/// Tests `mons_small` on the monitors of `mons`.
pub fn all_mons_small(mons: &Vec<Monitor>) -> (r: bool)
    ensures
        r == mons_small(mons@),
{
    let mut k: usize = 0;
    while k < mons.len()
        invariant
            k <= mons@.len(),
            forall|j: int| 0 <= j < k ==> {
                &&& -0x1000_0000 <= #[trigger] mons@[j].wx <= 0x1000_0000
                &&& -0x1000_0000 <= mons@[j].wy <= 0x1000_0000
                &&& -0x1000_0000 <= mons@[j].ww <= 0x1000_0000
                &&& -0x1000_0000 <= mons@[j].wh <= 0x1000_0000
                &&& mons@[j].seltags < 2
            },
        decreases mons@.len() - k,
    {
        let m = &mons[k];
        let lo: i32 = -0x1000_0000;
        let hi: i32 = 0x1000_0000;
        if !(lo <= m.wx && m.wx <= hi && lo <= m.wy && m.wy <= hi && lo <= m.ww && m.ww <= hi
            && lo <= m.wh && m.wh <= hi && m.seltags < 2) {
            assert(!(-0x1000_0000 <= mons@[k as int].wx <= 0x1000_0000) || !(-0x1000_0000 <= mons@[k as int].wy <= 0x1000_0000)
                || !(-0x1000_0000 <= mons@[k as int].ww <= 0x1000_0000) || !(-0x1000_0000 <= mons@[k as int].wh <= 0x1000_0000)
                || !(mons@[k as int].seltags < 2));
            return false;
        }
        k = k + 1;
    }
    true
}

/// Applies `rules` to a new client of outer size `width` by `height`, now
/// at `(x, y)` on monitor `mon`, with this class, instance and title.
/// The floating flag and tags start cleared; the result holds the final
/// tags (see `final_tags`).
pub fn applyrules(rules: &Vec<Rule>, mons: &Vec<Monitor>, mon: usize, x: i32, y: i32, width: i32, height: i32,
    class: &Vec<u8>, instance: &Vec<u8>, title: &Vec<u8>, isterminal: bool, noswallow: bool) -> (r: RuleState)
    requires
        mon < mons@.len(),
        mons_small(mons@),
        -0x1000_0000 <= width <= 0x1000_0000,
        -0x1000_0000 <= height <= 0x1000_0000,
    ensures
        ({
            let s0 = RuleState { tags: 0, isfloating: false, isterminal, noswallow, mon, x, y };
            let s = apply_rules_upto(s0, rules@, rules@.len() as int, mons@, width as int, height as int,
                class@, instance@, title@);
            r == RuleState { tags: final_tags(s, mons@), ..s }
        }),
        r.mon < mons@.len(),
{
    let ghost s0 = RuleState { tags: 0, isfloating: false, isterminal, noswallow, mon, x, y };
    let mut s = RuleState { tags: 0, isfloating: false, isterminal, noswallow, mon, x, y };
    let mut i: usize = 0;
    while i < rules.len()
        invariant
            i <= rules@.len(),
            s.mon < mons@.len(),
            mons_small(mons@),
            -0x1000_0000 <= width <= 0x1000_0000,
            -0x1000_0000 <= height <= 0x1000_0000,
            s == apply_rules_upto(s0, rules@, i as int, mons@, width as int, height as int, class@,
                instance@, title@),
        decreases rules@.len() - i,
    {
        let r = &rules[i];
        let t_ok = find_sub(title, &r.title);
        let c_ok = find_sub(class, &r.class);
        let i_ok = find_sub(instance, &r.instance);
        if t_ok && c_ok && i_ok {
            s.isterminal = r.isterminal;
            s.noswallow = r.noswallow;
            s.isfloating = r.isfloating;
            s.tags = s.tags | r.tags;
            if r.tags & SPTAGMASK != 0 && r.isfloating {
                let m = &mons[s.mon];
                proof {
                    assert(-0x1000_0000 <= m.wx <= 0x1000_0000);
                }
                s.x = m.wx + (m.ww / 2 - width / 2);
                s.y = m.wy + (m.wh / 2 - height / 2);
            }
            let found = mon_by_num(mons, r.monitor);
            if let Some(k) = found {
                s.mon = k;
            }
        }
        i = i + 1;
    }
    let m = &mons[s.mon];
    assert(-0x1000_0000 <= mons@[s.mon as int].wx);
    let cur = m.tagset[m.seltags];
    let tags = if s.tags & TAGMASK != 0 { s.tags & TAGMASK } else { cur & !SPTAGMASK };
    RuleState { tags, ..s }
}

/// The first monitor whose number is `num`; see `mon_with_num`.
pub fn mon_by_num(mons: &Vec<Monitor>, num: i32) -> (r: Option<usize>)
    ensures
        r == mon_with_num(mons@, num),
        r matches Some(k) ==> k < mons@.len(),
{
    let mut k: usize = 0;
    while k < mons.len()
        invariant
            k <= mons@.len(),
            mon_with_num_from(mons@, num, 0) == mon_with_num_from(mons@, num, k as int),
        decreases mons@.len() - k,
    {
        if mons[k].num == num {
            return Some(k);
        }
        k = k + 1;
    }
    None
}

} // verus!
