//! The bar: which tags it shows, where its parts go, what a click on it
//! hits, and how the status text splits into parts that a status program
//! can tell apart.
use vstd::prelude::*;
use crate::wm::Wm;
use crate::tags::{TAGMASK, NUM_TAGS};
use crate::manage::x_coord;

verus! {

impl Wm {
    /// The tags of the clients in `s`, leaving out clients on every tag.
    pub open spec fn occupied_by(self, s: Seq<usize>) -> u32
        decreases s.len(),
    {
        if s.len() == 0 {
            0
        } else {
            let t = self.clients@[s.last() as int].tags;
            self.occupied_by(s.drop_last()) | (if t == TAGMASK { 0 } else { t })
        }
    }

    /// The tags of the urgent clients in `s`.
    pub open spec fn urgent_in(self, s: Seq<usize>) -> u32
        decreases s.len(),
    {
        if s.len() == 0 {
            0
        } else {
            let c = self.clients@[s.last() as int];
            self.urgent_in(s.drop_last()) | (if c.isurgent { c.tags } else { 0 })
        }
    }

    /// The tags occupied on monitor `m` and the tags with an urgent client
    /// there, as the bar marks them.
    pub fn bar_masks(&self, m: usize) -> (r: (u32, u32))
        requires
            self.wf(),
            m < self.mons@.len(),
        ensures
            r.0 == self.occupied_by(self.mons@[m as int].clients@),
            r.1 == self.urgent_in(self.mons@[m as int].clients@),
    {
        let mut occ: u32 = 0;
        let mut urg: u32 = 0;
        let mut i: usize = 0;
        proof {
            assert(self.mon_ok(m as int));
        }
        while i < self.mons[m].clients.len()
            invariant
                self.wf(),
                m < self.mons@.len(),
                i <= self.mons@[m as int].clients@.len(),
                occ == self.occupied_by(self.mons@[m as int].clients@.take(i as int)),
                urg == self.urgent_in(self.mons@[m as int].clients@.take(i as int)),
            decreases self.mons@[m as int].clients@.len() - i,
        {
            let x = self.mons[m].clients[i];
            proof {
                assert(self.mon_ok(m as int));
                assert(self.mons@[m as int].clients@.contains(x));
                let s = self.mons@[m as int].clients@.take(i + 1);
                assert(s.drop_last() =~= self.mons@[m as int].clients@.take(i as int));
                assert(s.last() == x);
            }
            let t = self.clients[x].tags;
            occ = occ | (if t == TAGMASK { 0 } else { t });
            if self.clients[x].isurgent {
                urg = urg | t;
            } else {
                urg = urg | 0;
            }
            i = i + 1;
        }
        proof {
            assert(self.mons@[m as int].clients@.take(i as int) =~= self.mons@[m as int].clients@);
        }
        (occ, urg)
    }
}

/// Whether the bar shows tag `i`: it is occupied or shown.
pub open spec fn tag_on_bar(i: int, occ: u32, cur: u32) -> bool {
    (occ & (1u32 << (i as u32))) != 0 || (cur & (1u32 << (i as u32))) != 0
}

/// The end of the tag labels on the bar, from tag `i` on, starting at `x`,
/// for labels `tag_w` wide.
pub open spec fn tags_end(i: int, x: int, occ: u32, cur: u32, tag_w: Seq<i32>) -> int
    decreases NUM_TAGS - i,
{
    if i < 0 || i >= NUM_TAGS {
        x
    } else {
        tags_end(i + 1, if tag_on_bar(i, occ, cur) { x + tag_w[i] } else { x }, occ, cur, tag_w)
    }
}

/// The first tag label, from tag `i` on, starting at `x`, that ends past
/// `ex` (the tag clicked at `ex`), if any.
pub open spec fn tag_at(i: int, x: int, ex: int, occ: u32, cur: u32, tag_w: Seq<i32>) -> Option<usize>
    decreases NUM_TAGS - i,
{
    if i < 0 || i >= NUM_TAGS {
        None
    } else if tag_on_bar(i, occ, cur) && ex < x + tag_w[i] {
        Some(i as usize)
    } else {
        tag_at(i + 1, if tag_on_bar(i, occ, cur) { x + tag_w[i] } else { x }, ex, occ, cur, tag_w)
    }
}

/// The part of the bar a click lands on.
#[derive(Clone, Copy, PartialEq, Eq, Structural, Debug)]
pub enum BarClick {
    /// The label of this tag.
    Tag(usize),
    /// The layout symbol.
    LtSymbol,
    /// The status text.
    StatusText,
    /// The title of the selected client.
    WinTitle,
}

/// Whether the label widths are sensible: nine of them, each a width the X
/// protocol can hold.
pub open spec fn widths_ok(tag_w: Seq<i32>) -> bool {
    &&& tag_w.len() == NUM_TAGS
    &&& forall|i: int| 0 <= i < tag_w.len() ==> 0 <= #[trigger] tag_w[i] <= 0x1_0000
}

/// Where a click at `ex` on a bar `ww` wide lands: the labels of the tags
/// that are occupied or shown (`tag_w` wide each) come first, then the
/// layout symbol (`lt_w` wide); the status text takes the last `statusw`
/// pixels; the rest is the title.
pub open spec fn bar_click(ex: int, occ: u32, cur: u32, tag_w: Seq<i32>, lt_w: int, ww: int, statusw: int) -> BarClick {
    match tag_at(0, 0, ex, occ, cur, tag_w) {
        Some(i) => BarClick::Tag(i),
        None => if ex < tags_end(0, 0, occ, cur, tag_w) + lt_w {
            BarClick::LtSymbol
        } else if ex > ww - statusw {
            BarClick::StatusText
        } else {
            BarClick::WinTitle
        },
    }
}

/// Where a click at `ex` on the bar lands; see `bar_click`.
pub fn click_on_bar(ex: i32, occ: u32, cur: u32, tag_w: &Vec<i32>, lt_w: i32, ww: i32, statusw: i32) -> (r: BarClick)
    requires
        widths_ok(tag_w@),
        x_coord(lt_w as int) && x_coord(ww as int) && x_coord(statusw as int),
    ensures
        r == bar_click(ex as int, occ, cur, tag_w@, lt_w as int, ww as int, statusw as int),
{
    let mut i: usize = 0;
    let mut x: i32 = 0;
    while i < 9
        invariant
            widths_ok(tag_w@),
            i <= 9,
            0 <= x <= i * 0x1_0000,
            tag_at(0, 0, ex as int, occ, cur, tag_w@) == tag_at(i as int, x as int, ex as int, occ, cur, tag_w@),
            tags_end(0, 0, occ, cur, tag_w@) == tags_end(i as int, x as int, occ, cur, tag_w@),
        decreases 9 - i,
    {
        let bit: u32 = 1u32 << (i as u32);
        if (occ & bit) != 0 || (cur & bit) != 0 {
            if ex < x + tag_w[i] {
                return BarClick::Tag(i);
            }
            x = x + tag_w[i];
        }
        i = i + 1;
    }
    if ex < x + lt_w {
        BarClick::LtSymbol
    } else if ex > ww - statusw {
        BarClick::StatusText
    } else {
        BarClick::WinTitle
    }
}

/// Where the parts of a bar go.
pub struct BarLayout {
    /// The tags shown on the bar, each with the start of its label.
    pub tags: Vec<(usize, i32)>,
    /// For each label of `tags`: whether its tag is shown (drawn in the
    /// selected scheme) and whether an urgent client has it (drawn inverted).
    pub marks: Vec<(bool, bool)>,
    /// The start of the layout symbol.
    pub lt_x: i32,
    /// The start of the title.
    pub title_x: i32,
    /// The width left for the title.
    pub title_w: i32,
}

/// The tags shown on the bar from tag `i` on, with the starts of their
/// labels, the first starting at `x`.
pub open spec fn tag_labels(i: int, x: int, occ: u32, cur: u32, tag_w: Seq<i32>) -> Seq<(usize, i32)>
    decreases NUM_TAGS - i,
{
    if i < 0 || i >= NUM_TAGS {
        Seq::empty()
    } else if tag_on_bar(i, occ, cur) {
        seq![(i as usize, x as i32)] + tag_labels(i + 1, x + tag_w[i], occ, cur, tag_w)
    } else {
        tag_labels(i + 1, x, occ, cur, tag_w)
    }
}

/// How the label of tag `i` is drawn: in the selected scheme when the tag
/// is shown (in `cur`), inverted when an urgent client has it (in `urg`).
pub open spec fn label_marks(i: usize, cur: u32, urg: u32) -> (bool, bool) {
    ((cur & (1u32 << (i as u32))) != 0, (urg & (1u32 << (i as u32))) != 0)
}

/// Lays out a bar `ww` wide whose status text takes `statusw` pixels: the
/// labels of the tags that are occupied or shown (`tag_w` wide each), each
/// marked as shown or urgent (see `label_marks`), the layout symbol (`lt_w`
/// wide), then the title in what is left.
pub fn bar_layout(occ: u32, cur: u32, urg: u32, tag_w: &Vec<i32>, lt_w: i32, ww: i32, statusw: i32) -> (r: BarLayout)
    requires
        widths_ok(tag_w@),
        x_coord(lt_w as int) && x_coord(ww as int) && x_coord(statusw as int),
    ensures
        r.tags@ == tag_labels(0, 0, occ, cur, tag_w@),
        r.marks@.len() == r.tags@.len(),
        forall|j: int| 0 <= j < r.tags@.len() ==> #[trigger] r.marks@[j] == label_marks(r.tags@[j].0, cur, urg),
        r.lt_x == tags_end(0, 0, occ, cur, tag_w@),
        r.title_x == r.lt_x + lt_w,
        r.title_w == ww - statusw - r.title_x,
{
    let mut tags: Vec<(usize, i32)> = Vec::new();
    let mut marks: Vec<(bool, bool)> = Vec::new();
    let mut i: usize = 0;
    let mut x: i32 = 0;
    while i < 9
        invariant
            widths_ok(tag_w@),
            i <= 9,
            marks@.len() == tags@.len(),
            forall|j: int| 0 <= j < tags@.len() ==> #[trigger] marks@[j] == label_marks(tags@[j].0, cur, urg),
            0 <= x <= i * 0x1_0000,
            tag_labels(0, 0, occ, cur, tag_w@) == tags@ + tag_labels(i as int, x as int, occ, cur, tag_w@),
            tags_end(0, 0, occ, cur, tag_w@) == tags_end(i as int, x as int, occ, cur, tag_w@),
        decreases 9 - i,
    {
        let bit: u32 = 1u32 << (i as u32);
        if (occ & bit) != 0 || (cur & bit) != 0 {
            let ghost before = tags@;
            tags.push((i, x));
            marks.push(((cur & bit) != 0, (urg & bit) != 0));
            proof {
                assert(before + tag_labels(i as int, x as int, occ, cur, tag_w@) =~= tags@ + tag_labels(
                    i + 1,
                    x + tag_w@[i as int],
                    occ,
                    cur,
                    tag_w@,
                ));
            }
            x = x + tag_w[i];
        }
        i = i + 1;
    }
    proof {
        assert(tags@ + tag_labels(i as int, x as int, occ, cur, tag_w@) =~= tags@);
    }
    BarLayout { tags, marks, lt_x: x, title_x: x + lt_w, title_w: ww - statusw - (x + lt_w) }
}

/// The positions of the control bytes (below a space) in `s`, from `i` on.
/// They split the status text into parts.
pub open spec fn cuts_from(s: Seq<u8>, i: int) -> Seq<int>
    decreases s.len() - i,
{
    if i < 0 || i >= s.len() {
        Seq::empty()
    } else if s[i] < 32 {
        seq![i] + cuts_from(s, i + 1)
    } else {
        cuts_from(s, i + 1)
    }
}

/// The positions of the control bytes in `s`.
pub open spec fn cuts(s: Seq<u8>) -> Seq<int> {
    cuts_from(s, 0)
}

/// The parts of the status text `s`, as `[start, end)` ranges: the text
/// before the first control byte, between each two, and after the last.
pub open spec fn parts(s: Seq<u8>) -> Seq<(usize, usize)> {
    let c = cuts(s);
    Seq::new(c.len() + 1, |j: int| (
        (if j == 0 { 0 } else { c[j - 1] + 1 }) as usize,
        (if j < c.len() { c[j] } else { s.len() as int }) as usize,
    ))
}

/// The parts of the status text; see `parts`.
pub fn status_parts(s: &Vec<u8>) -> (r: Vec<(usize, usize)>)
    ensures
        r@ == parts(s@),
{
    let mut r: Vec<(usize, usize)> = Vec::new();
    let mut start: usize = 0;
    let mut i: usize = 0;
    let ghost mut seen: Seq<int> = Seq::empty();
    while i < s.len()
        invariant
            i <= s@.len(),
            start <= i,
            cuts(s@) == seen + cuts_from(s@, i as int),
            r@.len() == seen.len(),
            start == if seen.len() == 0 { 0 } else { seen.last() + 1 },
            forall|j: int| 0 <= j < seen.len() ==> #[trigger] r@[j] == (
                (if j == 0 { 0 } else { seen[j - 1] + 1 }) as usize,
                seen[j] as usize,
            ),
            forall|j: int| 0 <= j < seen.len() ==> 0 <= #[trigger] seen[j] < i,
        decreases s@.len() - i,
    {
        if s[i] < 32 {
            r.push((start, i));
            proof {
                assert(seen.push(i as int) + cuts_from(s@, i + 1) =~= seen + cuts_from(s@, i as int));
                seen = seen.push(i as int);
            }
            start = i + 1;
        }
        i = i + 1;
    }
    r.push((start, s.len()));
    proof {
        assert(cuts_from(s@, i as int) =~= Seq::<int>::empty());
        assert(seen =~= cuts(s@));
        assert(r@ =~= parts(s@));
    }
    r
}

/// The width the status text takes on the bar, given the width of each of
/// its parts (`part_w`, with the text padding included) and the padding
/// `lrpad`: the parts without their padding, and two pixels more.
pub open spec fn status_width_of(part_w: Seq<i32>, lrpad: int) -> int
    decreases part_w.len(),
{
    if part_w.len() == 0 {
        2
    } else {
        status_width_of(part_w.drop_last(), lrpad) + part_w.last() - lrpad
    }
}

/// The width the status text takes on the bar; see `status_width_of`.
pub fn status_width(part_w: &Vec<i32>, lrpad: i32) -> (r: i32)
    requires
        part_w@.len() < 0x4000,
        forall|j: int| 0 <= j < part_w@.len() ==> x_coord(#[trigger] part_w@[j] as int),
        x_coord(lrpad as int),
    ensures
        r == status_width_of(part_w@, lrpad as int),
{
    let mut w: i32 = 2;
    let mut j: usize = 0;
    while j < part_w.len()
        invariant
            part_w@.len() < 0x4000,
            forall|k: int| 0 <= k < part_w@.len() ==> x_coord(#[trigger] part_w@[k] as int),
            x_coord(lrpad as int),
            j <= part_w@.len(),
            w == status_width_of(part_w@.take(j as int), lrpad as int),
            -(j as int) * 0x2_0000 + 2 <= w <= j * 0x2_0000 + 2,
        decreases part_w@.len() - j,
    {
        proof {
            assert(part_w@.take(j + 1).drop_last() =~= part_w@.take(j as int));
        }
        w = w + part_w[j] - lrpad;
        j = j + 1;
    }
    proof {
        assert(part_w@.take(j as int) =~= part_w@);
    }
    w
}

/// The signal a click at `ex` on the status text selects: going through the
/// control bytes of `s` in order, starting at `x` (the start of the status
/// text) with signal `sig`, each adds the width of the part before it
/// (`part_w`, padding left out); once that passes the click, the signal
/// stands; otherwise the control byte becomes the signal, or ends it when it
/// is the signal already.
pub open spec fn click_signal_from(s: Seq<u8>, c: Seq<int>, part_w: Seq<i32>, j: int, x: int, ex: int, sig: int) -> int
    decreases c.len() - j,
{
    if j < 0 || j >= c.len() {
        sig
    } else if x + part_w[j] >= ex {
        sig
    } else {
        let ch = s[c[j]] as int;
        click_signal_from(s, c, part_w, j + 1, x + part_w[j], ex, if sig == ch { 0 } else { ch })
    }
}

/// The signal a click at `ex` on the status text selects, the status text
/// starting at `x0`; no signal when the click is before it.
pub open spec fn click_signal(s: Seq<u8>, part_w: Seq<i32>, x0: int, ex: int) -> int {
    if x0 > ex { 0 } else { click_signal_from(s, cuts(s), part_w, 0, x0, ex, 0) }
}

/// The signal a click at `ex` on the status text `s` selects; see `click_signal`.
pub fn status_click_signal(s: &Vec<u8>, part_w: &Vec<i32>, x0: i32, ex: i32) -> (r: i32)
    requires
        part_w@.len() == cuts(s@).len() + 1,
        forall|j: int| 0 <= j < part_w@.len() ==> 0 <= #[trigger] part_w@[j] <= 0x1_0000,
        s@.len() < 0x4000,
        x_coord(x0 as int),
    ensures
        r == click_signal(s@, part_w@, x0 as int, ex as int),
{
    if x0 > ex {
        return 0;
    }
    let ghost c = cuts(s@);
    let mut sig: i32 = 0;
    let mut x: i32 = x0;
    let mut j: usize = 0;
    let mut i: usize = 0;
    proof {
        lemma_cuts_from_shape(s@, 0);
    }
    while i < s.len()
        invariant
            part_w@.len() == c.len() + 1,
            forall|k: int| 0 <= k < part_w@.len() ==> 0 <= #[trigger] part_w@[k] <= 0x1_0000,
            s@.len() < 0x4000,
            c == cuts(s@),
            c.len() <= s@.len(),
            i <= s@.len(),
            j <= c.len(),
            x_coord(x0 as int),
            x0 <= x <= x0 + j * 0x1_0000,
            0 <= sig < 32,
            cuts_from(s@, i as int) == c.skip(j as int),
            click_signal(s@, part_w@, x0 as int, ex as int) == click_signal_from(s@, c, part_w@, j as int, x as int,
                ex as int, sig as int),
        decreases s@.len() - i,
    {
        proof {
            assert(cuts_from(s@, i as int) == if s@[i as int] < 32 {
                seq![i as int] + cuts_from(s@, i + 1)
            } else {
                cuts_from(s@, i + 1)
            });
        }
        if s[i] < 32 {
            proof {
                assert(c.skip(j as int).len() > 0);
                assert(c.skip(j as int)[0] == i);
                assert(c[j as int] == i);
            }
            let w = part_w[j];
            if x + w >= ex {
                return sig;
            }
            let ch = s[i] as i32;
            x = x + w;
            sig = if sig == ch { 0 } else { ch };
            proof {
                assert(c.skip(j + 1) =~= c.skip(j as int).drop_first());
            }
            j = j + 1;
        }
        i = i + 1;
    }
    proof {
        assert(c.skip(j as int).len() == 0);
    }
    sig
}

/// The control-byte positions from `i` on lie between `i` and the end, and
/// there are no more of them than bytes.
proof fn lemma_cuts_from_shape(s: Seq<u8>, i: int)
    requires
        0 <= i <= s.len(),
    ensures
        forall|k: int| 0 <= k < cuts_from(s, i).len() ==> i <= #[trigger] cuts_from(s, i)[k] < s.len(),
        cuts_from(s, i).len() <= s.len() - i,
    decreases s.len() - i,
{
    if i < s.len() {
        lemma_cuts_from_shape(s, i + 1);
        let r = cuts_from(s, i + 1);
        if s[i] < 32 {
            assert forall|k: int| 0 <= k < cuts_from(s, i).len() implies i <= #[trigger] cuts_from(s, i)[k] < s.len() by {
                if k > 0 {
                    assert(cuts_from(s, i)[k] == r[k - 1]);
                }
            }
        }
    }
}

/// The labels from tag `i` on, started at `x`, start at or after `x`.
proof fn lemma_labels_after(i: int, x: int, occ: u32, cur: u32, tag_w: Seq<i32>)
    requires
        widths_ok(tag_w),
        0 <= i <= NUM_TAGS,
        0 <= x <= i * 0x1_0000,
    ensures
        forall|j: int| 0 <= j < tag_labels(i, x, occ, cur, tag_w).len() ==> {
            let (t, lx) = #[trigger] tag_labels(i, x, occ, cur, tag_w)[j];
            &&& x <= lx
            &&& i <= t < NUM_TAGS
            &&& lx as int + tag_w[t as int] <= tags_end(i, x, occ, cur, tag_w)
        },
    decreases NUM_TAGS - i,
{
    if i < NUM_TAGS {
        let x2 = if tag_on_bar(i, occ, cur) { x + tag_w[i] } else { x };
        lemma_labels_after(i + 1, x2, occ, cur, tag_w);
        lemma_end_after(i + 1, x2, occ, cur, tag_w);
        let rest = tag_labels(i + 1, x2, occ, cur, tag_w);
        if tag_on_bar(i, occ, cur) {
            assert forall|j: int| 0 <= j < tag_labels(i, x, occ, cur, tag_w).len() implies {
                let (t, lx) = #[trigger] tag_labels(i, x, occ, cur, tag_w)[j];
                &&& x <= lx
                &&& i <= t < NUM_TAGS
                &&& lx as int + tag_w[t as int] <= tags_end(i, x, occ, cur, tag_w)
            } by {
                if j > 0 {
                    assert(tag_labels(i, x, occ, cur, tag_w)[j] == rest[j - 1]);
                } else {
                    assert(tag_labels(i, x, occ, cur, tag_w)[0] == (i as usize, x as i32));
                    assert((x as i32) as int == x);
                    assert((i as usize) as int == i);
                    assert(tags_end(i, x, occ, cur, tag_w) == tags_end(i + 1, x2, occ, cur, tag_w));
                }
            }
        } else {
            assert(tag_labels(i, x, occ, cur, tag_w) == rest);
            assert(tags_end(i, x, occ, cur, tag_w) == tags_end(i + 1, x2, occ, cur, tag_w));
        }
    }
}

/// The labels end no earlier than they start.
proof fn lemma_end_after(i: int, x: int, occ: u32, cur: u32, tag_w: Seq<i32>)
    requires
        widths_ok(tag_w),
        0 <= i <= NUM_TAGS,
    ensures
        tags_end(i, x, occ, cur, tag_w) >= x,
    decreases NUM_TAGS - i,
{
    if i < NUM_TAGS {
        lemma_end_after(i + 1, if tag_on_bar(i, occ, cur) { x + tag_w[i] } else { x }, occ, cur, tag_w);
    }
}

/// From tag `i` on (started at `x`), a click inside the label of tag `t`
/// hits tag `t`.
proof fn lemma_click_in_label_from(i: int, x: int, occ: u32, cur: u32, tag_w: Seq<i32>, j: int, ex: int)
    requires
        widths_ok(tag_w),
        0 <= i <= NUM_TAGS,
        0 <= x <= i * 0x1_0000,
        0 <= j < tag_labels(i, x, occ, cur, tag_w).len(),
        tag_labels(i, x, occ, cur, tag_w)[j].1 <= ex < tag_labels(i, x, occ, cur, tag_w)[j].1 + tag_w[tag_labels(i, x, occ, cur, tag_w)[j].0 as int],
    ensures
        tag_at(i, x, ex, occ, cur, tag_w) == Some(tag_labels(i, x, occ, cur, tag_w)[j].0),
    decreases NUM_TAGS - i,
{
    if i < NUM_TAGS {
        let x2 = if tag_on_bar(i, occ, cur) { x + tag_w[i] } else { x };
        if tag_on_bar(i, occ, cur) {
            if j == 0 {
            } else {
                let rest = tag_labels(i + 1, x2, occ, cur, tag_w);
                assert(tag_labels(i, x, occ, cur, tag_w)[j] == rest[j - 1]);
                lemma_labels_after(i + 1, x2, occ, cur, tag_w);
                let (t, lx) = rest[j - 1];
                assert(x2 <= lx);
                lemma_click_in_label_from(i + 1, x2, occ, cur, tag_w, j - 1, ex);
            }
        } else {
            lemma_click_in_label_from(i + 1, x2, occ, cur, tag_w, j, ex);
        }
    }
}

/// The bar and its hit-testing agree: a click inside the label that the
/// layout gives a tag hits that tag.
pub proof fn lemma_click_in_label(occ: u32, cur: u32, tag_w: Seq<i32>, lt_w: int, ww: int, statusw: int, j: int, ex: int)
    requires
        widths_ok(tag_w),
        0 <= j < tag_labels(0, 0, occ, cur, tag_w).len(),
        tag_labels(0, 0, occ, cur, tag_w)[j].1 <= ex < tag_labels(0, 0, occ, cur, tag_w)[j].1 + tag_w[tag_labels(0, 0, occ, cur, tag_w)[j].0 as int],
    ensures
        bar_click(ex, occ, cur, tag_w, lt_w, ww, statusw) == BarClick::Tag(tag_labels(0, 0, occ, cur, tag_w)[j].0),
{
    lemma_click_in_label_from(0, 0, occ, cur, tag_w, j, ex);
}

/// The parts of the status text tile it: the first starts at its start,
/// the last ends at its end, each ends at a control byte where the next
/// starts one byte later, and no part holds a control byte.
pub proof fn lemma_parts_tile(s: Seq<u8>)
    requires
        s.len() <= usize::MAX,
    ensures
        parts(s)[0].0 == 0,
        parts(s)[parts(s).len() - 1].1 == s.len(),
        forall|j: int| 0 <= j < parts(s).len() - 1 ==> {
            let e = #[trigger] parts(s)[j].1 as int;
            &&& e < s.len() && s[e] < 32
            &&& parts(s)[j + 1].0 == e + 1
        },
        forall|j: int, k: int| 0 <= j < parts(s).len() && #[trigger] parts(s)[j].0 <= k < parts(s)[j].1 ==> #[trigger] s[k] >= 32,
{
    lemma_cuts_from_shape(s, 0);
    lemma_cuts_exact(s, 0);
    let c = cuts(s);
    lemma_cuts_sorted(s, 0);
    assert(parts(s)[c.len() as int].1 == s.len());
    assert forall|j: int| 0 <= j < parts(s).len() - 1 implies {
        let e = #[trigger] parts(s)[j].1 as int;
        &&& e < s.len() && s[e] < 32
        &&& parts(s)[j + 1].0 == e + 1
    } by {
        assert(parts(s)[j].1 as int == c[j]);
        assert(parts(s)[j + 1].0 as int == c[j] + 1);
    }
    assert forall|j: int, k: int| 0 <= j < parts(s).len() && #[trigger] parts(s)[j].0 <= k < parts(s)[j].1 implies #[trigger] s[k] >= 32 by {
        let lo = if j == 0 { 0 } else { c[j - 1] + 1 };
        let hi = if j < c.len() { c[j] } else { s.len() as int };
        assert(parts(s)[j].0 as int == lo);
        assert(parts(s)[j].1 as int == hi);
        if s[k] < 32 {
            let m = choose|m: int| 0 <= m < c.len() && c[m] == k;
            if m < j {
                if m < j - 1 {
                    assert(c[m] < c[j - 1]);
                }
            } else if m >= j {
                if m > j {
                    assert(c[j] < c[m]);
                }
            }
        }
    }
}

/// Every control byte from `i` on is one of the positions found, and the
/// positions found hold control bytes.
proof fn lemma_cuts_exact(s: Seq<u8>, i: int)
    requires
        0 <= i <= s.len(),
    ensures
        forall|k: int| i <= k < s.len() && s[k] < 32 ==> exists|m: int| 0 <= m < cuts_from(s, i).len() && cuts_from(s, i)[m] == k,
        forall|m: int| 0 <= m < cuts_from(s, i).len() ==> s[#[trigger] cuts_from(s, i)[m]] < 32,
    decreases s.len() - i,
{
    if i < s.len() {
        lemma_cuts_exact(s, i + 1);
        lemma_cuts_from_shape(s, i + 1);
        let r = cuts_from(s, i + 1);
        if s[i] < 32 {
            assert forall|k: int| i <= k < s.len() && s[k] < 32 implies exists|m: int| 0 <= m < cuts_from(s, i).len() && cuts_from(s, i)[m] == k by {
                if k == i {
                    assert(cuts_from(s, i)[0] == k);
                } else {
                    let m = choose|m: int| 0 <= m < r.len() && r[m] == k;
                    assert(cuts_from(s, i)[m + 1] == k);
                }
            }
            assert forall|m: int| 0 <= m < cuts_from(s, i).len() implies s[#[trigger] cuts_from(s, i)[m]] < 32 by {
                if m > 0 {
                    assert(cuts_from(s, i)[m] == r[m - 1]);
                }
            }
        }
    }
}

/// The positions found come in increasing order.
proof fn lemma_cuts_sorted(s: Seq<u8>, i: int)
    requires
        0 <= i <= s.len(),
    ensures
        forall|a: int, b: int| 0 <= a < b < cuts_from(s, i).len() ==> #[trigger] cuts_from(s, i)[a] < #[trigger] cuts_from(s, i)[b],
    decreases s.len() - i,
{
    if i < s.len() {
        lemma_cuts_sorted(s, i + 1);
        lemma_cuts_from_shape(s, i + 1);
        let r = cuts_from(s, i + 1);
        if s[i] < 32 {
            assert forall|a: int, b: int| 0 <= a < b < cuts_from(s, i).len() implies #[trigger] cuts_from(s, i)[a] < #[trigger] cuts_from(s, i)[b] by {
                assert(cuts_from(s, i)[b] == r[b - 1]);
                if a > 0 {
                    assert(cuts_from(s, i)[a] == r[a - 1]);
                }
            }
        }
    }
}

} // verus!
