//! Tag bit masks: which workspaces a client belongs to and which ones a
//! monitor shows.
use vstd::prelude::*;

verus! {

/// Number of ordinary tags (workspaces) shown in the bar.
pub const NUM_TAGS: u32 = 9;

/// Number of scratchpads; each owns one tag bit above the ordinary tags.
pub const NUM_SCRATCHPADS: u32 = 1;

/// All tag bits in use: the ordinary tags and the scratchpad tags.
pub const TAGMASK: u32 = 0x3ff;

/// The scratchpad tag bits.
pub const SPTAGMASK: u32 = 0x200;

/// The ordinary tag bits.
pub const ORDINARY_TAGS: u32 = 0x1ff;

/// Whether bit `j` of `t` is set.
pub open spec fn tag_bit(t: u32, j: u32) -> bool {
    (t >> j) & 1u32 == 1u32
}

/// The tag bit of scratchpad `i`.
pub open spec fn spec_sptag(i: u32) -> u32 {
    1u32 << ((NUM_TAGS + i) as u32)
}

/// Tag bit reserved for scratchpad `i`: the bits above the ordinary tags.
pub fn sptag(i: u32) -> (r: u32)
    requires
        i < 32 - NUM_TAGS,
    ensures
        r == spec_sptag(i),
{
    assert((1u32 << 9u32) << i == 1u32 << (9 + i)) by (bit_vector)
        requires
            i < 23,
    ;
    (1u32 << NUM_TAGS) << i
}

/// What `shift` computes: the tag bits moved by `i` places, the bits that
/// fall off one end of the ordinary tags coming back in at the other.
pub open spec fn spec_shift(tag: u32, i: int) -> u32 {
    if i > 0 {
        (tag << (i as u32)) | (tag >> ((9 - i) as u32))
    } else {
        (tag >> ((-i) as u32)) | (tag << ((9 + i) as u32))
    }
}

/// Moves a tag set `i` places along the ordinary tags (to higher tags for a
/// positive `i`), wrapping around at the ends.
pub fn shift(tag: u32, i: i32) -> (r: u32)
    requires
        -9 <= i <= 9,
    ensures
        r == spec_shift(tag, i as int),
{
    if i > 0 {
        (tag << (i as u32)) | (tag >> (NUM_TAGS - i as u32))
    } else {
        (tag >> ((-i) as u32)) | (tag << (NUM_TAGS - (-i) as u32))
    }
}

proof fn lemma_shift_bits_up(t: u32, i: u32, j: u32)
    by (bit_vector)
    requires
        t < 512,
        1 <= i <= 9,
        j < 9,
    ensures
        (((t << i) | (t >> ((9 - i) as u32))) >> j) & 1 == (t >> (((j + 9 - i) % 9) as u32)) & 1,
{
}

proof fn lemma_shift_bits_down(t: u32, k: u32, j: u32)
    by (bit_vector)
    requires
        t < 512,
        k <= 9,
        j < 9,
    ensures
        (((t >> k) | (t << ((9 - k) as u32))) >> j) & 1 == (t >> (((j + k) % 9) as u32)) & 1,
{
}

/// Within the ordinary tags, `shift` is a rotation: bit `j` of the result is
/// bit `j - i` (counted modulo the number of tags) of the input.
pub proof fn lemma_shift_rotates(tag: u32, i: int, j: u32)
    requires
        tag & !ORDINARY_TAGS == 0,
        -9 <= i <= 9,
        j < NUM_TAGS,
    ensures
        tag_bit(spec_shift(tag, i), j) == tag_bit(tag, ((j - i) % 9) as u32),
{
    assert(tag & !0x1ffu32 == 0 ==> tag < 512) by (bit_vector);
    if i > 0 {
        lemma_shift_bits_up(tag, i as u32, j);
        assert((j + 9 - i) % 9 == (j - i) % 9) by (nonlinear_arith)
            requires
                0 <= j + 9 - i,
        ;
    } else {
        lemma_shift_bits_down(tag, (-i) as u32, j);
        assert((j + (-i)) % 9 == (j - i) % 9);
    }
}

proof fn lemma_shift_back_up(t: u32, i: u32)
    by (bit_vector)
    requires
        t < 512,
        1 <= i <= 9,
    ensures
        ({
            let s = (t << i) | (t >> ((9 - i) as u32));
            ((s >> i) | (s << ((9 - i) as u32))) & 0x1ff
        }) == t,
{
}

proof fn lemma_shift_back_down(t: u32, k: u32)
    by (bit_vector)
    requires
        t < 512,
        1 <= k <= 9,
    ensures
        ({
            let s = (t >> k) | (t << ((9 - k) as u32));
            ((s << k) | (s >> ((9 - k) as u32))) & 0x1ff
        }) == t,
{
}

/// Shifting the ordinary tags by `i` and then by `-i` gives them back.
pub proof fn lemma_shift_inverse(tag: u32, i: int)
    requires
        tag & !ORDINARY_TAGS == 0,
        -9 <= i <= 9,
        i != 0,
    ensures
        spec_shift(spec_shift(tag, i), -i) & ORDINARY_TAGS == tag,
{
    assert(tag & !0x1ffu32 == 0 ==> tag < 512) by (bit_vector);
    if i > 0 {
        lemma_shift_back_up(tag, i as u32);
    } else {
        lemma_shift_back_down(tag, (-i) as u32);
    }
}

/// The result of shifting `t` by `i`, `k` times over.
pub open spec fn shift_iter(t: u32, i: int, k: nat) -> u32
    decreases k,
{
    if k == 0 {
        t
    } else {
        spec_shift(shift_iter(t, i, (k - 1) as nat), i)
    }
}

/// Whether the search for an occupied tag set stops after `k` shifts: when
/// no tag is occupied at all, or when the shifted set meets the occupied ones.
pub open spec fn shift_stops(t: u32, i: int, occupied: u32, k: nat) -> bool {
    occupied == 0 || shift_iter(t, i, k) & occupied != 0
}

/// Whether repeated shifting of `t` by `i` ever reaches an occupied tag.
pub open spec fn shift_search_ends(t: u32, i: int, occupied: u32) -> bool {
    exists|k: nat| k >= 1 && #[trigger] shift_stops(t, i, occupied, k)
}

proof fn lemma_unit_shift_up_hits(t: u32, m: u32)
    by (bit_vector)
    requires
        t & 0x3ff != 0,
        m & 0x3ff != 0,
        m & !0x3ffu32 == 0,
    ensures
        ({
            let s1 = (t << 1) | (t >> 8);
            let s2 = (s1 << 1) | (s1 >> 8);
            let s3 = (s2 << 1) | (s2 >> 8);
            let s4 = (s3 << 1) | (s3 >> 8);
            let s5 = (s4 << 1) | (s4 >> 8);
            let s6 = (s5 << 1) | (s5 >> 8);
            let s7 = (s6 << 1) | (s6 >> 8);
            let s8 = (s7 << 1) | (s7 >> 8);
            let s9 = (s8 << 1) | (s8 >> 8);
            let s10 = (s9 << 1) | (s9 >> 8);
            let s11 = (s10 << 1) | (s10 >> 8);
            s1 & m != 0 || s2 & m != 0 || s3 & m != 0 || s4 & m != 0 || s5 & m != 0 || s6 & m
                != 0 || s7 & m != 0 || s8 & m != 0 || s9 & m != 0 || s10 & m != 0 || s11 & m != 0
        }),
{
}

proof fn lemma_unit_shift_down_hits(t: u32, m: u32)
    by (bit_vector)
    requires
        t & 0x3ff != 0,
        m & 0x3ff != 0,
        m & !0x3ffu32 == 0,
    ensures
        ({
            let s1 = (t >> 1) | (t << 8);
            let s2 = (s1 >> 1) | (s1 << 8);
            let s3 = (s2 >> 1) | (s2 << 8);
            let s4 = (s3 >> 1) | (s3 << 8);
            let s5 = (s4 >> 1) | (s4 << 8);
            let s6 = (s5 >> 1) | (s5 << 8);
            let s7 = (s6 >> 1) | (s6 << 8);
            let s8 = (s7 >> 1) | (s7 << 8);
            let s9 = (s8 >> 1) | (s8 << 8);
            let s10 = (s9 >> 1) | (s9 << 8);
            let s11 = (s10 >> 1) | (s10 << 8);
            s1 & m != 0 || s2 & m != 0 || s3 & m != 0 || s4 & m != 0 || s5 & m != 0 || s6 & m
                != 0 || s7 & m != 0 || s8 & m != 0 || s9 & m != 0 || s10 & m != 0 || s11 & m != 0
        }),
{
}

/// Shifts `t` by `i` at most `limit` times, stopping at the first tag set
/// that meets `occupied` (or after one shift when nothing is occupied).
/// `None` means no shift within `limit` steps met an occupied tag.
pub fn shift_search_within(t: u32, i: i32, occupied: u32, limit: u32) -> (r: Option<u32>)
    requires
        -9 <= i <= 9,
    ensures
        match r {
            Some(v) => exists|k: nat|
                1 <= k <= limit && v == shift_iter(t, i as int, k) && #[trigger] shift_stops(
                    t,
                    i as int,
                    occupied,
                    k,
                ) && forall|j: nat| 1 <= j < k ==> !#[trigger] shift_stops(t, i as int, occupied, j),
            None => forall|j: nat| 1 <= j <= limit ==> !#[trigger] shift_stops(t, i as int, occupied, j),
        },
{
    let mut shifted = t;
    let mut done: u32 = 0;
    while done < limit
        invariant
            -9 <= i <= 9,
            done <= limit,
            shifted == shift_iter(t, i as int, done as nat),
            forall|j: nat| 1 <= j <= done ==> !#[trigger] shift_stops(t, i as int, occupied, j),
        decreases limit - done,
    {
        shifted = shift(shifted, i);
        done = done + 1;
        if occupied == 0 || shifted & occupied != 0 {
            assert(shift_stops(t, i as int, occupied, done as nat));
            return Some(shifted);
        }
        assert(!shift_stops(t, i as int, occupied, done as nat));
    }
    None
}

/// Shifting by one place finds an occupied tag within eleven steps.
pub proof fn lemma_unit_shift_found_within(t: u32, i: int, occupied: u32)
    requires
        i == 1 || i == -1,
        t & TAGMASK != 0,
        occupied & !TAGMASK == 0,
    ensures
        exists|k: nat| 1 <= k <= 11 && #[trigger] shift_stops(t, i, occupied, k),
{
    if occupied == 0 {
        assert(shift_stops(t, i, occupied, 1));
        return;
    }
    assert(occupied & !0x3ffu32 == 0 && occupied != 0 ==> occupied & 0x3ff != 0) by (bit_vector);
    reveal_with_fuel(shift_iter, 12);
    if i == 1 {
        lemma_unit_shift_up_hits(t, occupied);
    } else {
        lemma_unit_shift_down_hits(t, occupied);
    }
    if shift_stops(t, i, occupied, 1) {
    } else if shift_stops(t, i, occupied, 2) {
    } else if shift_stops(t, i, occupied, 3) {
    } else if shift_stops(t, i, occupied, 4) {
    } else if shift_stops(t, i, occupied, 5) {
    } else if shift_stops(t, i, occupied, 6) {
    } else if shift_stops(t, i, occupied, 7) {
    } else if shift_stops(t, i, occupied, 8) {
    } else if shift_stops(t, i, occupied, 9) {
    } else if shift_stops(t, i, occupied, 10) {
    } else {
        assert(shift_stops(t, i, occupied, 11));
    }
}

/// The pair of tag sets of a monitor and which one is shown.
pub struct TagSets {
    pub tagset0: u32,
    pub tagset1: u32,
    pub seltags: usize,
}

/// The shown tag set.
pub open spec fn current(s: TagSets) -> u32 {
    if s.seltags == 0 { s.tagset0 } else { s.tagset1 }
}

/// Both tag sets are non-empty and use only existing tags, and the selector is 0 or 1.
pub open spec fn tagsets_ok(s: TagSets) -> bool {
    &&& s.seltags < 2
    &&& s.tagset0 != 0 && s.tagset1 != 0
    &&& s.tagset0 & !TAGMASK == 0 && s.tagset1 & !TAGMASK == 0
}

/// `s` with the shown tag set replaced by `t`.
pub open spec fn with_current(s: TagSets, t: u32) -> TagSets {
    if s.seltags == 0 { TagSets { tagset0: t, ..s } } else { TagSets { tagset1: t, ..s } }
}

/// Viewing `ui`: nothing changes when it is the shown tag set; otherwise the
/// other tag set is shown, first set to `ui` when `ui` names some tag (so
/// viewing nothing switches back to the previously shown tags).
pub open spec fn view_result(s: TagSets, ui: u32) -> TagSets {
    let m = ui & TAGMASK;
    if m == current(s) {
        s
    } else {
        let flipped = TagSets { seltags: (1 - s.seltags) as usize, ..s };
        if m != 0 { with_current(flipped, m) } else { flipped }
    }
}

/// Toggling the tags `ui` in the shown set, unless that would leave it empty.
pub open spec fn toggleview_result(s: TagSets, ui: u32) -> TagSets {
    let n = current(s) ^ (ui & TAGMASK);
    if n != 0 { with_current(s, n) } else { s }
}

/// A client's tags after `tag(ui)`: `ui` when it names some tag.
pub open spec fn tag_result(tags: u32, ui: u32) -> u32 {
    if ui & TAGMASK != 0 { ui & TAGMASK } else { tags }
}

/// A client's tags after `toggletag(ui)`, unless that would leave none.
pub open spec fn toggletag_result(tags: u32, ui: u32) -> u32 {
    let n = tags ^ (ui & TAGMASK);
    if n != 0 { n } else { tags }
}

/// A client's tags after swapping the shown tag `cur` with `new`.
pub open spec fn swap_result(tags: u32, cur: u32, new: u32) -> u32 {
    let t = if tags & new != 0 || tags & cur != 0 { tags ^ cur ^ new } else { tags };
    if t == 0 { new } else { t }
}

/// Viewing and toggling keep both tag sets non-empty and within the tag mask.
pub proof fn lemma_view_keeps_ok(s: TagSets, ui: u32)
    requires
        tagsets_ok(s),
    ensures
        tagsets_ok(view_result(s, ui)),
        tagsets_ok(toggleview_result(s, ui)),
{
    let m = ui & TAGMASK;
    assert(m & !0x3ffu32 == 0) by (bit_vector)
        requires
            m == ui & 0x3ff,
    ;
    let c = current(s);
    let n = c ^ m;
    assert(n & !0x3ffu32 == 0) by (bit_vector)
        requires
            n == c ^ m,
            c & !0x3ffu32 == 0,
            m & !0x3ffu32 == 0,
    ;
}

/// Viewing other tags and then viewing nothing shows the tags shown before again.
pub proof fn lemma_view_then_back(s: TagSets, ui: u32)
    requires
        tagsets_ok(s),
        ui & TAGMASK != current(s),
    ensures
        current(view_result(view_result(s, ui), 0)) == current(s),
{
    lemma_view_keeps_ok(s, ui);
    assert(0u32 & 0x3ff == 0) by (bit_vector);
}

/// Viewing the same tags twice is the same as viewing them once.
pub proof fn lemma_view_idempotent(s: TagSets, ui: u32)
    requires
        tagsets_ok(s),
        ui & TAGMASK != 0,
    ensures
        view_result(view_result(s, ui), ui) == view_result(s, ui),
{
}

/// Toggling the same tags twice restores the tag sets.
pub proof fn lemma_toggleview_twice(s: TagSets, ui: u32)
    requires
        tagsets_ok(s),
    ensures
        toggleview_result(toggleview_result(s, ui), ui) == s,
{
    let m = ui & TAGMASK;
    let c = current(s);
    assert((c ^ m) ^ m == c) by (bit_vector);
    assert(c ^ m == 0 ==> c == m) by (bit_vector);
}

/// Toggling a client's tags twice restores them; both toggling and tagging
/// keep a non-empty tag set non-empty.
pub proof fn lemma_toggletag_twice(tags: u32, ui: u32)
    requires
        tags != 0,
    ensures
        toggletag_result(toggletag_result(tags, ui), ui) == tags,
        toggletag_result(tags, ui) != 0,
        tag_result(tags, ui) != 0,
{
    let m = ui & TAGMASK;
    assert((tags ^ m) ^ m == tags) by (bit_vector);
    assert(tags ^ m == 0 ==> tags == m) by (bit_vector);
}

/// Tagging replaces a client's tags: when `ui` names some tag, the client
/// ends with exactly the tags `ui` names, whatever tags it had before (none
/// of its old tags outside `ui` stays); when `ui` names none, it keeps its tags.
pub proof fn lemma_tag_replaces(tags: u32, other: u32, ui: u32)
    ensures
        ui & TAGMASK != 0 ==> tag_result(tags, ui) == tag_result(other, ui),
        ui & TAGMASK != 0 ==> tag_result(tags, ui) & !ui == 0 && tag_result(tags, ui) & !TAGMASK == 0,
        ui & TAGMASK != 0 ==> (ui & TAGMASK) & !tag_result(tags, ui) == 0,
        ui & TAGMASK != 0 ==> tags & !ui & tag_result(tags, ui) == 0,
        ui & TAGMASK == 0 ==> tag_result(tags, ui) == tags,
{
    let r = ui & 0x3ffu32;
    assert(r & !ui == 0 && r & !0x3ffu32 == 0 && (ui & 0x3ffu32) & !r == 0 && tags & !ui & r == 0) by (bit_vector)
        requires
            r == ui & 0x3ffu32,
    ;
}

/// Swapping the shown tag with another tag twice restores a client's tags,
/// unless it had both tags (the first swap leaves it with neither).
pub proof fn lemma_swap_twice(tags: u32, cur: u32, new: u32)
    requires
        tags != 0,
        cur != 0 && cur & ((cur - 1) as u32) == 0,
        new != 0 && new & ((new - 1) as u32) == 0,
        cur != new,
        tags & cur == 0 || tags & new == 0,
    ensures
        swap_result(swap_result(tags, cur, new), cur, new) == tags,
{
    let once = swap_result(tags, cur, new);
    assert(swap_result(once, cur, new) == tags) by (bit_vector)
        requires
            tags != 0,
            cur != 0 && cur & ((cur - 1) as u32) == 0,
            new != 0 && new & ((new - 1) as u32) == 0,
            cur != new,
            tags & cur == 0 || tags & new == 0,
            once == (if tags & new != 0 || tags & cur != 0 {
                if tags ^ cur ^ new == 0 { new } else { tags ^ cur ^ new }
            } else {
                if tags == 0 { new } else { tags }
            }),
    ;
}

/// Shifting a set of tags shifts each of its tags: the shift of a union is
/// the union of the shifts, and the empty set stays empty.
pub proof fn lemma_shift_union(a: u32, b: u32, i: int)
    requires
        -9 <= i <= 9,
    ensures
        spec_shift(a | b, i) == spec_shift(a, i) | spec_shift(b, i),
        spec_shift(0, i) == 0,
{
    let (k, r) = if i > 0 { (i as u32, (9 - i) as u32) } else { ((-i) as u32, (9 + i) as u32) };
    if i > 0 {
        assert(((a | b) << k) | ((a | b) >> r) == ((a << k) | (a >> r)) | ((b << k) | (b >> r))) by (bit_vector);
        assert((0u32 << k) | (0u32 >> r) == 0) by (bit_vector);
    } else {
        assert(((a | b) >> k) | ((a | b) << r) == ((a >> k) | (a << r)) | ((b >> k) | (b << r))) by (bit_vector);
        assert((0u32 >> k) | (0u32 << r) == 0) by (bit_vector);
    }
}

/// Each scratchpad has a tag bit of its own: the bits of two different
/// scratchpads never meet, and a scratchpad's bit lies within the
/// scratchpad tags and within all tags.
pub proof fn lemma_sptag_own_bit(i: u32, j: u32)
    requires
        i < 32 - NUM_TAGS,
        j < 32 - NUM_TAGS,
    ensures
        i != j ==> spec_sptag(i) & spec_sptag(j) == 0,
        spec_sptag(i) != 0,
        i < NUM_SCRATCHPADS ==> spec_sptag(i) & SPTAGMASK == spec_sptag(i),
        i < NUM_SCRATCHPADS ==> spec_sptag(i) & TAGMASK == spec_sptag(i),
{
    assert(i != j ==> (1u32 << (9 + i)) & (1u32 << (9 + j)) == 0) by (bit_vector)
        requires
            i < 23,
            j < 23,
    ;
    assert((1u32 << (9 + i)) != 0) by (bit_vector)
        requires
            i < 23,
    ;
    assert(i < 1 ==> (1u32 << (9 + i)) & 0x200 == (1u32 << (9 + i)) && (1u32 << (9 + i)) & 0x3ff == (1u32 << (9 + i)))
        by (bit_vector)
        requires
            i < 23,
    ;
}

/// Shifting a non-empty tag set one place at a time always reaches an
/// occupied tag: the search for one ends.
pub proof fn lemma_unit_shift_search_ends(t: u32, i: int, occupied: u32)
    requires
        i == 1 || i == -1,
        t & TAGMASK != 0,
        occupied & !TAGMASK == 0,
    ensures
        shift_search_ends(t, i, occupied),
{
    lemma_unit_shift_found_within(t, i, occupied);
}

} // verus!
