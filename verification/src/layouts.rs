//! Arranging the tiled clients of a monitor: the gaps around and between
//! them, and where each one goes under the layouts that divide the window
//! area by whole numbers (monocle and the grids). Each layout gives, for the
//! tiled clients in order, the geometry to request for them.
use vstd::prelude::*;
use crate::wm::Wm;
use crate::geom::{tdiv, imin, iabs};
use crate::config::FORCE_VSPLIT;

verus! {

/// A requested geometry, in exact integers.
#[derive(Clone, Copy, PartialEq, Eq, Structural, Debug)]
pub struct Rect {
    pub x: i64,
    pub y: i64,
    pub w: i64,
    pub h: i64,
}

/// The window area of a monitor.
#[derive(Clone, Copy)]
pub struct Area {
    pub wx: i32,
    pub wy: i32,
    pub ww: i32,
    pub wh: i32,
}

/// The outer (`oh`, `ov`) and inner (`ih`, `iv`) gaps in effect, and the
/// number `n` of tiled clients.
#[derive(Clone, Copy)]
pub struct Gaps {
    pub oh: i32,
    pub ov: i32,
    pub ih: i32,
    pub iv: i32,
    pub n: u32,
}

/// Whether `v` is within the range the layouts work with (far beyond any
/// screen and gap).
pub open spec fn small(v: int) -> bool {
    -0x10_0000 <= v <= 0x10_0000
}

/// Tests `small`.
pub fn is_small(v: i64) -> (r: bool)
    ensures
        r == small(v as int),
{
    -0x10_0000 <= v && v <= 0x10_0000
}

/// Whether the area and gaps are within range, with at most `0x1_0000`
/// clients whose borders are within range.
pub open spec fn layout_ok(a: Area, g: Gaps, bws: Seq<i32>) -> bool {
    &&& small(a.wx as int) && small(a.wy as int) && small(a.ww as int) && small(a.wh as int)
    &&& small(g.oh as int) && small(g.ov as int) && small(g.ih as int) && small(g.iv as int)
    &&& bws.len() <= 0x1_0000
    &&& forall|i: int| 0 <= i < bws.len() ==> small(#[trigger] bws[i] as int)
}

impl Wm {
    /// Whether client `x` takes part in tiling; see `tiled`.
    pub open spec fn tiled_pred(self) -> spec_fn(usize) -> bool {
        |x: usize| self.tiled(x)
    }

    /// The tiled clients of monitor `m`, in tiling order.
    pub fn tiled_clients(&self, m: usize) -> (r: Vec<usize>)
        requires
            self.wf(),
            m < self.mons@.len(),
        ensures
            r@ == self.mons@[m as int].clients@.filter(self.tiled_pred()),
            forall|i: int| 0 <= i < r@.len() ==> #[trigger] r@[i] < self.clients@.len(),
    {
        let ghost s = self.mons@[m as int].clients@;
        let mut r: Vec<usize> = Vec::new();
        let mut i: usize = 0;
        proof {
            assert(self.mon_ok(m as int));
            assert(s.take(0) =~= Seq::<usize>::empty());
            reveal(Seq::filter);
        }
        while i < self.mons[m].clients.len()
            invariant
                self.wf(),
                m < self.mons@.len(),
                s == self.mons@[m as int].clients@,
                i <= s.len(),
                r@ == s.take(i as int).filter(self.tiled_pred()),
                forall|j: int| 0 <= j < r@.len() ==> #[trigger] r@[j] < self.clients@.len(),
            decreases s.len() - i,
        {
            let x = self.mons[m].clients[i];
            proof {
                assert(self.mon_ok(m as int));
                assert(s.contains(x));
                assert(s.take(i + 1).drop_last() =~= s.take(i as int));
                assert(s.take(i + 1).last() == x);
                reveal(Seq::filter);
            }
            if self.is_visible(x) && !self.clients[x].isfloating {
                r.push(x);
            }
            i = i + 1;
        }
        proof {
            assert(s.take(i as int) =~= s);
        }
        r
    }

    /// The gaps in effect on monitor `m`, with gaps enabled or not and with
    /// smart gaps (no outer gaps around a lone client) or not, and the number
    /// of tiled clients.
    pub fn getgaps(&self, m: usize, enable: bool, smart: bool) -> (g: Gaps)
        requires
            self.wf(),
            m < self.mons@.len(),
            self.mons@[m as int].clients@.len() <= u32::MAX,
        ensures
            ({
                let mon = self.mons@[m as int];
                let n = mon.clients@.filter(self.tiled_pred()).len();
                let ie: int = if enable { 1 } else { 0 };
                let oe: int = if smart && n == 1 { 0 } else { ie };
                &&& g.n == n
                &&& g.oh == mon.gappoh * oe && g.ov == mon.gappov * oe
                &&& g.ih == mon.gappih * ie && g.iv == mon.gappiv * ie
            }),
    {
        let t = self.tiled_clients(m);
        proof {
            self.mons@[m as int].clients@.lemma_filter_len(self.tiled_pred());
        }
        let n = t.len() as u32;
        let ie: i32 = if enable { 1 } else { 0 };
        let oe: i32 = if smart && n == 1 { 0 } else { ie };
        let mon = &self.mons[m];
        Gaps { oh: mon.gappoh * oe, ov: mon.gappov * oe, ih: mon.gappih * ie, iv: mon.gappiv * ie, n }
    }
}

/// Monocle: every tiled client takes the whole window area.
pub open spec fn monocle_rect(a: Area, bw: int) -> Rect {
    Rect { x: a.wx as i64, y: a.wy as i64, w: (a.ww - 2 * bw) as i64, h: (a.wh - 2 * bw) as i64 }
}

/// The geometries of the monocle layout for tiled clients with borders `bws`.
pub fn monocle(a: Area, bws: &Vec<i32>) -> (r: Vec<Rect>)
    requires
        forall|i: int| 0 <= i < bws@.len() ==> small(#[trigger] bws@[i] as int),
        small(a.ww as int) && small(a.wh as int),
    ensures
        r@.len() == bws@.len(),
        forall|i: int| 0 <= i < bws@.len() ==> #[trigger] r@[i] == monocle_rect(a, bws@[i] as int),
{
    let mut r: Vec<Rect> = Vec::new();
    let mut i: usize = 0;
    while i < bws.len()
        invariant
            forall|k: int| 0 <= k < bws@.len() ==> small(#[trigger] bws@[k] as int),
            small(a.ww as int) && small(a.wh as int),
            i <= bws@.len(),
            r@.len() == i,
            forall|k: int| 0 <= k < i ==> #[trigger] r@[k] == monocle_rect(a, bws@[k] as int),
        decreases bws@.len() - i,
    {
        let bw = bws[i] as i64;
        r.push(Rect { x: a.wx as i64, y: a.wy as i64, w: a.ww as i64 - 2 * bw, h: a.wh as i64 - 2 * bw });
        i = i + 1;
    }
    r
}

/// The decimal digits of `n`, as ASCII, most significant first.
pub open spec fn decimal(n: nat) -> Seq<u8>
    decreases n,
{
    if n < 10 {
        seq![(48 + n) as u8]
    } else {
        decimal(n / 10).push((48 + n % 10) as u8)
    }
}

/// Appends the decimal digits of `n` to `v`.
pub fn push_decimal(v: &mut Vec<u8>, n: u64)
    ensures
        final(v)@ == old(v)@ + decimal(n as nat),
    decreases n,
{
    if n < 10 {
        v.push(48u8 + n as u8);
    } else {
        push_decimal(v, n / 10);
        v.push(48u8 + (n % 10) as u8);
    }
    proof {
        if n >= 10 {
            assert(decimal(n as nat) == decimal((n / 10) as nat).push((48 + n % 10) as u8));
        }
    }
}

/// The layout symbol `prefix`, the decimal digits of `n`, then `suffix`.
pub open spec fn counted_symbol(prefix: Seq<u8>, n: nat, suffix: Seq<u8>) -> Seq<u8> {
    prefix + decimal(n) + suffix
}

impl Wm {
    /// The layout symbol the monocle layout shows on monitor `m`: the number
    /// of its shown clients in square brackets, or `None` (the symbol stays
    /// as it is) when none is shown.
    pub fn monocle_symbol(&self, m: usize) -> (r: Option<Vec<u8>>)
        requires
            self.wf(),
            m < self.mons@.len(),
        ensures
            ({
                let n = self.count_visible(self.mons@[m as int].clients@);
                match r {
                    Some(v) => n > 0 && v@ == counted_symbol(seq![91u8], n, seq![93u8]),
                    None => n == 0,
                }
            }),
    {
        let k = self.mons[m].clients.len();
        let n = self.count_visible_prefix(m, k);
        proof {
            assert(self.mons@[m as int].clients@.take(k as int) =~= self.mons@[m as int].clients@);
        }
        if n == 0 {
            return None;
        }
        let mut v: Vec<u8> = Vec::new();
        v.push(91u8);
        push_decimal(&mut v, n);
        v.push(93u8);
        proof {
            assert(v@ =~= counted_symbol(seq![91u8], n as nat, seq![93u8]));
        }
        Some(v)
    }
}

/// The layout symbol the deck layout shows when `stacked` clients share the
/// stack area: `D` and a space before their number, or `None` (the symbol
/// stays as it is) when there are none.
pub fn deck_symbol(stacked: i64) -> (r: Option<Vec<u8>>)
    ensures
        match r {
            Some(v) => stacked > 0 && v@ == counted_symbol(seq![68u8, 32u8], stacked as nat, Seq::empty()),
            None => stacked <= 0,
        },
{
    if stacked <= 0 {
        return None;
    }
    let mut v: Vec<u8> = Vec::new();
    v.push(68u8);
    v.push(32u8);
    push_decimal(&mut v, stacked as u64);
    proof {
        assert(v@ =~= counted_symbol(seq![68u8, 32u8], stacked as nat, Seq::empty()));
    }
    Some(v)
}

/// The number of rows of the grid for `n` clients, counting up from `r`:
/// the first count whose square holds them all, not going past half of them
/// and one more.
pub open spec fn grid_rows_from(r: int, n: int) -> int
    decreases n / 2 + 1 - r,
{
    if r > n / 2 || r * r >= n || r < 0 {
        r
    } else {
        grid_rows_from(r + 1, n)
    }
}

/// The number of rows of the grid for `n` clients.
pub open spec fn grid_rows(n: int) -> int {
    grid_rows_from(0, n)
}

/// The number of columns of the grid for `n` clients: one less than the
/// rows when that is still enough.
pub open spec fn grid_cols(n: int) -> int {
    let rows = grid_rows(n);
    if rows != 0 && (rows - 1) * rows >= n { rows - 1 } else { rows }
}

/// The geometry of the `i`-th of `n` clients (border `bw`) in the grid
/// layout: filled column by column, top to bottom; the pixels that do not
/// divide evenly go one each to the first rows and columns.
pub open spec fn grid_rect(i: int, n: int, a: Area, g: Gaps, bw: int) -> Rect {
    let rows = grid_rows(n);
    let cols = grid_cols(n);
    let hn = a.wh - 2 * g.oh - g.ih * (rows - 1);
    let wn = a.ww - 2 * g.ov - g.iv * (cols - 1);
    let ch = tdiv(hn, if rows != 0 { rows } else { 1 });
    let cw = tdiv(wn, if cols != 0 { cols } else { 1 });
    let chrest = hn - ch * rows;
    let cwrest = wn - cw * cols;
    let cc = i / rows;
    let cr = i % rows;
    Rect {
        x: (a.wx + g.ov + cc * (cw + g.iv) + imin(cc, cwrest)) as i64,
        y: (a.wy + g.oh + cr * (ch + g.ih) + imin(cr, chrest)) as i64,
        w: (cw + (if cc < cwrest { 1int } else { 0 }) - 2 * bw) as i64,
        h: (ch + (if cr < chrest { 1int } else { 0 }) - 2 * bw) as i64,
    }
}

/// Rows of the grid for `n` clients; see `grid_rows`.
fn grid_rows_exec(n: i64) -> (r: i64)
    requires
        0 <= n <= 0x1_0000,
    ensures
        r == grid_rows(n as int),
        0 <= r <= n / 2 + 1,
        n > 0 ==> r >= 1,
        r * r >= n,
{
    let mut r: i64 = 0;
    while r <= n / 2
        invariant
            0 <= n <= 0x1_0000,
            0 <= r <= n / 2 + 1,
            grid_rows(n as int) == grid_rows_from(r as int, n as int),
            r == 0 || (r - 1) * (r - 1) < n,
        decreases n / 2 + 1 - r,
    {
        proof {
            assert(r * r <= 0x1_0000_0000) by (nonlinear_arith)
                requires
                    0 <= r <= 0x8001,
            ;
        }
        if r * r >= n {
            proof {
                if r == 0 {
                    assert(r * r == 0);
                }
            }
            return r;
        }
        r = r + 1;
    }
    proof {
        assert(r * r >= n) by (nonlinear_arith)
            requires
                r == n / 2 + 1,
                0 <= n,
        ;
    }
    r
}

/// Bounds on a product from bounds on its factors.
proof fn lemma_mul_bound(a: int, b: int, ba: int, bb: int)
    requires
        iabs(a) <= ba,
        iabs(b) <= bb,
    ensures
        iabs(a * b) <= ba * bb,
{
    assert(iabs(a * b) == iabs(a) * iabs(b)) by (nonlinear_arith);
    assert(iabs(a) * iabs(b) <= ba * bb) by (nonlinear_arith)
        requires
            0 <= iabs(a) <= ba,
            0 <= iabs(b) <= bb,
    ;
}

/// Truncating division by a positive number does not grow a number, and
/// the remainder it leaves is smaller than the divisor.
proof fn lemma_tdiv_bounds(a: int, b: int)
    requires
        b > 0,
    ensures
        iabs(tdiv(a, b)) <= iabs(a),
        iabs(a - tdiv(a, b) * b) < b,
{
    let q = iabs(a) / b;
    vstd::arithmetic::div_mod::lemma_fundamental_div_mod(iabs(a), b);
    vstd::arithmetic::div_mod::lemma_mod_pos_bound(iabs(a), b);
    assert(0 <= q <= iabs(a)) by (nonlinear_arith)
        requires
            iabs(a) == b * q + iabs(a) % b,
            0 <= iabs(a) % b < b,
            b > 0,
    ;
    assert(iabs(b) == b);
    if a >= 0 {
        assert(tdiv(a, b) == q);
        assert(a - q * b == a % b) by (nonlinear_arith)
            requires
                a == b * q + a % b,
        ;
    } else {
        assert(tdiv(a, b) == -q);
        assert(a - (-q) * b == -((-a) % b)) by (nonlinear_arith)
            requires
                -a == b * q + (-a) % b,
        ;
    }
}

/// The geometries of the grid layout for `g.n` tiled clients with borders `bws`.
#[verifier::rlimit(40)]
pub fn grid(a: Area, g: Gaps, bws: &Vec<i32>) -> (r: Vec<Rect>)
    requires
        layout_ok(a, g, bws@),
        g.n == bws@.len(),
    ensures
        r@.len() == bws@.len(),
        forall|i: int| 0 <= i < bws@.len() ==> #[trigger] r@[i] == grid_rect(i, g.n as int, a, g, bws@[i] as int),
{
    let n = g.n as i64;
    let rows = grid_rows_exec(n);
    proof {
        assert((rows - 1) * rows <= 0x1_0000_0000) by (nonlinear_arith)
            requires
                0 <= rows <= 0x8001,
        ;
    }
    let cols = if rows != 0 && (rows - 1) * rows >= n { rows - 1 } else { rows };
    let oh = g.oh as i64;
    let ov = g.ov as i64;
    let ih = g.ih as i64;
    let iv = g.iv as i64;
    proof {
        lemma_mul_bound(ih as int, rows - 1, 0x10_0000, 0x1_0000);
        lemma_mul_bound(iv as int, cols - 1, 0x10_0000, 0x1_0000);
    }
    let hn = a.wh as i64 - 2 * oh - ih * (rows - 1);
    let wn = a.ww as i64 - 2 * ov - iv * (cols - 1);
    let ch = hn / (if rows != 0 { rows } else { 1 });
    let cw = wn / (if cols != 0 { cols } else { 1 });
    proof {
        lemma_tdiv_bounds(hn as int, if rows != 0 { rows as int } else { 1 });
        lemma_tdiv_bounds(wn as int, if cols != 0 { cols as int } else { 1 });
        lemma_mul_bound(ch as int, rows as int, 0x1000_0000_0000, 0x1_0000);
        lemma_mul_bound(cw as int, cols as int, 0x1000_0000_0000, 0x1_0000);
    }
    let chrest = hn - ch * rows;
    let cwrest = wn - cw * cols;
    let mut r: Vec<Rect> = Vec::new();
    let mut i: usize = 0;
    while i < bws.len()
        invariant
            layout_ok(a, g, bws@),
            g.n == bws@.len(),
            n == g.n,
            rows == grid_rows(n as int),
            cols == grid_cols(n as int),
            n > 0 ==> rows >= 1,
            0 <= rows <= 0x8001,
            oh == g.oh && ov == g.ov && ih == g.ih && iv == g.iv,
            hn == a.wh - 2 * g.oh - g.ih * (rows - 1),
            wn == a.ww - 2 * g.ov - g.iv * (cols - 1),
            ch == tdiv(hn as int, if rows != 0 { rows as int } else { 1 }),
            cw == tdiv(wn as int, if cols != 0 { cols as int } else { 1 }),
            iabs(ch as int) <= 0x1000_0000_0000 && iabs(cw as int) <= 0x1000_0000_0000,
            iabs(chrest as int) <= 0x1000_0000_0000 && iabs(cwrest as int) <= 0x1000_0000_0000,
            chrest == hn - ch * rows,
            cwrest == wn - cw * cols,
            i <= bws@.len(),
            r@.len() == i,
            forall|k: int| 0 <= k < i ==> #[trigger] r@[k] == grid_rect(k, g.n as int, a, g, bws@[k] as int),
        decreases bws@.len() - i,
    {
        let ii = i as i64;
        let cc = ii / rows;
        let cr = ii % rows;
        proof {
            vstd::arithmetic::div_mod::lemma_mod_pos_bound(ii as int, rows as int);
            assert(0 <= cc <= ii) by (nonlinear_arith)
                requires
                    rows >= 1,
                    0 <= ii,
                    cc == ii / rows,
            ;
            lemma_mul_bound(cc as int, cw + iv, 0x1_0000, 0x1000_0010_0000);
            lemma_mul_bound(cr as int, ch + ih, 0x1_0000, 0x1000_0010_0000);
            assert(small(bws@[i as int] as int));
        }
        let bw = bws[i] as i64;
        let x = a.wx as i64 + ov + cc * (cw + iv) + (if cc < cwrest { cc } else { cwrest });
        let y = a.wy as i64 + oh + cr * (ch + ih) + (if cr < chrest { cr } else { chrest });
        let w = cw + (if cc < cwrest { 1 } else { 0 }) - 2 * bw;
        let h = ch + (if cr < chrest { 1 } else { 0 }) - 2 * bw;
        r.push(Rect { x, y, w, h });
        i = i + 1;
    }
    r
}

/// Counting rows up from `r` for `n` clients ends at the least count whose
/// square holds them all.
proof fn lemma_grid_rows_from(r: int, n: int)
    requires
        1 <= n,
        0 <= r <= n / 2 + 1,
        r == 0 || (r - 1) * (r - 1) < n,
    ensures
        1 <= grid_rows_from(r, n) <= n / 2 + 1,
        grid_rows_from(r, n) * grid_rows_from(r, n) >= n,
        (grid_rows_from(r, n) - 1) * (grid_rows_from(r, n) - 1) < n,
    decreases n / 2 + 1 - r,
{
    if r > n / 2 {
        let k = n / 2;
        assert(r * r >= n) by (nonlinear_arith)
            requires
                r == k + 1,
                n <= 2 * k + 1,
                k >= 0,
        ;
    } else if r * r >= n {
        if r == 0 {
            assert(r * r == 0);
        }
    } else {
        lemma_grid_rows_from(r + 1, n);
    }
}

/// The shape of the grid for `n` clients: at least one row and one column,
/// a cell for every client, no column left without a client, and no more
/// rows than clients (the first column fills every row).
pub proof fn lemma_grid_shape(n: int)
    requires
        1 <= n,
    ensures
        grid_rows(n) >= 1 && grid_cols(n) >= 1,
        grid_cols(n) * grid_rows(n) >= n,
        (grid_cols(n) - 1) * grid_rows(n) < n,
        grid_rows(n) <= n,
{
    lemma_grid_rows_from(0, n);
    let r = grid_rows(n);
    assert(r <= n) by (nonlinear_arith)
        requires
            1 <= n,
            r <= n / 2 + 1,
    ;
    if r != 0 && (r - 1) * r >= n {
        assert(r >= 2) by (nonlinear_arith)
            requires
                r >= 1,
                (r - 1) * r >= n,
                n >= 1,
        ;
        assert((r - 2) * r < n) by (nonlinear_arith)
            requires
                (r - 1) * (r - 1) < n,
        ;
    } else {
        assert(r * r >= n);
    }
}

/// Cells of one line: `k` cells with `gap` between them share `len`, each
/// `tdiv(len - gap * (k - 1), k)` long, the pixels left over going one each
/// to the first cells. The last cell ends `len` after the start.
proof fn lemma_cells_end(len: int, gap: int, k: int)
    requires
        k >= 1,
        len - gap * (k - 1) >= 0,
    ensures
        ({
            let sn = len - gap * (k - 1);
            let cs = tdiv(sn, k);
            let rest = sn - cs * k;
            &&& (k - 1) * (cs + gap) + imin(k - 1, rest) + cs + (if k - 1 < rest { 1int } else { 0 }) == len
            &&& 0 <= rest < k
        }),
{
    let sn = len - gap * (k - 1);
    let cs = tdiv(sn, k);
    assert(cs == sn / k);
    vstd::arithmetic::div_mod::lemma_fundamental_div_mod(sn, k);
    vstd::arithmetic::div_mod::lemma_mod_pos_bound(sn, k);
    let rest = sn - cs * k;
    assert(rest == sn % k) by (nonlinear_arith)
        requires
            sn == k * (sn / k) + sn % k,
            cs == sn / k,
            rest == sn - cs * k,
    ;
    assert((k - 1) * (cs + gap) + cs == cs * k + gap * (k - 1)) by (nonlinear_arith);
}

/// The grid spans the window area: with room for its columns and rows, the
/// last client ends (border included) at the right edge of the area less
/// the outer gap, and the last client of the first column at its bottom
/// edge less the outer gap; the first client starts at the top-left corner
/// inside the outer gaps.
pub proof fn lemma_grid_fills_area(n: int, a: Area, g: Gaps, bw: int)
    requires
        1 <= n <= 0x1_0000,
        small(a.wx as int) && small(a.wy as int) && small(a.ww as int) && small(a.wh as int),
        small(g.oh as int) && small(g.ov as int) && small(g.ih as int) && small(g.iv as int),
        small(bw),
        a.ww - 2 * g.ov - g.iv * (grid_cols(n) - 1) >= 0,
        a.wh - 2 * g.oh - g.ih * (grid_rows(n) - 1) >= 0,
    ensures
        ({
            let last = grid_rect(n - 1, n, a, g, bw);
            last.x + last.w + 2 * bw == a.wx + a.ww - g.ov
        }),
        ({
            let bottom = grid_rect(grid_rows(n) - 1, n, a, g, bw);
            bottom.y + bottom.h + 2 * bw == a.wy + a.wh - g.oh
        }),
        grid_rect(0, n, a, g, bw).x == a.wx + g.ov && grid_rect(0, n, a, g, bw).y == a.wy + g.oh,
{
    lemma_grid_shape(n);
    let rows = grid_rows(n);
    let cols = grid_cols(n);
    let hn = a.wh - 2 * g.oh - g.ih * (rows - 1);
    let wn = a.ww - 2 * g.ov - g.iv * (cols - 1);
    let ch = tdiv(hn, rows);
    let cw = tdiv(wn, cols);
    assert(cols <= rows) by {
        assert(grid_cols(n) == rows || grid_cols(n) == rows - 1);
    }
    lemma_cells_end(a.ww - 2 * g.ov, g.iv as int, cols);
    lemma_cells_end(a.wh - 2 * g.oh, g.ih as int, rows);
    // The last client is in the last column, the one at `rows - 1` in the last row of the first.
    assert((n - 1) / rows == cols - 1) by (nonlinear_arith)
        requires
            rows >= 1,
            (cols - 1) * rows <= n - 1,
            n - 1 < cols * rows,
    ;
    assert((rows - 1) / rows == 0 && (rows - 1) % rows == rows - 1) by (nonlinear_arith)
        requires
            rows >= 1,
    ;
    assert(0int / rows == 0 && 0int % rows == 0) by (nonlinear_arith)
        requires
            rows >= 1,
    ;
    // Everything stays far within `i64`.
    lemma_mul_bound(g.iv as int, cols - 1, 0x10_0000, 0x1_0000);
    lemma_mul_bound(g.ih as int, rows - 1, 0x10_0000, 0x1_0000);
    lemma_tdiv_bounds(wn, cols);
    lemma_tdiv_bounds(hn, rows);
    lemma_mul_bound(cols - 1, cw + g.iv, 0x1_0000, 0x1000_0010_0000);
    lemma_mul_bound(rows - 1, ch + g.ih, 0x1_0000, 0x1000_0010_0000);
    lemma_mul_bound(cw, cols, 0x1000_0000_0000, 0x1_0000);
    lemma_mul_bound(ch, rows, 0x1000_0000_0000, 0x1_0000);
    assert(0 * (cw + g.iv) == 0 && 0 * (ch + g.ih) == 0);
}

/// The state of the Fibonacci layouts between two clients: the next
/// client's position and size, the pixels left over by the last split of
/// each direction, whether splitting goes on, and the number of splits made.
#[derive(Clone, Copy, PartialEq, Eq, Structural, Debug)]
pub struct FibState {
    pub nx: i64,
    pub ny: i64,
    pub nw: i64,
    pub nh: i64,
    pub hrest: i64,
    pub wrest: i64,
    pub r: bool,
    pub i: i64,
}

/// The parameters of the Fibonacci layouts: `n` tiled clients, the window
/// area and gaps, `sw` the width the first split leaves to the other
/// clients (taken from the master factor by the caller), the bar height
/// `bh` (no split leaves less than that), and whether the layout is the
/// dwindle (`dwindle`) or the spiral.
#[derive(Clone, Copy)]
pub struct FibParams {
    pub n: i64,
    pub a: Area,
    pub g: Gaps,
    pub sw: i64,
    pub bh: i64,
    pub dwindle: bool,
}

/// The state before the first client.
pub open spec fn fib_start(p: FibParams) -> FibState {
    FibState {
        nx: (p.a.wx + p.g.ov) as i64,
        ny: (p.a.wy + p.g.oh) as i64,
        nw: (p.a.ww - 2 * p.g.ov) as i64,
        nh: (p.a.wh - 2 * p.g.oh) as i64,
        hrest: 0,
        wrest: 0,
        r: true,
        i: 0,
    }
}

/// The split of the next client, when splitting goes on and clients remain:
/// odd clients halve the height, even ones the width (after the gap),
/// keeping the pixel left over; in the spiral, the third and fourth of each
/// four clients move past the part kept.
#[verifier::opaque]
pub open spec fn fib_split(st: FibState, p: FibParams) -> FibState {
    let (ih, iv) = (p.g.ih as int, p.g.iv as int);
    let s1 = if st.i % 2 != 0 {
        let nv = tdiv(st.nh - ih, 2);
        FibState { hrest: (st.nh - 2 * nv - ih) as i64, nh: nv as i64, ..st }
    } else {
        let nv = tdiv(st.nw - iv, 2);
        FibState { wrest: (st.nw - 2 * nv - iv) as i64, nw: nv as i64, ..st }
    };
    if st.i % 4 == 2 && !p.dwindle {
        FibState { nx: (s1.nx + s1.nw + iv) as i64, ..s1 }
    } else if st.i % 4 == 3 && !p.dwindle {
        FibState { ny: (s1.ny + s1.nh + ih) as i64, ..s1 }
    } else {
        s1
    }
}

/// The move of the next client into its place, by its position in each four.
#[verifier::opaque]
pub open spec fn fib_place(st: FibState, p: FibParams) -> FibState {
    let (ih, iv) = (p.g.ih as int, p.g.iv as int);
    if st.i % 4 == 0 {
        if p.dwindle {
            FibState { ny: (st.ny + st.nh + ih) as i64, nh: (st.nh + st.hrest) as i64, ..st }
        } else {
            let nh = st.nh - st.hrest;
            FibState { nh: nh as i64, ny: (st.ny - (nh + ih)) as i64, ..st }
        }
    } else if st.i % 4 == 1 {
        FibState { nx: (st.nx + st.nw + iv) as i64, nw: (st.nw + st.wrest) as i64, ..st }
    } else if st.i % 4 == 2 {
        FibState {
            ny: (st.ny + st.nh + ih) as i64,
            nh: (st.nh + st.hrest) as i64,
            nw: if st.i < p.n - 1 { (st.nw + st.wrest) as i64 } else { st.nw },
            ..st
        }
    } else if p.dwindle {
        FibState { nx: (st.nx + st.nw + iv) as i64, nw: (st.nw - st.wrest) as i64, ..st }
    } else {
        let nw = st.nw - st.wrest;
        FibState { nw: nw as i64, nx: (st.nx - (nw + iv)) as i64, nh: (st.nh + st.hrest) as i64, ..st }
    }
}

/// The first two clients: the first takes what the first split leaves it
/// (all of the width when alone) at the top; the second takes the rest of
/// the width.
#[verifier::opaque]
pub open spec fn fib_first(st: FibState, p: FibParams) -> FibState {
    let (iv, ov) = (p.g.iv as int, p.g.ov as int);
    if st.i == 0 {
        let s1 = if p.n != 1 {
            FibState { nw: ((p.a.ww - iv - 2 * ov) - p.sw) as i64, wrest: 0, ..st }
        } else {
            st
        };
        FibState { ny: (p.a.wy + p.g.oh) as i64, ..s1 }
    } else if st.i == 1 {
        FibState { nw: (p.a.ww - st.nw - iv - 2 * ov) as i64, ..st }
    } else {
        st
    }
}

/// The state after a client with border `bw`: while splitting goes on, it
/// stops once the half to split would be no taller (or wider) than the bar
/// and the borders; the client is split off (see `fib_split`, but not the
/// last one), placed (see `fib_place`) and the first two sized (see
/// `fib_first`). Once splitting has stopped, the state stays.
pub open spec fn fib_step(st: FibState, p: FibParams, bw: int) -> FibState {
    if !st.r {
        st
    } else {
        let (ih, iv) = (p.g.ih as int, p.g.iv as int);
        let stop = (st.i % 2 != 0 && tdiv(st.nh - ih, 2) <= p.bh + 2 * bw)
            || (st.i % 2 == 0 && tdiv(st.nw - iv, 2) <= p.bh + 2 * bw);
        let s0 = FibState { r: !stop, ..st };
        let s1 = if !stop && st.i < p.n - 1 { fib_split(s0, p) } else { s0 };
        let s2 = fib_place(s1, p);
        let s3 = fib_first(s2, p);
        FibState { i: (s3.i + 1) as i64, ..s3 }
    }
}

/// The state after the first `k` clients, with borders `bws`.
pub open spec fn fib_state(k: int, p: FibParams, bws: Seq<i32>) -> FibState
    decreases k,
{
    if k <= 0 {
        fib_start(p)
    } else {
        fib_step(fib_state(k - 1, p, bws), p, bws[k - 1] as int)
    }
}

/// The geometry of client `k` in the Fibonacci layouts: the place the state
/// after it gives.
pub open spec fn fib_rect(k: int, p: FibParams, bws: Seq<i32>) -> Rect {
    let st = fib_state(k + 1, p, bws);
    Rect { x: st.nx, y: st.ny, w: (st.nw - 2 * bws[k]) as i64, h: (st.nh - 2 * bws[k]) as i64 }
}

/// Bounds that the state keeps after `k` clients.
pub open spec fn fib_bounded(st: FibState, k: int) -> bool {
    &&& -1 <= st.hrest <= 1 && -1 <= st.wrest <= 1
    &&& 0 <= st.i <= k
    &&& st.r ==> st.i == k
    &&& iabs(st.nw as int) <= 0x200_0000 + 2 * k
    &&& iabs(st.nh as int) <= 0x200_0000 + 2 * k
    &&& st.i <= 1 ==> iabs(st.nw as int) <= 0x80_0000 + 2 * k
    &&& iabs(st.nx as int) <= 0x40_0000 + k * 0x800_0000
    &&& iabs(st.ny as int) <= 0x40_0000 + k * 0x800_0000
}

/// Whether the parameters are within range.
pub open spec fn fib_ok(p: FibParams, bws: Seq<i32>) -> bool {
    &&& layout_ok(p.a, p.g, bws)
    &&& p.n == bws.len()
    &&& small(p.sw as int) && small(p.bh as int)
}

/// Halving toward zero leaves a remainder of at most one and does not grow
/// past the larger of the halves' bounds.
proof fn lemma_half(a: int)
    ensures
        -1 <= a - 2 * tdiv(a, 2) <= 1,
        iabs(tdiv(a, 2)) <= iabs(a),
{
    lemma_tdiv_bounds(a, 2);
    assert(tdiv(a, 2) * 2 == 2 * tdiv(a, 2));
}

/// One client keeps the bounds.
#[verifier::rlimit(100)]
#[verifier::spinoff_prover]
proof fn lemma_fib_step_bounded(st: FibState, p: FibParams, bws: Seq<i32>, k: int)
    requires
        fib_ok(p, bws),
        0 <= k < bws.len(),
        fib_bounded(st, k),
    ensures
        fib_bounded(fib_step(st, p, bws[k] as int), k + 1),
{
    reveal(fib_split);
    reveal(fib_place);
    reveal(fib_first);
    if st.r {
        let (ih, iv) = (p.g.ih as int, p.g.iv as int);
        lemma_half(st.nh - ih);
        lemma_half(st.nw - iv);
        assert(small(bws[k] as int));
    }
}

/// The states stay within the bounds.
proof fn lemma_fib_state_bounded(k: int, p: FibParams, bws: Seq<i32>)
    requires
        fib_ok(p, bws),
        0 <= k <= bws.len(),
    ensures
        fib_bounded(fib_state(k, p, bws), k),
    decreases k,
{
    if k > 0 {
        lemma_fib_state_bounded(k - 1, p, bws);
        lemma_fib_step_bounded(fib_state(k - 1, p, bws), p, bws, k - 1);
    }
}

/// Whether the state's numbers are far from the limits of `i64`.
pub open spec fn fib_roomy(st: FibState) -> bool {
    &&& iabs(st.nx as int) <= 0x4_0000_0000_0000 && iabs(st.ny as int) <= 0x4_0000_0000_0000
    &&& iabs(st.nw as int) <= 0x100_0000_0000 && iabs(st.nh as int) <= 0x100_0000_0000
    &&& iabs(st.hrest as int) <= 1 && iabs(st.wrest as int) <= 1
    &&& 0 <= st.i <= 0x1_0000
}

/// Splits off the next client; see `fib_split`.
fn fib_split_exec(st: FibState, p: FibParams) -> (r: FibState)
    requires
        fib_roomy(st),
        small(p.g.ih as int) && small(p.g.iv as int),
    ensures
        r == fib_split(st, p),
{
    proof {
        reveal(fib_split);
        lemma_half(st.nh - p.g.ih);
        lemma_half(st.nw - p.g.iv);
    }
    let ih = p.g.ih as i64;
    let iv = p.g.iv as i64;
    let mut s = st;
    if s.i % 2 != 0 {
        let nv = (s.nh - ih) / 2;
        s.hrest = s.nh - 2 * nv - ih;
        s.nh = nv;
    } else {
        let nv = (s.nw - iv) / 2;
        s.wrest = s.nw - 2 * nv - iv;
        s.nw = nv;
    }
    if s.i % 4 == 2 && !p.dwindle {
        s.nx = s.nx + s.nw + iv;
    } else if s.i % 4 == 3 && !p.dwindle {
        s.ny = s.ny + s.nh + ih;
    }
    s
}

/// Places the next client; see `fib_place`.
fn fib_place_exec(st: FibState, p: FibParams) -> (r: FibState)
    requires
        fib_roomy(st),
        0 <= p.n <= 0x1_0000,
        small(p.g.ih as int) && small(p.g.iv as int),
    ensures
        r == fib_place(st, p),
{
    proof {
        reveal(fib_place);
    }
    let ih = p.g.ih as i64;
    let iv = p.g.iv as i64;
    let mut s = st;
    if s.i % 4 == 0 {
        if p.dwindle {
            s.ny = s.ny + s.nh + ih;
            s.nh = s.nh + s.hrest;
        } else {
            s.nh = s.nh - s.hrest;
            s.ny = s.ny - (s.nh + ih);
        }
    } else if s.i % 4 == 1 {
        s.nx = s.nx + s.nw + iv;
        s.nw = s.nw + s.wrest;
    } else if s.i % 4 == 2 {
        s.ny = s.ny + s.nh + ih;
        s.nh = s.nh + s.hrest;
        if s.i < p.n - 1 {
            s.nw = s.nw + s.wrest;
        }
    } else {
        if p.dwindle {
            s.nx = s.nx + s.nw + iv;
            s.nw = s.nw - s.wrest;
        } else {
            s.nw = s.nw - s.wrest;
            s.nx = s.nx - (s.nw + iv);
            s.nh = s.nh + s.hrest;
        }
    }
    s
}

/// Sizes the first two clients; see `fib_first`.
fn fib_first_exec(st: FibState, p: FibParams) -> (r: FibState)
    requires
        fib_roomy(st),
        small(p.g.iv as int) && small(p.g.ov as int) && small(p.g.oh as int),
        small(p.a.ww as int) && small(p.a.wy as int) && small(p.sw as int),
    ensures
        r == fib_first(st, p),
        r.i == st.i,
{
    proof {
        reveal(fib_first);
    }
    let iv = p.g.iv as i64;
    let ov = p.g.ov as i64;
    let mut s = st;
    if s.i == 0 {
        if p.n != 1 {
            s.nw = (p.a.ww as i64 - iv - 2 * ov) - p.sw;
            s.wrest = 0;
        }
        s.ny = p.a.wy as i64 + p.g.oh as i64;
    } else if s.i == 1 {
        s.nw = p.a.ww as i64 - s.nw - iv - 2 * ov;
    }
    s
}

/// Splitting keeps a roomy state roomy when its sizes are within bounds.
proof fn lemma_fib_split_roomy(st: FibState, p: FibParams)
    requires
        fib_roomy(st),
        iabs(st.nx as int) <= 0x1_0000_0000_0000 && iabs(st.ny as int) <= 0x1_0000_0000_0000,
        iabs(st.nw as int) <= 0x1000_0000 && iabs(st.nh as int) <= 0x1000_0000,
        small(p.g.ih as int) && small(p.g.iv as int),
    ensures
        fib_roomy(fib_split(st, p)),
        iabs(fib_split(st, p).nx as int) <= 0x2_0000_0000_0000,
        iabs(fib_split(st, p).ny as int) <= 0x2_0000_0000_0000,
        iabs(fib_split(st, p).nw as int) <= 0x1000_0000,
        iabs(fib_split(st, p).nh as int) <= 0x1000_0000,
        fib_split(st, p).i == st.i,
{
    reveal(fib_split);
    lemma_half(st.nh - p.g.ih);
    lemma_half(st.nw - p.g.iv);
}

/// Placing keeps a state with room to spare roomy.
proof fn lemma_fib_place_roomy(st: FibState, p: FibParams)
    requires
        fib_roomy(st),
        iabs(st.nx as int) <= 0x2_0000_0000_0000 && iabs(st.ny as int) <= 0x2_0000_0000_0000,
        iabs(st.nw as int) <= 0x1000_0000 && iabs(st.nh as int) <= 0x1000_0000,
        small(p.g.ih as int) && small(p.g.iv as int),
    ensures
        fib_roomy(fib_place(st, p)),
        fib_place(st, p).i == st.i,
{
    reveal(fib_place);
}

/// One client of the Fibonacci layouts; see `fib_step`.
#[verifier::rlimit(80)]
#[verifier::spinoff_prover]
fn fib_advance(st: FibState, p: FibParams, bw: i32, Ghost(bws): Ghost<Seq<i32>>, Ghost(k): Ghost<int>) -> (r: FibState)
    requires
        fib_ok(p, bws),
        0 <= k < bws.len(),
        bws[k] == bw,
        fib_bounded(st, k),
    ensures
        r == fib_step(st, p, bw as int),
{
    if !st.r {
        return st;
    }
    proof {
        lemma_half(st.nh - p.g.ih);
        lemma_half(st.nw - p.g.iv);
        assert(small(bw as int));
    }
    let ih = p.g.ih as i64;
    let iv = p.g.iv as i64;
    let bw = bw as i64;
    let stop = (st.i % 2 != 0 && (st.nh - ih) / 2 <= p.bh + 2 * bw) || (st.i % 2 == 0 && (st.nw - iv) / 2 <= p.bh + 2 * bw);
    let mut s0 = st;
    s0.r = !stop;
    proof {
        assert(fib_roomy(s0));
        lemma_fib_split_roomy(s0, p);
    }
    let s1 = if !stop && st.i < p.n - 1 { fib_split_exec(s0, p) } else { s0 };
    proof {
        lemma_fib_place_roomy(s1, p);
    }
    let s2 = fib_place_exec(s1, p);
    let mut s3 = fib_first_exec(s2, p);
    s3.i = s3.i + 1;
    s3
}

/// The geometries of the Fibonacci layouts (see `fib_rect`) for the tiled
/// clients with borders `bws`.
pub fn fibonacci(p: FibParams, bws: &Vec<i32>) -> (r: Vec<Rect>)
    requires
        fib_ok(p, bws@),
    ensures
        r@.len() == bws@.len(),
        forall|k: int| 0 <= k < bws@.len() ==> #[trigger] r@[k] == fib_rect(k, p, bws@),
{
    let mut r: Vec<Rect> = Vec::new();
    let mut st = FibState {
        nx: p.a.wx as i64 + p.g.ov as i64,
        ny: p.a.wy as i64 + p.g.oh as i64,
        nw: p.a.ww as i64 - 2 * (p.g.ov as i64),
        nh: p.a.wh as i64 - 2 * (p.g.oh as i64),
        hrest: 0,
        wrest: 0,
        r: true,
        i: 0,
    };
    let mut k: usize = 0;
    proof {
        lemma_fib_state_bounded(0, p, bws@);
    }
    while k < bws.len()
        invariant
            fib_ok(p, bws@),
            k <= bws@.len(),
            st == fib_state(k as int, p, bws@),
            r@.len() == k,
            forall|j: int| 0 <= j < k ==> #[trigger] r@[j] == fib_rect(j, p, bws@),
        decreases bws@.len() - k,
    {
        proof {
            lemma_fib_state_bounded(k as int, p, bws@);
            lemma_fib_state_bounded(k + 1, p, bws@);
        }
        let bw = bws[k];
        st = fib_advance(st, p, bw, Ghost(bws@), Ghost(k as int));
        proof {
            assert(small(bw as int));
        }
        r.push(Rect { x: st.nx, y: st.ny, w: st.nw - 2 * (bw as i64), h: st.nh - 2 * (bw as i64) });
        k = k + 1;
    }
    r
}

/// The number of columns of the gapless grid for `n` clients: as many as
/// the grid has rows, but two for five clients.
pub open spec fn gapless_cols(n: int) -> int {
    if n == 5 { 2 } else { grid_rows(n) }
}

/// The height of the window area left for `rows` rows.
pub open spec fn rows_room(rows: int, a: Area, g: Gaps) -> int {
    a.wh - 2 * g.oh - g.ih * (rows - 1)
}

/// The state of the gapless grid between two clients: the rows of the
/// current column, their height and the pixels left over, the start of the
/// current column, and the next row and column.
#[derive(Clone, Copy, PartialEq, Eq, Structural, Debug)]
pub struct GapState {
    pub rows: i64,
    pub ch: i64,
    pub rrest: i64,
    pub x: i64,
    pub rn: i64,
    pub cn: i64,
}

/// The rows of a column and their height for `rows` rows.
pub open spec fn with_rows(st: GapState, rows: int, a: Area, g: Gaps) -> GapState {
    let room = rows_room(rows, a, g);
    let ch = tdiv(room, rows);
    GapState { rows: rows as i64, ch: ch as i64, rrest: (room - ch * rows) as i64, ..st }
}

/// The state before the first of `n` clients.
pub open spec fn gapless_start(n: int, a: Area, g: Gaps) -> GapState {
    with_rows(GapState { rows: 0, ch: 0, rrest: 0, x: (a.wx + g.ov) as i64, rn: 0, cn: 0 }, n / gapless_cols(n), a, g)
}

/// Before client `i`: once the columns left are those that hold one client
/// more, the rows become one more.
pub open spec fn gapless_adjust(st: GapState, i: int, n: int, a: Area, g: Gaps) -> GapState {
    let cols = gapless_cols(n);
    if i / (st.rows as int) + 1 > cols - n % cols { with_rows(st, n / cols + 1, a, g) } else { st }
}

/// The width of a column and the pixels left over.
pub open spec fn gapless_cw(n: int, a: Area, g: Gaps) -> (int, int) {
    let cols = gapless_cols(n);
    let room = a.ww - 2 * g.ov - g.iv * (cols - 1);
    let cw = tdiv(room, cols);
    (cw, room - cw * cols)
}

/// After a client: the next row, or the top of the next column (which
/// starts after the column, the vertical inner gap and its leftover pixel).
pub open spec fn gapless_next(st: GapState, n: int, a: Area, g: Gaps) -> GapState {
    let (cw, crest) = gapless_cw(n, a, g);
    if st.rn + 1 >= st.rows {
        GapState {
            rn: 0,
            x: (st.x + cw + g.ih + (if st.cn < crest { 1int } else { 0 })) as i64,
            cn: (st.cn + 1) as i64,
            ..st
        }
    } else {
        GapState { rn: (st.rn + 1) as i64, ..st }
    }
}

/// The state before client `i`, its rows adjusted.
pub open spec fn gapless_state(i: int, n: int, a: Area, g: Gaps) -> GapState
    decreases i,
{
    if i <= 0 {
        gapless_adjust(gapless_start(n, a, g), 0, n, a, g)
    } else {
        gapless_adjust(gapless_next(gapless_state(i - 1, n, a, g), n, a, g), i, n, a, g)
    }
}

/// The geometry of client `i` of `n` (border `bw`) in the gapless grid:
/// filled column by column, top to bottom, the last columns holding one
/// client more; the leftover pixels go one each to the first rows and columns.
pub open spec fn gapless_rect(i: int, n: int, a: Area, g: Gaps, bw: int) -> Rect {
    let st = gapless_state(i, n, a, g);
    let (cw, crest) = gapless_cw(n, a, g);
    Rect {
        x: st.x,
        y: (a.wy + g.oh + st.rn * (st.ch + g.ih) + imin(st.rn as int, st.rrest as int)) as i64,
        w: (cw + (if st.cn < crest { 1int } else { 0 }) - 2 * bw) as i64,
        h: (st.ch + (if st.rn < st.rrest { 1int } else { 0 }) - 2 * bw) as i64,
    }
}

/// Bounds the gapless grid's state keeps before client `i` of `n`.
pub open spec fn gapless_bounded(st: GapState, i: int, n: int) -> bool {
    let cols = gapless_cols(n);
    &&& 1 <= st.rows <= n + 1
    &&& (st.rows == n / cols || st.rows == n / cols + 1)
    &&& 0 <= st.rn < st.rows
    &&& 0 <= st.cn <= i
    &&& iabs(st.ch as int) <= 0x20_0000_0000
    &&& iabs(st.rrest as int) <= 0x1_0001
    &&& iabs(st.x as int) <= 0x20_0000 + st.cn * 0x40_0000_0000
}

/// Columns of the gapless grid; see `gapless_cols`.
fn gapless_cols_exec(n: i64) -> (c: i64)
    requires
        1 <= n <= 0x1_0000,
    ensures
        c == gapless_cols(n as int),
        1 <= c <= n,
{
    let r = grid_rows_exec(n);
    proof {
        if n >= 2 {
            assert(r <= n / 2 + 1);
        }
    }
    if n == 5 { 2 } else { r }
}

/// The rows of a column and their height; see `with_rows`.
fn with_rows_exec(st: GapState, rows: i64, a: Area, g: Gaps) -> (r: GapState)
    requires
        1 <= rows <= 0x1_0001,
        small(a.wh as int) && small(g.oh as int) && small(g.ih as int),
    ensures
        r == with_rows(st, rows as int, a, g),
        iabs(r.ch as int) <= 0x20_0000_0000,
        iabs(r.rrest as int) <= 0x1_0001,
        r.x == st.x && r.rn == st.rn && r.cn == st.cn,
{
    proof {
        lemma_mul_bound(g.ih as int, rows - 1, 0x10_0000, 0x1_0001);
    }
    let room = a.wh as i64 - 2 * (g.oh as i64) - (g.ih as i64) * (rows - 1);
    let ch = room / rows;
    proof {
        lemma_tdiv_bounds(room as int, rows as int);
    }
    GapState { rows, ch, rrest: room - ch * rows, ..st }
}

/// The geometries of the gapless grid (see `gapless_rect`) for the `g.n`
/// tiled clients with borders `bws`.
#[verifier::rlimit(60)]
pub fn gaplessgrid(a: Area, g: Gaps, bws: &Vec<i32>) -> (r: Vec<Rect>)
    requires
        layout_ok(a, g, bws@),
        g.n == bws@.len(),
    ensures
        r@.len() == bws@.len(),
        forall|i: int| 0 <= i < bws@.len() ==> #[trigger] r@[i] == gapless_rect(i, g.n as int, a, g, bws@[i] as int),
{
    let mut r: Vec<Rect> = Vec::new();
    let n = g.n as i64;
    if n == 0 {
        return r;
    }
    let cols = gapless_cols_exec(n);
    proof {
        lemma_mul_bound(g.iv as int, cols - 1, 0x10_0000, 0x1_0000);
    }
    let wroom = a.ww as i64 - 2 * (g.ov as i64) - (g.iv as i64) * (cols - 1);
    let cw = wroom / cols;
    proof {
        lemma_tdiv_bounds(wroom as int, cols as int);
        assert(n / cols >= 1) by (nonlinear_arith)
            requires
                1 <= cols <= n,
        ;
        assert(n / cols <= n) by (nonlinear_arith)
            requires
                1 <= cols,
                0 <= n,
        ;
    }
    let crest = wroom - cw * cols;
    let st0 = GapState { rows: 0, ch: 0, rrest: 0, x: a.wx as i64 + g.ov as i64, rn: 0, cn: 0 };
    let mut st = with_rows_exec(st0, n / cols, a, g);
    let mut i: usize = 0;
    while i < bws.len()
        invariant
            layout_ok(a, g, bws@),
            g.n == bws@.len(),
            n == g.n,
            1 <= n <= 0x1_0000,
            cols == gapless_cols(n as int),
            1 <= cols <= n,
            (cw as int, crest as int) == gapless_cw(n as int, a, g),
            iabs(cw as int) <= 0x20_0000_0000 && iabs(crest as int) <= 0x1_0000,
            i <= bws@.len(),
            r@.len() == i,
            gapless_bounded(st, i as int, n as int),
            i == 0 ==> st == gapless_start(n as int, a, g),
            i > 0 ==> st == gapless_next(gapless_state(i - 1, n as int, a, g), n as int, a, g),
            forall|k: int| 0 <= k < i ==> #[trigger] r@[k] == gapless_rect(k, n as int, a, g, bws@[k] as int),
        decreases bws@.len() - i,
    {
        let ii = i as i64;
        proof {
            assert(ii / st.rows >= 0) by (nonlinear_arith)
                requires
                    ii >= 0,
                    st.rows >= 1,
            ;
            assert(n % cols >= 0 && n % cols < cols) by (nonlinear_arith)
                requires
                    cols >= 1,
                    n >= 0,
            ;
        }
        if ii / st.rows + 1 > cols - n % cols {
            proof {
                assert(n / cols + 1 <= 0x1_0001);
            }
            st = with_rows_exec(st, n / cols + 1, a, g);
        }
        proof {
            assert(st == gapless_state(i as int, n as int, a, g));
            assert(small(bws@[i as int] as int));
            lemma_mul_bound(st.rn as int, st.ch + g.ih, 0x1_0001, 0x20_0010_0000);
        }
        let bw = bws[i] as i64;
        let y = a.wy as i64 + g.oh as i64 + st.rn * (st.ch + g.ih as i64) + (if st.rn < st.rrest { st.rn } else { st.rrest });
        let w = cw + (if st.cn < crest { 1 } else { 0 }) - 2 * bw;
        let h = st.ch + (if st.rn < st.rrest { 1 } else { 0 }) - 2 * bw;
        r.push(Rect { x: st.x, y, w, h });
        let ghost cur = st;
        if st.rn + 1 >= st.rows {
            st.rn = 0;
            st.x = st.x + cw + g.ih as i64 + (if st.cn < crest { 1 } else { 0 });
            st.cn = st.cn + 1;
        } else {
            st.rn = st.rn + 1;
        }
        proof {
            assert(st == gapless_next(cur, n as int, a, g));
        }
        i = i + 1;
    }
    r
}

/// The number of rows of the row grid for `n` clients: one more than the
/// master clients (one for two clients, which always split side by side),
/// never more than the clients.
pub open spec fn nrow_rows(n: int, nmaster: int) -> int {
    let r1 = if FORCE_VSPLIT && n == 2 { 1 } else { nmaster + 1 };
    if n < r1 { n } else { r1 }
}

/// The state of the row grid between two clients: the current row, the
/// next column in it, the width used in it, its number of columns, the
/// clients in the rows so far, its top, and the height used so far.
#[derive(Clone, Copy, PartialEq, Eq, Structural, Debug)]
pub struct RowState {
    pub ri: i64,
    pub ci: i64,
    pub uw: i64,
    pub cols: i64,
    pub uc: i64,
    pub cy: i64,
    pub uh: i64,
}

/// The height of a row of the row grid with `rows` rows.
pub open spec fn nrow_ch(rows: int, a: Area, g: Gaps) -> int {
    tdiv(rows_room(rows, a, g), rows)
}

/// The state before the first of `n` clients in `rows` rows: the first row
/// takes its share of the clients.
pub open spec fn nrow_start(n: int, rows: int, a: Area, g: Gaps) -> RowState {
    RowState {
        ri: 0,
        ci: 0,
        uw: 0,
        cols: (n / rows) as i64,
        uc: (n / rows) as i64,
        cy: (a.wy + g.oh) as i64,
        uh: nrow_ch(rows, a, g) as i64,
    }
}

/// A full row gives way to the next, which takes its share of the clients left.
pub open spec fn nrow_switch(st: RowState, n: int, rows: int, a: Area, g: Gaps) -> RowState {
    if st.ci == st.cols {
        let ri = st.ri + 1;
        let cols = (n - st.uc) / (rows - ri);
        RowState {
            uw: 0,
            ci: 0,
            ri: ri as i64,
            cols: cols as i64,
            uc: (st.uc + cols) as i64,
            cy: (a.wy + g.oh + st.uh + g.ih) as i64,
            uh: (st.uh + nrow_ch(rows, a, g) + g.ih) as i64,
        }
    } else {
        st
    }
}

/// The width of the next client: its share of the width left in the row.
pub open spec fn nrow_cw(st: RowState, a: Area, g: Gaps) -> int {
    tdiv(a.ww - 2 * g.ov - st.uw, st.cols - st.ci)
}

/// The state before client `i` (of `n`, in `rows` rows), its row settled.
pub open spec fn nrow_state(i: int, n: int, rows: int, a: Area, g: Gaps) -> RowState
    decreases i,
{
    if i <= 0 {
        nrow_switch(nrow_start(n, rows, a, g), n, rows, a, g)
    } else {
        let st = nrow_state(i - 1, n, rows, a, g);
        let next = RowState { uw: (st.uw + nrow_cw(st, a, g) + g.iv) as i64, ci: (st.ci + 1) as i64, ..st };
        nrow_switch(next, n, rows, a, g)
    }
}

/// The geometry of client `i` of `n` (border `bw`) in the row grid with
/// `nmaster` master clients: rows of equal height, filled left to right,
/// each taking its share of the clients left, the last ones the most.
pub open spec fn nrow_rect(i: int, n: int, nmaster: int, a: Area, g: Gaps, bw: int) -> Rect {
    let rows = nrow_rows(n, nmaster);
    let st = nrow_state(i, n, rows, a, g);
    Rect {
        x: (a.wx + g.ov + st.uw) as i64,
        y: st.cy,
        w: (nrow_cw(st, a, g) - 2 * bw) as i64,
        h: (nrow_ch(rows, a, g) - 2 * bw) as i64,
    }
}

/// Taking a share of what is left leaves enough for the rows after it:
/// with `r` left for `q` rows (at least one each), after `r / q` are taken
/// at least one is left for each of the other rows.
proof fn lemma_share(r: int, q: int)
    requires
        1 <= q <= r,
    ensures
        r - r / q >= q - 1,
        r / q >= 1,
        q == 1 ==> r / q == r,
{
    vstd::arithmetic::div_mod::lemma_fundamental_div_mod(r, q);
    vstd::arithmetic::div_mod::lemma_mod_pos_bound(r, q);
    let f = r / q;
    assert(f >= 1 && r - f >= q - 1) by (nonlinear_arith)
        requires
            r == q * f + r % q,
            0 <= r % q < q,
            1 <= q <= r,
    ;
}

/// What the row grid's state keeps before client `i` of `n` in `rows` rows.
pub open spec fn nrow_bounded(st: RowState, i: int, n: int, rows: int) -> bool {
    &&& 1 <= rows <= n
    &&& 0 <= st.ri < rows
    &&& 1 <= st.cols <= n
    &&& 0 <= st.ci <= st.cols
    &&& st.uc - st.cols + st.ci == i
    &&& st.uc <= n
    &&& n - st.uc >= rows - st.ri - 1
    &&& st.ri == rows - 1 ==> st.uc == n
    &&& iabs(st.uw as int) <= 0x20_0000 + st.ci * 0x20_0000
    &&& iabs(st.uh as int) <= (st.ri + 1) * 0x20_0010_0000
    &&& iabs(st.cy as int) <= 0x20_0000 + (st.ri + 1) * 0x20_0010_0000
}

/// A share of a number is no larger than the number, and taking it away
/// leaves no more than the number.
proof fn lemma_share_bounds(d: int, m: int)
    requires
        m >= 1,
    ensures
        iabs(tdiv(d, m)) <= iabs(d),
        iabs(d - tdiv(d, m)) <= iabs(d),
{
    lemma_tdiv_bounds(d, m);
    let q = iabs(d) / m;
    assert(0 <= q <= iabs(d)) by (nonlinear_arith)
        requires
            m >= 1,
            iabs(d) >= 0,
            q == iabs(d) / m,
    ;
}

/// The geometries of the row grid (see `nrow_rect`) for the `g.n` tiled
/// clients with borders `bws`, with `nmaster` master clients.
#[verifier::rlimit(80)]
pub fn nrowgrid(a: Area, g: Gaps, nmaster: i32, bws: &Vec<i32>) -> (r: Vec<Rect>)
    requires
        layout_ok(a, g, bws@),
        g.n == bws@.len(),
        0 <= nmaster < 0x4000_0000,
    ensures
        r@.len() == bws@.len(),
        forall|i: int| 0 <= i < bws@.len() ==> #[trigger] r@[i] == nrow_rect(i, g.n as int, nmaster as int, a, g, bws@[i] as int),
{
    let mut r: Vec<Rect> = Vec::new();
    let n = g.n as i64;
    if n == 0 {
        return r;
    }
    let mut rows = nmaster as i64 + 1;
    if FORCE_VSPLIT && n == 2 {
        rows = 1;
    }
    if n < rows {
        rows = n;
    }
    proof {
        lemma_mul_bound(g.ih as int, rows - 1, 0x10_0000, 0x1_0000);
    }
    let room = a.wh as i64 - 2 * (g.oh as i64) - (g.ih as i64) * (rows - 1);
    let ch = room / rows;
    proof {
        lemma_tdiv_bounds(room as int, rows as int);
        lemma_share(n as int, rows as int);
    }
    let mut st = RowState { ri: 0, ci: 0, uw: 0, cols: n / rows, uc: n / rows, cy: a.wy as i64 + g.oh as i64, uh: ch };
    let mut i: usize = 0;
    while i < bws.len()
        invariant
            layout_ok(a, g, bws@),
            g.n == bws@.len(),
            n == g.n,
            1 <= n <= 0x1_0000,
            rows == nrow_rows(n as int, nmaster as int),
            1 <= rows <= n,
            ch == nrow_ch(rows as int, a, g),
            iabs(ch as int) <= 0x20_0000_0000,
            i <= bws@.len(),
            r@.len() == i,
            nrow_bounded(st, i as int, n as int, rows as int),
            i == 0 ==> st == nrow_start(n as int, rows as int, a, g),
            i > 0 ==> st == ({
                let p = nrow_state(i - 1, n as int, rows as int, a, g);
                RowState { uw: (p.uw + nrow_cw(p, a, g) + g.iv) as i64, ci: (p.ci + 1) as i64, ..p }
            }),
            forall|k: int| 0 <= k < i ==> #[trigger] r@[k] == nrow_rect(k, n as int, nmaster as int, a, g, bws@[k] as int),
        decreases bws@.len() - i,
    {
        let ghost before = st;
        if st.ci == st.cols {
            proof {
                assert(st.uc == i);
                assert(st.ri + 1 < rows);
                lemma_share(n - st.uc, rows - st.ri - 1);
            }
            let ri = st.ri + 1;
            let cols = (n - st.uc) / (rows - ri);
            st = RowState {
                uw: 0,
                ci: 0,
                ri,
                cols,
                uc: st.uc + cols,
                cy: a.wy as i64 + g.oh as i64 + st.uh + g.ih as i64,
                uh: st.uh + ch + g.ih as i64,
            };
        }
        proof {
            assert(st == nrow_switch(before, n as int, rows as int, a, g));
            assert(st == nrow_state(i as int, n as int, rows as int, a, g));
            assert(st.ci < st.cols);
            lemma_share_bounds(a.ww - 2 * g.ov - st.uw, st.cols - st.ci);
            assert(small(bws@[i as int] as int));
        }
        let bw = bws[i] as i64;
        let left = a.ww as i64 - 2 * (g.ov as i64) - st.uw;
        let cw = left / (st.cols - st.ci);
        r.push(Rect { x: a.wx as i64 + g.ov as i64 + st.uw, y: st.cy, w: cw - 2 * bw, h: ch - 2 * bw });
        st.uw = st.uw + cw + g.iv as i64;
        st.ci = st.ci + 1;
        i = i + 1;
    }
    r
}

} // verus!
