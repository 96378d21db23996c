//! The glyph atlas as a mathematical object: rows from top to bottom, the
//! rectangles of the cached glyphs, and the rules by which a glyph finds its
//! row.

use vstd::prelude::*;
use crate::atlas::pow2_ceil;

verus! {

/// A rectangle of the atlas.
#[derive(Copy, Clone, Debug, PartialEq, Eq, Structural)]
pub struct Rect {
    pub x: u32,
    pub y: u32,
    pub w: u32,
    pub h: u32,
}

/// A row: a horizontal strip at `y` that is `height` high, filled up to
/// `next_x`, and last used in the generation `last_used`.
pub struct RowView {
    pub y: int,
    pub height: int,
    pub next_x: int,
    pub last_used: int,
}

/// An atlas: its extent, the end of the rows, the generation counter, the
/// rows from top to bottom, and the rectangle of each cached glyph.
pub struct AtlasView {
    pub width: int,
    pub height: int,
    pub next_y: int,
    pub counter: int,
    pub rows: Seq<RowView>,
    pub cached: Map<u16, Rect>,
}

/// The row at `k` is not empty and starts where the row above it ends, the
/// first at 0.
pub open spec fn tile_ok(rows: Seq<RowView>, k: int) -> bool {
    &&& rows[k].height >= 1
    &&& rows[k].y == (if k == 0 { 0 } else { rows[k - 1].y + rows[k - 1].height })
}

/// The rows lie one below the other from 0 to `next_y`, without a gap, and
/// none is empty.
pub open spec fn tiled(rows: Seq<RowView>, next_y: int) -> bool {
    &&& forall|k: int| 0 <= k < rows.len() ==> #[trigger] tile_ok(rows, k)
    &&& next_y == (if rows.len() == 0 { 0 } else { rows.last().y + rows.last().height })
}

/// The rectangle lies in the used part of the row.
pub open spec fn in_row(row: RowView, rect: Rect) -> bool {
    &&& rect.y == row.y
    &&& rect.h <= row.height
    &&& rect.x + rect.w <= row.next_x
}

/// Two rectangles share no pixel.
pub open spec fn disjoint(a: Rect, b: Rect) -> bool {
    ||| a.x + a.w <= b.x
    ||| b.x + b.w <= a.x
    ||| a.y + a.h <= b.y
    ||| b.y + b.h <= a.y
}

impl AtlasView {
    /// The extent of the atlas fits 32 bits; the rows tile the atlas from the
    /// top, each within the atlas's width and not used after the current
    /// generation; every cached rectangle lies in a row, and two of one row
    /// lie side by side.
    pub open spec fn wf(self) -> bool {
        &&& 0 <= self.width <= u32::MAX
        &&& 0 <= self.height <= u32::MAX
        &&& 0 <= self.counter
        &&& tiled(self.rows, self.next_y)
        &&& self.next_y <= self.height
        &&& forall|k: int|
            0 <= k < self.rows.len() ==> {
                &&& 0 <= (#[trigger] self.rows[k]).next_x <= self.width
                &&& 0 <= self.rows[k].last_used <= self.counter
            }
        &&& forall|id: u16| #[trigger]
            self.cached.contains_key(id) ==> exists|k: int|
                0 <= k < self.rows.len() && in_row(#[trigger] self.rows[k], self.cached[id])
        &&& forall|a: u16, b: u16|
            #![trigger self.cached[a], self.cached[b]]
            self.cached.contains_key(a) && self.cached.contains_key(b) && a != b
                && self.cached[a].y == self.cached[b].y ==> {
                ||| self.cached[a].x + self.cached[a].w <= self.cached[b].x
                ||| self.cached[b].x + self.cached[b].w <= self.cached[a].x
            }
    }

    /// The rectangle of a glyph, if it is cached.
    pub open spec fn lookup(self, id: u16) -> Option<Rect> {
        if self.cached.contains_key(id) { Some(self.cached[id]) } else { None }
    }
}

/// The row has room for `w` more pixels in an atlas that is `width` wide.
pub open spec fn has_room(row: RowView, w: int, width: int) -> bool {
    row.next_x + w <= width
}

/// `a` comes before `b` where rows are ordered by height, and rows of one
/// height from top to bottom.
pub open spec fn key_less(a: RowView, b: RowView) -> bool {
    a.height < b.height || (a.height == b.height && a.y < b.y)
}

/// The topmost row from `k` on that is exactly `rh` high and has room, or
/// the number of rows if there is none.
pub open spec fn first_exact(rows: Seq<RowView>, w: int, width: int, rh: int, k: int) -> int
    decreases rows.len() - k,
{
    if k < 0 || k >= rows.len() {
        rows.len() as int
    } else if rows[k].height == rh && has_room(rows[k], w, width) {
        k
    } else {
        first_exact(rows, w, width, rh, k + 1)
    }
}

/// Among the first `n` rows, the lowest one that is higher than `rh` and has
/// room, rows of one height taken from the top; -1 if there is none.
pub open spec fn best_taller(rows: Seq<RowView>, w: int, width: int, rh: int, n: int) -> int
    decreases n,
{
    if n <= 0 || n > rows.len() {
        -1
    } else {
        let b = best_taller(rows, w, width, rh, n - 1);
        let c = rows[n - 1];
        if c.height > rh && has_room(c, w, width) && (b < 0 || key_less(c, rows[b])) {
            n - 1
        } else {
            b
        }
    }
}

/// The end of the shortest run of rows from `i` down that is `need` high in
/// all and holds no row used in the generation `counter`; -1 if the rows end
/// or such a row comes first.
pub open spec fn run_end(rows: Seq<RowView>, counter: int, i: int, need: int) -> int
    decreases rows.len() - i,
{
    if need <= 0 {
        i
    } else if i < 0 || i >= rows.len() || rows[i].last_used == counter {
        -1
    } else {
        run_end(rows, counter, i + 1, need - rows[i].height)
    }
}

/// The sum of the generations in which the rows from `i` to `j` were last
/// used.
pub open spec fn used_sum(rows: Seq<RowView>, i: int, j: int) -> int
    decreases j - i,
{
    if j <= i || j > rows.len() || i < 0 {
        0
    } else {
        used_sum(rows, i, j - 1) + rows[j - 1].last_used
    }
}

/// The run from `a` to `ae` was on average used earlier than the run from
/// `b` to `be`.
pub open spec fn older(rows: Seq<RowView>, a: int, ae: int, b: int, be: int) -> bool {
    used_sum(rows, a, ae) * (be - b) < used_sum(rows, b, be) * (ae - a)
}

/// Among the runs that start in the first `n` rows, the start of the one
/// that was on average used earliest, the topmost of these; -1 if there is
/// no run.
pub open spec fn best_run(rows: Seq<RowView>, counter: int, rh: int, n: int) -> int
    decreases n,
{
    if n <= 0 || n > rows.len() {
        -1
    } else {
        let b = best_run(rows, counter, rh, n - 1);
        let e = run_end(rows, counter, n - 1, rh);
        if e >= 0 && (b < 0 || older(rows, n - 1, e, b, run_end(rows, counter, b, rh))) {
            n - 1
        } else {
            b
        }
    }
}

/// A row that holds nothing yet.
pub open spec fn fresh_row(y: int, height: int) -> RowView {
    RowView { y, height, next_x: 0, last_used: 0 }
}

/// The atlas with one more row of height `rh` below the others.
pub open spec fn with_fresh(v: AtlasView, rh: int) -> AtlasView {
    AtlasView { rows: v.rows.push(fresh_row(v.next_y, rh)), next_y: v.next_y + rh, ..v }
}

/// The atlas after the rows from `i` to `e` have been evicted: in their
/// place stands a row of height `rh` and, where they were higher, a second
/// row that fills the rest; the glyphs of the evicted rows are forgotten.
pub open spec fn evicted(v: AtlasView, i: int, e: int, rh: int) -> AtlasView {
    let top = v.rows[i].y;
    let end = v.rows[e - 1].y + v.rows[e - 1].height;
    let filler = if end - top > rh {
        seq![fresh_row(top + rh, end - top - rh)]
    } else {
        Seq::empty()
    };
    AtlasView {
        rows: v.rows.subrange(0, i) + seq![fresh_row(top, rh)] + filler + v.rows.subrange(
            e,
            v.rows.len() as int,
        ),
        cached: Map::new(
            |id: u16| v.cached.contains_key(id) && !(top <= v.cached[id].y < end),
            |id: u16| v.cached[id],
        ),
        ..v
    }
}

/// The rectangle that a glyph of `w` by `h` gets in the row.
pub open spec fn rect_in(row: RowView, w: u32, h: u32) -> Rect {
    Rect { x: row.next_x as u32, y: row.y as u32, w, h }
}

/// The atlas after the glyph `id` has been put at the end of row `i`, which
/// is thereby used in the current generation.
pub open spec fn placed(v: AtlasView, i: int, id: u16, w: u32, h: u32) -> AtlasView {
    let row = v.rows[i];
    AtlasView {
        rows: v.rows.update(
            i,
            RowView { next_x: row.next_x + w, last_used: v.counter, ..row },
        ),
        cached: v.cached.insert(id, rect_in(row, w, h)),
        ..v
    }
}

/// The atlas after a look at the row at `y`: the row is used in the current
/// generation.
pub open spec fn touched(v: AtlasView, y: int) -> AtlasView {
    AtlasView {
        rows: Seq::new(
            v.rows.len(),
            |k: int|
                if v.rows[k].y == y {
                    RowView { last_used: v.counter, ..v.rows[k] }
                } else {
                    v.rows[k]
                },
        ),
        ..v
    }
}

/// Where a glyph of `w` by `h` goes.
pub enum Choice {
    /// Nowhere: the atlas stays as it is.
    Nowhere,
    /// Into the row with this index.
    Row(int),
    /// Into a new row below the others.
    Fresh,
    /// Into a new row in place of the run that starts at this index.
    Evict(int),
}

/// The rule by which a glyph finds its row. A glyph larger than the atlas
/// goes nowhere. Else the row height is the glyph's height rounded up to a
/// power of two, and the glyph goes: into the topmost row of exactly that
/// height that has room; else into a new row, if the atlas has that much
/// height left; else into the lowest higher row that has room; else in place
/// of the run of rows, none of them used in this generation, that was on
/// average used earliest; else nowhere.
pub open spec fn choice(v: AtlasView, w: u32, h: u32) -> Choice {
    let rh = pow2_ceil(h as int);
    let n = v.rows.len() as int;
    if w > v.width || h > v.height {
        Choice::Nowhere
    } else if first_exact(v.rows, w as int, v.width, rh, 0) < n {
        Choice::Row(first_exact(v.rows, w as int, v.width, rh, 0))
    } else if rh <= v.height - v.next_y {
        Choice::Fresh
    } else if best_taller(v.rows, w as int, v.width, rh, n) >= 0 {
        Choice::Row(best_taller(v.rows, w as int, v.width, rh, n))
    } else if best_run(v.rows, v.counter, rh, n) >= 0 {
        Choice::Evict(best_run(v.rows, v.counter, rh, n))
    } else {
        Choice::Nowhere
    }
}

/// The atlas after `insert`.
pub open spec fn inserted(v: AtlasView, id: u16, w: u32, h: u32) -> AtlasView {
    let rh = pow2_ceil(h as int);
    match choice(v, w, h) {
        Choice::Nowhere => v,
        Choice::Row(i) => placed(v, i, id, w, h),
        Choice::Fresh => placed(with_fresh(v, rh), v.rows.len() as int, id, w, h),
        Choice::Evict(i) => placed(evicted(v, i, run_end(v.rows, v.counter, i, rh), rh), i, id, w, h),
    }
}

/// The rectangle that `insert` hands out.
pub open spec fn inserted_rect(v: AtlasView, w: u32, h: u32) -> Option<Rect> {
    match choice(v, w, h) {
        Choice::Nowhere => None,
        Choice::Row(i) => Some(rect_in(v.rows[i], w, h)),
        Choice::Fresh => Some(Rect { x: 0, y: v.next_y as u32, w, h }),
        Choice::Evict(i) => Some(Rect { x: 0, y: v.rows[i].y as u32, w, h }),
    }
}

/// The row is exactly `rh` high and has room.
pub open spec fn is_exact(row: RowView, w: int, width: int, rh: int) -> bool {
    row.height == rh && has_room(row, w, width)
}

/// The row is higher than `rh` and has room.
pub open spec fn is_taller(row: RowView, w: int, width: int, rh: int) -> bool {
    row.height > rh && has_room(row, w, width)
}

/// `first_exact` gives the topmost row from `k` on that is exactly `rh`
/// high and has room.
pub proof fn lemma_first_exact(rows: Seq<RowView>, w: int, width: int, rh: int, k: int)
    requires
        0 <= k <= rows.len(),
    ensures
        k <= first_exact(rows, w, width, rh, k) <= rows.len(),
        first_exact(rows, w, width, rh, k) < rows.len() ==> is_exact(
            rows[first_exact(rows, w, width, rh, k)],
            w,
            width,
            rh,
        ),
        forall|j: int|
            k <= j < first_exact(rows, w, width, rh, k) ==> !is_exact(#[trigger] rows[j], w, width, rh),
    decreases rows.len() - k,
{
    if k < rows.len() && !(rows[k].height == rh && has_room(rows[k], w, width)) {
        lemma_first_exact(rows, w, width, rh, k + 1);
    }
}

/// A row that is exactly `rh` high and has room, below rows that are not,
/// is what `first_exact` gives.
pub proof fn lemma_first_exact_is(rows: Seq<RowView>, w: int, width: int, rh: int, i: int)
    requires
        0 <= i <= rows.len(),
        i < rows.len() ==> is_exact(rows[i], w, width, rh),
        forall|j: int| 0 <= j < i ==> !is_exact(#[trigger] rows[j], w, width, rh),
    ensures
        first_exact(rows, w, width, rh, 0) == i,
{
    lemma_first_exact(rows, w, width, rh, 0);
    let r = first_exact(rows, w, width, rh, 0);
    if r < i {
        assert(!is_exact(rows[r], w, width, rh));
    }
}

/// `best_taller` gives a row that is higher than `rh` and has room, and no
/// other such row comes before it by height and top.
pub proof fn lemma_best_taller(rows: Seq<RowView>, w: int, width: int, rh: int, n: int)
    requires
        0 <= n <= rows.len(),
    ensures
        -1 <= best_taller(rows, w, width, rh, n) < n,
        best_taller(rows, w, width, rh, n) >= 0 ==> is_taller(
            rows[best_taller(rows, w, width, rh, n)],
            w,
            width,
            rh,
        ),
        forall|j: int|
            0 <= j < n && is_taller(#[trigger] rows[j], w, width, rh) ==> {
                &&& best_taller(rows, w, width, rh, n) >= 0
                &&& !key_less(rows[j], rows[best_taller(rows, w, width, rh, n)])
            },
    decreases n,
{
    if n > 0 {
        lemma_best_taller(rows, w, width, rh, n - 1);
    }
}

/// A row that is higher than `rh` and has room, and that comes before every
/// other such row by height and top, is what `best_taller` gives.
pub proof fn lemma_best_taller_is(rows: Seq<RowView>, w: int, width: int, rh: int, i: int)
    requires
        -1 <= i < rows.len(),
        i >= 0 ==> is_taller(rows[i], w, width, rh),
        forall|j: int|
            0 <= j < rows.len() && j != i && is_taller(#[trigger] rows[j], w, width, rh) ==> i >= 0
                && key_less(rows[i], rows[j]),
    ensures
        best_taller(rows, w, width, rh, rows.len() as int) == i,
{
    lemma_best_taller(rows, w, width, rh, rows.len() as int);
    let b = best_taller(rows, w, width, rh, rows.len() as int);
    if b >= 0 && b != i {
        assert(is_taller(rows[b], w, width, rh));
    }
}

/// A run is not empty, holds no row used in the current generation, and is
/// as high as was asked: in rows that tile, it ends `need` below its start
/// or lower.
pub proof fn lemma_run_end(rows: Seq<RowView>, next_y: int, counter: int, i: int, need: int)
    requires
        tiled(rows, next_y),
        0 <= i <= rows.len(),
        run_end(rows, counter, i, need) >= 0,
    ensures
        i <= run_end(rows, counter, i, need) <= rows.len(),
        need > 0 ==> i < run_end(rows, counter, i, need),
        forall|j: int|
            i <= j < run_end(rows, counter, i, need) ==> (#[trigger] rows[j]).last_used != counter,
        need > 0 ==> rows[run_end(rows, counter, i, need) - 1].y + rows[run_end(
            rows,
            counter,
            i,
            need,
        ) - 1].height >= rows[i].y + need,
    decreases rows.len() - i,
{
    if need > 0 {
        assert(tile_ok(rows, i));
        if need - rows[i].height > 0 {
            lemma_run_end(rows, next_y, counter, i + 1, need - rows[i].height);
            assert(tile_ok(rows, i + 1));
        }
    }
}

/// If a first run is older than a second, and a third is not older than the
/// second, then the third is not older than the first.
proof fn lemma_older_chain(sc: int, nc: int, sb: int, nb: int, ss: int, ns: int)
    requires
        nc > 0,
        nb > 0,
        ns > 0,
        sc * nb < sb * nc,
        !(ss * nb < sb * ns),
    ensures
        !(ss * nc < sc * ns),
{
    assert(sc * nb * ns < sb * nc * ns) by (nonlinear_arith)
        requires
            sc * nb < sb * nc,
            ns > 0,
    ;
    assert(sb * ns * nc <= ss * nb * nc) by (nonlinear_arith)
        requires
            sb * ns <= ss * nb,
            nc > 0,
    ;
    assert(sc * ns * nb < ss * nc * nb) by (nonlinear_arith)
        requires
            sc * nb * ns < sb * nc * ns,
            sb * ns * nc <= ss * nb * nc,
    ;
    assert(sc * ns < ss * nc) by (nonlinear_arith)
        requires
            sc * ns * nb < ss * nc * nb,
            nb > 0,
    ;
}

/// `best_run` gives the start of a run, if a run starts in one of the first
/// `n` rows, and no run that starts there was on average used earlier.
pub proof fn lemma_best_run(rows: Seq<RowView>, next_y: int, counter: int, rh: int, n: int)
    requires
        tiled(rows, next_y),
        rh >= 1,
        0 <= n <= rows.len(),
    ensures
        -1 <= best_run(rows, counter, rh, n) < n,
        best_run(rows, counter, rh, n) >= 0 ==> run_end(
            rows,
            counter,
            best_run(rows, counter, rh, n),
            rh,
        ) > best_run(rows, counter, rh, n),
        forall|s: int|
            0 <= s < n && #[trigger] run_end(rows, counter, s, rh) >= 0 ==> {
                &&& best_run(rows, counter, rh, n) >= 0
                &&& !older(
                    rows,
                    s,
                    run_end(rows, counter, s, rh),
                    best_run(rows, counter, rh, n),
                    run_end(rows, counter, best_run(rows, counter, rh, n), rh),
                )
            },
    decreases n,
{
    if n > 0 {
        lemma_best_run(rows, next_y, counter, rh, n - 1);
        let b = best_run(rows, counter, rh, n - 1);
        let e = run_end(rows, counter, n - 1, rh);
        let best = best_run(rows, counter, rh, n);
        if e >= 0 {
            lemma_run_end(rows, next_y, counter, n - 1, rh);
        }
        if b >= 0 {
            lemma_run_end(rows, next_y, counter, b, rh);
        }
        if best == n - 1 && b >= 0 {
            let be = run_end(rows, counter, b, rh);
            assert forall|s: int| 0 <= s < n - 1 && #[trigger] run_end(rows, counter, s, rh)
                >= 0 implies !older(rows, s, run_end(rows, counter, s, rh), n - 1, e) by {
                let se = run_end(rows, counter, s, rh);
                lemma_run_end(rows, next_y, counter, s, rh);
                lemma_older_chain(
                    used_sum(rows, n - 1, e),
                    e - (n - 1),
                    used_sum(rows, b, be),
                    be - b,
                    used_sum(rows, s, se),
                    se - s,
                );
            }
        }
    }
}

/// Where the `m` rows from `start` down end; where the row at `start`
/// begins if `m` is 0.
pub open spec fn run_bottom(rows: Seq<RowView>, start: int, m: int) -> int {
    if m <= 0 {
        rows[start].y
    } else {
        rows[start + m - 1].y + rows[start + m - 1].height
    }
}

/// In rows that tile, no row starts above 0.
pub proof fn lemma_tiled_start(rows: Seq<RowView>, next_y: int, j: int)
    requires
        tiled(rows, next_y),
        0 <= j < rows.len(),
    ensures
        0 <= rows[j].y,
    decreases j,
{
    assert(tile_ok(rows, j));
    if j > 0 {
        lemma_tiled_start(rows, next_y, j - 1);
        assert(tile_ok(rows, j - 1));
    }
}

/// In rows that tile, no row ends below `next_y`.
pub proof fn lemma_tiled_end(rows: Seq<RowView>, next_y: int, k: int)
    requires
        tiled(rows, next_y),
        0 <= k < rows.len(),
    ensures
        rows[k].y + rows[k].height <= next_y,
    decreases rows.len() - k,
{
    if k + 1 < rows.len() {
        lemma_tiled_end(rows, next_y, k + 1);
        assert(tile_ok(rows, k + 1));
    }
}

/// In rows that tile, a row ends before any later row starts.
pub proof fn lemma_tiled_increasing(rows: Seq<RowView>, next_y: int, j: int, k: int)
    requires
        tiled(rows, next_y),
        0 <= j < k < rows.len(),
    ensures
        rows[j].y + rows[j].height <= rows[k].y,
        0 <= rows[j].y,
        rows[k].y + rows[k].height <= next_y,
    decreases rows.len() - j,
{
    lemma_tiled_start(rows, next_y, j);
    lemma_tiled_end(rows, next_y, k);
    if j + 1 < k {
        lemma_tiled_increasing(rows, next_y, j + 1, k);
    }
    assert(tile_ok(rows, j + 1));
}

/// In rows that tile, a row ends before any later row starts, no row starts
/// above 0, none ends below `next_y`, and none is empty.
pub proof fn lemma_tiled_ordered(rows: Seq<RowView>, next_y: int, j: int, k: int)
    requires
        tiled(rows, next_y),
        0 <= j <= k < rows.len(),
    ensures
        j < k ==> rows[j].y + rows[j].height <= rows[k].y,
        0 <= rows[j].y,
        rows[j].height >= 1,
        rows[k].height >= 1,
        rows[k].y + rows[k].height <= next_y,
{
    assert(tile_ok(rows, j));
    assert(tile_ok(rows, k));
    lemma_tiled_start(rows, next_y, j);
    lemma_tiled_end(rows, next_y, k);
    if j < k {
        lemma_tiled_increasing(rows, next_y, j, k);
    }
}

/// After an eviction the rows still tile the atlas down to the same end.
pub proof fn lemma_evicted_tiled(v: AtlasView, i: int, e: int, rh: int)
    requires
        tiled(v.rows, v.next_y),
        0 <= i < e <= v.rows.len(),
        rh >= 1,
        v.rows[e - 1].y + v.rows[e - 1].height - v.rows[i].y >= rh,
    ensures
        tiled(evicted(v, i, e, rh).rows, v.next_y),
{
    let rows = v.rows;
    let n = rows.len() as int;
    let after = evicted(v, i, e, rh).rows;
    let top = rows[i].y;
    let end = rows[e - 1].y + rows[e - 1].height;
    let extra: int = if end - top > rh { 2 } else { 1 };
    assert(after.len() == n - (e - i) + extra);
    assert(tile_ok(rows, i));
    assert forall|k: int| 0 <= k < after.len() implies #[trigger] tile_ok(after, k) by {
        if k < i {
            assert(after[k] == rows[k]);
            assert(tile_ok(rows, k));
            if k > 0 {
                assert(after[k - 1] == rows[k - 1]);
            }
        } else if k == i {
            assert(after[k] == fresh_row(top, rh));
            if k > 0 {
                assert(after[k - 1] == rows[k - 1]);
            }
        } else if k < i + extra {
            assert(after[k] == fresh_row(top + rh, end - top - rh));
            assert(after[k - 1] == fresh_row(top, rh));
        } else {
            let ko = k - extra + (e - i);
            assert(after[k] == rows[ko]);
            assert(tile_ok(rows, ko));
            if ko == e {
                if extra == 2 {
                    assert(after[k - 1] == fresh_row(top + rh, end - top - rh));
                } else {
                    assert(after[k - 1] == fresh_row(top, rh));
                }
            } else {
                assert(after[k - 1] == rows[ko - 1]);
            }
        }
    }
    if e < n {
        assert(after.last() == rows.last());
    } else {
        lemma_tiled_ordered(rows, v.next_y, e - 1, e - 1);
        if extra == 2 {
            assert(after.last() == fresh_row(top + rh, end - top - rh));
        } else {
            assert(after.last() == fresh_row(top, rh));
        }
    }
}

/// A glyph whose row height is more than the atlas is high goes nowhere.
pub proof fn lemma_too_high_goes_nowhere(v: AtlasView, w: u32, h: u32)
    requires
        v.wf(),
        pow2_ceil(h as int) > v.height,
    ensures
        choice(v, w, h) == Choice::Nowhere,
{
    let rh = pow2_ceil(h as int);
    let n = v.rows.len() as int;
    crate::atlas::lemma_pow2_ceil(h as int);
    lemma_first_exact(v.rows, w as int, v.width, rh, 0);
    let e = first_exact(v.rows, w as int, v.width, rh, 0);
    if e < n {
        lemma_tiled_ordered(v.rows, v.next_y, e, e);
    }
    lemma_best_taller(v.rows, w as int, v.width, rh, n);
    let t = best_taller(v.rows, w as int, v.width, rh, n);
    if t >= 0 {
        lemma_tiled_ordered(v.rows, v.next_y, t, t);
    }
    if n > 0 {
        lemma_tiled_ordered(v.rows, v.next_y, 0, 0);
    }
    lemma_best_run(v.rows, v.next_y, v.counter, rh, n);
    let b = best_run(v.rows, v.counter, rh, n);
    if b >= 0 {
        lemma_run_end(v.rows, v.next_y, v.counter, b, rh);
        let end = run_end(v.rows, v.counter, b, rh);
        lemma_tiled_ordered(v.rows, v.next_y, b, end - 1);
    }
}

/// The rectangle that a glyph gets in a row starts where the row is filled
/// up to, at the row's top.
pub proof fn lemma_rect_in_row(v: AtlasView, i: int, w: u32, h: u32)
    requires
        v.wf(),
        0 <= i < v.rows.len(),
    ensures
        rect_in(v.rows[i], w, h).x == v.rows[i].next_x,
        rect_in(v.rows[i], w, h).y == v.rows[i].y,
{
    lemma_tiled_ordered(v.rows, v.next_y, i, i);
}

/// Every cached rectangle lies inside the atlas.
pub proof fn lemma_cached_inside(v: AtlasView, id: u16)
    requires
        v.wf(),
        v.cached.contains_key(id),
    ensures
        v.cached[id].x + v.cached[id].w <= v.width,
        v.cached[id].y + v.cached[id].h <= v.height,
{
    let k = choose|k: int| 0 <= k < v.rows.len() && in_row(#[trigger] v.rows[k], v.cached[id]);
    lemma_tiled_ordered(v.rows, v.next_y, k, k);
}

/// No two cached glyphs share a pixel.
pub proof fn lemma_cached_disjoint(v: AtlasView, a: u16, b: u16)
    requires
        v.wf(),
        v.cached.contains_key(a),
        v.cached.contains_key(b),
        a != b,
    ensures
        disjoint(v.cached[a], v.cached[b]),
{
    let ka = choose|k: int| 0 <= k < v.rows.len() && in_row(#[trigger] v.rows[k], v.cached[a]);
    let kb = choose|k: int| 0 <= k < v.rows.len() && in_row(#[trigger] v.rows[k], v.cached[b]);
    if ka < kb {
        lemma_tiled_ordered(v.rows, v.next_y, ka, kb);
    } else if kb < ka {
        lemma_tiled_ordered(v.rows, v.next_y, kb, ka);
    } else {
        assert(v.cached[a].y == v.cached[b].y);
    }
}

/// What `insert` evicts is the least recently used: none of the rows that
/// leave was used in the current generation, and no other run that could
/// have left was on average used earlier.
pub proof fn lemma_evicts_least_recently_used(v: AtlasView, w: u32, h: u32, s: int)
    requires
        v.wf(),
        choice(v, w, h) is Evict,
        0 <= s < v.rows.len(),
        run_end(v.rows, v.counter, s, pow2_ceil(h as int)) >= 0,
    ensures
        ({
            let rh = pow2_ceil(h as int);
            let b = choice(v, w, h)->Evict_0;
            let e = run_end(v.rows, v.counter, b, rh);
            &&& 0 <= b < e <= v.rows.len()
            &&& forall|j: int| b <= j < e ==> (#[trigger] v.rows[j]).last_used < v.counter
            &&& !older(v.rows, s, run_end(v.rows, v.counter, s, rh), b, e)
        }),
{
    let rh = pow2_ceil(h as int);
    let n = v.rows.len() as int;
    crate::atlas::lemma_pow2_ceil(h as int);
    lemma_best_run(v.rows, v.next_y, v.counter, rh, n);
    let b = best_run(v.rows, v.counter, rh, n);
    lemma_run_end(v.rows, v.next_y, v.counter, b, rh);
}

/// Rows that were not used in the current generation, and that are high
/// enough in all, hold a run.
proof fn lemma_run_exists(rows: Seq<RowView>, next_y: int, counter: int, i: int, need: int)
    requires
        tiled(rows, next_y),
        0 <= i <= rows.len(),
        forall|k: int| i <= k < rows.len() ==> (#[trigger] rows[k]).last_used != counter,
        need <= next_y - (if i < rows.len() { rows[i].y } else { next_y }),
    ensures
        run_end(rows, counter, i, need) >= 0,
    decreases rows.len() - i,
{
    if need > 0 {
        assert(i < rows.len());
        assert(tile_ok(rows, i));
        if i + 1 < rows.len() {
            assert(tile_ok(rows, i + 1));
        }
        lemma_run_exists(rows, next_y, counter, i + 1, need - rows[i].height);
    }
}

/// A new generation makes room: when no row was used in the current
/// generation and the rows are as high in all as the row that a glyph
/// needs, a glyph that is not wider than the atlas finds a place.
pub proof fn lemma_new_generation_makes_room(v: AtlasView, w: u32, h: u32)
    requires
        v.wf(),
        w <= v.width,
        h <= v.height,
        pow2_ceil(h as int) <= v.next_y,
        forall|k: int| 0 <= k < v.rows.len() ==> (#[trigger] v.rows[k]).last_used != v.counter,
    ensures
        !(choice(v, w, h) is Nowhere),
{
    let rh = pow2_ceil(h as int);
    let n = v.rows.len() as int;
    crate::atlas::lemma_pow2_ceil(h as int);
    assert(n > 0);
    assert(tile_ok(v.rows, 0));
    lemma_run_exists(v.rows, v.next_y, v.counter, 0, rh);
    lemma_best_run(v.rows, v.next_y, v.counter, rh, n);
    lemma_best_taller(v.rows, w as int, v.width, rh, n);
    lemma_first_exact(v.rows, w as int, v.width, rh, 0);
}

} // verus!
