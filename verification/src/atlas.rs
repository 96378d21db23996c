//! Glyph atlas: a dynamic rectangle packer with height-bucketed rows and
//! least-recently-used eviction of row runs.

use vstd::prelude::*;
use std::collections::HashMap;
use crate::atlas_model::{
    best_run, best_taller, choice, evicted, first_exact, fresh_row, in_row, inserted,
    inserted_rect, is_exact, is_taller, key_less, lemma_best_run, lemma_best_taller_is,
    lemma_evicted_tiled, lemma_first_exact_is, lemma_run_end, lemma_tiled_end,
    lemma_tiled_increasing, lemma_tiled_ordered, lemma_tiled_start, lemma_too_high_goes_nowhere,
    placed, run_bottom, run_end, tile_ok, tiled, touched, used_sum, with_fresh, AtlasView,
    Choice, Rect, RowView,
};
use crate::font::GlyphKey;

verus! {

/// Whether `n` is a power of two.
pub open spec fn is_pow2(n: int) -> bool
    decreases n,
{
    n == 1 || (n > 1 && n % 2 == 0 && is_pow2(n / 2))
}

/// Whether `r` is the smallest power of two that is at least `x`.
pub open spec fn is_pow2_ceil(x: int, r: int) -> bool {
    &&& is_pow2(r)
    &&& r >= x
    &&& forall|p: int| is_pow2(p) && p >= x ==> r <= p
}

/// A number that shares no bit with its predecessor is a power of two.
proof fn lemma_bits_pow2(r: u32, m: u32)
    requires
        r > 0,
        m == r - 1,
        r & m == 0,
    ensures
        is_pow2(r as int),
    decreases r,
{
    if r > 1 {
        let h: u32 = r / 2;
        let k: u32 = (h - 1) as u32;
        assert(r % 2 == 0 && h > 0 && h & k == 0) by (bit_vector)
            requires
                r > 1,
                m == r - 1,
                r & m == 0,
                h == r / 2,
                k == h - 1,
        ;
        lemma_bits_pow2(h, k);
    }
}

/// Between a power of two and its double lies no power of two.
pub proof fn lemma_pow2_gap(p: int, r: int)
    requires
        is_pow2(p),
        is_pow2(r),
        p < r,
    ensures
        2 * p <= r,
    decreases r,
{
    if p > 1 {
        lemma_pow2_gap(p / 2, r / 2);
    }
}

/// The smallest power of two that is at least `x`; 1 for `x <= 1`.
pub open spec fn pow2_ceil(x: int) -> int
    decreases x,
{
    if x <= 1 { 1 } else { 2 * pow2_ceil((x + 1) / 2) }
}

/// `pow2_ceil(x)` is the smallest power of two that is at least `x`.
pub proof fn lemma_pow2_ceil(x: int)
    ensures
        is_pow2_ceil(x, pow2_ceil(x)),
    decreases x,
{
    if x <= 1 {
        assert forall|p: int| is_pow2(p) && p >= x implies 1 <= p by {}
    } else {
        let h = (x + 1) / 2;
        lemma_pow2_ceil(h);
        let r = pow2_ceil(h);
        assert(is_pow2(2 * r));
        assert forall|p: int| is_pow2(p) && p >= x implies 2 * r <= p by {
            assert(is_pow2(p / 2));
            assert(p / 2 >= h);
        }
    }
}

/// Only one number is the smallest power of two that is at least `x`.
pub proof fn lemma_pow2_ceil_unique(x: int, r: int)
    requires
        is_pow2_ceil(x, r),
    ensures
        r == pow2_ceil(x),
{
    lemma_pow2_ceil(x);
}

/// The smallest power of two that is at least `x` (1 for `x == 0`).
pub fn nearest_pow_2(x: u32) -> (r: u32)
    requires
        x <= 0x8000_0000,
    ensures
        r == pow2_ceil(x as int),
        is_pow2_ceil(x as int, r as int),
{
    if x <= 1 {
        proof {
            lemma_pow2_ceil(x as int);
        }
        return 1;
    }
    let y: u32 = x - 1;
    let s1: u32 = y | (y >> 1);
    let s2: u32 = s1 | (s1 >> 2);
    let s3: u32 = s2 | (s2 >> 4);
    let s4: u32 = s3 | (s3 >> 8);
    let s5: u32 = s4 | (s4 >> 16);
    assert(s5 < 0x8000_0000 && s5 >= y) by (bit_vector)
        requires
            y < 0x8000_0000,
            s1 == y | (y >> 1),
            s2 == s1 | (s1 >> 2),
            s3 == s2 | (s2 >> 4),
            s4 == s3 | (s3 >> 8),
            s5 == s4 | (s4 >> 16),
    ;
    let r: u32 = s5 + 1;
    assert(r & s5 == 0 && r / 2 <= y) by (bit_vector)
        requires
            y < 0x8000_0000,
            y >= 1,
            s1 == y | (y >> 1),
            s2 == s1 | (s1 >> 2),
            s3 == s2 | (s2 >> 4),
            s4 == s3 | (s3 >> 8),
            s5 == s4 | (s4 >> 16),
            r == s5 + 1,
    ;
    proof {
        lemma_bits_pow2(r, s5);
        assert forall|p: int| is_pow2(p) && p >= x implies r <= p by {
            if p < r {
                lemma_pow2_gap(p, r as int);
            }
        }
        lemma_pow2_ceil_unique(x as int, r as int);
    }
    r
}

/// A glyph in a row.
#[derive(Copy, Clone, Debug)]
struct AtlasGlyph {
    x: u32,
    width: u32,
    height: u32,
    glyph_id: u16,
}

/// A horizontal strip of the atlas.
#[derive(Debug)]
struct Row {
    y: u32,
    height: u32,
    glyphs: Vec<AtlasGlyph>,
    next_x: u32,
    last_used: u64,
}

/// Where a glyph lies: the slot of its row and its place in the row.
#[derive(Copy, Clone, Debug)]
struct Location {
    row: usize,
    glyph: usize,
}

/// A rectangle packer for glyph bitmaps. Glyphs lie side by side in rows
/// whose heights are powers of two; when the atlas is full, the rows that
/// were used longest ago make room.
pub struct Atlas {
    width: u32,
    height: u32,
    rows: Vec<Option<Row>>,
    rows_by_height: Vec<usize>,
    rows_by_y: Vec<usize>,
    next_y: u32,
    map: HashMap<u16, Location>,
    counter: u64,
}

impl Row {
    /// A row at `y` that is `height` high and holds nothing yet.
    fn new(y: u32, height: u32) -> (row: Row)
        ensures
            row.y == y,
            row.height == height,
            row.glyphs@.len() == 0,
            row.next_x == 0,
            row.last_used == 0,
    {
        Row { y, height, glyphs: Vec::new(), next_x: 0, last_used: 0 }
    }
}

/// What a row is to the outside.
spec fn row_view(r: Row) -> RowView {
    RowView {
        y: r.y as int,
        height: r.height as int,
        next_x: r.next_x as int,
        last_used: r.last_used as int,
    }
}

/// The slot holds a row.
spec fn live(rows: Seq<Option<Row>>, s: usize) -> bool {
    s < rows.len() && rows[s as int] is Some
}

/// The row in a slot.
spec fn view_at(rows: Seq<Option<Row>>, s: usize) -> RowView {
    row_view(rows[s as int]->0)
}

/// The rows in the slots that a list names, in the list's order.
spec fn listed_views(rows: Seq<Option<Row>>, list: Seq<usize>) -> Seq<RowView> {
    Seq::new(list.len(), |k: int| view_at(rows, list[k]))
}

/// The rectangle of the glyph at place `g` of a row.
spec fn glyph_rect(r: Row, g: int) -> Rect {
    Rect { x: r.glyphs[g].x, y: r.y, w: r.glyphs[g].width, h: r.glyphs[g].height }
}

/// The row is not empty, lies within the atlas's width, was not used after
/// the current generation, and its glyphs lie side by side in its used part.
spec fn row_ok(r: Row, width: u32, counter: u64) -> bool {
    &&& r.next_x <= width
    &&& r.last_used <= counter
    &&& r.height >= 1
    &&& forall|g: int|
        0 <= g < r.glyphs.len() ==> {
            &&& (#[trigger] r.glyphs[g]).x + r.glyphs[g].width <= r.next_x
            &&& r.glyphs[g].height <= r.height
        }
    &&& forall|g: int, g2: int|
        0 <= g < g2 < r.glyphs.len() ==> (#[trigger] r.glyphs[g]).x + r.glyphs[g].width <= (
        #[trigger] r.glyphs[g2]).x
}

/// The location names a glyph with the identity `id` in a live row.
spec fn loc_ok(rows: Seq<Option<Row>>, loc: Location, id: u16) -> bool {
    &&& live(rows, loc.row)
    &&& loc.glyph < rows[loc.row as int]->0.glyphs.len()
    &&& rows[loc.row as int]->0.glyphs[loc.glyph as int].glyph_id == id
}

/// Every slot that the list names holds a row.
spec fn all_live(rows: Seq<Option<Row>>, list: Seq<usize>) -> bool {
    forall|k: int| 0 <= k < list.len() ==> live(rows, #[trigger] list[k])
}

/// The list is in strict order by height, and by top where heights are equal.
spec fn height_sorted(rows: Seq<Option<Row>>, list: Seq<usize>) -> bool {
    forall|j: int, k: int|
        0 <= j < k < list.len() ==> key_less(
            view_at(rows, #[trigger] list[j]),
            view_at(rows, #[trigger] list[k]),
        )
}

/// What a list holds after an insertion.
proof fn lemma_insert_members(list: Seq<usize>, i: int, v: usize)
    requires
        0 <= i <= list.len(),
    ensures
        list.insert(i, v).contains(v),
        forall|x: usize| list.contains(x) ==> #[trigger] list.insert(i, v).contains(x),
        forall|x: usize| #[trigger] list.insert(i, v).contains(x) ==> x == v || list.contains(x),
        list.no_duplicates() && !list.contains(v) ==> list.insert(i, v).no_duplicates(),
{
    let after = list.insert(i, v);
    assert(after[i] == v);
    assert forall|x: usize| list.contains(x) implies #[trigger] after.contains(x) by {
        let k = list.index_of(x);
        if k < i {
            assert(after[k] == x);
        } else {
            assert(after[k + 1] == x);
        }
    }
    assert forall|x: usize| #[trigger] after.contains(x) implies x == v || list.contains(x) by {
        let k = after.index_of(x);
        if k < i {
            assert(list[k] == x);
        } else if k > i {
            assert(list[k - 1] == x);
        }
    }
    if list.no_duplicates() && !list.contains(v) {
        assert forall|a: int, b: int| 0 <= a < after.len() && 0 <= b < after.len() && a != b implies after[a]
            != after[b] by {
            let pa = if a < i { a } else { a - 1 };
            let pb = if b < i { b } else { b - 1 };
            if a != i && b != i {
                assert(after[a] == list[pa]);
                assert(after[b] == list[pb]);
            } else if a == i {
                assert(after[b] == list[pb]);
                assert(list.contains(list[pb]));
            } else {
                assert(after[a] == list[pa]);
                assert(list.contains(list[pa]));
            }
        }
    }
}

/// What a list without repetitions holds after a removal.
proof fn lemma_remove_members(list: Seq<usize>, i: int)
    requires
        0 <= i < list.len(),
        list.no_duplicates(),
    ensures
        !list.remove(i).contains(list[i]),
        forall|x: usize| list.contains(x) && x != list[i] ==> #[trigger] list.remove(i).contains(x),
        forall|x: usize| #[trigger] list.remove(i).contains(x) ==> list.contains(x),
        list.remove(i).no_duplicates(),
{
    let after = list.remove(i);
    assert forall|x: usize| list.contains(x) && x != list[i] implies #[trigger] after.contains(
        x,
    ) by {
        let k = list.index_of(x);
        if k < i {
            assert(after[k] == x);
        } else {
            assert(after[k - 1] == x);
        }
    }
    assert forall|x: usize| #[trigger] after.contains(x) implies list.contains(x) && x != list[i] by {
        let k = after.index_of(x);
        if k < i {
            assert(list[k] == x);
        } else {
            assert(list[k + 1] == x);
        }
    }
    assert forall|a: int, b: int| 0 <= a < after.len() && 0 <= b < after.len() && a != b implies after[a]
        != after[b] by {
        let pa = if a < i { a } else { a + 1 };
        let pb = if b < i { b } else { b + 1 };
        assert(after[a] == list[pa]);
        assert(after[b] == list[pb]);
    }
}

impl View for Atlas {
    type V = AtlasView;

    closed spec fn view(&self) -> AtlasView {
        AtlasView {
            width: self.width as int,
            height: self.height as int,
            next_y: self.next_y as int,
            counter: self.counter as int,
            rows: listed_views(self.rows@, self.rows_by_y@),
            cached: Map::new(
                |id: u16| self.map@.contains_key(id),
                |id: u16| glyph_rect(self.rows@[self.map@[id].row as int]->0, self.map@[id].glyph as int),
            ),
        }
    }
}

impl Atlas {
    /// The atlas is in order: both row lists name the same rows, one by
    /// height and one from top to bottom, the rows tile the atlas from the
    /// top, and every glyph that is looked up lies where its row says.
    pub closed spec fn wf(&self) -> bool {
        &&& self.base_ok()
        &&& tiled(listed_views(self.rows@, self.rows_by_y@), self.next_y as int)
        &&& self.next_y <= self.height
    }

    /// All of `wf` but the tiling, which an eviction breaks for a moment.
    spec fn base_ok(&self) -> bool {
        &&& all_live(self.rows@, self.rows_by_height@)
        &&& height_sorted(self.rows@, self.rows_by_height@)
        &&& all_live(self.rows@, self.rows_by_y@)
        &&& self.rows_by_y@.no_duplicates()
        &&& forall|s: usize| #[trigger]
            live(self.rows@, s) ==> self.rows_by_y@.contains(s) && self.rows_by_height@.contains(s)
        &&& forall|s: usize| #[trigger]
            live(self.rows@, s) ==> row_ok(self.rows@[s as int]->0, self.width, self.counter)
        &&& forall|id: u16| #[trigger]
            self.map@.contains_key(id) ==> loc_ok(self.rows@, self.map@[id], id)
    }

    /// An atlas that is in order is so as a mathematical object as well.
    pub proof fn lemma_view_wf(&self)
        requires
            self.wf(),
        ensures
            self@.wf(),
    {
        let v = self@;
        let rows = self.rows@;
        let by = self.rows_by_y@;
        assert forall|k: int| 0 <= k < v.rows.len() implies {
            &&& 0 <= (#[trigger] v.rows[k]).next_x <= v.width
            &&& 0 <= v.rows[k].last_used <= v.counter
        } by {
            assert(live(rows, by[k]));
        }
        assert forall|id: u16| #[trigger] v.cached.contains_key(id) implies exists|k: int|
            0 <= k < v.rows.len() && in_row(#[trigger] v.rows[k], v.cached[id]) by {
            let loc = self.map@[id];
            assert(loc_ok(rows, loc, id));
            assert(live(rows, loc.row));
            let k = by.index_of(loc.row);
            assert(in_row(v.rows[k], v.cached[id]));
        }
        assert forall|a: u16, b: u16|
            #![trigger v.cached[a], v.cached[b]]
            v.cached.contains_key(a) && v.cached.contains_key(b) && a != b && v.cached[a].y
                == v.cached[b].y implies {
            ||| v.cached[a].x + v.cached[a].w <= v.cached[b].x
            ||| v.cached[b].x + v.cached[b].w <= v.cached[a].x
        } by {
            let la = self.map@[a];
            let lb = self.map@[b];
            assert(loc_ok(rows, la, a));
            assert(loc_ok(rows, lb, b));
            assert(live(rows, la.row));
            assert(live(rows, lb.row));
            self.lemma_same_y_same_row(la.row, lb.row);
            assert(la.glyph != lb.glyph);
        }
    }

    /// Two live rows at one height from the top are one row.
    proof fn lemma_same_y_same_row(&self, s: usize, t: usize)
        requires
            self.wf(),
            live(self.rows@, s),
            live(self.rows@, t),
            self.rows@[s as int]->0.y == self.rows@[t as int]->0.y,
        ensures
            s == t,
    {
        let by = self.rows_by_y@;
        let views = listed_views(self.rows@, by);
        let i = by.index_of(s);
        let j = by.index_of(t);
        if i < j {
            lemma_tiled_increasing(views, self.next_y as int, i, j);
            assert(tile_ok(views, i));
        } else if j < i {
            lemma_tiled_increasing(views, self.next_y as int, j, i);
            assert(tile_ok(views, j));
        }
    }

    /// An empty atlas of the given extent.
    pub fn new(width: u32, height: u32) -> (atlas: Atlas)
        ensures
            atlas.wf(),
            atlas@ == (AtlasView {
                width: width as int,
                height: height as int,
                next_y: 0,
                counter: 0,
                rows: Seq::empty(),
                cached: Map::empty(),
            }),
    {
        let atlas = Atlas {
            width,
            height,
            rows: Vec::new(),
            rows_by_height: Vec::new(),
            rows_by_y: Vec::new(),
            next_y: 0,
            map: HashMap::new(),
            counter: 0,
        };
        assert(atlas@.rows =~= Seq::empty());
        assert(atlas@.cached =~= Map::empty());
        atlas
    }

    /// The current generation.
    pub fn counter(&self) -> (c: u64)
        ensures
            c == self@.counter,
    {
        self.counter
    }

    /// Starts a new generation: what is used from now on is younger than
    /// everything before.
    pub fn update_counter(&mut self)
        requires
            old(self).wf(),
            old(self)@.counter < u64::MAX,
        ensures
            final(self).wf(),
            final(self)@ == (AtlasView { counter: old(self)@.counter + 1, ..old(self)@ }),
    {
        self.counter += 1;
        assert(self@.cached =~= old(self)@.cached);
    }

    /// Looks a glyph up. A glyph that is cached gives its rectangle, and its
    /// row is thereby used in the current generation.
    pub fn get_cached(&mut self, glyph_id: GlyphKey) -> (r: Option<Rect>)
        requires
            old(self).wf(),
        ensures
            final(self).wf(),
            r == old(self)@.lookup(glyph_id.0),
            final(self)@ == (match r {
                Some(rect) => touched(old(self)@, rect.y as int),
                None => old(self)@,
            }),
    {
        broadcast use vstd::std_specs::hash::group_hash_axioms;

        let loc = match self.map.get(&glyph_id.0) {
            Some(l) => *l,
            None => {
                return None;
            },
        };
        assert(loc_ok(self.rows@, loc, glyph_id.0));
        assert(live(self.rows@, loc.row));
        let counter = self.counter;
        let r = match &mut self.rows[loc.row] {
            Some(row) => {
                row.last_used = counter;
                let g = row.glyphs[loc.glyph];
                Some(Rect { x: g.x, y: row.y, w: g.width, h: g.height })
            },
            None => None,
        };
        proof {
            self.lemma_touch(*old(self), loc.row);
            assert(self@.cached =~= old(self)@.cached);
        }
        r
    }

    /// What a change of one row's generation of last use does.
    proof fn lemma_touch(&self, before: Atlas, s: usize)
        requires
            before.wf(),
            live(before.rows@, s),
            self.width == before.width,
            self.height == before.height,
            self.next_y == before.next_y,
            self.counter == before.counter,
            self.rows_by_height == before.rows_by_height,
            self.rows_by_y == before.rows_by_y,
            self.map == before.map,
            self.rows@.len() == before.rows@.len(),
            forall|t: int| 0 <= t < self.rows@.len() && t != s ==> self.rows@[t] == before.rows@[t],
            self.rows@[s as int] is Some,
            self.rows@[s as int]->0.y == before.rows@[s as int]->0.y,
            self.rows@[s as int]->0.height == before.rows@[s as int]->0.height,
            self.rows@[s as int]->0.next_x == before.rows@[s as int]->0.next_x,
            self.rows@[s as int]->0.glyphs == before.rows@[s as int]->0.glyphs,
            self.rows@[s as int]->0.last_used == before.counter,
        ensures
            self.wf(),
            listed_views(self.rows@, self.rows_by_y@) == touched(
                before@,
                before.rows@[s as int]->0.y as int,
            ).rows,
    {
        let rows = self.rows@;
        let old_rows = before.rows@;
        let by = self.rows_by_y@;
        let bh = self.rows_by_height@;
        let y = old_rows[s as int]->0.y as int;
        assert forall|t: usize| live(rows, t) <==> live(old_rows, t) by {}
        assert forall|t: usize| live(rows, t) implies view_at(rows, t).y == view_at(old_rows, t).y
            && view_at(rows, t).height == view_at(old_rows, t).height && view_at(rows, t).next_x
            == view_at(old_rows, t).next_x by {}
        assert(all_live(rows, bh)) by {
            assert forall|k: int| 0 <= k < bh.len() implies live(rows, #[trigger] bh[k]) by {
                assert(live(old_rows, bh[k]));
            }
        }
        assert(all_live(rows, by)) by {
            assert forall|k: int| 0 <= k < by.len() implies live(rows, #[trigger] by[k]) by {
                assert(live(old_rows, by[k]));
            }
        }
        assert(height_sorted(rows, bh)) by {
            assert forall|j: int, k: int| 0 <= j < k < bh.len() implies key_less(
                view_at(rows, #[trigger] bh[j]),
                view_at(rows, #[trigger] bh[k]),
            ) by {
                assert(live(old_rows, bh[j]));
                assert(live(old_rows, bh[k]));
                assert(key_less(view_at(old_rows, bh[j]), view_at(old_rows, bh[k])));
            }
        }
        let views = listed_views(rows, by);
        let old_views = listed_views(old_rows, by);
        assert(tiled(views, self.next_y as int)) by {
            assert forall|k: int| 0 <= k < views.len() implies #[trigger] tile_ok(views, k) by {
                assert(tile_ok(old_views, k));
                assert(live(old_rows, by[k]));
                if k > 0 {
                    assert(live(old_rows, by[k - 1]));
                }
            }
            if by.len() > 0 {
                assert(live(old_rows, by[by.len() - 1]));
            }
        }
        assert forall|t: usize| #[trigger] live(rows, t) implies by.contains(t) && bh.contains(t)
            && row_ok(rows[t as int]->0, self.width, self.counter) by {
            assert(live(old_rows, t));
            assert(row_ok(old_rows[t as int]->0, before.width, before.counter));
        }
        assert forall|id: u16| #[trigger] self.map@.contains_key(id) implies loc_ok(
            rows,
            self.map@[id],
            id,
        ) by {
            assert(loc_ok(old_rows, before.map@[id], id));
        }
        let target = touched(before@, y).rows;
        assert(views =~= target) by {
            assert forall|k: int| 0 <= k < views.len() implies views[k] == target[k] by {
                assert(live(old_rows, by[k]));
                if by[k] != s && old_rows[by[k] as int]->0.y == y {
                    before.lemma_same_y_same_row(by[k], s);
                }
            }
        }
    }

    /// The height and the top of a live row.
    fn row_key(&self, slot: usize) -> (key: (u32, u32))
        requires
            live(self.rows@, slot),
        ensures
            key.0 == self.rows@[slot as int]->0.height,
            key.1 == self.rows@[slot as int]->0.y,
    {
        match &self.rows[slot] {
            Some(row) => (row.height, row.y),
            None => (0, 0),
        }
    }

    /// The first place in the list by height at which a row of the given
    /// height and top can stand.
    fn lower_bound(&self, height: u32, y: u32) -> (pos: usize)
        requires
            all_live(self.rows@, self.rows_by_height@),
            height_sorted(self.rows@, self.rows_by_height@),
        ensures
            pos <= self.rows_by_height@.len(),
            forall|k: int|
                0 <= k < pos ==> key_less(
                    view_at(self.rows@, #[trigger] self.rows_by_height@[k]),
                    fresh_row(y as int, height as int),
                ),
            forall|k: int|
                pos <= k < self.rows_by_height@.len() ==> !key_less(
                    view_at(self.rows@, #[trigger] self.rows_by_height@[k]),
                    fresh_row(y as int, height as int),
                ),
    {
        let mut lo: usize = 0;
        let mut hi: usize = self.rows_by_height.len();
        while lo < hi
            invariant
                all_live(self.rows@, self.rows_by_height@),
                height_sorted(self.rows@, self.rows_by_height@),
                lo <= hi <= self.rows_by_height@.len(),
                forall|k: int|
                    0 <= k < lo ==> key_less(
                        view_at(self.rows@, #[trigger] self.rows_by_height@[k]),
                        fresh_row(y as int, height as int),
                    ),
                forall|k: int|
                    hi <= k < self.rows_by_height@.len() ==> !key_less(
                        view_at(self.rows@, #[trigger] self.rows_by_height@[k]),
                        fresh_row(y as int, height as int),
                    ),
            decreases hi - lo,
        {
            let mid = lo + (hi - lo) / 2;
            let slot = self.rows_by_height[mid];
            assert(live(self.rows@, slot));
            let key = self.row_key(slot);
            if key.0 < height || (key.0 == height && key.1 < y) {
                assert forall|k: int| 0 <= k < mid + 1 implies key_less(
                    view_at(self.rows@, #[trigger] self.rows_by_height@[k]),
                    fresh_row(y as int, height as int),
                ) by {
                    if k < mid {
                        assert(key_less(
                            view_at(self.rows@, self.rows_by_height@[k]),
                            view_at(self.rows@, self.rows_by_height@[mid as int]),
                        ));
                    }
                }
                lo = mid + 1;
            } else {
                assert forall|k: int| mid <= k < self.rows_by_height@.len() implies !key_less(
                    view_at(self.rows@, #[trigger] self.rows_by_height@[k]),
                    fresh_row(y as int, height as int),
                ) by {
                    if k > mid {
                        assert(key_less(
                            view_at(self.rows@, self.rows_by_height@[mid as int]),
                            view_at(self.rows@, self.rows_by_height@[k]),
                        ));
                    }
                }
                hi = mid;
            }
        }
        lo
    }

    /// A slot that holds no row, or the number of slots if every slot is in
    /// use.
    fn free_slot(&self) -> (slot: usize)
        ensures
            slot <= self.rows@.len(),
            !live(self.rows@, slot),
    {
        let mut slot: usize = 0;
        while slot < self.rows.len()
            invariant
                slot <= self.rows@.len(),
            decreases self.rows@.len() - slot,
        {
            if self.rows[slot].is_none() {
                return slot;
            }
            slot += 1;
        }
        slot
    }

    /// Takes a row into a free slot and into both lists: by height where its
    /// height and top put it, from the top at `at`.
    fn add_row(&mut self, row: Row, at: usize) -> (slot: usize)
        requires
            old(self).base_ok(),
            row_ok(row, old(self).width, old(self).counter),
            at <= old(self).rows_by_y@.len(),
            forall|s: usize| #[trigger]
                live(old(self).rows@, s) ==> old(self).rows@[s as int]->0.y != row.y,
        ensures
            final(self).base_ok(),
            final(self).width == old(self).width,
            final(self).height == old(self).height,
            final(self).next_y == old(self).next_y,
            final(self).counter == old(self).counter,
            final(self).map == old(self).map,
            !live(old(self).rows@, slot),
            live(final(self).rows@, slot),
            final(self).rows@[slot as int]->0 == row,
            final(self).rows@.len() >= old(self).rows@.len(),
            forall|t: int|
                0 <= t < old(self).rows@.len() && t != slot ==> final(self).rows@[t] == old(self).rows@[t],
            final(self).rows@.len() == old(self).rows@.len() || (final(self).rows@.len() == old(self).rows@.len() + 1 && slot == old(self).rows@.len()),
            final(self).rows_by_y@ == old(self).rows_by_y@.insert(at as int, slot),
            listed_views(final(self).rows@, final(self).rows_by_y@) == listed_views(
                old(self).rows@,
                old(self).rows_by_y@,
            ).insert(at as int, row_view(row)),
    {
        let pos = self.lower_bound(row.height, row.y);
        let slot = self.free_slot();
        let ghost the_row = row;
        if slot == self.rows.len() {
            self.rows.push(Some(row));
        } else {
            self.rows[slot] = Some(row);
        }
        self.rows_by_height.insert(pos, slot);
        self.rows_by_y.insert(at, slot);
        proof {
            let old_rows = old(self).rows@;
            let rows = self.rows@;
            let old_bh = old(self).rows_by_height@;
            let bh = self.rows_by_height@;
            let old_by = old(self).rows_by_y@;
            let by = self.rows_by_y@;
            assert(rows[slot as int] == Some(the_row));
            assert forall|t: usize| live(old_rows, t) implies live(rows, t) && rows[t as int]
                == old_rows[t as int] by {}
            assert forall|t: usize| #[trigger] live(rows, t) implies t == slot || live(old_rows, t) by {}
            assert(!old_by.contains(slot)) by {
                if old_by.contains(slot) {
                    let k = old_by.index_of(slot);
                    assert(live(old_rows, old_by[k]));
                }
            }
            assert(!old_bh.contains(slot)) by {
                if old_bh.contains(slot) {
                    let k = old_bh.index_of(slot);
                    assert(live(old_rows, old_bh[k]));
                }
            }
            lemma_insert_members(old_bh, pos as int, slot);
            lemma_insert_members(old_by, at as int, slot);
            assert forall|k: int| 0 <= k < bh.len() implies live(rows, #[trigger] bh[k]) by {
                if k < pos {
                    assert(live(old_rows, old_bh[k]));
                } else if k > pos {
                    assert(live(old_rows, old_bh[k - 1]));
                }
            }
            assert forall|k: int| 0 <= k < by.len() implies live(rows, #[trigger] by[k]) by {
                if k < at {
                    assert(live(old_rows, old_by[k]));
                } else if k > at {
                    assert(live(old_rows, old_by[k - 1]));
                }
            }
            assert forall|j: int, k: int| 0 <= j < k < bh.len() implies key_less(
                view_at(rows, #[trigger] bh[j]),
                view_at(rows, #[trigger] bh[k]),
            ) by {
                let pj = if j < pos { j } else { j - 1 };
                let pk = if k < pos { k } else { k - 1 };
                if j != pos && k != pos {
                    assert(live(old_rows, old_bh[pj]));
                    assert(live(old_rows, old_bh[pk]));
                    assert(key_less(view_at(old_rows, old_bh[pj]), view_at(old_rows, old_bh[pk])));
                } else if j == pos {
                    assert(live(old_rows, old_bh[pk]));
                    assert(!key_less(
                        view_at(old_rows, old_bh[pk]),
                        fresh_row(the_row.y as int, the_row.height as int),
                    ));
                } else {
                    assert(live(old_rows, old_bh[pj]));
                    assert(key_less(
                        view_at(old_rows, old_bh[pj]),
                        fresh_row(the_row.y as int, the_row.height as int),
                    ));
                }
            }
            assert forall|t: usize| #[trigger] live(rows, t) implies by.contains(t) && bh.contains(t)
                && row_ok(rows[t as int]->0, self.width, self.counter) by {
                if t != slot {
                    assert(live(old_rows, t));
                }
            }
            assert forall|id: u16| #[trigger] self.map@.contains_key(id) implies loc_ok(
                rows,
                self.map@[id],
                id,
            ) by {
                assert(loc_ok(old_rows, old(self).map@[id], id));
                assert(live(old_rows, old(self).map@[id].row));
            }
            let views = listed_views(rows, by);
            let target = listed_views(old_rows, old_by).insert(at as int, row_view(the_row));
            assert(views =~= target) by {
                assert forall|k: int| 0 <= k < views.len() implies views[k] == target[k] by {
                    if k < at {
                        assert(live(old_rows, old_by[k]));
                    } else if k > at {
                        assert(live(old_rows, old_by[k - 1]));
                    }
                }
            }
        }
        slot
    }

    /// Glyphs whose rows do not change keep their rectangles.
    proof fn lemma_cached_frame(&self, before: Atlas)
        requires
            before.base_ok(),
            self.map == before.map,
            forall|t: usize| #[trigger]
                live(before.rows@, t) ==> t < self.rows@.len() && self.rows@[t as int]
                    == before.rows@[t as int],
        ensures
            self@.cached == before@.cached,
    {
        assert forall|id: u16| self.map@.contains_key(id) implies #[trigger] self@.cached[id]
            == before@.cached[id] by {
            assert(loc_ok(before.rows@, before.map@[id], id));
            assert(live(before.rows@, before.map@[id].row));
        }
        assert(self@.cached =~= before@.cached);
    }

    /// Adds a row of the given height below the others, if the atlas has
    /// that much height left.
    fn try_add_row(&mut self, row_height: u32) -> (r: Option<usize>)
        requires
            old(self).wf(),
            row_height >= 1,
        ensures
            final(self).wf(),
            r is Some <==> row_height <= old(self).height - old(self).next_y,
            match r {
                Some(slot) => {
                    &&& final(self)@ == with_fresh(old(self)@, row_height as int)
                    &&& final(self).rows_by_y@.len() == old(self).rows_by_y@.len() + 1
                    &&& slot == final(self).rows_by_y@[old(self).rows_by_y@.len() as int]
                },
                None => *final(self) == *old(self),
            },
    {
        if row_height <= self.height - self.next_y {
            let at = self.rows_by_y.len();
            let row = Row::new(self.next_y, row_height);
            proof {
                let views = listed_views(self.rows@, self.rows_by_y@);
                assert forall|s: usize| #[trigger] live(self.rows@, s) implies self.rows@[s as int]->0.y
                    != row.y by {
                    let k = self.rows_by_y@.index_of(s);
                    lemma_tiled_end(views, self.next_y as int, k);
                    assert(tile_ok(views, k));
                }
            }
            let slot = self.add_row(row, at);
            self.next_y += row_height;
            proof {
                let old_views = listed_views(old(self).rows@, old(self).rows_by_y@);
                let views = listed_views(self.rows@, self.rows_by_y@);
                assert(views =~= old_views.push(fresh_row(old(self).next_y as int, row_height as int)));
                assert forall|k: int| 0 <= k < views.len() implies #[trigger] tile_ok(views, k) by {
                    if k < at {
                        assert(tile_ok(old_views, k));
                    }
                }
                self.lemma_cached_frame(*old(self));
            }
            Some(slot)
        } else {
            None
        }
    }

    /// A list in strict order names no row twice.
    proof fn lemma_by_height_distinct(&self)
        requires
            height_sorted(self.rows@, self.rows_by_height@),
        ensures
            self.rows_by_height@.no_duplicates(),
    {
        let bh = self.rows_by_height@;
        assert forall|a: int, b: int| 0 <= a < bh.len() && 0 <= b < bh.len() && a != b implies bh[a]
            != bh[b] by {
            if a < b {
                assert(key_less(view_at(self.rows@, bh[a]), view_at(self.rows@, bh[b])));
            } else {
                assert(key_less(view_at(self.rows@, bh[b]), view_at(self.rows@, bh[a])));
            }
        }
    }

    /// The number of glyphs in a live row.
    fn glyph_count(&self, slot: usize) -> (n: usize)
        requires
            live(self.rows@, slot),
        ensures
            n == self.rows@[slot as int]->0.glyphs@.len(),
    {
        match &self.rows[slot] {
            Some(row) => row.glyphs.len(),
            None => 0,
        }
    }

    /// The identity of a glyph in a live row.
    fn glyph_id_at(&self, slot: usize, g: usize) -> (id: u16)
        requires
            live(self.rows@, slot),
            g < self.rows@[slot as int]->0.glyphs@.len(),
        ensures
            id == self.rows@[slot as int]->0.glyphs@[g as int].glyph_id,
    {
        match &self.rows[slot] {
            Some(row) => row.glyphs[g].glyph_id,
            None => 0,
        }
    }

    /// Takes the row at place `at` from the top out of the atlas and
    /// forgets the glyphs that lie in it.
    fn remove_row(&mut self, at: usize)
        requires
            old(self).base_ok(),
            at < old(self).rows_by_y@.len(),
        ensures
            final(self).base_ok(),
            final(self).width == old(self).width,
            final(self).height == old(self).height,
            final(self).next_y == old(self).next_y,
            final(self).counter == old(self).counter,
            final(self).rows_by_y@ == old(self).rows_by_y@.remove(at as int),
            final(self).rows@.len() == old(self).rows@.len(),
            !live(final(self).rows@, old(self).rows_by_y@[at as int]),
            forall|t: int|
                0 <= t < old(self).rows@.len() && t != old(self).rows_by_y@[at as int] ==> final(self).rows@[t] == old(self).rows@[t],
            forall|id: u16|
                final(self).map@.contains_key(id) <==> old(self).map@.contains_key(id) && old(self).map@[id].row != old(self).rows_by_y@[at as int],
            forall|id: u16|
                final(self).map@.contains_key(id) ==> final(self).map@[id] == old(self).map@[id],
            listed_views(final(self).rows@, final(self).rows_by_y@) == listed_views(
                old(self).rows@,
                old(self).rows_by_y@,
            ).remove(at as int),
    {
        broadcast use vstd::std_specs::hash::group_hash_axioms;

        let slot = self.rows_by_y[at];
        assert(live(self.rows@, slot));
        let mut k: usize = 0;
        while k < self.rows_by_height.len() && self.rows_by_height[k] != slot
            invariant
                k <= self.rows_by_height@.len(),
                forall|j: int| 0 <= j < k ==> self.rows_by_height@[j] != slot,
            decreases self.rows_by_height@.len() - k,
        {
            k += 1;
        }
        proof {
            let bh = self.rows_by_height@;
            let j = bh.index_of(slot);
            assert(bh[j] == slot);
            assert(k < bh.len());
            self.lemma_by_height_distinct();
            lemma_remove_members(bh, k as int);
            lemma_remove_members(self.rows_by_y@, at as int);
        }
        self.rows_by_height.remove(k);
        self.rows_by_y.remove(at);
        let n = self.glyph_count(slot);
        let mut g: usize = 0;
        while g < n
            invariant
                g <= n,
                n == self.rows@[slot as int]->0.glyphs@.len(),
                live(self.rows@, slot),
                self.rows@ == old(self).rows@,
                old(self).base_ok(),
                at < old(self).rows_by_y@.len(),
                k < old(self).rows_by_height@.len(),
                slot == old(self).rows_by_y@[at as int],
                slot == old(self).rows_by_height@[k as int],
                self.width == old(self).width,
                self.height == old(self).height,
                self.next_y == old(self).next_y,
                self.counter == old(self).counter,
                self.rows_by_y@ == old(self).rows_by_y@.remove(at as int),
                self.rows_by_height@ == old(self).rows_by_height@.remove(k as int),
                forall|id: u16| #[trigger]
                    old(self).map@.contains_key(id) ==> loc_ok(self.rows@, old(self).map@[id], id),
                forall|id: u16|
                    self.map@.contains_key(id) ==> old(self).map@.contains_key(id) && self.map@[id]
                        == old(self).map@[id],
                forall|id: u16|
                    old(self).map@.contains_key(id) && old(self).map@[id].row != slot
                        ==> self.map@.contains_key(id),
                forall|id: u16|
                    self.map@.contains_key(id) && self.map@[id].row == slot ==> self.map@[id].glyph
                        >= g,
            decreases n - g,
        {
            let id = self.glyph_id_at(slot, g);
            let here = match self.map.get(&id) {
                Some(loc) => loc.row == slot,
                None => false,
            };
            if here {
                self.map.remove(&id);
            }
            proof {
                assert forall|other: u16|
                    self.map@.contains_key(other) && self.map@[other].row == slot implies self.map@[other].glyph
                    >= g + 1 by {
                    assert(loc_ok(self.rows@, old(self).map@[other], other));
                }
            }
            g += 1;
        }
        self.rows[slot] = None;
        proof {
            let old_rows = old(self).rows@;
            let rows = self.rows@;
            let old_bh = old(self).rows_by_height@;
            let bh = self.rows_by_height@;
            let old_by = old(self).rows_by_y@;
            let by = self.rows_by_y@;
            assert forall|t: usize| #[trigger] live(rows, t) implies live(old_rows, t) && t != slot
                && rows[t as int] == old_rows[t as int] by {}
            assert forall|j: int| 0 <= j < bh.len() implies live(rows, #[trigger] bh[j]) by {
                assert(bh.contains(bh[j]));
                let pj = if j < k { j } else { j + 1 };
                assert(bh[j] == old_bh[pj]);
                assert(live(old_rows, old_bh[pj]));
            }
            assert forall|j: int| 0 <= j < by.len() implies live(rows, #[trigger] by[j]) by {
                assert(by.contains(by[j]));
                let pj = if j < at { j } else { j + 1 };
                assert(by[j] == old_by[pj]);
                assert(live(old_rows, old_by[pj]));
            }
            assert forall|i: int, j: int| 0 <= i < j < bh.len() implies key_less(
                view_at(rows, #[trigger] bh[i]),
                view_at(rows, #[trigger] bh[j]),
            ) by {
                let pi = if i < k { i } else { i + 1 };
                let pj = if j < k { j } else { j + 1 };
                assert(bh[i] == old_bh[pi]);
                assert(bh[j] == old_bh[pj]);
                assert(bh.contains(bh[i]));
                assert(bh.contains(bh[j]));
                assert(key_less(view_at(old_rows, old_bh[pi]), view_at(old_rows, old_bh[pj])));
            }
            assert forall|t: usize| #[trigger] live(rows, t) implies by.contains(t) && bh.contains(t)
                && row_ok(rows[t as int]->0, self.width, self.counter) by {
                assert(live(old_rows, t));
            }
            assert forall|id: u16| #[trigger] self.map@.contains_key(id) implies loc_ok(
                rows,
                self.map@[id],
                id,
            ) by {
                assert(loc_ok(old_rows, old(self).map@[id], id));
            }
            let views = listed_views(rows, by);
            let target = listed_views(old_rows, old_by).remove(at as int);
            assert(views =~= target) by {
                assert forall|j: int| 0 <= j < views.len() implies views[j] == target[j] by {
                    assert(by.contains(by[j]));
                    let pj = if j < at { j } else { j + 1 };
                    assert(by[j] == old_by[pj]);
                }
            }
            assert forall|id: u16|
                self.map@.contains_key(id) <==> old(self).map@.contains_key(id) && old(self).map@[id].row != slot by {
                if old(self).map@.contains_key(id) {
                    assert(loc_ok(old_rows, old(self).map@[id], id));
                }
            }
        }
    }

    /// The top, the height and the generation of last use of a live row.
    fn row_stats(&self, slot: usize) -> (stats: (u32, u32, u64))
        requires
            live(self.rows@, slot),
        ensures
            stats.0 == self.rows@[slot as int]->0.y,
            stats.1 == self.rows@[slot as int]->0.height,
            stats.2 == self.rows@[slot as int]->0.last_used,
    {
        match &self.rows[slot] {
            Some(row) => (row.y, row.height, row.last_used),
            None => (0, 0, 0),
        }
    }

    /// The run of rows that was on average used earliest, among the runs
    /// that are `row_height` high and hold no row used in this generation:
    /// its first and its last place from the top, the last exclusive.
    fn find_oldest_run(&self, row_height: u32) -> (r: Option<(usize, usize)>)
        requires
            self.wf(),
            row_height >= 1,
        ensures
            match r {
                Some((start, end)) => {
                    &&& start == best_run(
                        self@.rows,
                        self@.counter,
                        row_height as int,
                        self@.rows.len() as int,
                    )
                    &&& end == run_end(self@.rows, self@.counter, start as int, row_height as int)
                    &&& start < end <= self@.rows.len()
                },
                None => best_run(
                    self@.rows,
                    self@.counter,
                    row_height as int,
                    self@.rows.len() as int,
                ) < 0,
            },
    {
        let ghost views = listed_views(self.rows@, self.rows_by_y@);
        let ghost counter = self.counter as int;
        let ghost rh = row_height as int;
        let n = self.rows_by_y.len();
        let mut found = false;
        let mut best: usize = 0;
        let mut best_end: usize = 0;
        let mut best_sum: u128 = 0;
        let mut i: usize = 0;
        while i < n
            invariant
                self.wf(),
                views == listed_views(self.rows@, self.rows_by_y@),
                views == self@.rows,
                counter == self.counter,
                rh == row_height,
                rh >= 1,
                n == self.rows_by_y@.len(),
                i <= n,
                found <==> best_run(views, counter, rh, i as int) >= 0,
                found ==> {
                    &&& best == best_run(views, counter, rh, i as int)
                    &&& best_end == run_end(views, counter, best as int, rh)
                    &&& best < best_end <= n
                    &&& best_end - best <= u32::MAX
                    &&& best_sum == used_sum(views, best as int, best_end as int)
                    &&& best_sum <= u64::MAX * (best_end - best)
                },
            decreases n - i,
        {
            let mut j: usize = i;
            let mut covered: u64 = 0;
            let mut sum: u128 = 0;
            let mut open = true;
            while open && covered < row_height as u64
                invariant
                    self.wf(),
                    views == listed_views(self.rows@, self.rows_by_y@),
                    counter == self.counter,
                    rh == row_height,
                    n == self.rows_by_y@.len(),
                    i <= j <= n,
                    j - i <= covered <= u32::MAX,
                    j < n ==> covered == views[j as int].y - views[i as int].y,
                    j == n ==> covered == self.next_y - views[i as int].y,
                    open ==> run_end(views, counter, i as int, rh) == run_end(
                        views,
                        counter,
                        j as int,
                        rh - covered,
                    ),
                    !open ==> run_end(views, counter, i as int, rh) == -1 && covered < rh,
                    sum == used_sum(views, i as int, j as int),
                    sum <= u64::MAX * (j - i),
                decreases n - j + (if open { 1int } else { 0int }),
            {
                if j == n {
                    open = false;
                } else {
                    let slot = self.rows_by_y[j];
                    assert(live(self.rows@, slot));
                    let stats = self.row_stats(slot);
                    if stats.2 == self.counter {
                        open = false;
                    } else {
                        proof {
                            assert(tile_ok(views, j as int));
                            lemma_tiled_end(views, self.next_y as int, j as int);
                            lemma_tiled_start(views, self.next_y as int, i as int);
                            if j + 1 < n {
                                assert(tile_ok(views, j + 1));
                            }
                            assert(u64::MAX * (j - i) + u64::MAX == u64::MAX * (j + 1 - i))
                                by (nonlinear_arith);
                        }
                        covered += stats.1 as u64;
                        sum += stats.2 as u128;
                        j += 1;
                    }
                }
            }
            if open {
                proof {
                    assert(u64::MAX * (j - i) <= u64::MAX * u32::MAX) by (nonlinear_arith)
                        requires
                            j - i <= u32::MAX,
                    ;
                    if found {
                        assert(u64::MAX * (best_end - best) <= u64::MAX * u32::MAX)
                            by (nonlinear_arith)
                            requires
                                best_end - best <= u32::MAX,
                        ;
                        assert(sum * (best_end - best) <= u64::MAX * u32::MAX * u32::MAX)
                            by (nonlinear_arith)
                            requires
                                sum <= u64::MAX * u32::MAX,
                                0 <= best_end - best <= u32::MAX,
                        ;
                        assert(best_sum * (j - i) <= u64::MAX * u32::MAX * u32::MAX)
                            by (nonlinear_arith)
                            requires
                                best_sum <= u64::MAX * u32::MAX,
                                0 <= j - i <= u32::MAX,
                        ;
                    }
                }
                if !found || sum * ((best_end - best) as u128) < best_sum * ((j - i) as u128) {
                    found = true;
                    best = i;
                    best_end = j;
                    best_sum = sum;
                }
            }
            i += 1;
        }
        if found {
            Some((best, best_end))
        } else {
            None
        }
    }

    /// The place from the top at which a live row stands.
    proof fn lemma_place_of(&self, s: usize) -> (k: int)
        requires
            self.wf(),
            live(self.rows@, s),
        ensures
            0 <= k < self.rows_by_y@.len(),
            self.rows_by_y@[k] == s,
            listed_views(self.rows@, self.rows_by_y@)[k] == view_at(self.rows@, s),
    {
        self.rows_by_y@.index_of(s)
    }

    /// A row other than the row at place `k` from the top starts outside of
    /// that row.
    proof fn lemma_row_apart(&self, a: usize, k: int)
        requires
            self.wf(),
            live(self.rows@, a),
            0 <= k < self.rows_by_y@.len(),
        ensures
            ({
                let views = listed_views(self.rows@, self.rows_by_y@);
                let y = self.rows@[a as int]->0.y as int;
                &&& (a == self.rows_by_y@[k] ==> y == views[k].y)
                &&& (a != self.rows_by_y@[k] ==> y < views[k].y || y >= views[k].y + views[k].height)
                &&& (y < views[k].y ==> y < run_bottom(views, k, 0))
            }),
    {
        let views = listed_views(self.rows@, self.rows_by_y@);
        let ka = self.lemma_place_of(a);
        if ka < k {
            lemma_tiled_ordered(views, self.next_y as int, ka, k);
        } else if ka > k {
            lemma_tiled_ordered(views, self.next_y as int, k, ka);
        }
    }

    /// Takes the rows from `start` to `end`, counted from the top, out of
    /// the atlas, and forgets the glyphs that lie in them.
    fn forget_run(&mut self, start: usize, end: usize)
        requires
            old(self).wf(),
            start < end <= old(self).rows_by_y@.len(),
        ensures
            final(self).base_ok(),
            final(self).width == old(self).width,
            final(self).height == old(self).height,
            final(self).next_y == old(self).next_y,
            final(self).counter == old(self).counter,
            final(self).rows@.len() == old(self).rows@.len(),
            final(self).rows_by_y@ == old(self).rows_by_y@.subrange(0, start as int) + old(
                self,
            ).rows_by_y@.subrange(end as int, old(self).rows_by_y@.len() as int),
            listed_views(final(self).rows@, final(self).rows_by_y@) == old(self)@.rows.subrange(
                0,
                start as int,
            ) + old(self)@.rows.subrange(end as int, old(self)@.rows.len() as int),
            forall|t: usize| #[trigger]
                live(final(self).rows@, t) ==> live(old(self).rows@, t) && final(self).rows@[t as int]
                    == old(self).rows@[t as int],
            forall|id: u16|
                final(self).map@.contains_key(id) <==> old(self).map@.contains_key(id) && !(old(
                    self,
                )@.rows[start as int].y <= old(self).rows@[old(self).map@[id].row as int]->0.y
                    < run_bottom(old(self)@.rows, start as int, end - start)),
            forall|id: u16|
                final(self).map@.contains_key(id) ==> final(self).map@[id] == old(self).map@[id],
    {
        let ghost old_views = listed_views(self.rows@, self.rows_by_y@);
        let ghost old_by = self.rows_by_y@;
        let ghost n = self.rows_by_y@.len() as int;
        let ghost top = old_views[start as int].y;
        let mut m: usize = 0;
        while m < end - start
            invariant
                old(self).wf(),
                old_views == listed_views(old(self).rows@, old(self).rows_by_y@),
                old_by == old(self).rows_by_y@,
                n == old_by.len(),
                start < end <= n,
                top == old_views[start as int].y,
                m <= end - start,
                self.base_ok(),
                self.width == old(self).width,
                self.height == old(self).height,
                self.next_y == old(self).next_y,
                self.counter == old(self).counter,
                self.rows@.len() == old(self).rows@.len(),
                self.rows_by_y@ == old_by.subrange(0, start as int) + old_by.subrange(start + m, n),
                listed_views(self.rows@, self.rows_by_y@) == old_views.subrange(0, start as int)
                    + old_views.subrange(start + m, n),
                forall|t: usize| #[trigger]
                    live(self.rows@, t) ==> live(old(self).rows@, t) && self.rows@[t as int] == old(
                        self,
                    ).rows@[t as int],
                forall|id: u16|
                    self.map@.contains_key(id) <==> old(self).map@.contains_key(id) && !(top
                        <= old(self).rows@[old(self).map@[id].row as int]->0.y < run_bottom(
                        old_views,
                        start as int,
                        m as int,
                    )),
                forall|id: u16|
                    self.map@.contains_key(id) ==> self.map@[id] == old(self).map@[id],
            decreases end - start - m,
        {
            let ghost before = *self;
            let ghost q = self.rows_by_y@[start as int];
            assert(q == old_by[start + m]);
            self.remove_row(start);
            proof {
                assert(self.rows_by_y@ =~= old_by.subrange(0, start as int) + old_by.subrange(
                    start + m + 1,
                    n,
                ));
                assert(listed_views(self.rows@, self.rows_by_y@) =~= old_views.subrange(
                    0,
                    start as int,
                ) + old_views.subrange(start + m + 1, n));
                assert(tile_ok(old_views, start + m));
                assert forall|id: u16|
                    self.map@.contains_key(id) <==> old(self).map@.contains_key(id) && !(top
                        <= old(self).rows@[old(self).map@[id].row as int]->0.y < run_bottom(
                        old_views,
                        start as int,
                        m + 1,
                    )) by {
                    if old(self).map@.contains_key(id) {
                        let a = old(self).map@[id].row;
                        assert(loc_ok(old(self).rows@, old(self).map@[id], id));
                        old(self).lemma_row_apart(a, start + m);
                        lemma_tiled_ordered(old_views, old(self).next_y as int, start as int, start + m);
                    }
                }
            }
            m += 1;
        }
        assert(self.rows_by_y@ =~= old_by.subrange(0, start as int) + old_by.subrange(end as int, n));
    }

    /// Puts a new row of height `row_height` in the place of the rows from
    /// `start` to `end`, counted from the top, and a second row below it
    /// where these were higher. The glyphs of the rows that leave are
    /// forgotten.
    fn evict_run(&mut self, start: usize, end: usize, row_height: u32) -> (slot: usize)
        requires
            old(self).wf(),
            row_height >= 1,
            start < end <= old(self)@.rows.len(),
            old(self)@.rows[end - 1].y + old(self)@.rows[end - 1].height - old(self)@.rows[start as int].y
                >= row_height,
        ensures
            final(self).wf(),
            final(self)@ == evicted(old(self)@, start as int, end as int, row_height as int),
            start < final(self).rows_by_y@.len(),
            slot == final(self).rows_by_y@[start as int],
    {
        let ghost old_views = listed_views(self.rows@, self.rows_by_y@);
        let ghost n = self.rows_by_y@.len() as int;
        let ghost next_y = self.next_y as int;
        assert(live(self.rows@, self.rows_by_y@[start as int]));
        assert(live(self.rows@, self.rows_by_y@[end - 1]));
        let first = self.row_stats(self.rows_by_y[start]);
        let last = self.row_stats(self.rows_by_y[end - 1]);
        proof {
            lemma_tiled_ordered(old_views, next_y, start as int, end - 1);
        }
        let top = first.0;
        let bottom = last.0 + last.1;
        self.forget_run(start, end);
        let ghost mid = *self;
        proof {
            let mid_views = listed_views(self.rows@, self.rows_by_y@);
            assert forall|s: usize| #[trigger] live(self.rows@, s) implies self.rows@[s as int]->0.y
                < top || self.rows@[s as int]->0.y >= bottom by {
                let k = self.rows_by_y@.index_of(s);
                assert(mid_views[k] == view_at(self.rows@, s));
                if k < start {
                    assert(mid_views[k] == old_views[k]);
                    lemma_tiled_ordered(old_views, next_y, k, start as int);
                } else {
                    let ko = k + (end - start);
                    assert(mid_views[k] == old_views[ko]);
                    lemma_tiled_ordered(old_views, next_y, end - 1, ko);
                }
            }
        }
        let slot = self.add_row(Row::new(top, row_height), start);
        let ghost one = *self;
        if bottom - top > row_height {
            proof {
                assert forall|s: usize| #[trigger] live(self.rows@, s) implies self.rows@[s as int]->0.y
                    != top + row_height by {
                    if s != slot {
                        assert(live(mid.rows@, s));
                    }
                }
            }
            let filler = self.add_row(Row::new(top + row_height, bottom - top - row_height), start + 1);
        }
        proof {
            let mid_views = listed_views(mid.rows@, mid.rows_by_y@);
            let target = evicted(old(self)@, start as int, end as int, row_height as int);
            assert(old(self)@.rows == old_views);
            assert(mid_views == old_views.subrange(0, start as int) + old_views.subrange(
                end as int,
                n,
            ));
            assert(listed_views(one.rows@, one.rows_by_y@) == mid_views.insert(
                start as int,
                fresh_row(top as int, row_height as int),
            ));
            assert(listed_views(self.rows@, self.rows_by_y@) =~= target.rows);
            self.lemma_evict_done(*old(self), mid, one, start, end, row_height, slot);
        }
        slot
    }

    /// What stands after an eviction is the atlas that `evicted` describes.
    proof fn lemma_evict_done(
        &self,
        before: Atlas,
        mid: Atlas,
        one: Atlas,
        start: usize,
        end: usize,
        row_height: u32,
        slot: usize,
    )
        requires
            before.wf(),
            row_height >= 1,
            start < end <= before@.rows.len(),
            run_bottom(before@.rows, start as int, end - start) - before@.rows[start as int].y
                >= row_height,
            self.base_ok(),
            self.width == before.width,
            self.height == before.height,
            self.next_y == before.next_y,
            self.counter == before.counter,
            self.map == mid.map,
            mid.base_ok(),
            forall|t: usize| #[trigger]
                live(mid.rows@, t) ==> live(before.rows@, t) && mid.rows@[t as int]
                    == before.rows@[t as int],
            forall|t: usize| #[trigger]
                live(mid.rows@, t) ==> t < self.rows@.len() && self.rows@[t as int]
                    == mid.rows@[t as int],
            forall|id: u16|
                mid.map@.contains_key(id) <==> before.map@.contains_key(id) && !(
                before@.rows[start as int].y <= before.rows@[before.map@[id].row as int]->0.y
                    < run_bottom(before@.rows, start as int, end - start)),
            forall|id: u16| mid.map@.contains_key(id) ==> mid.map@[id] == before.map@[id],
            listed_views(self.rows@, self.rows_by_y@) == evicted(
                before@,
                start as int,
                end as int,
                row_height as int,
            ).rows,
        ensures
            self.wf(),
            self@ == evicted(before@, start as int, end as int, row_height as int),
    {
        let target = evicted(before@, start as int, end as int, row_height as int);
        lemma_evicted_tiled(before@, start as int, end as int, row_height as int);
        assert forall|id: u16| self.map@.contains_key(id) implies #[trigger] self@.cached[id]
            == before@.cached[id] by {
            assert(loc_ok(mid.rows@, mid.map@[id], id));
            assert(live(mid.rows@, mid.map@[id].row));
        }
        assert(self@.cached =~= target.cached);
    }

    /// Makes room for a row of the given height by evicting the run of rows
    /// that was on average used earliest, if there is a run to evict.
    fn try_overwrite_rows(&mut self, row_height: u32) -> (r: Option<usize>)
        requires
            old(self).wf(),
            row_height >= 1,
        ensures
            final(self).wf(),
            ({
                let v = old(self)@;
                let b = best_run(v.rows, v.counter, row_height as int, v.rows.len() as int);
                if b >= 0 {
                    &&& b < final(self).rows_by_y@.len()
                    &&& r == Some(final(self).rows_by_y@[b])
                    &&& final(self)@ == evicted(
                        v,
                        b,
                        run_end(v.rows, v.counter, b, row_height as int),
                        row_height as int,
                    )
                } else {
                    r is None && *final(self) == *old(self)
                }
            }),
    {
        match self.find_oldest_run(row_height) {
            Some((start, end)) => {
                proof {
                    lemma_run_end(
                        self@.rows,
                        self@.next_y,
                        self@.counter,
                        start as int,
                        row_height as int,
                    );
                }
                Some(self.evict_run(start, end, row_height))
            },
            None => None,
        }
    }

    /// The height of a live row and how far it is filled.
    fn row_fill(&self, slot: usize) -> (fill: (u32, u32))
        requires
            live(self.rows@, slot),
        ensures
            fill.0 == self.rows@[slot as int]->0.height,
            fill.1 == self.rows@[slot as int]->0.next_x,
    {
        match &self.rows[slot] {
            Some(row) => (row.height, row.next_x),
            None => (0, 0),
        }
    }

    /// The place by height at which a live row stands.
    proof fn lemma_rank_of(&self, s: usize) -> (p: int)
        requires
            self.wf(),
            live(self.rows@, s),
        ensures
            0 <= p < self.rows_by_height@.len(),
            self.rows_by_height@[p] == s,
    {
        self.rows_by_height@.index_of(s)
    }

    /// A row found by height is the row that the rule names: the topmost of
    /// the rows of its height that have room, if the rows before it by
    /// height are lower or have no room.
    proof fn lemma_found_exact(&self, w: u32, rh: int, p: int)
        requires
            self.wf(),
            0 <= p <= self.rows_by_height@.len(),
            forall|k: int|
                0 <= k < p ==> !is_exact(
                    view_at(self.rows@, #[trigger] self.rows_by_height@[k]),
                    w as int,
                    self.width as int,
                    rh,
                ),
            p < self.rows_by_height@.len() ==> is_exact(
                view_at(self.rows@, self.rows_by_height@[p]),
                w as int,
                self.width as int,
                rh,
            ),
        ensures
            p < self.rows_by_height@.len() ==> {
                &&& 0 <= first_exact(self@.rows, w as int, self@.width, rh, 0) < self@.rows.len()
                &&& self.rows_by_y@[first_exact(self@.rows, w as int, self@.width, rh, 0)]
                    == self.rows_by_height@[p]
            },
    {
        let bh = self.rows_by_height@;
        let by = self.rows_by_y@;
        let views = listed_views(self.rows@, by);
        if p < bh.len() {
            let s = bh[p];
            assert(live(self.rows@, s));
            let i = self.lemma_place_of(s);
            assert forall|j: int| 0 <= j < i implies !is_exact(
                #[trigger] views[j],
                w as int,
                self.width as int,
                rh,
            ) by {
                let t = by[j];
                assert(live(self.rows@, t));
                let q = self.lemma_rank_of(t);
                lemma_tiled_ordered(views, self.next_y as int, j, i);
                if q > p {
                    assert(key_less(view_at(self.rows@, bh[p]), view_at(self.rows@, bh[q])));
                } else if q < p {
                    assert(!is_exact(view_at(self.rows@, bh[q]), w as int, self.width as int, rh));
                }
            }
            lemma_first_exact_is(views, w as int, self.width as int, rh, i);
        }
    }

    /// No row is exactly `rh` high and has room, if none in the list by
    /// height is.
    proof fn lemma_no_exact(&self, w: u32, rh: int)
        requires
            self.wf(),
            forall|k: int|
                0 <= k < self.rows_by_height@.len() ==> !is_exact(
                    view_at(self.rows@, #[trigger] self.rows_by_height@[k]),
                    w as int,
                    self.width as int,
                    rh,
                ),
        ensures
            first_exact(self@.rows, w as int, self@.width, rh, 0) == self@.rows.len(),
    {
        let by = self.rows_by_y@;
        let views = listed_views(self.rows@, by);
        assert forall|j: int| 0 <= j < views.len() implies !is_exact(
            #[trigger] views[j],
            w as int,
            self.width as int,
            rh,
        ) by {
            let t = by[j];
            assert(live(self.rows@, t));
            let q = self.lemma_rank_of(t);
        }
        lemma_first_exact_is(views, w as int, self.width as int, rh, views.len() as int);
    }

    /// A higher row found by height is the row that the rule names, if the
    /// rows before it by height are not higher than `rh` or have no room.
    proof fn lemma_found_taller(&self, w: u32, rh: int, p: int)
        requires
            self.wf(),
            0 <= p <= self.rows_by_height@.len(),
            forall|k: int|
                0 <= k < p ==> !is_taller(
                    view_at(self.rows@, #[trigger] self.rows_by_height@[k]),
                    w as int,
                    self.width as int,
                    rh,
                ),
            p < self.rows_by_height@.len() ==> is_taller(
                view_at(self.rows@, self.rows_by_height@[p]),
                w as int,
                self.width as int,
                rh,
            ),
        ensures
            p < self.rows_by_height@.len() ==> {
                &&& 0 <= best_taller(self@.rows, w as int, self@.width, rh, self@.rows.len() as int)
                    < self@.rows.len()
                &&& self.rows_by_y@[best_taller(
                    self@.rows,
                    w as int,
                    self@.width,
                    rh,
                    self@.rows.len() as int,
                )] == self.rows_by_height@[p]
            },
            p == self.rows_by_height@.len() ==> best_taller(
                self@.rows,
                w as int,
                self@.width,
                rh,
                self@.rows.len() as int,
            ) == -1,
    {
        let bh = self.rows_by_height@;
        let by = self.rows_by_y@;
        let views = listed_views(self.rows@, by);
        if p < bh.len() {
            let s = bh[p];
            assert(live(self.rows@, s));
            let i = self.lemma_place_of(s);
            assert forall|j: int|
                0 <= j < views.len() && j != i && is_taller(
                    #[trigger] views[j],
                    w as int,
                    self.width as int,
                    rh,
                ) implies key_less(views[i], views[j]) by {
                let t = by[j];
                assert(live(self.rows@, t));
                let q = self.lemma_rank_of(t);
                if q > p {
                    assert(key_less(view_at(self.rows@, bh[p]), view_at(self.rows@, bh[q])));
                } else if q < p {
                    assert(!is_taller(view_at(self.rows@, bh[q]), w as int, self.width as int, rh));
                }
            }
            lemma_best_taller_is(views, w as int, self.width as int, rh, i);
        } else {
            assert forall|j: int| 0 <= j < views.len() implies !is_taller(
                #[trigger] views[j],
                w as int,
                self.width as int,
                rh,
            ) by {
                let t = by[j];
                assert(live(self.rows@, t));
                let q = self.lemma_rank_of(t);
            }
            lemma_best_taller_is(views, w as int, self.width as int, rh, -1);
        }
    }

    /// Finds the row for a glyph of `width` by `height` by the rule that
    /// `choice` states, making a new row or evicting rows where the rule
    /// says so, and gives the row's slot.
    fn find_row(&mut self, width: u32, height: u32) -> (r: Option<usize>)
        requires
            old(self).wf(),
            width <= old(self).width,
            height <= old(self).height,
        ensures
            final(self).wf(),
            match choice(old(self)@, width, height) {
                Choice::Nowhere => r is None && final(self)@ == old(self)@,
                Choice::Row(i) => {
                    &&& 0 <= i < final(self).rows_by_y@.len()
                    &&& r == Some(final(self).rows_by_y@[i])
                    &&& final(self)@ == old(self)@
                },
                Choice::Fresh => {
                    &&& old(self)@.rows.len() < final(self).rows_by_y@.len()
                    &&& r == Some(final(self).rows_by_y@[old(self)@.rows.len() as int])
                    &&& final(self)@ == with_fresh(old(self)@, pow2_ceil(height as int))
                },
                Choice::Evict(i) => {
                    &&& 0 <= i < final(self).rows_by_y@.len()
                    &&& r == Some(final(self).rows_by_y@[i])
                    &&& final(self)@ == evicted(
                        old(self)@,
                        i,
                        run_end(old(self)@.rows, old(self)@.counter, i, pow2_ceil(height as int)),
                        pow2_ceil(height as int),
                    )
                },
            },
            r matches Some(slot) ==> {
                &&& live(final(self).rows@, slot)
                &&& final(self).rows@[slot as int]->0.next_x + width <= final(self).width
                &&& height <= final(self).rows@[slot as int]->0.height
            },
    {
        proof {
            lemma_pow2_ceil(height as int);
            self.lemma_view_wf();
        }
        if height > 0x8000_0000 {
            proof {
                assert(0x8000_0000u32 & 0x7fff_ffffu32 == 0) by (bit_vector);
                lemma_bits_pow2(0x8000_0000u32, 0x7fff_ffffu32);
                lemma_pow2_gap(0x8000_0000, pow2_ceil(height as int));
                lemma_too_high_goes_nowhere(self@, width, height);
            }
            return None;
        }
        let row_height = nearest_pow_2(height);
        let ghost rh = row_height as int;
        let ghost w = width;
        let n = self.rows_by_height.len();
        let mut index = self.lower_bound(row_height, 0);
        let mut higher = false;
        // Rows of exactly this height.
        while index < n && !higher
            invariant
                self.wf(),
                *self == *old(self),
                n == self.rows_by_height@.len(),
                rh == row_height,
                rh == pow2_ceil(height as int),
                height <= rh,
                w == width,
                width <= self.width,
                height <= self.height,
                index <= n,
                forall|k: int|
                    0 <= k < index ==> !is_exact(
                        view_at(self.rows@, #[trigger] self.rows_by_height@[k]),
                        w as int,
                        self.width as int,
                        rh,
                    ),
                forall|k: int|
                    0 <= k < index ==> view_at(self.rows@, #[trigger] self.rows_by_height@[k]).height
                        <= rh,
                forall|k: int|
                    index <= k < n ==> view_at(self.rows@, #[trigger] self.rows_by_height@[k]).height
                        >= rh,
                higher ==> index < n && view_at(self.rows@, self.rows_by_height@[index as int]).height
                    > rh,
            decreases n - index + (if higher { 0int } else { 1int }),
        {
            let slot = self.rows_by_height[index];
            assert(live(self.rows@, slot));
            let fill = self.row_fill(slot);
            if fill.0 != row_height {
                higher = true;
            } else {
                assert(row_ok(self.rows@[slot as int]->0, self.width, self.counter));
                if width <= self.width - fill.1 {
                    proof {
                        self.lemma_found_exact(width, rh, index as int);
                    }
                    return Some(slot);
                }
                index += 1;
            }
        }
        proof {
            assert forall|k: int| 0 <= k < n implies !is_exact(
                view_at(self.rows@, #[trigger] self.rows_by_height@[k]),
                w as int,
                self.width as int,
                rh,
            ) by {
                if k > index {
                    assert(key_less(
                        view_at(self.rows@, self.rows_by_height@[index as int]),
                        view_at(self.rows@, self.rows_by_height@[k]),
                    ));
                }
            }
            self.lemma_no_exact(width, rh);
        }
        // No row of this height has room: a new row, if there is height left.
        if let Some(slot) = self.try_add_row(row_height) {
            proof {
                let at = old(self).rows_by_y@.len() as int;
                assert(live(self.rows@, slot));
                assert(listed_views(self.rows@, self.rows_by_y@)[at] == view_at(self.rows@, slot));
            }
            return Some(slot);
        }
        // A higher row that has room, the lowest first.
        let mut p = index;
        while p < n
            invariant
                self.wf(),
                *self == *old(self),
                n == self.rows_by_height@.len(),
                rh == row_height,
                rh == pow2_ceil(height as int),
                height <= rh,
                w == width,
                width <= self.width,
                height <= self.height,
                index <= p <= n,
                first_exact(self@.rows, w as int, self@.width, rh, 0) == self@.rows.len(),
                !(rh <= self.height - self.next_y),
                forall|k: int|
                    0 <= k < p ==> !is_taller(
                        view_at(self.rows@, #[trigger] self.rows_by_height@[k]),
                        w as int,
                        self.width as int,
                        rh,
                    ),
                forall|k: int|
                    index <= k < n ==> view_at(self.rows@, #[trigger] self.rows_by_height@[k]).height
                        > rh,
            decreases n - p,
        {
            let slot = self.rows_by_height[p];
            assert(live(self.rows@, slot));
            let fill = self.row_fill(slot);
            assert(row_ok(self.rows@[slot as int]->0, self.width, self.counter));
            if width <= self.width - fill.1 {
                proof {
                    self.lemma_found_taller(width, rh, p as int);
                }
                return Some(slot);
            }
            p += 1;
        }
        proof {
            self.lemma_found_taller(width, rh, n as int);
        }
        // The rows have not changed, so there is still no height left.
        if let Some(slot) = self.try_add_row(row_height) {
            return Some(slot);
        }
        let r = self.try_overwrite_rows(row_height);
        proof {
            if let Some(slot) = r {
                let b = best_run(old(self)@.rows, old(self)@.counter, rh, old(self)@.rows.len() as int);
                assert(live(self.rows@, slot));
                assert(listed_views(self.rows@, self.rows_by_y@)[b] == view_at(self.rows@, slot));
                lemma_best_run(
                    old(self)@.rows,
                    old(self)@.next_y,
                    old(self)@.counter,
                    rh,
                    old(self)@.rows.len() as int,
                );
            }
        }
        r
    }

    /// What putting a glyph at the end of a row does.
    proof fn lemma_place(&self, before: Atlas, s: usize, i: int, id: u16, w: u32, h: u32)
        requires
            before.wf(),
            0 <= i < before.rows_by_y@.len(),
            before.rows_by_y@[i] == s,
            before.rows@[s as int]->0.next_x + w <= before.width,
            h <= before.rows@[s as int]->0.height,
            self.width == before.width,
            self.height == before.height,
            self.next_y == before.next_y,
            self.counter == before.counter,
            self.rows_by_height == before.rows_by_height,
            self.rows_by_y == before.rows_by_y,
            self.rows@.len() == before.rows@.len(),
            forall|t: int| 0 <= t < self.rows@.len() && t != s ==> self.rows@[t] == before.rows@[t],
            self.rows@[s as int] is Some,
            self.rows@[s as int]->0.y == before.rows@[s as int]->0.y,
            self.rows@[s as int]->0.height == before.rows@[s as int]->0.height,
            self.rows@[s as int]->0.next_x == before.rows@[s as int]->0.next_x + w,
            self.rows@[s as int]->0.last_used == before.counter,
            self.rows@[s as int]->0.glyphs@ == before.rows@[s as int]->0.glyphs@.push(
                AtlasGlyph {
                    x: before.rows@[s as int]->0.next_x,
                    width: w,
                    height: h,
                    glyph_id: id,
                },
            ),
            self.map@ == before.map@.insert(
                id,
                Location { row: s, glyph: before.rows@[s as int]->0.glyphs@.len() as usize },
            ),
        ensures
            self.wf(),
            self@ == placed(before@, i, id, w, h),
    {
        let rows = self.rows@;
        let old_rows = before.rows@;
        let by = self.rows_by_y@;
        let bh = self.rows_by_height@;
        let row = rows[s as int]->0;
        let old_row = old_rows[s as int]->0;
        assert(live(old_rows, by[i]));
        assert(row_ok(old_row, before.width, before.counter));
        assert forall|t: usize| live(rows, t) <==> live(old_rows, t) by {}
        assert forall|t: usize| live(rows, t) implies view_at(rows, t).y == view_at(old_rows, t).y
            && view_at(rows, t).height == view_at(old_rows, t).height by {}
        assert(all_live(rows, bh)) by {
            assert forall|k: int| 0 <= k < bh.len() implies live(rows, #[trigger] bh[k]) by {
                assert(live(old_rows, bh[k]));
            }
        }
        assert(all_live(rows, by)) by {
            assert forall|k: int| 0 <= k < by.len() implies live(rows, #[trigger] by[k]) by {
                assert(live(old_rows, by[k]));
            }
        }
        assert(height_sorted(rows, bh)) by {
            assert forall|j: int, k: int| 0 <= j < k < bh.len() implies key_less(
                view_at(rows, #[trigger] bh[j]),
                view_at(rows, #[trigger] bh[k]),
            ) by {
                assert(live(old_rows, bh[j]));
                assert(live(old_rows, bh[k]));
                assert(key_less(view_at(old_rows, bh[j]), view_at(old_rows, bh[k])));
            }
        }
        let views = listed_views(rows, by);
        let old_views = listed_views(old_rows, by);
        assert(tiled(views, self.next_y as int)) by {
            assert forall|k: int| 0 <= k < views.len() implies #[trigger] tile_ok(views, k) by {
                assert(tile_ok(old_views, k));
                assert(live(old_rows, by[k]));
                if k > 0 {
                    assert(live(old_rows, by[k - 1]));
                }
            }
            if by.len() > 0 {
                assert(live(old_rows, by[by.len() - 1]));
            }
        }
        assert(row_ok(row, self.width, self.counter)) by {
            assert forall|g: int| 0 <= g < row.glyphs.len() implies {
                &&& (#[trigger] row.glyphs[g]).x + row.glyphs[g].width <= row.next_x
                &&& row.glyphs[g].height <= row.height
            } by {
                if g < old_row.glyphs.len() {
                    assert(row.glyphs[g] == old_row.glyphs[g]);
                }
            }
            assert forall|g: int, g2: int| 0 <= g < g2 < row.glyphs.len() implies (
            #[trigger] row.glyphs[g]).x + row.glyphs[g].width <= (#[trigger] row.glyphs[g2]).x by {
                assert(row.glyphs[g] == old_row.glyphs[g]);
                if g2 < old_row.glyphs.len() {
                    assert(row.glyphs[g2] == old_row.glyphs[g2]);
                }
            }
        }
        assert forall|t: usize| #[trigger] live(rows, t) implies by.contains(t) && bh.contains(t)
            && row_ok(rows[t as int]->0, self.width, self.counter) by {
            assert(live(old_rows, t));
            assert(row_ok(old_rows[t as int]->0, before.width, before.counter));
        }
        assert forall|other: u16| #[trigger] self.map@.contains_key(other) implies loc_ok(
            rows,
            self.map@[other],
            other,
        ) by {
            if other != id {
                let loc = before.map@[other];
                assert(loc_ok(old_rows, loc, other));
                if loc.row == s {
                    assert(row.glyphs[loc.glyph as int] == old_row.glyphs[loc.glyph as int]);
                }
            }
        }
        let target = placed(before@, i, id, w, h);
        assert(views =~= target.rows) by {
            assert forall|k: int| 0 <= k < views.len() implies views[k] == target.rows[k] by {
                assert(live(old_rows, by[k]));
            }
        }
        assert(self@.cached =~= target.cached) by {
            assert forall|other: u16| self.map@.contains_key(other) implies #[trigger] self@.cached[other]
                == target.cached[other] by {
                if other != id {
                    let loc = before.map@[other];
                    assert(loc_ok(old_rows, loc, other));
                    if loc.row == s {
                        assert(row.glyphs[loc.glyph as int] == old_row.glyphs[loc.glyph as int]);
                    }
                }
            }
        }
    }

    /// Puts a glyph of `width` by `height` into the atlas and gives its
    /// rectangle, or `None` where the rule finds no row for it: then the
    /// atlas stays as it is.
    pub fn insert(&mut self, glyph_id: GlyphKey, width: u32, height: u32) -> (r: Option<Rect>)
        requires
            old(self).wf(),
        ensures
            final(self).wf(),
            r == inserted_rect(old(self)@, width, height),
            final(self)@ == inserted(old(self)@, glyph_id.0, width, height),
    {
        broadcast use vstd::std_specs::hash::group_hash_axioms;

        if width > self.width || height > self.height {
            return None;
        }
        let slot = match self.find_row(width, height) {
            Some(slot) => slot,
            None => {
                return None;
            },
        };
        let ghost mid = *self;
        let ghost i: int = match choice(old(self)@, width, height) {
            Choice::Row(i) => i,
            Choice::Fresh => old(self)@.rows.len() as int,
            Choice::Evict(i) => i,
            Choice::Nowhere => 0,
        };
        let counter = self.counter;
        let mut x: u32 = 0;
        let mut y: u32 = 0;
        let mut place: usize = 0;
        match &mut self.rows[slot] {
            Some(row) => {
                x = row.next_x;
                y = row.y;
                place = row.glyphs.len();
                row.glyphs.push(AtlasGlyph { x, width, height, glyph_id: glyph_id.0 });
                row.next_x += width;
                row.last_used = counter;
            },
            None => {},
        }
        self.map.insert(glyph_id.0, Location { row: slot, glyph: place });
        proof {
            let v = old(self)@;
            assert(mid@.rows[i] == view_at(mid.rows@, slot));
            match choice(v, width, height) {
                Choice::Row(_) => {},
                Choice::Fresh => {
                    assert(mid@.rows[i] == fresh_row(v.next_y, pow2_ceil(height as int)));
                },
                Choice::Evict(_) => {
                    old(self).lemma_view_wf();
                    lemma_pow2_ceil(height as int);
                    lemma_best_run(
                        v.rows,
                        v.next_y,
                        v.counter,
                        pow2_ceil(height as int),
                        v.rows.len() as int,
                    );
                    assert(mid@.rows[i] == fresh_row(v.rows[i].y, pow2_ceil(height as int)));
                },
                Choice::Nowhere => {},
            }
            self.lemma_place(mid, slot, i, glyph_id.0, width, height);
        }
        Some(Rect { x, y, w: width, h: height })
    }
}

} // verus!
