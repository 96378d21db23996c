//! Resource cache: keys for paths and fonts, the placement of each path in
//! the shared buffer of curve texels, and the tessellated glyphs of each
//! font.

use vstd::prelude::*;
use std::collections::HashMap;
use crate::curve::{monotonize_quad, Command};
use crate::font::GlyphKey;
use crate::geom::Point;
use crate::path::{
    line_command, monotonize, origin, pen_close, pen_line_to, Path, PathBuilder, Pen,
};

verus! {

/// The handle of a path. 0 is no path.
#[derive(Copy, Clone, Debug, PartialEq, Eq, Hash, Structural)]
pub struct PathKey(pub u32);

/// The handle of a font. 0 is no font.
#[derive(Copy, Clone, Debug, PartialEq, Eq, Hash, Structural)]
pub struct FontKey(pub u32);

/// The largest offset in the shared buffer: offsets are 16 bits wide.
pub const ARENA_END: u16 = 65535;

/// The texels of a path in the shared buffer, from `start` up to `end`.
#[derive(Copy, Clone, Debug, PartialEq, Eq, Structural)]
pub struct Placement {
    pub start: u16,
    pub end: u16,
}

/// A tessellated glyph and the key under which its path is placed.
#[derive(Debug)]
pub struct GlyphEntry {
    pub path: Path,
    pub key: PathKey,
}

/// What a cache holds: the placements made, the first free offset of the
/// shared buffer, and the next keys.
pub struct CacheView {
    pub placed: Map<u32, Placement>,
    pub free: int,
    pub next_path_key: int,
    pub next_font_key: int,
}

impl CacheView {
    /// Keys start at 1, and every placement lies below the first free
    /// offset, apart from every other.
    pub open spec fn wf(self) -> bool {
        &&& 1 <= self.next_path_key
        &&& 1 <= self.next_font_key
        &&& 0 <= self.free <= ARENA_END
        &&& forall|k: u32| #[trigger]
            self.placed.contains_key(k) ==> self.placed[k].start <= self.placed[k].end
                <= self.free
        &&& forall|j: u32, k: u32|
            #![trigger self.placed[j], self.placed[k]]
            self.placed.contains_key(j) && self.placed.contains_key(k) && j != k ==> {
                ||| self.placed[j].end <= self.placed[k].start
                ||| self.placed[k].end <= self.placed[j].start
            }
    }

    /// A path of `len` texels can be placed under `key`: it is placed
    /// already, or the buffer has room for it.
    pub open spec fn can_place(self, key: u32, len: int) -> bool {
        self.placed.contains_key(key) || self.free + len <= ARENA_END
    }

    /// The placement that `get_or_place` gives: the one made before, or the
    /// next `len` texels of the buffer.
    pub open spec fn placement(self, key: u32, len: int) -> Placement {
        if self.placed.contains_key(key) {
            self.placed[key]
        } else {
            Placement { start: self.free as u16, end: (self.free + len) as u16 }
        }
    }

    /// Whether `get_or_place` asks for an upload: only when the key is
    /// placed for the first time.
    pub open spec fn uploads(self, key: u32) -> bool {
        !self.placed.contains_key(key)
    }

    /// The cache after `get_or_place`.
    pub open spec fn place(self, key: u32, len: int) -> CacheView {
        if self.placed.contains_key(key) {
            self
        } else {
            CacheView {
                placed: self.placed.insert(key, self.placement(key, len)),
                free: self.free + len,
                ..self
            }
        }
    }
}

/// Placement is idempotent: a second call with the same key gives the
/// placement of the first, asks for no upload, and leaves the cache as it
/// is, whatever length it is given.
pub proof fn lemma_place_idempotent(v: CacheView, key: u32, len: int, again: int)
    requires
        v.wf(),
        0 <= len,
        v.can_place(key, len),
    ensures
        v.place(key, len).wf(),
        v.place(key, len).can_place(key, again),
        v.place(key, len).placement(key, again) == v.placement(key, len),
        !v.place(key, len).uploads(key),
        v.place(key, len).place(key, again) == v.place(key, len),
{
}

/// A placement, once made, stays: no later call moves it.
pub proof fn lemma_place_keeps(v: CacheView, key: u32, len: int, other: u32)
    requires
        v.wf(),
        0 <= len,
        v.can_place(key, len),
        v.placed.contains_key(other),
    ensures
        v.place(key, len).placed.contains_key(other),
        v.place(key, len).placed[other] == v.placed[other],
{
}

/// The index under which the glyph `glyph` of the font `font` is kept.
pub open spec fn glyph_index(font: u32, glyph: u16) -> u64 {
    (font as u64 * 65536 + glyph as u64) as u64
}

/// Two glyphs have one index only if they are one glyph of one font.
pub proof fn lemma_glyph_index_injective(f1: u32, g1: u16, f2: u32, g2: u16)
    requires
        glyph_index(f1, g1) == glyph_index(f2, g2),
    ensures
        f1 == f2,
        g1 == g2,
{
    assert(f1 as u64 * 65536 + g1 as u64 <= u64::MAX);
    assert(f2 as u64 * 65536 + g2 as u64 <= u64::MAX);
}

/// The side of the unit square, in units of the lattice.
pub const UNIT: i32 = 65536;

/// The commands of the unit square, drawn from the origin.
pub open spec fn unit_square() -> Seq<Command> {
    pen_close(
        pen_line_to(
            pen_line_to(
                pen_line_to(
                    Pen { commands: Seq::empty(), first: origin(), last: origin() },
                    Point { x: 0, y: UNIT },
                ),
                Point { x: UNIT, y: UNIT },
            ),
            Point { x: UNIT, y: 0 },
        ),
    ).commands
}

/// The number of texels of the unit square.
pub open spec fn unit_square_len() -> int {
    monotonize(unit_square()).len() as int
}

/// The unit square has four segments and no move.
pub proof fn lemma_unit_square_len()
    ensures
        unit_square_len() == 4,
{
    let p0 = origin();
    let p1 = Point { x: 0, y: UNIT };
    let p2 = Point { x: UNIT, y: UNIT };
    let p3 = Point { x: UNIT, y: 0 };
    let cmds = seq![
        line_command(p0, p1),
        line_command(p1, p2),
        line_command(p2, p3),
        line_command(p3, p0),
    ];
    assert(unit_square() =~= cmds);
    reveal(monotonize_quad);
    reveal_with_fuel(monotonize, 5);
    assert(cmds.drop_last() =~= seq![
        line_command(p0, p1),
        line_command(p1, p2),
        line_command(p2, p3),
    ]);
    assert(cmds.drop_last().drop_last() =~= seq![line_command(p0, p1), line_command(p1, p2)]);
    assert(cmds.drop_last().drop_last().drop_last() =~= seq![line_command(p0, p1)]);
    assert(cmds.drop_last().drop_last().drop_last().drop_last() =~= Seq::<Command>::empty());
}

/// Keys, placements and glyphs that live as long as the process.
pub struct Cache {
    paths: HashMap<u32, Placement>,
    next_path_key: u32,
    glyphs: HashMap<u64, GlyphEntry>,
    next_font_key: u32,
    rect: Option<(PathKey, Path)>,
    paths_free: u16,
}

impl View for Cache {
    type V = CacheView;

    closed spec fn view(&self) -> CacheView {
        CacheView {
            placed: self.paths@,
            free: self.paths_free as int,
            next_path_key: self.next_path_key as int,
            next_font_key: self.next_font_key as int,
        }
    }
}

impl Cache {
    /// The cache is in order: its placements lie apart, below the first free
    /// offset, and the unit square, once made, is the unit square.
    pub closed spec fn wf(&self) -> bool {
        &&& self@.wf()
        &&& self.rect matches Some(entry) ==> entry.1.is_built_from(unit_square())
    }

    /// The glyphs that are cached, by `glyph_index`.
    pub closed spec fn glyphs(&self) -> Map<u64, GlyphEntry> {
        self.glyphs@
    }

    /// The unit square and its key, once it has been asked for.
    pub closed spec fn rect(&self) -> Option<(PathKey, Path)> {
        self.rect
    }

    /// A cache that is in order is so as a mathematical object as well, and
    /// its unit square is the path of the unit square.
    pub proof fn lemma_view_wf(&self)
        requires
            self.wf(),
        ensures
            self@.wf(),
            self.rect() matches Some(entry) ==> entry.1.is_built_from(unit_square()),
    {
    }

    /// A cache that holds nothing. The first keys are 1.
    pub fn new() -> (cache: Cache)
        ensures
            cache.wf(),
            cache@ == (CacheView {
                placed: Map::empty(),
                free: 0,
                next_path_key: 1,
                next_font_key: 1,
            }),
            cache.glyphs() == Map::<u64, GlyphEntry>::empty(),
            cache.rect() is None,
    {
        Cache {
            paths: HashMap::new(),
            next_path_key: 1,
            glyphs: HashMap::new(),
            next_font_key: 1,
            rect: None,
            paths_free: 0,
        }
    }

    /// A new key for a path: larger than every key given before.
    pub fn add_path(&mut self) -> (key: PathKey)
        requires
            old(self).wf(),
            old(self)@.next_path_key < u32::MAX,
        ensures
            final(self).wf(),
            key.0 == old(self)@.next_path_key,
            key.0 >= 1,
            final(self)@ == (CacheView { next_path_key: old(self)@.next_path_key + 1, ..old(self)@ }),
            final(self).glyphs() == old(self).glyphs(),
            final(self).rect() == old(self).rect(),
    {
        let path_key = self.next_path_key;
        self.next_path_key += 1;
        PathKey(path_key)
    }

    /// A new key for a font: larger than every key given before.
    pub fn add_font(&mut self) -> (key: FontKey)
        requires
            old(self).wf(),
            old(self)@.next_font_key < u32::MAX,
        ensures
            final(self).wf(),
            key.0 == old(self)@.next_font_key,
            key.0 >= 1,
            final(self)@ == (CacheView { next_font_key: old(self)@.next_font_key + 1, ..old(self)@ }),
            final(self).glyphs() == old(self).glyphs(),
            final(self).rect() == old(self).rect(),
    {
        let font_key = self.next_font_key;
        self.next_font_key += 1;
        FontKey(font_key)
    }

    /// Whether the path can be placed under `key`: whether it is placed
    /// already or the shared buffer has room for its texels.
    pub fn can_place(&self, key: PathKey, path: &Path) -> (r: bool)
        ensures
            r == self@.can_place(key.0, path.buffer@.len() as int),
    {
        broadcast use vstd::std_specs::hash::group_hash_axioms;

        self.paths.contains_key(&key.0) || path.buffer.len() <= (ARENA_END
            - self.paths_free) as usize
    }

    /// Whether `add_path` has a key left to give.
    pub fn can_add_path(&self) -> (r: bool)
        ensures
            r == (self@.next_path_key < u32::MAX),
    {
        self.next_path_key < u32::MAX
    }

    /// Whether `add_font` has a key left to give.
    pub fn can_add_font(&self) -> (r: bool)
        ensures
            r == (self@.next_font_key < u32::MAX),
    {
        self.next_font_key < u32::MAX
    }

    /// The placement of the path under `key`: the one made before, or else
    /// the next texels of the shared buffer, as many as the path has. The
    /// flag says whether the caller has to upload the path's texels there:
    /// it does so once for each key.
    pub fn get_or_place(&mut self, key: PathKey, path: &Path) -> (r: (Placement, bool))
        requires
            old(self).wf(),
            old(self)@.can_place(key.0, path.buffer@.len() as int),
        ensures
            final(self).wf(),
            r.0 == old(self)@.placement(key.0, path.buffer@.len() as int),
            r.1 == old(self)@.uploads(key.0),
            final(self)@ == old(self)@.place(key.0, path.buffer@.len() as int),
            final(self).glyphs() == old(self).glyphs(),
            final(self).rect() == old(self).rect(),
    {
        self.place(key, path.buffer.len())
    }

    /// The placement of `len` texels under `key`.
    pub(crate) fn place(&mut self, key: PathKey, len: usize) -> (r: (Placement, bool))
        requires
            old(self).wf(),
            old(self)@.can_place(key.0, len as int),
        ensures
            final(self).wf(),
            r.0 == old(self)@.placement(key.0, len as int),
            r.1 == old(self)@.uploads(key.0),
            final(self)@ == old(self)@.place(key.0, len as int),
            final(self).glyphs() == old(self).glyphs(),
            final(self).rect() == old(self).rect(),
    {
        broadcast use vstd::std_specs::hash::group_hash_axioms;

        match self.paths.get(&key.0) {
            Some(placement) => (*placement, false),
            None => {
                let start = self.paths_free;
                let end = start + len as u16;
                let placement = Placement { start, end };
                self.paths_free = end;
                self.paths.insert(key.0, placement);
                proof {
                    let before = old(self)@;
                    let after = self@;
                    assert(after.placed == before.placed.insert(key.0, placement));
                    assert forall|k: u32| #[trigger] after.placed.contains_key(k) implies after.placed[k].start
                        <= after.placed[k].end <= after.free by {
                        if k != key.0 {
                            assert(before.placed.contains_key(k));
                        }
                    }
                    assert forall|j: u32, k: u32|
                        #![trigger after.placed[j], after.placed[k]]
                        after.placed.contains_key(j) && after.placed.contains_key(k) && j != k implies {
                        ||| after.placed[j].end <= after.placed[k].start
                        ||| after.placed[k].end <= after.placed[j].start
                    } by {
                        if j != key.0 {
                            assert(before.placed.contains_key(j));
                        }
                        if k != key.0 {
                            assert(before.placed.contains_key(k));
                        }
                        if j != key.0 && k != key.0 {
                            assert(before.placed[j] == after.placed[j]);
                            assert(before.placed[k] == after.placed[k]);
                        }
                    }
                }
                (placement, true)
            },
        }
    }

    /// The index of a glyph of a font.
    fn index_of(font: FontKey, glyph: GlyphKey) -> (index: u64)
        ensures
            index == glyph_index(font.0, glyph.0),
    {
        font.0 as u64 * 65536 + glyph.0 as u64
    }

    /// The tessellated glyph `glyph` of the font `font`, if it is cached.
    pub fn glyph(&self, font: FontKey, glyph: GlyphKey) -> (r: Option<&GlyphEntry>)
        ensures
            match r {
                Some(entry) => self.glyphs().contains_key(glyph_index(font.0, glyph.0))
                    && *entry == self.glyphs()[glyph_index(font.0, glyph.0)],
                None => !self.glyphs().contains_key(glyph_index(font.0, glyph.0)),
            },
    {
        broadcast use vstd::std_specs::hash::group_hash_axioms;

        let index = Self::index_of(font, glyph);
        self.glyphs.get(&index)
    }

    /// Caches the tessellated glyph `glyph` of the font `font` under a new
    /// path key, which it returns.
    pub fn insert_glyph(&mut self, font: FontKey, glyph: GlyphKey, path: Path) -> (key: PathKey)
        requires
            old(self).wf(),
            old(self)@.next_path_key < u32::MAX,
        ensures
            final(self).wf(),
            key.0 == old(self)@.next_path_key,
            final(self)@ == (CacheView { next_path_key: old(self)@.next_path_key + 1, ..old(self)@ }),
            final(self).glyphs() == old(self).glyphs().insert(
                glyph_index(font.0, glyph.0),
                GlyphEntry { path, key },
            ),
            final(self).rect() == old(self).rect(),
    {
        broadcast use vstd::std_specs::hash::group_hash_axioms;

        let key = self.add_path();
        let index = Self::index_of(font, glyph);
        self.glyphs.insert(index, GlyphEntry { path, key });
        key
    }

    /// The key of the unit square, which is built and given a key when it is
    /// first asked for.
    pub fn rect_key(&mut self) -> (key: PathKey)
        requires
            old(self).wf(),
            old(self).rect() is None ==> old(self)@.next_path_key < u32::MAX,
        ensures
            final(self).wf(),
            final(self).rect() matches Some(entry) && entry.0 == key && entry.1.is_built_from(
                unit_square(),
            ),
            match old(self).rect() {
                Some(entry) => *final(self) == *old(self) && key == entry.0,
                None => {
                    &&& key.0 == old(self)@.next_path_key
                    &&& final(self)@ == (CacheView {
                        next_path_key: old(self)@.next_path_key + 1,
                        ..old(self)@
                    })
                },
            },
            final(self).glyphs() == old(self).glyphs(),
    {
        match &self.rect {
            Some(entry) => entry.0,
            None => {
                let mut builder = PathBuilder::new();
                builder.line_to(0, UNIT);
                builder.line_to(UNIT, UNIT);
                builder.line_to(UNIT, 0);
                let path = builder.build();
                let key = self.add_path();
                self.rect = Some((key, path));
                key
            },
        }
    }

    /// The unit square, once it has been asked for.
    pub fn rect_path(&self) -> (r: Option<&Path>)
        ensures
            match r {
                Some(path) => self.rect() matches Some(entry) && *path == entry.1,
                None => self.rect() is None,
            },
    {
        match &self.rect {
            Some(entry) => Some(&entry.1),
            None => None,
        }
    }
}

} // verus!
