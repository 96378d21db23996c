//! Frame recorder: one quad of four vertices and six indices for each path
//! drawn, each vertex with the placement of the path's texels.

use vstd::prelude::*;
use crate::cache::{
    glyph_index, unit_square, unit_square_len, Cache, CacheView, FontKey, PathKey, Placement,
};
use crate::font::GlyphKey;
use crate::color::Color;
use crate::geom::{Extent, Point, Wide};
use crate::path::Path;
use crate::quad::{corners, is_corner, Corner, Mat2x2};

verus! {

/// The most vertices that a frame can hold: indices are 16 bits wide.
pub const MAX_VERTICES: usize = 65536;

/// A vertex of a quad: what the caller computes for it, and the texels of
/// the path that the quad shows, from `path[0]` up to `path[1]`.
#[derive(Debug)]
pub struct Vertex<V> {
    pub attrs: V,
    pub path: [u16; 2],
}

/// The quads of one frame.
pub struct Frame<V> {
    vertices: Vec<Vertex<V>>,
    indices: Vec<u16>,
}

/// The six indices of the two triangles of the quad whose first vertex is
/// `base`.
pub open spec fn quad_indices(base: int) -> Seq<u16> {
    seq![
        base as u16,
        (base + 1) as u16,
        (base + 2) as u16,
        base as u16,
        (base + 2) as u16,
        (base + 3) as u16,
    ]
}

/// The four vertices of a quad that shows the texels of `placement`.
pub open spec fn quad_vertices<V>(
    placement: Placement,
    v0: V,
    v1: V,
    v2: V,
    v3: V,
    made: Seq<Vertex<V>>,
) -> bool {
    &&& made.len() == 4
    &&& made[0].attrs == v0
    &&& made[1].attrs == v1
    &&& made[2].attrs == v2
    &&& made[3].attrs == v3
    &&& forall|i: int| 0 <= i < 4 ==> (#[trigger] made[i]).path@ == seq![placement.start, placement.end]
}

impl<V> Frame<V> {
    /// The vertices recorded so far.
    pub closed spec fn vertices(&self) -> Seq<Vertex<V>> {
        self.vertices@
    }

    /// The indices recorded so far.
    pub closed spec fn indices(&self) -> Seq<u16> {
        self.indices@
    }

    /// The frame holds whole quads, four vertices and six indices each, and
    /// the indices of the quad `q` are those of its vertices.
    pub open spec fn wf(&self) -> bool {
        &&& self.vertices().len() <= MAX_VERTICES
        &&& self.vertices().len() % 4 == 0
        &&& self.indices().len() * 4 == self.vertices().len() * 6
        &&& forall|q: int|
            0 <= q && 4 * q < self.vertices().len() ==> #[trigger] self.indices().subrange(
                6 * q,
                6 * q + 6,
            ) == quad_indices(4 * q)
    }

    /// A frame without quads.
    pub fn new() -> (frame: Frame<V>)
        ensures
            frame.wf(),
            frame.vertices().len() == 0,
            frame.indices().len() == 0,
    {
        Frame { vertices: Vec::new(), indices: Vec::new() }
    }

    /// Whether the frame has room for one more quad.
    pub fn has_room(&self) -> (r: bool)
        ensures
            r == (self.vertices().len() + 4 <= MAX_VERTICES),
    {
        self.vertices.len() <= MAX_VERTICES - 4
    }

    /// The frame after one more quad that shows the texels of `placement`.
    pub open spec fn with_quad(
        &self,
        before: &Frame<V>,
        placement: Placement,
        v0: V,
        v1: V,
        v2: V,
        v3: V,
    ) -> bool {
        let n = before.vertices().len() as int;
        &&& self.vertices().len() == n + 4
        &&& self.vertices().subrange(0, n) == before.vertices()
        &&& quad_vertices(placement, v0, v1, v2, v3, self.vertices().subrange(n, n + 4))
        &&& self.indices() == before.indices() + quad_indices(n)
    }

    /// Records one quad.
    fn push_quad(&mut self, placement: Placement, v0: V, v1: V, v2: V, v3: V)
        requires
            old(self).wf(),
            old(self).vertices().len() + 4 <= MAX_VERTICES,
        ensures
            final(self).wf(),
            final(self).with_quad(old(self), placement, v0, v1, v2, v3),
    {
        let i = self.vertices.len() as u16;
        self.vertices.push(Vertex { attrs: v0, path: [placement.start, placement.end] });
        self.vertices.push(Vertex { attrs: v1, path: [placement.start, placement.end] });
        self.vertices.push(Vertex { attrs: v2, path: [placement.start, placement.end] });
        self.vertices.push(Vertex { attrs: v3, path: [placement.start, placement.end] });
        self.indices.push(i);
        self.indices.push(i + 1);
        self.indices.push(i + 2);
        self.indices.push(i);
        self.indices.push(i + 2);
        self.indices.push(i + 3);
        proof {
            let n = old(self).vertices().len() as int;
            let made = self.vertices().subrange(n, n + 4);
            assert(self.vertices().subrange(0, n) =~= old(self).vertices());
            assert forall|k: int| 0 <= k < 4 implies (#[trigger] made[k]).path@ == seq![
                placement.start,
                placement.end,
            ] by {
                assert(made[k] == self.vertices()[n + k]);
                assert(made[k].path@ =~= seq![placement.start, placement.end]);
            }
            assert(self.indices() =~= old(self).indices() + quad_indices(n));
            assert forall|q: int| 0 <= q && 4 * q < self.vertices().len() implies #[trigger] self.indices().subrange(
                6 * q,
                6 * q + 6,
            ) == quad_indices(4 * q) by {
                if 4 * q < n {
                    assert(self.indices().subrange(6 * q, 6 * q + 6) =~= old(self).indices().subrange(
                        6 * q,
                        6 * q + 6,
                    ));
                } else {
                    assert(self.indices().subrange(6 * q, 6 * q + 6) =~= quad_indices(n));
                }
            }
        }
    }

    /// Records a quad that shows the path under `key`. The path is placed in
    /// the cache if it is not yet; in that case the result is the placement
    /// to which the caller has to upload the path's texels.
    pub fn draw_path(
        &mut self,
        cache: &mut Cache,
        path: &Path,
        key: PathKey,
        v0: V,
        v1: V,
        v2: V,
        v3: V,
    ) -> (upload: Option<Placement>)
        requires
            old(self).wf(),
            old(self).vertices().len() + 4 <= MAX_VERTICES,
            old(cache).wf(),
            old(cache)@.can_place(key.0, path.buffer@.len() as int),
        ensures
            final(self).wf(),
            final(cache).wf(),
            final(cache)@ == old(cache)@.place(key.0, path.buffer@.len() as int),
            final(cache).glyphs() == old(cache).glyphs(),
            final(cache).rect() == old(cache).rect(),
            upload == (if old(cache)@.uploads(key.0) {
                Some(old(cache)@.placement(key.0, path.buffer@.len() as int))
            } else {
                None
            }),
            final(self).with_quad(
                old(self),
                old(cache)@.placement(key.0, path.buffer@.len() as int),
                v0,
                v1,
                v2,
                v3,
            ),
    {
        let (placement, fresh) = cache.get_or_place(key, path);
        self.push_quad(placement, v0, v1, v2, v3);
        if fresh {
            Some(placement)
        } else {
            None
        }
    }

    /// Records a quad that shows a cached glyph, placing the glyph's path as
    /// `draw_path` does. A glyph without texels is not drawn: the frame and
    /// the cache stay as they are.
    pub fn draw_glyph(
        &mut self,
        cache: &mut Cache,
        font: FontKey,
        glyph: GlyphKey,
        v0: V,
        v1: V,
        v2: V,
        v3: V,
    ) -> (upload: Option<Placement>)
        requires
            old(self).wf(),
            old(self).vertices().len() + 4 <= MAX_VERTICES,
            old(cache).wf(),
            old(cache).glyphs().contains_key(glyph_index(font.0, glyph.0)),
            old(cache)@.can_place(
                old(cache).glyphs()[glyph_index(font.0, glyph.0)].key.0,
                old(cache).glyphs()[glyph_index(font.0, glyph.0)].path.buffer@.len() as int,
            ),
        ensures
            final(self).wf(),
            final(cache).wf(),
            final(cache).glyphs() == old(cache).glyphs(),
            final(cache).rect() == old(cache).rect(),
            ({
                let entry = old(cache).glyphs()[glyph_index(font.0, glyph.0)];
                let len = entry.path.buffer@.len() as int;
                if len == 0 {
                    &&& upload is None
                    &&& final(cache)@ == old(cache)@
                    &&& final(self).vertices() == old(self).vertices()
                    &&& final(self).indices() == old(self).indices()
                } else {
                    &&& final(cache)@ == old(cache)@.place(entry.key.0, len)
                    &&& upload == (if old(cache)@.uploads(entry.key.0) {
                        Some(old(cache)@.placement(entry.key.0, len))
                    } else {
                        None
                    })
                    &&& final(self).with_quad(
                        old(self),
                        old(cache)@.placement(entry.key.0, len),
                        v0,
                        v1,
                        v2,
                        v3,
                    )
                }
            }),
    {
        let (key, len) = match cache.glyph(font, glyph) {
            Some(entry) => (entry.key, entry.path.buffer.len()),
            None => (PathKey(0), 0),
        };
        if len == 0 {
            return None;
        }
        let (placement, fresh) = cache.place(key, len);
        self.push_quad(placement, v0, v1, v2, v3);
        if fresh {
            Some(placement)
        } else {
            None
        }
    }

    /// Records a quad that shows the unit square, which is built and placed
    /// when it is first drawn; in that case the result is the placement to
    /// which the caller has to upload the square's texels.
    pub fn draw_rect(&mut self, cache: &mut Cache, v0: V, v1: V, v2: V, v3: V) -> (upload: Option<
        Placement,
    >)
        requires
            old(self).wf(),
            old(self).vertices().len() + 4 <= MAX_VERTICES,
            old(cache).wf(),
            old(cache).rect() is None ==> old(cache)@.next_path_key < u32::MAX,
            match old(cache).rect() {
                Some(entry) => old(cache)@.can_place(entry.0.0, unit_square_len()),
                None => old(cache)@.can_place(old(cache)@.next_path_key as u32, unit_square_len()),
            },
        ensures
            final(self).wf(),
            final(cache).wf(),
            final(cache).glyphs() == old(cache).glyphs(),
            final(cache).rect() matches Some(entry) && ({
                let key = entry.0.0;
                let keyed = match old(cache).rect() {
                    Some(_) => old(cache)@,
                    None => CacheView { next_path_key: old(cache)@.next_path_key + 1, ..old(cache)@ },
                };
                &&& entry.1.is_built_from(unit_square())
                &&& old(cache).rect() matches Some(before) ==> before == entry
                &&& old(cache).rect() is None ==> key == old(cache)@.next_path_key
                &&& final(cache)@ == keyed.place(key, unit_square_len())
                &&& upload == (if keyed.uploads(key) {
                    Some(keyed.placement(key, unit_square_len()))
                } else {
                    None
                })
                &&& final(self).with_quad(
                    old(self),
                    keyed.placement(key, unit_square_len()),
                    v0,
                    v1,
                    v2,
                    v3,
                )
            }),
    {
        let key = cache.rect_key();
        let len = match cache.rect_path() {
            Some(path) => path.buffer.len(),
            None => 0,
        };
        proof {
            cache.lemma_view_wf();
            let entry = cache.rect().unwrap();
            entry.1.lemma_built_len(unit_square());
        }
        let (placement, fresh) = cache.place(key, len);
        self.push_quad(placement, v0, v1, v2, v3);
        if fresh {
            Some(placement)
        } else {
            None
        }
    }

    /// The vertices and the indices of the frame, for one draw call.
    pub fn finish(self) -> (r: (Vec<Vertex<V>>, Vec<u16>))
        ensures
            r.0@ == self.vertices(),
            r.1@ == self.indices(),
    {
        (self.vertices, self.indices)
    }
}

/// The four vertices are those of the quad that shows a path with the
/// given box at `placement`: each holds the placement and is the corner of
/// its place, in normalized device coordinates, with its texture coordinate
/// and the colour in linear light.
pub open spec fn quad_shows(
    made: Seq<Vertex<Corner>>,
    placement: Placement,
    offset: Point,
    size: Extent,
    position: Point,
    t: Mat2x2,
    pixel: int,
    width: int,
    height: int,
    color: Color,
) -> bool {
    &&& made.len() == 4
    &&& forall|i: int|
        0 <= i < 4 ==> {
            &&& (#[trigger] made[i]).path@ == seq![placement.start, placement.end]
            &&& is_corner(made[i].attrs, i, offset, size, position, t, pixel, width, height, color)
        }
}

/// Vertices of a quad with the attributes `c` are the vertices of the quad
/// that shows the path of which `c` are the corners.
proof fn lemma_quad_shows(
    made: Seq<Vertex<Corner>>,
    placement: Placement,
    c: [Corner; 4],
    offset: Point,
    size: Extent,
    position: Point,
    t: Mat2x2,
    pixel: int,
    width: int,
    height: int,
    color: Color,
)
    requires
        quad_vertices(placement, c[0], c[1], c[2], c[3], made),
        forall|i: int|
            0 <= i < 4 ==> is_corner(
                #[trigger] c[i],
                i,
                offset,
                size,
                position,
                t,
                pixel,
                width,
                height,
                color,
            ),
    ensures
        quad_shows(made, placement, offset, size, position, t, pixel, width, height, color),
{
    assert forall|i: int| 0 <= i < 4 implies {
        &&& (#[trigger] made[i]).path@ == seq![placement.start, placement.end]
        &&& is_corner(made[i].attrs, i, offset, size, position, t, pixel, width, height, color)
    } by {
        assert(made[i].attrs == c[i]);
    }
}

impl Frame<Corner> {
    /// The frame after one more quad that shows a path with the given box.
    pub open spec fn with_shape(
        &self,
        before: &Frame<Corner>,
        placement: Placement,
        offset: Point,
        size: Extent,
        position: Point,
        t: Mat2x2,
        pixel: int,
        width: int,
        height: int,
        color: Color,
    ) -> bool {
        let n = before.vertices().len() as int;
        &&& self.vertices().len() == n + 4
        &&& self.vertices().subrange(0, n) == before.vertices()
        &&& quad_shows(
            self.vertices().subrange(n, n + 4),
            placement,
            offset,
            size,
            position,
            t,
            pixel,
            width,
            height,
            color,
        )
        &&& self.indices() == before.indices() + quad_indices(n)
    }

    /// Records the quad that shows the path under `key` where `position` and
    /// the map `transform` put it, in the given colour, in a viewport of
    /// `width` by `height` units of the lattice with `pixel` units to a
    /// pixel. The four vertices are the corners of the path's quad in
    /// normalized device coordinates, with their texture coordinates and the
    /// colour in linear light. The path is placed as `draw_path` places it.
    pub fn draw_path_at(
        &mut self,
        cache: &mut Cache,
        path: &Path,
        key: PathKey,
        position: Point,
        transform: Mat2x2,
        pixel: u16,
        width: u32,
        height: u32,
        color: Color,
    ) -> (upload: Option<Placement>)
        requires
            old(self).wf(),
            old(self).vertices().len() + 4 <= MAX_VERTICES,
            old(cache).wf(),
            old(cache)@.can_place(key.0, path.buffer@.len() as int),
        ensures
            final(self).wf(),
            final(cache).wf(),
            final(cache)@ == old(cache)@.place(key.0, path.buffer@.len() as int),
            final(cache).glyphs() == old(cache).glyphs(),
            final(cache).rect() == old(cache).rect(),
            upload == (if old(cache)@.uploads(key.0) {
                Some(old(cache)@.placement(key.0, path.buffer@.len() as int))
            } else {
                None
            }),
            final(self).with_shape(
                old(self),
                old(cache)@.placement(key.0, path.buffer@.len() as int),
                path.offset,
                path.size,
                position,
                transform,
                pixel as int,
                width as int,
                height as int,
                color,
            ),
    {
        let c = corners(path, position, transform, pixel, width, height, color);
        let upload = self.draw_path(cache, path, key, c[0], c[1], c[2], c[3]);
        proof {
            let n = old(self).vertices().len() as int;
            lemma_quad_shows(
                self.vertices().subrange(n, n + 4),
                old(cache)@.placement(key.0, path.buffer@.len() as int),
                c,
                path.offset,
                path.size,
                position,
                transform,
                pixel as int,
                width as int,
                height as int,
                color,
            );
        }
        upload
    }

    /// Records the quad that shows a cached glyph, as `draw_path_at` does
    /// for a path and `draw_glyph` for ready-made vertices: a glyph without
    /// texels is not drawn.
    pub fn draw_glyph_at(
        &mut self,
        cache: &mut Cache,
        font: FontKey,
        glyph: GlyphKey,
        position: Point,
        transform: Mat2x2,
        pixel: u16,
        width: u32,
        height: u32,
        color: Color,
    ) -> (upload: Option<Placement>)
        requires
            old(self).wf(),
            old(self).vertices().len() + 4 <= MAX_VERTICES,
            old(cache).wf(),
            old(cache).glyphs().contains_key(glyph_index(font.0, glyph.0)),
            old(cache)@.can_place(
                old(cache).glyphs()[glyph_index(font.0, glyph.0)].key.0,
                old(cache).glyphs()[glyph_index(font.0, glyph.0)].path.buffer@.len() as int,
            ),
        ensures
            final(self).wf(),
            final(cache).wf(),
            final(cache).glyphs() == old(cache).glyphs(),
            final(cache).rect() == old(cache).rect(),
            ({
                let entry = old(cache).glyphs()[glyph_index(font.0, glyph.0)];
                let len = entry.path.buffer@.len() as int;
                if len == 0 {
                    &&& upload is None
                    &&& final(cache)@ == old(cache)@
                    &&& final(self).vertices() == old(self).vertices()
                    &&& final(self).indices() == old(self).indices()
                } else {
                    &&& final(cache)@ == old(cache)@.place(entry.key.0, len)
                    &&& upload == (if old(cache)@.uploads(entry.key.0) {
                        Some(old(cache)@.placement(entry.key.0, len))
                    } else {
                        None
                    })
                    &&& final(self).with_shape(
                        old(self),
                        old(cache)@.placement(entry.key.0, len),
                        entry.path.offset,
                        entry.path.size,
                        position,
                        transform,
                        pixel as int,
                        width as int,
                        height as int,
                        color,
                    )
                }
            }),
    {
        let c = match cache.glyph(font, glyph) {
            Some(entry) => corners(&entry.path, position, transform, pixel, width, height, color),
            None => [Corner { pos: Wide { x: 0, y: 0 }, col: [0, 0, 0, 0], uv: Wide { x: 0, y: 0 } }; 4],
        };
        let upload = self.draw_glyph(cache, font, glyph, c[0], c[1], c[2], c[3]);
        proof {
            let entry = old(cache).glyphs()[glyph_index(font.0, glyph.0)];
            if entry.path.buffer@.len() > 0 {
                let n = old(self).vertices().len() as int;
                lemma_quad_shows(
                    self.vertices().subrange(n, n + 4),
                    old(cache)@.placement(entry.key.0, entry.path.buffer@.len() as int),
                    c,
                    entry.path.offset,
                    entry.path.size,
                    position,
                    transform,
                    pixel as int,
                    width as int,
                    height as int,
                    color,
                );
            }
        }
        upload
    }

    /// Records the quad that shows the unit square, as `draw_path_at` does
    /// for a path and `draw_rect` for ready-made vertices.
    pub fn draw_rect_at(
        &mut self,
        cache: &mut Cache,
        position: Point,
        transform: Mat2x2,
        pixel: u16,
        width: u32,
        height: u32,
        color: Color,
    ) -> (upload: Option<Placement>)
        requires
            old(self).wf(),
            old(self).vertices().len() + 4 <= MAX_VERTICES,
            old(cache).wf(),
            old(cache).rect() is None ==> old(cache)@.next_path_key < u32::MAX,
            match old(cache).rect() {
                Some(entry) => old(cache)@.can_place(entry.0.0, unit_square_len()),
                None => old(cache)@.can_place(old(cache)@.next_path_key as u32, unit_square_len()),
            },
        ensures
            final(self).wf(),
            final(cache).wf(),
            final(cache).glyphs() == old(cache).glyphs(),
            final(cache).rect() matches Some(entry) && ({
                let key = entry.0.0;
                let keyed = match old(cache).rect() {
                    Some(_) => old(cache)@,
                    None => CacheView { next_path_key: old(cache)@.next_path_key + 1, ..old(cache)@ },
                };
                &&& entry.1.is_built_from(unit_square())
                &&& old(cache).rect() matches Some(before) ==> before == entry
                &&& old(cache).rect() is None ==> key == old(cache)@.next_path_key
                &&& final(cache)@ == keyed.place(key, unit_square_len())
                &&& upload == (if keyed.uploads(key) {
                    Some(keyed.placement(key, unit_square_len()))
                } else {
                    None
                })
                &&& final(self).with_shape(
                    old(self),
                    keyed.placement(key, unit_square_len()),
                    entry.1.offset,
                    entry.1.size,
                    position,
                    transform,
                    pixel as int,
                    width as int,
                    height as int,
                    color,
                )
            }),
    {
        let key = cache.rect_key();
        let ghost mid = cache@;
        let ghost entry = cache.rect().unwrap();
        let c = match cache.rect_path() {
            Some(path) => corners(path, position, transform, pixel, width, height, color),
            None => [Corner { pos: Wide { x: 0, y: 0 }, col: [0, 0, 0, 0], uv: Wide { x: 0, y: 0 } }; 4],
        };
        let upload = self.draw_rect(cache, c[0], c[1], c[2], c[3]);
        proof {
            let n = old(self).vertices().len() as int;
            lemma_quad_shows(
                self.vertices().subrange(n, n + 4),
                mid.placement(key.0, unit_square_len()),
                c,
                entry.1.offset,
                entry.1.size,
                position,
                transform,
                pixel as int,
                width as int,
                height as int,
                color,
            );
        }
        upload
    }
}

} // verus!
