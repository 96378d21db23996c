use gouache::{
    corners, pixel_to_ndc, Cache, Color, Command, Corner, Frame, GlyphKey, Mat2x2, Path, PathKey,
    Placement, Point,
};

fn moves(texels: usize) -> Path {
    let commands: Vec<Command> = (0..texels).map(|i| Command::Move(Point::new(i as i32, 0))).collect();
    Path::build(&commands)
}

#[test]
fn a_quad_has_four_vertices_and_six_indices() {
    let mut cache = Cache::new();
    let key = cache.add_path();
    let path = moves(5);
    let mut frame: Frame<char> = Frame::new();
    let upload = frame.draw_path(&mut cache, &path, key, 'a', 'b', 'c', 'd');
    assert_eq!(upload, Some(Placement { start: 0, end: 5 }));
    let (vertices, indices) = frame.finish();
    assert_eq!(indices, vec![0, 1, 2, 0, 2, 3]);
    assert_eq!(vertices.len(), 4);
    let attrs: Vec<char> = vertices.iter().map(|v| v.attrs).collect();
    assert_eq!(attrs, vec!['a', 'b', 'c', 'd']);
    for v in vertices.iter() {
        assert_eq!(v.path, [0, 5]);
    }
}

#[test]
fn a_path_is_uploaded_once() {
    let mut cache = Cache::new();
    let a = cache.add_path();
    let b = cache.add_path();
    let first = moves(5);
    let second = moves(2);
    let mut frame: Frame<u8> = Frame::new();
    assert_eq!(frame.draw_path(&mut cache, &first, a, 0, 1, 2, 3), Some(Placement { start: 0, end: 5 }));
    assert_eq!(frame.draw_path(&mut cache, &first, a, 4, 5, 6, 7), None);
    assert_eq!(frame.draw_path(&mut cache, &second, b, 8, 9, 10, 11), Some(Placement { start: 5, end: 7 }));
    let (vertices, indices) = frame.finish();
    assert_eq!(indices, vec![0, 1, 2, 0, 2, 3, 4, 5, 6, 4, 6, 7, 8, 9, 10, 8, 10, 11]);
    let refs: Vec<[u16; 2]> = vertices.iter().map(|v| v.path).collect();
    assert_eq!(refs[0], [0, 5]);
    assert_eq!(refs[7], [0, 5]);
    assert_eq!(refs[8], [5, 7]);
    assert_eq!(refs[11], [5, 7]);
    // In the next frame nothing is uploaded again.
    let mut frame: Frame<u8> = Frame::new();
    assert_eq!(frame.draw_path(&mut cache, &second, b, 0, 0, 0, 0), None);
    assert_eq!(frame.draw_path(&mut cache, &first, a, 0, 0, 0, 0), None);
}

#[test]
fn a_frame_holds_65536_vertices() {
    let mut cache = Cache::new();
    let key = cache.add_path();
    let path = moves(1);
    let mut frame: Frame<()> = Frame::new();
    let mut quads = 0;
    while frame.has_room() {
        frame.draw_path(&mut cache, &path, key, (), (), (), ());
        quads += 1;
    }
    assert_eq!(quads, 16384);
    let (vertices, indices) = frame.finish();
    assert_eq!(vertices.len(), 65536);
    assert_eq!(indices.len(), 98304);
    assert_eq!(indices[98303], 65535);
    assert_eq!(indices[98298], 65532);
}

#[test]
fn an_empty_frame_finishes_empty() {
    let frame: Frame<u8> = Frame::new();
    assert!(frame.has_room());
    let (vertices, indices) = frame.finish();
    assert!(vertices.is_empty());
    assert!(indices.is_empty());
}

#[test]
fn a_cached_glyph_is_drawn_and_uploaded_once() {
    let mut cache = Cache::new();
    let font = cache.add_font();
    let key = cache.insert_glyph(font, GlyphKey(3), moves(6));
    assert_eq!(key, PathKey(1));
    let mut frame: Frame<u8> = Frame::new();
    assert_eq!(
        frame.draw_glyph(&mut cache, font, GlyphKey(3), 0, 1, 2, 3),
        Some(Placement { start: 0, end: 6 })
    );
    assert_eq!(frame.draw_glyph(&mut cache, font, GlyphKey(3), 4, 5, 6, 7), None);
    let (vertices, indices) = frame.finish();
    assert_eq!(indices, vec![0, 1, 2, 0, 2, 3, 4, 5, 6, 4, 6, 7]);
    assert_eq!(vertices.len(), 8);
    assert_eq!(vertices[5].path, [0, 6]);
    assert_eq!(vertices[5].attrs, 5);
}

#[test]
fn a_glyph_without_texels_is_not_drawn() {
    let mut cache = Cache::new();
    let font = cache.add_font();
    cache.insert_glyph(font, GlyphKey(32), moves(0));
    let mut frame: Frame<u8> = Frame::new();
    assert_eq!(frame.draw_glyph(&mut cache, font, GlyphKey(32), 0, 1, 2, 3), None);
    let (vertices, indices) = frame.finish();
    assert!(vertices.is_empty());
    assert!(indices.is_empty());
    // Its key has no placement: the next path starts at 0.
    let key = cache.add_path();
    assert_eq!(cache.get_or_place(key, &moves(2)), (Placement { start: 0, end: 2 }, true));
}

#[test]
fn the_unit_square_is_drawn_and_uploaded_once() {
    let mut cache = Cache::new();
    let first = cache.add_path();
    assert_eq!(cache.get_or_place(first, &moves(10)), (Placement { start: 0, end: 10 }, true));
    let mut frame: Frame<u8> = Frame::new();
    assert_eq!(frame.draw_rect(&mut cache, 0, 1, 2, 3), Some(Placement { start: 10, end: 14 }));
    assert_eq!(frame.draw_rect(&mut cache, 4, 5, 6, 7), None);
    assert_eq!(cache.rect_key(), PathKey(2));
    let (vertices, indices) = frame.finish();
    assert_eq!(indices.len(), 12);
    assert_eq!(vertices[0].path, [10, 14]);
    assert_eq!(vertices[7].path, [10, 14]);
}

#[test]
fn a_drawn_path_has_the_corners_of_its_quad() {
    let mut cache = Cache::new();
    let key = cache.add_path();
    let path = Path::build(&[Command::Move(Point::new(0, 0)), Command::Move(Point::new(640, 640))]);
    let id = Mat2x2 { a: 65536, b: 0, c: 0, d: 65536 };
    let color = Color::rgba(65535, 32768, 0, 32768);
    let at = Point::new(64, 128);
    let mut frame: Frame<Corner> = Frame::new();
    let upload = frame.draw_path_at(&mut cache, &path, key, at, id, 64, 51200, 38400, color);
    assert_eq!(upload, Some(Placement { start: 0, end: 2 }));
    let (vertices, indices) = frame.finish();
    assert_eq!(indices, vec![0, 1, 2, 0, 2, 3]);
    let quad = path.get_quad(at, id, 64);
    let made = corners(&path, at, id, 64, 51200, 38400, color);
    for i in 0..4 {
        assert_eq!(vertices[i].path, [0, 2]);
        assert_eq!(vertices[i].attrs, made[i]);
        assert_eq!(vertices[i].attrs.pos, pixel_to_ndc(quad.vertices[i], 51200, 38400));
        assert_eq!(vertices[i].attrs.uv, quad.uv[i]);
        assert_eq!(vertices[i].attrs.col, [32768, 7014, 0, 32768]);
    }
    // The first corner lies half a pixel beyond (1, 2) of 800 by 600 pixels.
    assert_eq!(quad.vertices[0], gouache::Wide { x: 32, y: 96 });
    assert_eq!(vertices[0].attrs.pos, gouache::Wide { x: -1072399646, y: 1068373114 });
}

#[test]
fn a_drawn_glyph_and_the_unit_square_have_the_corners_of_their_quads() {
    let mut cache = Cache::new();
    let font = cache.add_font();
    cache.insert_glyph(font, GlyphKey(1), moves(3));
    cache.insert_glyph(font, GlyphKey(2), moves(0));
    let id = Mat2x2 { a: 65536, b: 0, c: 0, d: 65536 };
    let color = Color::rgba(0, 0, 0, 65535);
    let at = Point::new(5, 5);
    let mut frame: Frame<Corner> = Frame::new();
    assert_eq!(
        frame.draw_glyph_at(&mut cache, font, GlyphKey(1), at, id, 64, 800, 600, color),
        Some(Placement { start: 0, end: 3 })
    );
    assert_eq!(frame.draw_glyph_at(&mut cache, font, GlyphKey(2), at, id, 64, 800, 600, color), None);
    assert_eq!(
        frame.draw_rect_at(&mut cache, at, id, 64, 800, 600, color),
        Some(Placement { start: 3, end: 7 })
    );
    let glyph = corners(&cache.glyph(font, GlyphKey(1)).unwrap().path, at, id, 64, 800, 600, color);
    let square = corners(cache.rect_path().unwrap(), at, id, 64, 800, 600, color);
    let (vertices, indices) = frame.finish();
    assert_eq!(indices.len(), 12);
    for i in 0..4 {
        assert_eq!(vertices[i].attrs, glyph[i]);
        assert_eq!(vertices[i].path, [0, 3]);
        assert_eq!(vertices[4 + i].attrs, square[i]);
        assert_eq!(vertices[4 + i].path, [3, 7]);
    }
}
