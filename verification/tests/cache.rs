use gouache::{Cache, Command, Extent, FontKey, GlyphKey, Path, PathKey, Placement, Point};

fn path_of(texels: usize) -> Path {
    let commands: Vec<Command> = (0..texels).map(|i| Command::Move(Point::new(i as i32, 0))).collect();
    let path = Path::build(&commands);
    assert_eq!(path.buffer.len(), texels);
    path
}

#[test]
fn keys_start_at_one_and_grow() {
    let mut cache = Cache::new();
    assert_eq!(cache.add_path(), PathKey(1));
    assert_eq!(cache.add_path(), PathKey(2));
    assert_eq!(cache.add_font(), FontKey(1));
    assert_eq!(cache.add_path(), PathKey(3));
    assert_eq!(cache.add_font(), FontKey(2));
}

#[test]
fn placement_is_idempotent() {
    let mut cache = Cache::new();
    let key = cache.add_path();
    let path = path_of(5);
    let first = cache.get_or_place(key, &path);
    assert_eq!(first, (Placement { start: 0, end: 5 }, true));
    let second = cache.get_or_place(key, &path);
    assert_eq!(second, (Placement { start: 0, end: 5 }, false));
    // Even for another path the placement of the key stays.
    let third = cache.get_or_place(key, &path_of(9));
    assert_eq!(third, (Placement { start: 0, end: 5 }, false));
}

#[test]
fn placements_follow_each_other() {
    let mut cache = Cache::new();
    let a = cache.add_path();
    let b = cache.add_path();
    let c = cache.add_path();
    assert_eq!(cache.get_or_place(a, &path_of(5)), (Placement { start: 0, end: 5 }, true));
    assert_eq!(cache.get_or_place(b, &path_of(3)), (Placement { start: 5, end: 8 }, true));
    assert_eq!(cache.get_or_place(a, &path_of(5)), (Placement { start: 0, end: 5 }, false));
    assert_eq!(cache.get_or_place(c, &path_of(0)), (Placement { start: 8, end: 8 }, true));
    assert_eq!(cache.get_or_place(b, &path_of(3)), (Placement { start: 5, end: 8 }, false));
}

#[test]
fn the_shared_buffer_ends_at_65535() {
    let mut cache = Cache::new();
    let a = cache.add_path();
    let b = cache.add_path();
    let c = cache.add_path();
    let big = path_of(40000);
    assert!(cache.can_place(a, &big));
    assert_eq!(cache.get_or_place(a, &big), (Placement { start: 0, end: 40000 }, true));
    assert!(!cache.can_place(b, &big));
    // What is placed can be placed again.
    assert!(cache.can_place(a, &big));
    let rest = path_of(25535);
    assert!(cache.can_place(b, &rest));
    assert_eq!(cache.get_or_place(b, &rest), (Placement { start: 40000, end: 65535 }, true));
    assert!(!cache.can_place(c, &path_of(1)));
    assert!(cache.can_place(c, &path_of(0)));
}

#[test]
fn glyphs_are_cached_by_font_and_glyph() {
    let mut cache = Cache::new();
    let font = cache.add_font();
    let other = cache.add_font();
    assert!(cache.glyph(font, GlyphKey(7)).is_none());
    let key = cache.insert_glyph(font, GlyphKey(7), path_of(3));
    assert_eq!(key, PathKey(1));
    let entry = cache.glyph(font, GlyphKey(7)).unwrap();
    assert_eq!(entry.key, PathKey(1));
    assert_eq!(entry.path.buffer.len(), 3);
    assert!(cache.glyph(font, GlyphKey(8)).is_none());
    assert!(cache.glyph(other, GlyphKey(7)).is_none());
    let key = cache.insert_glyph(other, GlyphKey(7), path_of(4));
    assert_eq!(key, PathKey(2));
    assert_eq!(cache.glyph(other, GlyphKey(7)).unwrap().path.buffer.len(), 4);
    assert_eq!(cache.glyph(font, GlyphKey(7)).unwrap().path.buffer.len(), 3);
}

#[test]
fn glyphs_of_the_last_font_and_the_last_glyph_are_kept_apart() {
    let mut cache = Cache::new();
    cache.insert_glyph(FontKey(u32::MAX), GlyphKey(u16::MAX), path_of(1));
    cache.insert_glyph(FontKey(u32::MAX), GlyphKey(0), path_of(2));
    cache.insert_glyph(FontKey(0), GlyphKey(u16::MAX), path_of(3));
    assert_eq!(cache.glyph(FontKey(u32::MAX), GlyphKey(u16::MAX)).unwrap().path.buffer.len(), 1);
    assert_eq!(cache.glyph(FontKey(u32::MAX), GlyphKey(0)).unwrap().path.buffer.len(), 2);
    assert_eq!(cache.glyph(FontKey(0), GlyphKey(u16::MAX)).unwrap().path.buffer.len(), 3);
    assert!(cache.glyph(FontKey(1), GlyphKey(0)).is_none());
}

#[test]
fn the_unit_square_is_built_once() {
    let mut cache = Cache::new();
    assert!(cache.rect_path().is_none());
    let key = cache.rect_key();
    assert_eq!(key, PathKey(1));
    assert_eq!(cache.rect_key(), PathKey(1));
    assert_eq!(cache.add_path(), PathKey(2));
    let path = cache.rect_path().unwrap();
    assert_eq!(path.offset, Point::new(0, 0));
    assert_eq!(path.size, Extent { w: 65536, h: 65536 });
    assert_eq!(
        path.buffer,
        vec![
            [1, 32768, 1, 65534],
            [32768, 65534, 65534, 65534],
            [65534, 32768, 65534, 1],
            [32768, 1, 1, 1]
        ]
    );
}

#[test]
fn a_new_cache_has_keys_to_give() {
    let cache = Cache::new();
    assert!(cache.can_add_path());
    assert!(cache.can_add_font());
}
