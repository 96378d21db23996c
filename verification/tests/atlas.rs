use gouache::atlas::nearest_pow_2;
use gouache::{Atlas, GlyphKey, Rect};

fn at_rect(x: u32, y: u32, w: u32, h: u32) -> Rect {
    Rect { x, y, w, h }
}

fn apart(a: Rect, b: Rect) -> bool {
    a.x + a.w <= b.x || b.x + b.w <= a.x || a.y + a.h <= b.y || b.y + b.h <= a.y
}

#[test]
fn row_heights_are_powers_of_two() {
    assert_eq!(nearest_pow_2(0), 1);
    assert_eq!(nearest_pow_2(1), 1);
    assert_eq!(nearest_pow_2(2), 2);
    assert_eq!(nearest_pow_2(3), 4);
    assert_eq!(nearest_pow_2(4), 4);
    assert_eq!(nearest_pow_2(5), 8);
    assert_eq!(nearest_pow_2(33), 64);
    assert_eq!(nearest_pow_2(1000), 1024);
    assert_eq!(nearest_pow_2(0x4000_0001), 0x8000_0000);
    assert_eq!(nearest_pow_2(0x8000_0000), 0x8000_0000);
}

#[test]
fn glyphs_of_one_height_fill_a_row_before_a_new_one() {
    let mut atlas = Atlas::new(64, 64);
    assert_eq!(atlas.insert(GlyphKey(0), 32, 32), Some(at_rect(0, 0, 32, 32)));
    assert_eq!(atlas.insert(GlyphKey(1), 32, 32), Some(at_rect(32, 0, 32, 32)));
    assert_eq!(atlas.insert(GlyphKey(2), 32, 32), Some(at_rect(0, 32, 32, 32)));
    assert_eq!(atlas.insert(GlyphKey(3), 32, 32), Some(at_rect(32, 32, 32, 32)));
}

#[test]
fn insert_evict_cycle() {
    let mut atlas = Atlas::new(64, 64);
    assert!(atlas.insert(GlyphKey(0), 32, 32).is_some());
    assert!(atlas.insert(GlyphKey(1), 32, 32).is_some());
    assert!(atlas.insert(GlyphKey(2), 32, 32).is_some());
    // The fourth glyph still has room beside the third.
    assert_eq!(atlas.insert(GlyphKey(3), 32, 32), Some(at_rect(32, 32, 32, 32)));
    // In a later generation the next glyph takes the place of the first row.
    atlas.update_counter();
    assert_eq!(atlas.insert(GlyphKey(4), 32, 32), Some(at_rect(0, 0, 32, 32)));
    assert_eq!(atlas.get_cached(GlyphKey(0)), None);
    assert_eq!(atlas.get_cached(GlyphKey(1)), None);
    assert_eq!(atlas.get_cached(GlyphKey(2)), Some(at_rect(0, 32, 32, 32)));
    assert_eq!(atlas.get_cached(GlyphKey(3)), Some(at_rect(32, 32, 32, 32)));
    assert_eq!(atlas.get_cached(GlyphKey(4)), Some(at_rect(0, 0, 32, 32)));
}

#[test]
fn rows_used_in_this_generation_are_not_evicted() {
    let mut atlas = Atlas::new(64, 64);
    for id in 0..4 {
        assert!(atlas.insert(GlyphKey(id), 32, 32).is_some());
    }
    assert_eq!(atlas.insert(GlyphKey(4), 32, 32), None);
    for id in 0..4 {
        assert!(atlas.get_cached(GlyphKey(id)).is_some());
    }
    assert_eq!(atlas.get_cached(GlyphKey(4)), None);
}

#[test]
fn the_least_recently_used_row_is_evicted() {
    // Room for exactly two glyphs, one in each row.
    let mut atlas = Atlas::new(32, 64);
    atlas.update_counter();
    assert_eq!(atlas.insert(GlyphKey(0), 32, 32), Some(at_rect(0, 0, 32, 32)));
    atlas.update_counter();
    assert_eq!(atlas.insert(GlyphKey(1), 32, 32), Some(at_rect(0, 32, 32, 32)));
    atlas.update_counter();
    assert_eq!(atlas.get_cached(GlyphKey(0)), Some(at_rect(0, 0, 32, 32)));
    atlas.update_counter();
    assert_eq!(atlas.insert(GlyphKey(2), 32, 32), Some(at_rect(0, 32, 32, 32)));
    assert_eq!(atlas.get_cached(GlyphKey(1)), None);
    assert_eq!(atlas.get_cached(GlyphKey(0)), Some(at_rect(0, 0, 32, 32)));
    assert_eq!(atlas.get_cached(GlyphKey(2)), Some(at_rect(0, 32, 32, 32)));
}

#[test]
fn without_a_touch_the_first_row_is_evicted() {
    let mut atlas = Atlas::new(32, 64);
    atlas.update_counter();
    assert!(atlas.insert(GlyphKey(0), 32, 32).is_some());
    atlas.update_counter();
    assert!(atlas.insert(GlyphKey(1), 32, 32).is_some());
    atlas.update_counter();
    assert_eq!(atlas.insert(GlyphKey(2), 32, 32), Some(at_rect(0, 0, 32, 32)));
    assert_eq!(atlas.get_cached(GlyphKey(0)), None);
    assert_eq!(atlas.get_cached(GlyphKey(1)), Some(at_rect(0, 32, 32, 32)));
}

#[test]
fn of_two_rows_used_equally_long_ago_the_upper_one_is_evicted() {
    let mut atlas = Atlas::new(32, 64);
    assert!(atlas.insert(GlyphKey(0), 32, 32).is_some());
    assert!(atlas.insert(GlyphKey(1), 32, 32).is_some());
    atlas.update_counter();
    assert_eq!(atlas.insert(GlyphKey(2), 32, 32), Some(at_rect(0, 0, 32, 32)));
}

#[test]
fn a_glyph_larger_than_the_atlas_is_rejected() {
    let mut atlas = Atlas::new(64, 32);
    assert_eq!(atlas.insert(GlyphKey(0), 65, 10), None);
    assert_eq!(atlas.insert(GlyphKey(0), 10, 33), None);
    assert_eq!(atlas.insert(GlyphKey(0), 64, 32), Some(at_rect(0, 0, 64, 32)));
}

#[test]
fn a_glyph_whose_row_is_higher_than_the_atlas_is_rejected() {
    // 33 rounds up to 64, which a 48 high atlas cannot hold.
    let mut atlas = Atlas::new(64, 48);
    assert_eq!(atlas.insert(GlyphKey(0), 10, 33), None);
    let mut atlas = Atlas::new(10, u32::MAX);
    assert_eq!(atlas.insert(GlyphKey(0), 10, 0x8000_0001), None);
    assert_eq!(atlas.insert(GlyphKey(0), 10, 0x8000_0000), Some(at_rect(0, 0, 10, 0x8000_0000)));
}

#[test]
fn a_glyph_without_extent_gets_a_row_of_height_one() {
    let mut atlas = Atlas::new(8, 8);
    assert_eq!(atlas.insert(GlyphKey(0), 0, 0), Some(at_rect(0, 0, 0, 0)));
    assert_eq!(atlas.insert(GlyphKey(1), 8, 1), Some(at_rect(0, 0, 8, 1)));
    assert_eq!(atlas.insert(GlyphKey(2), 1, 1), Some(at_rect(0, 1, 1, 1)));
}

#[test]
fn a_lookup_of_an_unknown_glyph_finds_nothing() {
    let mut atlas = Atlas::new(64, 64);
    assert_eq!(atlas.get_cached(GlyphKey(7)), None);
    assert!(atlas.insert(GlyphKey(7), 3, 5).is_some());
    assert_eq!(atlas.get_cached(GlyphKey(7)), Some(at_rect(0, 0, 3, 5)));
    assert_eq!(atlas.get_cached(GlyphKey(8)), None);
}

#[test]
fn a_higher_row_takes_a_glyph_when_no_height_is_left() {
    let mut atlas = Atlas::new(64, 64);
    assert_eq!(atlas.insert(GlyphKey(0), 10, 60), Some(at_rect(0, 0, 10, 60)));
    assert_eq!(atlas.insert(GlyphKey(1), 10, 10), Some(at_rect(10, 0, 10, 10)));
}

#[test]
fn a_new_row_is_preferred_to_a_higher_row() {
    let mut atlas = Atlas::new(64, 64);
    assert_eq!(atlas.insert(GlyphKey(0), 10, 30), Some(at_rect(0, 0, 10, 30)));
    assert_eq!(atlas.insert(GlyphKey(1), 10, 10), Some(at_rect(0, 32, 10, 10)));
    // Rows of 32 and 16 are in use; a glyph of height 8 gets its own row.
    assert_eq!(atlas.insert(GlyphKey(2), 10, 8), Some(at_rect(0, 48, 10, 8)));
    // A glyph of height 16 goes beside the other one.
    assert_eq!(atlas.insert(GlyphKey(3), 10, 16), Some(at_rect(10, 32, 10, 16)));
    // 8 units of height are left: rows of 4, 2 and 1 follow.
    assert_eq!(atlas.insert(GlyphKey(4), 10, 4), Some(at_rect(0, 56, 10, 4)));
    assert_eq!(atlas.insert(GlyphKey(5), 10, 4), Some(at_rect(10, 56, 10, 4)));
    assert_eq!(atlas.insert(GlyphKey(6), 10, 2), Some(at_rect(0, 60, 10, 2)));
    assert_eq!(atlas.insert(GlyphKey(7), 10, 2), Some(at_rect(10, 60, 10, 2)));
    assert_eq!(atlas.insert(GlyphKey(8), 10, 1), Some(at_rect(0, 62, 10, 1)));
    assert_eq!(atlas.insert(GlyphKey(9), 10, 1), Some(at_rect(10, 62, 10, 1)));
}

#[test]
fn among_higher_rows_the_lowest_is_taken() {
    let mut atlas = Atlas::new(64, 56);
    assert_eq!(atlas.insert(GlyphKey(0), 10, 32), Some(at_rect(0, 0, 10, 32)));
    assert_eq!(atlas.insert(GlyphKey(1), 10, 16), Some(at_rect(0, 32, 10, 16)));
    assert_eq!(atlas.insert(GlyphKey(2), 10, 8), Some(at_rect(0, 48, 10, 8)));
    // No height is left; a glyph of height 4 goes into the row of 8.
    assert_eq!(atlas.insert(GlyphKey(3), 10, 4), Some(at_rect(10, 48, 10, 4)));
    // Fill the row of 8.
    assert_eq!(atlas.insert(GlyphKey(4), 44, 8), Some(at_rect(20, 48, 44, 8)));
    // Now the lowest higher row with room is the row of 16.
    assert_eq!(atlas.insert(GlyphKey(5), 10, 4), Some(at_rect(10, 32, 10, 4)));
}

#[test]
fn an_evicted_run_leaves_a_filler_row() {
    let mut atlas = Atlas::new(64, 64);
    assert_eq!(atlas.insert(GlyphKey(0), 64, 64), Some(at_rect(0, 0, 64, 64)));
    atlas.update_counter();
    // The row of 64 makes room for a row of 16 and a filler of 48.
    assert_eq!(atlas.insert(GlyphKey(1), 64, 16), Some(at_rect(0, 0, 64, 16)));
    assert_eq!(atlas.get_cached(GlyphKey(0)), None);
    // The filler is higher than 32 and has room.
    assert_eq!(atlas.insert(GlyphKey(2), 10, 20), Some(at_rect(0, 16, 10, 20)));
    // Both rows were used in this generation: nothing can be evicted.
    assert_eq!(atlas.insert(GlyphKey(3), 64, 40), None);
    atlas.update_counter();
    // A run of both rows is 64 high.
    assert_eq!(atlas.insert(GlyphKey(3), 64, 40), Some(at_rect(0, 0, 64, 40)));
    assert_eq!(atlas.get_cached(GlyphKey(1)), None);
    assert_eq!(atlas.get_cached(GlyphKey(2)), None);
}

#[test]
fn a_run_of_several_rows_is_evicted_for_a_higher_row() {
    let mut atlas = Atlas::new(16, 64);
    for id in 0..4 {
        atlas.update_counter();
        assert_eq!(atlas.insert(GlyphKey(id), 16, 16), Some(at_rect(0, 16 * id as u32, 16, 16)));
    }
    atlas.update_counter();
    // Runs of two rows: used in (1, 2), (2, 3), (3, 4). The first is the oldest.
    assert_eq!(atlas.insert(GlyphKey(9), 16, 32), Some(at_rect(0, 0, 16, 32)));
    assert_eq!(atlas.get_cached(GlyphKey(0)), None);
    assert_eq!(atlas.get_cached(GlyphKey(1)), None);
    assert_eq!(atlas.get_cached(GlyphKey(2)), Some(at_rect(0, 32, 16, 16)));
    assert_eq!(atlas.get_cached(GlyphKey(3)), Some(at_rect(0, 48, 16, 16)));
}

#[test]
fn a_run_does_not_cross_a_row_used_in_this_generation() {
    let mut atlas = Atlas::new(16, 64);
    for id in 0..4 {
        assert!(atlas.insert(GlyphKey(id), 16, 16).is_some());
    }
    atlas.update_counter();
    // Touch the second row: the only run of two rows left is the last two.
    assert!(atlas.get_cached(GlyphKey(1)).is_some());
    assert_eq!(atlas.insert(GlyphKey(9), 16, 32), Some(at_rect(0, 32, 16, 32)));
    assert!(atlas.get_cached(GlyphKey(0)).is_some());
    assert!(atlas.get_cached(GlyphKey(1)).is_some());
    assert_eq!(atlas.get_cached(GlyphKey(2)), None);
    assert_eq!(atlas.get_cached(GlyphKey(3)), None);
}

#[test]
fn a_glyph_put_in_twice_is_found_where_it_was_put_last() {
    let mut atlas = Atlas::new(64, 64);
    assert_eq!(atlas.insert(GlyphKey(5), 10, 10), Some(at_rect(0, 0, 10, 10)));
    assert_eq!(atlas.insert(GlyphKey(5), 12, 10), Some(at_rect(10, 0, 12, 10)));
    assert_eq!(atlas.get_cached(GlyphKey(5)), Some(at_rect(10, 0, 12, 10)));
}

#[test]
fn cached_glyphs_never_overlap() {
    let mut atlas = Atlas::new(100, 100);
    let mut placed: Vec<(u16, Rect)> = Vec::new();
    let mut seed: u32 = 12345;
    for round in 0..400u16 {
        if round % 7 == 0 {
            atlas.update_counter();
        }
        seed = seed.wrapping_mul(1664525).wrapping_add(1013904223);
        let w = 1 + (seed >> 8) % 40;
        let h = 1 + (seed >> 16) % 40;
        if let Some(r) = atlas.insert(GlyphKey(round), w, h) {
            assert_eq!((r.w, r.h), (w, h));
            assert!(r.x + r.w <= 100);
            assert!(r.y + r.h <= 100);
            placed.push((round, r));
        }
        let mut live: Vec<Rect> = Vec::new();
        for (id, r) in placed.iter().rev().take(8) {
            if let Some(found) = atlas.get_cached(GlyphKey(*id)) {
                assert_eq!(found, *r);
                live.push(found);
            }
        }
        for i in 0..live.len() {
            for j in 0..i {
                assert!(apart(live[i], live[j]));
            }
        }
    }
}

#[test]
fn the_generation_counts_the_updates() {
    let mut atlas = Atlas::new(8, 8);
    assert_eq!(atlas.counter(), 0);
    atlas.update_counter();
    atlas.update_counter();
    assert_eq!(atlas.counter(), 2);
}
