use gouache::{Font, Glyph, GlyphKey, TextItem};

fn metrics() -> Font {
    Font { units_per_em: 1000, ascender: 800, descender: -200, line_gap: 90 }
}

fn placed(x: i64, y: i64, key: u16) -> Glyph {
    Glyph { x, y, glyph_key: GlyphKey(key) }
}

#[test]
fn glyphs_follow_each_other_on_the_baseline() {
    let items = [TextItem::Glyph(GlyphKey(1), 500), TextItem::Glyph(GlyphKey(2), 600), TextItem::Glyph(GlyphKey(3), 1)];
    assert_eq!(metrics().layout(&items), vec![placed(0, 800, 1), placed(500, 800, 2), placed(1100, 800, 3)]);
}

#[test]
fn a_line_break_starts_a_line_below() {
    let items = [
        TextItem::Glyph(GlyphKey(1), 500),
        TextItem::Glyph(GlyphKey(2), 600),
        TextItem::Newline,
        TextItem::Glyph(GlyphKey(3), 400),
        TextItem::Newline,
        TextItem::Newline,
        TextItem::Glyph(GlyphKey(4), 400),
    ];
    assert_eq!(
        metrics().layout(&items),
        vec![placed(0, 800, 1), placed(500, 800, 2), placed(0, 1890, 3), placed(0, 4070, 4)]
    );
}

#[test]
fn a_character_without_a_glyph_takes_no_room() {
    let items = [TextItem::Glyph(GlyphKey(1), 500), TextItem::Missing, TextItem::Glyph(GlyphKey(2), 600)];
    assert_eq!(metrics().layout(&items), vec![placed(0, 800, 1), placed(500, 800, 2)]);
}

#[test]
fn no_text_has_no_glyphs_and_no_extent() {
    assert_eq!(metrics().layout(&[]), vec![]);
    assert_eq!(metrics().measure(&[]), (0, 0));
}

#[test]
fn the_height_of_a_line_is_ascender_less_descender() {
    assert_eq!(metrics().height(), 1000);
    let m = Font { units_per_em: 16, ascender: i16::MAX, descender: i16::MIN, line_gap: 0 };
    assert_eq!(m.height(), 65535);
}

#[test]
fn measure_counts_the_lines_that_end() {
    let items = [
        TextItem::Glyph(GlyphKey(1), 500),
        TextItem::Glyph(GlyphKey(2), 600),
        TextItem::Newline,
        TextItem::Glyph(GlyphKey(3), 400),
        TextItem::Newline,
        TextItem::Glyph(GlyphKey(4), 5000),
    ];
    // Two lines end: 1100 and 400 wide; 2 * 1000 high with one gap of 90.
    assert_eq!(metrics().measure(&items), (1100, 2090));
}

#[test]
fn measure_of_one_line_has_no_gap() {
    let items = [TextItem::Glyph(GlyphKey(1), 500), TextItem::Newline];
    assert_eq!(metrics().measure(&items), (500, 1000));
}

#[test]
fn layout_with_a_descender_above_the_ascender() {
    let m = Font { units_per_em: 1000, ascender: -100, descender: 100, line_gap: -50 };
    let items = [TextItem::Newline, TextItem::Glyph(GlyphKey(1), 10)];
    assert_eq!(m.layout(&items), vec![placed(0, -350, 1)]);
    assert_eq!(m.measure(&items), (0, -200));
}
