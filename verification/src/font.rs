//! Glyph identities and text layout in font units. The font itself is
//! looked at elsewhere: what is laid out here is a text whose characters
//! have been looked up already.

use vstd::prelude::*;

verus! {

/// The identity of a glyph within a font.
#[derive(Copy, Clone, Debug, PartialEq, Eq, Hash, Structural)]
pub struct GlyphKey(pub u16);

/// The metrics of a font that layout needs, in font units.
#[derive(Copy, Clone, Debug, PartialEq, Eq, Structural)]
pub struct Font {
    pub units_per_em: u16,
    pub ascender: i16,
    pub descender: i16,
    pub line_gap: i16,
}

/// What a character of a text is to a font.
#[derive(Copy, Clone, Debug, PartialEq, Eq, Structural)]
pub enum TextItem {
    /// A line break.
    Newline,
    /// A glyph and its horizontal advance.
    Glyph(GlyphKey, u16),
    /// A character for which the font has no glyph.
    Missing,
}

/// A glyph of a laid-out text: its origin, in font units from the left end
/// of the first line's top, and its identity.
#[derive(Copy, Clone, Debug, PartialEq, Eq, Structural)]
pub struct Glyph {
    pub x: i64,
    pub y: i64,
    pub glyph_key: GlyphKey,
}

/// The most characters that layout takes: with more, a position could
/// leave the 64-bit range.
pub const MAX_ITEMS: u64 = 0x4000_0000_0000;

/// The distance from one baseline to the next.
pub open spec fn line_advance(m: Font) -> int {
    m.ascender - m.descender + m.line_gap
}

/// The horizontal position of the pen after the items.
pub open spec fn pen_x(items: Seq<TextItem>) -> int
    decreases items.len(),
{
    if items.len() == 0 {
        0
    } else {
        match items.last() {
            TextItem::Newline => 0,
            TextItem::Glyph(_, advance) => pen_x(items.drop_last()) + advance,
            TextItem::Missing => pen_x(items.drop_last()),
        }
    }
}

/// The number of line breaks among the items.
pub open spec fn line_breaks(items: Seq<TextItem>) -> int
    decreases items.len(),
{
    if items.len() == 0 {
        0
    } else {
        line_breaks(items.drop_last()) + (if items.last() is Newline { 1int } else { 0int })
    }
}

/// The vertical position of the pen after the items: the first baseline
/// lies at the ascender, each further one a line advance below.
pub open spec fn pen_y(m: Font, items: Seq<TextItem>) -> int {
    m.ascender + line_breaks(items) * line_advance(m)
}

/// The glyphs of the items, each where the pen stands when its turn comes.
pub open spec fn laid_out(m: Font, items: Seq<TextItem>) -> Seq<Glyph>
    decreases items.len(),
{
    if items.len() == 0 {
        Seq::empty()
    } else {
        let before = items.drop_last();
        match items.last() {
            TextItem::Glyph(key, _) => laid_out(m, before).push(
                Glyph { x: pen_x(before) as i64, y: pen_y(m, before) as i64, glyph_key: key },
            ),
            _ => laid_out(m, before),
        }
    }
}

/// The width of the widest line that a line break ends.
pub open spec fn widest_line(items: Seq<TextItem>) -> int
    decreases items.len(),
{
    if items.len() == 0 {
        0
    } else {
        let before = items.drop_last();
        if items.last() is Newline && pen_x(before) > widest_line(before) {
            pen_x(before)
        } else {
            widest_line(before)
        }
    }
}

/// The height of the lines that line breaks end: each is as high as the
/// font, and between two of them lies the line gap.
pub open spec fn lines_height(m: Font, items: Seq<TextItem>) -> int {
    let lines = line_breaks(items);
    lines * (m.ascender - m.descender) + (if lines > 0 { lines - 1 } else { 0 }) * m.line_gap
}

/// The pen stays in a range that grows with the number of items.
pub proof fn lemma_pen_range(items: Seq<TextItem>)
    ensures
        0 <= pen_x(items) <= 65535 * items.len(),
        0 <= widest_line(items) <= 65535 * items.len(),
        0 <= line_breaks(items) <= items.len(),
    decreases items.len(),
{
    if items.len() > 0 {
        lemma_pen_range(items.drop_last());
    }
}

impl Font {
    /// The height of a line: from the descender to the ascender.
    pub fn height(&self) -> (h: i32)
        ensures
            h == self.ascender - self.descender,
    {
        self.ascender as i32 - self.descender as i32
    }

    /// Lays a text out: every glyph gets the position of the pen, which starts
    /// at the first baseline, moves right by each glyph's advance, and goes back
    /// to the left and down by a line advance at each line break.
    pub fn layout(&self, items: &[TextItem]) -> (glyphs: Vec<Glyph>)
        requires
            items@.len() <= MAX_ITEMS,
        ensures
            glyphs@ == laid_out(*self, items@),
    {
        let metrics = self;
        let advance: i64 = metrics.height() as i64 + metrics.line_gap as i64;
        let mut glyphs: Vec<Glyph> = Vec::new();
        let mut x: i64 = 0;
        let mut y: i64 = metrics.ascender as i64;
        let mut i: usize = 0;
        while i < items.len()
            invariant
                i <= items@.len() <= MAX_ITEMS,
                advance == line_advance(*metrics),
                glyphs@ == laid_out(*metrics, items@.take(i as int)),
                x == pen_x(items@.take(i as int)),
                y == pen_y(*metrics, items@.take(i as int)),
                y == metrics.ascender + line_breaks(items@.take(i as int)) * advance,
            decreases items@.len() - i,
        {
            proof {
                assert(items@.take(i + 1).drop_last() =~= items@.take(i as int));
                assert(items@.take(i + 1).last() == items@[i as int]);
                lemma_pen_range(items@.take(i as int));
                lemma_pen_range(items@.take(i + 1));
                let lines = line_breaks(items@.take(i as int));
                assert(-98304 * MAX_ITEMS <= lines * advance <= 98304 * MAX_ITEMS) by (nonlinear_arith)
                    requires
                        0 <= lines <= MAX_ITEMS,
                        -98304 <= advance <= 98304,
                ;
                assert((lines + 1) * advance == lines * advance + advance) by (nonlinear_arith);
            }
            match items[i] {
                TextItem::Newline => {
                    x = 0;
                    y = y + advance;
                },
                TextItem::Glyph(key, step) => {
                    glyphs.push(Glyph { x, y, glyph_key: key });
                    x = x + step as i64;
                },
                TextItem::Missing => {},
            }
            i += 1;
        }
        assert(items@.take(i as int) =~= items@);
        glyphs
    }

    /// Measures a text: the width of the widest line and the height of all
    /// lines, counting the lines that a line break ends.
    pub fn measure(&self, items: &[TextItem]) -> (extent: (i64, i64))
        requires
            items@.len() <= MAX_ITEMS,
        ensures
            extent.0 == widest_line(items@),
            extent.1 == lines_height(*self, items@),
    {
        let metrics = self;
        let mut width: i64 = 0;
        let mut line_width: i64 = 0;
        let mut lines: i64 = 0;
        let mut i: usize = 0;
        while i < items.len()
            invariant
                i <= items@.len() <= MAX_ITEMS,
                width == widest_line(items@.take(i as int)),
                line_width == pen_x(items@.take(i as int)),
                lines == line_breaks(items@.take(i as int)),
            decreases items@.len() - i,
        {
            proof {
                assert(items@.take(i + 1).drop_last() =~= items@.take(i as int));
                assert(items@.take(i + 1).last() == items@[i as int]);
                lemma_pen_range(items@.take(i as int));
                lemma_pen_range(items@.take(i + 1));
            }
            match items[i] {
                TextItem::Newline => {
                    if line_width > width {
                        width = line_width;
                    }
                    line_width = 0;
                    lines = lines + 1;
                },
                TextItem::Glyph(_, step) => {
                    line_width = line_width + step as i64;
                },
                TextItem::Missing => {},
            }
            i += 1;
        }
        proof {
            assert(items@.take(i as int) =~= items@);
            lemma_pen_range(items@);
        }
        let gaps: i64 = if lines > 0 { lines - 1 } else { 0 };
        let height = metrics.height() as i64;
        let gap = metrics.line_gap as i64;
        assert(-65535 * MAX_ITEMS <= lines * height <= 65535 * MAX_ITEMS) by (nonlinear_arith)
            requires
                0 <= lines <= MAX_ITEMS,
                -65535 <= height <= 65535,
        ;
        assert(-32768 * MAX_ITEMS <= gaps * gap <= 32768 * MAX_ITEMS) by (nonlinear_arith)
            requires
                0 <= gaps <= MAX_ITEMS,
                -32768 <= gap <= 32768,
        ;
        (width, lines * height + gaps * gap)
    }
}

} // verus!
