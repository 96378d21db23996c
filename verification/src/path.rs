//! Paths: a command list is made monotone, boxed, and packed into 16-bit
//! fixed-point texels relative to its bounding box.

use vstd::prelude::*;
use crate::curve::{
    all_monotone, command_monotone, end_of, end_point, lemma_monotonize_quad, monotonize_quad,
    push_monotone, start_of, Command,
};
use crate::arc::{arc_commands, arc_of};
use crate::geom::{max_int, min_int, Extent, Point};

verus! {

/// The smallest encoded coordinate: 0 is kept for markers.
pub const COORD_MIN: u16 = 1;

/// The largest encoded coordinate.
pub const COORD_MAX: u16 = 65534;

/// The number of steps between the smallest and the largest encoded coordinate.
pub const COORD_STEPS: u16 = 65533;

/// A tessellated shape: its bounding box and its monotone segments, packed
/// into texels of four 16-bit values.
#[derive(Debug)]
pub struct Path {
    /// The corner of the bounding box with the smallest coordinates.
    pub offset: Point,
    /// The extent of the bounding box.
    pub size: Extent,
    /// One texel for each command of the monotone command list.
    pub buffer: Vec<[u16; 4]>,
}

/// The point where drawing starts when nothing has moved the pen.
pub open spec fn origin() -> Point {
    Point { x: 0, y: 0 }
}

/// The monotone pieces of one command drawn from `from`.
pub open spec fn monotonize_command(from: Point, c: Command) -> Seq<Command> {
    match c {
        Command::Move(p) => seq![Command::Move(p)],
        Command::Quad(p1, p2) => monotonize_quad(from, p1, p2),
    }
}

/// The command list with every segment replaced by its monotone pieces.
pub open spec fn monotonize(cmds: Seq<Command>) -> Seq<Command>
    decreases cmds.len(),
{
    if cmds.len() == 0 {
        Seq::empty()
    } else {
        monotonize(cmds.drop_last()) + monotonize_command(
            end_point(origin(), cmds.drop_last()),
            cmds.last(),
        )
    }
}

/// One coordinate of a point.
pub open spec fn coord(p: Point, vertical: bool) -> int {
    if vertical { p.y as int } else { p.x as int }
}

/// The smallest coordinate among the points that a command names.
pub open spec fn command_low(c: Command, vertical: bool) -> int {
    match c {
        Command::Move(p) => coord(p, vertical),
        Command::Quad(p1, p2) => min_int(coord(p1, vertical), coord(p2, vertical)),
    }
}

/// The largest coordinate among the points that a command names.
pub open spec fn command_high(c: Command, vertical: bool) -> int {
    match c {
        Command::Move(p) => coord(p, vertical),
        Command::Quad(p1, p2) => max_int(coord(p1, vertical), coord(p2, vertical)),
    }
}

/// The smallest coordinate among all points of the commands, 0 if there is
/// no command.
pub open spec fn low(cmds: Seq<Command>, vertical: bool) -> int
    decreases cmds.len(),
{
    if cmds.len() == 0 {
        0
    } else if cmds.len() == 1 {
        command_low(cmds[0], vertical)
    } else {
        min_int(low(cmds.drop_last(), vertical), command_low(cmds.last(), vertical))
    }
}

/// The largest coordinate among all points of the commands, 0 if there is
/// no command.
pub open spec fn high(cmds: Seq<Command>, vertical: bool) -> int
    decreases cmds.len(),
{
    if cmds.len() == 0 {
        0
    } else if cmds.len() == 1 {
        command_high(cmds[0], vertical)
    } else {
        max_int(high(cmds.drop_last(), vertical), command_high(cmds.last(), vertical))
    }
}

/// The corner of the bounding box of the commands' points; the origin if
/// there is no command.
pub open spec fn box_offset(cmds: Seq<Command>) -> Point {
    Point { x: low(cmds, false) as i32, y: low(cmds, true) as i32 }
}

/// The extent of the bounding box of the commands' points; zero if there is
/// no command.
pub open spec fn box_size(cmds: Seq<Command>) -> Extent {
    Extent {
        w: (high(cmds, false) - low(cmds, false)) as u32,
        h: (high(cmds, true) - low(cmds, true)) as u32,
    }
}

/// The encoded form of the coordinate `v` in a box that starts at `off` and
/// is `size` long: a linear rescale of `[off, off + size]` onto
/// `[COORD_MIN, COORD_MAX]`, rounded to the nearest step and clamped. In a
/// box without extent every coordinate is `COORD_MIN`.
#[verifier::opaque]
pub open spec fn quantize(v: int, off: int, size: int) -> int {
    if size <= 0 {
        COORD_MIN as int
    } else {
        let q = COORD_MIN + (2 * (v - off) * COORD_STEPS + size) / (2 * size);
        if q < COORD_MIN {
            COORD_MIN as int
        } else if q > COORD_MAX {
            COORD_MAX as int
        } else {
            q
        }
    }
}

/// The texel of a command: a move is marked by two leading zeros, a segment
/// holds its control point and its end point.
pub open spec fn texel_of(c: Command, off: Point, size: Extent) -> Seq<u16> {
    match c {
        Command::Move(p) => seq![
            0u16,
            0u16,
            quantize(p.x as int, off.x as int, size.w as int) as u16,
            quantize(p.y as int, off.y as int, size.h as int) as u16,
        ],
        Command::Quad(p1, p2) => seq![
            quantize(p1.x as int, off.x as int, size.w as int) as u16,
            quantize(p1.y as int, off.y as int, size.h as int) as u16,
            quantize(p2.x as int, off.x as int, size.w as int) as u16,
            quantize(p2.y as int, off.y as int, size.h as int) as u16,
        ],
    }
}

/// The texels of a command list.
pub open spec fn encode(cmds: Seq<Command>, off: Point, size: Extent) -> Seq<Seq<u16>> {
    Seq::new(cmds.len(), |i: int| texel_of(cmds[i], off, size))
}

/// An encoded coordinate is never a marker value.
pub proof fn lemma_quantize_range(v: int, off: int, size: int)
    ensures
        1 <= quantize(v, off, size) <= 65534,
{
    reveal(quantize);
}

/// Encoding keeps the order of coordinates.
pub proof fn lemma_quantize_ordered(v: int, w: int, off: int, size: int)
    requires
        v <= w,
    ensures
        quantize(v, off, size) <= quantize(w, off, size),
{
    reveal(quantize);
    if size > 0 {
        let a = 2 * (v - off) * 65533 + size;
        let b = 2 * (w - off) * 65533 + size;
        let d = 2 * size;
        assert(a / d <= b / d) by (nonlinear_arith)
            requires
                a <= b,
                d > 0,
        ;
    }
}

/// The ends of the box are encoded as the ends of the coordinate range.
pub proof fn lemma_quantize_ends(off: int, size: int)
    requires
        size > 0,
    ensures
        quantize(off, off, size) == 1,
        quantize(off + size, off, size) == 65534,
{
    reveal(quantize);
    assert((2 * (off - off) * 65533 + size) / (2 * size) == 0) by (nonlinear_arith)
        requires
            size > 0,
    ;
    assert((2 * (off + size - off) * 65533 + size) / (2 * size) == 65533) by (nonlinear_arith)
        requires
            size > 0,
    ;
}

/// Decoding an encoded coordinate `q` as `off + (q - 1) * size / 65533`
/// gives back a coordinate of the box to within half a step, which is less
/// than `size / 65535`; a coordinate that lies on a step comes back exactly.
pub proof fn lemma_quantize_round_trip(v: int, off: int, size: int)
    requires
        size > 0,
        off <= v <= off + size,
    ensures
        ({
            let q = quantize(v, off, size);
            let err = (q - 1) * size - (v - off) * 65533;
            &&& -size <= 2 * err <= size
            &&& -(65533 * size) <= 65535 * err <= 65533 * size
            &&& ((v - off) * 65533) % size == 0 ==> err == 0
        }),
{
    reveal(quantize);
    let k = v - off;
    let num = 2 * k * 65533 + size;
    let den = 2 * size;
    let r = num / den;
    assert(0 <= r <= 65533 && r * den <= num < r * den + den) by (nonlinear_arith)
        requires
            0 <= k <= size,
            size > 0,
            num == 2 * k * 65533 + size,
            den == 2 * size,
            r == num / den,
    ;
    let q = quantize(v, off, size);
    assert(q == 1 + r);
    let err = (q - 1) * size - k * 65533;
    assert(2 * err == r * den - 2 * k * 65533) by (nonlinear_arith)
        requires
            err == r * size - k * 65533,
            den == 2 * size,
    ;
    if (k * 65533) % size == 0 {
        let m = (k * 65533) / size;
        assert(k * 65533 == m * size) by (nonlinear_arith)
            requires
                (k * 65533) % size == 0,
                m == (k * 65533) / size,
                size > 0,
        ;
        assert(r == m) by (nonlinear_arith)
            requires
                r * den <= num < r * den + den,
                num == 2 * k * 65533 + size,
                den == 2 * size,
                k * 65533 == m * size,
                size > 0,
        ;
        assert(err == 0) by (nonlinear_arith)
            requires
                err == r * size - k * 65533,
                r == m,
                k * 65533 == m * size,
        ;
    }
}

/// The monotone command list starts no segment that turns: every segment of
/// it is monotone in x and in y. It ends where the command list ends.
pub proof fn lemma_monotonize_monotone(cmds: Seq<Command>)
    ensures
        all_monotone(origin(), monotonize(cmds)),
        end_point(origin(), monotonize(cmds)) == end_point(origin(), cmds),
        monotonize(cmds).len() >= cmds.len(),
        monotonize(cmds).len() <= 3 * cmds.len(),
    decreases cmds.len(),
{
    if cmds.len() > 0 {
        let init = cmds.drop_last();
        lemma_monotonize_monotone(init);
        let from = end_point(origin(), init);
        let head = monotonize(init);
        let tail = monotonize_command(from, cmds.last());
        match cmds.last() {
            Command::Move(p) => {
                assert(tail[0] == Command::Move(p));
            },
            Command::Quad(p1, p2) => {
                lemma_monotonize_quad(from, p1, p2);
            },
        }
        let all = head + tail;
        assert forall|i: int| 0 <= i < all.len() implies command_monotone(
            start_of(origin(), all, i),
            #[trigger] all[i],
        ) by {
            if i < head.len() {
                assert(all[i] == head[i]);
                if i > 0 {
                    assert(all[i - 1] == head[i - 1]);
                }
            } else {
                let j = i - head.len();
                assert(all[i] == tail[j]);
                if j > 0 {
                    assert(all[i - 1] == tail[j - 1]);
                    assert(start_of(origin(), all, i) == start_of(from, tail, j));
                } else {
                    if head.len() > 0 {
                        assert(all[i - 1] == head.last());
                    }
                    assert(start_of(origin(), all, i) == from);
                }
            }
        }
        assert(all.last() == tail.last());
    }
}

/// The box holds every point of the commands.
pub proof fn lemma_box_contains(cmds: Seq<Command>, i: int, vertical: bool)
    requires
        0 <= i < cmds.len(),
    ensures
        low(cmds, vertical) <= command_low(cmds[i], vertical),
        command_high(cmds[i], vertical) <= high(cmds, vertical),
        i32::MIN <= low(cmds, vertical) <= high(cmds, vertical) <= i32::MAX,
    decreases cmds.len(),
{
    if cmds.len() > 1 {
        let init = cmds.drop_last();
        if i < init.len() {
            lemma_box_contains(init, i, vertical);
            assert(init[i] == cmds[i]);
        } else {
            lemma_box_contains(init, 0, vertical);
        }
    }
}

/// The box of no commands is the origin; any other box has its four sides
/// in the coordinate range.
pub proof fn lemma_box_range(cmds: Seq<Command>, vertical: bool)
    ensures
        i32::MIN <= low(cmds, vertical) <= high(cmds, vertical) <= i32::MAX,
{
    if cmds.len() > 0 {
        lemma_box_contains(cmds, 0, vertical);
    }
}

/// The segment that the texel `t` holds, drawn from the end point of the
/// texel `prev`, is monotone in x and in y. A texel that marks a move holds
/// no segment.
pub open spec fn texel_monotone(prev: Seq<u16>, t: Seq<u16>) -> bool {
    t[0] != 0 ==> {
        &&& crate::curve::monotone(prev[2] as int, t[0] as int, t[2] as int)
        &&& crate::curve::monotone(prev[3] as int, t[1] as int, t[3] as int)
    }
}

/// Every segment of the texels is monotone; the first is drawn from the end
/// point of `first`.
pub open spec fn texels_monotone(first: Seq<u16>, texels: Seq<Seq<u16>>) -> bool {
    forall|i: int|
        0 <= i < texels.len() ==> texel_monotone(
            if i == 0 { first } else { texels[i - 1] },
            #[trigger] texels[i],
        )
}

/// What the four values of a texel are.
proof fn lemma_texel_fields(c: Command, off: Point, size: Extent)
    ensures
        texel_of(c, off, size).len() == 4,
        texel_of(c, off, size)[2] == quantize(end_of(c).x as int, off.x as int, size.w as int),
        texel_of(c, off, size)[3] == quantize(end_of(c).y as int, off.y as int, size.h as int),
        c is Move ==> texel_of(c, off, size)[0] == 0,
        c matches Command::Quad(p1, _) ==> {
            &&& texel_of(c, off, size)[0] == quantize(p1.x as int, off.x as int, size.w as int)
            &&& texel_of(c, off, size)[1] == quantize(p1.y as int, off.y as int, size.h as int)
        },
{
    match c {
        Command::Move(p) => {
            lemma_quantize_range(p.x as int, off.x as int, size.w as int);
            lemma_quantize_range(p.y as int, off.y as int, size.h as int);
        },
        Command::Quad(p1, p2) => {
            lemma_quantize_range(p1.x as int, off.x as int, size.w as int);
            lemma_quantize_range(p1.y as int, off.y as int, size.h as int);
            lemma_quantize_range(p2.x as int, off.x as int, size.w as int);
            lemma_quantize_range(p2.y as int, off.y as int, size.h as int);
        },
    }
}

/// The texel of a monotone segment, after the texel of a command that ends
/// where the segment starts, holds a monotone segment.
proof fn lemma_texel_monotone(before: Command, c: Command, off: Point, size: Extent)
    requires
        command_monotone(end_of(before), c),
    ensures
        texel_monotone(texel_of(before, off, size), texel_of(c, off, size)),
{
    lemma_texel_fields(before, off, size);
    lemma_texel_fields(c, off, size);
    let from = end_of(before);
    match c {
        Command::Move(p) => {},
        Command::Quad(p1, p2) => {
            lemma_codes_monotone(from.x as int, p1.x as int, p2.x as int, off.x as int, size.w as int);
            lemma_codes_monotone(from.y as int, p1.y as int, p2.y as int, off.y as int, size.h as int);
        },
    }
}

/// Every segment that a built path holds is monotone in x and in y: along
/// start, control and end point no coordinate goes both up and down.
pub proof fn lemma_built_path_monotone(path: Path, cmds: Seq<Command>)
    requires
        path.is_built_from(cmds),
    ensures
        texels_monotone(
            texel_of(Command::Move(origin()), path.offset, path.size),
            path.texels(),
        ),
{
    let m = monotonize(cmds);
    let off = path.offset;
    let size = path.size;
    let first = texel_of(Command::Move(origin()), off, size);
    let texels = path.texels();
    lemma_monotonize_monotone(cmds);
    assert forall|i: int| 0 <= i < texels.len() implies texel_monotone(
        if i == 0 { first } else { texels[i - 1] },
        #[trigger] texels[i],
    ) by {
        assert(texels[i] == texel_of(m[i], off, size));
        assert(command_monotone(start_of(origin(), m, i), m[i]));
        if i == 0 {
            lemma_texel_monotone(Command::Move(origin()), m[i], off, size);
        } else {
            assert(texels[i - 1] == texel_of(m[i - 1], off, size));
            lemma_texel_monotone(m[i - 1], m[i], off, size);
        }
    }
}

/// The codes of a monotone triple are a monotone triple.
proof fn lemma_codes_monotone(a: int, b: int, c: int, off: int, size: int)
    requires
        crate::curve::monotone(a, b, c),
    ensures
        crate::curve::monotone(quantize(a, off, size), quantize(b, off, size), quantize(c, off, size)),
{
    if a <= b && b <= c {
        lemma_quantize_ordered(a, b, off, size);
        lemma_quantize_ordered(b, c, off, size);
    } else {
        lemma_quantize_ordered(c, b, off, size);
        lemma_quantize_ordered(b, a, off, size);
    }
}

/// The code `q` of the coordinate `v`, decoded as `off + (q - 1) * size /
/// 65533`, is `v` to within `size / 65535`, and is `v` itself where `v` lies
/// on a step of the box.
pub open spec fn decodes_to(q: int, v: int, off: int, size: int) -> bool {
    let err = (q - 1) * size - (v - off) * 65533;
    &&& -(65533 * size) <= 65535 * err <= 65533 * size
    &&& (size > 0 && ((v - off) * 65533) % size == 0) ==> err == 0
}

/// The codes of a point decode to the point.
pub open spec fn point_round_trips(p: Point, off: Point, size: Extent) -> bool {
    &&& decodes_to(quantize(p.x as int, off.x as int, size.w as int), p.x as int, off.x as int, size.w as int)
    &&& decodes_to(quantize(p.y as int, off.y as int, size.h as int), p.y as int, off.y as int, size.h as int)
}

/// Encoding loses less than one step: in the box of a command list, the code
/// of every point of every command decodes to that point to within
/// `1 / 65535` of the box's extent, and exactly where the point lies on a step.
pub proof fn lemma_encode_round_trip(cmds: Seq<Command>, i: int)
    requires
        0 <= i < cmds.len(),
    ensures
        match cmds[i] {
            Command::Move(p) => point_round_trips(p, box_offset(cmds), box_size(cmds)),
            Command::Quad(p1, p2) => point_round_trips(p1, box_offset(cmds), box_size(cmds))
                && point_round_trips(p2, box_offset(cmds), box_size(cmds)),
        },
{
    lemma_box_contains(cmds, i, false);
    lemma_box_contains(cmds, i, true);
    let off = box_offset(cmds);
    let size = box_size(cmds);
    match cmds[i] {
        Command::Move(p) => {
            lemma_coord_round_trip(p.x as int, off.x as int, size.w as int);
            lemma_coord_round_trip(p.y as int, off.y as int, size.h as int);
        },
        Command::Quad(p1, p2) => {
            lemma_coord_round_trip(p1.x as int, off.x as int, size.w as int);
            lemma_coord_round_trip(p1.y as int, off.y as int, size.h as int);
            lemma_coord_round_trip(p2.x as int, off.x as int, size.w as int);
            lemma_coord_round_trip(p2.y as int, off.y as int, size.h as int);
        },
    }
}

/// One coordinate of the box decodes to itself.
proof fn lemma_coord_round_trip(v: int, off: int, size: int)
    requires
        size >= 0,
        off <= v <= off + size,
    ensures
        decodes_to(quantize(v, off, size), v, off, size),
{
    if size > 0 {
        lemma_quantize_round_trip(v, off, size);
    } else {
        reveal(quantize);
    }
}

/// Encodes one coordinate of a box that starts at `off` and is `size` long.
pub fn quantize_coord(v: i32, off: i32, size: u32) -> (q: u16)
    ensures
        q == quantize(v as int, off as int, size as int),
        COORD_MIN <= q <= COORD_MAX,
{
    reveal(quantize);
    if size == 0 {
        return 1;
    }
    let d: i64 = v as i64 - off as i64;
    if d <= 0 {
        assert((2 * d * 65533 + size) / (2 * size as int) <= 0) by (nonlinear_arith)
            requires
                d <= 0,
                size > 0,
        ;
        1
    } else if d >= size as i64 {
        assert((2 * d * 65533 + size) / (2 * size as int) >= 65533) by (nonlinear_arith)
            requires
                d >= size,
                size > 0,
        ;
        65534
    } else {
        let num: u64 = 2 * (d as u64) * 65533 + size as u64;
        let den: u64 = 2 * (size as u64);
        let r: u64 = num / den;
        assert(0 <= r <= 65533) by (nonlinear_arith)
            requires
                0 < d < size,
                num == 2 * d * 65533 + size,
                den == 2 * size,
                r == num / den,
        ;
        (1 + r) as u16
    }
}

/// The texel of one command.
fn encode_command(c: Command, off: Point, size: Extent) -> (t: [u16; 4])
    ensures
        t@ == texel_of(c, off, size),
{
    proof {
        match c {
            Command::Move(p) => {
                lemma_quantize_range(p.x as int, off.x as int, size.w as int);
                lemma_quantize_range(p.y as int, off.y as int, size.h as int);
            },
            Command::Quad(p1, p2) => {
                lemma_quantize_range(p1.x as int, off.x as int, size.w as int);
                lemma_quantize_range(p1.y as int, off.y as int, size.h as int);
                lemma_quantize_range(p2.x as int, off.x as int, size.w as int);
                lemma_quantize_range(p2.y as int, off.y as int, size.h as int);
            },
        }
    }
    let t = match c {
        Command::Move(p) => [
            0u16,
            0u16,
            quantize_coord(p.x, off.x, size.w),
            quantize_coord(p.y, off.y, size.h),
        ],
        Command::Quad(p1, p2) => [
            quantize_coord(p1.x, off.x, size.w),
            quantize_coord(p1.y, off.y, size.h),
            quantize_coord(p2.x, off.x, size.w),
            quantize_coord(p2.y, off.y, size.h),
        ],
    };
    assert(t@ =~= texel_of(c, off, size));
    t
}

/// The monotone form of a command list.
pub fn monotonize_commands(commands: &[Command]) -> (out: Vec<Command>)
    ensures
        out@ == monotonize(commands@),
{
    let mut out: Vec<Command> = Vec::new();
    let mut last = Point { x: 0, y: 0 };
    let mut i: usize = 0;
    while i < commands.len()
        invariant
            0 <= i <= commands.len(),
            out@ == monotonize(commands@.take(i as int)),
            last == end_point(origin(), commands@.take(i as int)),
        decreases commands.len() - i,
    {
        let command = commands[i];
        proof {
            assert(commands@.take(i + 1).drop_last() =~= commands@.take(i as int));
            assert(commands@.take(i + 1).last() == command);
        }
        match command {
            Command::Move(p) => {
                out.push(command);
                last = p;
                assert(out@ =~= monotonize(commands@.take(i + 1)));
            },
            Command::Quad(p1, p2) => {
                push_monotone(&mut out, last, p1, p2);
                last = p2;
            },
        }
        i += 1;
    }
    assert(commands@.take(i as int) =~= commands@);
    out
}

/// The bounding box of the points of a command list.
pub fn bounding_box(commands: &Vec<Command>) -> (r: (Point, Extent))
    ensures
        r.0 == box_offset(commands@),
        r.1 == box_size(commands@),
{
    let mut lo = Point { x: 0, y: 0 };
    let mut hi = Point { x: 0, y: 0 };
    let mut i: usize = 0;
    while i < commands.len()
        invariant
            0 <= i <= commands.len(),
            lo.x == low(commands@.take(i as int), false),
            lo.y == low(commands@.take(i as int), true),
            hi.x == high(commands@.take(i as int), false),
            hi.y == high(commands@.take(i as int), true),
        decreases commands.len() - i,
    {
        let (l, h) = match commands[i] {
            Command::Move(p) => (p, p),
            Command::Quad(p1, p2) => (
                Point {
                    x: if p1.x <= p2.x { p1.x } else { p2.x },
                    y: if p1.y <= p2.y { p1.y } else { p2.y },
                },
                Point {
                    x: if p1.x >= p2.x { p1.x } else { p2.x },
                    y: if p1.y >= p2.y { p1.y } else { p2.y },
                },
            ),
        };
        proof {
            assert(commands@.take(i + 1).drop_last() =~= commands@.take(i as int));
            assert(commands@.take(i + 1).last() == commands@[i as int]);
        }
        if i == 0 {
            lo = l;
            hi = h;
        } else {
            lo = Point {
                x: if lo.x <= l.x { lo.x } else { l.x },
                y: if lo.y <= l.y { lo.y } else { l.y },
            };
            hi = Point {
                x: if hi.x >= h.x { hi.x } else { h.x },
                y: if hi.y >= h.y { hi.y } else { h.y },
            };
        }
        i += 1;
    }
    proof {
        assert(commands@.take(i as int) =~= commands@);
        lemma_box_range(commands@, false);
        lemma_box_range(commands@, true);
    }
    let size = Extent {
        w: (hi.x as i64 - lo.x as i64) as u32,
        h: (hi.y as i64 - lo.y as i64) as u32,
    };
    (lo, size)
}

impl Path {
    /// The texels of the path, one sequence of four values each.
    pub open spec fn texels(&self) -> Seq<Seq<u16>> {
        Seq::new(self.buffer@.len(), |i: int| self.buffer@[i]@)
    }

    /// The path of a command list: the box of its monotone form, and that
    /// form's texels relative to the box.
    pub open spec fn is_built_from(&self, cmds: Seq<Command>) -> bool {
        &&& self.offset == box_offset(monotonize(cmds))
        &&& self.size == box_size(monotonize(cmds))
        &&& self.texels() == encode(monotonize(cmds), self.offset, self.size)
    }

    /// A built path has one texel for each command of the monotone form.
    pub proof fn lemma_built_len(&self, cmds: Seq<Command>)
        requires
            self.is_built_from(cmds),
        ensures
            self.buffer@.len() == monotonize(cmds).len(),
    {
        assert(self.texels().len() == self.buffer@.len());
    }

    /// Tessellates a command list: every segment is split into monotone
    /// pieces, the pieces are boxed, and each command is packed into a texel
    /// relative to the box.
    pub fn build(commands: &[Command]) -> (path: Path)
        ensures
            path.is_built_from(commands@),
            path.buffer@.len() == monotonize(commands@).len(),
    {
        let monotone = monotonize_commands(commands);
        let (offset, size) = bounding_box(&monotone);
        let mut buffer: Vec<[u16; 4]> = Vec::with_capacity(monotone.len());
        let mut i: usize = 0;
        while i < monotone.len()
            invariant
                0 <= i <= monotone.len(),
                buffer@.len() == i,
                forall|j: int| 0 <= j < i ==> (#[trigger] buffer@[j])@ == texel_of(monotone@[j], offset, size),
            decreases monotone.len() - i,
        {
            buffer.push(encode_command(monotone[i], offset, size));
            i += 1;
        }
        let path = Path { offset, size, buffer };
        assert(path.texels() =~= encode(monotone@, offset, size));
        path
    }
}

/// What a path builder holds: the commands so far, the first point of the
/// open subpath and the current point.
pub struct Pen {
    pub commands: Seq<Command>,
    pub first: Point,
    pub last: Point,
}

/// The straight segment from `from` to `to`: a quadratic whose control point
/// is the midpoint.
pub open spec fn line_command(from: Point, to: Point) -> Command {
    Command::Quad(Point::spec_midpoint(from, to), to)
}

/// Closes the open subpath: a move that nothing followed is dropped, and a
/// subpath that does not end where it started gets a straight segment back
/// to its first point.
pub open spec fn pen_close(pen: Pen) -> Pen {
    let kept = if pen.commands.len() > 0 && pen.commands.last() is Move {
        pen.commands.drop_last()
    } else {
        pen.commands
    };
    if pen.first != pen.last {
        Pen { commands: kept.push(line_command(pen.last, pen.first)), first: pen.first, last: pen.first }
    } else {
        Pen { commands: kept, first: pen.first, last: pen.last }
    }
}

/// Closes the open subpath and starts a new one at `p`.
pub open spec fn pen_move_to(pen: Pen, p: Point) -> Pen {
    Pen { commands: pen_close(pen).commands.push(Command::Move(p)), first: p, last: p }
}

/// Draws a straight segment to `p`.
pub open spec fn pen_line_to(pen: Pen, p: Point) -> Pen {
    Pen { commands: pen.commands.push(line_command(pen.last, p)), first: pen.first, last: p }
}

/// Draws a quadratic segment through the control point `c` to `p`.
pub open spec fn pen_quadratic_to(pen: Pen, c: Point, p: Point) -> Pen {
    Pen { commands: pen.commands.push(Command::Quad(c, p)), first: pen.first, last: p }
}

/// Draws an arc of a circle of the given radius to `p`.
pub open spec fn pen_arc_to(pen: Pen, radius: int, large_arc: bool, winding: bool, p: Point) -> Pen {
    Pen {
        commands: pen.commands + arc_of(pen.last, radius, large_arc, winding, p),
        first: pen.first,
        last: p,
    }
}

/// Builds a path from drawing calls.
pub struct PathBuilder {
    commands: Vec<Command>,
    first: Point,
    last: Point,
}

impl View for PathBuilder {
    type V = Pen;

    closed spec fn view(&self) -> Pen {
        Pen { commands: self.commands@, first: self.first, last: self.last }
    }
}

impl PathBuilder {
    /// A builder without commands, with the pen at the origin.
    pub fn new() -> (b: PathBuilder)
        ensures
            b@ == (Pen { commands: Seq::empty(), first: origin(), last: origin() }),
    {
        PathBuilder {
            commands: Vec::new(),
            first: Point { x: 0, y: 0 },
            last: Point { x: 0, y: 0 },
        }
    }

    /// Starts a new subpath at `(x, y)`, after closing the open one.
    pub fn move_to(&mut self, x: i32, y: i32) -> (r: &mut Self)
        ensures
            r@ == pen_move_to(old(self)@, Point { x, y }),
            *final(self) == *final(r),
    {
        self.close();
        self.commands.push(Command::Move(Point { x, y }));
        self.first = Point { x, y };
        self.last = Point { x, y };
        self
    }

    /// Draws a straight segment from the current point to `(x, y)`.
    pub fn line_to(&mut self, x: i32, y: i32) -> (r: &mut Self)
        ensures
            r@ == pen_line_to(old(self)@, Point { x, y }),
            *final(self) == *final(r),
    {
        let point = Point { x, y };
        self.commands.push(Command::Quad(Point::midpoint(self.last, point), point));
        self.last = point;
        self
    }

    /// Draws a quadratic segment from the current point through the control
    /// point `(x1, y1)` to `(x2, y2)`.
    pub fn quadratic_to(&mut self, x1: i32, y1: i32, x2: i32, y2: i32) -> (r: &mut Self)
        ensures
            r@ == pen_quadratic_to(old(self)@, Point { x: x1, y: y1 }, Point { x: x2, y: y2 }),
            *final(self) == *final(r),
    {
        self.commands.push(Command::Quad(Point { x: x1, y: y1 }, Point { x: x2, y: y2 }));
        self.last = Point { x: x2, y: y2 };
        self
    }

    /// Draws an arc of a circle from the current point to `(x, y)`, as one
    /// to eight quadratic segments of at most an eighth of a turn each. A
    /// radius of less than half the distance is taken as half the distance.
    /// Of the two circles through both points, `large_arc` and `winding`
    /// choose the one whose centre lies to the left of the way, for equal
    /// flags, or to the right; the arc runs with the winding direction if
    /// `winding`, else against it.
    pub fn arc_to(&mut self, radius: u32, large_arc: bool, winding: bool, x: i32, y: i32) -> (r:
        &mut Self)
        ensures
            r@ == pen_arc_to(old(self)@, radius as int, large_arc, winding, Point { x, y }),
            *final(self) == *final(r),
    {
        let end = Point { x, y };
        let mut arc = arc_commands(self.last, radius, large_arc, winding, end);
        self.commands.append(&mut arc);
        self.last = end;
        self
    }

    /// Closes the open subpath.
    fn close(&mut self)
        ensures
            final(self)@ == pen_close(old(self)@),
    {
        let n = self.commands.len();
        if n > 0 {
            if let Command::Move(_) = self.commands[n - 1] {
                self.commands.pop();
            }
        }
        if self.first != self.last {
            let first = self.first;
            self.commands.push(Command::Quad(Point::midpoint(self.last, first), first));
            self.last = first;
        }
    }

    /// Closes the open subpath and tessellates the commands.
    pub fn build(&mut self) -> (path: Path)
        ensures
            final(self)@ == pen_close(old(self)@),
            path.is_built_from(pen_close(old(self)@).commands),
    {
        self.close();
        Path::build(self.commands.as_slice())
    }
}

} // verus!
