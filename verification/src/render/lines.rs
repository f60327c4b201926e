//! Straight lines on the dot grid, folded into braille cells.

use vstd::prelude::*;

use crate::render::braille::{bit_is_set, braille_char, dot_bit, dots_are_unicode_bits, dots_unite, glyph, has_dot, lemma_blank, lemma_light,
    pattern_is_its_dots, pattern_of, pattern_of_shows, unicode_bit};
use crate::render::colormap::Rgb;
use crate::grid::lemma_cell_index;
use crate::render::{drawing_goes_row_by_row, drawn, drawn_has, drawn_len, DrawCell};
use crate::storage::{accums_new, accums_of, accums_push, accums_set, accums_slice, cells_new, cells_of,
    cells_push, AccumVec, CellVec, MAX_CELLS};

verus! {

/// Distance between two coordinates.
pub open spec fn span(p: int, q: int) -> int {
    if p <= q {
        q - p
    } else {
        p - q
    }
}

/// Direction of the step that leads from `p` towards `q`.
pub open spec fn heading(p: int, q: int) -> int {
    if p < q {
        1
    } else {
        -1
    }
}

/// The integer nearest to `num / den`, halves rounded up; 0 for `den` = 0.
pub open spec fn nearest(num: int, den: int) -> int {
    if den == 0 {
        0
    } else {
        (2 * num + den) / (2 * den)
    }
}

/// How many dots the line between two dots has: one per step of the longer
/// axis, both ends counted.
pub open spec fn line_len(x0: int, y0: int, x1: int, y1: int) -> int {
    if span(x0, x1) >= span(y0, y1) {
        span(x0, x1) + 1
    } else {
        span(y0, y1) + 1
    }
}

/// The `i`-th dot of the line from (`x0`, `y0`) to (`x1`, `y1`): `i` steps
/// along the longer axis, and the nearest dot to the line across it.
pub open spec fn line_point(x0: int, y0: int, x1: int, y1: int, i: int) -> (int, int) {
    let a = span(x0, x1);
    let b = span(y0, y1);
    if a >= b {
        (x0 + heading(x0, x1) * i, y0 + heading(y0, y1) * nearest(b * i, a))
    } else {
        (x0 + heading(x0, x1) * nearest(a * i, b), y0 + heading(y0, y1) * i)
    }
}

proof fn lemma_nearest(num: int, den: int, q: int)
    requires
        den > 0,
        2 * (den * q) <= 2 * num + den < 2 * (den * q) + 2 * den,
    ensures
        nearest(num, den) == q,
{
    let r = 2 * num + den - 2 * (den * q);
    assert(2 * num + den == q * (2 * den) + r) by (nonlinear_arith)
        requires
            r == 2 * num + den - 2 * (den * q),
    ;
    vstd::arithmetic::div_mod::lemma_fundamental_div_mod_converse(2 * num + den, 2 * den, q, r);
}

/// After `i` steps along the longer axis (of length `a`), `j` steps across it
/// (of length `b`) are the nearest to the line.
spec fn on_track(a: int, b: int, i: int, j: int) -> bool {
    a > 0 ==> 2 * (a * j) <= 2 * (b * i) + a < 2 * (a * j) + 2 * a
}

/// Short of the end there is a step left along the longer axis, and one
/// across it whenever that is the nearer dot.
proof fn lemma_room(a: int, b: int, i: int, j: int)
    requires
        0 <= b <= a,
        0 <= i <= a,
        0 <= j <= b,
        i < a || j < b,
        on_track(a, b, i, j),
    ensures
        i < a,
        2 * (a * j) + 2 * a <= 2 * (b * i) + 2 * b + a ==> j < b,
{
    if i == a {
        assert(b * i == a * b) by (nonlinear_arith)
            requires
                i == a,
        ;
        assert(a * b < a * j + a);
        assert(b < j + 1) by (nonlinear_arith)
            requires
                a * b < a * j + a,
                a > 0,
        ;
    }
    if j == b && 2 * (a * j) + 2 * a <= 2 * (b * i) + 2 * b + a {
        assert(false) by (nonlinear_arith)
            requires
                j == b,
                0 <= b,
                i + 1 <= a,
                0 < a,
                2 * (a * j) + 2 * a <= 2 * (b * i) + 2 * b + a,
        ;
    }
}

/// The dots of a line, by Bresenham's algorithm.
pub fn bresenham(x0: i32, y0: i32, x1: i32, y1: i32) -> (points: Vec<(i32, i32)>)
    ensures
        points@.len() == line_len(x0 as int, y0 as int, x1 as int, y1 as int),
        forall|i: int|
            0 <= i < points@.len() ==> (
            (#[trigger] points@[i]).0 as int,
            points@[i].1 as int,
        ) == line_point(x0 as int, y0 as int, x1 as int, y1 as int, i),
{
    let ghost a: int = span(x0 as int, x1 as int);
    let ghost b: int = span(y0 as int, y1 as int);
    let dx: i64 = if x0 <= x1 { x1 as i64 - x0 as i64 } else { x0 as i64 - x1 as i64 };
    let dy: i64 = if y0 <= y1 { y0 as i64 - y1 as i64 } else { y1 as i64 - y0 as i64 };
    let sx: i32 = if x0 < x1 { 1 } else { -1 };
    let sy: i32 = if y0 < y1 { 1 } else { -1 };
    let mut err: i64 = dx + dy;
    let mut x: i32 = x0;
    let mut y: i32 = y0;
    let mut points: Vec<(i32, i32)> = Vec::new();
    let ghost mut i: int = 0;
    let ghost mut j: int = 0;
    loop
        invariant_except_break
            a >= b ==> points@.len() == i && on_track(a, b, i, j),
            a < b ==> points@.len() == j && on_track(b, a, j, i),
        invariant
            a == span(x0 as int, x1 as int),
            b == span(y0 as int, y1 as int),
            dx == a,
            dy == -b,
            sx == heading(x0 as int, x1 as int),
            sy == heading(y0 as int, y1 as int),
            0 <= a <= 0xffff_ffff,
            0 <= b <= 0xffff_ffff,
            0 <= i <= a,
            0 <= j <= b,
            x == x0 + sx * i,
            y == y0 + sy * j,
            err == a - b - b * i + a * j,
            forall|k: int|
                0 <= k < points@.len() ==> (
                (#[trigger] points@[k]).0 as int,
                points@[k].1 as int,
            ) == line_point(x0 as int, y0 as int, x1 as int, y1 as int, k),
        ensures
            points@.len() == line_len(x0 as int, y0 as int, x1 as int, y1 as int),
            forall|k: int|
                0 <= k < points@.len() ==> (
                (#[trigger] points@[k]).0 as int,
                points@[k].1 as int,
            ) == line_point(x0 as int, y0 as int, x1 as int, y1 as int, k),
        decreases (a - i) + (b - j),
    {
        proof {
            if a >= b {
                if a > 0 {
                    lemma_nearest(b * i, a, j);
                }
            } else {
                lemma_nearest(a * j, b, i);
            }
        }
        proof {
            assert(sx * i == if sx == 1 { i } else { -i }) by (nonlinear_arith)
                requires
                    sx == 1 || sx == -1,
            ;
            assert(sy * j == if sy == 1 { j } else { -j }) by (nonlinear_arith)
                requires
                    sy == 1 || sy == -1,
            ;
        }
        points.push((x, y));
        if x == x1 && y == y1 {
            break;
        }
        let e2: i64 = 2 * err;
        proof {
            assert(sx * (i + 1) == sx * i + sx) by (nonlinear_arith);
            assert(sy * (j + 1) == sy * j + sy) by (nonlinear_arith);
            if a >= b {
                lemma_room(a, b, i, j);
            } else {
                lemma_room(b, a, j, i);
            }
            assert(b * (i + 1) == b * i + b) by (nonlinear_arith);
            assert(a * (j + 1) == a * j + a) by (nonlinear_arith);
        }
        if e2 >= dy {
            err = err + dy;
            x = x + sx;
            proof {
                i = i + 1;
            }
        }
        if e2 <= dx {
            err = err + dx;
            y = y + sy;
            proof {
                j = j + 1;
            }
        }
    }
    points
}

/// What is nearest after `i` of `a` steps that climb by `b` in all, `b <= a`:
/// between 0 and `b`, at each end exactly so, and at most one more at each step.
proof fn lemma_climb(a: int, b: int, i: int)
    requires
        0 <= b <= a,
        0 <= i <= a,
    ensures
        0 <= nearest(b * i, a) <= b,
        nearest(b * 0, a) == 0,
        nearest(b * a, a) == b,
        i < a ==> nearest(b * i, a) <= nearest(b * (i + 1), a) <= nearest(b * i, a) + 1,
{
    if a > 0 {
        let q = (2 * (b * i) + a) / (2 * a);
        let r = (2 * (b * i) + a) % (2 * a);
        vstd::arithmetic::div_mod::lemma_fundamental_div_mod(2 * (b * i) + a, 2 * a);
        assert((2 * a) * q == 2 * (a * q)) by (nonlinear_arith);
        assert(0 <= b * i) by (nonlinear_arith)
            requires
                0 <= b,
                0 <= i,
        ;
        assert(q >= 0) by (nonlinear_arith)
            requires
                0 < a,
                2 * (a * q) + r >= 0,
                r < 2 * a,
        ;
        assert(q <= b) by (nonlinear_arith)
            requires
                0 < a,
                0 <= i <= a,
                0 <= b,
                2 * (a * q) <= 2 * (b * i) + a,
        ;
        lemma_nearest(b * 0, a, 0);
        assert(b * a == a * b) by (nonlinear_arith);
        lemma_nearest(b * a, a, b);
        if i < a {
            assert(b * (i + 1) == b * i + b) by (nonlinear_arith);
            assert(a * (q + 1) == a * q + a) by (nonlinear_arith);
            if 2 * (b * (i + 1)) + a < 2 * (a * q) + 2 * a {
                lemma_nearest(b * (i + 1), a, q);
            } else {
                lemma_nearest(b * (i + 1), a, q + 1);
            }
        }
    }
}

/// A line starts at its first end and finishes at its second.
pub proof fn line_meets_its_ends(x0: int, y0: int, x1: int, y1: int)
    ensures
        line_point(x0, y0, x1, y1, 0) == (x0, y0),
        line_point(x0, y0, x1, y1, line_len(x0, y0, x1, y1) - 1) == (x1, y1),
{
    let a = span(x0, x1);
    let b = span(y0, y1);
    if a >= b {
        lemma_climb(a, b, 0);
    } else {
        lemma_climb(b, a, 0);
    }
    lemma_walk(x0, x1, 0);
    lemma_walk(y0, y1, 0);
    lemma_walk(x0, x1, a);
    lemma_walk(y0, y1, b);
}

/// `heading` times a number of steps is that number, or its opposite.
proof fn lemma_walk(p: int, q: int, n: int)
    ensures
        heading(p, q) * n == if p < q {
            n
        } else {
            -n
        },
{
    assert(heading(p, q) * n == if p < q {
        n
    } else {
        -n
    }) by (nonlinear_arith)
        requires
            heading(p, q) == if p < q {
                1int
            } else {
                -1int
            },
    ;
}

/// A line has no holes: each dot touches the one before it, at a side or a
/// corner, and never repeats it.
pub proof fn line_is_connected(x0: int, y0: int, x1: int, y1: int, i: int)
    requires
        0 <= i,
        i + 1 < line_len(x0, y0, x1, y1),
    ensures
        ({
            let p = line_point(x0, y0, x1, y1, i);
            let q = line_point(x0, y0, x1, y1, i + 1);
            span(p.0, q.0) <= 1 && span(p.1, q.1) <= 1 && p != q
        }),
{
    let a = span(x0, x1);
    let b = span(y0, y1);
    if a >= b {
        lemma_climb(a, b, i);
        lemma_walk(x0, x1, i);
        lemma_walk(x0, x1, i + 1);
        lemma_walk(y0, y1, nearest(b * i, a));
        lemma_walk(y0, y1, nearest(b * (i + 1), a));
    } else {
        lemma_climb(b, a, i);
        lemma_walk(y0, y1, i);
        lemma_walk(y0, y1, i + 1);
        lemma_walk(x0, x1, nearest(a * i, b));
        lemma_walk(x0, x1, nearest(a * (i + 1), b));
    }
}

/// A line stays between its ends in both directions. So one with both ends on
/// a screen never leaves it, and one along a row or a column keeps to it.
pub proof fn line_stays_between_its_ends(x0: int, y0: int, x1: int, y1: int, i: int)
    requires
        0 <= i < line_len(x0, y0, x1, y1),
    ensures
        ({
            let p = line_point(x0, y0, x1, y1, i);
            (x0 <= p.0 <= x1 || x1 <= p.0 <= x0) && (y0 <= p.1 <= y1 || y1 <= p.1 <= y0)
        }),
{
    let a = span(x0, x1);
    let b = span(y0, y1);
    if a >= b {
        lemma_climb(a, b, i);
        lemma_walk(x0, x1, i);
        lemma_walk(y0, y1, nearest(b * i, a));
    } else {
        lemma_climb(b, a, i);
        lemma_walk(y0, y1, i);
        lemma_walk(x0, x1, nearest(a * i, b));
    }
}

/// A straight piece of a line, from dot (`x0`, `y0`) to dot (`x1`, `y1`).
#[derive(Clone, Copy, PartialEq, Eq, Debug, Structural)]
pub struct Segment {
    pub x0: i32,
    pub y0: i32,
    pub x1: i32,
    pub y1: i32,
}

/// A line in one colour: the pieces of it that are on the screen.
pub struct PolyLine<'a> {
    pub segments: &'a [Segment],
    pub color: Rgb,
}

/// What a [`PolyLine`] holds.
pub struct Stroke {
    pub segments: Seq<Segment>,
    pub color: Rgb,
}

impl<'a> PolyLine<'a> {
    pub open spec fn model(self) -> Stroke {
        Stroke { segments: self.segments@, color: self.color }
    }
}

/// What the lines of a list hold.
pub open spec fn strokes(lines: Seq<PolyLine>) -> Seq<Stroke> {
    lines.map_values(|l: PolyLine| l.model())
}

/// The most cells that a screen of lines may have.
pub const MAX_LINE_CELLS: usize = 12_000;

/// The cells of drawn lines.
pub type LineCellVec = CellVec;

/// What is drawn so far of one cell: its lit dots, and its colour.
#[derive(Clone, Copy, PartialEq, Eq, Debug, Structural)]
pub struct CellAccum {
    pub pattern: u8,
    pub color: Rgb,
}

impl Segment {
    /// How many dots the segment has.
    pub open spec fn dots(self) -> int {
        line_len(self.x0 as int, self.y0 as int, self.x1 as int, self.y1 as int)
    }

    /// The `i`-th dot of the segment.
    pub open spec fn dot(self, i: int) -> (int, int) {
        line_point(self.x0 as int, self.y0 as int, self.x1 as int, self.y1 as int, i)
    }

    /// Whether one of the first `n` dots of the segment is (`x`, `y`).
    pub open spec fn hits_in(self, n: int, x: int, y: int) -> bool {
        exists|i: int| 0 <= i < n && #[trigger] self.dot(i) == (x, y)
    }

    /// Whether one of the first `n` dots of the segment is in the cell.
    pub open spec fn touches_in(self, n: int, col: int, row: int) -> bool {
        exists|i: int|
            0 <= i < n && (#[trigger] self.dot(i)).0 / 2 == col && self.dot(i).1 / 4 == row
    }

    /// Whether the segment passes the dot (`x`, `y`).
    pub open spec fn hits(self, x: int, y: int) -> bool {
        self.hits_in(self.dots(), x, y)
    }
}

/// Whether one of the segments passes the dot (`x`, `y`).
pub open spec fn path_hits(segments: Seq<Segment>, x: int, y: int) -> bool {
    exists|k: int| 0 <= k < segments.len() && #[trigger] segments[k].hits(x, y)
}

/// Whether one of the segments passes a dot of the cell (`col`, `row`).
pub open spec fn path_touches(segments: Seq<Segment>, col: int, row: int) -> bool {
    exists|x: int, y: int| x / 2 == col && y / 4 == row && #[trigger] path_hits(segments, x, y)
}

/// Whether one of the first `n` lines passes the dot (`x`, `y`).
pub open spec fn lines_hit(lines: Seq<Stroke>, n: int, x: int, y: int) -> bool {
    exists|k: int| 0 <= k < n && path_hits((#[trigger] lines[k]).segments, x, y)
}

/// The colour of the last among the first `n` lines that passes the cell.
pub open spec fn top_color(lines: Seq<Stroke>, n: nat, col: int, row: int) -> Option<Rgb>
    decreases n,
{
    if n == 0 {
        None
    } else if path_touches(lines[n - 1].segments, col, row) {
        Some(lines[n - 1].color)
    } else {
        top_color(lines, (n - 1) as nat, col, row)
    }
}

/// Whether the dot (`x`, `y`) of a screen `cols` cells wide is lit.
pub open spec fn dot_lit(acc: Seq<CellAccum>, cols: int, x: int, y: int) -> bool {
    has_dot(acc[(y / 4) * cols + x / 2].pattern, x % 2, y % 4)
}

/// The colour of the cell (`col`, `row`) of a screen `cols` cells wide.
pub open spec fn cell_color(acc: Seq<CellAccum>, cols: int, col: int, row: int) -> Rgb {
    acc[row * cols + col].color
}

/// Lights one dot, and gives its cell the colour. A dot off the screen is
/// ignored.
pub fn light_dot(acc: &mut AccumVec, cols: u16, rows: u16, x: i32, y: i32, color: Rgb)
    requires
        accums_of(*old(acc)).len() == cols * rows,
    ensures
        accums_of(*final(acc)).len() == cols * rows,
        forall|u: int, v: int|
            0 <= u < 2 * cols && 0 <= v < 4 * rows ==> #[trigger] dot_lit(
                accums_of(*final(acc)),
                cols as int,
                u,
                v,
            ) == (dot_lit(accums_of(*old(acc)), cols as int, u, v) || (u == x && v == y)),
        forall|c: int, r: int|
            0 <= c < cols && 0 <= r < rows ==> #[trigger] cell_color(
                accums_of(*final(acc)),
                cols as int,
                c,
                r,
            ) == (if 0 <= x && 0 <= y && x / 2 == c && y / 4 == r {
                color
            } else {
                cell_color(accums_of(*old(acc)), cols as int, c, r)
            }),
{
    if x < 0 || y < 0 || x >= cols as i32 * 2 || y >= rows as i32 * 4 {
        return ;
    }
    let ghost before = accums_of(*acc);
    let cell_x: usize = (x / 2) as usize;
    let cell_y: usize = (y / 4) as usize;
    proof {
        lemma_cell_index(cols as int, rows as int, cell_x as int, cell_y as int);
        assert(cell_y * cols <= 0xffff * 0xffff) by (nonlinear_arith)
            requires
                cell_y <= 0xffff,
                cols <= 0xffff,
        ;
    }
    let idx: usize = cell_y * cols as usize + cell_x;
    let cell = accums_slice(acc)[idx];
    let dx: u8 = (x % 2) as u8;
    let dy: u8 = (y % 4) as u8;
    let pattern: u8 = cell.pattern | dot_bit(dx, dy);
    accums_set(acc, idx, CellAccum { pattern, color });
    proof {
        lemma_light(cell.pattern, dx as int, dy as int);
        assert forall|u: int, v: int| 0 <= u < 2 * cols && 0 <= v < 4 * rows implies #[trigger] dot_lit(
            accums_of(*acc),
            cols as int,
            u,
            v,
        ) == (dot_lit(before, cols as int, u, v) || (u == x && v == y)) by {
            lemma_cell_index(cols as int, rows as int, u / 2, v / 4);
            if (v / 4) * cols + u / 2 == idx {
                assert(u / 2 == cell_x && v / 4 == cell_y);
                assert(has_dot(pattern, u % 2, v % 4) == (has_dot(cell.pattern, u % 2, v % 4) || (u % 2
                    == dx && v % 4 == dy)));
            }
        }
        assert forall|c: int, r: int| 0 <= c < cols && 0 <= r < rows implies #[trigger] cell_color(
            accums_of(*acc),
            cols as int,
            c,
            r,
        ) == (if 0 <= x && 0 <= y && x / 2 == c && y / 4 == r {
            color
        } else {
            cell_color(before, cols as int, c, r)
        }) by {
            lemma_cell_index(cols as int, rows as int, c, r);
        }
    }
}

/// Lights the dots of one segment, and gives its cells the colour.
fn draw_segment(acc: &mut AccumVec, cols: u16, rows: u16, seg: Segment, color: Rgb)
    requires
        accums_of(*old(acc)).len() == cols * rows,
    ensures
        accums_of(*final(acc)).len() == cols * rows,
        forall|u: int, v: int|
            0 <= u < 2 * cols && 0 <= v < 4 * rows ==> #[trigger] dot_lit(
                accums_of(*final(acc)),
                cols as int,
                u,
                v,
            ) == (dot_lit(accums_of(*old(acc)), cols as int, u, v) || seg.hits(u, v)),
        forall|c: int, r: int|
            0 <= c < cols && 0 <= r < rows ==> #[trigger] cell_color(
                accums_of(*final(acc)),
                cols as int,
                c,
                r,
            ) == (if seg.touches_in(seg.dots(), c, r) {
                color
            } else {
                cell_color(accums_of(*old(acc)), cols as int, c, r)
            }),
{
    let points = bresenham(seg.x0, seg.y0, seg.x1, seg.y1);
    let mut i: usize = 0;
    while i < points.len()
        invariant
            0 <= i <= points@.len(),
            points@.len() == seg.dots(),
            forall|k: int|
                0 <= k < points@.len() ==> ((#[trigger] points@[k]).0 as int, points@[k].1 as int)
                    == seg.dot(k),
            accums_of(*acc).len() == cols * rows,
            forall|u: int, v: int|
                0 <= u < 2 * cols && 0 <= v < 4 * rows ==> #[trigger] dot_lit(
                    accums_of(*acc),
                    cols as int,
                    u,
                    v,
                ) == (dot_lit(accums_of(*old(acc)), cols as int, u, v) || seg.hits_in(
                    i as int,
                    u,
                    v,
                )),
            forall|c: int, r: int|
                0 <= c < cols && 0 <= r < rows ==> #[trigger] cell_color(
                    accums_of(*acc),
                    cols as int,
                    c,
                    r,
                ) == (if seg.touches_in(i as int, c, r) {
                    color
                } else {
                    cell_color(accums_of(*old(acc)), cols as int, c, r)
                }),
        decreases points@.len() - i,
    {
        let (x, y) = points[i];
        let ghost before = accums_of(*acc);
        light_dot(acc, cols, rows, x, y, color);
        proof {
            assert(seg.dot(i as int) == (x as int, y as int));
            assert forall|u: int, v: int| 0 <= u < 2 * cols && 0 <= v < 4 * rows implies #[trigger] dot_lit(
                accums_of(*acc),
                cols as int,
                u,
                v,
            ) == (dot_lit(accums_of(*old(acc)), cols as int, u, v) || seg.hits_in(i + 1, u, v)) by {
                assert(dot_lit(before, cols as int, u, v) == (dot_lit(
                    accums_of(*old(acc)),
                    cols as int,
                    u,
                    v,
                ) || seg.hits_in(i as int, u, v)));
            }
            assert forall|c: int, r: int| 0 <= c < cols && 0 <= r < rows implies #[trigger] cell_color(
                accums_of(*acc),
                cols as int,
                c,
                r,
            ) == (if seg.touches_in(i + 1, c, r) {
                color
            } else {
                cell_color(accums_of(*old(acc)), cols as int, c, r)
            }) by {
                assert(cell_color(before, cols as int, c, r) == (if seg.touches_in(i as int, c, r) {
                    color
                } else {
                    cell_color(accums_of(*old(acc)), cols as int, c, r)
                }));
                assert(seg.touches_in(i + 1, c, r) <==> seg.touches_in(i as int, c, r) || (x as int / 2
                    == c && y as int / 4 == r));
            }
        }
        i = i + 1;
    }
}

/// One more segment adds what it hits and touches to what a path does.
proof fn lemma_path_push(path: Seq<Segment>, seg: Segment)
    ensures
        forall|x: int, y: int| #[trigger]
            path_hits(path.push(seg), x, y) == (path_hits(path, x, y) || seg.hits(x, y)),
        forall|c: int, r: int| #[trigger]
            path_touches(path.push(seg), c, r) == (path_touches(path, c, r) || seg.touches_in(
                seg.dots(),
                c,
                r,
            )),
{
    let longer = path.push(seg);
    assert forall|x: int, y: int| #[trigger]
        path_hits(longer, x, y) == (path_hits(path, x, y) || seg.hits(x, y)) by {
        if path_hits(path, x, y) {
            let k = choose|k: int| 0 <= k < path.len() && #[trigger] path[k].hits(x, y);
            assert(longer[k].hits(x, y));
        }
        if seg.hits(x, y) {
            assert(longer[path.len() as int].hits(x, y));
        }
        if path_hits(longer, x, y) {
            let k = choose|k: int| 0 <= k < longer.len() && #[trigger] longer[k].hits(x, y);
            if k < path.len() {
                assert(path[k].hits(x, y));
            }
        }
    }
    assert forall|c: int, r: int| #[trigger]
        path_touches(longer, c, r) == (path_touches(path, c, r) || seg.touches_in(
            seg.dots(),
            c,
            r,
        )) by {
        if path_touches(path, c, r) {
            let (x, y) = choose|x: int, y: int|
                x / 2 == c && y / 4 == r && #[trigger] path_hits(path, x, y);
            assert(path_hits(longer, x, y));
        }
        if seg.touches_in(seg.dots(), c, r) {
            let i = choose|i: int|
                0 <= i < seg.dots() && (#[trigger] seg.dot(i)).0 / 2 == c && seg.dot(i).1 / 4 == r;
            assert(seg.hits(seg.dot(i).0, seg.dot(i).1));
            assert(path_hits(longer, seg.dot(i).0, seg.dot(i).1));
        }
        if path_touches(longer, c, r) {
            let (x, y) = choose|x: int, y: int|
                x / 2 == c && y / 4 == r && #[trigger] path_hits(longer, x, y);
            if !path_hits(path, x, y) {
                assert(seg.hits(x, y));
            }
        }
    }
}

/// Lights the dots of one line, and gives its cells the line's colour.
fn draw_line(acc: &mut AccumVec, cols: u16, rows: u16, line: &PolyLine)
    requires
        accums_of(*old(acc)).len() == cols * rows,
    ensures
        accums_of(*final(acc)).len() == cols * rows,
        forall|u: int, v: int|
            0 <= u < 2 * cols && 0 <= v < 4 * rows ==> #[trigger] dot_lit(
                accums_of(*final(acc)),
                cols as int,
                u,
                v,
            ) == (dot_lit(accums_of(*old(acc)), cols as int, u, v) || path_hits(
                line.segments@,
                u,
                v,
            )),
        forall|c: int, r: int|
            0 <= c < cols && 0 <= r < rows ==> #[trigger] cell_color(
                accums_of(*final(acc)),
                cols as int,
                c,
                r,
            ) == (if path_touches(line.segments@, c, r) {
                line.color
            } else {
                cell_color(accums_of(*old(acc)), cols as int, c, r)
            }),
{
    let mut k: usize = 0;
    while k < line.segments.len()
        invariant
            0 <= k <= line.segments@.len(),
            accums_of(*acc).len() == cols * rows,
            forall|u: int, v: int|
                0 <= u < 2 * cols && 0 <= v < 4 * rows ==> #[trigger] dot_lit(
                    accums_of(*acc),
                    cols as int,
                    u,
                    v,
                ) == (dot_lit(accums_of(*old(acc)), cols as int, u, v) || path_hits(
                    line.segments@.take(k as int),
                    u,
                    v,
                )),
            forall|c: int, r: int|
                0 <= c < cols && 0 <= r < rows ==> #[trigger] cell_color(
                    accums_of(*acc),
                    cols as int,
                    c,
                    r,
                ) == (if path_touches(line.segments@.take(k as int), c, r) {
                    line.color
                } else {
                    cell_color(accums_of(*old(acc)), cols as int, c, r)
                }),
        decreases line.segments@.len() - k,
    {
        let ghost before = accums_of(*acc);
        let ghost path = line.segments@.take(k as int);
        let seg = line.segments[k];
        draw_segment(acc, cols, rows, seg, line.color);
        proof {
            assert(line.segments@.take(k + 1) =~= path.push(seg));
            lemma_path_push(path, seg);
            assert forall|u: int, v: int| 0 <= u < 2 * cols && 0 <= v < 4 * rows implies #[trigger] dot_lit(
                accums_of(*acc),
                cols as int,
                u,
                v,
            ) == (dot_lit(accums_of(*old(acc)), cols as int, u, v) || path_hits(
                path.push(seg),
                u,
                v,
            )) by {
                assert(dot_lit(before, cols as int, u, v) == (dot_lit(
                    accums_of(*old(acc)),
                    cols as int,
                    u,
                    v,
                ) || path_hits(path, u, v)));
            }
            assert forall|c: int, r: int| 0 <= c < cols && 0 <= r < rows implies #[trigger] cell_color(
                accums_of(*acc),
                cols as int,
                c,
                r,
            ) == (if path_touches(path.push(seg), c, r) {
                line.color
            } else {
                cell_color(accums_of(*old(acc)), cols as int, c, r)
            }) by {
                assert(cell_color(before, cols as int, c, r) == (if path_touches(path, c, r) {
                    line.color
                } else {
                    cell_color(accums_of(*old(acc)), cols as int, c, r)
                }));
            }
        }
        k = k + 1;
    }
    proof {
        assert(line.segments@.take(k as int) =~= line.segments@);
    }
}

/// The dots of a cell that some line passes, as a pattern.
pub open spec fn cell_dots(lines: Seq<Stroke>, col: int, row: int) -> u8 {
    pattern_of(
        |dx: int, dy: int| lines_hit(lines, lines.len() as int, 2 * col + dx, 4 * row + dy),
    )
}

/// How the cell number `n`, in row-major order on a screen `cols` cells wide,
/// is drawn: with the dots that some line passes, in the colour of the last
/// line that passes the cell; not at all where none does.
pub open spec fn line_cell(lines: Seq<Stroke>, cols: int, n: int) -> Option<DrawCell> {
    let col = n % cols;
    let row = n / cols;
    match top_color(lines, lines.len(), col, row) {
        None => None,
        Some(fg) => Some(
            DrawCell {
                col: col as u16,
                row: row as u16,
                braille: glyph(cell_dots(lines, col, row)),
                fg,
            },
        ),
    }
}

/// A cell has a colour exactly if one of its dots is on a line.
proof fn lemma_top_color(lines: Seq<Stroke>, n: nat, c: int, r: int)
    requires
        n <= lines.len(),
    ensures
        top_color(lines, n, c, r) is Some <==> exists|x: int, y: int|
            x / 2 == c && y / 4 == r && #[trigger] lines_hit(lines, n as int, x, y),
    decreases n,
{
    if n > 0 {
        let m = (n - 1) as nat;
        lemma_top_color(lines, m, c, r);
        assert forall|x: int, y: int| #[trigger]
            lines_hit(lines, n as int, x, y) == (lines_hit(lines, m as int, x, y) || path_hits(
                lines[m as int].segments,
                x,
                y,
            )) by {
            if path_hits(lines[m as int].segments, x, y) {
                assert(path_hits(lines[m as int].segments, x, y));
            }
        }
        if path_touches(lines[m as int].segments, c, r) {
            let (x, y) = choose|x: int, y: int|
                x / 2 == c && y / 4 == r && #[trigger] path_hits(lines[m as int].segments, x, y);
            assert(lines_hit(lines, n as int, x, y));
        } else if exists|x: int, y: int|
            x / 2 == c && y / 4 == r && #[trigger] lines_hit(lines, m as int, x, y) {
            let (x, y) = choose|x: int, y: int|
                x / 2 == c && y / 4 == r && #[trigger] lines_hit(lines, m as int, x, y);
            assert(lines_hit(lines, n as int, x, y));
        }
    }
}

/// The pattern and the colour of a finished cell are those of `line_cell`.
proof fn lemma_line_cell(
    lines: Seq<Stroke>,
    acc: Seq<CellAccum>,
    cols: int,
    rows: int,
    c: int,
    r: int,
)
    requires
        0 <= c < cols <= 0xffff,
        0 <= r < rows <= 0xffff,
        acc.len() == cols * rows,
        forall|u: int, v: int|
            0 <= u < 2 * cols && 0 <= v < 4 * rows ==> #[trigger] dot_lit(acc, cols, u, v)
                == lines_hit(lines, lines.len() as int, u, v),
        top_color(lines, lines.len(), c, r) matches Some(color) ==> cell_color(acc, cols, c, r)
            == color,
    ensures
        ({
            let a = acc[r * cols + c];
            line_cell(lines, cols, r * cols + c) == if a.pattern == 0 {
                None
            } else {
                Some(
                    DrawCell { col: c as u16, row: r as u16, braille: glyph(a.pattern), fg: a.color },
                )
            }
        }),
{
    let p = acc[r * cols + c].pattern;
    let lit = |dx: int, dy: int| lines_hit(lines, lines.len() as int, 2 * c + dx, 4 * r + dy);
    lemma_cell_index(cols, rows, c, r);
    lemma_top_color(lines, lines.len(), c, r);
    pattern_of_shows(lit);
    lemma_blank();
    assert forall|dx: int, dy: int| 0 <= dx < 2 && 0 <= dy < 4 implies #[trigger] has_dot(p, dx, dy)
        == has_dot(pattern_of(lit), dx, dy) by {
        let u = 2 * c + dx;
        let v = 4 * r + dy;
        assert(u / 2 == c && u % 2 == dx && v / 4 == r && v % 4 == dy);
        assert(dot_lit(acc, cols, u, v) == lit(dx, dy));
    }
    pattern_is_its_dots(p, pattern_of(lit));
    if top_color(lines, lines.len(), c, r) is Some {
        let (x, y) = choose|x: int, y: int|
            x / 2 == c && y / 4 == r && #[trigger] lines_hit(lines, lines.len() as int, x, y);
        assert(dot_lit(acc, cols, x, y));
    } else if p != 0 {
        assert forall|dx: int, dy: int| 0 <= dx < 2 && 0 <= dy < 4 implies #[trigger] has_dot(
            p,
            dx,
            dy,
        ) == has_dot(0, dx, dy) by {
            let u = 2 * c + dx;
            let v = 4 * r + dy;
            assert(u / 2 == c && u % 2 == dx && v / 4 == r && v % 4 == dy);
            assert(!lines_hit(lines, lines.len() as int, u, v));
            assert(!dot_lit(acc, cols, u, v));
        }
        pattern_is_its_dots(p, 0);
    }
}

/// The cells of the lines on a screen, row by row; none on a screen of too many
/// cells.
pub open spec fn lines_drawing(lines: Seq<Stroke>, cols: int, rows: int) -> Seq<DrawCell> {
    if cols * rows > MAX_LINE_CELLS {
        Seq::empty()
    } else {
        drawn(|n: int| line_cell(lines, cols, n), (cols * rows) as nat)
    }
}

/// Draws the lines on a screen of `cols` x `rows` cells, 2 x 4 dots each.
///
/// Only cells with a lit dot are given out. Where lines share a cell, the
/// later line gives the colour. A screen of more than [`MAX_LINE_CELLS`]
/// cells stays empty.
pub fn rasterize_lines(lines: &[PolyLine], cols: u16, rows: u16) -> (out: LineCellVec)
    ensures
        cells_of(out) == lines_drawing(strokes(lines@), cols as int, rows as int),
{
    let ghost paths = strokes(lines@);
    let mut out = cells_new();
    proof {
        assert(cols * rows <= 0xffff * 0xffff) by (nonlinear_arith)
            requires
                0 <= cols <= 0xffff,
                0 <= rows <= 0xffff,
        ;
        assert(cols == 0 || rows == 0 ==> cols * rows == 0) by (nonlinear_arith);
    }
    if cols == 0 || rows == 0 {
        return out;
    }
    let n_cells: usize = cols as usize * rows as usize;
    if n_cells > MAX_LINE_CELLS {
        return out;
    }
    let mut acc = accums_new();
    let blank = CellAccum { pattern: 0, color: Rgb::new(0, 0, 0) };
    let mut i: usize = 0;
    while i < n_cells
        invariant
            i <= n_cells <= MAX_CELLS,
            accums_of(acc) == Seq::new(i as nat, |k: int| blank),
        decreases n_cells - i,
    {
        accums_push(&mut acc, blank);
        proof {
            assert(accums_of(acc) =~= Seq::new((i + 1) as nat, |k: int| blank));
        }
        i = i + 1;
    }
    proof {
        lemma_blank();
        assert forall|u: int, v: int| 0 <= u < 2 * cols && 0 <= v < 4 * rows implies #[trigger] dot_lit(
            accums_of(acc),
            cols as int,
            u,
            v,
        ) == lines_hit(paths, 0, u, v) by {
            lemma_cell_index(cols as int, rows as int, u / 2, v / 4);
        }
    }
    let mut k: usize = 0;
    while k < lines.len()
        invariant
            k <= lines@.len(),
            paths == strokes(lines@),
            accums_of(acc).len() == cols * rows,
            forall|u: int, v: int|
                0 <= u < 2 * cols && 0 <= v < 4 * rows ==> #[trigger] dot_lit(
                    accums_of(acc),
                    cols as int,
                    u,
                    v,
                ) == lines_hit(paths, k as int, u, v),
            forall|c: int, r: int|
                0 <= c < cols && 0 <= r < rows ==> (top_color(paths, k as nat, c, r) matches Some(
                    color,
                ) ==> #[trigger] cell_color(accums_of(acc), cols as int, c, r) == color),
        decreases lines@.len() - k,
    {
        let ghost before = accums_of(acc);
        draw_line(&mut acc, cols, rows, &lines[k]);
        proof {
            assert(paths[k as int] == lines@[k as int].model());
            assert forall|u: int, v: int| 0 <= u < 2 * cols && 0 <= v < 4 * rows implies #[trigger] dot_lit(
                accums_of(acc),
                cols as int,
                u,
                v,
            ) == lines_hit(paths, k + 1, u, v) by {
                assert(dot_lit(before, cols as int, u, v) == lines_hit(paths, k as int, u, v));
            }
            assert forall|c: int, r: int| 0 <= c < cols && 0 <= r < rows implies (top_color(
                paths,
                (k + 1) as nat,
                c,
                r,
            ) matches Some(color) ==> #[trigger] cell_color(accums_of(acc), cols as int, c, r)
                == color) by {
                assert(top_color(paths, k as nat, c, r) matches Some(color) ==> cell_color(
                    before,
                    cols as int,
                    c,
                    r,
                ) == color);
            }
        }
        k = k + 1;
    }
    let ghost cell = |n: int| line_cell(paths, cols as int, n);
    let mut cy: u16 = 0;
    let ghost mut n: nat = 0;
    while cy < rows
        invariant
            cy <= rows,
            0 < cols,
            n == cy * cols,
            cell == (|n: int| line_cell(paths, cols as int, n)),
            cols * rows <= MAX_CELLS,
            accums_of(acc).len() == cols * rows,
            forall|u: int, v: int|
                0 <= u < 2 * cols && 0 <= v < 4 * rows ==> #[trigger] dot_lit(
                    accums_of(acc),
                    cols as int,
                    u,
                    v,
                ) == lines_hit(paths, paths.len() as int, u, v),
            forall|c: int, r: int|
                0 <= c < cols && 0 <= r < rows ==> (top_color(paths, paths.len(), c, r) matches Some(
                    color,
                ) ==> #[trigger] cell_color(accums_of(acc), cols as int, c, r) == color),
            cells_of(out) == drawn(cell, n),
        decreases rows - cy,
    {
        let mut cx: u16 = 0;
        while cx < cols
            invariant
                cx <= cols,
                cy < rows,
                n == cy * cols + cx,
                cell == (|n: int| line_cell(paths, cols as int, n)),
                cols * rows <= MAX_CELLS,
                accums_of(acc).len() == cols * rows,
                forall|u: int, v: int|
                    0 <= u < 2 * cols && 0 <= v < 4 * rows ==> #[trigger] dot_lit(
                        accums_of(acc),
                        cols as int,
                        u,
                        v,
                    ) == lines_hit(paths, paths.len() as int, u, v),
                forall|c: int, r: int|
                    0 <= c < cols && 0 <= r < rows ==> (top_color(paths, paths.len(), c, r) matches Some(
                        color,
                    ) ==> #[trigger] cell_color(accums_of(acc), cols as int, c, r) == color),
                cells_of(out) == drawn(cell, n),
            decreases cols - cx,
        {
            proof {
                lemma_cell_index(cols as int, rows as int, cx as int, cy as int);
                assert(cell_color(accums_of(acc), cols as int, cx as int, cy as int)
                    == cell_color(accums_of(acc), cols as int, cx as int, cy as int));
                lemma_line_cell(paths, accums_of(acc), cols as int, rows as int, cx as int, cy as int);
                drawn_len(cell, n);
            }
            let idx: usize = cy as usize * cols as usize + cx as usize;
            let a = accums_slice(&acc)[idx];
            if a.pattern != 0 {
                let drawn_cell = DrawCell {
                    col: cx,
                    row: cy,
                    braille: braille_char(a.pattern),
                    fg: a.color,
                };
                cells_push(&mut out, drawn_cell);
            }
            proof {
                n = n + 1;
            }
            cx = cx + 1;
        }
        proof {
            assert((cy + 1) * cols == cy * cols + cols) by (nonlinear_arith);
        }
        cy = cy + 1;
    }
    proof {
        assert(rows * cols == cols * rows) by (nonlinear_arith);
    }
    out
}

/// A later line wins: on a cell that the last line passes, its colour is drawn.
pub proof fn last_line_colors_the_cell(lines: Seq<Stroke>, line: Stroke, cols: int, n: int)
    requires
        path_touches(line.segments, n % cols, n / cols),
    ensures
        line_cell(lines.push(line), cols, n) matches Some(c) && c.fg == line.color,
{
    assert(lines.push(line)[lines.len() as int] == line);
}

/// A line leaves the colour of the cells that it does not pass as it was.
pub proof fn other_cells_keep_their_color(lines: Seq<Stroke>, line: Stroke, cols: int, n: int)
    requires
        !path_touches(line.segments, n % cols, n / cols),
    ensures
        match (line_cell(lines.push(line), cols, n), line_cell(lines, cols, n)) {
            (Some(after), Some(before)) => after.fg == before.fg,
            (None, None) => true,
            _ => false,
        },
{
    let (c, r) = (n % cols, n / cols);
    lemma_top_color_prefix(lines.push(line), lines, lines.len(), c, r);
}

proof fn lemma_top_color_prefix(longer: Seq<Stroke>, lines: Seq<Stroke>, n: nat, c: int, r: int)
    requires
        n <= lines.len() <= longer.len(),
        forall|k: int| 0 <= k < n ==> longer[k] == lines[k],
    ensures
        top_color(longer, n, c, r) == top_color(lines, n, c, r),
    decreases n,
{
    if n > 0 {
        assert(longer[n - 1] == lines[n - 1]);
        lemma_top_color_prefix(longer, lines, (n - 1) as nat, c, r);
    }
}

/// Drawing two lists of lines unites them, cell by cell: a cell is drawn if one
/// of the lists draws it; its dots are those of both; and its colour is that of
/// the second list, where that draws it, else that of the first.
pub proof fn drawing_unites_lists(a: Seq<Stroke>, b: Seq<Stroke>, cols: int, n: int)
    ensures
        cell_dots(a + b, n % cols, n / cols) == cell_dots(a, n % cols, n / cols) | cell_dots(
            b,
            n % cols,
            n / cols,
        ),
        match (line_cell(a, cols, n), line_cell(b, cols, n)) {
            (None, None) => line_cell(a + b, cols, n) is None,
            (Some(x), None) => line_cell(a + b, cols, n) == Some(x),
            (None, Some(y)) => line_cell(a + b, cols, n) == Some(y),
            (Some(_), Some(y)) => line_cell(a + b, cols, n) == Some(
                DrawCell {
                    braille: glyph(
                        cell_dots(a, n % cols, n / cols) | cell_dots(b, n % cols, n / cols),
                    ),
                    ..y
                },
            ),
        },
{
    let (c, r) = (n % cols, n / cols);
    let ab = a + b;
    assert forall|x: int, y: int| #[trigger]
        lines_hit(ab, ab.len() as int, x, y) == (lines_hit(a, a.len() as int, x, y) || lines_hit(
            b,
            b.len() as int,
            x,
            y,
        )) by {
        if lines_hit(a, a.len() as int, x, y) {
            let k = choose|k: int| 0 <= k < a.len() && path_hits((#[trigger] a[k]).segments, x, y);
            assert(ab[k] == a[k]);
        }
        if lines_hit(b, b.len() as int, x, y) {
            let k = choose|k: int| 0 <= k < b.len() && path_hits((#[trigger] b[k]).segments, x, y);
            assert(ab[a.len() + k] == b[k]);
        }
        if lines_hit(ab, ab.len() as int, x, y) {
            let k = choose|k: int|
                0 <= k < ab.len() && path_hits((#[trigger] ab[k]).segments, x, y);
            if k < a.len() {
                assert(path_hits(a[k].segments, x, y));
            } else {
                assert(path_hits(b[k - a.len()].segments, x, y));
            }
        }
    }
    let (p, q) = (cell_dots(a, c, r), cell_dots(b, c, r));
    let la = |dx: int, dy: int| lines_hit(a, a.len() as int, 2 * c + dx, 4 * r + dy);
    let lb = |dx: int, dy: int| lines_hit(b, b.len() as int, 2 * c + dx, 4 * r + dy);
    let lab = |dx: int, dy: int| lines_hit(ab, ab.len() as int, 2 * c + dx, 4 * r + dy);
    pattern_of_shows(la);
    pattern_of_shows(lb);
    pattern_of_shows(lab);
    assert forall|dx: int, dy: int| 0 <= dx < 2 && 0 <= dy < 4 implies #[trigger] has_dot(
        cell_dots(ab, c, r),
        dx,
        dy,
    ) == has_dot(p | q, dx, dy) by {
        dots_unite(p, q, dx, dy);
        assert(has_dot(p, dx, dy) == la(dx, dy));
        assert(has_dot(q, dx, dy) == lb(dx, dy));
    }
    pattern_is_its_dots(cell_dots(ab, c, r), p | q);
    lemma_top_color_prefix(ab, a, a.len(), c, r);
    lemma_top_color_suffix(a, b, b.len(), c, r);
    lemma_untouched_is_blank(a, c, r);
    lemma_untouched_is_blank(b, c, r);
    assert(p | 0 == p && 0 | q == q) by (bit_vector);
}

/// The colour of the first list and `n` lines of the second.
proof fn lemma_top_color_suffix(a: Seq<Stroke>, b: Seq<Stroke>, n: nat, c: int, r: int)
    requires
        n <= b.len(),
    ensures
        top_color(a + b, a.len() + n, c, r) == match top_color(b, n, c, r) {
            Some(color) => Some(color),
            None => top_color(a + b, a.len(), c, r),
        },
    decreases n,
{
    if n > 0 {
        lemma_top_color_suffix(a, b, (n - 1) as nat, c, r);
        assert((a + b)[a.len() + n - 1] == b[n - 1]);
    }
}

/// A cell that no line passes has no dots.
proof fn lemma_untouched_is_blank(lines: Seq<Stroke>, c: int, r: int)
    ensures
        top_color(lines, lines.len(), c, r) is None ==> cell_dots(lines, c, r) == 0,
{
    let lit = |dx: int, dy: int| lines_hit(lines, lines.len() as int, 2 * c + dx, 4 * r + dy);
    lemma_top_color(lines, lines.len(), c, r);
    pattern_of_shows(lit);
    lemma_blank();
    if top_color(lines, lines.len(), c, r) is None {
        assert forall|dx: int, dy: int| 0 <= dx < 2 && 0 <= dy < 4 implies #[trigger] has_dot(
            cell_dots(lines, c, r),
            dx,
            dy,
        ) == has_dot(0, dx, dy) by {
            let (x, y) = (2 * c + dx, 4 * r + dy);
            assert(x / 2 == c && y / 4 == r);
            assert(!lines_hit(lines, lines.len() as int, x, y));
        }
        pattern_is_its_dots(cell_dots(lines, c, r), 0);
    }
}

/// A line is straight: along its longer axis its dots advance one by one towards
/// the other end, and across it each is the dot nearest to the straight line
/// between the ends, of two as near the one farther from the start.
pub proof fn dots_hug_the_straight_line(x0: int, y0: int, x1: int, y1: int, i: int)
    requires
        0 <= i < line_len(x0, y0, x1, y1),
    ensures
        ({
            let (x, y) = line_point(x0, y0, x1, y1, i);
            let (a, b) = (if x0 <= x1 {
                x1 - x0
            } else {
                x0 - x1
            }, if y0 <= y1 {
                y1 - y0
            } else {
                y0 - y1
            });
            let (p, q) = (if x0 <= x1 {
                x - x0
            } else {
                x0 - x
            }, if y0 <= y1 {
                y - y0
            } else {
                y0 - y
            });
            &&& line_len(x0, y0, x1, y1) == 1 + if a >= b {
                a
            } else {
                b
            }
            &&& a >= b ==> p == i && 0 <= q <= b && (a > 0 ==> -a <= 2 * (b * p) - 2 * (a * q) < a)
            &&& a < b ==> q == i && 0 <= p <= a && -b <= 2 * (a * q) - 2 * (b * p) < b
        }),
{
    let a = span(x0, x1);
    let b = span(y0, y1);
    if a >= b {
        let j = nearest(b * i, a);
        lemma_walk(x0, x1, i);
        lemma_walk(y0, y1, j);
        lemma_climb(a, b, i);
        if a > 0 {
            lemma_nearest_bounds(b * i, a);
        }
    } else {
        let j = nearest(a * i, b);
        lemma_walk(x0, x1, j);
        lemma_walk(y0, y1, i);
        lemma_climb(b, a, i);
        lemma_nearest_bounds(a * i, b);
    }
}

proof fn lemma_nearest_bounds(num: int, den: int)
    requires
        den > 0,
    ensures
        -den <= 2 * num - 2 * (den * nearest(num, den)) < den,
{
    let q = nearest(num, den);
    vstd::arithmetic::div_mod::lemma_fundamental_div_mod(2 * num + den, 2 * den);
    assert((2 * den) * q == 2 * (den * q)) by (nonlinear_arith);
}

/// Whether the line number `k` has a dot at (`x`, `y`): one of the dots of one of
/// its segments.
pub open spec fn passes(lines: Seq<Stroke>, k: int, x: int, y: int) -> bool {
    exists|s: int, i: int|
        0 <= s < lines[k].segments.len() && 0 <= i < lines[k].segments[s].dots() && (
        #[trigger] lines[k].segments[s].dot(i)) == (x, y)
}

/// Whether the line number `k` has a dot in the cell: 2 dots wide, 4 dots high.
pub open spec fn passes_cell(lines: Seq<Stroke>, k: int, col: int, row: int) -> bool {
    exists|x: int, y: int|
        2 * col <= x < 2 * col + 2 && 4 * row <= y < 4 * row + 4 && #[trigger] passes(
            lines,
            k,
            x,
            y,
        )
}

/// What lines leave on the screen: a cell that is drawn stands in its column and
/// row, and its glyph shows a dot exactly where some line has one.
pub proof fn drawn_cell_shows_its_lines(lines: Seq<Stroke>, cols: int, n: int, dx: int, dy: int)
    requires
        0 < cols <= 0xffff,
        0 <= n,
        n / cols <= 0xffff,
        0 <= dx < 2,
        0 <= dy < 4,
    ensures
        line_cell(lines, cols, n) matches Some(c) ==> {
            &&& c.row * cols + c.col == n
            &&& c.col < cols
            &&& 0x2800 < c.braille as int <= 0x28ff
            &&& bit_is_set(c.braille as int - 0x2800, unicode_bit(dx, dy)) <==> exists|k: int|
                0 <= k < lines.len() && #[trigger] passes(lines, k, 2 * c.col + dx, 4 * c.row + dy)
        },
{
    let (col, row) = (n % cols, n / cols);
    vstd::arithmetic::div_mod::lemma_fundamental_div_mod(n, cols);
    assert(cols * (n / cols) == (n / cols) * cols) by (nonlinear_arith);
    vstd::arithmetic::div_mod::lemma_mod_bound(n, cols);
    vstd::arithmetic::div_mod::lemma_div_pos_is_pos(n, cols);
    if let Some(c) = line_cell(lines, cols, n) {
        assert(c.col == col && c.row == row);
        let p = cell_dots(lines, col, row);
        lemma_cell_dots(lines, col, row, dx, dy);
        dots_are_unicode_bits(p, dx, dy);
        lemma_top_color(lines, lines.len(), col, row);
        let (x, y) = choose|x: int, y: int|
            x / 2 == col && y / 4 == row && #[trigger] lines_hit(lines, lines.len() as int, x, y);
        let (ex, ey) = (x - 2 * col, y - 4 * row);
        assert(0 <= ex < 2 && 0 <= ey < 4);
        lemma_cell_dots(lines, col, row, ex, ey);
        lemma_hit(lines, x, y);
        lemma_blank();
        assert(p != 0);
    }
}

/// The dots of a cell are those that some line passes.
proof fn lemma_cell_dots(lines: Seq<Stroke>, col: int, row: int, dx: int, dy: int)
    requires
        0 <= dx < 2,
        0 <= dy < 4,
    ensures
        has_dot(cell_dots(lines, col, row), dx, dy) <==> exists|k: int|
            0 <= k < lines.len() && #[trigger] passes(lines, k, 2 * col + dx, 4 * row + dy),
{
    let lit = |ex: int, ey: int| lines_hit(lines, lines.len() as int, 2 * col + ex, 4 * row + ey);
    pattern_of_shows(lit);
    assert(has_dot(pattern_of(lit), dx, dy) == lit(dx, dy));
    lemma_hit(lines, 2 * col + dx, 4 * row + dy);
}

proof fn lemma_hit(lines: Seq<Stroke>, x: int, y: int)
    ensures
        lines_hit(lines, lines.len() as int, x, y) <==> exists|k: int|
            0 <= k < lines.len() && #[trigger] passes(lines, k, x, y),
{
    if lines_hit(lines, lines.len() as int, x, y) {
        let k = choose|k: int| 0 <= k < lines.len() && path_hits((#[trigger] lines[k]).segments, x, y);
        lemma_passes(lines, k, x, y);
    }
    if exists|k: int| 0 <= k < lines.len() && #[trigger] passes(lines, k, x, y) {
        let k = choose|k: int| 0 <= k < lines.len() && #[trigger] passes(lines, k, x, y);
        lemma_passes(lines, k, x, y);
        assert(path_hits(lines[k].segments, x, y));
    }
}

proof fn lemma_passes_cell(lines: Seq<Stroke>, k: int, col: int, row: int)
    ensures
        passes_cell(lines, k, col, row) == path_touches(lines[k].segments, col, row),
{
    if passes_cell(lines, k, col, row) {
        let (x, y) = choose|x: int, y: int|
            2 * col <= x < 2 * col + 2 && 4 * row <= y < 4 * row + 4 && #[trigger] passes(
                lines,
                k,
                x,
                y,
            );
        lemma_passes(lines, k, x, y);
        assert(x / 2 == col && y / 4 == row);
    }
    if path_touches(lines[k].segments, col, row) {
        let (x, y) = choose|x: int, y: int|
            x / 2 == col && y / 4 == row && #[trigger] path_hits(lines[k].segments, x, y);
        lemma_passes(lines, k, x, y);
    }
}

/// A cell is drawn exactly if some line has a dot in it, and its colour is that
/// of the last line that has one.
pub proof fn last_line_in_a_cell_colors_it(lines: Seq<Stroke>, cols: int, n: int, last: int)
    requires
        0 <= last < lines.len(),
        passes_cell(lines, last, n % cols, n / cols),
        forall|k: int|
            last < k < lines.len() ==> !#[trigger] passes_cell(lines, k, n % cols, n / cols),
    ensures
        line_cell(lines, cols, n) matches Some(c) && c.fg == lines[last].color,
{
    lemma_top_color_is_last(lines, lines.len(), n % cols, n / cols);
    lemma_passes_cell(lines, last, n % cols, n / cols);
    assert forall|k: int| last < k < lines.len() implies !path_touches(
        (#[trigger] lines[k]).segments,
        n % cols,
        n / cols,
    ) by {
        lemma_passes_cell(lines, k, n % cols, n / cols);
        assert(!passes_cell(lines, k, n % cols, n / cols));
    }
    assert(path_touches(lines[last].segments, n % cols, n / cols));
}

/// A cell in which no line has a dot is not drawn.
pub proof fn cells_without_lines_stay_empty(lines: Seq<Stroke>, cols: int, n: int)
    requires
        forall|k: int|
            0 <= k < lines.len() ==> !#[trigger] passes_cell(lines, k, n % cols, n / cols),
    ensures
        line_cell(lines, cols, n) is None,
{
    lemma_top_color_is_some(lines, lines.len(), n % cols, n / cols);
    if line_cell(lines, cols, n) is Some {
        let k = choose|k: int|
            0 <= k < lines.len() && path_touches(
                (#[trigger] lines[k]).segments,
                n % cols,
                n / cols,
            );
        lemma_passes_cell(lines, k, n % cols, n / cols);
        assert(!passes_cell(lines, k, n % cols, n / cols));
    }
}

proof fn lemma_top_color_is_some(lines: Seq<Stroke>, n: nat, c: int, r: int)
    requires
        n <= lines.len(),
    ensures
        top_color(lines, n, c, r) is Some ==> exists|k: int|
            0 <= k < n && path_touches((#[trigger] lines[k]).segments, c, r),
    decreases n,
{
    if n > 0 {
        lemma_top_color_is_some(lines, (n - 1) as nat, c, r);
    }
}

proof fn lemma_passes(lines: Seq<Stroke>, k: int, x: int, y: int)
    ensures
        passes(lines, k, x, y) == path_hits(lines[k].segments, x, y),
{
    let segments = lines[k].segments;
    if passes(lines, k, x, y) {
        let (s, i) = choose|s: int, i: int|
            0 <= s < lines[k].segments.len() && 0 <= i < lines[k].segments[s].dots() && (
            #[trigger] lines[k].segments[s].dot(i)) == (x, y);
        assert(segments[s].hits(x, y));
    }
    if path_hits(segments, x, y) {
        let s = choose|s: int| 0 <= s < segments.len() && #[trigger] segments[s].hits(x, y);
        let i = choose|i: int| 0 <= i < segments[s].dots() && #[trigger] segments[s].dot(i) == (x, y);
        assert(lines[k].segments[s].dot(i) == (x, y));
    }
}

/// The colour of a cell is that of the last line that touches it.
proof fn lemma_top_color_is_last(lines: Seq<Stroke>, n: nat, c: int, r: int)
    requires
        n <= lines.len(),
    ensures
        top_color(lines, n, c, r) is None ==> forall|k: int|
            0 <= k < n ==> !path_touches((#[trigger] lines[k]).segments, c, r),
        forall|last: int|
            0 <= last < n && path_touches((#[trigger] lines[last]).segments, c, r) && (forall|k: int|
                last < k < n ==> !path_touches((#[trigger] lines[k]).segments, c, r)) ==> top_color(
                lines,
                n,
                c,
                r,
            ) == Some(lines[last].color),
    decreases n,
{
    if n > 0 {
        lemma_top_color_is_last(lines, (n - 1) as nat, c, r);
        assert forall|last: int|
            0 <= last < n && path_touches((#[trigger] lines[last]).segments, c, r) && (forall|k: int|
                last < k < n ==> !path_touches((#[trigger] lines[k]).segments, c, r)) implies top_color(
            lines,
            n,
            c,
            r,
        ) == Some(lines[last].color) by {
            if last < n - 1 {
                assert(!path_touches(lines[n - 1].segments, c, r));
            }
        }
    }
}

/// A screen of up to 12,000 cells shows its lines: the cell of every dot that a
/// line has on the screen is drawn, cells go row by row, and none stands off the
/// screen. A larger screen stays empty.
pub proof fn screen_shows_its_lines(
    lines: Seq<Stroke>,
    cols: int,
    rows: int,
    k: int,
    x: int,
    y: int,
    i: int,
    j: int,
)
    requires
        0 <= cols <= 0xffff,
        0 <= rows <= 0xffff,
    ensures
        cols * rows > 12_000 ==> lines_drawing(lines, cols, rows).len() == 0,
        cols * rows <= 12_000 && 0 <= k < lines.len() && 0 <= x < 2 * cols && 0 <= y < 4 * rows
            && passes(lines, k, x, y) ==> exists|m: int|
            0 <= m < lines_drawing(lines, cols, rows).len() && (#[trigger] lines_drawing(
                lines,
                cols,
                rows,
            )[m]).col == x / 2 && lines_drawing(lines, cols, rows)[m].row == y / 4,
        0 <= i < lines_drawing(lines, cols, rows).len() ==> lines_drawing(lines, cols, rows)[i].col
            < cols && lines_drawing(lines, cols, rows)[i].row < rows,
        0 <= i < j < lines_drawing(lines, cols, rows).len() ==> ({
            let (a, b) = (lines_drawing(lines, cols, rows)[i], lines_drawing(lines, cols, rows)[j]);
            a.row < b.row || (a.row == b.row && a.col < b.col)
        }),
{
    if cols * rows <= 12_000 {
        let n = (cols * rows) as nat;
        assert(0 <= cols * rows) by (nonlinear_arith)
            requires
                0 <= cols,
                0 <= rows,
        ;
        let cell = |m: int| line_cell(lines, cols, m);
        let out = lines_drawing(lines, cols, rows);
        assert(out == drawn(cell, n));
        assert forall|m: int| 0 <= m < n implies (#[trigger] cell(m) matches Some(c) ==> c.row * cols
            + c.col == m && c.col < cols && c.row < rows) by {
            assert(cols > 0) by (nonlinear_arith)
                requires
                    0 <= m < cols * rows,
                    0 <= cols,
            ;
            vstd::arithmetic::div_mod::lemma_fundamental_div_mod(m, cols);
            vstd::arithmetic::div_mod::lemma_mod_bound(m, cols);
            assert(0 <= m / cols < rows) by (nonlinear_arith)
                requires
                    m == cols * (m / cols) + m % cols,
                    0 <= m % cols < cols,
                    0 <= m < cols * rows,
            ;
            drawn_cell_shows_its_lines(lines, cols, m, 0, 0);
        }
        if 0 <= i < out.len() {
            drawn_has(cell, n, out[i]);
            assert(out.contains(out[i]));
        }
        if 0 <= i < j < out.len() {
            drawing_goes_row_by_row(cell, cols, n, i, j);
        }
        if 0 <= k < lines.len() && 0 <= x < 2 * cols && 0 <= y < 4 * rows && passes(lines, k, x, y) {
            let (c, r) = (x / 2, y / 4);
            let m = r * cols + c;
            lemma_cell_index(cols, rows, c, r);
            assert(passes(lines, k, x, y));
            assert(passes_cell(lines, k, c, r));
            drawn_cell_shows_its_lines(lines, cols, m, 0, 0);
            lemma_top_color_is_last(lines, lines.len(), c, r);
            lemma_passes_cell(lines, k, c, r);
            assert(path_touches(lines[k].segments, c, r));
            assert(cell(m) is Some);
            let d = cell(m)->0;
            assert(d.col == c && d.row == r);
            drawn_has(cell, n, d);
            let at = choose|at: int| 0 <= at < out.len() && out[at] == d;
            assert(out[at].col == x / 2);
        }
    }
}

} // verus!
