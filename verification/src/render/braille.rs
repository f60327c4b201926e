//! Braille cells: dots, bit patterns and glyphs, and a grid drawn with them.

use vstd::prelude::*;

use crate::grid::{least, lemma_cell_index, Grid, GridKind};
use crate::ieee::Single;
use crate::render::colormap::{
    band_color, cloud_scale, cloud_to_rgb, color_is_that_of_the_band, in_band, precip_scale,
    precip_to_rgb, scales_ascend, Rgb,
};
use crate::render::{drawing_goes_row_by_row, drawn, drawn_has, drawn_len, drawn_prefix, DrawCell};
use crate::storage::{cells_new, cells_of, cells_push, CellVec, MAX_CELLS};

verus! {

/// The bit of a braille pattern that stands for the dot in column `dx` (0 or
/// 1) and row `dy` (0 to 3); 0 for any other place.
pub open spec fn dot_mask(dx: int, dy: int) -> u8 {
    if dx == 0 && dy == 0 {
        0x01
    } else if dx == 0 && dy == 1 {
        0x02
    } else if dx == 0 && dy == 2 {
        0x04
    } else if dx == 0 && dy == 3 {
        0x40
    } else if dx == 1 && dy == 0 {
        0x08
    } else if dx == 1 && dy == 1 {
        0x10
    } else if dx == 1 && dy == 2 {
        0x20
    } else if dx == 1 && dy == 3 {
        0x80
    } else {
        0x00
    }
}

/// Whether the pattern has the dot at (`dx`, `dy`) lit.
pub open spec fn has_dot(pattern: u8, dx: int, dy: int) -> bool {
    pattern & dot_mask(dx, dy) != 0
}

/// Whether the pattern shows exactly the dots of a cell that `lit` holds of.
pub open spec fn shows(pattern: u8, lit: spec_fn(int, int) -> bool) -> bool {
    forall|dx: int, dy: int|
        0 <= dx < 2 && 0 <= dy < 4 ==> #[trigger] has_dot(pattern, dx, dy) == lit(dx, dy)
}

/// `bit` if `on`, else 0.
pub open spec fn bit_if(on: bool, bit: u8) -> u8 {
    if on {
        bit
    } else {
        0
    }
}

/// The pattern that shows exactly the dots of a cell that `lit` holds of.
pub open spec fn pattern_of(lit: spec_fn(int, int) -> bool) -> u8 {
    bit_if(lit(0, 0), 0x01) | bit_if(lit(0, 1), 0x02) | bit_if(lit(0, 2), 0x04) | bit_if(
        lit(0, 3),
        0x40,
    ) | bit_if(lit(1, 0), 0x08) | bit_if(lit(1, 1), 0x10) | bit_if(lit(1, 2), 0x20) | bit_if(
        lit(1, 3),
        0x80,
    )
}

/// The braille character of a pattern: U+2800 + `pattern`.
pub open spec fn glyph(pattern: u8) -> char {
    (0x2800 + pattern) as char
}

/// The braille bit of the dot at (`dx`, `dy`).
pub fn dot_bit(dx: u8, dy: u8) -> (bit: u8)
    ensures
        bit == dot_mask(dx as int, dy as int),
{
    match (dx, dy) {
        (0, 0) => 0x01,
        (0, 1) => 0x02,
        (0, 2) => 0x04,
        (0, 3) => 0x40,
        (1, 0) => 0x08,
        (1, 1) => 0x10,
        (1, 2) => 0x20,
        (1, 3) => 0x80,
        _ => 0x00,
    }
}

/// `char::from_u32`: the character whose code point is `code`, if there is
/// one; there is none exactly for the surrogates and beyond U+10FFFF.
pub assume_specification[ char::from_u32 ](code: u32) -> (c: Option<char>)
    ensures
        c matches Some(ch) ==> ch as int == code,
        c is None <==> (0xD800 <= code <= 0xDFFF || code > 0x10FFFF),
;

/// The glyph of a dot pattern: the character U+2800 + `pattern`.
pub fn braille_char(pattern: u8) -> (c: char)
    ensures
        c as int == 0x2800 + pattern,
        c == glyph(pattern),
{
    match char::from_u32(0x2800 + pattern as u32) {
        Some(c) => c,
        None => '\u{2800}',
    }
}

/// Lighting one dot adds that dot to what a pattern shows, and nothing else.
pub proof fn lemma_light(pattern: u8, dx: int, dy: int)
    requires
        0 <= dx < 2,
        0 <= dy < 4,
    ensures
        (pattern | dot_mask(dx, dy)) != 0,
        forall|ex: int, ey: int|
            0 <= ex < 2 && 0 <= ey < 4 ==> #[trigger] has_dot(pattern | dot_mask(dx, dy), ex, ey) == (
            has_dot(pattern, ex, ey) || (ex == dx && ey == dy)),
{
    let m = dot_mask(dx, dy);
    assert((pattern | m) != 0) by (bit_vector)
        requires
            m == 0x01 || m == 0x02 || m == 0x04 || m == 0x40 || m == 0x08 || m == 0x10 || m == 0x20
                || m == 0x80,
    ;
    assert forall|ex: int, ey: int| 0 <= ex < 2 && 0 <= ey < 4 implies #[trigger] has_dot(
        pattern | m,
        ex,
        ey,
    ) == (has_dot(pattern, ex, ey) || (ex == dx && ey == dy)) by {
        let n = dot_mask(ex, ey);
        assert(m != n ==> ((pattern | m) & n != 0) == (pattern & n != 0)) by (bit_vector)
            requires
                m == 0x01 || m == 0x02 || m == 0x04 || m == 0x40 || m == 0x08 || m == 0x10 || m
                    == 0x20 || m == 0x80,
                n == 0x01 || n == 0x02 || n == 0x04 || n == 0x40 || n == 0x08 || n == 0x10 || n
                    == 0x20 || n == 0x80,
        ;
        assert(m == n ==> ((pattern | m) & n != 0)) by (bit_vector)
            requires
                m == 0x01 || m == 0x02 || m == 0x04 || m == 0x40 || m == 0x08 || m == 0x10 || m
                    == 0x20 || m == 0x80,
        ;
    }
}

/// Two patterns united show the dots of both.
pub proof fn dots_unite(p: u8, q: u8, dx: int, dy: int)
    ensures
        has_dot(p | q, dx, dy) == (has_dot(p, dx, dy) || has_dot(q, dx, dy)),
{
    let m = dot_mask(dx, dy);
    assert(((p | q) & m != 0) == (p & m != 0 || q & m != 0)) by (bit_vector)
        requires
            m == 0x00 || m == 0x01 || m == 0x02 || m == 0x04 || m == 0x40 || m == 0x08 || m == 0x10
                || m == 0x20 || m == 0x80,
    ;
}

/// `pattern_of` shows what it is asked to show.
pub proof fn pattern_of_shows(lit: spec_fn(int, int) -> bool)
    ensures
        shows(pattern_of(lit), lit),
{
    let (a, b, c, d) = (
        bit_if(lit(0, 0), 0x01),
        bit_if(lit(0, 1), 0x02),
        bit_if(lit(0, 2), 0x04),
        bit_if(lit(0, 3), 0x40),
    );
    let (e, f, g, h) = (
        bit_if(lit(1, 0), 0x08),
        bit_if(lit(1, 1), 0x10),
        bit_if(lit(1, 2), 0x20),
        bit_if(lit(1, 3), 0x80),
    );
    let p = a | b | c | d | e | f | g | h;
    assert(p & 0x01 == a && p & 0x02 == b && p & 0x04 == c && p & 0x40 == d && p & 0x08 == e && p
        & 0x10 == f && p & 0x20 == g && p & 0x80 == h) by (bit_vector)
        requires
            p == a | b | c | d | e | f | g | h,
            a == 0 || a == 0x01,
            b == 0 || b == 0x02,
            c == 0 || c == 0x04,
            d == 0 || d == 0x40,
            e == 0 || e == 0x08,
            f == 0 || f == 0x10,
            g == 0 || g == 0x20,
            h == 0 || h == 0x80,
    ;
    assert forall|dx: int, dy: int| 0 <= dx < 2 && 0 <= dy < 4 implies #[trigger] has_dot(
        p,
        dx,
        dy,
    ) == lit(dx, dy) by {
        assert((dx == 0 || dx == 1) && (dy == 0 || dy == 1 || dy == 2 || dy == 3));
    }
}

/// The empty pattern shows no dot.
pub proof fn lemma_blank()
    ensures
        forall|dx: int, dy: int| !#[trigger] has_dot(0, dx, dy),
{
    assert forall|dx: int, dy: int| !#[trigger] has_dot(0, dx, dy) by {
        let m = dot_mask(dx, dy);
        assert(0u8 & m == 0) by (bit_vector);
    }
}

/// A pattern is known by the dots that it shows: two patterns that show the
/// same dots are one, and one that shows none is 0.
pub proof fn pattern_is_its_dots(p: u8, q: u8)
    requires
        forall|dx: int, dy: int|
            0 <= dx < 2 && 0 <= dy < 4 ==> #[trigger] has_dot(p, dx, dy) == has_dot(q, dx, dy),
    ensures
        p == q,
{
    assert(has_dot(p, 0, 0) == has_dot(q, 0, 0));
    assert(has_dot(p, 0, 1) == has_dot(q, 0, 1));
    assert(has_dot(p, 0, 2) == has_dot(q, 0, 2));
    assert(has_dot(p, 0, 3) == has_dot(q, 0, 3));
    assert(has_dot(p, 1, 0) == has_dot(q, 1, 0));
    assert(has_dot(p, 1, 1) == has_dot(q, 1, 1));
    assert(has_dot(p, 1, 2) == has_dot(q, 1, 2));
    assert(has_dot(p, 1, 3) == has_dot(q, 1, 3));
    assert(p == q) by (bit_vector)
        requires
            (p & 0x01 != 0) == (q & 0x01 != 0),
            (p & 0x02 != 0) == (q & 0x02 != 0),
            (p & 0x04 != 0) == (q & 0x04 != 0),
            (p & 0x40 != 0) == (q & 0x40 != 0),
            (p & 0x08 != 0) == (q & 0x08 != 0),
            (p & 0x10 != 0) == (q & 0x10 != 0),
            (p & 0x20 != 0) == (q & 0x20 != 0),
            (p & 0x80 != 0) == (q & 0x80 != 0),
    ;
}

/// The lowest value that lights a dot: 0.1 mm/h of rain, 10 percent of cloud.
pub open spec fn dot_threshold(kind: GridKind) -> Single {
    match kind {
        GridKind::PrecipMmH => Single { bits: 0x3DCC_CCCD },
        GridKind::CloudPct => Single { bits: 0x4120_0000 },
    }
}

/// Whether a value lights its dot.
pub open spec fn lights(kind: GridKind, value: Single) -> bool {
    dot_threshold(kind).at_most(value)
}

/// The colour of a value on the scale of its kind.
pub open spec fn kind_color(kind: GridKind, value: Single) -> Option<Rgb> {
    match kind {
        GridKind::PrecipMmH => band_color(precip_scale(), 8, value),
        GridKind::CloudPct => band_color(cloud_scale(), 4, value),
    }
}

/// Whether a value lights its dot.
pub fn dot_on(kind: GridKind, value: Single) -> (on: bool)
    ensures
        on == lights(kind, value),
{
    match kind {
        GridKind::PrecipMmH => Single::from_bits(0x3DCC_CCCD).le(value),
        GridKind::CloudPct => Single::from_bits(0x4120_0000).le(value),
    }
}

/// The colour of a value on the scale of its kind.
pub fn value_to_rgb(kind: GridKind, value: Single) -> (c: Option<Rgb>)
    ensures
        c == kind_color(kind, value),
{
    match kind {
        GridKind::PrecipMmH => precip_to_rgb(value),
        GridKind::CloudPct => cloud_to_rgb(value),
    }
}

/// A value that lights its dot has a colour.
pub proof fn lit_value_has_a_color(kind: GridKind, value: Single)
    requires
        lights(kind, value),
    ensures
        kind_color(kind, value) is Some,
{
    reveal_with_fuel(band_color, 9);
}

/// The grid value under the dot in column `gx` of dot row `gy`: `xs` and `ys`
/// give the grid column and row nearest to each dot column and row.
pub open spec fn under_dot(grid: Grid, xs: Seq<u16>, ys: Seq<u16>, gx: int, gy: int) -> Single {
    grid.sample(xs[gx] as int, ys[gy] as int)
}

/// The largest value that lights a dot, among the first `n` dots of a cell
/// taken row by row.
pub open spec fn strongest(
    grid: Grid,
    xs: Seq<u16>,
    ys: Seq<u16>,
    col: int,
    row: int,
    n: nat,
) -> Single
    decreases n,
{
    if n == 0 {
        least()
    } else {
        let m = strongest(grid, xs, ys, col, row, (n - 1) as nat);
        let v = under_dot(grid, xs, ys, 2 * col + (n - 1) % 2, 4 * row + (n - 1) / 2);
        if lights(grid.kind, v) && m.below(v) {
            v
        } else {
            m
        }
    }
}

/// The dots of a cell that its grid values light.
pub open spec fn lit_dots(grid: Grid, xs: Seq<u16>, ys: Seq<u16>, col: int, row: int) -> spec_fn(
    int,
    int,
) -> bool {
    |dx: int, dy: int| lights(grid.kind, under_dot(grid, xs, ys, 2 * col + dx, 4 * row + dy))
}

/// How the cell number `n`, in row-major order on a screen `cols` cells wide,
/// is drawn: with the dots that are lit, in the colour of the strongest value
/// under them; not at all where no dot is lit.
pub open spec fn grid_cell(grid: Grid, xs: Seq<u16>, ys: Seq<u16>, cols: int, n: int) -> Option<
    DrawCell,
> {
    let col = n % cols;
    let row = n / cols;
    let pattern = pattern_of(lit_dots(grid, xs, ys, col, row));
    if pattern == 0 {
        None
    } else {
        match kind_color(grid.kind, strongest(grid, xs, ys, col, row, 8)) {
            Some(fg) => Some(
                DrawCell { col: col as u16, row: row as u16, braille: glyph(pattern), fg },
            ),
            None => None,
        }
    }
}

/// The cells of a grid on a screen, row by row, as many as there is room for.
pub open spec fn grid_drawing(grid: Grid, xs: Seq<u16>, ys: Seq<u16>, cols: int, rows: int) -> Seq<
    DrawCell,
> {
    let all = drawn(|n: int| grid_cell(grid, xs, ys, cols, n), (cols * rows) as nat);
    if all.len() > MAX_CELLS {
        all.take(MAX_CELLS as int)
    } else {
        all
    }
}

/// The pattern of a cell, and the strongest value under its lit dots.
fn cell_of(grid: &Grid, xs: &[u16], ys: &[u16], col: u16, row: u16) -> (r: (u8, Single))
    requires
        grid.wf(),
        2 * col + 1 < xs@.len(),
        4 * row + 3 < ys@.len(),
    ensures
        r.0 == pattern_of(lit_dots(*grid, xs@, ys@, col as int, row as int)),
        r.1 == strongest(*grid, xs@, ys@, col as int, row as int, 8),
{
    let ghost lit = lit_dots(*grid, xs@, ys@, col as int, row as int);
    let mut pattern: u8 = 0;
    let mut rep_value = Single::from_bits(0xff7f_ffff);
    let mut dy: u8 = 0;
    proof {
        lemma_blank();
    }
    while dy < 4
        invariant
            grid.wf(),
            dy <= 4,
            2 * col + 1 < xs@.len(),
            4 * row + 3 < ys@.len(),
            lit == lit_dots(*grid, xs@, ys@, col as int, row as int),
            forall|ex: int, ey: int|
                0 <= ex < 2 && 0 <= ey < 4 ==> #[trigger] has_dot(pattern, ex, ey) == (ey < dy
                    && lit(ex, ey)),
            rep_value == strongest(*grid, xs@, ys@, col as int, row as int, (2 * dy) as nat),
        decreases 4 - dy,
    {
        let mut dx: u8 = 0;
        while dx < 2
            invariant
                grid.wf(),
                dx <= 2,
                dy < 4,
                2 * col + 1 < xs@.len(),
                4 * row + 3 < ys@.len(),
                lit == lit_dots(*grid, xs@, ys@, col as int, row as int),
                forall|ex: int, ey: int|
                    0 <= ex < 2 && 0 <= ey < 4 ==> #[trigger] has_dot(pattern, ex, ey) == ((ey < dy
                        || (ey == dy && ex < dx)) && lit(ex, ey)),
                rep_value == strongest(
                    *grid,
                    xs@,
                    ys@,
                    col as int,
                    row as int,
                    (2 * dy + dx) as nat,
                ),
            decreases 2 - dx,
        {
            let x: u16 = xs[col as usize * 2 + dx as usize];
            let y: u16 = ys[row as usize * 4 + dy as usize];
            let val = grid.get_or_zero(x, y);
            proof {
                let k = 2 * dy + dx;
                assert(k % 2 == dx && k / 2 == dy);
                assert(lit(dx as int, dy as int) == lights(grid.kind, val));
            }
            if dot_on(grid.kind, val) {
                proof {
                    lemma_light(pattern, dx as int, dy as int);
                }
                pattern = pattern | dot_bit(dx, dy);
                if rep_value.lt(val) {
                    rep_value = val;
                }
            }
            dx = dx + 1;
        }
        dy = dy + 1;
    }
    proof {
        pattern_of_shows(lit);
        pattern_is_its_dots(pattern, pattern_of(lit));
    }
    (pattern, rep_value)
}

/// Draws a grid on a screen of `cols` x `rows` cells, 2 x 4 dots each.
///
/// `xs` and `ys` give, for each dot column and each dot row, the grid column
/// and row that is sampled there. Cells without a lit dot are not given out.
/// What exceeds [`MAX_CELLS`] is cut off.
pub fn quantize(grid: &Grid, cols: u16, rows: u16, xs: &[u16], ys: &[u16]) -> (out: CellVec)
    requires
        grid.wf(),
        xs@.len() >= 2 * cols,
        ys@.len() >= 4 * rows,
    ensures
        cells_of(out) == grid_drawing(*grid, xs@, ys@, cols as int, rows as int),
{
    let mut out = cells_new();
    let ghost cell = |n: int| grid_cell(*grid, xs@, ys@, cols as int, n);
    proof {
        assert(cols == 0 || rows == 0 ==> cols * rows == 0) by (nonlinear_arith);
        assert(0 <= cols * rows) by (nonlinear_arith);
    }
    if cols == 0 || rows == 0 {
        return out;
    }
    let mut row: u16 = 0;
    let ghost mut n: nat = 0;
    while row < rows
        invariant
            grid.wf(),
            row <= rows,
            0 < cols,
            xs@.len() >= 2 * cols,
            ys@.len() >= 4 * rows,
            n == row * cols,
            cell == (|n: int| grid_cell(*grid, xs@, ys@, cols as int, n)),
            cells_of(out) == drawn(cell, n),
            cells_of(out).len() <= MAX_CELLS,
        decreases rows - row,
    {
        let mut col: u16 = 0;
        while col < cols
            invariant
                grid.wf(),
                col <= cols,
                row < rows,
                xs@.len() >= 2 * cols,
                ys@.len() >= 4 * rows,
                n == row * cols + col,
                cell == (|n: int| grid_cell(*grid, xs@, ys@, cols as int, n)),
                cells_of(out) == drawn(cell, n),
                cells_of(out).len() <= MAX_CELLS,
            decreases cols - col,
        {
            proof {
                lemma_cell_index(cols as int, rows as int, col as int, row as int);
            }
            let (pattern, rep_value) = cell_of(grid, xs, ys, col, row);
            if pattern != 0 {
                if let Some(fg) = value_to_rgb(grid.kind, rep_value) {
                    let next = DrawCell { col, row, braille: braille_char(pattern), fg };
                    if !cells_push(&mut out, next) {
                        proof {
                            assert(cell(n as int) == Some(next));
                            drawn_prefix(cell, n, n + 1);
                            drawn_prefix(cell, n + 1, (cols * rows) as nat);
                            let all = drawn(cell, (cols * rows) as nat);
                            assert(all.take(MAX_CELLS as int) =~= cells_of(out));
                        }
                        return out;
                    }
                }
            }
            proof {
                n = n + 1;
            }
            col = col + 1;
        }
        proof {
            assert((row + 1) * cols == row * cols + cols) by (nonlinear_arith);
        }
        row = row + 1;
    }
    proof {
        assert(rows * cols == cols * rows) by (nonlinear_arith);
    }
    out
}

/// The strongest value of a cell is not below any value that lights a dot of
/// the cell, so the cell is drawn whenever a dot of it is lit.
pub proof fn lit_cell_is_drawn(
    grid: Grid,
    xs: Seq<u16>,
    ys: Seq<u16>,
    cols: int,
    n: int,
    dx: int,
    dy: int,
)
    requires
        0 <= dx < 2,
        0 <= dy < 4,
        lit_dots(grid, xs, ys, n % cols, n / cols)(dx, dy),
    ensures
        ({
            let v = under_dot(grid, xs, ys, 2 * (n % cols) + dx, 4 * (n / cols) + dy);
            let top = strongest(grid, xs, ys, n % cols, n / cols, 8);
            v.at_most(top) && lights(grid.kind, top)
        }),
        grid_cell(grid, xs, ys, cols, n) is Some,
{
    let (col, row) = (n % cols, n / cols);
    let lit = lit_dots(grid, xs, ys, col, row);
    pattern_of_shows(lit);
    lemma_blank();
    assert(has_dot(pattern_of(lit), dx, dy));
    lemma_strongest(grid, xs, ys, col, row, 8, dx, dy);
    lit_value_has_a_color(grid.kind, strongest(grid, xs, ys, col, row, 8));
}

proof fn lemma_strongest(
    grid: Grid,
    xs: Seq<u16>,
    ys: Seq<u16>,
    col: int,
    row: int,
    n: nat,
    dx: int,
    dy: int,
)
    requires
        0 <= dx < 2,
        0 <= dy < 4,
        2 * dy + dx < n,
        lights(grid.kind, under_dot(grid, xs, ys, 2 * col + dx, 4 * row + dy)),
    ensures
        under_dot(grid, xs, ys, 2 * col + dx, 4 * row + dy).at_most(
            strongest(grid, xs, ys, col, row, n),
        ),
    decreases n,
{
    lemma_strongest_is_number(grid, xs, ys, col, row, (n - 1) as nat);
    if 2 * dy + dx == n - 1 {
        assert((n - 1) % 2 == dx && (n - 1) / 2 == dy);
    } else {
        lemma_strongest(grid, xs, ys, col, row, (n - 1) as nat, dx, dy);
    }
}

proof fn lemma_strongest_is_number(
    grid: Grid,
    xs: Seq<u16>,
    ys: Seq<u16>,
    col: int,
    row: int,
    n: nat,
)
    ensures
        !strongest(grid, xs, ys, col, row, n).nan(),
    decreases n,
{
    if n > 0 {
        lemma_strongest_is_number(grid, xs, ys, col, row, (n - 1) as nat);
    }
}

/// The number of a dot's bit, as Unicode counts them: 0, 1, 2 down the left
/// column, 3, 4, 5 down the right one, then 6 and 7 along the bottom.
pub open spec fn unicode_bit(dx: int, dy: int) -> int {
    if dy == 3 {
        6 + dx
    } else {
        dy + 3 * dx
    }
}

/// Whether bit `b` of a number is set.
pub open spec fn bit_is_set(number: int, b: int) -> bool {
    (if b == 0 {
        number
    } else if b == 1 {
        number / 2
    } else if b == 2 {
        number / 4
    } else if b == 3 {
        number / 8
    } else if b == 4 {
        number / 16
    } else if b == 5 {
        number / 32
    } else if b == 6 {
        number / 64
    } else {
        number / 128
    }) % 2 == 1
}

/// Patterns have the bits of Unicode: a dot is lit exactly if the bit with its
/// number is set.
pub proof fn dots_are_unicode_bits(pattern: u8, dx: int, dy: int)
    requires
        0 <= dx < 2,
        0 <= dy < 4,
    ensures
        has_dot(pattern, dx, dy) == bit_is_set(pattern as int, unicode_bit(dx, dy)),
{
    assert((pattern & 0x01 != 0) == (pattern % 2 == 1) && (pattern & 0x02 != 0) == ((pattern / 2)
        % 2 == 1) && (pattern & 0x04 != 0) == ((pattern / 4) % 2 == 1) && (pattern & 0x08 != 0) == ((
    pattern / 8) % 2 == 1) && (pattern & 0x10 != 0) == ((pattern / 16) % 2 == 1) && (pattern & 0x20
        != 0) == ((pattern / 32) % 2 == 1) && (pattern & 0x40 != 0) == ((pattern / 64) % 2 == 1) && (
    pattern & 0x80 != 0) == ((pattern / 128) % 2 == 1)) by (bit_vector);
}

/// The value of the grid under the dot (`dx`, `dy`) of a cell: that in the
/// column and row which the tables name for the dot, or 0 off the grid.
pub open spec fn dot_value(
    grid: Grid,
    xs: Seq<u16>,
    ys: Seq<u16>,
    col: int,
    row: int,
    dx: int,
    dy: int,
) -> Single {
    match grid.at(xs[2 * col + dx] as int, ys[4 * row + dy] as int) {
        Some(v) => v,
        None => Single { bits: 0 },
    }
}

/// Whether a value is at least 0.1 on a grid of rain, 10 on one of clouds.
pub open spec fn shows_up(kind: GridKind, value: Single) -> bool {
    match kind {
        GridKind::PrecipMmH => (Single { bits: 0x3DCC_CCCD }).at_most(value),
        GridKind::CloudPct => (Single { bits: 0x4120_0000 }).at_most(value),
    }
}

/// A drawn cell shows its values: a cell is drawn where a value under one of
/// its eight dots is at least 0.1 (rain) or 10 (cloud), and nowhere else; the
/// dots lit are those with such a value under them; and the cell stands in its
/// column and row.
pub proof fn drawn_cell_shows_its_values(
    grid: Grid,
    xs: Seq<u16>,
    ys: Seq<u16>,
    cols: int,
    n: int,
    dx: int,
    dy: int,
)
    requires
        0 <= dx < 2,
        0 <= dy < 4,
        0 < cols <= 0xffff,
        0 <= n / cols <= 0xffff,
    ensures
        ({
            let v = dot_value(grid, xs, ys, n % cols, n / cols, dx, dy);
            match grid_cell(grid, xs, ys, cols, n) {
                None => !shows_up(grid.kind, v),
                Some(c) => {
                    &&& c.row * cols + c.col == n
                    &&& c.col < cols
                    &&& 0x2800 < c.braille as int <= 0x28ff
                    &&& bit_is_set(c.braille as int - 0x2800, unicode_bit(dx, dy)) == shows_up(
                        grid.kind,
                        v,
                    )
                },
            }
        }),
{
    let (col, row) = (n % cols, n / cols);
    let lit = lit_dots(grid, xs, ys, col, row);
    pattern_of_shows(lit);
    let p = pattern_of(lit);
    vstd::arithmetic::div_mod::lemma_fundamental_div_mod(n, cols);
    assert(cols * (n / cols) == (n / cols) * cols) by (nonlinear_arith);
    assert(has_dot(p, dx, dy) == lit(dx, dy));
    dots_are_unicode_bits(p, dx, dy);
    lemma_blank();
    if p != 0 {
        lemma_some_dot(p);
        let (ex, ey) = choose|ex: int, ey: int|
            0 <= ex < 2 && 0 <= ey < 4 && #[trigger] has_dot(p, ex, ey);
        assert(lit(ex, ey));
        lit_cell_is_drawn(grid, xs, ys, cols, n, ex, ey);
    }
}

/// A pattern other than 0 shows some dot.
proof fn lemma_some_dot(p: u8)
    requires
        p != 0,
    ensures
        exists|dx: int, dy: int| 0 <= dx < 2 && 0 <= dy < 4 && #[trigger] has_dot(p, dx, dy),
{
    if forall|dx: int, dy: int| 0 <= dx < 2 && 0 <= dy < 4 ==> !#[trigger] has_dot(p, dx, dy) {
        lemma_blank();
        pattern_is_its_dots(p, 0);
    }
}

/// Whether the value under the dot (`dx`, `dy`) shows up, and no value under
/// another dot of the cell that does exceeds it.
pub open spec fn tops_the_cell(
    grid: Grid,
    xs: Seq<u16>,
    ys: Seq<u16>,
    col: int,
    row: int,
    dx: int,
    dy: int,
) -> bool {
    &&& 0 <= dx < 2
    &&& 0 <= dy < 4
    &&& shows_up(grid.kind, dot_value(grid, xs, ys, col, row, dx, dy))
    &&& forall|ex: int, ey: int|
        #![trigger dot_value(grid, xs, ys, col, row, ex, ey)]
        0 <= ex < 2 && 0 <= ey < 4 && shows_up(
            grid.kind,
            dot_value(grid, xs, ys, col, row, ex, ey),
        ) ==> dot_value(grid, xs, ys, col, row, ex, ey).at_most(
            dot_value(grid, xs, ys, col, row, dx, dy),
        )
}

/// The colour scale of a kind of grid: for rain that of the legend.
pub open spec fn scale_of(kind: GridKind) -> Seq<(Single, Rgb)> {
    match kind {
        GridKind::PrecipMmH => precip_scale(),
        GridKind::CloudPct => cloud_scale(),
    }
}

/// A drawn cell has the colour of its strongest value: under one of its lit dots
/// is a value that no other under a lit dot exceeds, and the colour is that of
/// the band of the scale, for rain the one of the legend, that this value lies
/// in.
pub proof fn drawn_cell_has_the_color_of_its_strongest_value(
    grid: Grid,
    xs: Seq<u16>,
    ys: Seq<u16>,
    cols: int,
    n: int,
    k: int,
)
    requires
        grid_cell(grid, xs, ys, cols, n) is Some,
        0 <= k < scale_of(grid.kind).len(),
    ensures
        exists|dx: int, dy: int| #[trigger]
            tops_the_cell(grid, xs, ys, n % cols, n / cols, dx, dy),
        forall|dx: int, dy: int| #[trigger]
            tops_the_cell(grid, xs, ys, n % cols, n / cols, dx, dy) && in_band(
                scale_of(grid.kind),
                k,
                dot_value(grid, xs, ys, n % cols, n / cols, dx, dy),
            ) ==> grid_cell(grid, xs, ys, cols, n)->0.fg == scale_of(grid.kind)[k].1,
{
    let (col, row) = (n % cols, n / cols);
    let lit = lit_dots(grid, xs, ys, col, row);
    let top = strongest(grid, xs, ys, col, row, 8);
    pattern_of_shows(lit);
    let p = pattern_of(lit);
    lemma_some_dot(p);
    let (ex, ey) = choose|ex: int, ey: int|
        0 <= ex < 2 && 0 <= ey < 4 && #[trigger] has_dot(p, ex, ey);
    assert(lit(ex, ey));
    lemma_strongest(grid, xs, ys, col, row, 8, ex, ey);
    lemma_strongest_is_found(grid, xs, ys, col, row, 8);
    assert(shows_up(grid.kind, top));
    assert(top != least()) by {
        lemma_least(grid.kind);
    }
    let i = choose|i: int|
        0 <= i < 8 && top == under_dot(
            grid,
            xs,
            ys,
            2 * col + #[trigger] (i % 2),
            4 * row + i / 2,
        );
    let (dx, dy) = (i % 2, i / 2);
    assert(dot_value(grid, xs, ys, col, row, dx, dy) == top);
    assert forall|fx: int, fy: int|
        #![trigger dot_value(grid, xs, ys, col, row, fx, fy)]
        0 <= fx < 2 && 0 <= fy < 4 && shows_up(
            grid.kind,
            dot_value(grid, xs, ys, col, row, fx, fy),
        ) implies dot_value(grid, xs, ys, col, row, fx, fy).at_most(top) by {
        lemma_strongest(grid, xs, ys, col, row, 8, fx, fy);
    }
    assert(tops_the_cell(grid, xs, ys, col, row, dx, dy));
    scales_ascend();
    assert forall|fx: int, fy: int| #[trigger]
        tops_the_cell(grid, xs, ys, col, row, fx, fy) && in_band(
            scale_of(grid.kind),
            k,
            dot_value(grid, xs, ys, col, row, fx, fy),
        ) implies grid_cell(grid, xs, ys, cols, n)->0.fg == scale_of(grid.kind)[k].1 by {
        let v = dot_value(grid, xs, ys, col, row, fx, fy);
        assert(v.at_most(top) && top.at_most(v));
        assert(in_band(scale_of(grid.kind), k, top));
        color_is_that_of_the_band(scale_of(grid.kind), top, k);
    }
}

/// The least finite number does not show up.
proof fn lemma_least(kind: GridKind)
    ensures
        !shows_up(kind, least()),
{
    (Single { bits: 0 }).positive_order(dot_threshold(kind));
}

/// The strongest value is the least finite number, or the value under a dot.
proof fn lemma_strongest_is_found(
    grid: Grid,
    xs: Seq<u16>,
    ys: Seq<u16>,
    col: int,
    row: int,
    n: nat,
)
    requires
        n <= 8,
    ensures
        strongest(grid, xs, ys, col, row, n) == least() || exists|i: int|
            0 <= i < n && strongest(grid, xs, ys, col, row, n) == under_dot(
                grid,
                xs,
                ys,
                2 * col + #[trigger] (i % 2),
                4 * row + i / 2,
            ),
    decreases n,
{
    if n > 0 {
        lemma_strongest_is_found(grid, xs, ys, col, row, (n - 1) as nat);
        let m = strongest(grid, xs, ys, col, row, (n - 1) as nat);
        let now = strongest(grid, xs, ys, col, row, n);
        if now != m {
            let i = n - 1;
            assert(now == under_dot(grid, xs, ys, 2 * col + (i % 2), 4 * row + i / 2));
        } else if m != least() {
            let i = choose|i: int|
                0 <= i < n - 1 && m == under_dot(
                    grid,
                    xs,
                    ys,
                    2 * col + #[trigger] (i % 2),
                    4 * row + i / 2,
                );
            assert(now == under_dot(grid, xs, ys, 2 * col + (i % 2), 4 * row + i / 2));
        }
    }
}

/// A screen of up to 12,000 cells shows its grid: a cell is drawn wherever a value
/// under one of its dots shows up, cells go row by row, and none stands off the
/// screen. A larger screen never shows more than 12,000 cells.
pub proof fn screen_shows_its_grid(
    grid: Grid,
    xs: Seq<u16>,
    ys: Seq<u16>,
    cols: int,
    rows: int,
    x: int,
    y: int,
    i: int,
    j: int,
)
    requires
        0 <= cols <= 0xffff,
        0 <= rows <= 0xffff,
    ensures
        ({
            let out = grid_drawing(grid, xs, ys, cols, rows);
            &&& out.len() <= 12_000
            &&& cols * rows <= 12_000 && 0 <= x < 2 * cols && 0 <= y < 4 * rows && shows_up(
                grid.kind,
                grid.sample(xs[x] as int, ys[y] as int),
            ) ==> exists|m: int|
                0 <= m < out.len() && (#[trigger] out[m]).col == x / 2 && out[m].row == y / 4
            &&& 0 <= i < out.len() ==> out[i].col < cols && out[i].row < rows
            &&& 0 <= i < j < out.len() ==> out[i].row < out[j].row || (out[i].row == out[j].row
                && out[i].col < out[j].col)
        }),
{
    assert(0 <= cols * rows) by (nonlinear_arith)
        requires
            0 <= cols,
            0 <= rows,
    ;
    let n = (cols * rows) as nat;
    let cell = |m: int| grid_cell(grid, xs, ys, cols, m);
    let all = drawn(cell, n);
    let out = grid_drawing(grid, xs, ys, cols, rows);
    drawn_len(cell, n);
    assert forall|k: int| 0 <= k < out.len() implies out[k] == all[k] by {}
    assert forall|m: int| 0 <= m < n implies (#[trigger] cell(m) matches Some(c) ==> c.row * cols
        + c.col == m && c.col < cols && c.row < rows) by {
        assert(cols > 0) by (nonlinear_arith)
            requires
                0 <= m < cols * rows,
                0 <= cols,
        ;
        vstd::arithmetic::div_mod::lemma_fundamental_div_mod(m, cols);
        vstd::arithmetic::div_mod::lemma_mod_bound(m, cols);
        assert(0 <= m / cols < rows) by (nonlinear_arith)
            requires
                m == cols * (m / cols) + m % cols,
                0 <= m % cols < cols,
                0 <= m < cols * rows,
        ;
        drawn_cell_shows_its_values(grid, xs, ys, cols, m, 0, 0);
    }
    if 0 <= i < out.len() {
        drawn_has(cell, n, all[i]);
        assert(all.contains(all[i]));
    }
    if 0 <= i < j < out.len() {
        drawing_goes_row_by_row(cell, cols, n, i, j);
    }
    if cols * rows <= 12_000 && 0 <= x < 2 * cols && 0 <= y < 4 * rows && shows_up(
        grid.kind,
        grid.sample(xs[x] as int, ys[y] as int),
    ) {
        let (c, r) = (x / 2, y / 4);
        let m = r * cols + c;
        lemma_cell_index(cols, rows, c, r);
        assert(2 * c + x % 2 == x && 4 * r + y % 4 == y);
        drawn_cell_shows_its_values(grid, xs, ys, cols, m, x % 2, y % 4);
        assert(cell(m) is Some);
        let d = cell(m)->0;
        assert(d.col == c && d.row == r);
        drawn_has(cell, n, d);
        let at = choose|at: int| 0 <= at < all.len() && all[at] == d;
        assert(out[at].col == x / 2);
    }
}

} // verus!
