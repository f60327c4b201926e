//! The drawing layer: what the map looks like, cell by cell.
//!
//! Nothing here knows a screen. The output is a list of [`DrawCell`]s, which
//! a front end turns into whatever its display takes.

use vstd::prelude::*;

use crate::render::colormap::Rgb;

pub mod braille;
pub mod clip;
pub mod colormap;
pub mod lines;

verus! {

/// One character cell of the map: a braille glyph of 2 x 4 dots, and a colour.
#[derive(Clone, Copy, PartialEq, Eq, Debug, Structural)]
pub struct DrawCell {
    /// Column inside the map area, from 0.
    pub col: u16,
    /// Row inside the map area, from 0.
    pub row: u16,
    /// Braille glyph, U+2800 to U+28FF.
    pub braille: char,
    /// Foreground colour.
    pub fg: Rgb,
}

/// The cells that are drawn when `cell` says of each of `n` numbered cells
/// whether, and how, it is drawn: those that are, in the order of the numbers.
pub open spec fn drawn(cell: spec_fn(int) -> Option<DrawCell>, n: nat) -> Seq<DrawCell>
    decreases n,
{
    if n == 0 {
        Seq::empty()
    } else {
        match cell(n - 1) {
            Some(c) => drawn(cell, (n - 1) as nat).push(c),
            None => drawn(cell, (n - 1) as nat),
        }
    }
}

/// No more cells are drawn than there are.
pub proof fn drawn_len(cell: spec_fn(int) -> Option<DrawCell>, n: nat)
    ensures
        drawn(cell, n).len() <= n,
    decreases n,
{
    if n > 0 {
        drawn_len(cell, (n - 1) as nat);
    }
}

/// A drawing of more cells starts with the drawing of fewer.
pub proof fn drawn_prefix(cell: spec_fn(int) -> Option<DrawCell>, n: nat, m: nat)
    requires
        n <= m,
    ensures
        drawn(cell, n).len() <= drawn(cell, m).len(),
        drawn(cell, m).take(drawn(cell, n).len() as int) == drawn(cell, n),
    decreases m,
{
    if n < m {
        drawn_prefix(cell, n, (m - 1) as nat);
        let before = drawn(cell, (m - 1) as nat);
        let head = drawn(cell, n);
        assert(drawn(cell, m).take(head.len() as int) =~= before.take(head.len() as int));
    } else {
        assert(drawn(cell, m).take(drawn(cell, n).len() as int) =~= drawn(cell, n));
    }
}

/// A cell is in the drawing exactly if one of the numbered cells is drawn so.
pub proof fn drawn_has(cell: spec_fn(int) -> Option<DrawCell>, n: nat, c: DrawCell)
    ensures
        drawn(cell, n).contains(c) <==> exists|i: int| 0 <= i < n && #[trigger] cell(i) == Some(c),
    decreases n,
{
    if n > 0 {
        let before = drawn(cell, (n - 1) as nat);
        drawn_has(cell, (n - 1) as nat, c);
        if let Some(last) = cell(n - 1) {
            let after = before.push(last);
            assert(after[before.len() as int] == last);
            if before.contains(c) {
                let i = choose|i: int| 0 <= i < before.len() && before[i] == c;
                assert(after[i] == c);
            }
            if after.contains(c) && c != last {
                let i = choose|i: int| 0 <= i < after.len() && after[i] == c;
                assert(before[i] == c);
            }
        }
    }
}

/// A drawing keeps the order of the numbers: of two cells in it, the earlier is
/// that of a smaller number.
pub proof fn drawn_keeps_the_order(cell: spec_fn(int) -> Option<DrawCell>, n: nat, i: int, j: int)
    requires
        0 <= i < j < drawn(cell, n).len(),
    ensures
        exists|p: int, q: int|
            0 <= p < q < n && #[trigger] cell(p) == Some(drawn(cell, n)[i]) && #[trigger] cell(q)
                == Some(drawn(cell, n)[j]),
    decreases n,
{
    let before = drawn(cell, (n - 1) as nat);
    if j < before.len() {
        drawn_keeps_the_order(cell, (n - 1) as nat, i, j);
        let (p, q) = choose|p: int, q: int|
            0 <= p < q < n - 1 && #[trigger] cell(p) == Some(before[i]) && #[trigger] cell(q)
                == Some(before[j]);
        assert(cell(p) == Some(drawn(cell, n)[i]) && cell(q) == Some(drawn(cell, n)[j]));
    } else {
        drawn_has(cell, (n - 1) as nat, before[i]);
        assert(before.contains(before[i]));
        let p = choose|p: int| 0 <= p < n - 1 && #[trigger] cell(p) == Some(before[i]);
        assert(cell(p) == Some(drawn(cell, n)[i]));
        assert(cell(n - 1) == Some(drawn(cell, n)[j]));
    }
}

/// Where the number of a cell is its place, row by row, a drawing goes down the
/// screen row by row, and along each row from left to right.
pub proof fn drawing_goes_row_by_row(
    cell: spec_fn(int) -> Option<DrawCell>,
    cols: int,
    n: nat,
    i: int,
    j: int,
)
    requires
        0 <= i < j < drawn(cell, n).len(),
        forall|k: int|
            0 <= k < n ==> (#[trigger] cell(k) matches Some(c) ==> c.row * cols + c.col == k
                && c.col < cols),
    ensures
        ({
            let (a, b) = (drawn(cell, n)[i], drawn(cell, n)[j]);
            a.row < b.row || (a.row == b.row && a.col < b.col)
        }),
{
    drawn_keeps_the_order(cell, n, i, j);
    let (a, b) = (drawn(cell, n)[i], drawn(cell, n)[j]);
    let (p, q) = choose|p: int, q: int|
        0 <= p < q < n && #[trigger] cell(p) == Some(a) && #[trigger] cell(q) == Some(b);
    assert(a.row < b.row || (a.row == b.row && a.col < b.col)) by (nonlinear_arith)
        requires
            a.row * cols + a.col < b.row * cols + b.col,
            0 <= a.col < cols,
            0 <= b.col < cols,
    ;
}

} // verus!
