//! The grid: rain or cloud amounts over a rectangle, row by row.

use vstd::prelude::*;

use crate::geo::GeoBBox;
use crate::ieee::Single;
use crate::storage::{values_new, values_of, values_push, values_set, values_slice, GridVec, GRID_CAP};

verus! {

/// Row-major numbers of cells: they fit the screen, and no two cells share one.
pub proof fn lemma_cell_index(cols: int, rows: int, c: int, r: int)
    requires
        0 <= c < cols,
        0 <= r < rows,
    ensures
        0 <= r * cols + c < cols * rows,
        (r * cols + c) / cols == r,
        (r * cols + c) % cols == c,
{
    assert(r * cols + c < cols * rows) by (nonlinear_arith)
        requires
            0 <= c < cols,
            0 <= r < rows,
    ;
    assert(0 <= r * cols) by (nonlinear_arith)
        requires
            0 <= r,
            0 < cols,
    ;
    vstd::arithmetic::div_mod::lemma_fundamental_div_mod_converse(r * cols + c, cols, r, c);
}

/// What the values of a grid measure. It selects the colour scale.
#[derive(Clone, Copy, PartialEq, Eq, Debug, Structural)]
pub enum GridKind {
    /// Rain in millimetres per hour.
    PrecipMmH,
    /// Cloud cover in percent.
    CloudPct,
}

/// The number 0.
pub open spec fn zero() -> Single {
    Single { bits: 0 }
}

/// The least finite number.
pub open spec fn least() -> Single {
    Single { bits: 0xff7f_ffff }
}

/// The values of a grid, which only the grid changes.
pub struct GridValues {
    cells: GridVec,
}

impl View for GridValues {
    type V = Seq<Single>;

    closed spec fn view(&self) -> Seq<Single> {
        values_of(self.cells)
    }
}

/// Values over a rectangle, row by row, in storage of a fixed capacity.
pub struct Grid {
    pub width: u16,
    pub height: u16,
    pub kind: GridKind,
    /// The rectangle that the grid covers.
    pub bbox: GeoBBox,
    /// The values, row by row.
    pub data: GridValues,
}

/// The largest of the first `n` values, the first of several equal ones; the
/// least finite number where none exceeds that.
pub open spec fn peak(values: Seq<Single>, n: nat) -> Single
    decreases n,
{
    if n == 0 {
        least()
    } else {
        let m = peak(values, (n - 1) as nat);
        if m.below(values[n - 1]) {
            values[n - 1]
        } else {
            m
        }
    }
}

/// None of the values exceeds their peak, which is one of them or the least
/// finite number.
pub proof fn peak_is_highest(values: Seq<Single>, n: nat)
    requires
        n <= values.len(),
    ensures
        forall|i: int| 0 <= i < n ==> !peak(values, n).below(#[trigger] values[i]),
        peak(values, n) == least() || exists|i: int|
            0 <= i < n && #[trigger] values[i] == peak(values, n),
        !peak(values, n).nan(),
    decreases n,
{
    if n > 0 {
        peak_is_highest(values, (n - 1) as nat);
        let m = peak(values, (n - 1) as nat);
        if m.below(values[n - 1]) {
            assert(values[n - 1] == peak(values, n));
        }
    }
}

impl Grid {
    /// The values, row by row.
    pub open spec fn values(self) -> Seq<Single> {
        self.data@
    }

    /// One value for each cell, and neither side empty.
    pub open spec fn wf(self) -> bool {
        &&& 0 < self.width
        &&& 0 < self.height
        &&& self.width * self.height <= GRID_CAP
        &&& self.values().len() == self.width * self.height
    }

    /// The value in column `x` of row `y`; none outside the grid.
    pub open spec fn at(self, x: int, y: int) -> Option<Single> {
        if 0 <= x < self.width && 0 <= y < self.height {
            Some(self.values()[y * self.width + x])
        } else {
            None
        }
    }

    /// The value in column `x` of row `y`; 0 outside the grid.
    pub open spec fn sample(self, x: int, y: int) -> Single {
        match self.at(x, y) {
            Some(v) => v,
            None => zero(),
        }
    }

    /// A grid of zeros; none if a side is empty or the cells are too many.
    pub fn new_zeroed(width: u16, height: u16, kind: GridKind, bbox: GeoBBox) -> (g: Option<Grid>)
        ensures
            g is None <==> width == 0 || height == 0 || width * height > GRID_CAP,
            g matches Some(g) ==> {
                &&& g.wf()
                &&& g.width == width
                &&& g.height == height
                &&& g.kind == kind
                &&& g.bbox == bbox
                &&& g.values() == Seq::new((width * height) as nat, |i: int| zero())
            },
    {
        proof {
            assert(width * height <= 0xffff * 0xffff) by (nonlinear_arith)
                requires
                    0 <= width <= 0xffff,
                    0 <= height <= 0xffff,
            ;
        }
        let n: usize = width as usize * height as usize;
        if n > GRID_CAP || width == 0 || height == 0 {
            return None;
        }
        let mut data = values_new();
        let mut i: usize = 0;
        while i < n
            invariant
                i <= n <= GRID_CAP,
                values_of(data) == Seq::new(i as nat, |k: int| zero()),
            decreases n - i,
        {
            values_push(&mut data, Single::from_bits(0));
            proof {
                assert(values_of(data) =~= Seq::new((i + 1) as nat, |k: int| zero()));
            }
            i = i + 1;
        }
        Some(Grid { width, height, kind, bbox, data: GridValues { cells: data } })
    }

    /// Where the value of a cell stands in the list of values.
    fn idx(&self, x: u16, y: u16) -> (i: Option<usize>)
        requires
            self.wf(),
        ensures
            i is Some <==> x < self.width && y < self.height,
            i matches Some(i) ==> i == y * self.width + x && i < self.values().len(),
    {
        if x >= self.width || y >= self.height {
            return None;
        }
        proof {
            lemma_cell_index(self.width as int, self.height as int, x as int, y as int);
        }
        Some(y as usize * self.width as usize + x as usize)
    }

    /// The value of a cell; none outside the grid.
    pub fn get(&self, x: u16, y: u16) -> (v: Option<Single>)
        requires
            self.wf(),
        ensures
            v == self.at(x as int, y as int),
    {
        match self.idx(x, y) {
            Some(i) => Some(values_slice(&self.data.cells)[i]),
            None => None,
        }
    }

    /// Replaces the value of a cell. Outside the grid it changes nothing and
    /// answers false.
    pub fn set(&mut self, x: u16, y: u16, v: Single) -> (inside: bool)
        requires
            old(self).wf(),
        ensures
            inside == (x < old(self).width && y < old(self).height),
            final(self).wf(),
            final(self).width == old(self).width,
            final(self).height == old(self).height,
            final(self).kind == old(self).kind,
            final(self).bbox == old(self).bbox,
            final(self).values() == if inside {
                old(self).values().update(y * old(self).width + x, v)
            } else {
                old(self).values()
            },
    {
        match self.idx(x, y) {
            Some(i) => {
                values_set(&mut self.data.cells, i, v);
                true
            },
            None => false,
        }
    }

    /// The value of a cell; 0 outside the grid.
    pub fn get_or_zero(&self, x: u16, y: u16) -> (v: Single)
        requires
            self.wf(),
        ensures
            v == self.sample(x as int, y as int),
    {
        match self.get(x, y) {
            Some(v) => v,
            None => Single::from_bits(0),
        }
    }

    /// The largest value; 0 where no value exceeds the least finite number.
    pub fn max_value(&self) -> (m: Single)
        requires
            self.wf(),
        ensures
            m == if peak(self.values(), self.values().len()).same(least()) {
                zero()
            } else {
                peak(self.values(), self.values().len())
            },
    {
        let values = values_slice(&self.data.cells);
        let mut m = Single::from_bits(0xff7f_ffff);
        let mut i: usize = 0;
        while i < values.len()
            invariant
                i <= values@.len(),
                m == peak(values@, i as nat),
            decreases values@.len() - i,
        {
            let v = values[i];
            if m.lt(v) {
                m = v;
            }
            i = i + 1;
        }
        if m.eq_num(Single::from_bits(0xff7f_ffff)) {
            Single::from_bits(0)
        } else {
            m
        }
    }
}

/// What was set is what is read, and every other cell stays as it was.
pub proof fn set_then_get(before: Grid, after: Grid, x: int, y: int, v: Single, cx: int, cy: int)
    requires
        before.wf(),
        after.wf(),
        before.width == after.width,
        before.height == after.height,
        0 <= x < before.width,
        0 <= y < before.height,
        after.values() == before.values().update(y * before.width + x, v),
    ensures
        after.at(x, y) == Some(v),
        (cx, cy) != (x, y) ==> after.at(cx, cy) == before.at(cx, cy),
{
    lemma_cell_index(before.width as int, before.height as int, x, y);
    if 0 <= cx < before.width && 0 <= cy < before.height {
        lemma_cell_index(before.width as int, before.height as int, cx, cy);
    }
}

/// Outside a grid there is nothing, which counts as 0; inside, each cell has the
/// value that stands for it row by row.
pub proof fn outside_a_grid_is_nothing(g: Grid, x: int, y: int)
    ensures
        g.at(x, y) is None <==> x < 0 || y < 0 || x >= g.width || y >= g.height,
        g.at(x, y) is None ==> g.sample(x, y).bits == 0,
        g.at(x, y) matches Some(v) ==> g.sample(x, y) == v,
{
}

/// In a grid of which one cell is not 0, exactly that cell is read as other than 0.
pub proof fn values_are_read_where_they_stand(g: Grid, i: int, x: int, y: int)
    requires
        g.wf(),
        0 <= i < g.values().len(),
        g.values()[i].bits != 0,
        forall|k: int| 0 <= k < g.values().len() && k != i ==> (#[trigger] g.values()[k]).bits == 0,
    ensures
        g.sample(x, y).bits != 0 <==> 0 <= x < g.width && 0 <= y && x + g.width * y == i,
{
    if 0 <= x < g.width && 0 <= y < g.height {
        lemma_cell_index(g.width as int, g.height as int, x, y);
    }
    assert(g.width * y == y * g.width) by (nonlinear_arith);
    if 0 <= x < g.width && y >= g.height {
        assert(y * g.width >= g.width * g.height) by (nonlinear_arith)
            requires
                y >= g.height,
                0 <= g.width,
        ;
    }
}

} // verus!
