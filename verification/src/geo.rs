//! Places on the globe, and the tiles of a slippy map.

use vstd::arithmetic::power2::pow2;
use vstd::prelude::*;
use vstd::string::StringExecFns;

use crate::ieee::Double;
use crate::text::{
    append_decimal, decimal, decimal_is_faithful, lemma_cut, lemma_digits_only, lemma_trim,
};

verus! {

/// A rectangle of latitudes and longitudes, in degrees.
#[derive(Clone, Copy, Debug, PartialEq, Eq, Structural)]
pub struct GeoBBox {
    pub min_lat: Double,
    pub min_lon: Double,
    pub max_lat: Double,
    pub max_lon: Double,
}

impl GeoBBox {
    pub fn new(min_lat: Double, min_lon: Double, max_lat: Double, max_lon: Double) -> (b: GeoBBox)
        ensures
            b == (GeoBBox { min_lat, min_lon, max_lat, max_lon }),
    {
        GeoBBox { min_lat, min_lon, max_lat, max_lon }
    }

    /// The rectangle that covers Japan: 24 to 46 north, 122 to 146 east.
    pub fn japan() -> (b: GeoBBox)
        ensures
            b.min_lat.bits == 0x4038_0000_0000_0000,
            b.min_lon.bits == 0x405E_8000_0000_0000,
            b.max_lat.bits == 0x4047_0000_0000_0000,
            b.max_lon.bits == 0x4062_4000_0000_0000,
    {
        GeoBBox::new(
            Double::from_bits(0x4038_0000_0000_0000),
            Double::from_bits(0x405E_8000_0000_0000),
            Double::from_bits(0x4047_0000_0000_0000),
            Double::from_bits(0x4062_4000_0000_0000),
        )
    }
}

/// A tile of a slippy map: zoom, column and row.
#[derive(Clone, Copy, Debug, PartialEq, Eq, Structural)]
pub struct TileCoord {
    pub z: u8,
    pub x: u32,
    pub y: u32,
}

impl TileCoord {
    /// Zoom, column and row with slashes between, and an ending.
    pub open spec fn path(self, ending: Seq<char>) -> Seq<char> {
        decimal(self.z as nat) + "/"@ + (decimal(self.x as nat) + "/"@ + (decimal(self.y as nat)
            + ending))
    }

    /// Appends zoom, column and row with slashes between, and an ending.
    pub fn append_path(&self, url: &mut String, ending: &str)
        ensures
            final(url)@ == old(url)@ + self.path(ending@),
    {
        append_decimal(url, self.z as u64);
        url.append("/");
        append_decimal(url, self.x as u64);
        url.append("/");
        append_decimal(url, self.y as u64);
        url.append(ending);
        proof {
            assert(url@ =~= old(url)@ + self.path(ending@));
        }
    }
}

/// Different tiles have different paths.
pub proof fn tile_paths_differ(t1: TileCoord, t2: TileCoord, ending: Seq<char>)
    requires
        t1.path(ending) == t2.path(ending),
    ensures
        t1 == t2,
{
    assert("/"@.len() > 0 && "/"@[0] == '/') by {
        reveal_strlit("/");
    }
    lemma_digits_only(t1.z as nat);
    lemma_digits_only(t2.z as nat);
    lemma_digits_only(t1.x as nat);
    lemma_digits_only(t2.x as nat);
    let y1 = decimal(t1.y as nat) + ending;
    let y2 = decimal(t2.y as nat) + ending;
    let x1 = decimal(t1.x as nat) + "/"@ + y1;
    let x2 = decimal(t2.x as nat) + "/"@ + y2;
    lemma_cut(decimal(t1.z as nat), "/"@, x1, decimal(t2.z as nat), x2);
    lemma_cut(decimal(t1.x as nat), "/"@, y1, decimal(t2.x as nat), y2);
    lemma_trim(decimal(t1.y as nat), decimal(t2.y as nat), ending);
    decimal_is_faithful(t1.z as nat, t2.z as nat);
    decimal_is_faithful(t1.x as nat, t2.x as nat);
    decimal_is_faithful(t1.y as nat, t2.y as nat);
}

/// The number of the tile column or row at `v`, a whole number of tiles from
/// the edge: cut to those that exist at the zoom.
pub fn clamp_tile(v: i128, z: u8) -> (t: u32)
    requires
        z < 64,
    ensures
        t == ({
            let n = pow2(z as nat) as int;
            if v < 0 {
                0
            } else if v >= n {
                if n > u32::MAX {
                    u32::MAX - 1
                } else {
                    n - 1
                }
            } else if v > u32::MAX {
                u32::MAX as int
            } else {
                v as int
            }
        }),
{
    proof {
        vstd::arithmetic::power2::lemma_pow2_pos(z as nat);
        if z < 63 {
            vstd::arithmetic::power2::lemma_pow2_strictly_increases(z as nat, 63);
        }
        vstd::arithmetic::power2::lemma2_to64();
        vstd::arithmetic::power2::lemma2_to64_rest();
        vstd::bits::lemma_u64_shl_is_mul(1, z as u64);
    }
    let n: u64 = 1u64 << (z as u64);
    if v < 0 {
        0
    } else if v >= n as i128 {
        if n > u32::MAX as u64 {
            u32::MAX - 1
        } else {
            (n - 1) as u32
        }
    } else if v > u32::MAX as i128 {
        u32::MAX
    } else {
        v as u32
    }
}

/// The tiles from column `nw.x` to `se.x` and row `nw.y` to `se.y`, both ends
/// with them, row by row: how many columns there are.
pub open spec fn range_cols(nw: TileCoord, se: TileCoord) -> int {
    if se.x >= nw.x {
        se.x - nw.x + 1
    } else {
        0
    }
}

/// How many rows there are.
pub open spec fn range_rows(nw: TileCoord, se: TileCoord) -> int {
    if se.y >= nw.y {
        se.y - nw.y + 1
    } else {
        0
    }
}

/// The `i`-th tile of a range.
pub open spec fn range_tile(nw: TileCoord, se: TileCoord, i: int) -> TileCoord {
    TileCoord {
        z: nw.z,
        x: (nw.x + i % range_cols(nw, se)) as u32,
        y: (nw.y + i / range_cols(nw, se)) as u32,
    }
}

/// The tiles from the north-western one to the south-eastern one, row by row.
pub fn tiles_in_range(nw: TileCoord, se: TileCoord) -> (tiles: Vec<TileCoord>)
    ensures
        tiles@.len() == range_cols(nw, se) * range_rows(nw, se),
        forall|i: int| 0 <= i < tiles@.len() ==> #[trigger] tiles@[i] == range_tile(nw, se, i),
{
    let mut tiles: Vec<TileCoord> = Vec::new();
    let ghost w = range_cols(nw, se);
    let ghost h = range_rows(nw, se);
    proof {
        assert(w == 0 || h == 0 ==> w * h == 0) by (nonlinear_arith);
    }
    if se.x < nw.x || se.y < nw.y {
        return tiles;
    }
    let mut ty: u32 = nw.y;
    loop
        invariant
            w == range_cols(nw, se),
            h == range_rows(nw, se),
            nw.x <= se.x,
            nw.y <= ty <= se.y,
            tiles@.len() == (ty - nw.y) * w,
            forall|i: int| 0 <= i < tiles@.len() ==> #[trigger] tiles@[i] == range_tile(nw, se, i),
        decreases se.y - ty,
    {
        let mut tx: u32 = nw.x;
        loop
            invariant_except_break
                tiles@.len() == (ty - nw.y) * w + (tx - nw.x),
            invariant
                w == range_cols(nw, se),
                h == range_rows(nw, se),
                nw.x <= tx <= se.x,
                nw.y <= ty <= se.y,
                forall|i: int|
                    0 <= i < tiles@.len() ==> #[trigger] tiles@[i] == range_tile(nw, se, i),
            ensures
                tiles@.len() == (ty - nw.y) * w + w,
            decreases se.x - tx,
        {
            proof {
                crate::grid::lemma_cell_index(w, h, tx - nw.x, ty - nw.y);
            }
            tiles.push(TileCoord { z: nw.z, x: tx, y: ty });
            if tx == se.x {
                break;
            }
            tx = tx + 1;
        }
        proof {
            assert((ty - nw.y + 1) * w == (ty - nw.y) * w + w) by (nonlinear_arith);
        }
        if ty == se.y {
            proof {
                assert(h * w == w * h) by (nonlinear_arith);
            }
            return tiles;
        }
        ty = ty + 1;
    }
}

/// A range holds every tile between its corners, each once.
pub proof fn range_holds_each_tile_once(nw: TileCoord, se: TileCoord, t: TileCoord, i: int)
    requires
        t.z == nw.z,
        nw.x <= t.x <= se.x,
        nw.y <= t.y <= se.y,
        0 <= i < range_cols(nw, se) * range_rows(nw, se),
    ensures
        0 <= (t.y - nw.y) * range_cols(nw, se) + (t.x - nw.x) < range_cols(nw, se) * range_rows(
            nw,
            se,
        ),
        range_tile(nw, se, (t.y - nw.y) * range_cols(nw, se) + (t.x - nw.x)) == t,
        range_tile(nw, se, i) == t ==> i == (t.y - nw.y) * range_cols(nw, se) + (t.x - nw.x),
{
    let w = range_cols(nw, se);
    let h = range_rows(nw, se);
    crate::grid::lemma_cell_index(w, h, t.x - nw.x, t.y - nw.y);
    vstd::arithmetic::div_mod::lemma_fundamental_div_mod(i, w);
    assert(w * (i / w) == (i / w) * w) by (nonlinear_arith);
    assert(0 <= i / w < h) by (nonlinear_arith)
        requires
            0 <= i < w * h,
            i == w * (i / w) + i % w,
            0 <= i % w < w,
    ;
}

/// A range holds nothing but tiles of its zoom between its corners, and a range
/// whose corners are the wrong way round holds nothing.
pub proof fn range_tiles_lie_between_the_corners(nw: TileCoord, se: TileCoord, i: int)
    ensures
        nw.x > se.x || nw.y > se.y ==> range_cols(nw, se) * range_rows(nw, se) == 0,
        0 <= i < range_cols(nw, se) * range_rows(nw, se) ==> {
            let t = range_tile(nw, se, i);
            t.z == nw.z && nw.x <= t.x <= se.x && nw.y <= t.y <= se.y
        },
{
    let w = range_cols(nw, se);
    let h = range_rows(nw, se);
    assert(w == 0 || h == 0 ==> w * h == 0) by (nonlinear_arith);
    if 0 <= i < w * h {
        vstd::arithmetic::div_mod::lemma_fundamental_div_mod(i, w);
        vstd::arithmetic::div_mod::lemma_mod_bound(i, w);
        assert(0 <= i / w < h) by (nonlinear_arith)
            requires
                0 <= i < w * h,
                i == w * (i / w) + i % w,
                0 <= i % w < w,
        ;
    }
}

/// A range goes row by row from the north, and along each row from the west.
pub proof fn ranges_go_row_by_row(nw: TileCoord, se: TileCoord, i: int, j: int)
    requires
        0 <= i < j < range_cols(nw, se) * range_rows(nw, se),
    ensures
        ({
            let (a, b) = (range_tile(nw, se, i), range_tile(nw, se, j));
            a.y < b.y || (a.y == b.y && a.x < b.x)
        }),
{
    let w = range_cols(nw, se);
    range_tiles_lie_between_the_corners(nw, se, i);
    range_tiles_lie_between_the_corners(nw, se, j);
    assert(w == 0 ==> w * range_rows(nw, se) == 0) by (nonlinear_arith);
    vstd::arithmetic::div_mod::lemma_fundamental_div_mod(i, w);
    vstd::arithmetic::div_mod::lemma_fundamental_div_mod(j, w);
    vstd::arithmetic::div_mod::lemma_mod_bound(i, w);
    vstd::arithmetic::div_mod::lemma_mod_bound(j, w);
    vstd::arithmetic::div_mod::lemma_div_pos_is_pos(i, w);
    vstd::arithmetic::div_mod::lemma_div_pos_is_pos(j, w);
    assert(i / w < j / w || (i / w == j / w && i % w < j % w)) by (nonlinear_arith)
        requires
            i < j,
            i == w * (i / w) + i % w,
            j == w * (j / w) + j % w,
            0 <= i % w < w,
            0 <= j % w < w,
    ;
    assert(range_rows(nw, se) > 0) by (nonlinear_arith)
        requires
            0 <= i < w * range_rows(nw, se),
            0 < w,
            range_rows(nw, se) >= 0,
    ;
    assert(i / w < range_rows(nw, se) && j / w < range_rows(nw, se)) by (nonlinear_arith)
        requires
            0 <= i < j,
            j < w * range_rows(nw, se),
            i == w * (i / w) + i % w,
            j == w * (j / w) + j % w,
            0 <= i % w < w,
            0 <= j % w < w,
    ;
}

} // verus!
