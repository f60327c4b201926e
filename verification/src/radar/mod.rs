//! Rain radar: which images to fetch, and a grid of rain amounts made of them.

use image::GenericImageView;
use vstd::arithmetic::power2::pow2;
use vstd::prelude::*;
use vstd::string::StringExecFns;

use crate::error::SourceError;
use crate::geo::{tile_paths_differ, GeoBBox, TileCoord};
use crate::grid::{lemma_cell_index, zero, Grid, GridKind};
use crate::ieee::Single;
use crate::radar::timeline::{
    frame_models, select_frame_specs, time_models, timeline, FrameSpec, TargetTime,
};
use crate::storage::GRID_CAP;
use crate::text::{lemma_bytes_after, lemma_cut, lemma_strip, text_after, text_order_after};

pub mod timeline;

verus! {

/// Radar images exist up to this zoom; beyond it those of this zoom are
/// stretched.
pub const RADAR_MAX_ZOOM: u8 = 10;

/// The zoom of the radar images for a map zoom.
pub fn radar_zoom(zoom: u8) -> (z: u8)
    ensures
        z == if zoom <= RADAR_MAX_ZOOM {
            zoom
        } else {
            RADAR_MAX_ZOOM
        },
{
    if zoom <= RADAR_MAX_ZOOM {
        zoom
    } else {
        RADAR_MAX_ZOOM
    }
}

/// A radar frame: its time, and the rain at that time.
pub struct RadarFrame {
    /// The time it shows, in seconds from the start of 1970.
    pub valid_unix: u64,
    pub is_forecast: bool,
    pub grid: Box<Grid>,
}

/// A class of the radar's colours: the colour, and the amount of rain in mm/h
/// that it stands for.
#[derive(Clone, Copy, PartialEq, Eq, Debug, Structural)]
pub struct RainClass {
    pub r: u8,
    pub g: u8,
    pub b: u8,
    pub mmh: Single,
}

/// The classes of the radar's colours: 0.5, 2, 7, 15, 25, 40, 65, 100 and 100
/// mm/h.
pub open spec fn rain_class(k: int) -> RainClass {
    if k == 0 {
        RainClass { r: 0xF2, g: 0xF2, b: 0xFF, mmh: Single { bits: 0x3F00_0000 } }
    } else if k == 1 {
        RainClass { r: 0xB2, g: 0xD2, b: 0xFF, mmh: Single { bits: 0x4000_0000 } }
    } else if k == 2 {
        RainClass { r: 0x66, g: 0xB3, b: 0xFF, mmh: Single { bits: 0x40E0_0000 } }
    } else if k == 3 {
        RainClass { r: 0x33, g: 0x99, b: 0xFF, mmh: Single { bits: 0x4170_0000 } }
    } else if k == 4 {
        RainClass { r: 0xFA, g: 0xF5, b: 0x00, mmh: Single { bits: 0x41C8_0000 } }
    } else if k == 5 {
        RainClass { r: 0xFF, g: 0x99, b: 0x00, mmh: Single { bits: 0x4220_0000 } }
    } else if k == 6 {
        RainClass { r: 0xFF, g: 0x40, b: 0x00, mmh: Single { bits: 0x4282_0000 } }
    } else if k == 7 {
        RainClass { r: 0xB2, g: 0x00, b: 0x4C, mmh: Single { bits: 0x42C8_0000 } }
    } else {
        RainClass { r: 0xB4, g: 0x00, b: 0xB4, mmh: Single { bits: 0x42C8_0000 } }
    }
}

/// How many classes there are.
pub const RAIN_CLASSES: usize = 9;

/// Colours farther than this from every class, by the square of the distance,
/// stand for no rain.
pub const MAX_COLOR_DISTANCE: i32 = 12_000;

/// The square of the distance of a colour from a class.
pub open spec fn color_distance(r: u8, g: u8, b: u8, k: int) -> int {
    let c = rain_class(k);
    (r - c.r) * (r - c.r) + (g - c.g) * (g - c.g) + (b - c.b) * (b - c.b)
}

/// The class nearest to a colour, the first of several.
pub open spec fn nearest_class(r: u8, g: u8, b: u8, k: int) -> bool {
    &&& 0 <= k < RAIN_CLASSES
    &&& forall|j: int|
        0 <= j < RAIN_CLASSES ==> color_distance(r, g, b, k) <= #[trigger] color_distance(r, g, b, j)
    &&& forall|j: int|
        0 <= j < k ==> color_distance(r, g, b, k) < #[trigger] color_distance(r, g, b, j)
}

/// The amount of rain that a colour stands for: that of the nearest class, or
/// 0 if that is too far.
pub open spec fn rain_amount(r: u8, g: u8, b: u8) -> Single {
    let k = choose|k: int| #[trigger] nearest_class(r, g, b, k);
    if color_distance(r, g, b, k) > MAX_COLOR_DISTANCE {
        zero()
    } else {
        rain_class(k).mmh
    }
}

/// A class of the radar's colours.
fn class_at(k: usize) -> (c: RainClass)
    requires
        k < RAIN_CLASSES,
    ensures
        c == rain_class(k as int),
{
    match k {
        0 => RainClass { r: 0xF2, g: 0xF2, b: 0xFF, mmh: Single::from_bits(0x3F00_0000) },
        1 => RainClass { r: 0xB2, g: 0xD2, b: 0xFF, mmh: Single::from_bits(0x4000_0000) },
        2 => RainClass { r: 0x66, g: 0xB3, b: 0xFF, mmh: Single::from_bits(0x40E0_0000) },
        3 => RainClass { r: 0x33, g: 0x99, b: 0xFF, mmh: Single::from_bits(0x4170_0000) },
        4 => RainClass { r: 0xFA, g: 0xF5, b: 0x00, mmh: Single::from_bits(0x41C8_0000) },
        5 => RainClass { r: 0xFF, g: 0x99, b: 0x00, mmh: Single::from_bits(0x4220_0000) },
        6 => RainClass { r: 0xFF, g: 0x40, b: 0x00, mmh: Single::from_bits(0x4282_0000) },
        7 => RainClass { r: 0xB2, g: 0x00, b: 0x4C, mmh: Single::from_bits(0x42C8_0000) },
        _ => RainClass { r: 0xB4, g: 0x00, b: 0xB4, mmh: Single::from_bits(0x42C8_0000) },
    }
}

/// The square of the difference of two bytes.
fn square_diff(a: u8, b: u8) -> (s: i32)
    ensures
        s == (a - b) * (a - b),
        0 <= s <= 65_025,
{
    let d: i32 = a as i32 - b as i32;
    proof {
        assert(0 <= d * d <= 255 * 255) by (nonlinear_arith)
            requires
                -255 <= d <= 255,
        ;
    }
    d * d
}

/// The amount of rain, in mm/h, that a colour of a radar image stands for.
pub fn jma_color_to_precip(r: u8, g: u8, b: u8) -> (mmh: Single)
    ensures
        mmh == rain_amount(r, g, b),
        exists|k: int| nearest_class(r, g, b, k),
{
    let mut best: usize = 0;
    let mut best_d: i32 = i32::MAX;
    let mut k: usize = 0;
    while k < RAIN_CLASSES
        invariant
            k <= RAIN_CLASSES,
            k == 0 ==> best_d == i32::MAX,
            k > 0 ==> best < k && best_d == color_distance(r, g, b, best as int),
            forall|j: int| 0 <= j < k ==> best_d <= #[trigger] color_distance(r, g, b, j),
            forall|j: int| 0 <= j < best ==> best_d < #[trigger] color_distance(r, g, b, j),
        decreases RAIN_CLASSES - k,
    {
        let c = class_at(k);
        let d: i32 = square_diff(r, c.r) + square_diff(g, c.g) + square_diff(b, c.b);
        assert(d == color_distance(r, g, b, k as int));
        if d < best_d {
            best_d = d;
            best = k;
        }
        k = k + 1;
    }
    proof {
        assert(nearest_class(r, g, b, best as int));
        let chosen = choose|k: int| #[trigger] nearest_class(r, g, b, k);
        assert(color_distance(r, g, b, chosen) == color_distance(r, g, b, best as int));
        assert(chosen == best);
    }
    if best_d > MAX_COLOR_DISTANCE {
        Single::from_bits(0)
    } else {
        class_at(best).mmh
    }
}

proof fn lemma_square(x: int)
    ensures
        x * x >= 0,
        x * x == 0 <==> x == 0,
{
    assert(x * x >= 0) by (nonlinear_arith);
    assert(x != 0 ==> x * x > 0) by (nonlinear_arith);
}

/// A distance is 0 exactly for the colour of the class, and never negative.
proof fn lemma_color_distance(r: u8, g: u8, b: u8, k: int)
    ensures
        color_distance(r, g, b, k) >= 0,
        color_distance(r, g, b, k) == 0 <==> r == rain_class(k).r && g == rain_class(k).g && b
            == rain_class(k).b,
{
    lemma_square(r - rain_class(k).r);
    lemma_square(g - rain_class(k).g);
    lemma_square(b - rain_class(k).b);
}

/// The colour of a class stands for the amount of that class.
pub proof fn class_colors_stand_for_their_amount(k: int)
    requires
        0 <= k < RAIN_CLASSES,
    ensures
        rain_amount(rain_class(k).r, rain_class(k).g, rain_class(k).b) == rain_class(k).mmh,
{
    let c = rain_class(k);
    assert forall|j: int| 0 <= j < RAIN_CLASSES implies (#[trigger] color_distance(c.r, c.g, c.b, j)
        == 0 <==> j == k) && color_distance(c.r, c.g, c.b, j) >= 0 by {
        lemma_color_distance(c.r, c.g, c.b, j);
    }
    assert(nearest_class(c.r, c.g, c.b, k));
    let chosen = choose|n: int| #[trigger] nearest_class(c.r, c.g, c.b, n);
    assert(color_distance(c.r, c.g, c.b, chosen) <= color_distance(c.r, c.g, c.b, k));
}

/// A picture: its size, and its pixels row by row, red, green, blue and opacity
/// each.
pub struct TileImage {
    pub width: u32,
    pub height: u32,
    pub pixels: Vec<[u8; 4]>,
}

impl TileImage {
    /// One pixel for each place.
    pub open spec fn wf(self) -> bool {
        self.pixels@.len() == self.width * self.height
    }
}

/// Width, height and pixels that the bytes of a picture stand for; none if the
/// bytes are no picture.
pub uninterp spec fn decoded_image(bytes: Seq<u8>) -> Option<(u32, u32, Seq<[u8; 4]>)>;

/// `image::load_from_memory_with_format`: reads the bytes of a picture in the
/// PNG format, which radar tiles have. The pixels come from
/// `GenericImageView::pixels`, one for each place, row by row. The result
/// depends on the bytes alone.
#[verifier::external_body]
fn load_image(bytes: &[u8]) -> (image: Option<TileImage>)
    ensures
        decoded_image(bytes@) == match image {
            Some(i) => Some((i.width, i.height, i.pixels@)),
            None => None,
        },
        image matches Some(i) ==> i.pixels@.len() == i.width * i.height,
{
    match image::load_from_memory_with_format(bytes, image::ImageFormat::Png) {
        Ok(img) => Some(
            TileImage {
                width: img.width(),
                height: img.height(),
                pixels: img.pixels().map(|p| p.2.0).collect(),
            },
        ),
        Err(_) => None,
    }
}

/// The picture in the bytes of a radar tile; none if they are no picture.
pub fn tile_image(bytes: &[u8]) -> (image: Option<TileImage>)
    ensures
        decoded_image(bytes@) == match image {
            Some(i) => Some((i.width, i.height, i.pixels@)),
            None => None,
        },
        image matches Some(i) ==> i.wf(),
{
    load_image(bytes)
}

/// The rain that a pixel stands for: none where it is transparent, or where its
/// colour stands for no rain.
pub open spec fn pixel_rain(p: [u8; 4]) -> Option<Single> {
    let mmh = rain_amount(p[0], p[1], p[2]);
    if p[3] == 0 || mmh.at_most(zero()) {
        None
    } else {
        Some(mmh)
    }
}

/// The values of a grid `width` cells wide when the first `n` pixels of a
/// picture have been painted on it. `cols` and `rows` give the grid column of
/// each pixel column and the grid row of each pixel row, none off the grid. A
/// cell keeps the largest amount.
pub open spec fn painted(
    values: Seq<Single>,
    width: int,
    image_width: int,
    pixels: Seq<[u8; 4]>,
    cols: Seq<Option<u16>>,
    rows: Seq<Option<u16>>,
    n: nat,
) -> Seq<Single>
    decreases n,
{
    if n == 0 {
        values
    } else {
        let before = painted(values, width, image_width, pixels, cols, rows, (n - 1) as nat);
        match target(width, image_width, pixels, cols, rows, n - 1) {
            Some((cell, mmh)) => if before[cell].below(mmh) {
                before.update(cell, mmh)
            } else {
                before
            },
            None => before,
        }
    }
}

/// The number of the cell that a pixel falls on, and the rain that it brings.
pub open spec fn target(
    width: int,
    image_width: int,
    pixels: Seq<[u8; 4]>,
    cols: Seq<Option<u16>>,
    rows: Seq<Option<u16>>,
    i: int,
) -> Option<(int, Single)> {
    match (pixel_rain(pixels[i]), cols[i % image_width], rows[i / image_width]) {
        (Some(mmh), Some(cx), Some(cy)) => Some((cy * width + cx, mmh)),
        _ => None,
    }
}

/// Whether all entries of a table are below `n`.
pub open spec fn entries_below(table: Seq<Option<u16>>, n: int) -> bool {
    forall|i: int| 0 <= i < table.len() ==> ((#[trigger] table[i]) matches Some(v) ==> v < n)
}

/// The rain of a pixel.
fn rain_of(p: [u8; 4]) -> (mmh: Option<Single>)
    ensures
        mmh == pixel_rain(p),
{
    if p[3] == 0 {
        return None;
    }
    let mmh = jma_color_to_precip(p[0], p[1], p[2]);
    if mmh.le(Single::from_bits(0)) {
        None
    } else {
        Some(mmh)
    }
}

/// Paints the picture of a tile on a grid. `cols` and `rows` give the grid
/// column of each pixel column and the grid row of each pixel row, none off the
/// grid. Where several pixels fall on one cell, the largest amount stays.
pub fn paint_tile(grid: &mut Grid, image: &TileImage, cols: &[Option<u16>], rows: &[Option<u16>])
    requires
        old(grid).wf(),
        image.wf(),
        cols@.len() == image.width,
        rows@.len() == image.height,
        entries_below(cols@, old(grid).width as int),
        entries_below(rows@, old(grid).height as int),
    ensures
        final(grid).wf(),
        final(grid).width == old(grid).width,
        final(grid).height == old(grid).height,
        final(grid).kind == old(grid).kind,
        final(grid).bbox == old(grid).bbox,
        final(grid).values() == painted(
            old(grid).values(),
            old(grid).width as int,
            image.width as int,
            image.pixels@,
            cols@,
            rows@,
            image.pixels@.len(),
        ),
{
    let ghost before = grid.values();
    let total: usize = image.pixels.len();
    let mut i: usize = 0;
    let mut iy: u32 = 0;
    while iy < image.height
        invariant
            iy <= image.height,
            i == iy * image.width,
            i <= image.pixels@.len() == total,
            image.wf(),
            cols@.len() == image.width,
            rows@.len() == image.height,
            entries_below(cols@, grid.width as int),
            entries_below(rows@, grid.height as int),
            before == old(grid).values(),
            grid.wf(),
            grid.width == old(grid).width,
            grid.height == old(grid).height,
            grid.kind == old(grid).kind,
            grid.bbox == old(grid).bbox,
            grid.values() == painted(
                before,
                grid.width as int,
                image.width as int,
                image.pixels@,
                cols@,
                rows@,
                i as nat,
            ),
        decreases image.height - iy,
    {
        let mut ix: u32 = 0;
        proof {
            assert((iy + 1) * image.width == iy * image.width + image.width) by (nonlinear_arith);
            assert((iy + 1) * image.width <= image.height * image.width) by (nonlinear_arith)
                requires
                    iy + 1 <= image.height,
                    0 <= image.width,
            ;
            assert(image.height * image.width == image.width * image.height) by (nonlinear_arith);
        }
        while ix < image.width
            invariant
                ix <= image.width,
                iy < image.height,
                i == iy * image.width + ix,
                iy * image.width + image.width <= image.pixels@.len() == total,
                image.wf(),
                cols@.len() == image.width,
                rows@.len() == image.height,
                entries_below(cols@, grid.width as int),
                entries_below(rows@, grid.height as int),
                before == old(grid).values(),
                grid.wf(),
                grid.width == old(grid).width,
                grid.height == old(grid).height,
                grid.kind == old(grid).kind,
                grid.bbox == old(grid).bbox,
                grid.values() == painted(
                    before,
                    grid.width as int,
                    image.width as int,
                    image.pixels@,
                    cols@,
                    rows@,
                    i as nat,
                ),
            decreases image.width - ix,
        {
            proof {
                lemma_cell_index(image.width as int, image.height as int, ix as int, iy as int);
            }
            if let Some(mmh) = rain_of(image.pixels[i]) {
                if let Some(cx) = cols[ix as usize] {
                    if let Some(cy) = rows[iy as usize] {
                        proof {
                            assert(cols@[ix as int] == Some(cx));
                            assert(rows@[iy as int] == Some(cy));
                            lemma_cell_index(
                                grid.width as int,
                                grid.height as int,
                                cx as int,
                                cy as int,
                            );
                        }
                        if let Some(cur) = grid.get(cx, cy) {
                            if cur.lt(mmh) {
                                grid.set(cx, cy, mmh);
                            }
                        }
                    }
                }
            }
            i = i + 1;
            ix = ix + 1;
        }
        iy = iy + 1;
    }
    proof {
        assert(image.height * image.width == image.width * image.height) by (nonlinear_arith);
    }
}

/// A cell of a painted grid has the largest amount: none that was there or
/// that a pixel brings exceeds it, and it is one of these.
pub proof fn cell_keeps_the_largest(
    values: Seq<Single>,
    width: int,
    image_width: int,
    pixels: Seq<[u8; 4]>,
    cols: Seq<Option<u16>>,
    rows: Seq<Option<u16>>,
    n: nat,
    cell: int,
)
    requires
        0 <= cell < values.len(),
        forall|i: int|
            0 <= i < n ==> ((#[trigger] target(
                width,
                image_width,
                pixels,
                cols,
                rows,
                i,
            )) matches Some((c, _)) ==> 0 <= c < values.len()),
    ensures
        ({
            let after = painted(values, width, image_width, pixels, cols, rows, n);
            &&& after.len() == values.len()
            &&& !after[cell].below(values[cell])
            &&& forall|i: int|
                0 <= i < n ==> ((#[trigger] target(
                    width,
                    image_width,
                    pixels,
                    cols,
                    rows,
                    i,
                )) matches Some((c, mmh)) ==> c == cell ==> !after[cell].below(mmh))
            &&& after[cell] == values[cell] || exists|i: int|
                0 <= i < n && #[trigger] target(width, image_width, pixels, cols, rows, i) == Some(
                    (cell, after[cell]),
                )
            &&& (after[cell] == values[cell] || (!after[cell].nan() && values[cell].below(
                after[cell],
            )))
        }),
    decreases n,
{
    if n > 0 {
        let m = (n - 1) as nat;
        cell_keeps_the_largest(values, width, image_width, pixels, cols, rows, m, cell);
        let before = painted(values, width, image_width, pixels, cols, rows, m);
        let after = painted(values, width, image_width, pixels, cols, rows, n);
        if before[cell] != values[cell] {
            let i = choose|i: int|
                0 <= i < m && #[trigger] target(width, image_width, pixels, cols, rows, i) == Some(
                    (cell, before[cell]),
                );
            assert(target(width, image_width, pixels, cols, rows, i) == Some((cell, before[cell])));
        }
        match target(width, image_width, pixels, cols, rows, n - 1) {
            Some((c, mmh)) => {
                if c == cell && before[cell].below(mmh) {
                    assert(after[cell] == mmh);
                } else {
                    assert(after[cell] == before[cell]);
                }
            },
            None => {},
        }
    }
}

/// A tile of a frame: its picture, unless it could not be had, and the grid
/// columns and rows of its pixels.
pub struct FrameTile {
    pub image: Option<TileImage>,
    pub cols: Vec<Option<u16>>,
    pub rows: Vec<Option<u16>>,
}

impl FrameTile {
    /// The tables have an entry for each column and row of the picture, and
    /// name cells of a grid of the given size.
    pub open spec fn fits(self, width: u16, height: u16) -> bool {
        self.image matches Some(i) ==> {
            &&& i.wf()
            &&& self.cols@.len() == i.width
            &&& self.rows@.len() == i.height
            &&& entries_below(self.cols@, width as int)
            &&& entries_below(self.rows@, height as int)
        }
    }
}

/// The values of a frame's grid when its first `n` tiles have been painted:
/// zeros at first, and a tile without a picture changes nothing.
pub open spec fn frame_values(tiles: Seq<FrameTile>, width: int, height: int, n: nat) -> Seq<Single>
    decreases n,
{
    if n == 0 {
        Seq::new((width * height) as nat, |i: int| zero())
    } else {
        let before = frame_values(tiles, width, height, (n - 1) as nat);
        match tiles[n - 1].image {
            Some(i) => painted(
                before,
                width,
                i.width as int,
                i.pixels@,
                tiles[n - 1].cols@,
                tiles[n - 1].rows@,
                i.pixels@.len(),
            ),
            None => before,
        }
    }
}

/// The grid of a frame, painted from its tiles. An empty or too large grid is
/// an error.
pub fn frame_grid(width: u16, height: u16, bbox: GeoBBox, tiles: &[FrameTile]) -> (r: Result<
    Box<Grid>,
    SourceError,
>)
    requires
        forall|i: int| 0 <= i < tiles@.len() ==> (#[trigger] tiles@[i]).fits(width, height),
    ensures
        r is Err <==> width == 0 || height == 0 || width * height > GRID_CAP,
        r matches Err(e) ==> e == SourceError::GridTooLarge,
        r matches Ok(g) ==> {
            &&& g.wf()
            &&& g.width == width
            &&& g.height == height
            &&& g.kind == GridKind::PrecipMmH
            &&& g.bbox == bbox
            &&& g.values() == frame_values(
                tiles@,
                width as int,
                height as int,
                tiles@.len(),
            )
        },
{
    let mut grid = match Grid::new_zeroed(width, height, GridKind::PrecipMmH, bbox) {
        Some(g) => Box::new(g),
        None => {
            return Err(SourceError::GridTooLarge);
        },
    };
    let mut k: usize = 0;
    while k < tiles.len()
        invariant
            k <= tiles@.len(),
            forall|i: int| 0 <= i < tiles@.len() ==> (#[trigger] tiles@[i]).fits(width, height),
            grid.wf(),
            grid.width == width,
            grid.height == height,
            grid.kind == GridKind::PrecipMmH,
            grid.bbox == bbox,
            grid.values() == frame_values(tiles@, width as int, height as int, k as nat),
        decreases tiles@.len() - k,
    {
        let tile = &tiles[k];
        proof {
            assert(tiles@[k as int].fits(width, height));
        }
        if let Some(image) = &tile.image {
            paint_tile(&mut grid, image, tile.cols.as_slice(), tile.rows.as_slice());
        }
        k = k + 1;
    }
    Ok(grid)
}

/// The address of a radar tile.
pub open spec fn radar_url(base: Seq<char>, valid: Seq<char>, t: TileCoord) -> Seq<char> {
    "https://www.jma.go.jp/bosai/jmatile/data/nowc/"@ + (base + "/none/"@ + (valid
        + "/surf/hrpns/"@ + t.path(".png"@)))
}

/// The address of a radar tile: of the image computed at `basetime` that shows
/// `validtime`.
pub fn radar_tile_url(basetime: &str, validtime: &str, t: TileCoord) -> (url: String)
    ensures
        url@ == radar_url(basetime@, validtime@, t),
{
    let mut url = "https://www.jma.go.jp/bosai/jmatile/data/nowc/".to_owned();
    url.append(basetime);
    url.append("/none/");
    url.append(validtime);
    url.append("/surf/hrpns/");
    t.append_path(&mut url, ".png");
    proof {
        assert(url@ =~= radar_url(basetime@, validtime@, t));
    }
    url
}

/// Different radar tiles have different addresses: none of another time is
/// ever taken for one in the cache.
pub proof fn radar_urls_differ(
    base1: Seq<char>,
    valid1: Seq<char>,
    t1: TileCoord,
    base2: Seq<char>,
    valid2: Seq<char>,
    t2: TileCoord,
)
    requires
        !base1.contains('/'),
        !valid1.contains('/'),
        !base2.contains('/'),
        !valid2.contains('/'),
        radar_url(base1, valid1, t1) == radar_url(base2, valid2, t2),
    ensures
        base1 == base2,
        valid1 == valid2,
        t1 == t2,
{
    let v1 = valid1 + "/surf/hrpns/"@ + t1.path(".png"@);
    let v2 = valid2 + "/surf/hrpns/"@ + t2.path(".png"@);
    assert("/none/"@.len() > 0 && "/none/"@[0] == '/' && "/surf/hrpns/"@.len() > 0
        && "/surf/hrpns/"@[0] == '/') by {
        reveal_strlit("/none/");
        reveal_strlit("/surf/hrpns/");
    }
    lemma_strip(
        "https://www.jma.go.jp/bosai/jmatile/data/nowc/"@,
        base1 + "/none/"@ + v1,
        base2 + "/none/"@ + v2,
    );
    lemma_cut(base1, "/none/"@, v1, base2, v2);
    lemma_cut(valid1, "/surf/hrpns/"@, t1.path(".png"@), valid2, t2.path(".png"@));
    tile_paths_differ(t1, t2, ".png"@);
}

/// The last of the announced images that show the latest time.
pub open spec fn is_latest(times: Seq<TargetTime>, k: int) -> bool {
    &&& 0 <= k < times.len()
    &&& forall|i: int|
        0 <= i < times.len() ==> !text_order_after(
            (#[trigger] times[i]).validtime@,
            times[k].validtime@,
        )
    &&& forall|i: int|
        k < i < times.len() ==> text_order_after(
            times[k].validtime@,
            (#[trigger] times[i]).validtime@,
        )
}

/// The number of the last of the announced images that show the latest time,
/// by the order of the texts; none if nothing is announced.
pub fn latest_time(times: &[TargetTime]) -> (k: Option<usize>)
    ensures
        k is None <==> times@.len() == 0,
        k matches Some(k) ==> is_latest(times@, k as int),
{
    if times.len() == 0 {
        return None;
    }
    let mut best: usize = 0;
    let mut i: usize = 1;
    proof {
        lemma_bytes_after(times@[0].validtime@, times@[0].validtime@, times@[0].validtime@);
    }
    while i < times.len()
        invariant
            best < i <= times@.len(),
            forall|k: int|
                0 <= k < i ==> !text_order_after(
                    (#[trigger] times@[k]).validtime@,
                    times@[best as int].validtime@,
                ),
            forall|k: int|
                best < k < i ==> text_order_after(
                    times@[best as int].validtime@,
                    (#[trigger] times@[k]).validtime@,
                ),
        decreases times@.len() - i,
    {
        let ghost was = best as int;
        if !text_after(times[best].validtime.as_str(), times[i].validtime.as_str()) {
            proof {
                assert forall|k: int| 0 <= k <= i implies !text_order_after(
                    (#[trigger] times@[k]).validtime@,
                    times@[i as int].validtime@,
                ) by {
                    lemma_bytes_after(
                        times@[k].validtime@,
                        times@[was].validtime@,
                        times@[i as int].validtime@,
                    );
                }
            }
            best = i;
        } else {
            proof {
                lemma_bytes_after(
                    times@[i as int].validtime@,
                    times@[was].validtime@,
                    times@[i as int].validtime@,
                );
            }
        }
        i = i + 1;
    }
    Some(best)
}

/// The images of the timeline; an error if there is none.
pub fn plan_timeline(n1: &[TargetTime], n2: &[TargetTime], max_frames: usize) -> (r: Result<
    Vec<FrameSpec>,
    SourceError,
>)
    ensures
        ({
            let t = timeline(time_models(n1@), time_models(n2@), max_frames as int);
            match r {
                Ok(frames) => t.len() > 0 && frame_models(frames@) == t,
                Err(e) => t.len() == 0 && e == SourceError::NoTargetTime,
            }
        }),
{
    let frames = select_frame_specs(n1, n2, max_frames);
    if frames.len() == 0 {
        Err(SourceError::NoTargetTime)
    } else {
        Ok(frames)
    }
}

/// Whether a pixel is opaque, and its colour stands for `mmh`, more than 0.
pub open spec fn rains(p: [u8; 4], mmh: Single) -> bool {
    p[3] != 0 && mmh == rain_amount(p[0], p[1], p[2]) && !mmh.at_most(Single { bits: 0 })
}

/// Whether the pixel in column `ix` and row `iy` of a picture brings `mmh` to
/// the grid cell in column `x` of row `y`.
pub open spec fn brings(
    image_width: int,
    image_height: int,
    pixels: Seq<[u8; 4]>,
    cols: Seq<Option<u16>>,
    rows: Seq<Option<u16>>,
    ix: int,
    iy: int,
    x: u16,
    y: u16,
    mmh: Single,
) -> bool {
    &&& 0 <= ix < image_width
    &&& 0 <= iy < image_height
    &&& cols[ix] == Some(x)
    &&& rows[iy] == Some(y)
    &&& rains(pixels[iy * image_width + ix], mmh)
}

/// Rain falls where it belongs: when a picture has been painted on a grid, the
/// value that the grid has in column `x` of row `y` is the one it had, or more
/// and brought by a pixel whose tables name that column and that row; and it is
/// not below what any such pixel brings. So no other cell changes.
pub proof fn rain_falls_on_its_cell(
    before: Grid,
    after: Grid,
    image: TileImage,
    cols: Seq<Option<u16>>,
    rows: Seq<Option<u16>>,
    x: u16,
    y: u16,
)
    requires
        before.wf(),
        after.wf(),
        after.width == before.width,
        after.height == before.height,
        image.wf(),
        cols.len() == image.width,
        rows.len() == image.height,
        entries_below(cols, before.width as int),
        entries_below(rows, before.height as int),
        after.values() == painted(
            before.values(),
            before.width as int,
            image.width as int,
            image.pixels@,
            cols,
            rows,
            image.pixels@.len(),
        ),
        x < before.width,
        y < before.height,
    ensures
        after.at(x as int, y as int) matches Some(v) && before.at(x as int, y as int) matches Some(
            was,
        ) && {
            &&& v == was || was.below(v) && exists|ix: int, iy: int| #[trigger]
                brings(
                    image.width as int,
                    image.height as int,
                    image.pixels@,
                    cols,
                    rows,
                    ix,
                    iy,
                    x,
                    y,
                    v,
                )
            &&& forall|ix: int, iy: int, mmh: Single| #[trigger]
                brings(
                    image.width as int,
                    image.height as int,
                    image.pixels@,
                    cols,
                    rows,
                    ix,
                    iy,
                    x,
                    y,
                    mmh,
                ) ==> !v.below(mmh)
        },
{
    let (gw, gh) = (before.width as int, before.height as int);
    let (w, h) = (image.width as int, image.height as int);
    let pixels = image.pixels@;
    let n = pixels.len();
    let cell = y * gw + x;
    lemma_cell_index(gw, gh, x as int, y as int);
    assert forall|i: int| 0 <= i < n implies ((#[trigger] target(gw, w, pixels, cols, rows, i)) matches Some(
        (c, _),
    ) ==> 0 <= c < before.values().len()) by {
        lemma_pixel_place(w, h, i);
        if let Some((c, _)) = target(gw, w, pixels, cols, rows, i) {
            lemma_cell_index(
                gw,
                gh,
                cols[i % w]->0 as int,
                rows[i / w]->0 as int,
            );
        }
    }
    cell_keeps_the_largest(before.values(), gw, w, pixels, cols, rows, n, cell);
    let v = after.values()[cell];
    if v != before.values()[cell] {
        let i = choose|i: int|
            0 <= i < n && #[trigger] target(gw, w, pixels, cols, rows, i) == Some((cell, v));
        lemma_pixel_place(w, h, i);
        let (cx, cy) = (cols[i % w]->0, rows[i / w]->0);
        lemma_cell_index(gw, gh, cx as int, cy as int);
        assert(cx == x && cy == y);
        assert(brings(w, h, pixels, cols, rows, i % w, i / w, x, y, v));
    }
    assert forall|ix: int, iy: int, mmh: Single| #[trigger]
        brings(w, h, pixels, cols, rows, ix, iy, x, y, mmh) implies !v.below(mmh) by {
        lemma_cell_index(w, h, ix, iy);
        assert(target(gw, w, pixels, cols, rows, iy * w + ix) == Some((cell, mmh)));
    }
}

/// Column and row of a pixel by its number.
proof fn lemma_pixel_place(w: int, h: int, i: int)
    requires
        0 <= i < w * h,
        0 <= w,
        0 <= h,
    ensures
        0 < w,
        0 <= i % w < w,
        0 <= i / w < h,
        (i / w) * w + i % w == i,
{
    assert(w > 0) by (nonlinear_arith)
        requires
            0 <= i < w * h,
            0 <= w,
            0 <= h,
    ;
    vstd::arithmetic::div_mod::lemma_fundamental_div_mod(i, w);
    assert(w * (i / w) == (i / w) * w) by (nonlinear_arith);
    assert(0 <= i / w < h) by (nonlinear_arith)
        requires
            0 <= i < w * h,
            i == w * (i / w) + i % w,
            0 <= i % w < w,
    ;
}

/// Whether the tile number `t` of a frame brings `mmh` to the cell in column `x`
/// of row `y`.
pub open spec fn tile_brings(
    tiles: Seq<FrameTile>,
    t: int,
    ix: int,
    iy: int,
    x: u16,
    y: u16,
    mmh: Single,
) -> bool {
    &&& 0 <= t < tiles.len()
    &&& tiles[t].image matches Some(i) && brings(
        i.width as int,
        i.height as int,
        i.pixels@,
        tiles[t].cols@,
        tiles[t].rows@,
        ix,
        iy,
        x,
        y,
        mmh,
    )
}

/// A frame shows the rain of its tiles: the value of its grid in column `x` of
/// row `y` is 0, or what a pixel of one of the tiles brings there; and it is not
/// below what any pixel of any tile brings there.
pub proof fn frame_shows_the_rain_of_its_tiles(
    tiles: Seq<FrameTile>,
    grid: Grid,
    n: nat,
    x: u16,
    y: u16,
)
    requires
        grid.wf(),
        n <= tiles.len(),
        forall|i: int| 0 <= i < tiles.len() ==> (#[trigger] tiles[i]).fits(grid.width, grid.height),
        grid.values() == frame_values(tiles, grid.width as int, grid.height as int, n),
        x < grid.width,
        y < grid.height,
    ensures
        grid.at(x as int, y as int) matches Some(v) && {
            &&& v == (Single { bits: 0 }) || exists|t: int, ix: int, iy: int|
                t < n && #[trigger] tile_brings(tiles, t, ix, iy, x, y, v)
            &&& forall|t: int, ix: int, iy: int, mmh: Single|
                t < n && #[trigger] tile_brings(tiles, t, ix, iy, x, y, mmh) ==> !v.below(mmh)
        },
{
    lemma_cell_index(grid.width as int, grid.height as int, x as int, y as int);
    lemma_frame(tiles, grid.width, grid.height, n, x, y);
}

proof fn lemma_frame(tiles: Seq<FrameTile>, width: u16, height: u16, n: nat, x: u16, y: u16)
    requires
        n <= tiles.len(),
        forall|i: int| 0 <= i < tiles.len() ==> (#[trigger] tiles[i]).fits(width, height),
        x < width,
        y < height,
    ensures
        ({
            let values = frame_values(tiles, width as int, height as int, n);
            let v = values[y * width + x];
            &&& values.len() == width * height
            &&& v == (Single { bits: 0 }) || exists|t: int, ix: int, iy: int|
                t < n && #[trigger] tile_brings(tiles, t, ix, iy, x, y, v)
            &&& !v.nan()
            &&& forall|t: int, ix: int, iy: int, mmh: Single|
                t < n && #[trigger] tile_brings(tiles, t, ix, iy, x, y, mmh) ==> !v.below(mmh)
        }),
    decreases n,
{
    let (gw, gh) = (width as int, height as int);
    let cell = y * gw + x;
    lemma_cell_index(gw, gh, x as int, y as int);
    if n > 0 {
        let m = (n - 1) as nat;
        lemma_frame(tiles, width, height, m, x, y);
        let was = frame_values(tiles, gw, gh, m);
        let now = frame_values(tiles, gw, gh, n);
        assert(tiles[m as int].fits(width, height));
        if was[cell] != (Single { bits: 0 }) {
            let (t, ix, iy) = choose|t: int, ix: int, iy: int|
                t < m && #[trigger] tile_brings(tiles, t, ix, iy, x, y, was[cell]);
            assert(tile_brings(tiles, t, ix, iy, x, y, was[cell]));
        }
        if let Some(image) = tiles[m as int].image {
            let (w, h) = (image.width as int, image.height as int);
            let pixels = image.pixels@;
            let (cols, rows) = (tiles[m as int].cols@, tiles[m as int].rows@);
            assert forall|i: int| 0 <= i < pixels.len() implies ((#[trigger] target(
                gw,
                w,
                pixels,
                cols,
                rows,
                i,
            )) matches Some((c, _)) ==> 0 <= c < was.len()) by {
                lemma_pixel_place(w, h, i);
                if let Some((c, _)) = target(gw, w, pixels, cols, rows, i) {
                    lemma_cell_index(gw, gh, cols[i % w]->0 as int, rows[i / w]->0 as int);
                }
            }
            cell_keeps_the_largest(was, gw, w, pixels, cols, rows, pixels.len(), cell);
            let v = now[cell];
            if v != was[cell] {
                let i = choose|i: int|
                    0 <= i < pixels.len() && #[trigger] target(gw, w, pixels, cols, rows, i) == Some(
                        (cell, v),
                    );
                lemma_pixel_place(w, h, i);
                let (cx, cy) = (cols[i % w]->0, rows[i / w]->0);
                lemma_cell_index(gw, gh, cx as int, cy as int);
                assert(tile_brings(tiles, m as int, i % w, i / w, x, y, v));
            }
            assert forall|t: int, ix: int, iy: int, mmh: Single|
                t < n && #[trigger] tile_brings(tiles, t, ix, iy, x, y, mmh) implies !v.below(
                mmh,
            ) by {
                if t == m {
                    lemma_cell_index(w, h, ix, iy);
                    assert(target(gw, w, pixels, cols, rows, iy * w + ix) == Some((cell, mmh)));
                } else {
                    assert(!was[cell].below(mmh));
                }
            }
        }
    } else {
        assert((Single { bits: 0 }).raw() == 0);
    }
}

/// A colour stands for the amount of the nearest class: where a class is not
/// farther from the colour than any other, by the sum of the squares of the
/// differences in red, green and blue, and than every earlier one nearer, the
/// amount is that of the class, or 0 if the sum exceeds 12000.
pub proof fn colors_stand_for_the_nearest_class(r: u8, g: u8, b: u8, k: int)
    requires
        0 <= k < 9,
        forall|j: int|
            0 <= j < 9 ==> square_sum(r, g, b, rain_class(k)) <= square_sum(
                r,
                g,
                b,
                #[trigger] rain_class(j),
            ),
        forall|j: int|
            0 <= j < k ==> square_sum(r, g, b, rain_class(k)) < square_sum(
                r,
                g,
                b,
                #[trigger] rain_class(j),
            ),
    ensures
        rain_amount(r, g, b) == if square_sum(r, g, b, rain_class(k)) > 12_000 {
            Single { bits: 0 }
        } else {
            rain_class(k).mmh
        },
{
    assert forall|j: int| 0 <= j < 9 implies #[trigger] color_distance(r, g, b, j) == square_sum(
        r,
        g,
        b,
        rain_class(j),
    ) by {}
    assert(nearest_class(r, g, b, k));
    let chosen = choose|n: int| #[trigger] nearest_class(r, g, b, n);
    assert(color_distance(r, g, b, chosen) == color_distance(r, g, b, k));
    if chosen < k {
        assert(color_distance(r, g, b, k) < color_distance(r, g, b, chosen));
    } else if k < chosen {
        assert(color_distance(r, g, b, chosen) < color_distance(r, g, b, k));
    }
}

/// The sum of the squares of the differences between a colour and a class.
pub open spec fn square_sum(r: u8, g: u8, b: u8, c: RainClass) -> int {
    (r - c.r) * (r - c.r) + (g - c.g) * (g - c.g) + (b - c.b) * (b - c.b)
}

/// A transparent pixel brings nothing, nor does one whose colour stands for 0;
/// every other brings the amount of its colour.
pub proof fn pixels_bring_the_amount_of_their_color(p: [u8; 4])
    ensures
        p[3] == 0 ==> pixel_rain(p) is None,
        rain_amount(p[0], p[1], p[2]) == (Single { bits: 0 }) ==> pixel_rain(p) is None,
        forall|mmh: Single| #[trigger] rains(p, mmh) <==> pixel_rain(p) == Some(mmh),
{
}

/// The classes of the radar's colours, with twice their amounts of rain in
/// millimetres per hour.
pub open spec fn radar_scale() -> Seq<(u8, u8, u8, nat)> {
    seq![
        (0xF2u8, 0xF2u8, 0xFFu8, 1nat),
        (0xB2u8, 0xD2u8, 0xFFu8, 4nat),
        (0x66u8, 0xB3u8, 0xFFu8, 14nat),
        (0x33u8, 0x99u8, 0xFFu8, 30nat),
        (0xFAu8, 0xF5u8, 0x00u8, 50nat),
        (0xFFu8, 0x99u8, 0x00u8, 80nat),
        (0xFFu8, 0x40u8, 0x00u8, 130nat),
        (0xB2u8, 0x00u8, 0x4Cu8, 200nat),
        (0xB4u8, 0x00u8, 0xB4u8, 200nat),
    ]
}

/// The colours of the radar stand for their amounts, and a class of a higher number
/// never for less.
pub proof fn radar_colors_stand_for_their_amounts(k: int, l: int)
    requires
        0 <= k <= l < 9,
    ensures
        ({
            let (r, g, b, twice) = radar_scale()[k];
            let (r2, g2, b2, _) = radar_scale()[l];
            &&& 2 * rain_amount(r, g, b).value() == twice * pow2(149)
            &&& rain_amount(r, g, b).value() <= rain_amount(r2, g2, b2).value()
        }),
{
    lemma_radar_class(k);
    lemma_radar_class(l);
    class_colors_stand_for_their_amount(k);
    class_colors_stand_for_their_amount(l);
    assert(k == 0 || k == 1 || k == 2 || k == 3 || k == 4 || k == 5 || k == 6 || k == 7 || k == 8);
    assert(l == 0 || l == 1 || l == 2 || l == 3 || l == 4 || l == 5 || l == 6 || l == 7 || l == 8);
    let (m, n) = (radar_scale()[k].3, radar_scale()[l].3);
    assert(m <= n);
    assert(m * pow2(149) <= n * pow2(149)) by (nonlinear_arith)
        requires
            m <= n,
    ;
}

proof fn lemma_radar_class(k: int)
    requires
        0 <= k < 9,
    ensures
        rain_class(k).r == radar_scale()[k].0,
        rain_class(k).g == radar_scale()[k].1,
        rain_class(k).b == radar_scale()[k].2,
        2 * rain_class(k).mmh.value() == radar_scale()[k].3 * pow2(149),
{
    vstd::arithmetic::power2::lemma2_to64();
    let twice = radar_scale()[k].3;
    let unit = pow2(149);
    if k == 0 {
        vstd::arithmetic::power2::lemma_pow2_unfold(149);
        (Single { bits: 0x3F00_0000 }).whole(1, 126, 0, 23);
        assert(twice * unit == 1 * unit) by (nonlinear_arith)
            requires
                twice == 1,
        ;
    } else if k == 1 {
        (Single { bits: 0x4000_0000 }).whole(2, 128, 0, 22);
        assert(twice * unit == 4 * unit) by (nonlinear_arith)
            requires
                twice == 4,
        ;
    } else if k == 2 {
        (Single { bits: 0x40E0_0000 }).whole(7, 129, 0x60_0000, 21);
        assert(twice * unit == 14 * unit) by (nonlinear_arith)
            requires
                twice == 14,
        ;
    } else if k == 3 {
        (Single { bits: 0x4170_0000 }).whole(15, 130, 0x70_0000, 20);
        assert(twice * unit == 30 * unit) by (nonlinear_arith)
            requires
                twice == 30,
        ;
    } else if k == 4 {
        (Single { bits: 0x41C8_0000 }).whole(25, 131, 0x48_0000, 19);
        assert(twice * unit == 50 * unit) by (nonlinear_arith)
            requires
                twice == 50,
        ;
    } else if k == 5 {
        (Single { bits: 0x4220_0000 }).whole(40, 132, 0x20_0000, 18);
        assert(twice * unit == 80 * unit) by (nonlinear_arith)
            requires
                twice == 80,
        ;
    } else if k == 6 {
        (Single { bits: 0x4282_0000 }).whole(65, 133, 0x02_0000, 17);
        assert(twice * unit == 130 * unit) by (nonlinear_arith)
            requires
                twice == 130,
        ;
    } else {
        (Single { bits: 0x42C8_0000 }).whole(100, 133, 0x48_0000, 17);
        assert(twice * unit == 200 * unit) by (nonlinear_arith)
            requires
                twice == 200,
        ;
    }
}

/// Radar images end at zoom 10, and a grid has room for 256 values each way and no
/// more than those of a square of that side.
pub proof fn radar_images_end_at_zoom_ten(zoom: u8, w: int, h: int)
    requires
        0 <= w <= 256,
        0 <= h <= 256,
    ensures
        zoom <= RADAR_MAX_ZOOM <==> zoom < 11,
        w * h <= GRID_CAP,
        256 * 256 == GRID_CAP,
{
    assert(w * h <= 256 * 256) by (nonlinear_arith)
        requires
            0 <= w <= 256,
            0 <= h <= 256,
    ;
}

} // verus!
