use amescii::geo::GeoBBox;
use amescii::grid::{Grid, GridKind};
use amescii::ieee::{Double, Single};
use amescii::render::braille::{braille_char, dot_bit, dot_on, quantize, value_to_rgb};
use amescii::render::clip::{clip_step, ClipStep, Edge, Point};
use amescii::render::colormap::{cloud_to_rgb, precip_legend, precip_to_rgb, Rgb};
use amescii::render::lines::{bresenham, rasterize_lines, PolyLine, Segment};
use amescii::storage::{GRID_MAX_H, GRID_MAX_W, MAX_CELLS};

fn s(x: f32) -> Single {
    Single::from_bits(x.to_bits())
}

fn f(x: Single) -> f32 {
    f32::from_bits(x.bits)
}

fn d(x: f64) -> Double {
    Double::from_bits(x.to_bits())
}

fn bbox() -> GeoBBox {
    GeoBBox::new(d(35.0), d(139.0), d(36.0), d(140.0))
}

/// The grid column or row nearest to each dot.
fn table(dots: u16, size: u16) -> Vec<u16> {
    (0..dots)
        .map(|g| {
            let u = g as f32 / dots as f32;
            (u.clamp(0.0, 0.999_999) * size as f32) as u16
        })
        .collect()
}

fn draw(grid: &Grid, cols: u16, rows: u16) -> Vec<amescii::render::DrawCell> {
    let xs = table(cols * 2, grid.width);
    let ys = table(rows * 4, grid.height);
    quantize(grid, cols, rows, &xs, &ys).into_iter().collect()
}

fn sample_nearest(grid: &Grid, u: f32, v: f32) -> f32 {
    let x = (u.clamp(0.0, 0.999_999) * grid.width as f32) as u16;
    let y = (v.clamp(0.0, 0.999_999) * grid.height as f32) as u16;
    f(grid.get_or_zero(x, y))
}

#[test]
fn create_and_access() {
    let mut g = Grid::new_zeroed(4, 3, GridKind::PrecipMmH, bbox()).unwrap();
    assert_eq!(g.get(0, 0), Some(s(0.0)));
    assert!(g.set(2, 1, s(5.5)));
    assert_eq!(g.get(2, 1), Some(s(5.5)));
    assert_eq!(g.get(4, 0), None);
}

#[test]
fn oversized_rejected() {
    let too_big = Grid::new_zeroed(
        GRID_MAX_W as u16,
        (GRID_MAX_H + 1) as u16,
        GridKind::CloudPct,
        bbox(),
    );
    assert!(too_big.is_none());
}

#[test]
fn empty_side_rejected_and_full_size_accepted() {
    assert!(Grid::new_zeroed(0, 5, GridKind::CloudPct, bbox()).is_none());
    assert!(Grid::new_zeroed(5, 0, GridKind::CloudPct, bbox()).is_none());
    let g = Grid::new_zeroed(256, 256, GridKind::CloudPct, bbox()).unwrap();
    assert_eq!(g.get(255, 255), Some(s(0.0)));
}

#[test]
fn set_outside_changes_nothing() {
    let mut g = Grid::new_zeroed(2, 2, GridKind::PrecipMmH, bbox()).unwrap();
    assert!(!g.set(2, 0, s(9.0)));
    assert!(!g.set(0, 2, s(9.0)));
    assert_eq!(f(g.max_value()), 0.0);
    assert_eq!(f(g.get_or_zero(7, 7)), 0.0);
}

#[test]
fn set_then_get_keeps_the_others() {
    let mut g = Grid::new_zeroed(3, 2, GridKind::PrecipMmH, bbox()).unwrap();
    g.set(0, 0, s(1.0));
    g.set(1, 1, s(2.0));
    assert_eq!(g.get(0, 0), Some(s(1.0)));
    assert_eq!(g.get(1, 1), Some(s(2.0)));
    assert_eq!(g.get(1, 0), Some(s(0.0)));
}

#[test]
fn nearest_sampling() {
    let mut g = Grid::new_zeroed(2, 2, GridKind::CloudPct, bbox()).unwrap();
    g.set(0, 0, s(1.0));
    g.set(1, 0, s(2.0));
    g.set(0, 1, s(3.0));
    g.set(1, 1, s(4.0));
    assert_eq!(sample_nearest(&g, 0.1, 0.1), 1.0);
    assert_eq!(sample_nearest(&g, 0.9, 0.1), 2.0);
    assert_eq!(sample_nearest(&g, 0.9, 0.9), 4.0);
}

#[test]
fn max_value_works() {
    let mut g = Grid::new_zeroed(3, 3, GridKind::PrecipMmH, bbox()).unwrap();
    g.set(1, 1, s(42.0));
    assert_eq!(f(g.max_value()), 42.0);
}

#[test]
fn max_value_of_least_numbers_is_zero() {
    let mut g = Grid::new_zeroed(1, 1, GridKind::PrecipMmH, bbox()).unwrap();
    g.set(0, 0, s(f32::MIN));
    assert_eq!(f(g.max_value()), 0.0);
    g.set(0, 0, s(f32::NAN));
    assert_eq!(f(g.max_value()), 0.0);
    g.set(0, 0, s(-3.0));
    assert_eq!(f(g.max_value()), -3.0);
}

#[test]
fn empty_grid_no_cells() {
    let g = Grid::new_zeroed(8, 8, GridKind::PrecipMmH, bbox()).unwrap();
    let cells = draw(&g, 4, 2);
    assert!(cells.is_empty(), "all-zero grid should draw nothing");
}

#[test]
fn full_rain_fills_cell() {
    let mut g = Grid::new_zeroed(2, 4, GridKind::PrecipMmH, bbox()).unwrap();
    for y in 0..4 {
        for x in 0..2 {
            g.set(x, y, s(50.0));
        }
    }
    let cells = draw(&g, 1, 1);
    assert_eq!(cells.len(), 1);
    assert_eq!(cells[0].braille, '⣿');
    assert_eq!(cells[0].fg, Rgb::new(0xFF, 0x28, 0x28));
}

#[test]
fn strongest_value_colors_the_cell() {
    let mut g = Grid::new_zeroed(2, 4, GridKind::PrecipMmH, bbox()).unwrap();
    g.set(0, 0, s(0.5));
    g.set(1, 3, s(25.0));
    let cells = draw(&g, 1, 1);
    assert_eq!(cells.len(), 1);
    assert_eq!(cells[0].braille, '\u{2881}');
    assert_eq!(cells[0].fg, Rgb::new(0xFA, 0xF5, 0x00));
    assert_eq!((cells[0].col, cells[0].row), (0, 0));
}

#[test]
fn drawing_is_cut_at_its_capacity() {
    let mut g = Grid::new_zeroed(1, 1, GridKind::CloudPct, bbox()).unwrap();
    g.set(0, 0, s(100.0));
    let cells = draw(&g, 200, 100);
    assert_eq!(cells.len(), MAX_CELLS);
    assert_eq!((cells[0].col, cells[0].row), (0, 0));
    assert_eq!((cells[11_999].col, cells[11_999].row), (199, 59));
}

#[test]
fn no_screen_no_cells() {
    let g = Grid::new_zeroed(1, 1, GridKind::CloudPct, bbox()).unwrap();
    assert!(draw(&g, 0, 5).is_empty());
    assert!(draw(&g, 5, 0).is_empty());
}

#[test]
fn dot_bit_mapping() {
    assert_eq!(dot_bit(0, 0), 0x01);
    assert_eq!(dot_bit(1, 3), 0x80);
    assert_eq!(dot_bit(0, 3), 0x40);
}

#[test]
fn other_dots_have_no_bit() {
    assert_eq!(dot_bit(2, 0), 0);
    assert_eq!(dot_bit(0, 4), 0);
    let mut all = 0;
    for dx in 0..2 {
        for dy in 0..4 {
            assert_eq!(all & dot_bit(dx, dy), 0);
            all |= dot_bit(dx, dy);
        }
    }
    assert_eq!(all, 0xFF);
}

#[test]
fn braille_codepoint() {
    assert_eq!(braille_char(0x00), '⠀');
    assert_eq!(braille_char(0xFF), '⣿');
    assert_eq!(braille_char(0x01), '⠁');
}

#[test]
fn cloud_kind_uses_cloud_threshold() {
    let mut g = Grid::new_zeroed(2, 4, GridKind::CloudPct, bbox()).unwrap();
    for y in 0..4 {
        for x in 0..2 {
            g.set(x, y, s(5.0));
        }
    }
    let cells = draw(&g, 1, 1);
    assert!(cells.is_empty());
}

#[test]
fn thresholds_are_those_of_the_scales() {
    assert!(dot_on(GridKind::PrecipMmH, s(0.1)));
    assert!(!dot_on(GridKind::PrecipMmH, s(0.099)));
    assert!(dot_on(GridKind::CloudPct, s(10.0)));
    assert!(!dot_on(GridKind::CloudPct, s(9.99)));
    assert!(!dot_on(GridKind::CloudPct, s(f32::NAN)));
    assert!(value_to_rgb(GridKind::PrecipMmH, s(0.1)).is_some());
    assert!(value_to_rgb(GridKind::CloudPct, s(10.0)).is_some());
    assert!(value_to_rgb(GridKind::CloudPct, s(9.0)).is_none());
}

#[test]
fn no_rain_is_none() {
    assert_eq!(precip_to_rgb(s(0.0)), None);
    assert_eq!(precip_to_rgb(s(0.05)), None);
}

#[test]
fn light_rain_light_blue() {
    assert_eq!(precip_to_rgb(s(0.5)), Some(Rgb::new(0xC0, 0xD8, 0xFF)));
}

#[test]
fn heavy_rain_red_then_purple() {
    assert_eq!(precip_to_rgb(s(60.0)), Some(Rgb::new(0xFF, 0x28, 0x28)));
    assert_eq!(precip_to_rgb(s(120.0)), Some(Rgb::new(0xB4, 0x00, 0xB4)));
}

#[test]
fn rain_bands() {
    let bands = [
        (0.1, (0xC0, 0xD8, 0xFF)),
        (1.0, (0x60, 0xA8, 0xFF)),
        (5.0, (0x21, 0x8C, 0xFF)),
        (10.0, (0x00, 0xC8, 0x00)),
        (20.0, (0xFA, 0xF5, 0x00)),
        (30.0, (0xFF, 0x99, 0x00)),
        (50.0, (0xFF, 0x28, 0x28)),
        (80.0, (0xB4, 0x00, 0xB4)),
    ];
    for (i, (from, (r, g, b))) in bands.iter().enumerate() {
        assert_eq!(precip_to_rgb(s(*from)), Some(Rgb::new(*r, *g, *b)));
        let below = if i == 0 {
            None
        } else {
            let (r, g, b) = bands[i - 1].1;
            Some(Rgb::new(r, g, b))
        };
        assert_eq!(precip_to_rgb(s(from * 0.999)), below);
    }
    assert_eq!(precip_to_rgb(s(f32::NAN)), Some(Rgb::new(0xB4, 0x00, 0xB4)));
}

#[test]
fn legend_tells_the_truth() {
    let labels = ["0.1", "1", "5", "10", "20", "30", "50", "80+"];
    for (entry, label) in precip_legend().iter().zip(labels) {
        assert_eq!(entry.label, label);
        assert_eq!(precip_to_rgb(entry.from), Some(entry.color));
    }
    assert_eq!(f(precip_legend()[7].from), 80.0);
}

#[test]
fn clear_sky_none() {
    assert_eq!(cloud_to_rgb(s(5.0)), None);
}

#[test]
fn overcast_dark() {
    assert_eq!(cloud_to_rgb(s(95.0)), Some(Rgb::new(0x5C, 0x62, 0x68)));
}

#[test]
fn cloud_bands() {
    assert_eq!(cloud_to_rgb(s(10.0)), Some(Rgb::new(0xD8, 0xDC, 0xE0)));
    assert_eq!(cloud_to_rgb(s(30.0)), Some(Rgb::new(0xAC, 0xB2, 0xB8)));
    assert_eq!(cloud_to_rgb(s(60.0)), Some(Rgb::new(0x84, 0x8A, 0x90)));
    assert_eq!(cloud_to_rgb(s(85.0)), Some(Rgb::new(0x5C, 0x62, 0x68)));
}

#[test]
fn line_dots() {
    assert_eq!(bresenham(2, 3, 2, 3), vec![(2, 3)]);
    assert_eq!(bresenham(0, 0, 3, 0), vec![(0, 0), (1, 0), (2, 0), (3, 0)]);
    assert_eq!(bresenham(0, 0, 4, 2), vec![(0, 0), (1, 1), (2, 1), (3, 2), (4, 2)]);
    assert_eq!(bresenham(0, 0, -1, -3), vec![(0, 0), (0, -1), (-1, -2), (-1, -3)]);
    let long = bresenham(5, 9, 31, -4);
    assert_eq!(long.len(), 27);
    assert_eq!(long[26], (31, -4));
    for w in long.windows(2) {
        assert!((w[1].0 - w[0].0).abs() <= 1 && (w[1].1 - w[0].1).abs() <= 1 && w[0] != w[1]);
    }
}

#[test]
fn later_line_colors_the_shared_cell() {
    let blue = Rgb::new(0, 0, 255);
    let red = Rgb::new(255, 0, 0);
    let first = [Segment { x0: 0, y0: 0, x1: 3, y1: 0 }];
    let second = [Segment { x0: 1, y0: 1, x1: 1, y1: 1 }];
    let lines = [
        PolyLine { segments: &first, color: blue },
        PolyLine { segments: &second, color: red },
    ];
    let cells: Vec<_> = rasterize_lines(&lines, 2, 1).into_iter().collect();
    assert_eq!(cells.len(), 2);
    assert_eq!(cells[0].fg, red);
    assert_eq!(cells[0].braille, braille_char(0x01 | 0x08 | 0x10));
    assert_eq!(cells[1].fg, blue);
    assert_eq!(cells[1].braille, braille_char(0x01 | 0x08));
}

#[test]
fn lists_of_lines_unite() {
    let one = [Segment { x0: 0, y0: 0, x1: 3, y1: 0 }];
    let two = [Segment { x0: 2, y0: 2, x1: 5, y1: 2 }];
    let draw = |segs: &[&[Segment]]| -> Vec<amescii::render::DrawCell> {
        let lines: Vec<PolyLine> = segs
            .iter()
            .enumerate()
            .map(|(i, s)| PolyLine { segments: s, color: Rgb::new(i as u8, segs.len() as u8, 0) })
            .collect();
        rasterize_lines(&lines, 3, 1).into_iter().collect()
    };
    let (a, b, ab) = (draw(&[&one]), draw(&[&two]), draw(&[&one, &two]));
    assert_eq!((a.len(), b.len(), ab.len()), (2, 2, 3));
    assert_eq!(ab[0].braille, a[0].braille);
    assert_eq!(ab[1].braille as u32, a[1].braille as u32 | b[0].braille as u32);
    assert_eq!(ab[2].braille, b[1].braille);
    assert_eq!((ab[0].fg.r, ab[1].fg.r, ab[2].fg.r), (0, 1, 1));
}

#[test]
fn dots_off_the_screen_are_ignored() {
    let segs = [Segment { x0: -5, y0: 2, x1: 20, y1: 2 }];
    let lines = [PolyLine { segments: &segs, color: Rgb::new(1, 1, 1) }];
    let cells = rasterize_lines(&lines, 3, 1);
    assert_eq!(cells.len(), 3);
    for c in cells.iter() {
        assert_eq!(c.braille, braille_char(0x04 | 0x20));
    }
}

#[test]
fn too_large_screens_stay_empty() {
    let segs = [Segment { x0: 0, y0: 0, x1: 5, y1: 5 }];
    let lines = [PolyLine { segments: &segs, color: Rgb::new(1, 1, 1) }];
    assert!(rasterize_lines(&lines, 200, 61).is_empty());
    assert!(!rasterize_lines(&lines, 200, 60).is_empty());
    assert!(rasterize_lines(&lines, 0, 10).is_empty());
    assert!(rasterize_lines(&lines, 10, 0).is_empty());
}

#[test]
fn clip_decisions() {
    let p = |x: f64, y: f64| Point { x: d(x), y: d(y) };
    let max = p(39.0, 39.0);
    assert_eq!(clip_step(p(0.0, 0.0), p(39.0, 39.0), max), ClipStep::Accept);
    assert_eq!(clip_step(p(-1.0, 5.0), p(-2.0, 50.0), max), ClipStep::Reject);
    assert_eq!(clip_step(p(50.0, 5.0), p(60.0, -5.0), max), ClipStep::Reject);
    assert_eq!(
        clip_step(p(-1.0, 50.0), p(5.0, 5.0), max),
        ClipStep::MoveFirst(Edge::Top)
    );
    assert_eq!(
        clip_step(p(50.0, -1.0), p(5.0, 5.0), max),
        ClipStep::MoveFirst(Edge::Bottom)
    );
    assert_eq!(
        clip_step(p(5.0, 5.0), p(50.0, 5.0), max),
        ClipStep::MoveSecond(Edge::Right)
    );
    assert_eq!(
        clip_step(p(5.0, 5.0), p(-0.5, 5.0), max),
        ClipStep::MoveSecond(Edge::Left)
    );
}
