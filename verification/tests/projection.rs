use amescii::app::App;
use amescii::basemap::{BaseLine, BaseLineKind, NameLabelJa};
use amescii::geo::{clamp_tile, GeoBBox, TileCoord};
use amescii::grid::{Grid, GridKind};
use amescii::ieee::{Double, Single};
use amescii::places::{
    cities, label_width, layout_city_labels, try_label_width, zoom_to_max_rank, PlaceLabel,
};
use amescii::radar::RadarFrame;
use amescii::render::braille::quantize;
use amescii::render::clip::{clip_step, ClipStep, Edge, Point};
use amescii::render::colormap::Rgb;
use amescii::render::lines::{rasterize_lines, PolyLine, Segment};
use amescii::render::DrawCell;
use amescii::ui::map::{color_for, layout_ja_labels, render_map, MapOp};
use core::f64::consts::PI;

fn d(x: f64) -> Double {
    Double::from_bits(x.to_bits())
}

fn g(x: Double) -> f64 {
    f64::from_bits(x.bits)
}

fn s(x: f32) -> Single {
    Single::from_bits(x.to_bits())
}

fn rect(a: f64, b: f64, c: f64, e: f64) -> GeoBBox {
    GeoBBox::new(d(a), d(b), d(c), d(e))
}

fn lonlat_to_pixel(lat: f64, lon: f64, z: u8) -> (f64, f64) {
    let world = (1u64 << z) as f64 * 256.0;
    let r = lat * PI / 180.0;
    (
        (lon + 180.0) / 360.0 * world,
        (1.0 - libm::log(libm::tan(r) + 1.0 / libm::cos(r)) / PI) / 2.0 * world,
    )
}

fn lonlat_to_tile(lat: f64, lon: f64, z: u8) -> TileCoord {
    let (px, py) = lonlat_to_pixel(lat, lon, z);
    TileCoord {
        z,
        x: clamp_tile(libm::floor(px / 256.0) as i128, z),
        y: clamp_tile(libm::floor(py / 256.0) as i128, z),
    }
}

fn project_norm(b: &GeoBBox, lat: f64, lon: f64) -> (f64, f64) {
    let (px, py) = lonlat_to_pixel(lat, lon, 12);
    let (x0, y0) = lonlat_to_pixel(g(b.max_lat), g(b.min_lon), 12);
    let (x1, y1) = lonlat_to_pixel(g(b.min_lat), g(b.max_lon), 12);
    ((px - x0) / (x1 - x0), (py - y0) / (y1 - y0))
}

fn lonlat_to_cell(b: &GeoBBox, lat: f64, lon: f64, cols: u16, rows: u16) -> Option<(u16, u16)> {
    if cols == 0 || rows == 0 {
        return None;
    }
    let (u, v) = project_norm(b, lat, lon);
    if !(0.0..=1.0).contains(&u) || !(0.0..=1.0).contains(&v) {
        return None;
    }
    let col = (u * cols as f64) as u16;
    let row = (v * rows as f64) as u16;
    if col >= cols || row >= rows {
        return None;
    }
    Some((col, row))
}

/// The part of a segment that is on the screen.
fn clip(a: (f64, f64), b: (f64, f64), max: (f64, f64)) -> Option<Segment> {
    let point = |p: (f64, f64)| Point { x: d(p.0), y: d(p.1) };
    let (mut a, mut b) = (a, b);
    loop {
        let crossing = |e: Edge| match e {
            Edge::Top => (a.0 + (b.0 - a.0) * (max.1 - a.1) / (b.1 - a.1), max.1),
            Edge::Bottom => (a.0 + (b.0 - a.0) * (0.0 - a.1) / (b.1 - a.1), 0.0),
            Edge::Right => (max.0, a.1 + (b.1 - a.1) * (max.0 - a.0) / (b.0 - a.0)),
            Edge::Left => (0.0, a.1 + (b.1 - a.1) * (0.0 - a.0) / (b.0 - a.0)),
        };
        match clip_step(point(a), point(b), point(max)) {
            ClipStep::Accept => {
                return Some(Segment {
                    x0: a.0 as i32,
                    y0: a.1 as i32,
                    x1: b.0 as i32,
                    y1: b.1 as i32,
                })
            }
            ClipStep::Reject => return None,
            ClipStep::MoveFirst(e) => a = crossing(e),
            ClipStep::MoveSecond(e) => b = crossing(e),
        }
    }
}

fn segments(points: &[(f64, f64)], b: &GeoBBox, cols: u16, rows: u16) -> Vec<Segment> {
    let (dx, dy) = (cols as f64 * 2.0, rows as f64 * 4.0);
    let at = |p: (f64, f64)| {
        let (u, v) = project_norm(b, p.0, p.1);
        (u * dx, v * dy)
    };
    points
        .windows(2)
        .filter_map(|w| clip(at(w[0]), at(w[1]), (dx - 1.0, dy - 1.0)))
        .collect()
}

fn draw_line(points: &[(f64, f64)], color: Rgb, b: &GeoBBox, cols: u16, rows: u16) -> Vec<DrawCell> {
    let segs = segments(points, b, cols, rows);
    let line = PolyLine { segments: &segs, color };
    rasterize_lines(&[line], cols, rows).into_iter().collect()
}

fn tables(width: u16, height: u16, cols: u16, rows: u16) -> (Vec<u16>, Vec<u16>) {
    let table = |dots: u16, size: u16| -> Vec<u16> {
        (0..dots)
            .map(|i| ((i as f32 / dots as f32).clamp(0.0, 0.999_999) * size as f32) as u16)
            .collect()
    };
    (table(cols * 2, width), table(rows * 4, height))
}

fn draw_rain(grid: &Grid, cols: u16, rows: u16) -> Vec<DrawCell> {
    let (xs, ys) = tables(grid.width, grid.height, cols, rows);
    quantize(grid, cols, rows, &xs, &ys).into_iter().collect()
}

fn city_cells(b: &GeoBBox, cols: u16, rows: u16) -> Vec<Option<(u16, u16)>> {
    cities()
        .iter()
        .map(|c| lonlat_to_cell(b, c.lat as f64 / 100.0, c.lon as f64 / 100.0, cols, rows))
        .collect()
}

fn labels(b: &GeoBBox, zoom: u8, cols: u16, rows: u16) -> Vec<PlaceLabel> {
    layout_city_labels(&city_cells(b, cols, rows), zoom).into_iter().collect()
}

fn find<'a>(labels: &'a [PlaceLabel], name_ja: &str) -> Option<&'a PlaceLabel> {
    labels.iter().find(|l| l.name == name_ja)
}

fn rank(name_ja: &str) -> u8 {
    cities().iter().find(|c| c.name_ja == name_ja).unwrap().rank
}

fn bbox() -> GeoBBox {
    rect(35.0, 139.0, 36.0, 140.0)
}

#[test]
fn zero_zoom_single_tile() {
    let t = lonlat_to_tile(35.68, 139.76, 0);
    assert_eq!(t.x, 0);
    assert_eq!(t.y, 0);
}

#[test]
fn greenwich_equator_midpoint() {
    let t = lonlat_to_tile(0.0, 0.0, 1);
    assert_eq!(t.x, 1);
    assert_eq!(t.y, 1);
}

#[test]
fn tokyo_tile_z8() {
    let t = lonlat_to_tile(35.681, 139.767, 8);
    assert_eq!(t.z, 8);
    assert!(t.x >= 226 && t.x <= 228, "x={}", t.x);
    assert!(t.y >= 99 && t.y <= 101, "y={}", t.y);
}

#[test]
fn bbox_range_orders_correctly() {
    let nw = lonlat_to_tile(36.0, 139.0, 8);
    let se = lonlat_to_tile(35.0, 140.0, 8);
    assert!(nw.x <= se.x);
    assert!(nw.y <= se.y);
}

#[test]
fn tiles_are_cut_to_those_that_exist() {
    assert_eq!(clamp_tile(-1, 3), 0);
    assert_eq!(clamp_tile(7, 3), 7);
    assert_eq!(clamp_tile(8, 3), 7);
    assert_eq!(clamp_tile(i128::MAX, 16), 65_535);
    assert_eq!(clamp_tile(i128::MAX, 40), u32::MAX - 1);
    assert_eq!(clamp_tile(1 << 63, 63), u32::MAX - 1);
    assert_eq!(clamp_tile(1 << 35, 40), u32::MAX);
}

#[test]
fn horizontal_line_lights_expected_row() {
    let bb = bbox();
    let mid_lat = 35.5;
    let cells = draw_line(
        &[(mid_lat, 139.05), (mid_lat, 139.95)],
        Rgb::new(90, 120, 150),
        &bb,
        20,
        10,
    );
    assert!(!cells.is_empty(), "水平線が1セルも出ないのは異常");

    let rows: Vec<u16> = cells.iter().map(|c| c.row).collect();
    let min_r = rows.iter().copied().min().unwrap();
    let max_r = rows.iter().copied().max().unwrap();
    assert!(max_r - min_r <= 1, "水平線が縦に散っている: {min_r}..{max_r}");
    assert!(min_r >= 3 && max_r <= 6, "row帯={min_r}..{max_r}");
}

#[test]
fn diagonal_is_connected() {
    let bb = bbox();
    let cells = draw_line(
        &[(35.95, 139.05), (35.05, 139.95)],
        Rgb::new(100, 100, 105),
        &bb,
        20,
        10,
    );
    assert!(cells.len() >= 5, "対角線のセルが少なすぎる: {}", cells.len());
    let mut sorted: Vec<(u16, u16)> = cells.iter().map(|c| (c.col, c.row)).collect();
    sorted.sort_unstable();
    for w in sorted.windows(2) {
        let dc = w[1].0 as i32 - w[0].0 as i32;
        assert!(dc <= 1, "col に飛び: {:?} -> {:?}", w[0], w[1]);
    }
}

#[test]
fn out_of_bbox_does_not_panic() {
    let bb = bbox();
    let cells = draw_line(
        &[(80.0, 10.0), (35.5, 139.5), (-80.0, 270.0)],
        Rgb::new(110, 95, 80),
        &bb,
        30,
        12,
    );
    let _ = cells.len();
}

#[test]
fn line_and_rain_share_projection() {
    let bb = bbox();
    let cols = 16u16;
    let rows = 8u16;
    let gw = cols * 2;
    let gh = rows * 4;

    let (lat, lon) = (35.62, 139.37);
    let (u, v) = project_norm(&bb, lat, lon);
    let dotx = (u * (cols as f64 * 2.0)) as u16;
    let doty = (v * (rows as f64 * 4.0)) as u16;

    let mut grid = Grid::new_zeroed(gw, gh, GridKind::PrecipMmH, bb).unwrap();
    grid.set(dotx, doty, s(50.0));
    let rain = draw_rain(&grid, cols, rows);
    assert_eq!(rain.len(), 1, "雨雲は1セルだけ点灯のはず");
    let rcell = (rain[0].col, rain[0].row);

    let lc = draw_line(&[(lat, lon), (lat, lon)], Rgb::new(90, 120, 150), &bb, cols, rows);
    assert!(!lc.is_empty(), "線が点灯しない");
    assert!(
        lc.iter().any(|c| (c.col, c.row) == rcell),
        "雨雲セル {:?} が線の点灯セルに無い: {:?}",
        rcell,
        lc.iter().map(|c| (c.col, c.row)).collect::<Vec<_>>()
    );
}

#[test]
fn tokyo_appears_zoom8() {
    let bbox = rect(35.0, 139.0, 36.4, 140.4);
    let labels = labels(&bbox, 8, 60, 30);
    let tokyo = find(&labels, "東京").expect("東京 should appear");
    assert!(tokyo.marker_col < 60 && tokyo.row < 30);
    assert_eq!(tokyo.col, tokyo.marker_col + 2);
    assert!(find(&labels, "千葉").is_some() || find(&labels, "さいたま").is_some());
}

#[test]
fn zoom3_only_rank0() {
    let bbox = GeoBBox::japan();
    let labels = labels(&bbox, 3, 120, 50);
    assert!(find(&labels, "東京").is_some());
    assert!(find(&labels, "大阪").is_some());
    assert!(find(&labels, "金沢").is_none());
    for l in labels.iter() {
        assert_eq!(rank(l.name), 0, "{} should be rank0", l.name);
    }
}

#[test]
fn zoom4_shows_rank1_but_not_rank2() {
    let bbox = GeoBBox::japan();
    let labels = labels(&bbox, 4, 120, 50);
    assert!(find(&labels, "札幌").is_some(), "rank1 の札幌は zoom4 で出る");
    assert!(find(&labels, "金沢").is_none(), "rank2 の金沢は zoom4 では出ない");
    for l in labels.iter() {
        assert!(rank(l.name) <= 1, "{} should be rank<=1", l.name);
    }
}

#[test]
fn zoom6_shows_rank2() {
    let bbox = rect(36.0, 136.0, 37.2, 137.4);
    let labels = labels(&bbox, 6, 80, 40);
    assert!(find(&labels, "金沢").is_some());
}

#[test]
fn offscreen_city_excluded() {
    let bbox = rect(35.4, 139.4, 35.9, 139.9);
    let labels = labels(&bbox, 9, 80, 40);
    assert!(find(&labels, "大阪").is_none());
}

#[test]
fn label_width_counts_display_cells() {
    assert_eq!(label_width("東京"), 6);
    assert_eq!(label_width("さいたま"), 10);
}

#[test]
fn higher_rank_wins_on_overlap() {
    let bbox = rect(35.3, 139.5, 35.8, 139.8);
    let labels = labels(&bbox, 8, 6, 3);
    if find(&labels, "東京").is_some() && find(&labels, "横浜").is_some() {
        let t = find(&labels, "東京").unwrap();
        let y = find(&labels, "横浜").unwrap();
        assert_ne!(t.row, y.row, "同行で衝突しているのに両方残っている");
    }
}

#[test]
fn projection_matches_rain() {
    let bbox = rect(35.0, 139.0, 36.4, 140.4);
    let cols = 60u16;
    let rows = 30u16;
    let labels = labels(&bbox, 8, cols, rows);
    let tokyo = find(&labels, "東京").unwrap();

    let (u, v) = project_norm(&bbox, 35.69, 139.69);
    let dotx = (u * cols as f64 * 2.0) as u16;
    let doty = (v * rows as f64 * 4.0) as u16;
    let mut grid = Grid::new_zeroed(cols * 2, rows * 4, GridKind::PrecipMmH, bbox).unwrap();
    grid.set(dotx, doty, s(50.0));
    let rain = draw_rain(&grid, cols, rows);
    assert_eq!(rain.len(), 1);
    assert_eq!((tokyo.marker_col, tokyo.row), (rain[0].col, rain[0].row));
}

#[test]
fn colliding_city_is_left_out() {
    let mut cells = vec![None; 47];
    cells[5] = Some((10, 4));
    cells[0] = Some((13, 4));
    cells[1] = Some((13, 5));
    let placed: Vec<&str> = layout_city_labels(&cells, 8).iter().map(|l| l.name).collect();
    assert_eq!(placed, vec!["東京", "大阪"]);
    // Six cells apart they do not touch.
    cells[5] = Some((7, 4));
    let placed: Vec<&str> = layout_city_labels(&cells, 8).iter().map(|l| l.name).collect();
    assert_eq!(placed, vec!["東京", "大阪", "横浜"]);
}

#[test]
fn ranks_by_zoom() {
    let ranks: Vec<u8> = (0..9).map(zoom_to_max_rank).collect();
    assert_eq!(ranks, vec![0, 0, 0, 0, 1, 1, 2, 2, 2]);
}

#[test]
fn city_coordinates() {
    let all = cities();
    assert_eq!(all.len(), 47);
    assert_eq!(all[0].lat as f64 / 100.0, 35.69);
    assert_eq!(all[0].lon as f64 / 100.0, 139.69);
    assert_eq!((all[46].name, all[46].name_ja), ("Kagoshima", "鹿児島"));
    assert_eq!(all[46].lat as f64 / 100.0, 31.56);
}

fn ja(text: &str) -> NameLabelJa {
    NameLabelJa {
        lat: d(0.0),
        lon: d(0.0),
        text: text.to_string(),
    }
}

#[test]
fn shorter_names_win() {
    let labels = vec![ja("丸の内二丁目"), ja("皇居"), ja("駅"), ja("海の上")];
    let cells = [Some((0, 0)), Some((3, 0)), Some((0, 1)), None];
    let placed = layout_ja_labels(&labels, &cells);
    let got: Vec<(usize, u16)> = placed.iter().map(|p| (p.label, p.width)).collect();
    assert_eq!(got, vec![(2, 2), (1, 4)]);
    // Forty at most.
    let many: Vec<NameLabelJa> = (0..50).map(|_| ja("橋")).collect();
    let cells: Vec<Option<(u16, u16)>> = (0..50).map(|i| Some((0, i))).collect();
    let placed = layout_ja_labels(&many, &cells);
    assert_eq!(placed.len(), 40);
    assert_eq!(placed[39].label, 39);
}

#[test]
fn long_names_have_their_place() {
    let long = "a".repeat(30_000);
    assert_eq!(label_width(&long), 30_002);
    assert_eq!(try_label_width(&long), Some(30_002));
    assert_eq!(try_label_width(&"a".repeat(65_533)), Some(65_535));
    assert_eq!(try_label_width(&"a".repeat(65_534)), None);
    let labels = vec![ja(&long), ja("駅"), ja(&"a".repeat(65_535))];
    let cells = [Some((0, 0)), Some((200, 0)), Some((0, 1))];
    let placed: Vec<usize> = layout_ja_labels(&labels, &cells).iter().map(|p| p.label).collect();
    assert_eq!(placed, vec![1, 2]);
}

#[test]
fn line_colors() {
    assert_eq!(color_for(BaseLineKind::Coastline), Rgb::new(90, 120, 150));
    assert_eq!(color_for(BaseLineKind::Boundary), Rgb::new(80, 80, 90));
    assert_eq!(color_for(BaseLineKind::Road), Rgb::new(110, 95, 80));
    assert_eq!(color_for(BaseLineKind::Railway), Rgb::new(100, 100, 105));
}

const COLS: u16 = 38;
const ROWS: u16 = 18;

const SENTINEL: DrawCell = DrawCell {
    col: 0,
    row: 0,
    braille: '⣿',
    fg: Rgb { r: 1, g: 2, b: 3 },
};

fn current_bbox(app: &App) -> GeoBBox {
    let world = 256.0 * (1u64 << app.zoom) as f64;
    let (lat, lon) = (g(app.center_lat), g(app.center_lon));
    let lon_span = 360.0 * (app.map_cols as f64 * 2.0) / world;
    let lat_span = 360.0 * (app.map_rows as f64 * 4.0) / world * lat.to_radians().cos();
    rect(
        lat - lat_span / 2.0,
        lon - lon_span / 2.0,
        lat + lat_span / 2.0,
        lon + lon_span / 2.0,
    )
}

fn frame(bbox: GeoBBox, dot: (u16, u16), valid_unix: u64) -> RadarFrame {
    let mut grid = Grid::new_zeroed(COLS * 2, ROWS * 4, GridKind::PrecipMmH, bbox).unwrap();
    grid.set(dot.0, dot.1, s(20.0));
    RadarFrame {
        valid_unix,
        is_forecast: false,
        grid: Box::new(grid),
    }
}

fn test_app() -> App {
    let mut app = App::new(d(30.0), d(145.0), 8, true);
    app.map_cols = COLS;
    app.map_rows = ROWS;
    let bbox = current_bbox(&app);
    let line = BaseLine {
        points: vec![(bbox.min_lat, bbox.min_lon), (bbox.max_lat, bbox.max_lon)],
        kind: BaseLineKind::Coastline,
    };
    app.set_basemap(vec![line]);
    app.set_frames(vec![frame(bbox, (10, 10), 1000), frame(bbox, (30, 30), 1600)]);
    app.frame_idx = 0;
    app
}

fn render_at(app: &mut App, cols: u16, rows: u16) -> Vec<MapOp> {
    let bbox = current_bbox(app);
    render_map(
        app,
        cols,
        rows,
        |line: &BaseLine| {
            let points: Vec<(f64, f64)> = line.points.iter().map(|p| (g(p.0), g(p.1))).collect();
            segments(&points, &bbox, cols, rows)
        },
        |w: u16, h: u16, c: u16, r: u16| tables(w, h, c, r),
        &city_cells(&bbox, cols, rows),
        |l: &NameLabelJa| lonlat_to_cell(&bbox, g(l.lat), g(l.lon), cols, rows),
    )
}

fn render(app: &mut App) -> Vec<MapOp> {
    render_at(app, COLS, ROWS)
}

#[test]
fn first_render_populates_cache() {
    let mut app = test_app();
    render(&mut app);
    assert_eq!(
        app.render_cache.basemap_key,
        Some(app.basemap_key(COLS, ROWS))
    );
    assert_eq!(app.render_cache.radar_key, Some(app.radar_key(COLS, ROWS)));
    assert!(!app.render_cache.basemap_cells.is_empty(), "地図線が立つ");
    assert!(!app.render_cache.radar_cells.is_empty(), "雨雲セルが立つ");
}

#[test]
fn idle_redraw_recomputes_nothing() {
    let mut app = test_app();
    render(&mut app);
    app.render_cache.basemap_cells = vec![SENTINEL];
    app.render_cache.radar_cells = vec![SENTINEL];

    render(&mut app);

    assert_eq!(app.render_cache.basemap_cells, vec![SENTINEL], "地図線は再計算されない");
    assert_eq!(app.render_cache.radar_cells, vec![SENTINEL], "雨雲は再計算されない");
}

#[test]
fn playback_keeps_basemap_cache_hot() {
    let mut app = test_app();
    render(&mut app);
    let basemap_key = app.render_cache.basemap_key.unwrap();
    let radar_key = app.render_cache.radar_key.unwrap();
    app.render_cache.basemap_cells = vec![SENTINEL];

    app.advance_play();
    let ops = render(&mut app);

    assert_eq!(app.render_cache.basemap_key, Some(basemap_key));
    assert_eq!(
        app.render_cache.basemap_cells,
        vec![SENTINEL],
        "コマ送りで地図線が再計算されている"
    );
    // The kept cell is what is put on the screen, in the first cell.
    assert!(ops.iter().any(|o| matches!(o, MapOp::Cell(c) if *c == SENTINEL && c.braille == '⣿')));
    assert_ne!(app.render_cache.radar_key, Some(radar_key));
    assert_ne!(app.render_cache.radar_cells, vec![SENTINEL]);
}

#[test]
fn pan_invalidates_basemap_cache() {
    let mut app = test_app();
    render(&mut app);
    app.render_cache.basemap_cells = vec![SENTINEL];

    let bbox = current_bbox(&app);
    let lon = g(app.center_lon) + 0.3 * (g(bbox.max_lon) - g(bbox.min_lon));
    let lat = app.center_lat;
    app.pan(lat, d(lon), d(lon - 360.0), d(lon + 360.0));
    render(&mut app);

    assert_ne!(
        app.render_cache.basemap_cells,
        vec![SENTINEL],
        "パン後も古い投影のセルを使い回している"
    );
}

#[test]
fn resize_invalidates_both_caches() {
    let mut app = test_app();
    render(&mut app);
    app.render_cache.basemap_cells = vec![SENTINEL];
    app.render_cache.radar_cells = vec![SENTINEL];

    app.map_cols = 30 - 2;
    app.map_rows = 14 - 2;
    render_at(&mut app, 28, 12);

    assert_ne!(app.render_cache.basemap_cells, vec![SENTINEL]);
    assert_ne!(app.render_cache.radar_cells, vec![SENTINEL]);
}

#[test]
fn new_radar_data_invalidates_cache() {
    let mut app = test_app();
    render(&mut app);
    let radar_key = app.render_cache.radar_key.unwrap();
    app.render_cache.radar_cells = vec![SENTINEL];

    let bbox = current_bbox(&app);
    app.set_frames(vec![frame(bbox, (10, 10), 2000), frame(bbox, (30, 30), 2600)]);
    app.frame_idx = 0;
    render(&mut app);

    assert_ne!(app.render_cache.radar_key, Some(radar_key), "版数で無効化される");
    assert_ne!(app.render_cache.radar_cells, vec![SENTINEL]);
}

#[test]
fn layers_lie_in_order() {
    let mut app = test_app();
    let ops = render(&mut app);
    let lines = app.render_cache.basemap_cells.len();
    let rain = app.render_cache.radar_cells.len();
    assert!(matches!(ops[0], MapOp::Clear));
    assert_eq!(ops.len(), 1 + lines + rain + 1);
    assert!(matches!(&ops[1], MapOp::Cell(c) if c.fg == Rgb::new(90, 120, 150)));
    assert!(matches!(&ops[1 + lines], MapOp::Cell(c) if c.fg == Rgb::new(0xFA, 0xF5, 0x00)));
    assert!(matches!(
        ops.last(),
        Some(MapOp::Center { col: 19, row: 9 })
    ));
    // Without rain only the lines are left.
    app.toggle_radar();
    assert_eq!(render(&mut app).len(), 1 + lines + 1);
    assert!(render_at(&mut app, 0, 5).is_empty());
    assert!(render_at(&mut app, 5, 0).is_empty());
}

#[test]
fn names_by_zoom() {
    let mut app = App::new(d(35.69), d(139.69), 8, true);
    app.map_cols = COLS;
    app.map_rows = ROWS;
    let names = |ops: Vec<MapOp>| -> Vec<String> {
        ops.into_iter()
            .filter_map(|o| match o {
                MapOp::Label { text, .. } => Some(text),
                _ => None,
            })
            .collect()
    };
    assert!(names(render(&mut app)).contains(&"東京".to_string()));
    app.zoom = 11;
    assert!(names(render(&mut app)).is_empty());
    app.name_labels_ja = Some(vec![NameLabelJa {
        lat: d(35.69),
        lon: d(139.69),
        text: "新宿".to_string(),
    }]);
    let ops = render(&mut app);
    assert!(matches!(
        ops.last(),
        Some(MapOp::Label { col: 19, row: 9, room: 19, text }) if text == "新宿"
    ));
}
