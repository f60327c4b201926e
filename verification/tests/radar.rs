use amescii::calendar::{days_from_civil, validtime_to_unix};
use amescii::error::SourceError;
use amescii::geo::{GeoBBox, TileCoord};
use amescii::grid::{Grid, GridKind};
use amescii::ieee::Single;
use amescii::radar::timeline::{select_frame_specs, TargetTime, NOWCAST_FRAMES};
use amescii::radar::{
    frame_grid, jma_color_to_precip, latest_time, paint_tile, plan_timeline, radar_tile_url,
    radar_zoom, tile_image, FrameTile, TileImage,
};

fn f(x: Single) -> f32 {
    f32::from_bits(x.bits)
}

fn s(x: f32) -> Single {
    Single::from_bits(x.to_bits())
}

fn tt(validtime: &str) -> TargetTime {
    TargetTime {
        basetime: validtime.to_string(),
        validtime: validtime.to_string(),
    }
}

#[test]
fn maps_known_colors() {
    let v = f(jma_color_to_precip(0xFA, 0xF5, 0x00));
    assert!(v >= 20.0, "yellow → {}", v);
    let v2 = f(jma_color_to_precip(0xF2, 0xF2, 0xFF));
    assert!(v2 > 0.0 && v2 < 5.0, "pale → {}", v2);
}

#[test]
fn rejects_far_colors() {
    let v = f(jma_color_to_precip(0x00, 0x80, 0x00));
    assert_eq!(v, 0.0);
}

#[test]
fn every_class_stands_for_its_amount() {
    let table = [
        (0xF2, 0xF2, 0xFF, 0.5),
        (0xB2, 0xD2, 0xFF, 2.0),
        (0x66, 0xB3, 0xFF, 7.0),
        (0x33, 0x99, 0xFF, 15.0),
        (0xFA, 0xF5, 0x00, 25.0),
        (0xFF, 0x99, 0x00, 40.0),
        (0xFF, 0x40, 0x00, 65.0),
        (0xB2, 0x00, 0x4C, 100.0),
        (0xB4, 0x00, 0xB4, 100.0),
    ];
    for (r, g, b, mmh) in table {
        assert_eq!(f(jma_color_to_precip(r, g, b)), mmh);
    }
    // Next to a class is that class.
    assert_eq!(f(jma_color_to_precip(0xFC, 0xF0, 0x05)), 25.0);
}

#[test]
fn validtime_parses_known_epoch() {
    assert_eq!(validtime_to_unix("19700101000000"), Some(0));
    assert_eq!(validtime_to_unix("20000101000000"), Some(946_684_800));
    assert_eq!(validtime_to_unix("20260628123000"), Some(1_782_649_800));
    assert_eq!(validtime_to_unix("2026"), None);
    assert_eq!(validtime_to_unix("2026XX28123000"), None);
    assert_eq!(validtime_to_unix("20261328000000"), None);
}

#[test]
fn validtime_is_monotonic() {
    let a = validtime_to_unix("20260628120000").unwrap();
    let b = validtime_to_unix("20260628120500").unwrap();
    assert_eq!(b - a, 300);
}

#[test]
fn later_times_across_days() {
    let t = |s: &str| validtime_to_unix(s).unwrap();
    assert_eq!(t("20261231235959") + 1, t("20270101000000"));
    assert_eq!(t("20240228235900") + 60, t("20240229000000"));
    assert_eq!(t("20230228235959") + 1, t("20230301000000"));
    assert!(t("20260628115959") < t("20260628120000"));
}

#[test]
fn validtime_parts_in_range() {
    assert_eq!(validtime_to_unix("20260600000000"), None);
    assert_eq!(validtime_to_unix("20260632000000"), None);
    assert_eq!(validtime_to_unix("20260628240000"), None);
    assert_eq!(validtime_to_unix("20260628006000"), None);
    assert_eq!(validtime_to_unix("20260628000061"), None);
    assert!(validtime_to_unix("20260628000060").is_some());
    assert_eq!(validtime_to_unix("19691231235959"), None);
    // What follows the fourteen digits does not count.
    assert_eq!(validtime_to_unix("19700101000001Z"), Some(1));
    assert_eq!(validtime_to_unix("２0260628000000"), None);
}

#[test]
fn days_are_counted_as_in_the_calendar() {
    assert_eq!(days_from_civil(1970, 1, 1), 0);
    assert_eq!(days_from_civil(1969, 12, 31), -1);
    assert_eq!(days_from_civil(2000, 2, 29), 11_016);
    assert_eq!(days_from_civil(2000, 3, 1), 11_017);
    assert_eq!(days_from_civil(1900, 3, 1) - days_from_civil(1900, 2, 28), 1);
    assert_eq!(days_from_civil(0, 3, 1), -719_468);
    assert_eq!(days_from_civil(-1, 1, 1), -719_893);
    // Any day whose number fits.
    assert_eq!(days_from_civil(1970, 1, i64::MAX), i64::MAX - 1);
    assert_eq!(days_from_civil(20_000_000_000_001_970, 1, 1), 20_000_000_000_000_000 / 400 * 146_097);
}

#[test]
fn select_orders_and_caps() {
    let n1: Vec<TargetTime> = [
        "20260628120000",
        "20260628115500",
        "20260628115000",
        "20260628114500",
        "20260628114000",
        "20260628113500",
        "20260628113000",
        "20260628112500",
    ]
    .iter()
    .map(|s| tt(s))
    .collect();
    let n2: Vec<TargetTime> = [
        "20260628120500",
        "20260628121000",
        "20260628121500",
        "20260628122000",
        "20260628122500",
        "20260628123000",
    ]
    .iter()
    .map(|s| tt(s))
    .collect();

    let specs = select_frame_specs(&n1, &n2, 13);
    assert!(!specs.is_empty());
    assert!(specs.len() <= 13);
    for w in specs.windows(2) {
        assert!(w[0].valid_unix <= w[1].valid_unix, "not ascending");
    }
    let obs = specs.iter().filter(|s| !s.is_forecast).count();
    assert!(obs <= NOWCAST_FRAMES, "obs={obs}");
    let last_obs = specs
        .iter()
        .filter(|s| !s.is_forecast)
        .map(|s| s.valid_unix)
        .max()
        .unwrap();
    for f in specs.iter().filter(|s| s.is_forecast) {
        assert!(f.valid_unix > last_obs, "forecast not after obs");
    }
    // The last six observed, and every other forecast.
    let times: Vec<&str> = specs.iter().map(|s| &s.validtime[8..12]).collect();
    assert_eq!(
        times,
        vec!["1135", "1140", "1145", "1150", "1155", "1200", "1205", "1215", "1225"]
    );
    // What is too much is dropped at the front.
    let short = select_frame_specs(&n1, &n2, 4);
    let times: Vec<&str> = short.iter().map(|s| &s.validtime[8..12]).collect();
    assert_eq!(times, vec!["1200", "1205", "1215", "1225"]);
    assert!(select_frame_specs(&n1, &n2, 0).is_empty());
}

#[test]
fn select_survives_no_forecast() {
    let n1: Vec<TargetTime> = ["20260628120000", "20260628115500"]
        .iter()
        .map(|s| tt(s))
        .collect();
    let specs = select_frame_specs(&n1, &[], 13);
    assert_eq!(specs.len(), 2);
    assert!(specs.iter().all(|s| !s.is_forecast));
}

#[test]
fn observed_times_are_not_repeated() {
    let n1 = [tt("20260628120000"), tt("20260628120000")];
    assert_eq!(select_frame_specs(&n1, &[], 13).len(), 1);
}

#[test]
fn announced_order_does_not_matter() {
    let n1 = [tt("20260628120000"), tt("20260628115500"), tt("20260628115000")];
    let n2 = [tt("20260628120500"), tt("20260628121000"), tt("20260628121500")];
    let m1 = [tt("x"), tt("20260628115000"), tt("20260628120000"), tt("20260628115500")];
    let m2 = [tt("20260628121500"), tt("20260628120500"), tt(""), tt("20260628121000")];
    let times = |a: &[TargetTime], b: &[TargetTime]| -> Vec<String> {
        select_frame_specs(a, b, 13).into_iter().map(|s| s.validtime).collect()
    };
    assert_eq!(times(&n1, &n2), times(&m1, &m2));
    assert_eq!(times(&n1, &n2).len(), 5);
}

#[test]
fn forecast_times_are_not_repeated() {
    let twice = |v: &str, base: &str| TargetTime {
        basetime: base.to_string(),
        validtime: v.to_string(),
    };
    let n2 = [
        twice("20260628120500", "a"),
        twice("20260628120500", "b"),
        twice("20260628120500", "c"),
        twice("20260628121000", "d"),
    ];
    let specs = select_frame_specs(&[], &n2, 13);
    assert_eq!(specs.len(), 1);
    assert_eq!(specs[0].basetime, "a");
    assert!(specs[0].is_forecast);
    // What cannot be read is passed over.
    assert!(select_frame_specs(&[tt("soon")], &[], 13).is_empty());
}

#[test]
fn no_image_no_timeline() {
    assert!(matches!(
        plan_timeline(&[], &[], 13),
        Err(SourceError::NoTargetTime)
    ));
    assert_eq!(plan_timeline(&[tt("20260628120000")], &[], 13).unwrap().len(), 1);
}

#[test]
fn latest_image_is_the_last_of_the_latest() {
    assert_eq!(latest_time(&[]), None);
    let times = [tt("20260628115500"), tt("20260628120000"), tt("20260628120000"), tt("3"), tt("2")];
    assert_eq!(latest_time(&times), Some(3));
    assert_eq!(latest_time(&times[..3]), Some(2));
    assert_eq!(latest_time(&times[..1]), Some(0));
}

#[test]
fn radar_addresses() {
    let t = TileCoord { z: 10, x: 909, y: 403 };
    assert_eq!(
        radar_tile_url("20260628120000", "20260628123000", t),
        "https://www.jma.go.jp/bosai/jmatile/data/nowc/20260628120000/none/20260628123000/surf/hrpns/10/909/403.png"
    );
}

#[test]
fn radar_addresses_differ() {
    let t = TileCoord { z: 10, x: 1, y: 23 };
    let u = TileCoord { z: 10, x: 12, y: 3 };
    let all = [
        radar_tile_url("1", "2", t),
        radar_tile_url("1", "2", u),
        radar_tile_url("1", "3", t),
        radar_tile_url("2", "2", t),
        radar_tile_url("1", "2", TileCoord { z: 9, ..t }),
    ];
    for (i, a) in all.iter().enumerate() {
        for b in &all[..i] {
            assert_ne!(a, b);
        }
    }
}

#[test]
fn radar_zoom_is_limited() {
    assert_eq!(radar_zoom(3), 3);
    assert_eq!(radar_zoom(10), 10);
    assert_eq!(radar_zoom(16), 10);
}

fn png() -> Vec<u8> {
    let mut img = image::RgbaImage::new(3, 2);
    img.put_pixel(0, 0, image::Rgba([0xFA, 0xF5, 0x00, 0xFF]));
    img.put_pixel(1, 0, image::Rgba([0xF2, 0xF2, 0xFF, 0xFF]));
    img.put_pixel(2, 1, image::Rgba([0xFA, 0xF5, 0x00, 0x00]));
    let mut out = std::io::Cursor::new(Vec::new());
    img.write_to(&mut out, image::ImageFormat::Png).unwrap();
    out.into_inner()
}

#[test]
fn pictures_are_read_from_bytes() {
    let image = tile_image(&png()).unwrap();
    assert_eq!((image.width, image.height), (3, 2));
    assert_eq!(image.pixels.len(), 6);
    assert_eq!(image.pixels[0], [0xFA, 0xF5, 0x00, 0xFF]);
    assert_eq!(image.pixels[1], [0xF2, 0xF2, 0xFF, 0xFF]);
    assert_eq!(image.pixels[5][3], 0);
    assert!(tile_image(b"no picture").is_none());
    assert!(tile_image(b"GIF89a").is_none());
    assert!(tile_image(&[]).is_none());
}

fn japan() -> GeoBBox {
    GeoBBox::japan()
}

#[test]
fn largest_amount_stays() {
    let mut grid = Grid::new_zeroed(2, 1, GridKind::PrecipMmH, japan()).unwrap();
    let image = tile_image(&png()).unwrap();
    // Both rainy pixels on one cell, the third column off the grid.
    paint_tile(
        &mut grid,
        &image,
        &[Some(1), Some(1), None],
        &[Some(0), Some(0)],
    );
    assert_eq!(grid.get(0, 0), Some(s(0.0)));
    assert_eq!(grid.get(1, 0), Some(s(25.0)));
    // A weaker picture changes nothing, a stronger one does.
    let one = |r: u8, g: u8, b: u8| TileImage {
        width: 1,
        height: 1,
        pixels: vec![[r, g, b, 255]],
    };
    paint_tile(&mut grid, &one(0xB2, 0xD2, 0xFF), &[Some(1)], &[Some(0)]);
    assert_eq!(grid.get(1, 0), Some(s(25.0)));
    paint_tile(&mut grid, &one(0xFF, 0x40, 0x00), &[Some(1)], &[Some(0)]);
    assert_eq!(grid.get(1, 0), Some(s(65.0)));
}

#[test]
fn frame_is_painted_from_its_tiles() {
    let tile = FrameTile {
        image: tile_image(&png()),
        cols: vec![Some(0), Some(1), Some(2)],
        rows: vec![Some(0), None],
    };
    let missing = FrameTile {
        image: None,
        cols: vec![],
        rows: vec![],
    };
    let grid = frame_grid(3, 2, japan(), &[missing, tile]).unwrap();
    assert_eq!(grid.kind, GridKind::PrecipMmH);
    assert_eq!(grid.bbox, japan());
    assert_eq!(grid.get(0, 0), Some(s(25.0)));
    assert_eq!(grid.get(1, 0), Some(s(0.5)));
    assert_eq!(grid.get(2, 0), Some(s(0.0)));
    assert_eq!(grid.get(2, 1), Some(s(0.0)));
}

#[test]
fn too_large_frames_are_refused() {
    assert!(matches!(
        frame_grid(0, 4, japan(), &[]),
        Err(SourceError::GridTooLarge)
    ));
    assert!(matches!(
        frame_grid(257, 256, japan(), &[]),
        Err(SourceError::GridTooLarge)
    ));
    assert!(frame_grid(256, 256, japan(), &[]).is_ok());
}

#[test]
fn japan_rectangle() {
    let b = japan();
    assert_eq!(f64::from_bits(b.min_lat.bits), 24.0);
    assert_eq!(f64::from_bits(b.min_lon.bits), 122.0);
    assert_eq!(f64::from_bits(b.max_lat.bits), 46.0);
    assert_eq!(f64::from_bits(b.max_lon.bits), 146.0);
}
