use amescii::basemap::geometry::{decode_geom, try_decode_geom, zigzag};
use amescii::basemap::{
    decode_labels_ja, decode_tile, labels_in_tile, lines_in_tile, map_tile_url, BaseLineKind,
    MapFeature, MapLayer, MapTile,
};
use amescii::geo::{tiles_in_range, TileCoord};
use geozero::mvt::tile::{Feature, Layer, Value};
use geozero::mvt::{Message, Tile};

#[test]
fn zigzag_roundtrip() {
    assert_eq!(zigzag(0), 0);
    assert_eq!(zigzag(1), -1);
    assert_eq!(zigzag(2), 1);
    assert_eq!(zigzag(3), -2);
    assert_eq!(zigzag(10), 5);
}

fn zz(n: i32) -> u32 {
    ((n << 1) ^ (n >> 31)) as u32
}

#[test]
fn zigzag_covers_all_numbers() {
    for n in [0, 1, -1, 2048, -2048, i32::MAX, i32::MIN] {
        assert_eq!(zigzag(zz(n)), n);
    }
}

fn text(s: &str) -> Option<String> {
    Some(s.to_string())
}

fn val_str(s: &str) -> Value {
    Value {
        string_value: Some(s.to_string()),
        ..Default::default()
    }
}

#[test]
fn decode_labels_ja_uses_annochar_then_knj_and_skips_empty() {
    let pt = vec![9u32, zz(2048), zz(2048)];
    let feature = |tags: Vec<u32>| MapFeature {
        tags,
        geometry: pt.clone(),
    };
    let layer = MapLayer {
        name: "label".to_string(),
        extent: Some(4096),
        keys: vec!["annoChar".to_string(), "knj".to_string()],
        values: vec![text("東京駅"), text("日本歯科大"), text("")],
        features: vec![
            feature(vec![0, 0, 1, 0]),
            feature(vec![1, 1]),
            feature(vec![0, 2]),
        ],
    };
    let tile = MapTile { layers: vec![layer] };

    let out = decode_labels_ja(&tile);

    assert_eq!(out.len(), 2);
    assert_eq!(out[0].text, "東京駅");
    assert_eq!(out[1].text, "日本歯科大");
    // The centre of the tile.
    assert_eq!((out[0].x, out[0].y, out[0].extent), (2048, 2048, 4096));
    assert_eq!(out[0].x as f64 / out[0].extent as f64, 0.5);
    assert_eq!(out[0].y as f64 / out[0].extent as f64, 0.5);
}

#[test]
fn decode_linestring() {
    let geom = [9u32, 10, 10, 18, 4, 0, 0, 6];
    let paths = decode_geom(&geom);
    assert_eq!(paths.len(), 1);
    assert_eq!(paths[0], vec![(5, 5), (7, 5), (7, 8)]);
}

#[test]
fn decode_polygon_ring_is_closed() {
    let geom = [9u32, 0, 0, 18, 8, 0, 0, 8, 15];
    let paths = decode_geom(&geom);
    assert_eq!(paths.len(), 1);
    assert_eq!(paths[0], vec![(0, 0), (4, 0), (4, 4), (0, 0)]);
}

#[test]
fn decode_multi_ring() {
    let geom = [
        9, 0, 0, 18, 8, 0, 0, 8, 15, //
        9, 2, 2, 18, 4, 0, 0, 4, 15,
    ];
    let paths = decode_geom(&geom);
    assert_eq!(paths.len(), 2);
    assert_eq!(paths[0], vec![(0, 0), (4, 0), (4, 4), (0, 0)]);
    assert_eq!(paths[1][0], (5, 5));
}

#[test]
fn unknown_command_ends_the_geometry() {
    assert_eq!(decode_geom(&[9, 2, 2, 3, 9, 4, 4]), vec![vec![(1, 1)]]);
    assert!(decode_geom(&[]).is_empty());
    assert!(decode_geom(&[15]).is_empty());
}

#[test]
fn short_geometry_takes_what_is_there() {
    // Three lines are announced, and one is there.
    assert_eq!(decode_geom(&[9, 2, 2, 26, 2, 2]), vec![vec![(1, 1), (2, 2)]]);
    // A single word is left over, and taken for a command.
    assert_eq!(decode_geom(&[9, 2, 2, 18, 2, 2, 15]), vec![vec![(1, 1), (2, 2), (1, 1)]]);
}

#[test]
fn point_beyond_32_bits_is_refused() {
    let far = zz(i32::MAX);
    assert_eq!(try_decode_geom(&[9, far, 0, 10, 2, 0]), None);
    assert_eq!(
        try_decode_geom(&[9, far, 0]),
        Some(vec![vec![(i32::MAX, 0)]])
    );
}

#[test]
fn encoded_path_reads_back() {
    let path = [(3, -4), (10, 10), (-100, 7), (-100, 8)];
    let mut geom = vec![9, zz(3), zz(-4), 8 * 3 + 2];
    for w in path.windows(2) {
        geom.push(zz(w[1].0 - w[0].0));
        geom.push(zz(w[1].1 - w[0].1));
    }
    assert_eq!(decode_geom(&geom), vec![path.to_vec()]);
}

#[test]
fn one_geometry_after_another() {
    let first = [9, zz(3), zz(-4), 18, zz(1), zz(1), zz(5), zz(0), 15];
    let second = [9, zz(2), zz(2), 10, zz(-1), zz(7), 9, zz(1), zz(0)];
    let mut both = first.to_vec();
    both.extend(second);
    // The first leaves the cursor at (9, -3).
    let mut expected = decode_geom(&first);
    for path in decode_geom(&second) {
        expected.push(path.iter().map(|(x, y)| (x + 9, y - 3)).collect());
    }
    assert_eq!(decode_geom(&both), expected);
}

fn line_layer(name: &str) -> MapLayer {
    MapLayer {
        name: name.to_string(),
        extent: None,
        keys: vec![],
        values: vec![],
        features: vec![
            MapFeature {
                tags: vec![],
                geometry: vec![9, 0, 0, 10, 8, 8],
            },
            MapFeature {
                tags: vec![],
                geometry: vec![9, 4, 4],
            },
        ],
    }
}

#[test]
fn water_stands_in_for_a_missing_coastline() {
    let kinds = |names: &[&str], roads: bool| -> Vec<BaseLineKind> {
        let tile = MapTile {
            layers: names.iter().map(|n| line_layer(n)).collect(),
        };
        decode_tile(&tile, roads).iter().map(|l| l.kind).collect()
    };
    assert_eq!(
        kinds(&["waterarea", "boundary"], false),
        vec![BaseLineKind::Coastline, BaseLineKind::Boundary]
    );
    assert_eq!(
        kinds(&["waterarea", "coastline"], false),
        vec![BaseLineKind::Coastline]
    );
    assert_eq!(kinds(&["road", "railway", "label"], false), vec![]);
    assert_eq!(
        kinds(&["road", "railway", "label"], true),
        vec![BaseLineKind::Road, BaseLineKind::Railway]
    );
}

#[test]
fn single_points_are_no_lines() {
    let tile = MapTile {
        layers: vec![line_layer("coastline")],
    };
    let lines = decode_tile(&tile, false);
    assert_eq!(lines.len(), 1);
    assert_eq!(lines[0].path, vec![(0, 0), (4, 4)]);
    assert_eq!(lines[0].extent, 4096);
}

fn tile_bytes() -> Vec<u8> {
    let road = Layer {
        version: 2,
        name: "road".to_string(),
        extent: Some(512),
        features: vec![Feature {
            geometry: vec![9, zz(1), zz(2), 10, zz(3), zz(4)],
            ..Default::default()
        }],
        ..Default::default()
    };
    let label = Layer {
        version: 2,
        name: "label".to_string(),
        extent: None,
        keys: vec!["ftCode".to_string(), "knj".to_string()],
        values: vec![
            Value {
                int_value: Some(100),
                ..Default::default()
            },
            val_str("皇居"),
        ],
        features: vec![
            Feature {
                tags: vec![0, 0, 1, 1],
                geometry: vec![9, zz(7), zz(8)],
                ..Default::default()
            },
            Feature {
                tags: vec![1, 0],
                geometry: vec![9, zz(7), zz(8)],
                ..Default::default()
            },
            Feature {
                tags: vec![1, 9],
                geometry: vec![9, zz(7), zz(8)],
                ..Default::default()
            },
        ],
        ..Default::default()
    };
    Tile {
        layers: vec![road, label],
    }
    .encode_to_vec()
}

#[test]
fn lines_are_read_from_bytes() {
    let lines = lines_in_tile(&tile_bytes(), 8).unwrap();
    assert_eq!(lines.len(), 1);
    assert_eq!(lines[0].kind, BaseLineKind::Road);
    assert_eq!(lines[0].extent, 512);
    assert_eq!(lines[0].path, vec![(1, 2), (4, 6)]);
    // Farther out roads are not drawn.
    assert!(lines_in_tile(&tile_bytes(), 7).unwrap().is_empty());
}

#[test]
fn labels_are_read_from_bytes() {
    let labels = labels_in_tile(&tile_bytes()).unwrap();
    assert_eq!(labels.len(), 1);
    assert_eq!(labels[0].text, "皇居");
    assert_eq!((labels[0].x, labels[0].y), (7, 8));
    assert_eq!(labels[0].extent, 4096);
}

#[test]
fn bytes_that_are_no_tile_give_nothing() {
    assert!(lines_in_tile(&[], 8).is_none());
    assert!(labels_in_tile(&[]).is_none());
    assert!(lines_in_tile(b"<html>404 not found</html>", 8).is_none());
    assert!(labels_in_tile(b"<html>404 not found</html>").is_none());
}

#[test]
fn map_addresses() {
    let t = TileCoord { z: 8, x: 227, y: 100 };
    assert_eq!(
        map_tile_url(t),
        "https://cyberjapandata.gsi.go.jp/xyz/experimental_bvmap/8/227/100.pbf"
    );
}

#[test]
fn map_addresses_differ() {
    let a = map_tile_url(TileCoord { z: 1, x: 1, y: 23 });
    let b = map_tile_url(TileCoord { z: 1, x: 12, y: 3 });
    let c = map_tile_url(TileCoord { z: 11, x: 2, y: 3 });
    assert!(a != b && b != c && a != c);
}

#[test]
fn tile_ranges_go_row_by_row() {
    let nw = TileCoord { z: 8, x: 5, y: 7 };
    let se = TileCoord { z: 8, x: 6, y: 9 };
    let tiles: Vec<(u32, u32)> = tiles_in_range(nw, se).iter().map(|t| (t.x, t.y)).collect();
    assert_eq!(tiles, vec![(5, 7), (6, 7), (5, 8), (6, 8), (5, 9), (6, 9)]);
    assert!(tiles_in_range(se, nw).is_empty());
    let end = TileCoord { z: 0, x: u32::MAX, y: u32::MAX };
    assert_eq!(tiles_in_range(end, end), vec![end]);
}
