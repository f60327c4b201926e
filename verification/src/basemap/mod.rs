//! The base map: vector tiles, and the lines and place names in them.

use vstd::prelude::*;
use vstd::string::StringExecFns;

use crate::basemap::geometry::{
    geom_fits, geom_paths, paths_have_points, spots, spots_of, try_decode_geom, Spot,
};
use crate::geo::{tile_paths_differ, TileCoord};
use crate::ieee::Double;
use crate::text::{lemma_strip, same_text};

pub mod geometry;

verus! {

/// A feature of a tile: what it is called, and where it lies.
pub struct MapFeature {
    /// Pairs of a number of a key and a number of a value.
    pub tags: Vec<u32>,
    /// Drawing commands.
    pub geometry: Vec<u32>,
}

/// A layer of a tile: features of one sort.
pub struct MapLayer {
    pub name: String,
    /// Side of the tile in the coordinates of its geometries.
    pub extent: Option<u32>,
    pub keys: Vec<String>,
    /// The values that are texts; none for the others.
    pub values: Vec<Option<String>>,
    pub features: Vec<MapFeature>,
}

/// A vector tile.
pub struct MapTile {
    pub layers: Vec<MapLayer>,
}

/// What a [`MapFeature`] holds.
pub struct FeatureModel {
    pub tags: Seq<u32>,
    pub geometry: Seq<u32>,
}

/// What a [`MapLayer`] holds.
pub struct LayerModel {
    pub name: Seq<char>,
    pub extent: Option<u32>,
    pub keys: Seq<Seq<char>>,
    pub values: Seq<Option<Seq<char>>>,
    pub features: Seq<FeatureModel>,
}

/// The characters of a text that may be missing.
pub open spec fn text_of(s: Option<String>) -> Option<Seq<char>> {
    match s {
        Some(t) => Some(t@),
        None => None,
    }
}

impl MapFeature {
    pub open spec fn model(self) -> FeatureModel {
        FeatureModel { tags: self.tags@, geometry: self.geometry@ }
    }
}

impl MapLayer {
    pub open spec fn model(self) -> LayerModel {
        LayerModel {
            name: self.name@,
            extent: self.extent,
            keys: self.keys@.map_values(|k: String| k@),
            values: self.values@.map_values(|v: Option<String>| text_of(v)),
            features: self.features@.map_values(|f: MapFeature| f.model()),
        }
    }
}

impl MapTile {
    pub open spec fn model(self) -> Seq<LayerModel> {
        self.layers@.map_values(|l: MapLayer| l.model())
    }
}

/// The layers that the bytes of a vector tile stand for; none if the bytes are
/// no vector tile.
pub uninterp spec fn decoded_tile(bytes: Seq<u8>) -> Option<Seq<LayerModel>>;

/// `geozero::mvt::Tile::decode`: reads the bytes of a vector tile. The layers,
/// their keys, values and features are handed on as they are read; of a value
/// only its text is kept, and of a feature its tags and geometry. The result
/// depends on the bytes alone.
#[verifier::external_body]
fn parse_tile(bytes: &[u8]) -> (tile: Option<MapTile>)
    ensures
        decoded_tile(bytes@) == match tile {
            Some(t) => Some(t.model()),
            None => None,
        },
{
    let tile = <geozero::mvt::Tile as geozero::mvt::Message>::decode(bytes).ok()?;
    let layers = tile.layers.into_iter().map(|l| MapLayer {
        name: l.name,
        extent: l.extent,
        keys: l.keys,
        values: l.values.into_iter().map(|v| v.string_value).collect(),
        features: l.features.into_iter().map(|f| MapFeature { tags: f.tags, geometry: f.geometry }).collect(),
    });
    Some(MapTile { layers: layers.collect() })
}

/// What a line of the base map is.
#[derive(Clone, Copy, PartialEq, Eq, Debug, Structural)]
pub enum BaseLineKind {
    Coastline,
    Boundary,
    Road,
    Railway,
}

/// A line of the base map, through points of latitude and longitude.
pub struct BaseLine {
    pub points: Vec<(Double, Double)>,
    pub kind: BaseLineKind,
}

/// A place name of the base map, in Japanese.
pub struct NameLabelJa {
    pub lat: Double,
    pub lon: Double,
    pub text: String,
}

/// A line in the coordinates of its tile.
pub struct TileLine {
    pub path: Vec<(i32, i32)>,
    /// Side of the tile in these coordinates.
    pub extent: u32,
    pub kind: BaseLineKind,
}

/// What a [`TileLine`] holds.
pub struct LineModel {
    pub path: Seq<Spot>,
    pub extent: u32,
    pub kind: BaseLineKind,
}

impl TileLine {
    pub open spec fn model(self) -> LineModel {
        LineModel { path: spots(self.path@), extent: self.extent, kind: self.kind }
    }
}

/// What the lines of a list hold.
pub open spec fn line_models(lines: Seq<TileLine>) -> Seq<LineModel> {
    lines.map_values(|l: TileLine| l.model())
}

/// Side of the tile for a layer that does not say.
pub const DEFAULT_EXTENT: u32 = 4096;

/// Roads and railways are drawn from this zoom on; farther out there are too
/// many.
pub const ROADS_MIN_ZOOM: u8 = 8;

/// The side of a layer's tile.
pub open spec fn side(extent: Option<u32>) -> u32 {
    match extent {
        Some(e) => e,
        None => DEFAULT_EXTENT,
    }
}

/// Whether one of the layers has the name.
pub open spec fn has_layer(layers: Seq<LayerModel>, name: Seq<char>) -> bool {
    exists|i: int| 0 <= i < layers.len() && (#[trigger] layers[i]).name == name
}

/// What the lines of a layer are, by its name; none if they are not drawn.
/// Where a tile has no coastline, the outlines of its water stand in for it.
pub open spec fn line_kind(name: Seq<char>, roads: bool, coast: bool) -> Option<BaseLineKind> {
    if name == "coastline"@ {
        Some(BaseLineKind::Coastline)
    } else if name == "boundary"@ {
        Some(BaseLineKind::Boundary)
    } else if name == "road"@ && roads {
        Some(BaseLineKind::Road)
    } else if name == "railway"@ && roads {
        Some(BaseLineKind::Railway)
    } else if name == "waterarea"@ && !coast {
        Some(BaseLineKind::Coastline)
    } else {
        None
    }
}

/// The lines among the first `n` paths: those of two points or more.
pub open spec fn path_lines(
    paths: Seq<Seq<Spot>>,
    n: nat,
    extent: u32,
    kind: BaseLineKind,
) -> Seq<LineModel>
    decreases n,
{
    if n == 0 {
        Seq::empty()
    } else {
        let before = path_lines(paths, (n - 1) as nat, extent, kind);
        if paths[n - 1].len() >= 2 {
            before.push(LineModel { path: paths[n - 1], extent, kind })
        } else {
            before
        }
    }
}

/// The lines of the first `n` features.
pub open spec fn feature_lines(
    features: Seq<FeatureModel>,
    n: nat,
    extent: u32,
    kind: BaseLineKind,
) -> Seq<LineModel>
    decreases n,
{
    if n == 0 {
        Seq::empty()
    } else {
        let paths = geom_paths(features[n - 1].geometry);
        feature_lines(features, (n - 1) as nat, extent, kind) + path_lines(
            paths,
            paths.len(),
            extent,
            kind,
        )
    }
}

/// The lines of the first `n` layers.
pub open spec fn layer_lines(layers: Seq<LayerModel>, n: nat, roads: bool) -> Seq<LineModel>
    decreases n,
{
    if n == 0 {
        Seq::empty()
    } else {
        let layer = layers[n - 1];
        let before = layer_lines(layers, (n - 1) as nat, roads);
        match line_kind(layer.name, roads, has_layer(layers, "coastline"@)) {
            Some(kind) => before + feature_lines(
                layer.features,
                layer.features.len(),
                side(layer.extent),
                kind,
            ),
            None => before,
        }
    }
}

/// Whether the points of a layer all fit 32 bits.
pub open spec fn layer_fits(layer: LayerModel) -> bool {
    forall|i: int|
        0 <= i < layer.features.len() ==> geom_fits((#[trigger] layer.features[i]).geometry)
}

/// Whether the points of all layers that are drawn fit 32 bits.
pub open spec fn lines_fit(layers: Seq<LayerModel>, roads: bool) -> bool {
    forall|i: int|
        0 <= i < layers.len() && line_kind(
            (#[trigger] layers[i]).name,
            roads,
            has_layer(layers, "coastline"@),
        ) is Some ==> layer_fits(layers[i])
}

/// What the lines of a layer are; none if they are not drawn.
fn layer_kind(name: &str, roads: bool, coast: bool) -> (kind: Option<BaseLineKind>)
    ensures
        kind == line_kind(name@, roads, coast),
{
    if same_text(name, "coastline") {
        Some(BaseLineKind::Coastline)
    } else if same_text(name, "boundary") {
        Some(BaseLineKind::Boundary)
    } else if same_text(name, "road") && roads {
        Some(BaseLineKind::Road)
    } else if same_text(name, "railway") && roads {
        Some(BaseLineKind::Railway)
    } else if same_text(name, "waterarea") && !coast {
        Some(BaseLineKind::Coastline)
    } else {
        None
    }
}

/// Whether one of the layers is called so.
fn find_layer(tile: &MapTile, name: &str) -> (found: bool)
    ensures
        found == has_layer(tile.model(), name@),
{
    let mut i: usize = 0;
    while i < tile.layers.len()
        invariant
            i <= tile.layers@.len(),
            forall|k: int| 0 <= k < i ==> (#[trigger] tile.model()[k]).name != name@,
        decreases tile.layers@.len() - i,
    {
        if same_text(tile.layers[i].name.as_str(), name) {
            proof {
                assert(tile.model()[i as int].name == name@);
            }
            return true;
        }
        i = i + 1;
    }
    false
}

/// Appends the lines of one feature's paths.
fn push_paths(out: &mut Vec<TileLine>, paths: Vec<Vec<(i32, i32)>>, extent: u32, kind: BaseLineKind)
    ensures
        line_models(final(out)@) == line_models(old(out)@) + path_lines(
            spots_of(paths@),
            paths@.len(),
            extent,
            kind,
        ),
{
    let ghost model = spots_of(paths@);
    proof {
        assert(line_models(out@) =~= line_models(old(out)@) + path_lines(model, 0, extent, kind));
    }
    let mut i: usize = 0;
    let mut paths = paths;
    while i < paths.len()
        invariant
            i <= paths@.len(),
            paths@.len() == model.len(),
            forall|k: int| i <= k < paths@.len() ==> spots((#[trigger] paths@[k])@) == model[k],
            line_models(out@) == line_models(old(out)@) + path_lines(
                model,
                i as nat,
                extent,
                kind,
            ),
        decreases paths@.len() - i,
    {
        let ghost lines = out@;
        let mut path: Vec<(i32, i32)> = Vec::new();
        let ghost here = paths@[i as int]@;
        std::mem::swap(&mut path, &mut paths[i]);
        proof {
            assert(spots(here) == model[i as int]);
        }
        if path.len() >= 2 {
            out.push(TileLine { path, extent, kind });
            proof {
                assert(line_models(out@) =~= line_models(lines).push(
                    LineModel { path: model[i as int], extent, kind },
                ));
            }
        }
        proof {
            assert(line_models(out@) =~= line_models(old(out)@) + path_lines(
                model,
                (i + 1) as nat,
                extent,
                kind,
            ));
        }
        i = i + 1;
    }
}

/// The lines of a tile; none if a point of them does not fit 32 bits.
pub fn try_decode_tile(tile: &MapTile, want_roads: bool) -> (r: Option<Vec<TileLine>>)
    ensures
        r is Some <==> lines_fit(tile.model(), want_roads),
        r matches Some(lines) ==> line_models(lines@) == layer_lines(
            tile.model(),
            tile.model().len(),
            want_roads,
        ),
{
    let ghost model = tile.model();
    let coast: bool = find_layer(tile, "coastline");
    let mut out: Vec<TileLine> = Vec::new();
    proof {
        assert(line_models(out@) =~= Seq::<LineModel>::empty());
    }
    let mut i: usize = 0;
    while i < tile.layers.len()
        invariant
            i <= tile.layers@.len(),
            model == tile.model(),
            coast == has_layer(model, "coastline"@),
            line_models(out@) == layer_lines(model, i as nat, want_roads),
            forall|k: int|
                0 <= k < i && line_kind((#[trigger] model[k]).name, want_roads, coast) is Some
                    ==> layer_fits(model[k]),
        decreases tile.layers@.len() - i,
    {
        let layer = &tile.layers[i];
        let ghost lm = layer.model();
        proof {
            assert(model[i as int] == lm);
        }
        if let Some(kind) = layer_kind(layer.name.as_str(), want_roads, coast) {
            let extent: u32 = match layer.extent {
                Some(e) => e,
                None => DEFAULT_EXTENT,
            };
            let ghost before = line_models(out@);
            proof {
                assert(before =~= before + feature_lines(lm.features, 0, extent, kind));
            }
            let mut j: usize = 0;
            while j < layer.features.len()
                invariant
                    j <= layer.features@.len(),
                    lm == layer.model(),
                    i < model.len(),
                    model == tile.model(),
                    coast == has_layer(model, "coastline"@),
                    model[i as int] == lm,
                    line_kind(lm.name, want_roads, coast) == Some(kind),
                    line_models(out@) == before + feature_lines(
                        lm.features,
                        j as nat,
                        extent,
                        kind,
                    ),
                    forall|k: int| 0 <= k < j ==> geom_fits((#[trigger] lm.features[k]).geometry),
                decreases layer.features@.len() - j,
            {
                let feature = &layer.features[j];
                proof {
                    assert(lm.features[j as int] == feature.model());
                }
                match try_decode_geom(feature.geometry.as_slice()) {
                    Some(paths) => {
                        push_paths(&mut out, paths, extent, kind);
                    },
                    None => {
                        proof {
                            assert(!geom_fits(lm.features[j as int].geometry));
                            assert(!layer_fits(model[i as int]));
                        }
                        return None;
                    },
                }
                proof {
                    assert(line_models(out@) =~= before + feature_lines(
                        lm.features,
                        (j + 1) as nat,
                        extent,
                        kind,
                    ));
                }
                j = j + 1;
            }
        }
        i = i + 1;
    }
    Some(out)
}

/// The lines of a tile whose points all fit 32 bits.
pub fn decode_tile(tile: &MapTile, want_roads: bool) -> (lines: Vec<TileLine>)
    requires
        lines_fit(tile.model(), want_roads),
    ensures
        line_models(lines@) == layer_lines(tile.model(), tile.model().len(), want_roads),
{
    match try_decode_tile(tile, want_roads) {
        Some(lines) => lines,
        None => Vec::new(),
    }
}

/// The lines in the bytes of a tile, as drawn at a zoom. None if there are no
/// bytes, if they are no vector tile, or if a point of the lines does not fit
/// 32 bits.
pub fn lines_in_tile(bytes: &[u8], zoom: u8) -> (r: Option<Vec<TileLine>>)
    ensures
        r is Some <==> bytes@.len() > 0 && (decoded_tile(bytes@) matches Some(layers) && lines_fit(
            layers,
            zoom >= ROADS_MIN_ZOOM,
        )),
        r matches Some(lines) ==> (decoded_tile(bytes@) matches Some(layers) && line_models(lines@)
            == layer_lines(layers, layers.len(), zoom >= ROADS_MIN_ZOOM)),
{
    if bytes.len() == 0 {
        return None;
    }
    match parse_tile(bytes) {
        Some(tile) => try_decode_tile(&tile, zoom >= ROADS_MIN_ZOOM),
        None => None,
    }
}

/// The number of the first key with the name, from `from` on.
pub open spec fn key_number(keys: Seq<Seq<char>>, name: Seq<char>, from: int) -> Option<int>
    decreases keys.len() - from,
{
    if from < 0 || from >= keys.len() {
        None
    } else if keys[from] == name {
        Some(from)
    } else {
        key_number(keys, name, from + 1)
    }
}

/// The number of the value that the first tag pair with the key names, from
/// pair `from` on. A single tag at the end is no pair.
pub open spec fn value_number(tags: Seq<u32>, key: int, from: int) -> Option<int>
    decreases tags.len() - 2 * from,
{
    if from < 0 || 2 * from + 1 >= tags.len() {
        None
    } else if tags[2 * from] == key {
        Some(tags[2 * from + 1] as int)
    } else {
        value_number(tags, key, from + 1)
    }
}

/// The text that a feature has under a key.
pub open spec fn property(layer: LayerModel, feature: FeatureModel, name: Seq<char>) -> Option<
    Seq<char>,
> {
    match key_number(layer.keys, name, 0) {
        None => None,
        Some(key) => match value_number(feature.tags, key, 0) {
            Some(v) if v < layer.values.len() => layer.values[v],
            _ => None,
        },
    }
}

/// The text that a feature has under a key.
fn prop_str<'a>(layer: &'a MapLayer, f: &MapFeature, key: &str) -> (text: Option<&'a str>)
    ensures
        match text {
            Some(t) => property(layer.model(), f.model(), key@) == Some(t@),
            None => property(layer.model(), f.model(), key@) is None,
        },
{
    let ghost keys = layer.model().keys;
    let mut ki: usize = 0;
    while ki < layer.keys.len() && !same_text(layer.keys[ki].as_str(), key)
        invariant
            ki <= layer.keys@.len(),
            keys == layer.model().keys,
            key_number(keys, key@, ki as int) == key_number(keys, key@, 0),
        decreases layer.keys@.len() - ki,
    {
        ki = ki + 1;
    }
    if ki >= layer.keys.len() {
        return None;
    }
    let ghost values = layer.model().values;
    let mut j: usize = 0;
    while j < f.tags.len() / 2
        invariant
            j <= f.tags@.len() / 2,
            ki < layer.keys@.len(),
            key_number(layer.model().keys, key@, 0) == Some(ki as int),
            values == layer.model().values,
            value_number(f.tags@, ki as int, j as int) == value_number(f.tags@, ki as int, 0),
        decreases f.tags@.len() / 2 - j,
    {
        if f.tags[2 * j] as usize == ki {
            let v: usize = f.tags[2 * j + 1] as usize;
            if v < layer.values.len() {
                proof {
                    assert(values[v as int] == text_of(layer.values@[v as int]));
                }
                return match &layer.values[v] {
                    Some(t) => Some(t.as_str()),
                    None => None,
                };
            }
            return None;
        }
        j = j + 1;
    }
    None
}

/// A place name in the coordinates of its tile.
pub struct TileLabel {
    pub x: i32,
    pub y: i32,
    /// Side of the tile in these coordinates.
    pub extent: u32,
    pub text: String,
}

/// What a [`TileLabel`] holds.
pub struct LabelModel {
    pub at: Spot,
    pub extent: u32,
    pub text: Seq<char>,
}

impl TileLabel {
    pub open spec fn model(self) -> LabelModel {
        LabelModel { at: (self.x as int, self.y as int), extent: self.extent, text: self.text@ }
    }
}

/// What the labels of a list hold.
pub open spec fn label_models(labels: Seq<TileLabel>) -> Seq<LabelModel> {
    labels.map_values(|l: TileLabel| l.model())
}

/// The name that a feature is labelled with: its annotation, or without one
/// its name in Chinese characters; none if that is empty.
pub open spec fn label_text(layer: LayerModel, feature: FeatureModel) -> Option<Seq<char>> {
    let text = match property(layer, feature, "annoChar"@) {
        Some(t) => Some(t),
        None => property(layer, feature, "knj"@),
    };
    match text {
        Some(t) if t.len() > 0 => text,
        _ => None,
    }
}

/// The label of a feature: its name at the first point of its first path.
pub open spec fn feature_label(layer: LayerModel, feature: FeatureModel) -> Option<LabelModel> {
    match label_text(layer, feature) {
        Some(text) if geom_paths(feature.geometry).len() > 0 => Some(
            LabelModel {
                at: geom_paths(feature.geometry)[0][0],
                extent: side(layer.extent),
                text,
            },
        ),
        _ => None,
    }
}

/// The labels of the first `n` features of a layer.
pub open spec fn feature_labels(layer: LayerModel, n: nat) -> Seq<LabelModel>
    decreases n,
{
    if n == 0 {
        Seq::empty()
    } else {
        let before = feature_labels(layer, (n - 1) as nat);
        match feature_label(layer, layer.features[n - 1]) {
            Some(label) => before.push(label),
            None => before,
        }
    }
}

/// The labels of the first `n` layers: those of the layers called `label`.
pub open spec fn layer_labels(layers: Seq<LayerModel>, n: nat) -> Seq<LabelModel>
    decreases n,
{
    if n == 0 {
        Seq::empty()
    } else {
        let before = layer_labels(layers, (n - 1) as nat);
        if layers[n - 1].name == "label"@ {
            before + feature_labels(layers[n - 1], layers[n - 1].features.len())
        } else {
            before
        }
    }
}

/// Whether the points of a layer's named features all fit 32 bits.
pub open spec fn names_fit(layer: LayerModel) -> bool {
    forall|i: int|
        0 <= i < layer.features.len() && label_text(layer, #[trigger] layer.features[i]) is Some
            ==> geom_fits(layer.features[i].geometry)
}

/// Whether the points of all named features of the label layers fit 32 bits.
pub open spec fn labels_fit(layers: Seq<LayerModel>) -> bool {
    forall|i: int|
        0 <= i < layers.len() && (#[trigger] layers[i]).name == "label"@ ==> names_fit(layers[i])
}

/// The name that a feature is labelled with.
fn label_name<'a>(layer: &'a MapLayer, f: &MapFeature) -> (text: Option<&'a str>)
    ensures
        match text {
            Some(t) => label_text(layer.model(), f.model()) == Some(t@),
            None => label_text(layer.model(), f.model()) is None,
        },
{
    let found = match prop_str(layer, f, "annoChar") {
        Some(t) => Some(t),
        None => prop_str(layer, f, "knj"),
    };
    match found {
        Some(t) => {
            proof {
                lemma_no_bytes(t@);
            }
            if t.is_empty() {
                None
            } else {
                Some(t)
            }
        },
        None => None,
    }
}

/// A text has no bytes exactly if it has no characters.
proof fn lemma_no_bytes(t: Seq<char>)
    ensures
        vstd::utf8::encode_utf8(t).len() == 0 <==> t.len() == 0,
{
    vstd::utf8::encode_utf8_decode_utf8(t);
}

/// The labels of a tile; none if a point of theirs does not fit 32 bits.
pub fn try_decode_labels_ja(tile: &MapTile) -> (r: Option<Vec<TileLabel>>)
    ensures
        r is Some <==> labels_fit(tile.model()),
        r matches Some(labels) ==> label_models(labels@) == layer_labels(
            tile.model(),
            tile.model().len(),
        ),
{
    let ghost model = tile.model();
    let mut out: Vec<TileLabel> = Vec::new();
    proof {
        assert(label_models(out@) =~= Seq::<LabelModel>::empty());
    }
    let mut i: usize = 0;
    while i < tile.layers.len()
        invariant
            i <= tile.layers@.len(),
            model == tile.model(),
            label_models(out@) == layer_labels(model, i as nat),
            forall|k: int|
                0 <= k < i && (#[trigger] model[k]).name == "label"@ ==> names_fit(model[k]),
        decreases tile.layers@.len() - i,
    {
        let layer = &tile.layers[i];
        let ghost lm = layer.model();
        proof {
            assert(model[i as int] == lm);
        }
        if same_text(layer.name.as_str(), "label") {
            let extent: u32 = match layer.extent {
                Some(e) => e,
                None => DEFAULT_EXTENT,
            };
            let ghost before = label_models(out@);
            proof {
                assert(before =~= before + feature_labels(lm, 0));
            }
            let mut j: usize = 0;
            while j < layer.features.len()
                invariant
                    j <= layer.features@.len(),
                    lm == layer.model(),
                    i < model.len(),
                    model == tile.model(),
                    model[i as int] == lm,
                    lm.name == "label"@,
                    extent == side(lm.extent),
                    label_models(out@) == before + feature_labels(lm, j as nat),
                    forall|k: int|
                        0 <= k < j && label_text(lm, #[trigger] lm.features[k]) is Some
                            ==> geom_fits(lm.features[k].geometry),
                decreases layer.features@.len() - j,
            {
                let feature = &layer.features[j];
                let ghost so_far = label_models(out@);
                proof {
                    assert(lm.features[j as int] == feature.model());
                    paths_have_points(feature.geometry@);
                }
                if let Some(name) = label_name(layer, feature) {
                    match try_decode_geom(feature.geometry.as_slice()) {
                        Some(paths) => {
                            if paths.len() > 0 {
                                proof {
                                    assert(spots_of(paths@)[0] == spots(paths@[0]@));
                                    assert(geom_paths(feature.geometry@)[0].len() > 0);
                                    assert(spots(paths@[0]@)[0] == (
                                        paths@[0]@[0].0 as int,
                                        paths@[0]@[0].1 as int,
                                    ));
                                }
                                let (x, y) = paths[0][0];
                                out.push(TileLabel { x, y, extent, text: name.to_owned() });
                                proof {
                                    assert(label_models(out@) =~= so_far.push(
                                        feature_label(lm, feature.model())->0,
                                    ));
                                }
                            }
                        },
                        None => {
                            proof {
                                assert(!names_fit(model[i as int]));
                            }
                            return None;
                        },
                    }
                }
                proof {
                    assert(label_models(out@) =~= before + feature_labels(lm, (j + 1) as nat));
                }
                j = j + 1;
            }
        }
        i = i + 1;
    }
    Some(out)
}

/// The labels of a tile whose named points all fit 32 bits.
pub fn decode_labels_ja(tile: &MapTile) -> (labels: Vec<TileLabel>)
    requires
        labels_fit(tile.model()),
    ensures
        label_models(labels@) == layer_labels(tile.model(), tile.model().len()),
{
    match try_decode_labels_ja(tile) {
        Some(labels) => labels,
        None => Vec::new(),
    }
}

/// The place names in the bytes of a tile. None if there are no bytes, if they
/// are no vector tile, or if a named point does not fit 32 bits.
pub fn labels_in_tile(bytes: &[u8]) -> (r: Option<Vec<TileLabel>>)
    ensures
        r is Some <==> bytes@.len() > 0 && (decoded_tile(bytes@) matches Some(layers) && labels_fit(
            layers,
        )),
        r matches Some(labels) ==> (decoded_tile(bytes@) matches Some(layers) && label_models(
            labels@,
        ) == layer_labels(layers, layers.len())),
{
    if bytes.len() == 0 {
        return None;
    }
    match parse_tile(bytes) {
        Some(tile) => try_decode_labels_ja(&tile),
        None => None,
    }
}

/// No label is empty.
pub proof fn labels_have_text(layers: Seq<LayerModel>, n: nat, k: int)
    requires
        n <= layers.len(),
        0 <= k < layer_labels(layers, n).len(),
    ensures
        layer_labels(layers, n)[k].text.len() > 0,
    decreases n,
{
    if n > 0 {
        let before = layer_labels(layers, (n - 1) as nat);
        if k < before.len() {
            labels_have_text(layers, (n - 1) as nat, k);
        } else {
            lemma_feature_labels_text(
                layers[n - 1],
                layers[n - 1].features.len(),
                k - before.len(),
            );
        }
    }
}

proof fn lemma_feature_labels_text(layer: LayerModel, n: nat, k: int)
    requires
        0 <= k < feature_labels(layer, n).len(),
    ensures
        feature_labels(layer, n)[k].text.len() > 0,
    decreases n,
{
    if n > 0 {
        if k < feature_labels(layer, (n - 1) as nat).len() {
            lemma_feature_labels_text(layer, (n - 1) as nat, k);
        }
    }
}

/// Every line of a tile has two points or more.
pub proof fn lines_have_two_points(layers: Seq<LayerModel>, n: nat, roads: bool, k: int)
    requires
        n <= layers.len(),
        0 <= k < layer_lines(layers, n, roads).len(),
    ensures
        layer_lines(layers, n, roads)[k].path.len() >= 2,
        !roads ==> layer_lines(layers, n, roads)[k].kind is Coastline || layer_lines(
            layers,
            n,
            roads,
        )[k].kind is Boundary,
    decreases n,
{
    if n > 0 {
        let layer = layers[n - 1];
        let before = layer_lines(layers, (n - 1) as nat, roads);
        if k < before.len() {
            lines_have_two_points(layers, (n - 1) as nat, roads, k);
        } else {
            let kind = line_kind(layer.name, roads, has_layer(layers, "coastline"@))->0;
            lemma_feature_lines(
                layer.features,
                layer.features.len(),
                side(layer.extent),
                kind,
                k - before.len(),
            );
        }
    }
}

proof fn lemma_feature_lines(
    features: Seq<FeatureModel>,
    n: nat,
    extent: u32,
    kind: BaseLineKind,
    k: int,
)
    requires
        0 <= k < feature_lines(features, n, extent, kind).len(),
    ensures
        feature_lines(features, n, extent, kind)[k].path.len() >= 2,
        feature_lines(features, n, extent, kind)[k].kind == kind,
    decreases n,
{
    if n > 0 {
        let before = feature_lines(features, (n - 1) as nat, extent, kind);
        if k < before.len() {
            lemma_feature_lines(features, (n - 1) as nat, extent, kind, k);
        } else {
            let paths = geom_paths(features[n - 1].geometry);
            lemma_path_lines(paths, paths.len(), extent, kind, k - before.len());
        }
    }
}

proof fn lemma_path_lines(
    paths: Seq<Seq<Spot>>,
    n: nat,
    extent: u32,
    kind: BaseLineKind,
    k: int,
)
    requires
        0 <= k < path_lines(paths, n, extent, kind).len(),
    ensures
        path_lines(paths, n, extent, kind)[k].path.len() >= 2,
        path_lines(paths, n, extent, kind)[k].kind == kind,
    decreases n,
{
    if n > 0 {
        if k < path_lines(paths, (n - 1) as nat, extent, kind).len() {
            lemma_path_lines(paths, (n - 1) as nat, extent, kind, k);
        }
    }
}

/// The address of a map tile.
pub open spec fn map_url(t: TileCoord) -> Seq<char> {
    "https://cyberjapandata.gsi.go.jp/xyz/experimental_bvmap/"@ + t.path(".pbf"@)
}

/// The address of a map tile.
pub fn map_tile_url(t: TileCoord) -> (url: String)
    ensures
        url@ == map_url(t),
{
    let mut url = "https://cyberjapandata.gsi.go.jp/xyz/experimental_bvmap/".to_owned();
    t.append_path(&mut url, ".pbf");
    url
}

/// Different map tiles have different addresses.
pub proof fn map_urls_differ(t1: TileCoord, t2: TileCoord)
    requires
        map_url(t1) == map_url(t2),
    ensures
        t1 == t2,
{
    lemma_strip(
        "https://cyberjapandata.gsi.go.jp/xyz/experimental_bvmap/"@,
        t1.path(".pbf"@),
        t2.path(".pbf"@),
    );
    tile_paths_differ(t1, t2, ".pbf"@);
}

/// Which layers are drawn, and as what: coastlines and boundaries always, roads
/// and railways where they are wanted, and the outlines of water as coastlines
/// where there are no coastlines; no other layer.
pub proof fn layers_are_drawn_as_what_they_are(name: Seq<char>, roads: bool, coast: bool)
    ensures
        line_kind(name, roads, coast) == Some(BaseLineKind::Road) <==> name == "road"@ && roads,
        line_kind(name, roads, coast) == Some(BaseLineKind::Railway) <==> name == "railway"@ && roads,
        line_kind(name, roads, coast) == Some(BaseLineKind::Boundary) <==> name == "boundary"@,
        line_kind(name, roads, coast) == Some(BaseLineKind::Coastline) <==> name == "coastline"@ || (
        name == "waterarea"@ && !coast),
{
    reveal_strlit("road");
    reveal_strlit("railway");
    reveal_strlit("boundary");
    reveal_strlit("coastline");
    reveal_strlit("waterarea");
    assert("coastline"@[0] != "waterarea"@[0] && "coastline"@[0] != "boundary"@[0]
        && "coastline"@[0] != "road"@[0] && "coastline"@[0] != "railway"@[0]);
    assert("boundary"@[0] != "road"@[0] && "boundary"@[0] != "railway"@[0] && "boundary"@[0]
        != "waterarea"@[0]);
    assert("road"@.len() != "railway"@.len() && "road"@[0] != "waterarea"@[0] && "railway"@[0]
        != "waterarea"@[0]);
}

/// A tile has the side that its layer says, and 4096 where it says none; roads are
/// drawn from zoom 8 on.
pub proof fn tiles_have_the_side_they_say(extent: Option<u32>, zoom: u8)
    ensures
        extent is None ==> side(extent) == 4096,
        extent matches Some(e) ==> side(extent) == e,
        zoom >= ROADS_MIN_ZOOM <==> zoom > 7,
{
}

/// Whether a line is path `k` of feature `j` of layer `i`, as that layer is drawn.
pub open spec fn is_line(layers: Seq<LayerModel>, roads: bool, l: LineModel, i: int, j: int, k: int) -> bool {
    &&& 0 <= i < layers.len()
    &&& 0 <= j < layers[i].features.len()
    &&& 0 <= k < geom_paths(layers[i].features[j].geometry).len()
    &&& l.path == geom_paths(layers[i].features[j].geometry)[k]
    &&& l.path.len() >= 2
    &&& l.extent == side(layers[i].extent)
    &&& line_kind(
        layers[i].name,
        roads,
        exists|c: int| 0 <= c < layers.len() && (#[trigger] layers[c]).name == "coastline"@,
    ) == Some(l.kind)
}

/// The lines of a tile are the paths of its features that have two points or more,
/// in the layers that are drawn: each line is one, and each such path is a line.
pub proof fn lines_are_the_paths_of_the_features(
    layers: Seq<LayerModel>,
    n: nat,
    roads: bool,
    l: LineModel,
)
    requires
        n <= layers.len(),
    ensures
        layer_lines(layers, n, roads).contains(l) <==> exists|i: int, j: int, k: int|
            i < n && #[trigger] is_line(layers, roads, l, i, j, k),
    decreases n,
{
    if n > 0 {
        lines_are_the_paths_of_the_features(layers, (n - 1) as nat, roads, l);
        let layer = layers[n - 1];
        let before = layer_lines(layers, (n - 1) as nat, roads);
        match line_kind(layer.name, roads, has_layer(layers, "coastline"@)) {
            Some(kind) => {
                let (fs, m, e) = (layer.features, layer.features.len(), side(layer.extent));
                lemma_feature_lines_has(fs, m, e, kind, l);
                lemma_sum_has(before, feature_lines(fs, m, e, kind), l);
                if feature_lines(fs, m, e, kind).contains(l) {
                    let (j, k) = choose|j: int, k: int|
                        0 <= j < m && #[trigger] is_path(fs, l, j, k) && l.extent == e && l.kind
                            == kind;
                    assert(is_line(layers, roads, l, n - 1, j, k));
                }
                if exists|j: int, k: int| #[trigger] is_line(layers, roads, l, n - 1, j, k) {
                    let (j, k) = choose|j: int, k: int| #[trigger]
                        is_line(layers, roads, l, n - 1, j, k);
                    assert(is_path(fs, l, j, k));
                }
            },
            None => {},
        }
    }
}

/// Whether the path of a line is path `k` of feature `j`.
spec fn is_path(features: Seq<FeatureModel>, l: LineModel, j: int, k: int) -> bool {
    &&& 0 <= k < geom_paths(features[j].geometry).len()
    &&& l.path == geom_paths(features[j].geometry)[k]
    &&& l.path.len() >= 2
}

proof fn lemma_sum_has(a: Seq<LineModel>, b: Seq<LineModel>, l: LineModel)
    ensures
        (a + b).contains(l) <==> a.contains(l) || b.contains(l),
{
    if a.contains(l) {
        let i = choose|i: int| 0 <= i < a.len() && a[i] == l;
        assert((a + b)[i] == l);
    }
    if b.contains(l) {
        let i = choose|i: int| 0 <= i < b.len() && b[i] == l;
        assert((a + b)[a.len() + i] == l);
    }
    if (a + b).contains(l) {
        let i = choose|i: int| 0 <= i < (a + b).len() && (a + b)[i] == l;
        if i < a.len() {
            assert(a[i] == l);
        } else {
            assert(b[i - a.len()] == l);
        }
    }
}

proof fn lemma_feature_lines_has(
    features: Seq<FeatureModel>,
    n: nat,
    extent: u32,
    kind: BaseLineKind,
    l: LineModel,
)
    requires
        n <= features.len(),
    ensures
        feature_lines(features, n, extent, kind).contains(l) <==> exists|j: int, k: int|
            0 <= j < n && #[trigger] is_path(features, l, j, k) && l.extent == extent && l.kind
                == kind,
    decreases n,
{
    if n > 0 {
        lemma_feature_lines_has(features, (n - 1) as nat, extent, kind, l);
        let paths = geom_paths(features[n - 1].geometry);
        lemma_path_lines_has(paths, paths.len(), extent, kind, l);
        lemma_sum_has(
            feature_lines(features, (n - 1) as nat, extent, kind),
            path_lines(paths, paths.len(), extent, kind),
            l,
        );
        if path_lines(paths, paths.len(), extent, kind).contains(l) {
            let k = choose|k: int|
                0 <= k < paths.len() && l.path == #[trigger] paths[k] && l.path.len() >= 2
                    && l.extent == extent && l.kind == kind;
            assert(is_path(features, l, n - 1, k));
        }
        if exists|k: int| #[trigger] is_path(features, l, n - 1, k) {
            let k = choose|k: int| #[trigger] is_path(features, l, n - 1, k);
            assert(l.path == paths[k]);
        }
    }
}

proof fn lemma_path_lines_has(
    paths: Seq<Seq<Spot>>,
    n: nat,
    extent: u32,
    kind: BaseLineKind,
    l: LineModel,
)
    requires
        n <= paths.len(),
    ensures
        path_lines(paths, n, extent, kind).contains(l) <==> exists|k: int|
            0 <= k < n && l.path == #[trigger] paths[k] && l.path.len() >= 2 && l.extent == extent
                && l.kind == kind,
    decreases n,
{
    if n > 0 {
        lemma_path_lines_has(paths, (n - 1) as nat, extent, kind, l);
        let before = path_lines(paths, (n - 1) as nat, extent, kind);
        let last = LineModel { path: paths[n - 1], extent, kind };
        if last.path.len() >= 2 {
            let now = before.push(last);
            assert(now =~= before + seq![last]);
            lemma_sum_has(before, seq![last], l);
            assert(seq![last].contains(l) <==> l == last) by {
                if l == last {
                    assert(seq![last][0] == l);
                }
            }
        }
    }
}

/// What a feature is called: the text of the value that its first pair with the
/// number of the key names. The number of a key is that of the first key with the
/// name.
pub proof fn properties_are_found_by_their_key(
    layer: LayerModel,
    feature: FeatureModel,
    name: Seq<char>,
    key: int,
    pair: int,
)
    requires
        0 <= key < layer.keys.len(),
        layer.keys[key] == name,
        forall|i: int| 0 <= i < key ==> #[trigger] layer.keys[i] != name,
        0 <= pair,
        2 * pair + 1 < feature.tags.len(),
        feature.tags[2 * pair] == key,
        forall|i: int| 0 <= i < pair ==> #[trigger] feature.tags[2 * i] != key,
    ensures
        property(layer, feature, name) == ({
            let v = feature.tags[2 * pair + 1] as int;
            if v < layer.values.len() {
                layer.values[v]
            } else {
                None
            }
        }),
{
    lemma_key_number(layer.keys, name, 0, key);
    lemma_value_number(feature.tags, key, 0, pair);
}

proof fn lemma_key_number(keys: Seq<Seq<char>>, name: Seq<char>, from: int, key: int)
    requires
        0 <= from <= key < keys.len(),
        keys[key] == name,
        forall|i: int| 0 <= i < key ==> #[trigger] keys[i] != name,
    ensures
        key_number(keys, name, from) == Some(key),
    decreases key - from,
{
    if from < key {
        assert(keys[from] != name);
        lemma_key_number(keys, name, from + 1, key);
    }
}

proof fn lemma_value_number(tags: Seq<u32>, key: int, from: int, pair: int)
    requires
        0 <= from <= pair,
        2 * pair + 1 < tags.len(),
        tags[2 * pair] == key,
        forall|i: int| 0 <= i < pair ==> #[trigger] tags[2 * i] != key,
    ensures
        value_number(tags, key, from) == Some(tags[2 * pair + 1] as int),
    decreases pair - from,
{
    if from < pair {
        assert(tags[2 * from] != key);
        lemma_value_number(tags, key, from + 1, pair);
    }
}

/// A feature has no text under a key that the layer does not have, nor under one
/// that none of its pairs names.
pub proof fn properties_without_a_key_are_missing(
    layer: LayerModel,
    feature: FeatureModel,
    name: Seq<char>,
)
    requires
        forall|i: int, p: int|
            0 <= i < layer.keys.len() && 0 <= p && 2 * p + 1 < feature.tags.len()
                && #[trigger] layer.keys[i] == name ==> #[trigger] feature.tags[2 * p] != i,
    ensures
        property(layer, feature, name) is None,
{
    if let Some(key) = key_number(layer.keys, name, 0) {
        lemma_key_found(layer.keys, name, 0);
        assert forall|p: int| 0 <= p && 2 * p + 1 < feature.tags.len() implies #[trigger] feature.tags[2
            * p] != key by {
            assert(layer.keys[key] == name);
        }
        lemma_no_value(feature.tags, key, 0);
    }
}

proof fn lemma_key_found(keys: Seq<Seq<char>>, name: Seq<char>, from: int)
    requires
        0 <= from,
    ensures
        key_number(keys, name, from) matches Some(key) ==> from <= key < keys.len() && keys[key]
            == name,
    decreases keys.len() - from,
{
    if from < keys.len() && keys[from] != name {
        lemma_key_found(keys, name, from + 1);
    }
}

proof fn lemma_no_value(tags: Seq<u32>, key: int, from: int)
    requires
        0 <= from,
        forall|p: int| 0 <= p && 2 * p + 1 < tags.len() ==> #[trigger] tags[2 * p] != key,
    ensures
        value_number(tags, key, from) is None,
    decreases tags.len() - 2 * from,
{
    if 2 * from + 1 < tags.len() {
        assert(tags[2 * from] != key);
        lemma_no_value(tags, key, from + 1);
    }
}

/// Which name a feature is labelled with: its annotation; without one its name in
/// Chinese characters; and an empty text is none, an empty annotation too.
pub proof fn annotations_come_before_names(layer: LayerModel, feature: FeatureModel, t: Seq<char>)
    ensures
        label_text(layer, feature) == Some(t) <==> t.len() > 0 && (property(
            layer,
            feature,
            "annoChar"@,
        ) == Some(t) || (property(layer, feature, "annoChar"@) is None && property(
            layer,
            feature,
            "knj"@,
        ) == Some(t))),
{
}

/// Whether a label is that of feature `j` of layer `i`: its name, at the point at
/// which its first path starts.
pub open spec fn is_label(layers: Seq<LayerModel>, l: LabelModel, i: int, j: int) -> bool {
    &&& 0 <= i < layers.len()
    &&& layers[i].name == "label"@
    &&& 0 <= j < layers[i].features.len()
    &&& label_text(layers[i], layers[i].features[j]) == Some(l.text)
    &&& geom_paths(layers[i].features[j].geometry).len() > 0
    &&& l.at == geom_paths(layers[i].features[j].geometry)[0][0]
    &&& l.extent == side(layers[i].extent)
}

/// The labels of a tile are those of the named features with a path in its label
/// layers: each label is one, and each such feature has its label.
pub proof fn labels_are_those_of_the_named_features(layers: Seq<LayerModel>, n: nat, l: LabelModel)
    requires
        n <= layers.len(),
    ensures
        layer_labels(layers, n).contains(l) <==> exists|i: int, j: int|
            i < n && #[trigger] is_label(layers, l, i, j),
    decreases n,
{
    if n > 0 {
        labels_are_those_of_the_named_features(layers, (n - 1) as nat, l);
        let layer = layers[n - 1];
        if layer.name == "label"@ {
            let before = layer_labels(layers, (n - 1) as nat);
            let own = feature_labels(layer, layer.features.len());
            lemma_feature_labels_has(layer, layer.features.len(), l);
            lemma_label_sum_has(before, own, l);
            if own.contains(l) {
                let j = choose|j: int|
                    0 <= j < layer.features.len() && feature_label(
                        layer,
                        #[trigger] layer.features[j],
                    ) == Some(l);
                assert(is_label(layers, l, n - 1, j));
            }
            if exists|j: int| #[trigger] is_label(layers, l, n - 1, j) {
                let j = choose|j: int| #[trigger] is_label(layers, l, n - 1, j);
                assert(feature_label(layer, layer.features[j]) == Some(l));
            }
        }
    }
}

proof fn lemma_label_sum_has(a: Seq<LabelModel>, b: Seq<LabelModel>, l: LabelModel)
    ensures
        (a + b).contains(l) <==> a.contains(l) || b.contains(l),
{
    if a.contains(l) {
        let i = choose|i: int| 0 <= i < a.len() && a[i] == l;
        assert((a + b)[i] == l);
    }
    if b.contains(l) {
        let i = choose|i: int| 0 <= i < b.len() && b[i] == l;
        assert((a + b)[a.len() + i] == l);
    }
    if (a + b).contains(l) {
        let i = choose|i: int| 0 <= i < (a + b).len() && (a + b)[i] == l;
        if i < a.len() {
            assert(a[i] == l);
        } else {
            assert(b[i - a.len()] == l);
        }
    }
}

proof fn lemma_feature_labels_has(layer: LayerModel, n: nat, l: LabelModel)
    requires
        n <= layer.features.len(),
    ensures
        feature_labels(layer, n).contains(l) <==> exists|j: int|
            0 <= j < n && feature_label(layer, #[trigger] layer.features[j]) == Some(l),
    decreases n,
{
    if n > 0 {
        lemma_feature_labels_has(layer, (n - 1) as nat, l);
        let before = feature_labels(layer, (n - 1) as nat);
        if let Some(last) = feature_label(layer, layer.features[n - 1]) {
            assert(before.push(last) =~= before + seq![last]);
            lemma_label_sum_has(before, seq![last], l);
            assert(seq![last].contains(l) <==> l == last) by {
                if l == last {
                    assert(seq![last][0] == l);
                }
            }
        }
    }
}

/// Whether a tile can be drawn: every point of every feature in a layer that is
/// drawn has coordinates of 32 bits, and what is in other layers does not matter.
pub proof fn tiles_are_drawn_where_their_points_fit(layers: Seq<LayerModel>, roads: bool)
    ensures
        lines_fit(layers, roads) <==> forall|i: int, j: int|
            #![trigger layers[i].features[j]]
            0 <= i < layers.len() && 0 <= j < layers[i].features.len() && line_kind(
                layers[i].name,
                roads,
                has_layer(layers, "coastline"@),
            ) is Some ==> geom_fits(layers[i].features[j].geometry),
        labels_fit(layers) <==> forall|i: int, j: int|
            #![trigger layers[i].features[j]]
            0 <= i < layers.len() && 0 <= j < layers[i].features.len() && layers[i].name
                == "label"@ && label_text(layers[i], layers[i].features[j]) is Some ==> geom_fits(
                layers[i].features[j].geometry,
            ),
{
    if lines_fit(layers, roads) {
        assert forall|i: int, j: int|
            #![trigger layers[i].features[j]]
            0 <= i < layers.len() && 0 <= j < layers[i].features.len() && line_kind(
                layers[i].name,
                roads,
                has_layer(layers, "coastline"@),
            ) is Some implies geom_fits(layers[i].features[j].geometry) by {
            assert(layer_fits(layers[i]));
        }
    }
    if labels_fit(layers) {
        assert forall|i: int, j: int|
            #![trigger layers[i].features[j]]
            0 <= i < layers.len() && 0 <= j < layers[i].features.len() && layers[i].name
                == "label"@ && label_text(layers[i], layers[i].features[j]) is Some implies geom_fits(
            layers[i].features[j].geometry,
        ) by {
            assert(names_fit(layers[i]));
        }
    }
}

} // verus!
