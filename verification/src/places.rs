//! Built-in cities, and where their names go on the map.

use vstd::prelude::*;

use crate::storage::{labels_new, labels_of, labels_push, labels_slice, LabelVec, MAX_LABELS};
use crate::width::{columns, text_columns, text_width};

verus! {

/// A built-in city.
#[derive(Clone, Copy)]
pub struct City {
    /// Name in Latin letters.
    pub name: &'static str,
    /// Name in Japanese, as it is shown.
    pub name_ja: &'static str,
    /// Latitude in hundredths of a degree.
    pub lat: i32,
    /// Longitude in hundredths of a degree.
    pub lon: i32,
    /// 0 for the three largest, 1 for regional centres, 2 for prefectural
    /// capitals. The lower, the farther out it is shown.
    pub rank: u8,
}

/// What a [`City`] holds.
pub struct CityModel {
    pub name: Seq<char>,
    pub name_ja: Seq<char>,
    pub lat: int,
    pub lon: int,
    pub rank: int,
}

impl City {
    pub open spec fn model(self) -> CityModel {
        CityModel {
            name: self.name@,
            name_ja: self.name_ja@,
            lat: self.lat as int,
            lon: self.lon as int,
            rank: self.rank as int,
        }
    }
}

/// How many cities there are.
pub const CITY_COUNT: usize = 47;

/// The cities, by rank.
pub open spec fn city_table() -> Seq<CityModel> {
    seq![
        CityModel { name: "Tokyo"@, name_ja: "東京"@, lat: 3569, lon: 13969, rank: 0 },
        CityModel { name: "Osaka"@, name_ja: "大阪"@, lat: 3469, lon: 13550, rank: 0 },
        CityModel { name: "Nagoya"@, name_ja: "名古屋"@, lat: 3518, lon: 13691, rank: 0 },
        CityModel { name: "Sapporo"@, name_ja: "札幌"@, lat: 4306, lon: 14135, rank: 1 },
        CityModel { name: "Sendai"@, name_ja: "仙台"@, lat: 3827, lon: 14087, rank: 1 },
        CityModel { name: "Yokohama"@, name_ja: "横浜"@, lat: 3544, lon: 13964, rank: 1 },
        CityModel { name: "Kyoto"@, name_ja: "京都"@, lat: 3501, lon: 13577, rank: 1 },
        CityModel { name: "Kobe"@, name_ja: "神戸"@, lat: 3469, lon: 13520, rank: 1 },
        CityModel { name: "Hiroshima"@, name_ja: "広島"@, lat: 3439, lon: 13246, rank: 1 },
        CityModel { name: "Fukuoka"@, name_ja: "福岡"@, lat: 3359, lon: 13040, rank: 1 },
        CityModel { name: "Naha"@, name_ja: "那覇"@, lat: 2621, lon: 12768, rank: 1 },
        CityModel { name: "Aomori"@, name_ja: "青森"@, lat: 4082, lon: 14074, rank: 2 },
        CityModel { name: "Morioka"@, name_ja: "盛岡"@, lat: 3970, lon: 14115, rank: 2 },
        CityModel { name: "Akita"@, name_ja: "秋田"@, lat: 3972, lon: 14010, rank: 2 },
        CityModel { name: "Yamagata"@, name_ja: "山形"@, lat: 3824, lon: 14036, rank: 2 },
        CityModel { name: "Fukushima"@, name_ja: "福島"@, lat: 3775, lon: 14047, rank: 2 },
        CityModel { name: "Mito"@, name_ja: "水戸"@, lat: 3637, lon: 14047, rank: 2 },
        CityModel { name: "Utsunomiya"@, name_ja: "宇都宮"@, lat: 3657, lon: 13988, rank: 2 },
        CityModel { name: "Maebashi"@, name_ja: "前橋"@, lat: 3639, lon: 13906, rank: 2 },
        CityModel { name: "Saitama"@, name_ja: "さいたま"@, lat: 3586, lon: 13965, rank: 2 },
        CityModel { name: "Chiba"@, name_ja: "千葉"@, lat: 3561, lon: 14012, rank: 2 },
        CityModel { name: "Niigata"@, name_ja: "新潟"@, lat: 3790, lon: 13902, rank: 2 },
        CityModel { name: "Toyama"@, name_ja: "富山"@, lat: 3670, lon: 13721, rank: 2 },
        CityModel { name: "Kanazawa"@, name_ja: "金沢"@, lat: 3656, lon: 13666, rank: 2 },
        CityModel { name: "Fukui"@, name_ja: "福井"@, lat: 3606, lon: 13622, rank: 2 },
        CityModel { name: "Kofu"@, name_ja: "甲府"@, lat: 3566, lon: 13857, rank: 2 },
        CityModel { name: "Nagano"@, name_ja: "長野"@, lat: 3665, lon: 13818, rank: 2 },
        CityModel { name: "Gifu"@, name_ja: "岐阜"@, lat: 3542, lon: 13676, rank: 2 },
        CityModel { name: "Shizuoka"@, name_ja: "静岡"@, lat: 3498, lon: 13838, rank: 2 },
        CityModel { name: "Tsu"@, name_ja: "津"@, lat: 3473, lon: 13651, rank: 2 },
        CityModel { name: "Otsu"@, name_ja: "大津"@, lat: 3500, lon: 13587, rank: 2 },
        CityModel { name: "Nara"@, name_ja: "奈良"@, lat: 3469, lon: 13580, rank: 2 },
        CityModel { name: "Wakayama"@, name_ja: "和歌山"@, lat: 3423, lon: 13517, rank: 2 },
        CityModel { name: "Tottori"@, name_ja: "鳥取"@, lat: 3550, lon: 13424, rank: 2 },
        CityModel { name: "Matsue"@, name_ja: "松江"@, lat: 3547, lon: 13305, rank: 2 },
        CityModel { name: "Okayama"@, name_ja: "岡山"@, lat: 3466, lon: 13393, rank: 2 },
        CityModel { name: "Yamaguchi"@, name_ja: "山口"@, lat: 3419, lon: 13147, rank: 2 },
        CityModel { name: "Tokushima"@, name_ja: "徳島"@, lat: 3407, lon: 13455, rank: 2 },
        CityModel { name: "Takamatsu"@, name_ja: "高松"@, lat: 3434, lon: 13404, rank: 2 },
        CityModel { name: "Matsuyama"@, name_ja: "松山"@, lat: 3384, lon: 13277, rank: 2 },
        CityModel { name: "Kochi"@, name_ja: "高知"@, lat: 3356, lon: 13353, rank: 2 },
        CityModel { name: "Saga"@, name_ja: "佐賀"@, lat: 3325, lon: 13030, rank: 2 },
        CityModel { name: "Nagasaki"@, name_ja: "長崎"@, lat: 3274, lon: 12987, rank: 2 },
        CityModel { name: "Kumamoto"@, name_ja: "熊本"@, lat: 3279, lon: 13074, rank: 2 },
        CityModel { name: "Oita"@, name_ja: "大分"@, lat: 3324, lon: 13161, rank: 2 },
        CityModel { name: "Miyazaki"@, name_ja: "宮崎"@, lat: 3191, lon: 13142, rank: 2 },
        CityModel { name: "Kagoshima"@, name_ja: "鹿児島"@, lat: 3156, lon: 13056, rank: 2 },
    ]
}

/// The cities, by rank.
pub fn cities() -> (table: [City; 47])
    ensures
        forall|i: int| 0 <= i < CITY_COUNT ==> (#[trigger] table@[i]).model() == city_table()[i],
{
    [
        City { name: "Tokyo", name_ja: "東京", lat: 3569, lon: 13969, rank: 0 },
        City { name: "Osaka", name_ja: "大阪", lat: 3469, lon: 13550, rank: 0 },
        City { name: "Nagoya", name_ja: "名古屋", lat: 3518, lon: 13691, rank: 0 },
        City { name: "Sapporo", name_ja: "札幌", lat: 4306, lon: 14135, rank: 1 },
        City { name: "Sendai", name_ja: "仙台", lat: 3827, lon: 14087, rank: 1 },
        City { name: "Yokohama", name_ja: "横浜", lat: 3544, lon: 13964, rank: 1 },
        City { name: "Kyoto", name_ja: "京都", lat: 3501, lon: 13577, rank: 1 },
        City { name: "Kobe", name_ja: "神戸", lat: 3469, lon: 13520, rank: 1 },
        City { name: "Hiroshima", name_ja: "広島", lat: 3439, lon: 13246, rank: 1 },
        City { name: "Fukuoka", name_ja: "福岡", lat: 3359, lon: 13040, rank: 1 },
        City { name: "Naha", name_ja: "那覇", lat: 2621, lon: 12768, rank: 1 },
        City { name: "Aomori", name_ja: "青森", lat: 4082, lon: 14074, rank: 2 },
        City { name: "Morioka", name_ja: "盛岡", lat: 3970, lon: 14115, rank: 2 },
        City { name: "Akita", name_ja: "秋田", lat: 3972, lon: 14010, rank: 2 },
        City { name: "Yamagata", name_ja: "山形", lat: 3824, lon: 14036, rank: 2 },
        City { name: "Fukushima", name_ja: "福島", lat: 3775, lon: 14047, rank: 2 },
        City { name: "Mito", name_ja: "水戸", lat: 3637, lon: 14047, rank: 2 },
        City { name: "Utsunomiya", name_ja: "宇都宮", lat: 3657, lon: 13988, rank: 2 },
        City { name: "Maebashi", name_ja: "前橋", lat: 3639, lon: 13906, rank: 2 },
        City { name: "Saitama", name_ja: "さいたま", lat: 3586, lon: 13965, rank: 2 },
        City { name: "Chiba", name_ja: "千葉", lat: 3561, lon: 14012, rank: 2 },
        City { name: "Niigata", name_ja: "新潟", lat: 3790, lon: 13902, rank: 2 },
        City { name: "Toyama", name_ja: "富山", lat: 3670, lon: 13721, rank: 2 },
        City { name: "Kanazawa", name_ja: "金沢", lat: 3656, lon: 13666, rank: 2 },
        City { name: "Fukui", name_ja: "福井", lat: 3606, lon: 13622, rank: 2 },
        City { name: "Kofu", name_ja: "甲府", lat: 3566, lon: 13857, rank: 2 },
        City { name: "Nagano", name_ja: "長野", lat: 3665, lon: 13818, rank: 2 },
        City { name: "Gifu", name_ja: "岐阜", lat: 3542, lon: 13676, rank: 2 },
        City { name: "Shizuoka", name_ja: "静岡", lat: 3498, lon: 13838, rank: 2 },
        City { name: "Tsu", name_ja: "津", lat: 3473, lon: 13651, rank: 2 },
        City { name: "Otsu", name_ja: "大津", lat: 3500, lon: 13587, rank: 2 },
        City { name: "Nara", name_ja: "奈良", lat: 3469, lon: 13580, rank: 2 },
        City { name: "Wakayama", name_ja: "和歌山", lat: 3423, lon: 13517, rank: 2 },
        City { name: "Tottori", name_ja: "鳥取", lat: 3550, lon: 13424, rank: 2 },
        City { name: "Matsue", name_ja: "松江", lat: 3547, lon: 13305, rank: 2 },
        City { name: "Okayama", name_ja: "岡山", lat: 3466, lon: 13393, rank: 2 },
        City { name: "Yamaguchi", name_ja: "山口", lat: 3419, lon: 13147, rank: 2 },
        City { name: "Tokushima", name_ja: "徳島", lat: 3407, lon: 13455, rank: 2 },
        City { name: "Takamatsu", name_ja: "高松", lat: 3434, lon: 13404, rank: 2 },
        City { name: "Matsuyama", name_ja: "松山", lat: 3384, lon: 13277, rank: 2 },
        City { name: "Kochi", name_ja: "高知", lat: 3356, lon: 13353, rank: 2 },
        City { name: "Saga", name_ja: "佐賀", lat: 3325, lon: 13030, rank: 2 },
        City { name: "Nagasaki", name_ja: "長崎", lat: 3274, lon: 12987, rank: 2 },
        City { name: "Kumamoto", name_ja: "熊本", lat: 3279, lon: 13074, rank: 2 },
        City { name: "Oita", name_ja: "大分", lat: 3324, lon: 13161, rank: 2 },
        City { name: "Miyazaki", name_ja: "宮崎", lat: 3191, lon: 13142, rank: 2 },
        City { name: "Kagoshima", name_ja: "鹿児島", lat: 3156, lon: 13056, rank: 2 },
    ]
}

/// A label of the map: a marker, and a name to the right of it.
#[derive(Clone, Copy)]
pub struct PlaceLabel {
    /// Where the name starts.
    pub col: u16,
    pub row: u16,
    /// Where the marker stands.
    pub marker_col: u16,
    /// The name that is shown. Wide characters take two cells each.
    pub name: &'static str,
}

/// What a [`PlaceLabel`] holds.
pub struct LabelModel {
    pub col: int,
    pub row: int,
    pub marker_col: int,
    pub name: Seq<char>,
}

impl PlaceLabel {
    pub open spec fn model(self) -> LabelModel {
        LabelModel {
            col: self.col as int,
            row: self.row as int,
            marker_col: self.marker_col as int,
            name: self.name@,
        }
    }
}

/// Cells from the marker to the name.
pub const MARKER_GAP: u16 = 2;

/// The highest rank that is shown at a zoom.
pub open spec fn max_rank(zoom: u8) -> int {
    if zoom <= 3 {
        0
    } else if zoom <= 5 {
        1
    } else {
        2
    }
}

/// The highest rank that is shown at a zoom.
pub fn zoom_to_max_rank(zoom: u8) -> (rank: u8)
    ensures
        rank == max_rank(zoom),
{
    match zoom {
        0..=3 => 0,
        4..=5 => 1,
        _ => 2,
    }
}

/// Zooming in never hides a rank.
pub proof fn ranks_grow_with_zoom(z1: u8, z2: u8)
    requires
        z1 <= z2,
    ensures
        0 <= max_rank(z1) <= max_rank(z2) <= 2,
{
}

/// `a + b`, at most the largest column.
pub open spec fn sat(a: int, b: int) -> int {
    if a + b > u16::MAX {
        u16::MAX as int
    } else {
        a + b
    }
}

/// How many cells a label takes: marker, gap and name.
pub open spec fn cells_of_label(name: Seq<char>) -> int {
    MARKER_GAP + columns(name)
}

/// How many cells a label takes: marker, gap and name.
pub fn label_width(name: &str) -> (w: u16)
    requires
        cells_of_label(name@) <= u16::MAX,
    ensures
        w == cells_of_label(name@),
{
    MARKER_GAP + text_columns(name)
}

/// How many cells a label takes; none if they do not fit sixteen bits.
pub fn try_label_width(name: &str) -> (w: Option<u16>)
    ensures
        match w {
            Some(w) => w == cells_of_label(name@),
            None => cells_of_label(name@) > u16::MAX,
        },
{
    if text_columns(name) <= u16::MAX - MARKER_GAP {
        Some(label_width(name))
    } else {
        None
    }
}

/// Where a label ends, at most at the largest column.
fn label_end(col: u16, name: &str) -> (end: u16)
    ensures
        end == sat(col as int, cells_of_label(name@)),
{
    col.saturating_add(MARKER_GAP).saturating_add(text_columns(name))
}

/// Whether labels at two places of one row share a cell.
pub open spec fn labels_collide(
    col1: int,
    row1: int,
    name1: Seq<char>,
    col2: int,
    row2: int,
    name2: Seq<char>,
) -> bool {
    row1 == row2 && col1 < sat(col2, cells_of_label(name2)) && col2 < sat(
        col1,
        cells_of_label(name1),
    )
}

/// Whether the labels of two cities, whose cells on the screen are given,
/// share a cell.
pub open spec fn cities_collide(cells: Seq<Option<(u16, u16)>>, i: int, j: int) -> bool {
    match (cells[i], cells[j]) {
        (Some((c1, r1)), Some((c2, r2))) => labels_collide(
            c1 as int,
            r1 as int,
            city_table()[i].name_ja,
            c2 as int,
            r2 as int,
            city_table()[j].name_ja,
        ),
        _ => false,
    }
}

/// Whether a city's label collides with that of one of the cities placed.
pub open spec fn blocked(cells: Seq<Option<(u16, u16)>>, placed: Seq<int>, i: int) -> bool {
    exists|k: int| 0 <= k < placed.len() && cities_collide(cells, i, #[trigger] placed[k])
}

/// The cities placed when the first `n` cities have been tried for a rank: a
/// city of that rank is placed if it is on the screen, collides with none
/// placed before, and there is room.
pub open spec fn placed_in_rank(
    cells: Seq<Option<(u16, u16)>>,
    rank: int,
    n: nat,
    before: Seq<int>,
) -> Seq<int>
    decreases n,
{
    if n == 0 {
        before
    } else {
        let placed = placed_in_rank(cells, rank, (n - 1) as nat, before);
        let i = n - 1;
        if city_table()[i].rank == rank && cells[i] is Some && !blocked(cells, placed, i)
            && placed.len() < MAX_LABELS {
            placed.push(i)
        } else {
            placed
        }
    }
}

/// The cities placed when the lowest `ranks` ranks have been tried in turn.
pub open spec fn placed_cities(cells: Seq<Option<(u16, u16)>>, ranks: nat) -> Seq<int>
    decreases ranks,
{
    if ranks == 0 {
        Seq::empty()
    } else {
        placed_in_rank(
            cells,
            ranks - 1,
            CITY_COUNT as nat,
            placed_cities(cells, (ranks - 1) as nat),
        )
    }
}

/// The column of a cell that is on the screen.
pub open spec fn cell_col(cell: Option<(u16, u16)>) -> int {
    match cell {
        Some((col, _)) => col as int,
        None => 0,
    }
}

/// The row of a cell that is on the screen.
pub open spec fn cell_row(cell: Option<(u16, u16)>) -> int {
    match cell {
        Some((_, row)) => row as int,
        None => 0,
    }
}

/// The label of a city.
pub open spec fn city_label(cells: Seq<Option<(u16, u16)>>, i: int) -> LabelModel {
    LabelModel {
        col: sat(cell_col(cells[i]), MARKER_GAP as int),
        row: cell_row(cells[i]),
        marker_col: cell_col(cells[i]),
        name: city_table()[i].name_ja,
    }
}

/// What labels hold when cities are placed.
pub open spec fn show_placed(
    labels: Seq<PlaceLabel>,
    cells: Seq<Option<(u16, u16)>>,
    placed: Seq<int>,
) -> bool {
    &&& labels.len() == placed.len()
    &&& forall|k: int|
        0 <= k < placed.len() ==> 0 <= #[trigger] placed[k] < CITY_COUNT && cells[placed[k]] is Some
            && labels[k].model() == city_label(cells, placed[k])
}

/// Whether a label at the place collides with one of those given.
fn overlaps(placed: &[PlaceLabel], marker_col: u16, row: u16, name: &str) -> (r: bool)
    ensures
        r == exists|k: int|
            0 <= k < placed@.len() && labels_collide(
                marker_col as int,
                row as int,
                name@,
                (#[trigger] placed@[k]).marker_col as int,
                placed@[k].row as int,
                placed@[k].name@,
            ),
{
    let a1: u16 = label_end(marker_col, name);
    let mut k: usize = 0;
    while k < placed.len()
        invariant
            k <= placed@.len(),
            a1 == sat(marker_col as int, cells_of_label(name@)),
            forall|j: int|
                0 <= j < k ==> !labels_collide(
                    marker_col as int,
                    row as int,
                    name@,
                    (#[trigger] placed@[j]).marker_col as int,
                    placed@[j].row as int,
                    placed@[j].name@,
                ),
        decreases placed@.len() - k,
    {
        let p = placed[k];
        if p.row == row {
            let b1: u16 = label_end(p.marker_col, p.name);
            if marker_col < b1 && p.marker_col < a1 {
                proof {
                    assert(labels_collide(
                        marker_col as int,
                        row as int,
                        name@,
                        placed@[k as int].marker_col as int,
                        placed@[k as int].row as int,
                        placed@[k as int].name@,
                    ));
                }
                return true;
            }
        }
        k = k + 1;
    }
    false
}

/// Places the names of the cities of the ranks shown at a zoom. `cells` gives
/// the cell of each city on the screen, none off it.
///
/// The more important city comes first; one whose label would collide with one
/// placed before is left out.
pub fn layout_city_labels(cells: &[Option<(u16, u16)>], zoom: u8) -> (out: LabelVec)
    requires
        cells@.len() == CITY_COUNT,
    ensures
        show_placed(
            labels_of(out),
            cells@,
            placed_cities(cells@, (max_rank(zoom) + 1) as nat),
        ),
{
    let mut out = labels_new();
    let table = cities();
    let last: u8 = zoom_to_max_rank(zoom);
    let ghost mut placed: Seq<int> = Seq::empty();
    let mut want: u8 = 0;
    while want <= last
        invariant
            want <= last + 1,
            last <= 2,
            cells@.len() == CITY_COUNT,
            placed == placed_cities(cells@, want as nat),
            show_placed(labels_of(out), cells@, placed),
            forall|i: int|
                0 <= i < CITY_COUNT ==> (#[trigger] table@[i]).model() == city_table()[i],
        decreases last + 1 - want,
    {
        let ghost before = placed;
        let mut i: usize = 0;
        while i < CITY_COUNT
            invariant
                i <= CITY_COUNT,
                cells@.len() == CITY_COUNT,
                placed == placed_in_rank(cells@, want as int, i as nat, before),
                show_placed(labels_of(out), cells@, placed),
                forall|i: int|
                    0 <= i < CITY_COUNT ==> (#[trigger] table@[i]).model() == city_table()[i],
            decreases CITY_COUNT - i,
        {
            let city = table[i];
            let ghost labels = labels_of(out);
            proof {
                assert(table@[i as int].model() == city_table()[i as int]);
            }
            if city.rank == want {
                if let Some((marker_col, row)) = cells[i] {
                    proof {
                        lemma_blocked(labels, cells@, placed, i as int);
                    }
                    if !overlaps(labels_slice(&out), marker_col, row, city.name_ja) {
                        let label = PlaceLabel {
                            col: marker_col.saturating_add(MARKER_GAP),
                            row,
                            marker_col,
                            name: city.name_ja,
                        };
                        let pushed = labels_push(&mut out, label);
                        proof {
                            if pushed {
                                placed = placed.push(i as int);
                            }
                        }
                    }
                }
            }
            i = i + 1;
        }
        want = want + 1;
    }
    out
}

/// A label collides with the labels placed exactly if its city is blocked.
proof fn lemma_blocked(
    labels: Seq<PlaceLabel>,
    cells: Seq<Option<(u16, u16)>>,
    placed: Seq<int>,
    i: int,
)
    requires
        show_placed(labels, cells, placed),
        0 <= i < CITY_COUNT,
        cells[i] is Some,
    ensures
        blocked(cells, placed, i) <==> exists|k: int|
            0 <= k < labels.len() && labels_collide(
                cell_col(cells[i]),
                cell_row(cells[i]),
                city_table()[i].name_ja,
                (#[trigger] labels[k]).marker_col as int,
                labels[k].row as int,
                labels[k].name@,
            ),
{
    assert forall|k: int| 0 <= k < labels.len() implies cities_collide(
        cells,
        i,
        #[trigger] placed[k],
    ) == labels_collide(
        cell_col(cells[i]),
        cell_row(cells[i]),
        city_table()[i].name_ja,
        labels[k].marker_col as int,
        labels[k].row as int,
        labels[k].name@,
    ) by {
        assert(labels[k].model() == city_label(cells, placed[k]));
    }
    if blocked(cells, placed, i) {
        let k = choose|k: int|
            0 <= k < placed.len() && cities_collide(cells, i, #[trigger] placed[k]);
        assert(labels_collide(
            cell_col(cells[i]),
            cell_row(cells[i]),
            city_table()[i].name_ja,
            labels[k].marker_col as int,
            labels[k].row as int,
            labels[k].name@,
        ));
    }
    if exists|k: int|
        0 <= k < labels.len() && labels_collide(
            cell_col(cells[i]),
            cell_row(cells[i]),
            city_table()[i].name_ja,
            (#[trigger] labels[k]).marker_col as int,
            labels[k].row as int,
            labels[k].name@,
        ) {
        let k = choose|k: int|
            0 <= k < labels.len() && labels_collide(
                cell_col(cells[i]),
                cell_row(cells[i]),
                city_table()[i].name_ja,
                (#[trigger] labels[k]).marker_col as int,
                labels[k].row as int,
                labels[k].name@,
            );
        assert(cities_collide(cells, i, placed[k]));
    }
}

/// What holds of the cities placed when the ranks below `rank`, and the first
/// `n` cities of `rank`, have been tried.
spec fn well_placed(cells: Seq<Option<(u16, u16)>>, placed: Seq<int>, rank: int, n: int) -> bool {
    &&& placed.no_duplicates()
    &&& forall|k: int|
        0 <= k < placed.len() ==> 0 <= #[trigger] placed[k] < CITY_COUNT && cells[placed[k]] is Some
            && (city_table()[placed[k]].rank < rank || (city_table()[placed[k]].rank == rank
            && placed[k] < n))
    &&& forall|a: int, b: int|
        0 <= a < b < placed.len() ==> !cities_collide(cells, #[trigger] placed[b], #[trigger] placed[a])
    &&& forall|i: int|
        #![trigger city_table()[i]]
        0 <= i < CITY_COUNT && cells[i] is Some && (0 <= city_table()[i].rank < rank || (
        city_table()[i].rank == rank && i < n)) && !placed.contains(i) ==> blocked_by_rank(
            cells,
            placed,
            i,
        )
}

/// Whether a city's label collides with that of a city placed whose rank is not
/// higher, and which stands before it in the table.
pub open spec fn blocked_by_rank(cells: Seq<Option<(u16, u16)>>, placed: Seq<int>, i: int) -> bool {
    exists|k: int|
        0 <= k < placed.len() && cities_collide(cells, i, #[trigger] placed[k])
            && city_table()[placed[k]].rank <= city_table()[i].rank && placed[k] < i
}

/// The table has the cities of lower ranks first.
proof fn lemma_ranks_ascend(i: int, j: int)
    requires
        0 <= i < CITY_COUNT,
        0 <= j < CITY_COUNT,
        city_table()[i].rank < city_table()[j].rank,
    ensures
        i < j,
{
    let (a, b) = (city_table()[i], city_table()[j]);
    assert((i < 3 ==> a.rank == 0) && (3 <= i < 11 ==> a.rank == 1) && (11 <= i ==> a.rank == 2));
    assert((j < 3 ==> b.rank == 0) && (3 <= j < 11 ==> b.rank == 1) && (11 <= j ==> b.rank == 2));
}

/// Different cities, so no more than there are.
proof fn lemma_placed_len(placed: Seq<int>)
    requires
        placed.no_duplicates(),
        forall|k: int| 0 <= k < placed.len() ==> 0 <= #[trigger] placed[k] < CITY_COUNT,
    ensures
        placed.len() <= CITY_COUNT,
{
    let all = vstd::set_lib::set_int_range(0, CITY_COUNT as int);
    vstd::set_lib::lemma_int_range(0, CITY_COUNT as int);
    placed.unique_seq_to_set();
    assert(placed.to_set().subset_of(all));
    vstd::set_lib::lemma_len_subset(placed.to_set(), all);
}

proof fn lemma_in_rank(cells: Seq<Option<(u16, u16)>>, rank: int, n: nat, before: Seq<int>)
    requires
        n <= CITY_COUNT,
        well_placed(cells, before, rank, 0),
    ensures
        well_placed(cells, placed_in_rank(cells, rank, n, before), rank, n as int),
    decreases n,
{
    if n > 0 {
        let m = (n - 1) as nat;
        lemma_in_rank(cells, rank, m, before);
        let placed = placed_in_rank(cells, rank, m, before);
        let now = placed_in_rank(cells, rank, n, before);
        lemma_placed_len(placed);
        let c = n - 1;
        if now != placed {
            assert(now == placed.push(c));
            assert forall|a: int, b: int| 0 <= a < b < now.len() implies !cities_collide(
                cells,
                #[trigger] now[b],
                #[trigger] now[a],
            ) by {
                if b == placed.len() {
                    assert(now[a] == placed[a]);
                } else {
                    assert(now[a] == placed[a] && now[b] == placed[b]);
                }
            }
            assert forall|k: int| 0 <= k < placed.len() implies now[k] == #[trigger] placed[k] by {}
        }
        assert forall|i: int|
            #![trigger city_table()[i]]
            0 <= i < CITY_COUNT && cells[i] is Some && (0 <= city_table()[i].rank < rank || (
            city_table()[i].rank == rank && i < n)) && !now.contains(i) implies blocked_by_rank(
            cells,
            now,
            i,
        ) by {
            if i == c && city_table()[i].rank == rank {
                if now != placed {
                    assert(now[placed.len() as int] == i);
                }
                assert(blocked(cells, placed, i));
                let k = choose|k: int|
                    0 <= k < placed.len() && cities_collide(cells, i, #[trigger] placed[k]);
                assert(now[k] == placed[k]);
                if city_table()[placed[k]].rank < rank {
                    lemma_ranks_ascend(placed[k], i);
                }
            } else {
                if placed.contains(i) {
                    let k = choose|k: int| 0 <= k < placed.len() && placed[k] == i;
                    assert(now[k] == i);
                }
                assert(blocked_by_rank(cells, placed, i));
                let k = choose|k: int|
                    0 <= k < placed.len() && cities_collide(cells, i, #[trigger] placed[k])
                        && city_table()[placed[k]].rank <= city_table()[i].rank && placed[k] < i;
                assert(now[k] == placed[k]);
            }
        }
    }
}

proof fn lemma_placed(cells: Seq<Option<(u16, u16)>>, ranks: nat)
    ensures
        well_placed(cells, placed_cities(cells, ranks), ranks as int, 0),
    decreases ranks,
{
    if ranks > 0 {
        let r = (ranks - 1) as nat;
        lemma_placed(cells, r);
        let before = placed_cities(cells, r);
        lemma_in_rank(cells, r as int, CITY_COUNT as nat, before);
        let now = placed_cities(cells, ranks);
        assert(well_placed(cells, now, r as int, CITY_COUNT as int));
    }
}

/// No two labels of a screen share a cell.
pub proof fn labels_never_collide(cells: Seq<Option<(u16, u16)>>, zoom: u8, a: int, b: int)
    requires
        0 <= a < placed_cities(cells, (max_rank(zoom) + 1) as nat).len(),
        0 <= b < placed_cities(cells, (max_rank(zoom) + 1) as nat).len(),
        a != b,
    ensures
        ({
            let placed = placed_cities(cells, (max_rank(zoom) + 1) as nat);
            placed[a] != placed[b] && !cities_collide(cells, placed[a], placed[b])
        }),
{
    lemma_placed(cells, (max_rank(zoom) + 1) as nat);
    let placed = placed_cities(cells, (max_rank(zoom) + 1) as nat);
    if a < b {
        assert(!cities_collide(cells, placed[b], placed[a]));
    } else {
        assert(!cities_collide(cells, placed[a], placed[b]));
    }
}

/// Only cities of the ranks shown at the zoom, and on the screen, are placed.
pub proof fn only_shown_ranks_are_placed(cells: Seq<Option<(u16, u16)>>, zoom: u8, a: int)
    requires
        0 <= a < placed_cities(cells, (max_rank(zoom) + 1) as nat).len(),
    ensures
        ({
            let c = placed_cities(cells, (max_rank(zoom) + 1) as nat)[a];
            0 <= c < CITY_COUNT && cells[c] is Some && city_table()[c].rank <= max_rank(zoom)
        }),
{
    lemma_placed(cells, (max_rank(zoom) + 1) as nat);
}

/// The more important city wins: one on the screen, of a rank that is shown, is
/// left out only where its label collides with that of a city at least as
/// important.
pub proof fn important_cities_win(cells: Seq<Option<(u16, u16)>>, zoom: u8, i: int)
    requires
        0 <= i < CITY_COUNT,
        cells[i] is Some,
        city_table()[i].rank <= max_rank(zoom),
        !placed_cities(cells, (max_rank(zoom) + 1) as nat).contains(i),
    ensures
        blocked_by_rank(cells, placed_cities(cells, (max_rank(zoom) + 1) as nat), i),
{
    lemma_placed(cells, (max_rank(zoom) + 1) as nat);
    let c = city_table()[i];
    assert(0 <= c.rank);
}

/// Whether the label of a city takes a column: from its marker, through the gap
/// of one cell after it, to the last column of its name.
pub open spec fn city_takes_column(cells: Seq<Option<(u16, u16)>>, i: int, c: int) -> bool {
    cells[i] matches Some((col, _)) && col <= c < col + 2 + text_width(
        city_table()[i].name_ja,
    ) as int % 65536
}

/// Whether two cities stand in one row of the screen.
pub open spec fn in_one_row(cells: Seq<Option<(u16, u16)>>, i: int, j: int) -> bool {
    cells[i] matches Some((_, a)) && cells[j] matches Some((_, b)) && a == b
}

/// City names never cover each other: the columns that the labels of two cities
/// placed in one row take, marker, gap and name, are disjoint.
pub proof fn city_labels_take_columns_of_their_own(
    cells: Seq<Option<(u16, u16)>>,
    zoom: u8,
    a: int,
    b: int,
    c: int,
)
    requires
        0 <= a < placed_cities(cells, (max_rank(zoom) + 1) as nat).len(),
        0 <= b < placed_cities(cells, (max_rank(zoom) + 1) as nat).len(),
        a != b,
        c < 65_535,
    ensures
        ({
            let placed = placed_cities(cells, (max_rank(zoom) + 1) as nat);
            in_one_row(cells, placed[a], placed[b]) ==> !(city_takes_column(cells, placed[a], c)
                && city_takes_column(cells, placed[b], c))
        }),
{
    labels_never_collide(cells, zoom, a, b);
    only_shown_ranks_are_placed(cells, zoom, a);
    only_shown_ranks_are_placed(cells, zoom, b);
}

/// A city is left out only where its label would cover another's: one on the
/// screen, of a rank that is shown, that is not placed shares a column in its row
/// with one placed that is at least as important, and before it in the table.
pub proof fn cities_are_left_out_only_for_want_of_room(
    cells: Seq<Option<(u16, u16)>>,
    zoom: u8,
    i: int,
)
    requires
        0 <= i < CITY_COUNT,
        cells[i] is Some,
        city_table()[i].rank <= max_rank(zoom),
        !placed_cities(cells, (max_rank(zoom) + 1) as nat).contains(i),
    ensures
        ({
            let placed = placed_cities(cells, (max_rank(zoom) + 1) as nat);
            exists|k: int, c: int|
                0 <= k < placed.len() && in_one_row(cells, i, #[trigger] placed[k])
                    && city_table()[placed[k]].rank <= city_table()[i].rank && placed[k] < i
                    && #[trigger] city_takes_column(cells, i, c) && city_takes_column(
                    cells,
                    placed[k],
                    c,
                )
        }),
{
    important_cities_win(cells, zoom, i);
    let placed = placed_cities(cells, (max_rank(zoom) + 1) as nat);
    let k = choose|k: int|
        0 <= k < placed.len() && cities_collide(cells, i, #[trigger] placed[k])
            && city_table()[placed[k]].rank <= city_table()[i].rank && placed[k] < i;
    let (x, y) = (cell_col(cells[i]), cell_col(cells[placed[k]]));
    let c = if x < y {
        y
    } else {
        x
    };
    assert(in_one_row(cells, i, placed[k]));
    assert(city_takes_column(cells, i, c));
    assert(city_takes_column(cells, placed[k], c));
}

/// A label stands at its city: the marker at the cell of the city, the name two
/// cells after it, and the name is the city's.
pub proof fn labels_stand_at_their_cities(
    labels: Seq<PlaceLabel>,
    cells: Seq<Option<(u16, u16)>>,
    placed: Seq<int>,
    k: int,
)
    requires
        show_placed(labels, cells, placed),
        0 <= k < labels.len(),
    ensures
        cells[placed[k]] == Some((labels[k].marker_col, labels[k].row)),
        labels[k].name@ == city_table()[placed[k]].name_ja,
        labels[k].marker_col <= 65_533 ==> labels[k].col == labels[k].marker_col + 2,
        labels[k].marker_col > 65_533 ==> labels[k].col == 65_535,
{
    assert(labels[k].model() == city_label(cells, placed[k]));
}

/// What is shown at a zoom: up to 3 the three largest cities, at 4 and 5 the
/// regional centres with them, and from 6 on all prefectural capitals.
pub proof fn ranks_are_shown_from_their_zoom_on(zoom: u8, i: int)
    requires
        0 <= i < CITY_COUNT,
    ensures
        i < 3 ==> city_table()[i].rank <= max_rank(zoom),
        3 <= i < 11 ==> (city_table()[i].rank <= max_rank(zoom) <==> zoom >= 4),
        11 <= i ==> (city_table()[i].rank <= max_rank(zoom) <==> zoom >= 6),
{
    let c = city_table()[i];
    assert((i < 3 ==> c.rank == 0) && (3 <= i < 11 ==> c.rank == 1) && (11 <= i ==> c.rank == 2));
}

/// Every city lies in Japan, between 24 and 46 degrees north and between 122 and
/// 146 degrees east.
pub proof fn cities_lie_in_japan(i: int)
    requires
        0 <= i < CITY_COUNT,
    ensures
        2_400 < city_table()[i].lat < 4_600,
        12_200 < city_table()[i].lon < 14_600,
{
    let c = city_table()[i];
    assert(2_400 < c.lat < 4_600 && 12_200 < c.lon < 14_600);
}

/// A label takes two cells more than its name: the marker, and the gap after it.
pub proof fn labels_take_two_cells_more(name: Seq<char>, a: int, b: int)
    ensures
        text_width(name) < 65_536 ==> cells_of_label(name) == text_width(name) + 2,
        a + b <= 65_535 ==> sat(a, b) == a + b,
        a + b >= 65_535 ==> sat(a, b) == 65_535,
{
}

} // verus!
