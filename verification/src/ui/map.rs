//! The map: lines, rain, the centre and place names, one over the other.

use vstd::prelude::*;

use crate::app::{App, JA_LABEL_ZOOM};
use crate::basemap::{BaseLine, BaseLineKind, NameLabelJa};
use crate::places::{
    layout_city_labels, max_rank, placed_cities, sat, show_placed, PlaceLabel,
    CITY_COUNT,
};
use crate::render::braille::{grid_drawing, quantize};
use crate::render::colormap::Rgb;
use crate::render::lines::{lines_drawing, rasterize_lines, strokes, PolyLine, Segment, Stroke};
use crate::render::DrawCell;
use crate::storage::{cells_slice, labels_of, labels_slice};
use crate::width::{columns, text_columns, text_width};

verus! {

/// The colour of a line of the base map.
pub open spec fn line_color(kind: BaseLineKind) -> Rgb {
    match kind {
        BaseLineKind::Coastline => Rgb { r: 90, g: 120, b: 150 },
        BaseLineKind::Boundary => Rgb { r: 80, g: 80, b: 90 },
        BaseLineKind::Road => Rgb { r: 110, g: 95, b: 80 },
        BaseLineKind::Railway => Rgb { r: 100, g: 100, b: 105 },
    }
}

/// The colour of a line of the base map.
pub fn color_for(kind: BaseLineKind) -> (c: Rgb)
    ensures
        c == line_color(kind),
{
    match kind {
        BaseLineKind::Coastline => Rgb::new(90, 120, 150),
        BaseLineKind::Boundary => Rgb::new(80, 80, 90),
        BaseLineKind::Road => Rgb::new(110, 95, 80),
        BaseLineKind::Railway => Rgb::new(100, 100, 105),
    }
}

/// The numbers of those of the first `n` lines that are of a kind.
pub open spec fn of_kind(lines: Seq<BaseLine>, kind: BaseLineKind, n: nat) -> Seq<int>
    decreases n,
{
    if n == 0 {
        Seq::empty()
    } else if lines[n - 1].kind == kind {
        of_kind(lines, kind, (n - 1) as nat).push(n - 1)
    } else {
        of_kind(lines, kind, (n - 1) as nat)
    }
}

/// The numbers of the lines in the order in which they are drawn: coastlines,
/// boundaries, roads, railways.
pub open spec fn draw_order(lines: Seq<BaseLine>) -> Seq<int> {
    of_kind(lines, BaseLineKind::Coastline, lines.len()) + of_kind(
        lines,
        BaseLineKind::Boundary,
        lines.len(),
    ) + of_kind(lines, BaseLineKind::Road, lines.len()) + of_kind(
        lines,
        BaseLineKind::Railway,
        lines.len(),
    )
}

/// Whether the segments are what `project` makes of a line.
pub open spec fn projected<S: Fn(&BaseLine) -> Vec<Segment>>(
    project: S,
    line: BaseLine,
    segments: Seq<Segment>,
) -> bool {
    exists|v: Vec<Segment>| v@ == segments && #[trigger] project.ensures((&line,), v)
}

/// Whether the strokes are what `project` makes of the lines, in the order in
/// which they are drawn and in their colours.
pub open spec fn strokes_for<S: Fn(&BaseLine) -> Vec<Segment>>(
    project: S,
    lines: Seq<BaseLine>,
    list: Seq<Stroke>,
) -> bool {
    let order = draw_order(lines);
    list.len() == order.len() && forall|k: int|
        0 <= k < list.len() ==> (#[trigger] list[k]).color == line_color(lines[order[k]].kind)
            && projected(project, lines[order[k]], list[k].segments)
}

/// Whether the cells are those of the lines, drawn on a screen.
pub open spec fn basemap_drawn<S: Fn(&BaseLine) -> Vec<Segment>>(
    project: S,
    lines: Seq<BaseLine>,
    cols: int,
    rows: int,
    cells: Seq<DrawCell>,
) -> bool {
    exists|list: Seq<Stroke>| #[trigger]
        strokes_for(project, lines, list) && cells == lines_drawing(list, cols, rows)
}

/// Appends the numbers of the lines of a kind.
fn push_kind(order: &mut Vec<usize>, lines: &Vec<BaseLine>, kind: BaseLineKind)
    requires
        forall|k: int| 0 <= k < old(order)@.len() ==> #[trigger] old(order)@[k] < lines@.len(),
    ensures
        numbers(final(order)@) == numbers(old(order)@) + of_kind(lines@, kind, lines@.len()),
        forall|k: int| 0 <= k < final(order)@.len() ==> #[trigger] final(order)@[k] < lines@.len(),
{
    proof {
        assert(numbers(order@) =~= numbers(order@) + of_kind(lines@, kind, 0));
    }
    let mut i: usize = 0;
    while i < lines.len()
        invariant
            i <= lines@.len(),
            numbers(order@) == numbers(old(order)@) + of_kind(lines@, kind, i as nat),
            forall|k: int| 0 <= k < order@.len() ==> #[trigger] order@[k] < lines@.len(),
        decreases lines@.len() - i,
    {
        let ghost before = numbers(order@);
        if lines[i].kind == kind {
            order.push(i);
            proof {
                assert(numbers(order@) =~= before.push(i as int));
            }
        }
        proof {
            assert(numbers(order@) =~= numbers(old(order)@) + of_kind(
                lines@,
                kind,
                (i + 1) as nat,
            ));
        }
        i = i + 1;
    }
}

spec fn numbers(order: Seq<usize>) -> Seq<int> {
    order.map_values(|i: usize| i as int)
}

/// Draws the lines of the base map. `project` makes the segments of a line that
/// are on the screen.
pub fn rasterize_basemap<S: Fn(&BaseLine) -> Vec<Segment>>(
    lines: &Vec<BaseLine>,
    cols: u16,
    rows: u16,
    project: &S,
) -> (cells: Vec<DrawCell>)
    requires
        forall|line: BaseLine| #[trigger] project.requires((&line,)),
    ensures
        basemap_drawn(*project, lines@, cols as int, rows as int, cells@),
{
    let mut order: Vec<usize> = Vec::new();
    proof {
        assert(numbers(order@) =~= Seq::<int>::empty());
    }
    push_kind(&mut order, lines, BaseLineKind::Coastline);
    push_kind(&mut order, lines, BaseLineKind::Boundary);
    push_kind(&mut order, lines, BaseLineKind::Road);
    push_kind(&mut order, lines, BaseLineKind::Railway);
    proof {
        assert(numbers(order@) =~= draw_order(lines@));
    }
    let mut segments: Vec<Vec<Segment>> = Vec::new();
    let mut i: usize = 0;
    while i < order.len()
        invariant
            i <= order@.len(),
            segments@.len() == i,
            numbers(order@) == draw_order(lines@),
            forall|k: int| 0 <= k < order@.len() ==> #[trigger] order@[k] < lines@.len(),
            forall|line: BaseLine| #[trigger] project.requires((&line,)),
            forall|k: int|
                0 <= k < i ==> projected(
                    *project,
                    lines@[order@[k] as int],
                    (#[trigger] segments@[k])@,
                ),
        decreases order@.len() - i,
    {
        let line = &lines[order[i]];
        let made = project(line);
        segments.push(made);
        i = i + 1;
    }
    let mut polys: Vec<PolyLine> = Vec::new();
    let mut j: usize = 0;
    while j < order.len()
        invariant
            j <= order@.len(),
            segments@.len() == order@.len(),
            polys@.len() == j,
            forall|k: int| 0 <= k < order@.len() ==> #[trigger] order@[k] < lines@.len(),
            forall|k: int|
                0 <= k < j ==> (#[trigger] polys@[k]).segments@ == segments@[k]@ && polys@[k].color
                    == line_color(lines@[order@[k] as int].kind),
        decreases order@.len() - j,
    {
        polys.push(
            PolyLine { segments: segments[j].as_slice(), color: color_for(lines[order[j]].kind) },
        );
        j = j + 1;
    }
    let drawn_cells = rasterize_lines(polys.as_slice(), cols, rows);
    proof {
        let list = strokes(polys@);
        assert forall|k: int| 0 <= k < list.len() implies (#[trigger] list[k]).color == line_color(
            lines@[draw_order(lines@)[k]].kind,
        ) && projected(*project, lines@[draw_order(lines@)[k]], list[k].segments) by {
            assert(numbers(order@)[k] == order@[k]);
            assert(list[k] == polys@[k].model());
            assert(projected(*project, lines@[order@[k] as int], segments@[k]@));
        }
        assert(strokes_for(*project, lines@, list));
    }
    copy_cells(cells_slice(&drawn_cells))
}

/// The cells of a list.
fn copy_cells(cells: &[DrawCell]) -> (out: Vec<DrawCell>)
    ensures
        out@ == cells@,
{
    let mut out: Vec<DrawCell> = Vec::new();
    let mut i: usize = 0;
    while i < cells.len()
        invariant
            i <= cells@.len(),
            out@ =~= cells@.take(i as int),
        decreases cells@.len() - i,
    {
        out.push(cells[i]);
        i = i + 1;
    }
    out
}

/// Grid columns and rows for the dot columns and rows of a screen.
pub type DotTables = (Vec<u16>, Vec<u16>);

/// Whether the cells are those of a grid, sampled by tables that `sample` makes
/// for its size and that of the screen.
pub open spec fn rain_drawn<T: Fn(u16, u16, u16, u16) -> DotTables>(
    sample: T,
    grid: crate::grid::Grid,
    cols: u16,
    rows: u16,
    cells: Seq<DrawCell>,
) -> bool {
    exists|t: DotTables| #[trigger]
        sample.ensures((grid.width, grid.height, cols, rows), t) && cells == grid_drawing(
            grid,
            t.0@,
            t.1@,
            cols as int,
            rows as int,
        )
}

/// Whether the tables that `sample` makes are long enough for any screen.
pub open spec fn samples_every_dot<T: Fn(u16, u16, u16, u16) -> DotTables>(sample: T) -> bool {
    &&& forall|w: u16, h: u16, cols: u16, rows: u16| #[trigger]
        sample.requires((w, h, cols, rows))
    &&& forall|w: u16, h: u16, cols: u16, rows: u16, t: DotTables| #[trigger]
        sample.ensures((w, h, cols, rows), t) ==> t.0@.len() >= 2 * cols && t.1@.len() >= 4 * rows
}

/// Draws the map lines anew if what they depend on has changed.
pub fn refresh_basemap<S: Fn(&BaseLine) -> Vec<Segment>>(
    app: &mut App,
    cols: u16,
    rows: u16,
    project: &S,
)
    requires
        forall|line: BaseLine| #[trigger] project.requires((&line,)),
    ensures
        ({
            let key = old(app).lines_key(cols, rows);
            match old(app).basemap {
                None => *final(app) == *old(app),
                Some(lines) => if old(app).render_cache.basemap_key == Some(key) {
                    *final(app) == *old(app)
                } else {
                    let cells = final(app).render_cache.basemap_cells;
                    basemap_drawn(*project, lines@, cols as int, rows as int, cells@)
                        && *final(app) == (App {
                        render_cache: crate::app::RenderCache {
                            basemap_key: Some(key),
                            basemap_cells: cells,
                            ..old(app).render_cache
                        },
                        ..*old(app)
                    })
                },
            }
        }),
{
    let key = app.basemap_key(cols, rows);
    let fresh: bool = match app.render_cache.basemap_key {
        Some(k) => k.0 == key.0 && k.1 == key.1 && k.2 == key.2 && k.3 == key.3 && k.4 == key.4
            && k.5 == key.5,
        None => false,
    };
    if fresh {
        return ;
    }
    let cells = match &app.basemap {
        Some(lines) => rasterize_basemap(lines, cols, rows, project),
        None => {
            return ;
        },
    };
    app.render_cache.basemap_cells = cells;
    app.render_cache.basemap_key = Some(key);
}

/// Draws the rain anew if what it depends on has changed.
pub fn refresh_radar<T: Fn(u16, u16, u16, u16) -> DotTables>(
    app: &mut App,
    cols: u16,
    rows: u16,
    sample: &T,
)
    requires
        old(app).wf(),
        samples_every_dot(*sample),
    ensures
        ({
            let key = old(app).rain_key(cols, rows);
            if !old(app).show_radar || old(app).frames@.len() == 0
                || old(app).render_cache.radar_key == Some(key) {
                *final(app) == *old(app)
            } else {
                let cells = final(app).render_cache.radar_cells;
                let grid = *old(app).frames@[old(app).frame_idx as int].grid;
                rain_drawn(*sample, grid, cols, rows, cells@) && *final(app) == (App {
                    render_cache: crate::app::RenderCache {
                        radar_key: Some(key),
                        radar_cells: cells,
                        ..old(app).render_cache
                    },
                    ..*old(app)
                })
            }
        }),
{
    if !app.show_radar {
        return ;
    }
    let key = app.radar_key(cols, rows);
    let fresh: bool = match app.render_cache.radar_key {
        Some(k) => k.0 == key.0 && k.1 == key.1 && k.2 == key.2 && k.3 == key.3,
        None => false,
    };
    if fresh {
        return ;
    }
    let cells = match app.current_frame() {
        Some(f) => {
            let (xs, ys) = sample(f.grid.width, f.grid.height, cols, rows);
            let drawn_cells = quantize(&f.grid, cols, rows, xs.as_slice(), ys.as_slice());
            copy_cells(cells_slice(&drawn_cells))
        },
        None => {
            return ;
        },
    };
    app.render_cache.radar_cells = cells;
    app.render_cache.radar_key = Some(key);
}

/// Whether the map lines have to be drawn anew.
pub open spec fn lines_stale(app: App, cols: u16, rows: u16) -> bool {
    app.basemap is Some && app.render_cache.basemap_key != Some(app.lines_key(cols, rows))
}

/// Whether the rain has to be drawn anew.
pub open spec fn rain_stale(app: App, cols: u16, rows: u16) -> bool {
    app.show_radar && app.frames@.len() > 0 && app.render_cache.radar_key != Some(
        app.rain_key(cols, rows),
    )
}

/// Anything new makes what is drawn stale: a new base map, a new centre, a new
/// zoom or a new size the map lines; a new timeline, another frame or a new
/// size the rain. Nothing else does.
pub proof fn news_make_drawings_stale(before: App, after: App, cols1: u16, rows1: u16, cols2: u16, rows2: u16)
    requires
        before.render_cache == after.render_cache,
        before.render_cache.basemap_key == Some(before.lines_key(cols1, rows1)),
        before.render_cache.radar_key == Some(before.rain_key(cols1, rows1)),
        after.basemap is Some,
        after.show_radar,
        after.frames@.len() > 0,
    ensures
        lines_stale(after, cols2, rows2) <==> !(before.basemap_version == after.basemap_version
            && before.center_lat == after.center_lat && before.center_lon == after.center_lon
            && before.zoom == after.zoom && cols1 == cols2 && rows1 == rows2),
        rain_stale(after, cols2, rows2) <==> !(before.radar_version == after.radar_version
            && before.frame_idx == after.frame_idx && cols1 == cols2 && rows1 == rows2),
{
}

/// The most place names of the base map on a screen.
pub const MAX_JA_LABELS: usize = 40;

/// A place name that may be placed: its cell, its number, and how many cells
/// its text takes.
#[derive(Clone, Copy, PartialEq, Eq, Debug, Structural)]
pub struct JaLabel {
    pub col: u16,
    pub row: u16,
    pub label: usize,
    pub width: u16,
}

/// Those of the first `n` place names that are on the screen.
pub open spec fn ja_candidates(
    labels: Seq<NameLabelJa>,
    cells: Seq<Option<(u16, u16)>>,
    n: nat,
) -> Seq<JaLabel>
    decreases n,
{
    if n == 0 {
        Seq::empty()
    } else {
        let before = ja_candidates(labels, cells, (n - 1) as nat);
        match cells[n - 1] {
            Some((col, row)) => before.push(
                JaLabel {
                    col,
                    row,
                    label: (n - 1) as usize,
                    width: columns(labels[n - 1].text@) as u16,
                },
            ),
            None => before,
        }
    }
}

/// Where a name of a width goes among the first `n`: behind those that are no
/// wider.
pub open spec fn width_place(list: Seq<JaLabel>, n: nat, width: u16) -> nat
    decreases n,
{
    if n > 0 && list[n - 1].width > width {
        width_place(list, (n - 1) as nat, width)
    } else {
        n
    }
}

/// The first `n` names by width, the shortest first; those of one width stay in
/// order.
pub open spec fn by_width(list: Seq<JaLabel>, n: nat) -> Seq<JaLabel>
    decreases n,
{
    if n == 0 {
        Seq::empty()
    } else {
        let before = by_width(list, (n - 1) as nat);
        before.insert(width_place(before, before.len(), list[n - 1].width) as int, list[n - 1])
    }
}

/// Whether two names of one row share a cell.
pub open spec fn ja_collide(a: JaLabel, b: JaLabel) -> bool {
    a.row == b.row && a.col < sat(b.col as int, 2 + b.width) && b.col < sat(
        a.col as int,
        2 + a.width,
    )
}

/// Whether a name shares a cell with one of those placed.
pub open spec fn ja_blocked(placed: Seq<JaLabel>, c: JaLabel) -> bool {
    exists|k: int| 0 <= k < placed.len() && ja_collide(c, #[trigger] placed[k])
}

/// The names placed of the first `n`: each that shares no cell with one placed
/// before, forty at most.
pub open spec fn ja_placed(list: Seq<JaLabel>, n: nat) -> Seq<JaLabel>
    decreases n,
{
    if n == 0 {
        Seq::empty()
    } else {
        let before = ja_placed(list, (n - 1) as nat);
        if before.len() < MAX_JA_LABELS && !ja_blocked(before, list[n - 1]) {
            before.push(list[n - 1])
        } else {
            before
        }
    }
}

/// The place names of the base map on a screen: the shortest first, forty at
/// most, none over another.
pub open spec fn ja_layout(labels: Seq<NameLabelJa>, cells: Seq<Option<(u16, u16)>>) -> Seq<JaLabel> {
    let list = ja_candidates(labels, cells, labels.len());
    let sorted = by_width(list, list.len());
    ja_placed(sorted, sorted.len())
}

fn ja_overlaps(placed: &Vec<JaLabel>, c: JaLabel) -> (r: bool)
    ensures
        r == ja_blocked(placed@, c),
{
    let end: u16 = c.col.saturating_add(2).saturating_add(c.width);
    let mut k: usize = 0;
    while k < placed.len()
        invariant
            k <= placed@.len(),
            end == sat(c.col as int, 2 + c.width),
            forall|j: int| 0 <= j < k ==> !ja_collide(c, #[trigger] placed@[j]),
        decreases placed@.len() - k,
    {
        let p = placed[k];
        if p.row == c.row && c.col < p.col.saturating_add(2).saturating_add(p.width) && p.col < end {
            proof {
                assert(ja_collide(c, placed@[k as int]));
            }
            return true;
        }
        k = k + 1;
    }
    false
}

/// Places the place names of the base map. `cells` gives the cell of each, none
/// off the screen.
pub fn layout_ja_labels(labels: &Vec<NameLabelJa>, cells: &[Option<(u16, u16)>]) -> (placed: Vec<
    JaLabel,
>)
    requires
        cells@.len() == labels@.len(),
    ensures
        placed@ == ja_layout(labels@, cells@),
        forall|k: int| 0 <= k < placed@.len() ==> (#[trigger] placed@[k]).label < labels@.len(),
{
    let mut sorted: Vec<JaLabel> = Vec::new();
    let ghost mut list: Seq<JaLabel> = Seq::empty();
    let mut i: usize = 0;
    while i < labels.len()
        invariant
            i <= labels@.len(),
            cells@.len() == labels@.len(),
            list == ja_candidates(labels@, cells@, i as nat),
            sorted@ == by_width(list, list.len()),
            forall|k: int|
                0 <= k < sorted@.len() ==> (#[trigger] sorted@[k]).label < labels@.len(),
        decreases labels@.len() - i,
    {
        if let Some((col, row)) = cells[i] {
            let width: u16 = text_columns(labels[i].text.as_str());
            let c = JaLabel { col, row, label: i, width };
            let mut k: usize = sorted.len();
            while k > 0 && sorted[k - 1].width > width
                invariant
                    k <= sorted@.len(),
                    width_place(sorted@, k as nat, width) == width_place(
                        sorted@,
                        sorted@.len(),
                        width,
                    ),
                decreases k,
            {
                k = k - 1;
            }
            let ghost before = sorted@;
            sorted.insert(k, c);
            proof {
                let now = list.push(c);
                lemma_by_width_prefix(now, list, list.len());
                assert(by_width(now, now.len()) == sorted@);
                list = now;
                assert forall|j: int| 0 <= j < sorted@.len() implies (#[trigger] sorted@[j]).label
                    < labels@.len() by {
                    if j < k {
                        assert(sorted@[j] == before[j]);
                    } else if j > k {
                        assert(sorted@[j] == before[j - 1]);
                    }
                }
            }
        }
        i = i + 1;
    }
    let mut placed: Vec<JaLabel> = Vec::new();
    let mut n: usize = 0;
    while n < sorted.len()
        invariant
            n <= sorted@.len(),
            placed@ == ja_placed(sorted@, n as nat),
            forall|k: int|
                0 <= k < sorted@.len() ==> (#[trigger] sorted@[k]).label < labels@.len(),
            forall|k: int|
                0 <= k < placed@.len() ==> (#[trigger] placed@[k]).label < labels@.len(),
        decreases sorted@.len() - n,
    {
        let c = sorted[n];
        if placed.len() < MAX_JA_LABELS && !ja_overlaps(&placed, c) {
            placed.push(c);
        }
        n = n + 1;
    }
    proof {
        lemma_by_width_len(list, list.len());
    }
    placed
}

proof fn lemma_by_width_prefix(longer: Seq<JaLabel>, list: Seq<JaLabel>, n: nat)
    requires
        n <= list.len() <= longer.len(),
        forall|k: int| 0 <= k < n ==> longer[k] == list[k],
    ensures
        by_width(longer, n) == by_width(list, n),
    decreases n,
{
    if n > 0 {
        lemma_by_width_prefix(longer, list, (n - 1) as nat);
    }
}

proof fn lemma_width_place(list: Seq<JaLabel>, n: nat, width: u16)
    requires
        n <= list.len(),
    ensures
        width_place(list, n, width) <= n,
        forall|i: int| width_place(list, n, width) <= i < n ==> (#[trigger] list[i]).width > width,
        width_place(list, n, width) > 0 ==> list[width_place(list, n, width) - 1].width <= width,
    decreases n,
{
    if n > 0 && list[n - 1].width > width {
        lemma_width_place(list, (n - 1) as nat, width);
    }
}

proof fn lemma_by_width_len(list: Seq<JaLabel>, n: nat)
    requires
        n <= list.len(),
    ensures
        by_width(list, n).len() == n,
    decreases n,
{
    if n > 0 {
        lemma_by_width_len(list, (n - 1) as nat);
        let before = by_width(list, (n - 1) as nat);
        lemma_width_place(before, before.len(), list[n - 1].width);
    }
}

/// No two place names on a screen share a cell, and there are forty at most.
pub proof fn ja_labels_never_collide(list: Seq<JaLabel>, n: nat)
    requires
        n <= list.len(),
    ensures
        ja_placed(list, n).len() <= MAX_JA_LABELS,
        forall|a: int, b: int|
            0 <= a < ja_placed(list, n).len() && 0 <= b < ja_placed(list, n).len() && a != b
                ==> !ja_collide(#[trigger] ja_placed(list, n)[a], #[trigger] ja_placed(list, n)[b]),
    decreases n,
{
    if n > 0 {
        ja_labels_never_collide(list, (n - 1) as nat);
    }
}

/// Shorter names come first, and the order in which names come changes nothing
/// but that between names of one width.
pub proof fn shorter_names_come_first(list: Seq<JaLabel>, n: nat)
    requires
        n <= list.len(),
    ensures
        by_width(list, n).to_multiset() == list.take(n as int).to_multiset(),
        forall|i: int, j: int|
            0 <= i <= j < by_width(list, n).len() ==> (#[trigger] by_width(list, n)[i]).width <= (
            #[trigger] by_width(list, n)[j]).width,
    decreases n,
{
    broadcast use vstd::seq_lib::group_to_multiset_ensures;

    if n > 0 {
        let m = (n - 1) as nat;
        shorter_names_come_first(list, m);
        let before = by_width(list, m);
        let c = list[n - 1];
        let p = width_place(before, before.len(), c.width);
        lemma_width_place(before, before.len(), c.width);
        let now = by_width(list, n);
        assert(now == before.insert(p as int, c));
        assert forall|i: int, j: int| 0 <= i <= j < now.len() implies (#[trigger] now[i]).width <= (
        #[trigger] now[j]).width by {
            let bi = if i < p {
                i
            } else {
                i - 1
            };
            let bj = if j < p {
                j
            } else {
                j - 1
            };
            if i != p && j != p {
                assert(before[bi].width <= before[bj].width);
            } else if i == p && j != p {
                assert(before[bj].width > c.width);
            } else if i != p && j == p {
                assert(before[bi].width <= before[p - 1].width);
            }
        }
        vstd::seq_lib::to_multiset_insert(before, p as int, c);
        assert(list.take(n as int) =~= list.take(m as int).push(c));
    } else {
        assert(list.take(0) =~= by_width(list, 0));
    }
}

/// One step of putting the map on a screen.
pub enum MapOp {
    /// Blank every cell.
    Clear,
    /// Put a glyph in its colour.
    Cell(DrawCell),
    /// Put the mark of the centre.
    Center { col: u16, row: u16 },
    /// Put a dot, a space and a name, in `room` cells at most.
    Label { col: u16, row: u16, room: u16, text: String },
}

/// What a [`MapOp`] holds.
pub enum OpModel {
    Clear,
    Cell(DrawCell),
    Center(int, int),
    Label(int, int, int, Seq<char>),
}

impl MapOp {
    pub open spec fn model(self) -> OpModel {
        match self {
            MapOp::Clear => OpModel::Clear,
            MapOp::Cell(c) => OpModel::Cell(c),
            MapOp::Center { col, row } => OpModel::Center(col as int, row as int),
            MapOp::Label { col, row, room, text } => OpModel::Label(
                col as int,
                row as int,
                room as int,
                text@,
            ),
        }
    }
}

/// What the steps of a list hold.
pub open spec fn op_models(ops: Seq<MapOp>) -> Seq<OpModel> {
    ops.map_values(|o: MapOp| o.model())
}

/// The steps for the first `n` cells: those that are on the screen.
pub open spec fn cell_ops(cells: Seq<DrawCell>, n: nat, cols: int, rows: int) -> Seq<OpModel>
    decreases n,
{
    if n == 0 {
        Seq::empty()
    } else {
        let before = cell_ops(cells, (n - 1) as nat, cols, rows);
        let c = cells[n - 1];
        if c.col < cols && c.row < rows {
            before.push(OpModel::Cell(c))
        } else {
            before
        }
    }
}

/// The steps with a label added, unless it starts off the screen. It is cut at
/// the right end.
pub open spec fn with_label(
    ops: Seq<OpModel>,
    col: int,
    row: int,
    text: Seq<char>,
    cols: int,
    rows: int,
) -> Seq<OpModel> {
    if row < rows && col < cols {
        ops.push(OpModel::Label(col, row, cols - col, text))
    } else {
        ops
    }
}

/// The steps for the first `n` city labels.
pub open spec fn city_ops(labels: Seq<PlaceLabel>, n: nat, cols: int, rows: int) -> Seq<OpModel>
    decreases n,
{
    if n == 0 {
        Seq::empty()
    } else {
        with_label(
            city_ops(labels, (n - 1) as nat, cols, rows),
            labels[n - 1].marker_col as int,
            labels[n - 1].row as int,
            labels[n - 1].name@,
            cols,
            rows,
        )
    }
}

/// The steps for the first `n` place names placed.
pub open spec fn ja_ops(
    labels: Seq<NameLabelJa>,
    placed: Seq<JaLabel>,
    n: nat,
    cols: int,
    rows: int,
) -> Seq<OpModel>
    decreases n,
{
    if n == 0 {
        Seq::empty()
    } else {
        with_label(
            ja_ops(labels, placed, (n - 1) as nat, cols, rows),
            placed[n - 1].col as int,
            placed[n - 1].row as int,
            labels[placed[n - 1].label as int].text@,
            cols,
            rows,
        )
    }
}

/// Whether `cells` is what `locate` says of the place names.
pub open spec fn located<J: Fn(&NameLabelJa) -> Option<(u16, u16)>>(
    locate: J,
    labels: Seq<NameLabelJa>,
    cells: Seq<Option<(u16, u16)>>,
) -> bool {
    cells.len() == labels.len() && forall|i: int|
        0 <= i < labels.len() ==> locate.ensures((&#[trigger] labels[i],), cells[i])
}

/// Whether the steps are those for the labels of the map: from a zoom on the
/// place names of the base map if they have been fetched, before it the
/// built-in cities of the ranks shown.
pub open spec fn label_steps<J: Fn(&NameLabelJa) -> Option<(u16, u16)>>(
    app: App,
    cities: Seq<Option<(u16, u16)>>,
    locate: J,
    cols: int,
    rows: int,
    steps: Seq<OpModel>,
) -> bool {
    if app.zoom >= JA_LABEL_ZOOM {
        match app.name_labels_ja {
            None => steps == Seq::<OpModel>::empty(),
            Some(labels) => exists|cells: Seq<Option<(u16, u16)>>| #[trigger]
                located(locate, labels@, cells) && steps == ja_ops(
                    labels@,
                    ja_layout(labels@, cells),
                    ja_layout(labels@, cells).len(),
                    cols,
                    rows,
                ),
        }
    } else {
        exists|labels: Seq<PlaceLabel>| #[trigger]
            show_placed(labels, cities, placed_cities(cities, (max_rank(app.zoom) + 1) as nat))
                && steps == city_ops(labels, labels.len(), cols, rows)
    }
}

/// The steps before the labels: blank, then the map lines, the rain over them,
/// and the centre over both.
pub open spec fn base_steps(app: App, cols: int, rows: int) -> Seq<OpModel> {
    let lines = app.render_cache.basemap_cells@;
    let rain = app.render_cache.radar_cells@;
    seq![OpModel::Clear] + (if app.basemap is Some {
        cell_ops(lines, lines.len(), cols, rows)
    } else {
        Seq::empty()
    }) + (if app.show_radar && app.frames@.len() > 0 {
        cell_ops(rain, rain.len(), cols, rows)
    } else {
        Seq::empty()
    }) + seq![OpModel::Center(cols / 2, rows / 2)]
}

/// Appends the steps for cells.
fn push_cells(ops: &mut Vec<MapOp>, cells: &Vec<DrawCell>, cols: u16, rows: u16)
    ensures
        op_models(final(ops)@) == op_models(old(ops)@) + cell_ops(
            cells@,
            cells@.len(),
            cols as int,
            rows as int,
        ),
{
    proof {
        assert(op_models(ops@) =~= op_models(ops@) + cell_ops(cells@, 0, cols as int, rows as int));
    }
    let mut i: usize = 0;
    while i < cells.len()
        invariant
            i <= cells@.len(),
            op_models(ops@) == op_models(old(ops)@) + cell_ops(
                cells@,
                i as nat,
                cols as int,
                rows as int,
            ),
        decreases cells@.len() - i,
    {
        let ghost before = op_models(ops@);
        let c = cells[i];
        if c.col < cols && c.row < rows {
            ops.push(MapOp::Cell(c));
            proof {
                assert(op_models(ops@) =~= before.push(OpModel::Cell(c)));
            }
        }
        proof {
            assert(op_models(ops@) =~= op_models(old(ops)@) + cell_ops(
                cells@,
                (i + 1) as nat,
                cols as int,
                rows as int,
            ));
        }
        i = i + 1;
    }
}

/// Appends the step for a label.
fn push_label(ops: &mut Vec<MapOp>, col: u16, row: u16, text: &str, cols: u16, rows: u16)
    ensures
        op_models(final(ops)@) == with_label(
            op_models(old(ops)@),
            col as int,
            row as int,
            text@,
            cols as int,
            rows as int,
        ),
{
    let ghost before = op_models(ops@);
    if row < rows && col < cols {
        let op = MapOp::Label { col, row, room: cols - col, text: text.to_owned() };
        ops.push(op);
        proof {
            assert(op_models(ops@) =~= before.push(op.model()));
        }
    }
}

/// The steps for the labels of the map.
fn label_ops<J: Fn(&NameLabelJa) -> Option<(u16, u16)>>(
    app: &App,
    cities: &[Option<(u16, u16)>],
    locate: &J,
    cols: u16,
    rows: u16,
) -> (ops: Vec<MapOp>)
    requires
        app.wf(),
        cities@.len() == CITY_COUNT,
        forall|l: NameLabelJa| #[trigger] locate.requires((&l,)),
    ensures
        label_steps(*app, cities@, *locate, cols as int, rows as int, op_models(ops@)),
{
    let mut ops: Vec<MapOp> = Vec::new();
    proof {
        assert(op_models(ops@) =~= Seq::<OpModel>::empty());
    }
    if app.zoom >= JA_LABEL_ZOOM {
        if let Some(labels) = &app.name_labels_ja {
            let mut cells: Vec<Option<(u16, u16)>> = Vec::new();
            let mut i: usize = 0;
            while i < labels.len()
                invariant
                    i <= labels@.len(),
                    cells@.len() == i,
                    forall|l: NameLabelJa| #[trigger] locate.requires((&l,)),
                    forall|k: int|
                        0 <= k < i ==> locate.ensures((&#[trigger] labels@[k],), cells@[k]),
                decreases labels@.len() - i,
            {
                cells.push(locate(&labels[i]));
                i = i + 1;
            }
            let placed = layout_ja_labels(labels, cells.as_slice());
            proof {
                assert(located(*locate, labels@, cells@));
            }
            let mut k: usize = 0;
            while k < placed.len()
                invariant
                    k <= placed@.len(),
                    forall|k: int|
                        0 <= k < placed@.len() ==> (#[trigger] placed@[k]).label < labels@.len(),
                    op_models(ops@) == ja_ops(
                        labels@,
                        placed@,
                        k as nat,
                        cols as int,
                        rows as int,
                    ),
                decreases placed@.len() - k,
            {
                let p = placed[k];
                push_label(&mut ops, p.col, p.row, labels[p.label].text.as_str(), cols, rows);
                k = k + 1;
            }
        }
    } else {
        let labels = layout_city_labels(cities, app.zoom);
        let list = labels_slice(&labels);
        let mut k: usize = 0;
        while k < list.len()
            invariant
                k <= list@.len(),
                op_models(ops@) == city_ops(list@, k as nat, cols as int, rows as int),
            decreases list@.len() - k,
        {
            let l = list[k];
            push_label(&mut ops, l.marker_col, l.row, l.name, cols, rows);
            k = k + 1;
        }
        proof {
            assert(show_placed(
                labels_of(labels),
                cities@,
                placed_cities(cities@, (max_rank(app.zoom) + 1) as nat),
            ));
        }
    }
    ops
}

/// Draws the map: what is stale is drawn anew, and the steps that put it on the
/// screen are given out, in order. Afterwards nothing is stale, so drawing again
/// computes nothing. On no space nothing happens.
///
/// `project` makes the segments of a base line that are on the screen; `sample`
/// makes the tables by which a grid is sampled; `cities` gives the cells of the
/// built-in cities, and `locate` that of a place name.
pub fn render_map<
    S: Fn(&BaseLine) -> Vec<Segment>,
    T: Fn(u16, u16, u16, u16) -> DotTables,
    J: Fn(&NameLabelJa) -> Option<(u16, u16)>,
>(
    app: &mut App,
    cols: u16,
    rows: u16,
    project: S,
    sample: T,
    cities: &[Option<(u16, u16)>],
    locate: J,
) -> (ops: Vec<MapOp>)
    requires
        old(app).wf(),
        cities@.len() == CITY_COUNT,
        forall|line: BaseLine| #[trigger] project.requires((&line,)),
        samples_every_dot(sample),
        forall|l: NameLabelJa| #[trigger] locate.requires((&l,)),
    ensures
        final(app).wf(),
        cols == 0 || rows == 0 ==> ops@.len() == 0 && *final(app) == *old(app),
        cols > 0 && rows > 0 ==> {
            let cache = final(app).render_cache;
            let was = old(app).render_cache;
            &&& *final(app) == (App { render_cache: cache, ..*old(app) })
            &&& !lines_stale(*final(app), cols, rows)
            &&& !rain_stale(*final(app), cols, rows)
            &&& if lines_stale(*old(app), cols, rows) {
                cache.basemap_key == Some(old(app).lines_key(cols, rows)) && basemap_drawn(
                    project,
                    old(app).basemap->0@,
                    cols as int,
                    rows as int,
                    cache.basemap_cells@,
                )
            } else {
                cache.basemap_key == was.basemap_key && cache.basemap_cells == was.basemap_cells
            }
            &&& if rain_stale(*old(app), cols, rows) {
                cache.radar_key == Some(old(app).rain_key(cols, rows)) && rain_drawn(
                    sample,
                    *old(app).frames@[old(app).frame_idx as int].grid,
                    cols,
                    rows,
                    cache.radar_cells@,
                )
            } else {
                cache.radar_key == was.radar_key && cache.radar_cells == was.radar_cells
            }
            &&& exists|labels: Seq<OpModel>| #[trigger]
                label_steps(*final(app), cities@, locate, cols as int, rows as int, labels)
                    && op_models(ops@) == base_steps(*final(app), cols as int, rows as int) + labels
        },
{
    let mut ops: Vec<MapOp> = Vec::new();
    if cols == 0 || rows == 0 {
        return ops;
    }
    refresh_basemap(app, cols, rows, &project);
    refresh_radar(app, cols, rows, &sample);
    ops.push(MapOp::Clear);
    proof {
        assert(op_models(ops@) =~= seq![OpModel::Clear]);
    }
    if app.basemap.is_some() {
        push_cells(&mut ops, &app.render_cache.basemap_cells, cols, rows);
    }
    if app.show_radar && app.frames.len() > 0 {
        push_cells(&mut ops, &app.render_cache.radar_cells, cols, rows);
    }
    let ghost before = op_models(ops@);
    ops.push(MapOp::Center { col: cols / 2, row: rows / 2 });
    proof {
        assert(op_models(ops@) =~= before.push(
            OpModel::Center(cols as int / 2, rows as int / 2),
        ));
        assert(op_models(ops@) =~= base_steps(*app, cols as int, rows as int));
    }
    let ghost base = ops@;
    let mut labels = label_ops(app, cities, &locate, cols, rows);
    let ghost label_list = labels@;
    ops.append(&mut labels);
    proof {
        assert(op_models(ops@) =~= op_models(base) + op_models(label_list));
        assert(label_steps(
            *app,
            cities@,
            locate,
            cols as int,
            rows as int,
            op_models(label_list),
        ));
    }
    ops
}

/// Whether a name placed on the screen takes a column: from its marker, through
/// the gap of one cell after it, to the last column of its text.
pub open spec fn takes_column(labels: Seq<NameLabelJa>, l: JaLabel, c: int) -> bool {
    l.col <= c < l.col + 2 + text_width(labels[l.label as int].text@) as int % 65536
}

/// Whether a name comes before another: it is shorter, or as long and named
/// earlier.
pub open spec fn comes_before(a: JaLabel, b: JaLabel) -> bool {
    a.width < b.width || (a.width == b.width && a.label < b.label)
}

/// Whether `l` is the place name with its number: at its cell, with the width of
/// its text.
pub open spec fn is_name(
    labels: Seq<NameLabelJa>,
    cells: Seq<Option<(u16, u16)>>,
    l: JaLabel,
) -> bool {
    &&& l.label < labels.len()
    &&& cells[l.label as int] == Some((l.col, l.row))
    &&& l.width == text_width(labels[l.label as int].text@) as int % 65536
}

/// Names never cover each other: the columns that two names placed in one row
/// take, marker, gap and text, are disjoint. Each name stands at its own cell,
/// no name is placed twice, and there are forty at most.
pub proof fn names_take_columns_of_their_own(
    labels: Seq<NameLabelJa>,
    cells: Seq<Option<(u16, u16)>>,
    a: int,
    b: int,
    c: int,
)
    requires
        cells.len() == labels.len() <= usize::MAX,
        0 <= a < b < ja_layout(labels, cells).len(),
        c < 65_535,
    ensures
        ({
            let placed = ja_layout(labels, cells);
            &&& placed.len() <= 40
            &&& is_name(labels, cells, placed[a]) && is_name(labels, cells, placed[b])
            &&& comes_before(placed[a], placed[b])
            &&& placed[a].row == placed[b].row ==> !(takes_column(labels, placed[a], c)
                && takes_column(labels, placed[b], c))
        }),
{
    let list = ja_candidates(labels, cells, labels.len());
    let sorted = by_width(list, list.len());
    let placed = ja_layout(labels, cells);
    lemma_candidates(labels, cells, labels.len());
    lemma_sorted_names(labels, cells, list, list.len());
    lemma_by_width_len(list, list.len());
    lemma_placed_names(sorted, sorted.len());
    ja_labels_never_collide(sorted, sorted.len());
    assert(!ja_collide(placed[a], placed[b]));
    let (i, j) = choose|i: int, j: int|
        0 <= i < j < sorted.len() && placed[a] == #[trigger] sorted[i] && placed[b]
            == #[trigger] sorted[j];
    assert(comes_before(sorted[i], sorted[j]));
}

/// A name is left out only for want of room: one on the screen that is not
/// placed shares a column in its row with one placed that comes before it, or
/// forty are placed.
pub proof fn names_are_left_out_only_for_want_of_room(
    labels: Seq<NameLabelJa>,
    cells: Seq<Option<(u16, u16)>>,
    l: JaLabel,
)
    requires
        cells.len() == labels.len() <= usize::MAX,
        is_name(labels, cells, l),
    ensures
        ({
            let placed = ja_layout(labels, cells);
            ||| placed.contains(l)
            ||| placed.len() == 40
            ||| exists|k: int, c: int|
                0 <= k < placed.len() && (#[trigger] placed[k]).row == l.row && comes_before(
                    placed[k],
                    l,
                ) && #[trigger] takes_column(labels, l, c) && takes_column(labels, placed[k], c)
        }),
{
    broadcast use vstd::seq_lib::group_to_multiset_ensures;

    let list = ja_candidates(labels, cells, labels.len());
    let sorted = by_width(list, list.len());
    let placed = ja_layout(labels, cells);
    lemma_candidates(labels, cells, labels.len());
    lemma_candidate_found(labels, cells, labels.len(), l);
    shorter_names_come_first(list, list.len());
    lemma_by_width_len(list, list.len());
    lemma_sorted_names(labels, cells, list, list.len());
    assert(list.take(list.len() as int) =~= list);
    assert(list.to_multiset().count(l) > 0);
    assert(sorted.contains(l));
    let i = choose|i: int| 0 <= i < sorted.len() && sorted[i] == l;
    lemma_left_out(sorted, sorted.len(), i);
    lemma_placed_names(sorted, sorted.len());
    ja_labels_never_collide(sorted, sorted.len());
    if !placed.contains(l) && placed.len() < 40 {
        let (k, m) = choose|k: int, m: int|
            0 <= k < placed.len() && 0 <= m < i && ja_collide(l, #[trigger] placed[k]) && placed[k]
                == #[trigger] sorted[m];
        let c: int = if l.col < placed[k].col {
            placed[k].col as int
        } else {
            l.col as int
        };
        assert(comes_before(sorted[m], sorted[i]));
        assert(is_name(labels, cells, sorted[m]));
        assert(takes_column(labels, l, c));
        assert(takes_column(labels, placed[k], c));
    }
}

/// The candidates are the names on the screen, by number.
proof fn lemma_candidates(labels: Seq<NameLabelJa>, cells: Seq<Option<(u16, u16)>>, n: nat)
    requires
        cells.len() == labels.len() <= usize::MAX,
        n <= labels.len(),
    ensures
        forall|k: int|
            0 <= k < ja_candidates(labels, cells, n).len() ==> is_name(
                labels,
                cells,
                #[trigger] ja_candidates(labels, cells, n)[k],
            ) && ja_candidates(labels, cells, n)[k].label < n,
        forall|k: int, l: int|
            0 <= k < l < ja_candidates(labels, cells, n).len() ==> (#[trigger] ja_candidates(
                labels,
                cells,
                n,
            )[k]).label < (#[trigger] ja_candidates(labels, cells, n)[l]).label,
    decreases n,
{
    if n > 0 {
        let m = (n - 1) as nat;
        lemma_candidates(labels, cells, m);
        let before = ja_candidates(labels, cells, m);
        let now = ja_candidates(labels, cells, n);
        assert forall|k: int| 0 <= k < now.len() implies is_name(labels, cells, #[trigger] now[k])
            && now[k].label < n by {
            if k < before.len() {
                assert(now[k] == before[k]);
                assert(is_name(labels, cells, before[k]));
            } else {
                assert(now[k].label == m);
            }
        }
        assert forall|k: int, l: int| 0 <= k < l < now.len() implies (#[trigger] now[k]).label < (
        #[trigger] now[l]).label by {
            assert(now[k] == before[k]);
            assert(before[k].label < m);
            if l < before.len() {
                assert(now[l] == before[l]);
            }
        }
    }
}

proof fn lemma_candidate_found(
    labels: Seq<NameLabelJa>,
    cells: Seq<Option<(u16, u16)>>,
    n: nat,
    l: JaLabel,
)
    requires
        cells.len() == labels.len() <= usize::MAX,
        n <= labels.len(),
        is_name(labels, cells, l),
        l.label < n,
    ensures
        ja_candidates(labels, cells, n).contains(l),
    decreases n,
{
    let before = ja_candidates(labels, cells, (n - 1) as nat);
    let now = ja_candidates(labels, cells, n);
    if l.label == n - 1 {
        assert(now[now.len() - 1] == l);
    } else {
        lemma_candidate_found(labels, cells, (n - 1) as nat, l);
        let k = choose|k: int| 0 <= k < before.len() && before[k] == l;
        assert(now[k] == l);
    }
}

/// In order of width, names of one width stay in the order of their numbers.
proof fn lemma_sorted_names(
    labels: Seq<NameLabelJa>,
    cells: Seq<Option<(u16, u16)>>,
    list: Seq<JaLabel>,
    n: nat,
)
    requires
        n <= list.len(),
        forall|k: int| 0 <= k < list.len() ==> is_name(labels, cells, #[trigger] list[k]),
        forall|k: int, l: int|
            0 <= k < l < list.len() ==> (#[trigger] list[k]).label < (#[trigger] list[l]).label,
    ensures
        forall|k: int|
            0 <= k < by_width(list, n).len() ==> is_name(
                labels,
                cells,
                #[trigger] by_width(list, n)[k],
            ) && (n < list.len() ==> by_width(list, n)[k].label < list[n as int].label),
        forall|i: int, j: int|
            0 <= i < j < by_width(list, n).len() ==> comes_before(
                #[trigger] by_width(list, n)[i],
                #[trigger] by_width(list, n)[j],
            ),
    decreases n,
{
    if n > 0 {
        let m = (n - 1) as nat;
        lemma_sorted_names(labels, cells, list, m);
        lemma_by_width_len(list, m);
        shorter_names_come_first(list, m);
        let before = by_width(list, m);
        let c = list[n - 1];
        let p = width_place(before, before.len(), c.width);
        lemma_width_place(before, before.len(), c.width);
        let now = by_width(list, n);
        assert(now == before.insert(p as int, c));
        assert forall|k: int| 0 <= k < now.len() implies is_name(labels, cells, #[trigger] now[k])
            && (n < list.len() ==> now[k].label < list[n as int].label) by {
            if k < p {
                assert(now[k] == before[k]);
                assert(before[k].label < list[m as int].label);
            } else if k > p {
                assert(now[k] == before[k - 1]);
                assert(before[k - 1].label < list[m as int].label);
            }
            if n < list.len() {
                assert(list[m as int].label < list[n as int].label);
            }
        }
        assert forall|i: int, j: int| 0 <= i < j < now.len() implies comes_before(
            #[trigger] now[i],
            #[trigger] now[j],
        ) by {
            let bi = if i < p {
                i
            } else {
                i - 1
            };
            let bj = if j < p {
                j
            } else {
                j - 1
            };
            if i != p && j != p {
                assert(comes_before(before[bi], before[bj]));
            } else if i == p {
                assert(before[bj].width > c.width);
            } else {
                assert(before[bi].width <= before[p - 1].width);
                assert(before[bi].label < list[m as int].label);
            }
        }
    }
}

/// The names placed are some of those given, in order.
proof fn lemma_placed_names(list: Seq<JaLabel>, n: nat)
    requires
        n <= list.len(),
    ensures
        forall|k: int|
            0 <= k < ja_placed(list, n).len() ==> exists|i: int|
                0 <= i < n && #[trigger] ja_placed(list, n)[k] == #[trigger] list[i],
        forall|k: int, l: int|
            #![trigger ja_placed(list, n)[k], ja_placed(list, n)[l]]
            0 <= k < l < ja_placed(list, n).len() ==> exists|i: int, j: int|
                0 <= i < j < n && ja_placed(list, n)[k] == #[trigger] list[i] && ja_placed(list, n)[l]
                    == #[trigger] list[j],
    decreases n,
{
    if n > 0 {
        let m = (n - 1) as nat;
        lemma_placed_names(list, m);
        let before = ja_placed(list, m);
        let now = ja_placed(list, n);
        assert forall|k: int| 0 <= k < now.len() implies exists|i: int|
            0 <= i < n && #[trigger] now[k] == #[trigger] list[i] by {
            if k < before.len() {
                let i = choose|i: int| 0 <= i < m && before[k] == #[trigger] list[i];
                assert(now[k] == list[i]);
            } else {
                assert(now[k] == list[n - 1]);
            }
        }
        assert forall|k: int, l: int|
            #![trigger now[k], now[l]]
            0 <= k < l < now.len() implies exists|i: int, j: int|
            0 <= i < j < n && now[k] == #[trigger] list[i] && now[l] == #[trigger] list[j] by {
            if l < before.len() {
                let (i, j) = choose|i: int, j: int|
                    0 <= i < j < m && before[k] == #[trigger] list[i] && before[l]
                        == #[trigger] list[j];
                assert(now[k] == list[i] && now[l] == list[j]);
            } else {
                let i = choose|i: int| 0 <= i < m && before[k] == #[trigger] list[i];
                assert(now[k] == list[i] && now[l] == list[n - 1]);
            }
        }
    }
}

/// A name that is not placed met one placed before it, or forty.
proof fn lemma_left_out(list: Seq<JaLabel>, n: nat, i: int)
    requires
        0 <= i < n <= list.len(),
    ensures
        ({
            let placed = ja_placed(list, n);
            ||| placed.contains(list[i])
            ||| placed.len() >= MAX_JA_LABELS
            ||| exists|k: int, m: int|
                0 <= k < placed.len() && 0 <= m < i && ja_collide(list[i], #[trigger] placed[k])
                    && placed[k] == #[trigger] list[m]
        }),
    decreases n,
{
    let before = ja_placed(list, (n - 1) as nat);
    let now = ja_placed(list, n);
    if i == n - 1 {
        if now.len() > before.len() {
            assert(now[now.len() - 1] == list[i]);
        } else if before.len() < MAX_JA_LABELS {
            let k = choose|k: int| 0 <= k < before.len() && ja_collide(list[i], #[trigger] before[k]);
            lemma_placed_names(list, (n - 1) as nat);
            let m = choose|m: int| 0 <= m < n - 1 && before[k] == #[trigger] list[m];
            assert(now[k] == list[m]);
        }
    } else {
        lemma_left_out(list, (n - 1) as nat, i);
        if before.contains(list[i]) {
            let k = choose|k: int| 0 <= k < before.len() && before[k] == list[i];
            assert(now[k] == list[i]);
        } else if before.len() < MAX_JA_LABELS {
            let (k, m) = choose|k: int, m: int|
                0 <= k < before.len() && 0 <= m < i && ja_collide(list[i], #[trigger] before[k])
                    && before[k] == #[trigger] list[m];
            assert(now[k] == list[m]);
        }
    }
}

/// Every name that is placed is a name on the screen, at its cell.
pub proof fn placed_names_stand_at_their_cells(
    labels: Seq<NameLabelJa>,
    cells: Seq<Option<(u16, u16)>>,
    a: int,
)
    requires
        cells.len() == labels.len() <= usize::MAX,
        0 <= a < ja_layout(labels, cells).len(),
    ensures
        ({
            let l = ja_layout(labels, cells)[a];
            &&& l.label < labels.len()
            &&& cells[l.label as int] == Some((l.col, l.row))
        }),
{
    let list = ja_candidates(labels, cells, labels.len());
    let sorted = by_width(list, list.len());
    let placed = ja_layout(labels, cells);
    lemma_candidates(labels, cells, labels.len());
    lemma_sorted_names(labels, cells, list, list.len());
    lemma_by_width_len(list, list.len());
    lemma_placed_is_sorted(sorted, sorted.len(), a);
}

proof fn lemma_placed_is_sorted(list: Seq<JaLabel>, n: nat, a: int)
    requires
        n <= list.len(),
        0 <= a < ja_placed(list, n).len(),
    ensures
        exists|i: int| 0 <= i < n && ja_placed(list, n)[a] == #[trigger] list[i],
    decreases n,
{
    if n > 0 {
        let before = ja_placed(list, (n - 1) as nat);
        if a < before.len() {
            lemma_placed_is_sorted(list, (n - 1) as nat, a);
            let i = choose|i: int| 0 <= i < n - 1 && before[a] == #[trigger] list[i];
            assert(ja_placed(list, n)[a] == list[i]);
        } else {
            assert(ja_placed(list, n)[a] == list[n - 1]);
        }
    }
}

/// How late a kind of line is drawn.
pub open spec fn layer(kind: BaseLineKind) -> int {
    match kind {
        BaseLineKind::Coastline => 0,
        BaseLineKind::Boundary => 1,
        BaseLineKind::Road => 2,
        BaseLineKind::Railway => 3,
    }
}

/// Each line is drawn, and once: roads over boundaries over coastlines, railways
/// over all, and lines of one kind in the order in which they came.
pub proof fn lines_are_drawn_once_layer_by_layer(lines: Seq<BaseLine>, i: int, a: int, b: int)
    ensures
        0 <= i < lines.len() ==> draw_order(lines).contains(i),
        0 <= a < draw_order(lines).len() ==> 0 <= draw_order(lines)[a] < lines.len(),
        0 <= a < b < draw_order(lines).len() ==> {
            let (p, q) = (draw_order(lines)[a], draw_order(lines)[b]);
            layer(lines[p].kind) < layer(lines[q].kind) || (layer(lines[p].kind) == layer(
                lines[q].kind,
            ) && p < q)
        },
{
    let n = lines.len();
    lemma_of_kind(lines, BaseLineKind::Coastline, n);
    lemma_of_kind(lines, BaseLineKind::Boundary, n);
    lemma_of_kind(lines, BaseLineKind::Road, n);
    lemma_of_kind(lines, BaseLineKind::Railway, n);
    let (c, d, e, f) = (
        of_kind(lines, BaseLineKind::Coastline, n),
        of_kind(lines, BaseLineKind::Boundary, n),
        of_kind(lines, BaseLineKind::Road, n),
        of_kind(lines, BaseLineKind::Railway, n),
    );
    let order = draw_order(lines);
    if 0 <= i < lines.len() {
        let own = of_kind(lines, lines[i].kind, n);
        assert(own.contains(i));
        let k = choose|k: int| 0 <= k < own.len() && own[k] == i;
        match lines[i].kind {
            BaseLineKind::Coastline => {
                assert(order[k] == i);
            },
            BaseLineKind::Boundary => {
                assert(order[c.len() + k] == i);
            },
            BaseLineKind::Road => {
                assert(order[c.len() + d.len() + k] == i);
            },
            BaseLineKind::Railway => {
                assert(order[c.len() + d.len() + e.len() + k] == i);
            },
        }
    }
}

proof fn lemma_of_kind(lines: Seq<BaseLine>, kind: BaseLineKind, n: nat)
    requires
        n <= lines.len(),
    ensures
        forall|k: int|
            0 <= k < of_kind(lines, kind, n).len() ==> 0 <= #[trigger] of_kind(lines, kind, n)[k] < n
                && lines[of_kind(lines, kind, n)[k]].kind == kind,
        forall|k: int, l: int|
            0 <= k < l < of_kind(lines, kind, n).len() ==> #[trigger] of_kind(lines, kind, n)[k]
                < #[trigger] of_kind(lines, kind, n)[l],
        forall|i: int|
            0 <= i < n && (#[trigger] lines[i]).kind == kind ==> of_kind(lines, kind, n).contains(i),
    decreases n,
{
    if n > 0 {
        lemma_of_kind(lines, kind, (n - 1) as nat);
        let before = of_kind(lines, kind, (n - 1) as nat);
        let now = of_kind(lines, kind, n);
        assert forall|i: int| 0 <= i < n && (#[trigger] lines[i]).kind == kind implies now.contains(
            i,
        ) by {
            if i < n - 1 {
                assert(before.contains(i));
                let k = choose|k: int| 0 <= k < before.len() && before[k] == i;
                assert(now[k] == i);
            } else {
                assert(now[before.len() as int] == i);
            }
        }
    }
}

/// The lines of each kind have a colour of their own.
pub proof fn kinds_are_told_apart_by_color(a: BaseLineKind, b: BaseLineKind)
    ensures
        line_color(a) == line_color(b) ==> a == b,
        line_color(BaseLineKind::Coastline) == (Rgb { r: 90, g: 120, b: 150 }),
        line_color(BaseLineKind::Boundary) == (Rgb { r: 80, g: 80, b: 90 }),
        line_color(BaseLineKind::Road) == (Rgb { r: 110, g: 95, b: 80 }),
        line_color(BaseLineKind::Railway) == (Rgb { r: 100, g: 100, b: 105 }),
{
}

/// Of drawn cells exactly those on the screen are put there, in their order.
pub proof fn cells_on_the_screen_are_put_there(cells: Seq<DrawCell>, n: nat, cols: int, rows: int)
    requires
        n <= cells.len(),
    ensures
        cell_ops(cells, n, cols, rows) == cells.take(n as int).filter(
            |c: DrawCell| c.col < cols && c.row < rows,
        ).map_values(|c: DrawCell| OpModel::Cell(c)),
    decreases n,
{
    reveal(Seq::filter);
    let on = |c: DrawCell| c.col < cols && c.row < rows;
    let op = |c: DrawCell| OpModel::Cell(c);
    if n > 0 {
        cells_on_the_screen_are_put_there(cells, (n - 1) as nat, cols, rows);
        let now = cells.take(n as int);
        let before = cells.take(n - 1).filter(on);
        assert(now.drop_last() =~= cells.take(n - 1));
        assert(now.last() == cells[n - 1]);
        if on(cells[n - 1]) {
            assert(before.push(cells[n - 1]).map_values(op) =~= before.map_values(op).push(
                op(cells[n - 1]),
            ));
        }
    } else {
        assert(cell_ops(cells, 0, cols, rows) =~= cells.take(0).filter(on).map_values(op));
    }
}

/// The order of the map: it is blanked first, each cell of rain comes after each
/// cell of a line, and the mark of the centre, in the middle of the screen, after
/// all of them.
pub proof fn rain_goes_over_lines_and_the_centre_over_both(
    app: App,
    cols: int,
    rows: int,
    i: int,
    j: int,
)
    requires
        0 < cols,
        0 < rows,
    ensures
        ({
            let steps = base_steps(app, cols, rows);
            let lines = app.render_cache.basemap_cells@;
            let rain = app.render_cache.radar_cells@;
            &&& steps.len() >= 2
            &&& steps[0] is Clear
            &&& steps.last() matches OpModel::Center(c, r) && cols - 1 <= 2 * c <= cols && rows - 1
                <= 2 * r <= rows
            &&& forall|k: int| 0 < k < steps.len() - 1 ==> (#[trigger] steps[k]) is Cell
            &&& app.basemap is Some && app.show_radar && app.frames@.len() > 0 && 0 <= i
                < lines.len() && lines[i].col < cols && lines[i].row < rows && 0 <= j < rain.len()
                && rain[j].col < cols && rain[j].row < rows ==> exists|p: int, q: int|
                0 < p < q < steps.len() - 1 && #[trigger] steps[p] == OpModel::Cell(lines[i])
                    && #[trigger] steps[q] == OpModel::Cell(rain[j])
            &&& !(app.show_radar && app.frames@.len() > 0) && app.basemap is None ==> steps.len()
                == 2
        }),
{
    let steps = base_steps(app, cols, rows);
    let lines = app.render_cache.basemap_cells@;
    let rain = app.render_cache.radar_cells@;
    let a = if app.basemap is Some {
        cell_ops(lines, lines.len(), cols, rows)
    } else {
        Seq::empty()
    };
    let b = if app.show_radar && app.frames@.len() > 0 {
        cell_ops(rain, rain.len(), cols, rows)
    } else {
        Seq::empty()
    };
    assert(steps =~= seq![OpModel::Clear] + a + b + seq![OpModel::Center(cols / 2, rows / 2)]);
    lemma_cell_ops(lines, lines.len(), cols, rows);
    lemma_cell_ops(rain, rain.len(), cols, rows);
    assert forall|k: int| 0 < k < steps.len() - 1 implies (#[trigger] steps[k]) is Cell by {
        if k <= a.len() {
            assert(steps[k] == a[k - 1]);
        } else {
            assert(steps[k] == b[k - 1 - a.len()]);
        }
    }
    if app.basemap is Some && app.show_radar && app.frames@.len() > 0 && 0 <= i < lines.len()
        && lines[i].col < cols && lines[i].row < rows && 0 <= j < rain.len() && rain[j].col < cols
        && rain[j].row < rows {
        let p = choose|p: int| 0 <= p < a.len() && a[p] == OpModel::Cell(lines[i]);
        let q = choose|q: int| 0 <= q < b.len() && b[q] == OpModel::Cell(rain[j]);
        assert(steps[1 + p] == OpModel::Cell(lines[i]));
        assert(steps[1 + a.len() + q] == OpModel::Cell(rain[j]));
    }
}

proof fn lemma_cell_ops(cells: Seq<DrawCell>, n: nat, cols: int, rows: int)
    requires
        n <= cells.len(),
    ensures
        forall|k: int|
            0 <= k < cell_ops(cells, n, cols, rows).len() ==> (#[trigger] cell_ops(
                cells,
                n,
                cols,
                rows,
            )[k]) is Cell,
        forall|i: int|
            0 <= i < n && (#[trigger] cells[i]).col < cols && cells[i].row < rows ==> cell_ops(
                cells,
                n,
                cols,
                rows,
            ).contains(OpModel::Cell(cells[i])),
    decreases n,
{
    if n > 0 {
        lemma_cell_ops(cells, (n - 1) as nat, cols, rows);
        let before = cell_ops(cells, (n - 1) as nat, cols, rows);
        let now = cell_ops(cells, n, cols, rows);
        assert forall|i: int|
            0 <= i < n && (#[trigger] cells[i]).col < cols && cells[i].row < rows implies now.contains(
            OpModel::Cell(cells[i]),
        ) by {
            if i < n - 1 {
                let k = choose|k: int| 0 <= k < before.len() && before[k] == OpModel::Cell(cells[i]);
                assert(now[k] == OpModel::Cell(cells[i]));
            } else {
                assert(now[before.len() as int] == OpModel::Cell(cells[i]));
            }
        }
    }
}

/// Whether a step puts a name: on the screen, and cut at its right end.
pub open spec fn puts_name(op: OpModel, col: int, row: int, text: Seq<char>, cols: int, rows: int) -> bool {
    op matches OpModel::Label(c, r, room, t) && c == col && r == row && t == text && c + room == cols
        && col < cols && row < rows
}

/// City names are put at their markers: each that starts on the screen has a step,
/// which ends at the right end of the screen at the latest, and no other has one.
pub proof fn city_names_are_put_at_their_markers(
    labels: Seq<PlaceLabel>,
    n: nat,
    cols: int,
    rows: int,
    i: int,
    p: int,
)
    requires
        n <= labels.len(),
    ensures
        ({
            let ops = city_ops(labels, n, cols, rows);
            &&& 0 <= i < n && labels[i].marker_col < cols && labels[i].row < rows ==> exists|k: int|
                0 <= k < ops.len() && puts_name(
                    #[trigger] ops[k],
                    labels[i].marker_col as int,
                    labels[i].row as int,
                    labels[i].name@,
                    cols,
                    rows,
                )
            &&& 0 <= p < ops.len() ==> exists|k: int|
                0 <= k < n && puts_name(
                    ops[p],
                    (#[trigger] labels[k]).marker_col as int,
                    labels[k].row as int,
                    labels[k].name@,
                    cols,
                    rows,
                )
        }),
    decreases n,
{
    if n > 0 {
        city_names_are_put_at_their_markers(labels, (n - 1) as nat, cols, rows, i, p);
        let before = city_ops(labels, (n - 1) as nat, cols, rows);
        let ops = city_ops(labels, n, cols, rows);
        if 0 <= i < n && labels[i].marker_col < cols && labels[i].row < rows {
            if i < n - 1 {
                let k = choose|k: int|
                    0 <= k < before.len() && puts_name(
                        #[trigger] before[k],
                        labels[i].marker_col as int,
                        labels[i].row as int,
                        labels[i].name@,
                        cols,
                        rows,
                    );
                assert(ops[k] == before[k]);
            } else {
                assert(puts_name(
                    ops[before.len() as int],
                    labels[i].marker_col as int,
                    labels[i].row as int,
                    labels[i].name@,
                    cols,
                    rows,
                ));
            }
        }
        if 0 <= p < ops.len() {
            if p < before.len() {
                assert(ops[p] == before[p]);
            } else {
                let k = n - 1;
                assert(puts_name(
                    ops[p],
                    labels[k].marker_col as int,
                    labels[k].row as int,
                    labels[k].name@,
                    cols,
                    rows,
                ));
            }
        }
    }
}

/// Place names are put at their cells: each placed that starts on the screen has a
/// step, which ends at the right end of the screen at the latest, and no other has
/// one.
pub proof fn place_names_are_put_at_their_cells(
    labels: Seq<NameLabelJa>,
    placed: Seq<JaLabel>,
    n: nat,
    cols: int,
    rows: int,
    i: int,
    p: int,
)
    requires
        n <= placed.len(),
    ensures
        ({
            let ops = ja_ops(labels, placed, n, cols, rows);
            &&& 0 <= i < n && placed[i].col < cols && placed[i].row < rows ==> exists|k: int|
                0 <= k < ops.len() && puts_name(
                    #[trigger] ops[k],
                    placed[i].col as int,
                    placed[i].row as int,
                    labels[placed[i].label as int].text@,
                    cols,
                    rows,
                )
            &&& 0 <= p < ops.len() ==> exists|k: int|
                0 <= k < n && puts_name(
                    ops[p],
                    (#[trigger] placed[k]).col as int,
                    placed[k].row as int,
                    labels[placed[k].label as int].text@,
                    cols,
                    rows,
                )
        }),
    decreases n,
{
    if n > 0 {
        place_names_are_put_at_their_cells(labels, placed, (n - 1) as nat, cols, rows, i, p);
        let before = ja_ops(labels, placed, (n - 1) as nat, cols, rows);
        let ops = ja_ops(labels, placed, n, cols, rows);
        if 0 <= i < n && placed[i].col < cols && placed[i].row < rows {
            if i < n - 1 {
                let k = choose|k: int|
                    0 <= k < before.len() && puts_name(
                        #[trigger] before[k],
                        placed[i].col as int,
                        placed[i].row as int,
                        labels[placed[i].label as int].text@,
                        cols,
                        rows,
                    );
                assert(ops[k] == before[k]);
            } else {
                assert(puts_name(
                    ops[before.len() as int],
                    placed[i].col as int,
                    placed[i].row as int,
                    labels[placed[i].label as int].text@,
                    cols,
                    rows,
                ));
            }
        }
        if 0 <= p < ops.len() {
            if p < before.len() {
                assert(ops[p] == before[p]);
            } else {
                let k = n - 1;
                assert(puts_name(
                    ops[p],
                    placed[k].col as int,
                    placed[k].row as int,
                    labels[placed[k].label as int].text@,
                    cols,
                    rows,
                ));
            }
        }
    }
}

/// Which names a map shows: up to zoom 10 those of built-in cities, and from zoom
/// 11 on those of the base map, none before they have come.
pub proof fn names_change_at_zoom_eleven<J: Fn(&NameLabelJa) -> Option<(u16, u16)>>(
    app: App,
    cities: Seq<Option<(u16, u16)>>,
    locate: J,
    cols: int,
    rows: int,
    steps: Seq<OpModel>,
)
    requires
        label_steps(app, cities, locate, cols, rows, steps),
    ensures
        app.zoom >= 11 && app.name_labels_ja is None ==> steps.len() == 0,
        app.zoom >= 11 ==> (app.name_labels_ja matches Some(labels) ==> exists|
            cells: Seq<Option<(u16, u16)>>,
        | #[trigger]
            located(locate, labels@, cells) && steps == ja_ops(
                labels@,
                ja_layout(labels@, cells),
                ja_layout(labels@, cells).len(),
                cols,
                rows,
            )),
        app.zoom <= 10 ==> exists|labels: Seq<PlaceLabel>| #[trigger]
            show_placed(labels, cities, placed_cities(cities, (max_rank(app.zoom) + 1) as nat))
                && steps == city_ops(labels, labels.len(), cols, rows),
{
}

/// Every line of the base map is drawn: there are as many strokes as lines, and
/// each line has a stroke of its segments in the colour of its kind.
pub proof fn every_base_line_is_drawn<S: Fn(&BaseLine) -> Vec<Segment>>(
    project: S,
    lines: Seq<BaseLine>,
    cols: int,
    rows: int,
    cells: Seq<DrawCell>,
)
    requires
        basemap_drawn(project, lines, cols, rows, cells),
    ensures
        exists|list: Seq<Stroke>|
            {
                &&& cells == #[trigger] lines_drawing(list, cols, rows)
                &&& forall|i: int| 0 <= i < lines.len() ==> has_stroke(project, #[trigger] lines[i], list)
                &&& list.len() == lines.len()
            },
{
    let list = choose|list: Seq<Stroke>| #[trigger]
        strokes_for(project, lines, list) && cells == lines_drawing(list, cols, rows);
    let order = draw_order(lines);
    assert forall|i: int| 0 <= i < lines.len() implies has_stroke(project, #[trigger] lines[i], list) by {
        lines_are_drawn_once_layer_by_layer(lines, i, 0, 0);
        let k = choose|k: int| 0 <= k < order.len() && order[k] == i;
        let stroke = list[k];
        assert(projected(project, lines[i], stroke.segments));
    }
    lemma_order_len(lines, lines.len());
    assert(cells == lines_drawing(list, cols, rows));
}

/// Whether one of the strokes has the segments of a line, in the colour of its
/// kind.
pub open spec fn has_stroke<S: Fn(&BaseLine) -> Vec<Segment>>(
    project: S,
    line: BaseLine,
    list: Seq<Stroke>,
) -> bool {
    exists|k: int, v: Vec<Segment>|
        0 <= k < list.len() && v@ == (#[trigger] list[k]).segments && #[trigger] project.ensures(
            (&line,),
            v,
        ) && list[k].color == line_color(line.kind)
}

proof fn lemma_order_len(lines: Seq<BaseLine>, n: nat)
    requires
        n <= lines.len(),
    ensures
        of_kind(lines, BaseLineKind::Coastline, n).len() + of_kind(
            lines,
            BaseLineKind::Boundary,
            n,
        ).len() + of_kind(lines, BaseLineKind::Road, n).len() + of_kind(
            lines,
            BaseLineKind::Railway,
            n,
        ).len() == n,
    decreases n,
{
    if n > 0 {
        lemma_order_len(lines, (n - 1) as nat);
    }
}

/// Rain is sampled by tables made for the width and height of its grid, and for the
/// columns and rows of the screen.
pub proof fn rain_is_sampled_for_its_grid_and_screen<T: Fn(u16, u16, u16, u16) -> DotTables>(
    sample: T,
    grid: crate::grid::Grid,
    cols: u16,
    rows: u16,
    cells: Seq<DrawCell>,
)
    requires
        rain_drawn(sample, grid, cols, rows, cells),
    ensures
        exists|xs: Vec<u16>, ys: Vec<u16>| #[trigger]
            sample.ensures((grid.width, grid.height, cols, rows), (xs, ys)) && cells
                == grid_drawing(grid, xs@, ys@, cols as int, rows as int),
{
    let t = choose|t: DotTables| #[trigger]
        sample.ensures((grid.width, grid.height, cols, rows), t) && cells == grid_drawing(
            grid,
            t.0@,
            t.1@,
            cols as int,
            rows as int,
        );
    assert(sample.ensures((grid.width, grid.height, cols, rows), (t.0, t.1)));
}

} // verus!
