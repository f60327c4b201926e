//! The state of the program: what the map shows, and what it knows.

use vstd::prelude::*;
use vstd::string::StringExecFns;

use crate::basemap::{BaseLine, NameLabelJa};
use crate::ieee::Double;
use crate::model::WeatherSnapshot;
use crate::radar::RadarFrame;
use crate::render::DrawCell;
use crate::text::{append_decimal, decimal};

verus! {

/// What drawn map lines depend on: version of the lines, latitude and
/// longitude of the centre by their bits, zoom, columns and rows.
pub type BasemapKey = (u64, u64, u64, u8, u16, u16);

/// What drawn rain depends on: version of the frames, number of the frame,
/// columns and rows.
pub type RadarKey = (u64, usize, u16, u16);

/// What has been drawn, and what it was drawn for.
pub struct RenderCache {
    pub basemap_key: Option<BasemapKey>,
    pub basemap_cells: Vec<DrawCell>,
    pub radar_key: Option<RadarKey>,
    pub radar_cells: Vec<DrawCell>,
}

impl Default for RenderCache {
    fn default() -> (c: RenderCache)
        ensures
            c.basemap_key is None,
            c.basemap_cells@ == Seq::<DrawCell>::empty(),
            c.radar_key is None,
            c.radar_cells@ == Seq::<DrawCell>::empty(),
    {
        RenderCache {
            basemap_key: None,
            basemap_cells: Vec::new(),
            radar_key: None,
            radar_cells: Vec::new(),
        }
    }
}

/// The state of the program.
pub struct App {
    /// The centre of the map.
    pub center_lat: Double,
    pub center_lon: Double,
    pub zoom: u8,
    /// The latest weather.
    pub snapshot: Option<WeatherSnapshot>,
    /// The rain on the timeline, by time. Empty before any is fetched.
    pub frames: Vec<RadarFrame>,
    /// The number of the frame that is shown.
    pub frame_idx: usize,
    pub playing: bool,
    /// Whether rain is shown.
    pub show_radar: bool,
    /// The lines of the base map.
    pub basemap: Option<Vec<BaseLine>>,
    /// The place names of the base map.
    pub name_labels_ja: Option<Vec<NameLabelJa>>,
    /// Rises with every new base map.
    pub basemap_version: u64,
    /// Rises with every new timeline.
    pub radar_version: u64,
    pub render_cache: RenderCache,
    /// What is reported to the user.
    pub status: String,
    pub should_quit: bool,
    /// The size of the map, in cells.
    pub map_cols: u16,
    pub map_rows: u16,
}

/// From this zoom on the place names of the base map are shown, and built-in
/// cities before it.
pub const JA_LABEL_ZOOM: u8 = 11;

/// The nearest zoom.
pub const MAX_ZOOM: u8 = 16;

/// The farthest zoom.
pub const MIN_ZOOM: u8 = 3;

/// Whether every frame has a grid that can be drawn.
pub open spec fn frames_wf(frames: Seq<RadarFrame>) -> bool {
    forall|i: int| 0 <= i < frames.len() ==> (#[trigger] frames[i]).grid.wf()
}

/// The number of the frame that a new timeline starts with, among the first
/// `n`: the last one that is observed.
pub open spec fn last_observed(frames: Seq<RadarFrame>, n: nat) -> Option<int>
    decreases n,
{
    if n == 0 {
        None
    } else if !frames[n - 1].is_forecast {
        Some(n - 1)
    } else {
        last_observed(frames, (n - 1) as nat)
    }
}

/// The number of the frame that a new timeline starts with: the last observed
/// one, or the last if all are forecast.
pub open spec fn start_frame(frames: Seq<RadarFrame>) -> int {
    match last_observed(frames, frames.len()) {
        Some(i) => i,
        None => if frames.len() > 0 {
            frames.len() - 1
        } else {
            0
        },
    }
}

/// A latitude cut to those on the map, 85 degrees south to north.
pub open spec fn cut_lat(lat: Double) -> Double {
    if lat.below(Double { bits: 0xC055_4000_0000_0000 }) {
        Double { bits: 0xC055_4000_0000_0000 }
    } else if (Double { bits: 0x4055_4000_0000_0000 }).below(lat) {
        Double { bits: 0x4055_4000_0000_0000 }
    } else {
        lat
    }
}

/// A longitude brought back between 180 degrees west and east: `lon`, or one
/// turn less or more.
pub open spec fn wrap_lon(lon: Double, turn_less: Double, turn_more: Double) -> Double {
    if (Double { bits: 0x4066_8000_0000_0000 }).below(lon) {
        turn_less
    } else if lon.below(Double { bits: 0xC066_8000_0000_0000 }) {
        turn_more
    } else {
        lon
    }
}

impl App {
    /// The frame shown is one of the frames, if there are any, and every frame
    /// can be drawn.
    pub open spec fn wf(self) -> bool {
        &&& self.frames@.len() == 0 || self.frame_idx < self.frames@.len()
        &&& frames_wf(self.frames@)
    }

    /// The state at the start: nothing known yet.
    pub fn new(lat: Double, lon: Double, zoom: u8, show_radar: bool) -> (app: App)
        ensures
            app.wf(),
            app.center_lat == lat,
            app.center_lon == lon,
            app.zoom == zoom,
            app.show_radar == show_radar,
            app.snapshot is None,
            app.frames@.len() == 0,
            app.frame_idx == 0,
            !app.playing,
            app.basemap is None,
            app.name_labels_ja is None,
            app.basemap_version == 0,
            app.radar_version == 0,
            app.render_cache.basemap_key is None,
            app.render_cache.basemap_cells@.len() == 0,
            app.render_cache.radar_key is None,
            app.render_cache.radar_cells@.len() == 0,
            app.status@ == "起動中..."@,
            !app.should_quit,
            app.map_cols == 80,
            app.map_rows == 40,
    {
        App {
            center_lat: lat,
            center_lon: lon,
            zoom,
            snapshot: None,
            frames: Vec::new(),
            frame_idx: 0,
            playing: false,
            show_radar,
            basemap: None,
            name_labels_ja: None,
            basemap_version: 0,
            radar_version: 0,
            render_cache: RenderCache::default(),
            status: "起動中...".to_owned(),
            should_quit: false,
            map_cols: 80,
            map_rows: 40,
        }
    }

    /// The frame that is shown.
    pub fn current_frame(&self) -> (f: Option<&RadarFrame>)
        ensures
            match f {
                Some(f) => self.frame_idx < self.frames@.len() && *f
                    == self.frames@[self.frame_idx as int],
                None => self.frame_idx >= self.frames@.len(),
            },
    {
        if self.frame_idx < self.frames.len() {
            Some(&self.frames[self.frame_idx])
        } else {
            None
        }
    }

    /// What map lines drawn now depend on.
    pub open spec fn lines_key(self, cols: u16, rows: u16) -> BasemapKey {
        (
            self.basemap_version,
            self.center_lat.bits,
            self.center_lon.bits,
            self.zoom,
            cols,
            rows,
        )
    }

    /// What rain drawn now depends on.
    pub open spec fn rain_key(self, cols: u16, rows: u16) -> RadarKey {
        (self.radar_version, self.frame_idx, cols, rows)
    }

    /// What map lines drawn now depend on.
    pub fn basemap_key(&self, cols: u16, rows: u16) -> (key: BasemapKey)
        ensures
            key == self.lines_key(cols, rows),
    {
        (
            self.basemap_version,
            self.center_lat.bits,
            self.center_lon.bits,
            self.zoom,
            cols,
            rows,
        )
    }

    /// What rain drawn now depends on.
    pub fn radar_key(&self, cols: u16, rows: u16) -> (key: RadarKey)
        ensures
            key == self.rain_key(cols, rows),
    {
        (self.radar_version, self.frame_idx, cols, rows)
    }

    /// Takes a new base map, and makes what is drawn of the old one stale.
    pub fn set_basemap(&mut self, lines: Vec<BaseLine>)
        requires
            old(self).basemap_version < u64::MAX,
        ensures
            old(self).wf() ==> final(self).wf(),
            *final(self) == (App {
                basemap: Some(lines),
                basemap_version: (old(self).basemap_version + 1) as u64,
                ..*old(self)
            }),
    {
        self.basemap = Some(lines);
        self.basemap_version = self.basemap_version + 1;
    }

    /// Takes a new timeline, makes what is drawn of the old one stale, and goes
    /// to the last observed frame.
    pub fn set_frames(&mut self, frames: Vec<RadarFrame>)
        requires
            old(self).radar_version < u64::MAX,
        ensures
            old(self).wf() && frames_wf(frames@) ==> final(self).wf(),
            *final(self) == (App {
                frames,
                frame_idx: start_frame(frames@) as usize,
                radar_version: (old(self).radar_version + 1) as u64,
                ..*old(self)
            }),
            frames@.len() == 0 || 0 <= start_frame(frames@) < frames@.len(),
    {
        let mut i: usize = frames.len();
        let mut idx: usize = if frames.len() > 0 { frames.len() - 1 } else { 0 };
        proof {
            lemma_last_observed(frames@, frames@.len());
        }
        while i > 0
            invariant_except_break
                last_observed(frames@, i as nat) == last_observed(frames@, frames@.len()),
                idx == if frames@.len() > 0 {
                    frames@.len() - 1
                } else {
                    0
                },
            invariant
                i <= frames@.len(),
            ensures
                idx == start_frame(frames@),
            decreases i,
        {
            if !frames[i - 1].is_forecast {
                idx = i - 1;
                break ;
            }
            i = i - 1;
        }
        self.frames = frames;
        self.frame_idx = idx;
        self.radar_version = self.radar_version + 1;
    }

    /// Starts or stops playing, if there is something to play.
    pub fn toggle_play(&mut self)
        ensures
            old(self).wf() ==> final(self).wf(),
            *final(self) == (App {
                playing: if old(self).frames@.len() > 0 {
                    !old(self).playing
                } else {
                    old(self).playing
                },
                ..*old(self)
            }),
    {
        if self.frames.len() > 0 {
            self.playing = !self.playing;
        }
    }

    /// Shows or hides rain. Hiding it stops playing.
    pub fn toggle_radar(&mut self)
        ensures
            old(self).wf() ==> final(self).wf(),
            *final(self) == (App {
                show_radar: !old(self).show_radar,
                playing: old(self).playing && !old(self).show_radar,
                ..*old(self)
            }),
    {
        self.show_radar = !self.show_radar;
        if !self.show_radar {
            self.playing = false;
        }
    }

    /// Goes `delta` frames on, or back, round the timeline, and stops playing.
    pub fn step_frame(&mut self, delta: isize)
        ensures
            old(self).wf() ==> final(self).wf(),
            *final(self) == (App {
                playing: false,
                frame_idx: if old(self).frames@.len() == 0 {
                    old(self).frame_idx
                } else {
                    ((old(self).frame_idx + delta) % (old(self).frames@.len() as int)) as usize
                },
                ..*old(self)
            }),
    {
        self.playing = false;
        if self.frames.len() == 0 {
            return ;
        }
        let n: usize = self.frames.len();
        let i: usize = self.frame_idx % n;
        if delta >= 0 {
            let d: usize = delta as usize % n;
            proof {
                lemma_step(self.frame_idx as int, delta as int, n as int, i as int, d as int);
            }
            self.frame_idx = if i >= n - d { i - (n - d) } else { i + d };
        } else {
            let m: usize = (-(delta + 1)) as usize % n;
            let d: usize = n - 1 - m;
            proof {
                lemma_back(delta as int, n as int, m as int);
                lemma_step(self.frame_idx as int, delta as int, n as int, i as int, d as int);
            }
            self.frame_idx = if i >= n - d { i - (n - d) } else { i + d };
        }
    }

    /// Goes one frame on, and from the last to the first.
    pub fn advance_play(&mut self)
        ensures
            old(self).wf() ==> final(self).wf(),
            *final(self) == (App {
                frame_idx: if old(self).frames@.len() == 0 {
                    old(self).frame_idx
                } else {
                    ((old(self).frame_idx + 1) % (old(self).frames@.len() as int)) as usize
                },
                ..*old(self)
            }),
    {
        if self.frames.len() == 0 {
            return ;
        }
        let n: usize = self.frames.len();
        let i: usize = self.frame_idx % n;
        proof {
            lemma_step(self.frame_idx as int, 1, n as int, i as int, 1int % (n as int));
            if n == 1 {
                assert(1int % 1 == 0);
            } else {
                vstd::arithmetic::div_mod::lemma_small_mod(1, n as nat);
            }
        }
        self.frame_idx = if i == n - 1 { 0 } else { i + 1 };
    }

    /// How far one step of the map goes, in percent of what is shown.
    pub fn pan_fraction(&self) -> (percent: u8)
        ensures
            percent == if self.zoom <= 5 {
                10int
            } else if self.zoom <= 9 {
                20
            } else if self.zoom <= 13 {
                30
            } else {
                40
            },
    {
        match self.zoom {
            0..=5 => 10,
            6..=9 => 20,
            10..=13 => 30,
            _ => 40,
        }
    }

    /// Moves the centre of the map to a latitude, cut to those on the map, and
    /// a longitude, brought back by a turn where it left the map. `turn_less`
    /// and `turn_more` are the longitude less and more 360 degrees.
    pub fn pan(&mut self, lat: Double, lon: Double, turn_less: Double, turn_more: Double)
        ensures
            old(self).wf() ==> final(self).wf(),
            *final(self) == (App {
                center_lat: cut_lat(lat),
                center_lon: wrap_lon(lon, turn_less, turn_more),
                ..*old(self)
            }),
    {
        let south = Double::from_bits(0xC055_4000_0000_0000);
        let north = Double::from_bits(0x4055_4000_0000_0000);
        self.center_lat =
        if lat.lt(south) {
            south
        } else if north.lt(lat) {
            north
        } else {
            lat
        };
        self.center_lon =
        if Double::from_bits(0x4066_8000_0000_0000).lt(lon) {
            turn_less
        } else if lon.lt(Double::from_bits(0xC066_8000_0000_0000)) {
            turn_more
        } else {
            lon
        };
    }

    /// Goes one zoom nearer, up to the nearest.
    pub fn zoom_in(&mut self)
        ensures
            old(self).wf() ==> final(self).wf(),
            *final(self) == (App {
                zoom: if old(self).zoom < MAX_ZOOM {
                    (old(self).zoom + 1) as u8
                } else {
                    old(self).zoom
                },
                ..*old(self)
            }),
    {
        if self.zoom < MAX_ZOOM {
            self.zoom = self.zoom + 1;
        }
    }

    /// Goes one zoom farther, down to the farthest.
    pub fn zoom_out(&mut self)
        ensures
            old(self).wf() ==> final(self).wf(),
            *final(self) == (App {
                zoom: if old(self).zoom > MIN_ZOOM {
                    (old(self).zoom - 1) as u8
                } else {
                    old(self).zoom
                },
                ..*old(self)
            }),
    {
        if self.zoom > MIN_ZOOM {
            self.zoom = self.zoom - 1;
        }
    }
}

proof fn lemma_last_observed(frames: Seq<RadarFrame>, n: nat)
    requires
        n <= frames.len(),
    ensures
        last_observed(frames, n) matches Some(i) ==> 0 <= i < n,
    decreases n,
{
    if n > 0 {
        lemma_last_observed(frames, (n - 1) as nat);
    }
}

/// A sum of remainders, less the modulus where it reaches it.
proof fn lemma_step(at: int, delta: int, n: int, i: int, d: int)
    requires
        0 < n,
        i == at % n,
        d == delta % n,
    ensures
        (at + delta) % n == if i >= n - d {
            i - (n - d)
        } else {
            i + d
        },
        0 <= (at + delta) % n < n,
{
    vstd::arithmetic::div_mod::lemma_add_mod_noop(at, delta, n);
    if i + d < n {
        vstd::arithmetic::div_mod::lemma_small_mod((i + d) as nat, n as nat);
    } else {
        vstd::arithmetic::div_mod::lemma_fundamental_div_mod_converse(i + d, n, 1, i + d - n);
    }
}

/// The remainder of a negative number.
proof fn lemma_back(delta: int, n: int, m: int)
    requires
        0 < n,
        delta < 0,
        m == (-(delta + 1)) % n,
    ensures
        delta % n == n - 1 - m,
{
    let up = -(delta + 1);
    vstd::arithmetic::div_mod::lemma_fundamental_div_mod(up, n);
    let q = up / n;
    assert(delta == (-q - 1) * n + (n - 1 - m)) by (nonlinear_arith)
        requires
            up == n * q + m,
            up == -(delta + 1),
    ;
    vstd::arithmetic::div_mod::lemma_fundamental_div_mod_converse(delta, n, -q - 1, n - 1 - m);
}

/// What a background task has fetched, or why it failed.
pub enum Msg {
    Weather(Result<WeatherSnapshot, String>),
    Radar(Result<Vec<RadarFrame>, String>),
    Basemap(Result<Vec<BaseLine>, String>),
    LabelsJa(Result<Vec<NameLabelJa>, String>),
}

impl Msg {
    /// Whether what was fetched can be shown.
    pub open spec fn wf(self) -> bool {
        match self {
            Msg::Radar(Ok(frames)) => frames_wf(frames@),
            _ => true,
        }
    }

    /// What is reported to the user; none for place names that came.
    pub open spec fn report(self) -> Option<Seq<char>> {
        match self {
            Msg::Weather(Ok(_)) => Some("天気更新済み"@),
            Msg::Weather(Err(e)) => Some("天気取得失敗: "@ + e@),
            Msg::Radar(Ok(frames)) => Some("雨雲更新済み（"@ + decimal(frames@.len()) + "コマ）"@),
            Msg::Radar(Err(e)) => Some("雨雲取得失敗: "@ + e@),
            Msg::Basemap(Ok(_)) => Some("地図更新済み"@),
            Msg::Basemap(Err(e)) => Some("地図取得失敗: "@ + e@),
            Msg::LabelsJa(Ok(_)) => None,
            Msg::LabelsJa(Err(e)) => Some("地名取得失敗: "@ + e@),
        }
    }
}

/// Takes what a background task has fetched, and reports it. What failed leaves
/// everything else as it was.
pub fn apply_msg(app: &mut App, msg: Msg)
    requires
        msg.wf(),
        old(app).basemap_version < u64::MAX,
        old(app).radar_version < u64::MAX,
    ensures
        old(app).wf() ==> final(app).wf(),
        match msg.report() {
            Some(text) => final(app).status@ == text,
            None => final(app).status == old(app).status,
        },
        *final(app) == match msg {
            Msg::Weather(Ok(snap)) => App {
                snapshot: Some(snap),
                status: final(app).status,
                ..*old(app)
            },
            Msg::Radar(Ok(frames)) => App {
                frames,
                frame_idx: start_frame(frames@) as usize,
                radar_version: (old(app).radar_version + 1) as u64,
                status: final(app).status,
                ..*old(app)
            },
            Msg::Basemap(Ok(lines)) => App {
                basemap: Some(lines),
                basemap_version: (old(app).basemap_version + 1) as u64,
                status: final(app).status,
                ..*old(app)
            },
            Msg::LabelsJa(Ok(labels)) => App { name_labels_ja: Some(labels), ..*old(app) },
            _ => App { status: final(app).status, ..*old(app) },
        },
{
    match msg {
        Msg::Weather(Ok(snap)) => {
            app.snapshot = Some(snap);
            app.status = "天気更新済み".to_owned();
        },
        Msg::Weather(Err(e)) => {
            app.status = "天気取得失敗: ".to_owned().concat(e.as_str());
        },
        Msg::Radar(Ok(frames)) => {
            let n: u64 = frames.len() as u64;
            app.set_frames(frames);
            let mut status = "雨雲更新済み（".to_owned();
            append_decimal(&mut status, n);
            status.append("コマ）");
            app.status = status;
        },
        Msg::Radar(Err(e)) => {
            app.status = "雨雲取得失敗: ".to_owned().concat(e.as_str());
        },
        Msg::Basemap(Ok(lines)) => {
            app.set_basemap(lines);
            app.status = "地図更新済み".to_owned();
        },
        Msg::Basemap(Err(e)) => {
            app.status = "地図取得失敗: ".to_owned().concat(e.as_str());
        },
        Msg::LabelsJa(Ok(labels)) => {
            app.name_labels_ja = Some(labels);
        },
        Msg::LabelsJa(Err(e)) => {
            app.status = "地名取得失敗: ".to_owned().concat(e.as_str());
        },
    }
}

/// What is drawn is stale exactly when something that it depends on changes:
/// two states draw map lines under one key exactly if version, centre, zoom and
/// size are the same.
pub proof fn lines_key_tells_all(a: App, b: App, cols1: u16, rows1: u16, cols2: u16, rows2: u16)
    ensures
        a.lines_key(cols1, rows1) == b.lines_key(cols2, rows2) <==> a.basemap_version
            == b.basemap_version && a.center_lat == b.center_lat && a.center_lon == b.center_lon
            && a.zoom == b.zoom && cols1 == cols2 && rows1 == rows2,
        a.rain_key(cols1, rows1) == b.rain_key(cols2, rows2) <==> a.radar_version == b.radar_version
            && a.frame_idx == b.frame_idx && cols1 == cols2 && rows1 == rows2,
{
}

/// Playing draws rain anew and never map lines: the key of the lines stays, and
/// that of the rain changes wherever there are two frames or more.
pub proof fn playing_keeps_lines(before: App, after: App, cols: u16, rows: u16)
    requires
        before.wf(),
        before.frames@.len() > 0,
        after == (App {
            frame_idx: ((before.frame_idx + 1) % (before.frames@.len() as int)) as usize,
            ..before
        }),
    ensures
        after.wf(),
        after.lines_key(cols, rows) == before.lines_key(cols, rows),
        before.frames@.len() > 1 ==> after.rain_key(cols, rows) != before.rain_key(cols, rows),
{
    let n = before.frames@.len() as int;
    let i = before.frame_idx as int;
    assert(n == before.frames.len());
    vstd::arithmetic::div_mod::lemma_mod_bound(i + 1, n);
    if i + 1 < n {
        vstd::arithmetic::div_mod::lemma_small_mod((i + 1) as nat, n as nat);
    } else {
        vstd::arithmetic::div_mod::lemma_fundamental_div_mod_converse(i + 1, n, 1, 0);
    }
}

/// Going some frames on and as many back leads to where it started, and stays
/// on the timeline all the way.
pub proof fn stepping_back_undoes_stepping(at: int, delta: int, n: int)
    requires
        0 <= at < n,
    ensures
        0 <= (at + delta) % n < n,
        ((at + delta) % n - delta) % n == at,
{
    vstd::arithmetic::div_mod::lemma_mod_bound(at + delta, n);
    vstd::arithmetic::div_mod::lemma_fundamental_div_mod(at + delta, n);
    let q = (at + delta) / n;
    assert((at + delta) % n - delta == (-q) * n + at) by (nonlinear_arith)
        requires
            at + delta == n * q + (at + delta) % n,
    ;
    vstd::arithmetic::div_mod::lemma_fundamental_div_mod_converse(
        (at + delta) % n - delta,
        n,
        -q,
        at,
    );
}

/// A new timeline starts at its last observed frame: no frame after it is
/// observed. Where all are forecast it starts at the last.
pub proof fn timelines_start_at_the_last_observation(frames: Seq<RadarFrame>, i: int)
    requires
        frames.len() > 0,
    ensures
        0 <= start_frame(frames) < frames.len(),
        start_frame(frames) < i < frames.len() ==> frames[i].is_forecast,
        0 <= i < frames.len() && !frames[i].is_forecast ==> !frames[start_frame(frames)].is_forecast
            && i <= start_frame(frames),
        (forall|k: int| 0 <= k < frames.len() ==> (#[trigger] frames[k]).is_forecast)
            ==> start_frame(frames) == frames.len() - 1,
{
    lemma_no_later_observed(frames, frames.len());
    if last_observed(frames, frames.len()) is Some {
        assert(!frames[start_frame(frames)].is_forecast);
    }
}

proof fn lemma_no_later_observed(frames: Seq<RadarFrame>, n: nat)
    requires
        n <= frames.len(),
    ensures
        match last_observed(frames, n) {
            Some(k) => 0 <= k < n && !frames[k].is_forecast && forall|i: int|
                k < i < n ==> (#[trigger] frames[i]).is_forecast,
            None => forall|i: int| 0 <= i < n ==> (#[trigger] frames[i]).is_forecast,
        },
    decreases n,
{
    if n > 0 {
        lemma_no_later_observed(frames, (n - 1) as nat);
    }
}

/// The map never shows a centre beyond 85 degrees: a latitude is cut to the
/// nearest within, and one that is within stays. Cutting twice is cutting once.
pub proof fn latitudes_stay_on_the_map(lat: Double)
    requires
        !lat.nan(),
    ensures
        ({
            let edge = (Double { bits: 0x4055_4000_0000_0000 }).value();
            &&& -edge <= cut_lat(lat).value() <= edge
            &&& !cut_lat(lat).nan()
            &&& -edge <= lat.value() <= edge ==> cut_lat(lat) == lat
            &&& lat.value() > edge ==> cut_lat(lat).value() == edge
            &&& lat.value() < -edge ==> cut_lat(lat).value() == -edge
            &&& cut_lat(cut_lat(lat)) == cut_lat(lat)
        }),
{
    let north = Double { bits: 0x4055_4000_0000_0000 };
    let south = Double { bits: 0xC055_4000_0000_0000 };
    assert(north.raw() == south.raw());
    assert(south.value() == -north.value());
}

/// A longitude is brought back to the map by whole turns, and by none where it is
/// on it: up to 540 degrees either way the outcome lies between 180 degrees west
/// and east.
pub proof fn longitudes_stay_on_the_map(lon: Double, turn_less: Double, turn_more: Double)
    requires
        !lon.nan(),
        ({
            let half = (Double { bits: 0x4066_8000_0000_0000 }).value();
            &&& -3 * half <= lon.value() <= 3 * half
            &&& turn_less.value() == lon.value() - 2 * half
            &&& turn_more.value() == lon.value() + 2 * half
        }),
    ensures
        ({
            let half = (Double { bits: 0x4066_8000_0000_0000 }).value();
            let out = wrap_lon(lon, turn_less, turn_more);
            &&& -half <= out.value() <= half
            &&& -half <= lon.value() <= half ==> out == lon
        }),
{
    let east = Double { bits: 0x4066_8000_0000_0000 };
    let west = Double { bits: 0xC066_8000_0000_0000 };
    assert(east.raw() == west.raw());
    assert(west.value() == -east.value());
}

/// What is reported: of what failed the reason, behind the name of what it was; of
/// what came that it did, with the number of frames for rain; and of place names
/// that came nothing.
pub proof fn failures_are_reported_with_their_reason(msg: Msg)
    ensures
        msg.report() is None <==> (msg matches Msg::LabelsJa(Ok(_))),
        msg matches Msg::Weather(Err(e)) ==> msg.report() == Some("天気取得失敗: "@ + e@),
        msg matches Msg::Radar(Err(e)) ==> msg.report() == Some("雨雲取得失敗: "@ + e@),
        msg matches Msg::Basemap(Err(e)) ==> msg.report() == Some("地図取得失敗: "@ + e@),
        msg matches Msg::LabelsJa(Err(e)) ==> msg.report() == Some("地名取得失敗: "@ + e@),
        msg matches Msg::Radar(Ok(frames)) ==> msg.report() == Some(
            "雨雲更新済み（"@ + decimal(frames@.len()) + "コマ）"@,
        ),
        msg matches Msg::Weather(Ok(_)) ==> msg.report() == Some("天気更新済み"@),
        msg matches Msg::Basemap(Ok(_)) ==> msg.report() == Some("地図更新済み"@),
{
}

} // verus!
