//! When to fetch what: the decisions of the event loop. Times are nanoseconds
//! from any fixed moment.

use vstd::prelude::*;

use crate::app::{App, JA_LABEL_ZOOM};
use crate::config::Refresh;
use crate::input::InputAction;
use crate::model::SourceId;

verus! {

/// The most frames of a timeline.
pub const MAX_FRAMES: usize = 13;

/// How many map tiles are kept in memory.
pub const MAP_CACHE_CAP: usize = 256;

/// How many radar tiles are kept in memory.
pub const RADAR_CACHE_CAP: usize = 256;

/// How long a frame is shown while playing: half a second.
pub const PLAY_INTERVAL: u128 = 500_000_000;

/// How long to wait for another key before fetching: a fifth of a second.
pub const REFETCH_DEBOUNCE: u128 = 200_000_000;

/// How long the loop sleeps at most: a tenth of a second.
pub const TICK_MILLIS: u64 = 100;

/// Data are renewed once a minute at most.
pub const MIN_REFRESH_SECS: u64 = 60;

/// What happened when, and what is planned.
#[derive(Clone, Copy, PartialEq, Eq, Debug, Structural)]
pub struct Schedule {
    /// How often weather is fetched.
    pub weather_interval: u128,
    /// How often rain is fetched.
    pub radar_interval: u128,
    pub last_weather: u128,
    pub last_radar: u128,
    /// When the timeline last went on by itself.
    pub last_advance: u128,
    /// When a key last asked for new data.
    pub last_input: u128,
    /// Whether a key asked for data that have not been fetched yet.
    pub pending_refetch: bool,
}

/// What is due.
#[derive(Clone, Copy, PartialEq, Eq, Debug, Structural)]
pub struct Due {
    /// Everything, for a new view of the map.
    pub refetch: bool,
    pub weather: bool,
    pub radar: bool,
}

/// A number of seconds, a minute at least, in nanoseconds.
pub open spec fn interval(secs: u64) -> int {
    if secs >= MIN_REFRESH_SECS {
        secs * 1_000_000_000
    } else {
        MIN_REFRESH_SECS * 1_000_000_000
    }
}

/// The time from `then` to `now`.
pub open spec fn elapsed(now: u128, then: u128) -> int {
    if then <= now {
        now - then
    } else {
        0
    }
}

fn since(now: u128, then: u128) -> (t: u128)
    ensures
        t == elapsed(now, then),
{
    if then <= now {
        now - then
    } else {
        0
    }
}

fn interval_nanos(secs: u64) -> (t: u128)
    ensures
        t == interval(secs),
{
    if secs >= MIN_REFRESH_SECS {
        secs as u128 * 1_000_000_000
    } else {
        MIN_REFRESH_SECS as u128 * 1_000_000_000
    }
}

impl Schedule {
    /// At the start everything has just been fetched.
    pub fn new(refresh: Refresh, now: u128) -> (s: Schedule)
        ensures
            s.weather_interval == interval(refresh.weather_secs),
            s.radar_interval == interval(refresh.radar_secs),
            s.last_weather == now,
            s.last_radar == now,
            s.last_advance == now,
            s.last_input == now,
            !s.pending_refetch,
    {
        Schedule {
            weather_interval: interval_nanos(refresh.weather_secs),
            radar_interval: interval_nanos(refresh.radar_secs),
            last_weather: now,
            last_radar: now,
            last_advance: now,
            last_input: now,
            pending_refetch: false,
        }
    }

    /// Whether the data for a new view are due: a key asked for them, and no
    /// other did for a while.
    pub open spec fn refetch_due(self, now: u128) -> bool {
        self.pending_refetch && elapsed(now, self.last_input) >= REFETCH_DEBOUNCE
    }

    /// Whether the timeline goes on by itself.
    pub open spec fn advance_due(self, app: App, now: u128) -> bool {
        app.show_radar && app.playing && elapsed(now, self.last_advance) >= PLAY_INTERVAL
    }

    /// Whether weather is due, apart from data for a new view.
    pub open spec fn weather_due(self, now: u128) -> bool {
        !self.refetch_due(now) && elapsed(now, self.last_weather) >= self.weather_interval
    }

    /// Whether rain is due, apart from data for a new view.
    pub open spec fn radar_due(self, now: u128) -> bool {
        !self.refetch_due(now) && elapsed(now, self.last_radar) >= self.radar_interval
    }

    /// Plans a fetch, if a key asked for one. Place names are dropped where
    /// they are no longer shown.
    pub fn after_key(&mut self, app: &mut App, action: InputAction, now: u128)
        ensures
            old(app).wf() ==> final(app).wf(),
            *final(self) == if action == InputAction::Refetch {
                old(self).pressed(now)
            } else {
                *old(self)
            },
            *final(app) == if action == InputAction::Refetch && old(app).zoom < JA_LABEL_ZOOM {
                App { name_labels_ja: None, ..*old(app) }
            } else {
                *old(app)
            },
    {
        if let InputAction::Refetch = action {
            if app.zoom < JA_LABEL_ZOOM {
                app.name_labels_ja = None;
            }
            self.pending_refetch = true;
            self.last_input = now;
        }
    }

    /// What is due now. The timeline goes on by itself if it is its time.
    pub fn due(&mut self, app: &mut App, now: u128) -> (due: Due)
        requires
            old(self).weather_interval > 0,
            old(self).radar_interval > 0,
        ensures
            old(app).wf() ==> final(app).wf(),
            due.refetch ==> *final(self) == (Schedule {
                last_advance: final(self).last_advance,
                ..old(self).fetched(now)
            }),
            due == (Due {
                refetch: old(self).refetch_due(now),
                weather: old(self).weather_due(now),
                radar: old(self).radar_due(now),
            }),
            *final(self) == (Schedule {
                last_weather: if due.refetch || due.weather {
                    now
                } else {
                    old(self).last_weather
                },
                last_radar: if due.refetch || due.radar {
                    now
                } else {
                    old(self).last_radar
                },
                last_advance: if old(self).advance_due(*old(app), now) {
                    now
                } else {
                    old(self).last_advance
                },
                pending_refetch: old(self).pending_refetch && !due.refetch,
                ..*old(self)
            }),
            *final(app) == if old(self).advance_due(*old(app), now) && old(app).frames@.len() > 0 {
                App {
                    frame_idx: ((old(app).frame_idx + 1) % (old(app).frames@.len() as int)) as usize,
                    ..*old(app)
                }
            } else {
                *old(app)
            },
    {
        let mut due = Due { refetch: false, weather: false, radar: false };
        if self.pending_refetch && since(now, self.last_input) >= REFETCH_DEBOUNCE {
            due.refetch = true;
            self.last_weather = now;
            self.last_radar = now;
            self.pending_refetch = false;
        }
        if app.show_radar && app.playing && since(now, self.last_advance) >= PLAY_INTERVAL {
            app.advance_play();
            self.last_advance = now;
        }
        if since(now, self.last_weather) >= self.weather_interval {
            due.weather = true;
            self.last_weather = now;
        }
        if since(now, self.last_radar) >= self.radar_interval {
            due.radar = true;
            self.last_radar = now;
        }
        due
    }
}

impl Schedule {
    /// After a key asked for new data.
    pub open spec fn pressed(self, at: u128) -> Schedule {
        Schedule { pending_refetch: true, last_input: at, ..self }
    }

    /// After the first `n` of several keys asked for new data.
    pub open spec fn pressed_all(self, times: Seq<u128>, n: nat) -> Schedule
        decreases n,
    {
        if n == 0 {
            self
        } else {
            self.pressed_all(times, (n - 1) as nat).pressed(times[n - 1])
        }
    }

    /// After the data for a new view have been asked for.
    pub open spec fn fetched(self, now: u128) -> Schedule {
        Schedule { last_weather: now, last_radar: now, pending_refetch: false, ..self }
    }
}

/// A burst of keys leads to one fetch: it is due when the last key is a fifth
/// of a second ago, no matter how many came before it; and once it is made,
/// none is due before the next key.
pub proof fn one_fetch_for_a_burst(s: Schedule, times: Seq<u128>, n: nat, now: u128, later: u128)
    requires
        0 < n <= times.len(),
        times[n - 1] <= now,
    ensures
        s.pressed_all(times, n).refetch_due(now) <==> now - times[n - 1] >= REFETCH_DEBOUNCE,
        !s.pressed_all(times, n).fetched(now).refetch_due(later),
{
}

/// Something to fetch.
#[derive(Clone, Copy, PartialEq, Eq, Debug, Structural)]
pub enum Request {
    Weather,
    Basemap,
    Radar,
    LabelsJa,
}

/// What to fetch for a view of the map: place names only where they are shown.
pub fn requests(zoom: u8) -> (list: Vec<Request>)
    ensures
        list@ == if zoom >= JA_LABEL_ZOOM {
            seq![Request::Weather, Request::Basemap, Request::Radar, Request::LabelsJa]
        } else {
            seq![Request::Weather, Request::Basemap, Request::Radar]
        },
{
    let mut list: Vec<Request> = Vec::new();
    list.push(Request::Weather);
    list.push(Request::Basemap);
    list.push(Request::Radar);
    if zoom >= JA_LABEL_ZOOM {
        list.push(Request::LabelsJa);
    }
    proof {
        assert(list@ =~= if zoom >= JA_LABEL_ZOOM {
            seq![Request::Weather, Request::Basemap, Request::Radar, Request::LabelsJa]
        } else {
            seq![Request::Weather, Request::Basemap, Request::Radar]
        });
    }
    list
}

/// A number cut to those from 1 to 256.
pub open spec fn cut_size(n: int) -> int {
    if n < 1 {
        1
    } else if n > 256 {
        256
    } else {
        n
    }
}

fn cut(n: u32) -> (m: u16)
    ensures
        m == cut_size(n as int),
{
    if n < 1 {
        1
    } else if n > 256 {
        256
    } else {
        n as u16
    }
}

/// The size of the rain grid for a map of `cols` x `rows` cells: one value for
/// each dot, 256 each way at most. So a grid of this size always exists.
pub fn radar_size(cols: u16, rows: u16) -> (size: (u16, u16))
    ensures
        size.0 == cut_size(2 * cols),
        size.1 == cut_size(4 * rows),
        0 < size.0,
        0 < size.1,
        size.0 * size.1 <= crate::storage::GRID_CAP,
{
    let w: u16 = cut(cols as u32 * 2);
    let h: u16 = cut(rows as u32 * 4);
    proof {
        assert(w * h <= 256 * 256) by (nonlinear_arith)
            requires
                0 <= w <= 256,
                0 <= h <= 256,
        ;
    }
    (w, h)
}

/// The sources to ask: OpenWeatherMap only with a key.
pub fn sources_to_ask(owm_key: &str) -> (list: Vec<SourceId>)
    ensures
        list@ == if owm_key@.len() > 0 {
            seq![SourceId::Jma, SourceId::OpenMeteo, SourceId::OpenWeatherMap]
        } else {
            seq![SourceId::Jma, SourceId::OpenMeteo]
        },
{
    proof {
        vstd::utf8::encode_utf8_decode_utf8(owm_key@);
    }
    let mut list: Vec<SourceId> = Vec::new();
    list.push(SourceId::Jma);
    list.push(SourceId::OpenMeteo);
    if !owm_key.is_empty() {
        list.push(SourceId::OpenWeatherMap);
    }
    proof {
        assert(list@ =~= if owm_key@.len() > 0 {
            seq![SourceId::Jma, SourceId::OpenMeteo, SourceId::OpenWeatherMap]
        } else {
            seq![SourceId::Jma, SourceId::OpenMeteo]
        });
    }
    list
}

/// Data are renewed after the seconds asked for, but not before a minute is over.
pub proof fn data_are_renewed_once_a_minute_at_most(secs: u64)
    ensures
        interval(secs) >= 60_000_000_000,
        secs >= 60 ==> interval(secs) == secs * 1_000_000_000,
        secs <= 60 ==> interval(secs) == 60_000_000_000,
{
}

/// What is due when: the data for a new view a fifth of a second after the last
/// key that asked for them; the next frame half a second after the one before,
/// while rain is shown and playing; weather and rain when their time is over, but
/// not together with the data for a new view, which bring both.
pub proof fn things_are_due_when_their_time_is_over(s: Schedule, app: App, now: u128)
    requires
        s.weather_interval > 0,
        s.radar_interval > 0,
    ensures
        s.refetch_due(now) <==> s.pending_refetch && now >= s.last_input + 200_000_000,
        s.advance_due(app, now) <==> app.show_radar && app.playing && now >= s.last_advance
            + 500_000_000,
        s.weather_due(now) <==> !s.refetch_due(now) && now >= s.last_weather + s.weather_interval,
        s.radar_due(now) <==> !s.refetch_due(now) && now >= s.last_radar + s.radar_interval,
{
}

/// What has just been fetched is not due again before its time is over.
pub proof fn fetched_data_are_not_due_again(s: Schedule, now: u128, later: u128)
    requires
        s.weather_interval > 0,
        s.radar_interval > 0,
        now <= later,
    ensures
        !s.fetched(now).refetch_due(later),
        s.fetched(now).weather_due(later) <==> later - now >= s.weather_interval,
        s.fetched(now).radar_due(later) <==> later - now >= s.radar_interval,
{
}

/// A grid has one value for each dot of the map, from 1 to 256 each way.
pub proof fn grids_have_a_value_for_each_dot(n: int)
    ensures
        1 <= cut_size(n) <= 256,
        1 <= n <= 256 ==> cut_size(n) == n,
        n < 1 ==> cut_size(n) == 1,
        n > 256 ==> cut_size(n) == 256,
{
}

/// The timeline that is asked for has room for every frame that is chosen: six
/// observed and seven forecast ones.
pub proof fn timelines_have_room_for_all_frames()
    ensures
        MAX_FRAMES == 6 + 7,
        MAX_FRAMES == crate::radar::timeline::NOWCAST_FRAMES
            + crate::radar::timeline::FORECAST_FRAMES,
{
}

} // verus!
