use amescii::app::{apply_msg, App, Msg, RenderCache};
use amescii::basemap::{BaseLine, BaseLineKind, NameLabelJa};
use amescii::config::{Config, Refresh, Sources, Startup};
use amescii::geo::GeoBBox;
use amescii::grid::{Grid, GridKind};
use amescii::ieee::{Double, Single};
use amescii::input::{command, handle_key, Command, InputAction, Key, Moved};
use amescii::model::{AggregatedValue, SourceId, WeatherCode, WeatherSnapshot};
use amescii::radar::RadarFrame;
use amescii::schedule::{
    radar_size, requests, sources_to_ask, Due, Request, Schedule, PLAY_INTERVAL, REFETCH_DEBOUNCE,
};
use amescii::ui::legend::Legend;
use amescii::ui::sidebar::{cv_color, metric_line, sidebar, Figures};
use amescii::ui::timeline::{timeline, timeline_bar};
use amescii::ui::{help_place, set_viewport, Piece, Tone};

fn d(x: f64) -> Double {
    Double::from_bits(x.to_bits())
}

fn s(x: f32) -> Single {
    Single::from_bits(x.to_bits())
}

fn frame(valid_unix: u64, is_forecast: bool) -> RadarFrame {
    RadarFrame {
        valid_unix,
        is_forecast,
        grid: Box::new(Grid::new_zeroed(1, 1, GridKind::PrecipMmH, GeoBBox::japan()).unwrap()),
    }
}

fn app() -> App {
    App::new(d(35.0), d(139.0), 8, true)
}

fn with_frames(sorts: &[bool]) -> App {
    let mut a = app();
    a.set_frames(
        sorts
            .iter()
            .enumerate()
            .map(|(i, f)| frame(i as u64 * 300, *f))
            .collect(),
    );
    a
}

fn press(a: &mut App, key: Key) -> InputAction {
    handle_key(a, key, false, |n: i8, e: i8| -> Moved {
        (
            d(35.0 + n as f64),
            d(139.0 + e as f64),
            d(-1.0),
            d(-2.0),
        )
    })
}

#[test]
fn start_state() {
    let a = app();
    assert_eq!(a.center_lat, d(35.0));
    assert_eq!(a.center_lon, d(139.0));
    assert_eq!(a.zoom, 8);
    assert!(a.show_radar && !a.playing && !a.should_quit);
    assert!(a.snapshot.is_none() && a.basemap.is_none() && a.name_labels_ja.is_none());
    assert_eq!(a.status, "起動中...");
    assert_eq!((a.map_cols, a.map_rows), (80, 40));
    assert!(a.current_frame().is_none());
    let c = RenderCache::default();
    assert!(c.basemap_key.is_none() && c.radar_cells.is_empty());
}

#[test]
fn default_settings() {
    let c = Config::default();
    assert_eq!(f64::from_bits(c.startup.lat.bits), 35.681);
    assert_eq!(f64::from_bits(c.startup.lon.bits), 139.767);
    assert_eq!(c.startup.zoom, 8);
    assert_eq!(c.sources.owm_api_key, "");
    assert_eq!(c.refresh.weather_secs, 600);
    assert_eq!(c.refresh.radar_secs, 300);
    assert_eq!(Startup::default(), c.startup);
    assert_eq!(Refresh::default(), c.refresh);
    assert!(Sources::default().owm_api_key.is_empty());
}

#[test]
fn new_timeline_starts_at_the_last_observed_frame() {
    let a = with_frames(&[false, false, true, true]);
    assert_eq!(a.frame_idx, 1);
    assert_eq!(a.current_frame().unwrap().valid_unix, 300);
    assert_eq!(a.radar_version, 1);
    assert_eq!(with_frames(&[true, true]).frame_idx, 1);
    assert_eq!(with_frames(&[]).frame_idx, 0);
}

#[test]
fn stepping_goes_round() {
    let mut a = with_frames(&[false, false, false]);
    a.playing = true;
    a.step_frame(1);
    assert_eq!(a.frame_idx, 0);
    assert!(!a.playing);
    a.step_frame(-1);
    assert_eq!(a.frame_idx, 2);
    a.step_frame(-7);
    assert_eq!(a.frame_idx, 1);
    a.step_frame(7);
    assert_eq!(a.frame_idx, 2);
    a.step_frame(isize::MIN);
    a.step_frame(isize::MAX);
    a.step_frame(1);
    assert_eq!(a.frame_idx, 2);
    a.advance_play();
    assert_eq!(a.frame_idx, 0);
    let mut none = app();
    none.step_frame(3);
    none.advance_play();
    assert_eq!(none.frame_idx, 0);
}

#[test]
fn playing_needs_frames() {
    let mut a = app();
    a.toggle_play();
    assert!(!a.playing);
    let mut a = with_frames(&[false]);
    a.toggle_play();
    assert!(a.playing);
    a.toggle_play();
    assert!(!a.playing);
}

#[test]
fn hiding_rain_stops_playing() {
    let mut a = with_frames(&[false]);
    a.toggle_play();
    a.toggle_radar();
    assert!(!a.show_radar && !a.playing);
    a.toggle_radar();
    assert!(a.show_radar && !a.playing);
}

#[test]
fn zoom_stays_in_range() {
    let mut a = app();
    for _ in 0..20 {
        a.zoom_in();
    }
    assert_eq!(a.zoom, 16);
    for _ in 0..20 {
        a.zoom_out();
    }
    assert_eq!(a.zoom, 3);
    a.zoom_in();
    a.zoom_out();
    assert_eq!(a.zoom, 3);
}

#[test]
fn steps_of_the_map() {
    let mut a = app();
    for (zoom, percent) in [(3, 10), (5, 10), (6, 20), (9, 20), (10, 30), (13, 30), (14, 40)] {
        a.zoom = zoom;
        assert_eq!(a.pan_fraction(), percent);
    }
}

#[test]
fn centre_stays_on_the_map() {
    let mut a = app();
    a.pan(d(90.0), d(181.0), d(-179.0), d(541.0));
    assert_eq!((a.center_lat, a.center_lon), (d(85.0), d(-179.0)));
    a.pan(d(-90.0), d(-181.0), d(-541.0), d(179.0));
    assert_eq!((a.center_lat, a.center_lon), (d(-85.0), d(179.0)));
    a.pan(d(85.0), d(180.0), d(-180.0), d(540.0));
    assert_eq!((a.center_lat, a.center_lon), (d(85.0), d(180.0)));
}

#[test]
fn keys() {
    let c = |ch: char| command(Key::Char(ch), false);
    assert_eq!(c('q'), Command::Quit);
    assert_eq!(command(Key::Char('q'), true), Command::Quit);
    assert_eq!(command(Key::Char('c'), true), Command::Quit);
    assert_eq!(c('c'), Command::Nothing);
    assert_eq!(c('k'), Command::Pan(1, 0));
    assert_eq!(c('j'), Command::Pan(-1, 0));
    assert_eq!(c('h'), Command::Pan(0, -1));
    assert_eq!(c('l'), Command::Pan(0, 1));
    assert_eq!(command(Key::Up, false), Command::Pan(1, 0));
    assert_eq!(command(Key::Down, false), Command::Pan(-1, 0));
    assert_eq!(command(Key::Left, false), Command::Pan(0, -1));
    assert_eq!(command(Key::Right, false), Command::Pan(0, 1));
    for ch in ['a', '+', '='] {
        assert_eq!(c(ch), Command::ZoomIn);
    }
    for ch in ['z', '-', '_'] {
        assert_eq!(c(ch), Command::ZoomOut);
    }
    assert_eq!(c(' '), Command::TogglePlay);
    assert_eq!((c('.'), c(']')), (Command::Step(1), Command::Step(1)));
    assert_eq!((c(','), c('[')), (Command::Step(-1), Command::Step(-1)));
    assert_eq!(c('t'), Command::ToggleRadar);
    assert_eq!(c('s'), Command::Save);
    assert_eq!(c('r'), Command::Refetch);
    assert_eq!(c('x'), Command::Nothing);
    assert_eq!(command(Key::Other, true), Command::Nothing);
}

#[test]
fn keys_change_the_state() {
    let mut a = with_frames(&[false, false]);
    assert_eq!(press(&mut a, Key::Up), InputAction::Refetch);
    assert_eq!((a.center_lat, a.center_lon), (d(55.0), d(139.0)));
    assert_eq!(press(&mut a, Key::Char('h')), InputAction::Refetch);
    assert_eq!((a.center_lat, a.center_lon), (d(35.0), d(119.0)));
    assert_eq!(press(&mut a, Key::Char('a')), InputAction::Refetch);
    assert_eq!(a.zoom, 9);
    assert_eq!(press(&mut a, Key::Char('-')), InputAction::Refetch);
    assert_eq!(a.zoom, 8);
    assert_eq!(press(&mut a, Key::Char(' ')), InputAction::Nothing);
    assert!(a.playing);
    assert_eq!(press(&mut a, Key::Char('.')), InputAction::Nothing);
    assert_eq!(a.frame_idx, 0);
    assert!(!a.playing);
    assert_eq!(press(&mut a, Key::Char(',')), InputAction::Nothing);
    assert_eq!(a.frame_idx, 1);
    assert_eq!(press(&mut a, Key::Char('t')), InputAction::Nothing);
    assert!(!a.show_radar);
    assert_eq!(press(&mut a, Key::Char('s')), InputAction::SaveConfig);
    assert_eq!(press(&mut a, Key::Char('r')), InputAction::Refetch);
    assert_eq!(press(&mut a, Key::Char('q')), InputAction::Quit);
    assert_eq!(press(&mut a, Key::Other), InputAction::Nothing);
}

fn snapshot() -> WeatherSnapshot {
    let value = |v: f32| AggregatedValue {
        value: s(v),
        cv: s(0.1),
        confidence: s(0.8),
        n_used: 3,
        n_excluded: 0,
    };
    WeatherSnapshot {
        temp_c: value(21.5),
        humidity_pct: AggregatedValue::default(),
        wind_ms: value(3.0),
        wind_dir_deg: value(90.0),
        precip_mmh: value(0.5),
        condition: WeatherCode::Rain,
        generated_at: 0,
    }
}

#[test]
fn what_was_fetched_is_reported() {
    let mut a = app();
    apply_msg(&mut a, Msg::Weather(Ok(snapshot())));
    assert_eq!(a.status, "天気更新済み");
    assert!(a.snapshot.is_some());
    apply_msg(&mut a, Msg::Radar(Ok(vec![frame(0, false), frame(1, true)])));
    assert_eq!(a.status, "雨雲更新済み（2コマ）");
    assert_eq!((a.frames.len(), a.frame_idx, a.radar_version), (2, 0, 1));
    let line = BaseLine {
        points: vec![],
        kind: BaseLineKind::Road,
    };
    apply_msg(&mut a, Msg::Basemap(Ok(vec![line])));
    assert_eq!(a.status, "地図更新済み");
    assert_eq!(a.basemap_version, 1);
    let label = NameLabelJa {
        lat: d(0.0),
        lon: d(0.0),
        text: "皇居".to_string(),
    };
    apply_msg(&mut a, Msg::LabelsJa(Ok(vec![label])));
    assert_eq!(a.status, "地図更新済み");
    assert_eq!(a.name_labels_ja.as_ref().unwrap().len(), 1);
}

#[test]
fn what_failed_leaves_the_data() {
    let mut a = with_frames(&[false]);
    apply_msg(&mut a, Msg::Weather(Err("x".to_string())));
    assert_eq!(a.status, "天気取得失敗: x");
    apply_msg(&mut a, Msg::Radar(Err("y".to_string())));
    assert_eq!(a.status, "雨雲取得失敗: y");
    assert_eq!((a.frames.len(), a.radar_version), (1, 1));
    apply_msg(&mut a, Msg::Basemap(Err("z".to_string())));
    assert_eq!(a.status, "地図取得失敗: z");
    assert!(a.basemap.is_none());
    apply_msg(&mut a, Msg::LabelsJa(Err("w".to_string())));
    assert_eq!(a.status, "地名取得失敗: w");
}

const SEC: u128 = 1_000_000_000;

#[test]
fn burst_of_keys_fetches_once() {
    let mut a = app();
    let mut t = Schedule::new(Refresh::default(), 0);
    t.after_key(&mut a, InputAction::Refetch, SEC);
    t.after_key(&mut a, InputAction::Refetch, SEC + REFETCH_DEBOUNCE - 1);
    let none = Due {
        refetch: false,
        weather: false,
        radar: false,
    };
    assert_eq!(t.due(&mut a, SEC + REFETCH_DEBOUNCE), none);
    let at = SEC + 2 * REFETCH_DEBOUNCE - 1;
    let due = t.due(&mut a, at);
    assert_eq!(due, Due { refetch: true, ..none });
    assert_eq!((t.last_weather, t.last_radar), (at, at));
    assert_eq!(t.due(&mut a, at + SEC), none);
}

#[test]
fn other_keys_fetch_nothing() {
    let mut a = app();
    let mut t = Schedule::new(Refresh::default(), 0);
    for action in [InputAction::Nothing, InputAction::SaveConfig, InputAction::Quit] {
        t.after_key(&mut a, action, SEC);
    }
    assert!(!t.pending_refetch);
}

#[test]
fn names_are_dropped_where_they_are_not_shown() {
    let mut a = app();
    let mut t = Schedule::new(Refresh::default(), 0);
    a.name_labels_ja = Some(vec![]);
    a.zoom = 11;
    t.after_key(&mut a, InputAction::Refetch, 0);
    assert!(a.name_labels_ja.is_some());
    a.zoom = 10;
    t.after_key(&mut a, InputAction::Nothing, 0);
    assert!(a.name_labels_ja.is_some());
    t.after_key(&mut a, InputAction::Refetch, 0);
    assert!(a.name_labels_ja.is_none());
}

#[test]
fn data_are_renewed() {
    let mut a = app();
    let mut t = Schedule::new(Refresh { weather_secs: 600, radar_secs: 5 }, 0);
    assert_eq!(t.radar_interval, 60 * SEC);
    let due = t.due(&mut a, 60 * SEC);
    assert_eq!((due.weather, due.radar), (false, true));
    let due = t.due(&mut a, 119 * SEC);
    assert_eq!((due.weather, due.radar), (false, false));
    let due = t.due(&mut a, 600 * SEC);
    assert_eq!((due.weather, due.radar), (true, true));
}

#[test]
fn timeline_goes_on_while_playing() {
    let mut a = with_frames(&[false, false]);
    let mut t = Schedule::new(Refresh::default(), 0);
    t.due(&mut a, PLAY_INTERVAL);
    assert_eq!(a.frame_idx, 1);
    a.playing = true;
    t.due(&mut a, PLAY_INTERVAL - 1);
    assert_eq!(a.frame_idx, 1);
    t.due(&mut a, PLAY_INTERVAL);
    assert_eq!(a.frame_idx, 0);
    t.due(&mut a, PLAY_INTERVAL + 1);
    assert_eq!(a.frame_idx, 0);
    a.show_radar = false;
    t.due(&mut a, 9 * PLAY_INTERVAL);
    assert_eq!(a.frame_idx, 0);
}

#[test]
fn what_a_view_needs() {
    assert_eq!(
        requests(10),
        vec![Request::Weather, Request::Basemap, Request::Radar]
    );
    assert_eq!(
        requests(11),
        vec![
            Request::Weather,
            Request::Basemap,
            Request::Radar,
            Request::LabelsJa
        ]
    );
    assert_eq!(radar_size(80, 40), (160, 160));
    assert_eq!(radar_size(0, 0), (1, 1));
    assert_eq!(radar_size(200, 200), (256, 256));
    assert_eq!(sources_to_ask(""), vec![SourceId::Jma, SourceId::OpenMeteo]);
    assert_eq!(
        sources_to_ask("key"),
        vec![SourceId::Jma, SourceId::OpenMeteo, SourceId::OpenWeatherMap]
    );
}

fn flat(line: &[Piece]) -> Vec<(&str, Tone)> {
    line.iter().map(|p| (p.text.as_str(), p.tone)).collect()
}

#[test]
fn timeline_line() {
    let mut a = with_frames(&[false, false, true]);
    assert_eq!(
        flat(&timeline(&a, 80, 1, "21:30")),
        vec![
            ("過去 ◀", Tone::Dim),
            (" ", Tone::Plain),
            ("━", Tone::Gray),
            ("●", Tone::Bold),
            ("━", Tone::Cyan),
            (" ", Tone::Plain),
            ("▶ 未来", Tone::Dim),
            ("  ", Tone::Plain),
            ("21:30 ", Tone::Bold),
            ("実況", Tone::White),
            (" ", Tone::Plain),
            ("⏸停止", Tone::Yellow),
        ]
    );
    a.frame_idx = 9;
    a.playing = true;
    let line = timeline(&a, 80, 1, "21:30");
    assert_eq!((line[4].text.as_str(), line[4].tone), ("●", Tone::Bold));
    assert_eq!((line[9].text.as_str(), line[9].tone), ("予報", Tone::Cyan));
    assert_eq!(line[11].text, "▶再生");
    assert!(timeline(&a, 0, 1, "").is_empty());
    assert!(timeline(&a, 1, 0, "").is_empty());
    assert_eq!(
        flat(&timeline(&app(), 80, 1, "")),
        vec![(" 雨雲タイムライン: 取得待ち...", Tone::Dim)]
    );
}

#[test]
fn timeline_is_hidden_with_the_rain() {
    let mut a = with_frames(&[false]);
    assert_eq!(timeline_bar(&a, 80, 1, "09:00").unwrap().len(), timeline(&a, 80, 1, "09:00").len());
    a.toggle_radar();
    assert!(timeline_bar(&a, 80, 1, "09:00").is_none());
}

fn figures() -> Figures {
    let t = |x: &str| x.to_string();
    Figures {
        lat: t("35.000"),
        lon: t("139.000"),
        temp: t("21.5"),
        temp_spread: t("2.1"),
        humidity: t("NaN"),
        humidity_spread: t("NaN"),
        wind: t("3.0"),
        wind_sector: Some(4),
        precip: t("0.5"),
        precip_spread: t("0.1"),
        cv_pct: t("10.0"),
        confidence_pct: t("80"),
    }
}

#[test]
fn sidebar_lines() {
    let mut a = app();
    a.snapshot = Some(snapshot());
    a.status = "ok".to_string();
    let lines = sidebar(&a, &figures());
    let texts: Vec<String> = lines
        .iter()
        .map(|l| l.iter().map(|p| p.text.as_str()).collect())
        .collect();
    assert_eq!(
        texts,
        vec![
            "位置 35.000N 139.000E z8",
            "",
            "気温   21.5°C  ±2.1",
            "湿度   --",
            "風   3.0 m/s 東",
            "降水   0.5mm/h  ±0.1",
            "",
            "天気 雨",
            "",
            "一致 CV 10.0%",
            "信頼 80%  使用3/除外0",
            "",
            "ok",
        ]
    );
    assert_eq!(lines[9][1].tone, Tone::Yellow);
    assert_eq!(lines[2][1].tone, Tone::White);
    assert_eq!(lines[2][2].tone, Tone::Dim);
}

#[test]
fn sidebar_without_weather() {
    let lines = sidebar(&app(), &figures());
    assert_eq!(lines.len(), 5);
    assert_eq!(flat(&lines[2]), vec![("天気データ取得待ち...", Tone::Dim)]);
    assert_eq!(flat(&lines[4]), vec![("起動中...", Tone::Dim)]);
}

#[test]
fn labels_are_padded() {
    let v = AggregatedValue::default();
    assert_eq!(metric_line("a", &v, "", "", "")[0].text, "a    --");
    assert_eq!(metric_line("abcdef", &v, "", "", "")[0].text, "abcdef --");
}

#[test]
fn spread_colors() {
    assert_eq!(cv_color(s(0.049)), Tone::Green);
    assert_eq!(cv_color(s(0.05)), Tone::Yellow);
    assert_eq!(cv_color(s(0.119)), Tone::Yellow);
    assert_eq!(cv_color(s(0.12)), Tone::Red);
    assert_eq!(cv_color(s(f32::NAN)), Tone::Red);
}

#[test]
fn legend_line() {
    let legend = Legend;
    let line = legend.colors();
    assert_eq!(line.len(), 16);
    assert_eq!(line[0].text, "■");
    assert_eq!(line[1].text, "0.1 ");
    assert_eq!(line[15].text, "80+ ");
    assert!(matches!(line[14].tone, Tone::Color(c) if (c.r, c.g, c.b) == (0xB4, 0x00, 0xB4)));
    assert_eq!(legend.credits().text, "出典: 気象庁 / 国土地理院");
}

#[test]
fn places_on_the_screen() {
    let mut a = app();
    set_viewport(&mut a, 70, 30);
    assert_eq!((a.map_cols, a.map_rows), (68, 28));
    set_viewport(&mut a, 1, 0);
    assert_eq!((a.map_cols, a.map_rows), (0, 0));
    assert_eq!(help_place(0, 0, 70, 30), Some((1, 29, 68)));
    assert_eq!(help_place(5, 3, 1, 2), Some((6, 4, 0)));
    assert_eq!(help_place(0, 0, 70, 1), None);
}
