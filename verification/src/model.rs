//! What the sources measure, and what is made of it.

use vstd::prelude::*;

use crate::ieee::Single;

verus! {

/// Where weather data come from.
#[derive(Clone, Copy, PartialEq, Eq, Debug, Hash, Structural)]
pub enum SourceId {
    /// The Japan Meteorological Agency.
    Jma,
    /// Open-Meteo.
    OpenMeteo,
    /// OpenWeatherMap.
    OpenWeatherMap,
}

impl SourceId {
    /// The short name that is shown.
    pub fn short(self) -> (name: &'static str)
        ensures
            name@ == match self {
                SourceId::Jma => "JMA"@,
                SourceId::OpenMeteo => "O-M"@,
                SourceId::OpenWeatherMap => "OWM"@,
            },
    {
        match self {
            SourceId::Jma => "JMA",
            SourceId::OpenMeteo => "O-M",
            SourceId::OpenWeatherMap => "OWM",
        }
    }

    /// All sources, the most trusted first.
    pub fn all() -> (ids: [SourceId; 3])
        ensures
            ids@ == seq![SourceId::Jma, SourceId::OpenMeteo, SourceId::OpenWeatherMap],
    {
        let ids = [SourceId::Jma, SourceId::OpenMeteo, SourceId::OpenWeatherMap];
        assert(ids@ =~= seq![SourceId::Jma, SourceId::OpenMeteo, SourceId::OpenWeatherMap]);
        ids
    }
}

/// One value from one source.
#[derive(Clone, Copy, PartialEq, Eq, Debug, Structural)]
pub struct Measurement {
    pub source: SourceId,
    pub value: Single,
    /// When it was measured, in seconds from the start of 1970.
    pub observed_at: u64,
}

impl Measurement {
    pub fn new(source: SourceId, value: Single, observed_at: u64) -> (m: Measurement)
        ensures
            m == (Measurement { source, value, observed_at }),
    {
        Measurement { source, value, observed_at }
    }
}

/// The state of the weather.
#[derive(Clone, Copy, PartialEq, Eq, Debug, Structural)]
pub enum WeatherCode {
    Clear,
    PartlyCloudy,
    Cloudy,
    Fog,
    Drizzle,
    Rain,
    Snow,
    Thunderstorm,
    Unknown,
}

/// The state of the weather that a code of the World Meteorological
/// Organization stands for.
pub open spec fn wmo_state(code: int) -> WeatherCode {
    if code == 0 {
        WeatherCode::Clear
    } else if 1 <= code <= 2 {
        WeatherCode::PartlyCloudy
    } else if code == 3 {
        WeatherCode::Cloudy
    } else if code == 45 || code == 48 {
        WeatherCode::Fog
    } else if 51 <= code <= 57 {
        WeatherCode::Drizzle
    } else if 61 <= code <= 67 || 80 <= code <= 82 {
        WeatherCode::Rain
    } else if 71 <= code <= 77 || 85 <= code <= 86 {
        WeatherCode::Snow
    } else if 95 <= code <= 99 {
        WeatherCode::Thunderstorm
    } else {
        WeatherCode::Unknown
    }
}

/// The name of a state of the weather.
pub open spec fn state_label(c: WeatherCode) -> Seq<char> {
    match c {
        WeatherCode::Clear => "晴れ"@,
        WeatherCode::PartlyCloudy => "晴れ時々曇り"@,
        WeatherCode::Cloudy => "曇り"@,
        WeatherCode::Fog => "霧"@,
        WeatherCode::Drizzle => "霧雨"@,
        WeatherCode::Rain => "雨"@,
        WeatherCode::Snow => "雪"@,
        WeatherCode::Thunderstorm => "雷雨"@,
        WeatherCode::Unknown => "不明"@,
    }
}

impl WeatherCode {
    /// The name that is shown.
    pub fn label_ja(self) -> (label: &'static str)
        ensures
            label@ == state_label(self),
    {
        match self {
            WeatherCode::Clear => "晴れ",
            WeatherCode::PartlyCloudy => "晴れ時々曇り",
            WeatherCode::Cloudy => "曇り",
            WeatherCode::Fog => "霧",
            WeatherCode::Drizzle => "霧雨",
            WeatherCode::Rain => "雨",
            WeatherCode::Snow => "雪",
            WeatherCode::Thunderstorm => "雷雨",
            WeatherCode::Unknown => "不明",
        }
    }

    /// The state of the weather that a WMO code stands for.
    pub fn from_wmo(code: u8) -> (c: WeatherCode)
        ensures
            c == wmo_state(code as int),
    {
        match code {
            0 => WeatherCode::Clear,
            1..=2 => WeatherCode::PartlyCloudy,
            3 => WeatherCode::Cloudy,
            45 | 48 => WeatherCode::Fog,
            51..=57 => WeatherCode::Drizzle,
            61..=67 | 80..=82 => WeatherCode::Rain,
            71..=77 | 85..=86 => WeatherCode::Snow,
            95..=99 => WeatherCode::Thunderstorm,
            _ => WeatherCode::Unknown,
        }
    }
}

/// One value made of those of several sources.
#[derive(Clone, Copy, PartialEq, Eq, Debug, Structural)]
pub struct AggregatedValue {
    /// The weighted mean; no number where there is none.
    pub value: Single,
    /// How far the sources are apart: standard deviation over mean.
    pub cv: Single,
    /// How far the value can be trusted, from 0 to 1.
    pub confidence: Single,
    /// How many sources were used.
    pub n_used: u8,
    /// How many sources were left out as outliers.
    pub n_excluded: u8,
}

/// The value of nothing: no number, and no trust in it.
pub open spec fn no_value() -> AggregatedValue {
    AggregatedValue {
        value: Single { bits: 0x7FC0_0000 },
        cv: Single { bits: 0 },
        confidence: Single { bits: 0 },
        n_used: 0,
        n_excluded: 0,
    }
}

impl Default for AggregatedValue {
    fn default() -> (v: AggregatedValue)
        ensures
            v == no_value(),
    {
        AggregatedValue {
            value: Single::from_bits(0x7FC0_0000),
            cv: Single::from_bits(0),
            confidence: Single::from_bits(0),
            n_used: 0,
            n_excluded: 0,
        }
    }
}

/// The weather at a place, made of all sources.
#[derive(Clone, Copy, PartialEq, Eq, Debug, Structural)]
pub struct WeatherSnapshot {
    pub temp_c: AggregatedValue,
    pub humidity_pct: AggregatedValue,
    pub wind_ms: AggregatedValue,
    /// Where the wind comes from, in degrees clockwise from north.
    pub wind_dir_deg: AggregatedValue,
    pub precip_mmh: AggregatedValue,
    pub condition: WeatherCode,
    /// When it was made, in seconds from the start of 1970.
    pub generated_at: u64,
}

/// What one source measured at a place.
#[derive(Clone, Copy, PartialEq, Eq, Debug, Structural)]
pub struct PointMeasurements {
    pub temp_c: Option<Measurement>,
    pub humidity_pct: Option<Measurement>,
    pub wind_ms: Option<Measurement>,
    pub wind_dir_deg: Option<Measurement>,
    pub precip_mmh: Option<Measurement>,
    /// WMO code of the weather.
    pub wmo_code: Option<u8>,
    pub source: Option<SourceId>,
}

/// Nothing measured.
pub open spec fn no_point() -> PointMeasurements {
    PointMeasurements {
        temp_c: None,
        humidity_pct: None,
        wind_ms: None,
        wind_dir_deg: None,
        precip_mmh: None,
        wmo_code: None,
        source: None,
    }
}

impl Default for PointMeasurements {
    fn default() -> (p: PointMeasurements)
        ensures
            p == no_point(),
    {
        PointMeasurements {
            temp_c: None,
            humidity_pct: None,
            wind_ms: None,
            wind_dir_deg: None,
            precip_mmh: None,
            wmo_code: None,
            source: None,
        }
    }
}

/// Which codes mean what: a clear sky is code 0, partly cloudy 1 and 2, cloudy 3,
/// fog 45 and 48, drizzle 51 to 57, rain 61 to 67 and 80 to 82, snow 71 to 77, 85
/// and 86, and a thunderstorm 95 to 99; no other code means one of these.
pub proof fn codes_mean_what_the_list_says(code: u8)
    ensures
        wmo_state(code as int) == WeatherCode::Clear <==> code == 0,
        wmo_state(code as int) == WeatherCode::PartlyCloudy <==> code == 1 || code == 2,
        wmo_state(code as int) == WeatherCode::Cloudy <==> code == 3,
        wmo_state(code as int) == WeatherCode::Fog <==> code == 45 || code == 48,
        wmo_state(code as int) == WeatherCode::Drizzle <==> 51 <= code < 58,
        wmo_state(code as int) == WeatherCode::Rain <==> 61 <= code < 68 || 80 <= code < 83,
        wmo_state(code as int) == WeatherCode::Snow <==> 71 <= code < 78 || code == 85 || code == 86,
        wmo_state(code as int) == WeatherCode::Thunderstorm <==> 95 <= code < 100,
{
}

} // verus!
