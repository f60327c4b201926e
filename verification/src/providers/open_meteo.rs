//! Open-Meteo: the address to ask, and what the answer says.

use vstd::prelude::*;
use vstd::string::StringExecFns;

use crate::error::SourceError;
use crate::ieee::Single;
use crate::model::{Measurement, PointMeasurements, SourceId};

verus! {

/// The present weather in an answer of Open-Meteo.
#[derive(Clone, Copy, PartialEq, Eq, Debug, Structural)]
pub struct OmCurrent {
    pub temperature: Option<Single>,
    pub humidity: Option<Single>,
    pub wind_speed: Option<Single>,
    pub wind_direction: Option<Single>,
    pub precipitation: Option<Single>,
    pub weather_code: Option<u8>,
}

/// A value of a source as a measurement.
pub open spec fn as_measurement(source: SourceId, value: Option<Single>, now: u64) -> Option<
    Measurement,
> {
    match value {
        Some(v) => Some(Measurement { source, value: v, observed_at: now }),
        None => None,
    }
}

/// A value of a source as a measurement.
pub fn measurement(source: SourceId, value: Option<Single>, now: u64) -> (m: Option<Measurement>)
    ensures
        m == as_measurement(source, value, now),
{
    match value {
        Some(v) => Some(Measurement::new(source, v, now)),
        None => None,
    }
}

/// The measurements in an answer of Open-Meteo; an error if it has no present
/// weather.
pub fn open_meteo_point(current: Option<OmCurrent>, now: u64) -> (r: Result<
    PointMeasurements,
    SourceError,
>)
    ensures
        match (current, r) {
            (None, Err(e)) => e == SourceError::NoData,
            (Some(c), Ok(p)) => p == (PointMeasurements {
                temp_c: as_measurement(SourceId::OpenMeteo, c.temperature, now),
                humidity_pct: as_measurement(SourceId::OpenMeteo, c.humidity, now),
                wind_ms: as_measurement(SourceId::OpenMeteo, c.wind_speed, now),
                wind_dir_deg: as_measurement(SourceId::OpenMeteo, c.wind_direction, now),
                precip_mmh: as_measurement(SourceId::OpenMeteo, c.precipitation, now),
                wmo_code: c.weather_code,
                source: Some(SourceId::OpenMeteo),
            }),
            _ => false,
        },
{
    match current {
        None => Err(SourceError::NoData),
        Some(c) => Ok(
            PointMeasurements {
                temp_c: measurement(SourceId::OpenMeteo, c.temperature, now),
                humidity_pct: measurement(SourceId::OpenMeteo, c.humidity, now),
                wind_ms: measurement(SourceId::OpenMeteo, c.wind_speed, now),
                wind_dir_deg: measurement(SourceId::OpenMeteo, c.wind_direction, now),
                precip_mmh: measurement(SourceId::OpenMeteo, c.precipitation, now),
                wmo_code: c.weather_code,
                source: Some(SourceId::OpenMeteo),
            },
        ),
    }
}

/// The address to ask Open-Meteo for a place, whose coordinates are given as
/// they are written there.
pub fn open_meteo_url(lat: &str, lon: &str) -> (url: String)
    ensures
        url@ == "https://api.open-meteo.com/v1/forecast?latitude="@ + lat@ + "&longitude="@ + lon@
            + "&current=temperature_2m,relative_humidity_2m,wind_speed_10m,wind_direction_10m,precipitation,weather_code&wind_speed_unit=ms&models=jma_seamless&timezone=Asia%2FTokyo"@,
{
    let mut url = "https://api.open-meteo.com/v1/forecast?latitude=".to_owned();
    url.append(lat);
    url.append("&longitude=");
    url.append(lon);
    url.append(
        "&current=temperature_2m,relative_humidity_2m,wind_speed_10m,wind_direction_10m,precipitation,weather_code&wind_speed_unit=ms&models=jma_seamless&timezone=Asia%2FTokyo",
    );
    url
}

/// A value becomes a measurement of its source at its time, and a missing one none.
pub proof fn values_keep_source_and_time(source: SourceId, value: Option<Single>, now: u64)
    ensures
        as_measurement(source, value, now) is Some <==> value is Some,
        as_measurement(source, value, now) matches Some(m) ==> Some(m.value) == value && m.source
            == source && m.observed_at == now,
{
}

} // verus!
