//! OpenWeatherMap: the address to ask, and what the answer says.

use vstd::prelude::*;
use vstd::string::StringExecFns;

use crate::error::SourceError;
use crate::ieee::Single;
use crate::model::{wmo_state, PointMeasurements, SourceId, WeatherCode};
use crate::providers::open_meteo::{as_measurement, measurement};

verus! {

/// Temperature and humidity in an answer of OpenWeatherMap.
#[derive(Clone, Copy, PartialEq, Eq, Debug, Structural)]
pub struct OwmMain {
    pub temp: Option<Single>,
    pub humidity: Option<Single>,
}

/// The wind in an answer of OpenWeatherMap.
#[derive(Clone, Copy, PartialEq, Eq, Debug, Structural)]
pub struct OwmWind {
    pub speed: Option<Single>,
    pub deg: Option<Single>,
}

/// An answer of OpenWeatherMap.
pub struct OwmResponse {
    pub main: Option<OwmMain>,
    pub wind: Option<OwmWind>,
    /// The rain of the last hour, if the answer speaks of rain.
    pub rain: Option<Option<Single>>,
    /// The codes of the weather, if the answer lists any.
    pub weather: Option<Vec<Option<u16>>>,
}

/// The WMO code that stands for a code of OpenWeatherMap, by its sort; 255 for
/// one that is not known.
pub open spec fn owm_wmo(owm: int) -> int {
    if 200 <= owm <= 232 {
        95
    } else if 300 <= owm <= 321 {
        51
    } else if 500 <= owm <= 531 {
        61
    } else if 600 <= owm <= 622 {
        71
    } else if 701 <= owm <= 781 {
        45
    } else if owm == 800 {
        0
    } else if 801 <= owm <= 802 {
        1
    } else if 803 <= owm <= 804 {
        3
    } else {
        255
    }
}

/// The WMO code that stands for a code of OpenWeatherMap.
pub fn owm_to_pseudo_wmo(owm: u16) -> (code: u8)
    ensures
        code == owm_wmo(owm as int),
{
    match owm {
        200..=232 => 95,
        300..=321 => 51,
        500..=531 => 61,
        600..=622 => 71,
        701..=781 => 45,
        800 => 0,
        801..=802 => 1,
        803..=804 => 3,
        _ => 255,
    }
}

/// The sorts of OpenWeatherMap keep their meaning: thunderstorm, drizzle, rain,
/// snow, fog, clear, partly cloudy and cloudy.
pub proof fn owm_codes_keep_their_meaning(owm: u16)
    ensures
        200 <= owm <= 232 ==> wmo_state(owm_wmo(owm as int)) == WeatherCode::Thunderstorm,
        300 <= owm <= 321 ==> wmo_state(owm_wmo(owm as int)) == WeatherCode::Drizzle,
        500 <= owm <= 531 ==> wmo_state(owm_wmo(owm as int)) == WeatherCode::Rain,
        600 <= owm <= 622 ==> wmo_state(owm_wmo(owm as int)) == WeatherCode::Snow,
        701 <= owm <= 781 ==> wmo_state(owm_wmo(owm as int)) == WeatherCode::Fog,
        owm == 800 ==> wmo_state(owm_wmo(owm as int)) == WeatherCode::Clear,
        801 <= owm <= 802 ==> wmo_state(owm_wmo(owm as int)) == WeatherCode::PartlyCloudy,
        803 <= owm <= 804 ==> wmo_state(owm_wmo(owm as int)) == WeatherCode::Cloudy,
{
}

/// The first weather code of an answer, as a WMO code.
pub open spec fn first_code(weather: Option<Vec<Option<u16>>>) -> Option<u8> {
    match weather {
        Some(list) => if list@.len() > 0 {
            match list@[0] {
                Some(id) => Some(owm_wmo(id as int) as u8),
                None => None,
            }
        } else {
            None
        },
        None => None,
    }
}

/// The measurements in an answer of OpenWeatherMap; what it leaves out stays
/// out.
pub fn owm_point(resp: &OwmResponse, now: u64) -> (p: PointMeasurements)
    ensures
        p == (PointMeasurements {
            temp_c: match resp.main {
                Some(m) => as_measurement(SourceId::OpenWeatherMap, m.temp, now),
                None => None,
            },
            humidity_pct: match resp.main {
                Some(m) => as_measurement(SourceId::OpenWeatherMap, m.humidity, now),
                None => None,
            },
            wind_ms: match resp.wind {
                Some(w) => as_measurement(SourceId::OpenWeatherMap, w.speed, now),
                None => None,
            },
            wind_dir_deg: match resp.wind {
                Some(w) => as_measurement(SourceId::OpenWeatherMap, w.deg, now),
                None => None,
            },
            precip_mmh: match resp.rain {
                Some(r) => as_measurement(SourceId::OpenWeatherMap, r, now),
                None => None,
            },
            wmo_code: first_code(resp.weather),
            source: Some(SourceId::OpenWeatherMap),
        }),
{
    let main = match resp.main {
        Some(m) => m,
        None => OwmMain { temp: None, humidity: None },
    };
    let wind = match resp.wind {
        Some(w) => w,
        None => OwmWind { speed: None, deg: None },
    };
    let precip = match resp.rain {
        Some(r) => r,
        None => None,
    };
    let wmo_code = match &resp.weather {
        Some(list) => if list.len() > 0 {
            match list[0] {
                Some(id) => Some(owm_to_pseudo_wmo(id)),
                None => None,
            }
        } else {
            None
        },
        None => None,
    };
    PointMeasurements {
        temp_c: measurement(SourceId::OpenWeatherMap, main.temp, now),
        humidity_pct: measurement(SourceId::OpenWeatherMap, main.humidity, now),
        wind_ms: measurement(SourceId::OpenWeatherMap, wind.speed, now),
        wind_dir_deg: measurement(SourceId::OpenWeatherMap, wind.deg, now),
        precip_mmh: measurement(SourceId::OpenWeatherMap, precip, now),
        wmo_code,
        source: Some(SourceId::OpenWeatherMap),
    }
}

/// The address to ask OpenWeatherMap for a place, whose coordinates are given
/// as they are written there. Without a key there is none.
pub fn owm_url(lat: &str, lon: &str, api_key: &str) -> (r: Result<String, SourceError>)
    ensures
        match r {
            Ok(url) => api_key@.len() > 0 && url@
                == "https://api.openweathermap.org/data/2.5/weather?lat="@ + lat@ + "&lon="@ + lon@
                + "&units=metric&appid="@ + api_key@,
            Err(e) => api_key@.len() == 0 && (e matches SourceError::MissingApiKey(name) && name@
                == "OpenWeatherMap"@),
        },
{
    proof {
        vstd::utf8::encode_utf8_decode_utf8(api_key@);
    }
    if api_key.is_empty() {
        return Err(SourceError::MissingApiKey("OpenWeatherMap"));
    }
    let mut url = "https://api.openweathermap.org/data/2.5/weather?lat=".to_owned();
    url.append(lat);
    url.append("&lon=");
    url.append(lon);
    url.append("&units=metric&appid=");
    url.append(api_key);
    Ok(url)
}

/// Codes outside the known sorts are unknown, and no code means a state that its
/// sort does not.
pub proof fn other_owm_codes_are_unknown(owm: u16)
    ensures
        wmo_state(owm_wmo(owm as int)) == WeatherCode::Unknown <==> !(200 <= owm < 233 || 300 <= owm
            < 322 || 500 <= owm < 532 || 600 <= owm < 623 || 701 <= owm < 782 || 800 <= owm < 805),
{
}

/// Only the first code of an answer counts, and what it leaves out stays out.
pub proof fn only_the_first_owm_code_counts(weather: Option<Vec<Option<u16>>>)
    ensures
        first_code(weather) is Some <==> (weather matches Some(list) && list@.len() > 0 && list@[0] is Some),
        first_code(weather) matches Some(code) ==> weather->0@[0] matches Some(id) && code == owm_wmo(
            id as int,
        ),
{
}

/// The code for a code of OpenWeatherMap is the lowest of its state, and 255 for
/// one that is not known.
pub proof fn owm_codes_become_the_lowest_of_their_state(owm: u16, code: u8)
    ensures
        wmo_state(owm_wmo(owm as int)) == WeatherCode::Unknown ==> owm_wmo(owm as int) == 255,
        wmo_state(owm_wmo(owm as int)) != WeatherCode::Unknown && wmo_state(code as int)
            == wmo_state(owm_wmo(owm as int)) ==> owm_wmo(owm as int) <= code,
{
}

} // verus!
