//! Settings: where the map starts, keys, and how often data are renewed.

use vstd::prelude::*;

use crate::ieee::Double;

verus! {

/// Where the map starts.
#[derive(Clone, Copy, PartialEq, Eq, Debug, Structural)]
pub struct Startup {
    pub lat: Double,
    pub lon: Double,
    pub zoom: u8,
}

/// Tokyo station, 35.681 north and 139.767 east, at zoom 8.
pub open spec fn tokyo_station() -> Startup {
    Startup {
        lat: Double { bits: 0x4041_D72B_020C_49BA },
        lon: Double { bits: 0x4061_788B_4395_8106 },
        zoom: 8,
    }
}

impl Default for Startup {
    fn default() -> (s: Startup)
        ensures
            s == tokyo_station(),
    {
        Startup {
            lat: Double::from_bits(0x4041_D72B_020C_49BA),
            lon: Double::from_bits(0x4061_788B_4395_8106),
            zoom: 8,
        }
    }
}

/// Keys of the sources.
#[derive(Debug)]
pub struct Sources {
    /// The key for OpenWeatherMap. Without one it is not asked.
    pub owm_api_key: String,
}

impl Default for Sources {
    fn default() -> (s: Sources)
        ensures
            s.owm_api_key@ == Seq::<char>::empty(),
    {
        Sources { owm_api_key: String::new() }
    }
}

/// How often data are renewed, in seconds.
#[derive(Clone, Copy, PartialEq, Eq, Debug, Structural)]
pub struct Refresh {
    pub weather_secs: u64,
    pub radar_secs: u64,
}

impl Default for Refresh {
    fn default() -> (r: Refresh)
        ensures
            r == (Refresh { weather_secs: 600, radar_secs: 300 }),
    {
        Refresh { weather_secs: 600, radar_secs: 300 }
    }
}

/// The settings.
#[derive(Debug)]
pub struct Config {
    pub startup: Startup,
    pub sources: Sources,
    pub refresh: Refresh,
}

impl Default for Config {
    fn default() -> (c: Config)
        ensures
            c.startup == tokyo_station(),
            c.sources.owm_api_key@ == Seq::<char>::empty(),
            c.refresh == (Refresh { weather_secs: 600, radar_secs: 300 }),
    {
        Config {
            startup: Startup::default(),
            sources: Sources::default(),
            refresh: Refresh::default(),
        }
    }
}

} // verus!
