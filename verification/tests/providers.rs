use amescii::clock::{now_unix, reading};
use amescii::error::SourceError;
use amescii::ieee::{Double, Single};
use amescii::model::{Measurement, PointMeasurements, SourceId, WeatherCode};
use amescii::providers::jma::{
    area_for, areas, extract_temp_and_code, forecast_url, jma_code_to_weather, jma_point,
    parse_u32, weather_to_pseudo_wmo, ForecastArea, TempText,
};
use amescii::providers::open_meteo::{open_meteo_point, open_meteo_url, OmCurrent};
use amescii::providers::owm::{
    owm_point, owm_to_pseudo_wmo, owm_url, OwmMain, OwmResponse, OwmWind,
};

fn s(x: f32) -> Single {
    Single::from_bits(x.to_bits())
}

fn f(x: Single) -> f32 {
    f32::from_bits(x.bits)
}

const SAMPLE: &str = r#"[
      {
        "publishingOffice": "気象庁",
        "reportDatetime": "2026-06-28T05:00:00+09:00",
        "timeSeries": [
          {
            "timeDefines": ["2026-06-28T05:00:00+09:00","2026-06-29T00:00:00+09:00","2026-06-30T00:00:00+09:00"],
            "areas": [
              {"area":{"name":"東京地方","code":"130010"},
               "weatherCodes":["313","203","200"],
               "weathers":["雨","くもり","くもり"],
               "winds":["北の風","北の風","南の風"],
               "waves":["０．５メートル","０．５メートル","０．５メートル"]}
            ]
          },
          {
            "timeDefines": ["2026-06-28T06:00:00+09:00","2026-06-28T12:00:00+09:00"],
            "areas": [
              {"area":{"name":"東京地方","code":"130010"},"pops":["10","20"]}
            ]
          },
          {
            "timeDefines": ["2026-06-28T00:00:00+09:00","2026-06-28T09:00:00+09:00"],
            "areas": [
              {"area":{"name":"東京","code":"44132"},"temps":["21","23"]}
            ]
          }
        ]
      },
      {
        "publishingOffice": "気象庁",
        "reportDatetime": "2026-06-28T05:00:00+09:00",
        "timeSeries": [
          {
            "timeDefines": ["2026-06-29T00:00:00+09:00"],
            "areas": [
              {"area":{"name":"東京地方","code":"130010"},
               "weatherCodes":["201"],"pops":["30"],"reliabilities":["A"]}
            ]
          },
          {
            "timeDefines": ["2026-06-29T00:00:00+09:00"],
            "areas": [
              {"area":{"name":"東京","code":"44132"},
               "tempsMin":["20"],"tempsMax":["28"]}
            ]
          }
        ],
        "tempAverage": {"areas":[]},
        "precipAverage": {"areas":[]}
      }
    ]"#;

/// The areas of a forecast, in order.
fn areas_of(json: &str) -> Vec<ForecastArea> {
    let root: serde_json::Value =
        serde_json::from_str(json).expect("real-shape JMA JSON must deserialize");
    let texts = |v: &serde_json::Value| -> Option<Vec<String>> {
        v.as_array()
            .map(|l| l.iter().map(|t| t.as_str().unwrap().to_string()).collect())
    };
    let mut out = Vec::new();
    for block in root.as_array().unwrap() {
        for series in block["timeSeries"].as_array().unwrap() {
            for area in series["areas"].as_array().unwrap() {
                out.push(ForecastArea {
                    temps: texts(&area["temps"]).map(|l| {
                        l.into_iter()
                            .map(|text| TempText {
                                value: text.parse::<f32>().ok().map(s),
                                text,
                            })
                            .collect()
                    }),
                    weather_codes: texts(&area["weatherCodes"]),
                });
            }
        }
    }
    out
}

#[test]
fn parses_real_jma_structure() {
    let (temp, code) = extract_temp_and_code(&areas_of(SAMPLE), 1000);

    let t = temp.expect("temperature should be extracted from timeSeries[2]");
    assert_eq!(f(t.value), 21.0);
    assert_eq!(t.source, SourceId::Jma);
    assert_eq!(t.observed_at, 1000);

    assert_eq!(code, Some(WeatherCode::Rain));
}

#[test]
fn empty_strings_are_skipped() {
    let json = r#"[{"timeSeries":[
          {"areas":[{"weatherCodes":["","100"],"temps":["","","19"]}]}
        ]}]"#;
    let (temp, code) = extract_temp_and_code(&areas_of(json), 0);
    assert_eq!(f(temp.unwrap().value), 19.0);
    assert_eq!(code, Some(WeatherCode::Clear));
}

#[test]
fn unreadable_temperature_leaves_it_to_the_next_area() {
    let json = r#"[{"timeSeries":[
          {"areas":[{"temps":["--","19"]},{"temps":["7.5"]}]}
        ]}]"#;
    let (temp, code) = extract_temp_and_code(&areas_of(json), 0);
    assert_eq!(f(temp.unwrap().value), 7.5);
    assert_eq!(code, None);
}

#[test]
fn forecast_becomes_a_point() {
    let p = jma_point(&areas_of(SAMPLE), 7).unwrap();
    assert_eq!(p.temp_c, Some(Measurement::new(SourceId::Jma, s(21.0), 7)));
    assert_eq!(p.wmo_code, Some(61));
    assert_eq!(p.source, Some(SourceId::Jma));
    assert_eq!(p.humidity_pct, None);
    assert!(matches!(jma_point(&[], 7), Err(SourceError::NoData)));
}

#[test]
fn numbers_are_read() {
    assert_eq!(parse_u32("313"), Some(313));
    assert_eq!(parse_u32("+7"), Some(7));
    assert_eq!(parse_u32("007"), Some(7));
    assert_eq!(parse_u32("4294967295"), Some(u32::MAX));
    assert_eq!(parse_u32("4294967296"), None);
    assert_eq!(parse_u32("42949672950"), None);
    assert_eq!(parse_u32(""), None);
    assert_eq!(parse_u32("+"), None);
    assert_eq!(parse_u32("-1"), None);
    assert_eq!(parse_u32("1 "), None);
    assert_eq!(parse_u32("１"), None);
    for t in ["0", "+0", "++1", "12a", "99999999999999999999", "+4294967295"] {
        assert_eq!(parse_u32(t), t.parse::<u32>().ok(), "{t}");
    }
}

#[test]
fn agency_codes() {
    assert_eq!(jma_code_to_weather("100"), WeatherCode::Clear);
    assert_eq!(jma_code_to_weather("101"), WeatherCode::PartlyCloudy);
    assert_eq!(jma_code_to_weather("199"), WeatherCode::PartlyCloudy);
    assert_eq!(jma_code_to_weather("200"), WeatherCode::Cloudy);
    assert_eq!(jma_code_to_weather("300"), WeatherCode::Rain);
    assert_eq!(jma_code_to_weather("499"), WeatherCode::Snow);
    assert_eq!(jma_code_to_weather("500"), WeatherCode::Unknown);
    assert_eq!(jma_code_to_weather("晴れ"), WeatherCode::Unknown);
}

const STATES: [WeatherCode; 9] = [
    WeatherCode::Clear,
    WeatherCode::PartlyCloudy,
    WeatherCode::Cloudy,
    WeatherCode::Fog,
    WeatherCode::Drizzle,
    WeatherCode::Rain,
    WeatherCode::Snow,
    WeatherCode::Thunderstorm,
    WeatherCode::Unknown,
];

#[test]
fn states_survive_their_codes() {
    for c in STATES {
        assert_eq!(WeatherCode::from_wmo(weather_to_pseudo_wmo(c)), c);
    }
}

#[test]
fn wmo_codes() {
    assert_eq!(WeatherCode::from_wmo(2), WeatherCode::PartlyCloudy);
    assert_eq!(WeatherCode::from_wmo(48), WeatherCode::Fog);
    assert_eq!(WeatherCode::from_wmo(57), WeatherCode::Drizzle);
    assert_eq!(WeatherCode::from_wmo(82), WeatherCode::Rain);
    assert_eq!(WeatherCode::from_wmo(86), WeatherCode::Snow);
    assert_eq!(WeatherCode::from_wmo(99), WeatherCode::Thunderstorm);
    assert_eq!(WeatherCode::from_wmo(46), WeatherCode::Unknown);
    assert_eq!(WeatherCode::from_wmo(100), WeatherCode::Unknown);
}

#[test]
fn owm_codes() {
    let state = |c: u16| WeatherCode::from_wmo(owm_to_pseudo_wmo(c));
    assert_eq!(state(211), WeatherCode::Thunderstorm);
    assert_eq!(state(300), WeatherCode::Drizzle);
    assert_eq!(state(531), WeatherCode::Rain);
    assert_eq!(state(600), WeatherCode::Snow);
    assert_eq!(state(741), WeatherCode::Fog);
    assert_eq!(state(800), WeatherCode::Clear);
    assert_eq!(state(802), WeatherCode::PartlyCloudy);
    assert_eq!(state(804), WeatherCode::Cloudy);
    assert_eq!(state(700), WeatherCode::Unknown);
}

#[test]
fn labels_and_names() {
    let labels = [
        "晴れ", "晴れ時々曇り", "曇り", "霧", "霧雨", "雨", "雪", "雷雨", "不明",
    ];
    for (c, label) in STATES.iter().zip(labels) {
        assert_eq!(c.label_ja(), label);
    }
    let names: Vec<&str> = SourceId::all().iter().map(|s| s.short()).collect();
    assert_eq!(names, vec!["JMA", "O-M", "OWM"]);
}

#[test]
fn open_meteo_answers() {
    let current = OmCurrent {
        temperature: Some(s(23.4)),
        humidity: None,
        wind_speed: Some(s(3.2)),
        wind_direction: Some(s(10.0)),
        precipitation: Some(s(0.0)),
        weather_code: Some(61),
    };
    let p = open_meteo_point(Some(current), 5).unwrap();
    assert_eq!(p.temp_c, Some(Measurement::new(SourceId::OpenMeteo, s(23.4), 5)));
    assert_eq!(p.humidity_pct, None);
    assert_eq!(p.wind_dir_deg, Some(Measurement::new(SourceId::OpenMeteo, s(10.0), 5)));
    assert_eq!(p.wmo_code, Some(61));
    assert_eq!(p.source, Some(SourceId::OpenMeteo));
    assert!(matches!(open_meteo_point(None, 5), Err(SourceError::NoData)));
    assert_eq!(
        open_meteo_url("35.6810", "139.7670"),
        "https://api.open-meteo.com/v1/forecast?latitude=35.6810&longitude=139.7670&current=temperature_2m,relative_humidity_2m,wind_speed_10m,wind_direction_10m,precipitation,weather_code&wind_speed_unit=ms&models=jma_seamless&timezone=Asia%2FTokyo"
    );
}

#[test]
fn owm_answers() {
    let resp = OwmResponse {
        main: Some(OwmMain {
            temp: Some(s(20.0)),
            humidity: Some(s(60.0)),
        }),
        wind: None,
        rain: Some(Some(s(1.5))),
        weather: Some(vec![Some(801), Some(500)]),
    };
    let p = owm_point(&resp, 9);
    assert_eq!(p.temp_c, Some(Measurement::new(SourceId::OpenWeatherMap, s(20.0), 9)));
    assert_eq!(p.humidity_pct, Some(Measurement::new(SourceId::OpenWeatherMap, s(60.0), 9)));
    assert_eq!(p.wind_ms, None);
    assert_eq!(p.precip_mmh, Some(Measurement::new(SourceId::OpenWeatherMap, s(1.5), 9)));
    assert_eq!(p.wmo_code, Some(1));
    let empty = OwmResponse {
        main: None,
        wind: Some(OwmWind { speed: None, deg: Some(s(90.0)) }),
        rain: None,
        weather: Some(vec![]),
    };
    let p = owm_point(&empty, 9);
    assert_eq!(p.temp_c, None);
    assert_eq!(p.wind_dir_deg, Some(Measurement::new(SourceId::OpenWeatherMap, s(90.0), 9)));
    assert_eq!(p.wmo_code, None);
    assert_eq!(p.source, Some(SourceId::OpenWeatherMap));
}

#[test]
fn owm_needs_a_key() {
    assert!(matches!(
        owm_url("1.0", "2.0", ""),
        Err(SourceError::MissingApiKey("OpenWeatherMap"))
    ));
    assert_eq!(
        owm_url("35.6810", "139.7670", "KEY").unwrap(),
        "https://api.openweathermap.org/data/2.5/weather?lat=35.6810&lon=139.7670&units=metric&appid=KEY"
    );
}

#[test]
fn nearest_area_is_chosen() {
    let code = |lat: f64, lon: f64| -> &'static str {
        let mut d = [Double::from_bits(0); 8];
        for (i, a) in areas().iter().enumerate() {
            let (la, lo) = (a.lat as f64 / 100.0, a.lon as f64 / 100.0);
            let dist = (la - lat) * (la - lat) + (lo - lon) * (lo - lon);
            d[i] = Double::from_bits(dist.to_bits());
        }
        area_for(&d)
    };
    assert_eq!(code(35.681, 139.767), "130000");
    assert_eq!(code(43.0, 141.0), "016000");
    assert_eq!(code(26.0, 127.0), "471000");
    assert_eq!(code(34.7, 135.5), "270000");
    assert_eq!(code(f64::NAN, 0.0), "130000");
    assert_eq!(
        forecast_url("130000"),
        "https://www.jma.go.jp/bosai/forecast/data/forecast/130000.json"
    );
}

#[test]
fn messages() {
    assert_eq!(
        SourceError::NoData.message(),
        "API returned no usable data for this location"
    );
    assert_eq!(
        SourceError::NoTargetTime.message(),
        "nowcast target time unavailable"
    );
    assert_eq!(
        SourceError::GridTooLarge.message(),
        "grid capacity exceeded for requested area"
    );
    assert_eq!(
        SourceError::MissingApiKey("OpenWeatherMap").message(),
        "missing API key for OpenWeatherMap"
    );
    assert_eq!(
        SourceError::Shape("list".to_string()).message(),
        "unexpected response shape: list"
    );
}

#[test]
fn clock_readings() {
    assert_eq!(reading(None), 0);
    assert_eq!(reading(Some(12)), 12);
    // Later than the start of 2020.
    assert!(now_unix() > 1_577_836_800);
}

#[test]
fn empty_points() {
    let p = PointMeasurements::default();
    assert_eq!(p.temp_c, None);
    assert_eq!(p.source, None);
}
