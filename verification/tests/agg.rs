use amescii::agg::{
    aggregate, aggregate_wind_dir, age_secs, code_index, compass_16_ja, index_code, trusted_condition,
    vote_condition,
    AggParams, OutlierMath, Scale, Spread, ValueMath, WeightedSample, WindDirResult, WindSums,
};
use amescii::ieee::Single;
use amescii::model::SourceId::{Jma, OpenMeteo, OpenWeatherMap};
use amescii::model::{
    AggregatedValue, Measurement, PointMeasurements, SourceId, WeatherCode, WeatherSnapshot,
};
use amescii::providers::{aggregate_points, collect, collect_votes, Metric};

fn s(x: f32) -> Single {
    Single::from_bits(x.to_bits())
}

fn f(x: Single) -> f32 {
    f32::from_bits(x.bits)
}

fn m(source: SourceId, value: f32, observed_at: u64) -> Measurement {
    Measurement::new(source, s(value), observed_at)
}

fn weight(source: Single, age: u64, tau: Single) -> Single {
    s(f(source) * libm::expf(-(age as f32) / f(tau)))
}

fn add_up(a: Single, b: Single) -> Single {
    s(f(a) + f(b))
}

fn spread(list: Vec<WeightedSample>) -> Spread {
    let mut wsum = 0.0f32;
    let mut wval = 0.0f32;
    for x in &list {
        wsum += f(x.weight);
        wval += f(x.weight) * f(x.value);
    }
    let mean = wval / wsum;
    let mut wvar = 0.0f32;
    for x in &list {
        let d = f(x.value) - mean;
        wvar += f(x.weight) * d * d;
    }
    Spread {
        weight_sum: s(wsum),
        mean: s(mean),
        std: s(libm::sqrtf(wvar / wsum)),
    }
}

fn confidence(value: Single, std: Single, used: u8, excluded: u8, p: AggParams) -> (Single, Single) {
    let denom = libm::fabsf(f(value));
    let cv = if denom <= f32::EPSILON {
        0.0
    } else {
        f(std) / denom
    };
    let agreement = (1.0 - cv / f(p.cv_max)).clamp(0.0, 1.0);
    let coverage = (used as f32) / (p.n_expected as f32);
    let penalty = 1.0 - 0.15 * (excluded as f32);
    (s(cv), s((agreement * coverage * penalty).clamp(0.0, 1.0)))
}

fn mean_of_two(a: Single, b: Single) -> Single {
    s(0.5 * (f(a) + f(b)))
}

fn distance(v: Single, m: Single) -> Single {
    s(libm::fabsf(f(v) - f(m)))
}

fn mean(list: Vec<Single>) -> Single {
    let mut sum = 0.0f32;
    for v in &list {
        sum += f(*v);
    }
    s(sum / list.len() as f32)
}

fn score(d: Single, scale: Scale) -> Single {
    match scale {
        Scale::MedianDeviation(x) => s(0.6745f32 * f(d) / f(x)),
        Scale::MeanDeviation(x) => s(1.0f32 / 1.253314f32 * f(d) / f(x)),
    }
}

fn value_of(data: &[Measurement], now: u64, p: &AggParams) -> AggregatedValue {
    let math = ValueMath {
        weight,
        sum: spread,
        confidence,
    };
    let outliers = OutlierMath {
        mean_of_two,
        distance,
        mean,
        score,
    };
    aggregate(data, now, p, &math, &outliers)
}

fn wind_sums(list: Vec<WeightedSample>) -> WindSums {
    let (mut x, mut y, mut wsum) = (0.0f32, 0.0f32, 0.0f32);
    for d in &list {
        let w = f(d.weight);
        let rad = f(d.value) * core::f32::consts::PI / 180.0;
        x += w * libm::cosf(rad);
        y += w * libm::sinf(rad);
        wsum += w;
    }
    let (xb, yb) = (x / wsum, y / wsum);
    let mut deg = libm::atan2f(yb, xb) * 180.0 / core::f32::consts::PI;
    if deg < 0.0 {
        deg += 360.0;
    }
    WindSums {
        weight_sum: s(wsum),
        dir_deg: s(deg),
        concentration: s(libm::sqrtf(xb * xb + yb * yb)),
    }
}

fn wind_of(dirs: &[Measurement], now: u64, p: &AggParams) -> WindDirResult {
    aggregate_wind_dir(dirs, now, p, &weight, &wind_sums)
}

fn snapshot(points: &[PointMeasurements], now: u64) -> WeatherSnapshot {
    let math = ValueMath {
        weight,
        sum: spread,
        confidence,
    };
    let outliers = OutlierMath {
        mean_of_two,
        distance,
        mean,
        score,
    };
    let rest = |agreement: Single| s(1.0 - f(agreement));
    aggregate_points(points, now, &math, &outliers, &wind_sums, &rest, &add_up)
}

fn compass(deg: f32) -> &'static str {
    let sector = if deg.is_finite() {
        Some((((deg + 11.25) % 360.0) / 22.5) as usize)
    } else {
        None
    };
    compass_16_ja(sector)
}

#[test]
fn excludes_outlier() {
    let now = 1000;
    let data = [
        m(Jma, 23.1, 1000),
        m(OpenMeteo, 23.4, 1000),
        m(OpenWeatherMap, 28.0, 1000),
    ];
    let r = value_of(&data, now, &AggParams::for_slow());
    assert_eq!(r.n_excluded, 1, "28.0 should be excluded");
    assert_eq!(r.n_used, 2);
    assert!((f(r.value) - 23.2).abs() < 0.3, "value={}", f(r.value));
    assert!(f(r.confidence) > 0.4, "confidence={}", f(r.confidence));
}

#[test]
fn all_agree_high_confidence() {
    let now = 1000;
    let data = [
        m(Jma, 20.0, 1000),
        m(OpenMeteo, 20.1, 1000),
        m(OpenWeatherMap, 19.9, 1000),
    ];
    let r = value_of(&data, now, &AggParams::for_slow());
    assert_eq!(r.n_excluded, 0);
    assert_eq!(r.n_used, 3);
    assert!(f(r.cv) < 0.02, "cv={}", f(r.cv));
    assert!(f(r.confidence) > 0.9, "confidence={}", f(r.confidence));
}

#[test]
fn stale_data_downweighted() {
    let now = 10_000;
    let fresh = [m(Jma, 10.0, 10_000), m(OpenWeatherMap, 20.0, 10_000)];
    let stale = [m(Jma, 10.0, 10_000), m(OpenWeatherMap, 20.0, 10_000 - 7200)];
    let rf = f(value_of(&fresh, now, &AggParams::for_slow()).value);
    let rs = f(value_of(&stale, now, &AggParams::for_slow()).value);
    assert!(rs < rf, "stale={}, fresh={}", rs, rf);
}

#[test]
fn wind_direction_wraps() {
    let now = 0;
    let data = [m(Jma, 350.0, 0), m(OpenMeteo, 10.0, 0)];
    let r = wind_of(&data, now, &AggParams::for_slow());
    let d = f(r.dir_deg);
    assert!(d < 5.0 || d > 355.0, "dir={}", d);
    assert!(f(r.concentration) > 0.9, "R={}", f(r.concentration));
}

#[test]
fn empty_is_default() {
    let r = value_of(&[], 0, &AggParams::for_slow());
    assert_eq!(r.n_used, 0);
    assert!(f(r.value).is_nan());
}

#[test]
fn compass_directions() {
    assert_eq!(compass(0.0), "北");
    assert_eq!(compass(90.0), "東");
    assert_eq!(compass(180.0), "南");
    assert_eq!(compass(270.0), "西");
}

#[test]
fn compass_names_all_round() {
    assert_eq!(compass(f32::NAN), "--");
    assert_eq!(compass(348.0), "北北西");
    assert_eq!(compass(349.0), "北");
    assert_eq!(compass_16_ja(Some(17)), "北北東");
}

#[test]
fn what_is_no_number_does_not_count() {
    let data = [
        m(Jma, f32::NAN, 0),
        m(OpenMeteo, f32::INFINITY, 0),
        m(OpenWeatherMap, 5.0, 0),
    ];
    let r = value_of(&data, 0, &AggParams::for_slow());
    assert_eq!((f(r.value), r.n_used, r.n_excluded), (5.0, 1, 0));
    let w = wind_of(&data[..2], 0, &AggParams::for_slow());
    assert_eq!(w.n_used, 0);
    assert!(f(w.dir_deg).is_nan());
}

#[test]
fn two_values_have_no_outlier() {
    let r = value_of(&[m(Jma, 0.0, 0), m(OpenMeteo, 100.0, 0)], 0, &AggParams::for_slow());
    assert_eq!((r.n_used, r.n_excluded), (2, 0));
}

#[test]
fn equal_values_have_no_outlier() {
    let r = value_of(
        &[m(Jma, 7.0, 0), m(OpenMeteo, 7.0, 0), m(OpenWeatherMap, 7.0, 0)],
        0,
        &AggParams::for_slow(),
    );
    assert_eq!((r.n_used, r.n_excluded), (3, 0));
    assert!((f(r.value) - 7.0).abs() < 1e-5);
}

#[test]
fn mean_deviation_is_the_scale_where_most_are_equal() {
    let mut data = vec![m(Jma, 7.0, 0); 7];
    data.push(m(OpenMeteo, 50.0, 0));
    let r = value_of(&data, 0, &AggParams::for_slow());
    assert_eq!((r.n_used, r.n_excluded), (7, 1));
    assert_eq!(f(r.value), 7.0);
}

#[test]
fn eight_values_at_most() {
    let data = vec![m(Jma, 3.0, 0); 12];
    let r = value_of(&data, 0, &AggParams::for_slow());
    assert_eq!(r.n_used, 8);
    assert_eq!(r.n_used + r.n_excluded, 8);
}

#[test]
fn worthless_values_give_nothing() {
    // So old that the weight is 0.
    let r = value_of(&[m(Jma, 3.0, 0)], u64::MAX, &AggParams::for_precip());
    assert_eq!(r.n_used, 0);
    assert!(f(r.value).is_nan());
}

#[test]
fn ages() {
    assert_eq!(age_secs(100, 40), 60);
    assert_eq!(age_secs(40, 100), 0);
}

#[test]
fn parameters() {
    let p = AggParams::for_precip();
    assert_eq!(f(p.w_jma), 1.0);
    assert_eq!(f(p.w_open_meteo), 0.9);
    assert_eq!(f(p.w_owm), 0.8);
    assert_eq!(f(p.tau_secs), 1800.0);
    assert_eq!(f(p.z_thresh), 3.5);
    assert_eq!(f(p.cv_max), 0.20);
    assert_eq!(p.n_expected, 3);
    assert_eq!(f(AggParams::for_slow().tau_secs), 5400.0);
    assert_eq!(AggParams::default(), AggParams::for_slow());
    assert_eq!(f(p.static_weight(OpenWeatherMap)), 0.8);
}

#[test]
fn votes() {
    let p = AggParams::for_slow();
    let vote = |list: &[(SourceId, WeatherCode)]| vote_condition(list, &p, &add_up);
    assert_eq!(vote(&[]), WeatherCode::Clear);
    assert_eq!(
        vote(&[
            (Jma, WeatherCode::Cloudy),
            (OpenMeteo, WeatherCode::Rain),
            (OpenWeatherMap, WeatherCode::Rain),
        ]),
        WeatherCode::Rain
    );
    // The most trusted source alone against one other.
    assert_eq!(
        vote(&[(OpenMeteo, WeatherCode::Clear), (Jma, WeatherCode::Snow)]),
        WeatherCode::Snow
    );
    // Of two equal ones, that of the first vote.
    let even = AggParams {
        w_open_meteo: s(1.0),
        ..p
    };
    assert_eq!(
        vote_condition(
            &[(Jma, WeatherCode::Rain), (OpenMeteo, WeatherCode::Clear)],
            &even,
            &add_up
        ),
        WeatherCode::Rain
    );
    assert_eq!(
        vote(&[(Jma, WeatherCode::Snow), (Jma, WeatherCode::Fog)]),
        WeatherCode::Snow
    );
    // A score that is no number never wins, nor one of -1 or less.
    let rain_or_snow = [(Jma, WeatherCode::Rain), (OpenMeteo, WeatherCode::Snow)];
    for w in [f32::NAN, -1.0, f32::NEG_INFINITY] {
        let odd = AggParams { w_jma: s(w), ..p };
        assert_eq!(vote_condition(&rain_or_snow, &odd, &add_up), WeatherCode::Snow);
        assert_eq!(trusted_condition(&rain_or_snow, &odd, &add_up), WeatherCode::Snow);
        // Nobody has a score that counts.
        let all: Vec<(SourceId, WeatherCode)> = (0..9).rev().map(|i| (Jma, index_code(i))).collect();
        assert_eq!(vote_condition(&all, &odd, &add_up), WeatherCode::Clear);
        assert_eq!(trusted_condition(&all, &odd, &add_up), WeatherCode::Clear);
    }
    // The score counts that was reached first, not the state that was named first.
    let half = AggParams {
        w_jma: s(0.5),
        w_open_meteo: s(1.0),
        w_owm: s(0.5),
        ..p
    };
    let split = [
        (Jma, WeatherCode::Rain),
        (OpenMeteo, WeatherCode::Clear),
        (OpenWeatherMap, WeatherCode::Rain),
    ];
    assert_eq!(vote_condition(&split, &half, &add_up), WeatherCode::Clear);
    // Where the agency has the last word in ties, it has it here too.
    assert_eq!(trusted_condition(&split, &half, &add_up), WeatherCode::Rain);
    assert_eq!(trusted_condition(&split[1..], &p, &add_up), WeatherCode::Clear);
    for i in 0..9 {
        assert_eq!(code_index(index_code(i)), i);
    }
    assert_eq!(index_code(99), WeatherCode::Unknown);
}

fn pm(
    src: SourceId,
    temp: Option<f32>,
    wind: Option<f32>,
    dir: Option<f32>,
    code: Option<u8>,
) -> PointMeasurements {
    let now = 1000;
    PointMeasurements {
        temp_c: temp.map(|v| m(src, v, now)),
        humidity_pct: None,
        wind_ms: wind.map(|v| m(src, v, now)),
        wind_dir_deg: dir.map(|v| m(src, v, now)),
        precip_mmh: None,
        wmo_code: code,
        source: Some(src),
    }
}

#[test]
fn aggregates_three_sources() {
    let points = [
        pm(Jma, Some(23.1), Some(3.0), Some(0.0), Some(0)),
        pm(OpenMeteo, Some(23.4), Some(3.2), Some(10.0), Some(1)),
        pm(OpenWeatherMap, Some(23.5), Some(2.8), Some(350.0), Some(1)),
    ];
    let snap = snapshot(&points, 1000);
    assert!(f(snap.temp_c.value) > 23.0 && f(snap.temp_c.value) < 23.6);
    assert!(snap.temp_c.n_used >= 2);
    let d = f(snap.wind_dir_deg.value);
    assert!(d < 10.0 || d > 350.0, "wind dir={}", d);
    assert_eq!(snap.condition, WeatherCode::PartlyCloudy);
    assert_eq!(snap.generated_at, 1000);
}

#[test]
fn survives_missing_source() {
    let points = [pm(Jma, Some(20.0), None, None, Some(0))];
    let snap = snapshot(&points, 1000);
    assert_eq!(snap.temp_c.n_used, 1);
    assert_eq!(snap.condition, WeatherCode::Clear);
}

#[test]
fn agency_wins_a_tie() {
    // 1.0 + 0.8 and 0.9 + 0.9 are the same single-precision number.
    let points = [
        pm(OpenMeteo, None, None, None, Some(0)),
        pm(OpenMeteo, None, None, None, Some(0)),
        pm(OpenWeatherMap, None, None, None, Some(61)),
        pm(Jma, None, None, None, Some(61)),
    ];
    assert_eq!(1.0f32 + 0.8f32, 0.9f32 + 0.9f32);
    assert_eq!(snapshot(&points, 0).condition, WeatherCode::Rain);
    // Between two reports of its own the first counts.
    let own = [
        pm(Jma, None, None, None, Some(61)),
        pm(Jma, None, None, None, Some(0)),
    ];
    assert_eq!(snapshot(&own, 0).condition, WeatherCode::Rain);
}

#[test]
fn rain_ages_faster_than_the_rest() {
    let old = |v: f32| {
        (
            m(Jma, v, 3600),
            m(OpenMeteo, 2.0 * v, 0),
        )
    };
    let (a, b) = old(10.0);
    let mut p = PointMeasurements::default();
    p.temp_c = Some(a);
    p.precip_mmh = Some(a);
    let mut q = PointMeasurements::default();
    q.temp_c = Some(b);
    q.precip_mmh = Some(b);
    let snap = snapshot(&[p, q], 3600);
    assert_eq!(snap.temp_c, value_of(&[a, b], 3600, &AggParams::for_slow()));
    assert_eq!(snap.precip_mmh, value_of(&[a, b], 3600, &AggParams::for_precip()));
    assert!(f(snap.precip_mmh.value) < f(snap.temp_c.value));
}

#[test]
fn what_is_not_finite_changes_nothing() {
    let data = [m(Jma, 23.1, 0), m(OpenMeteo, 23.4, 0), m(OpenWeatherMap, 28.0, 0)];
    let mixed = [
        m(Jma, f32::NAN, 0),
        data[0],
        data[1],
        m(OpenMeteo, f32::NEG_INFINITY, 0),
        data[2],
        m(Jma, f32::INFINITY, 0),
    ];
    let p = AggParams::for_slow();
    assert_eq!(value_of(&mixed, 0, &p), value_of(&data, 0, &p));
}

#[test]
fn distances_are_added_in_the_order_of_the_values() {
    let add = |values: [f32; 8]| {
        let data: Vec<Measurement> = values.iter().map(|v| m(Jma, *v, 0)).collect();
        let seen = std::cell::RefCell::new(Vec::new());
        let math = ValueMath {
            weight,
            sum: spread,
            confidence,
        };
        let outliers = OutlierMath {
            mean_of_two,
            distance,
            mean: |list: Vec<Single>| {
                *seen.borrow_mut() = list.iter().map(|v| f(*v)).collect();
                mean(list)
            },
            score,
        };
        aggregate(&data, 0, &AggParams::for_slow(), &math, &outliers);
        seen.into_inner()
    };
    let seen = add([1.0, -16777216.0, 1.0, 0.0, 0.0, 0.0, 0.0, 0.0]);
    assert_eq!(seen, vec![16777216.0, 0.0, 0.0, 0.0, 0.0, 0.0, 1.0, 1.0]);
}

#[test]
fn nothing_measured_is_nothing_known() {
    let snap = snapshot(&[], 5);
    assert_eq!(snap.condition, WeatherCode::Unknown);
    assert_eq!(snap.temp_c.n_used, 0);
    assert!(f(snap.wind_dir_deg.value).is_nan());
    assert_eq!(f(snap.wind_dir_deg.cv), 1.0);
}

#[test]
fn votes_come_by_trust() {
    let points = [
        pm(OpenWeatherMap, None, None, None, Some(61)),
        pm(Jma, None, None, None, Some(0)),
        pm(OpenMeteo, None, None, None, None),
        pm(OpenMeteo, None, None, None, Some(3)),
    ];
    assert_eq!(
        collect_votes(&points),
        vec![
            (Jma, WeatherCode::Clear),
            (OpenMeteo, WeatherCode::Cloudy),
            (OpenWeatherMap, WeatherCode::Rain),
        ]
    );
}

#[test]
fn quantities_are_collected_in_order() {
    let points = [
        pm(OpenMeteo, Some(1.0), None, None, None),
        pm(Jma, None, Some(9.0), None, None),
        pm(OpenWeatherMap, Some(2.0), None, None, None),
    ];
    let temps = collect(&points, Metric::Temperature);
    assert_eq!(temps, vec![m(OpenMeteo, 1.0, 1000), m(OpenWeatherMap, 2.0, 1000)]);
    assert_eq!(collect(&points, Metric::WindSpeed), vec![m(Jma, 9.0, 1000)]);
    assert!(collect(&points, Metric::Humidity).is_empty());
}
