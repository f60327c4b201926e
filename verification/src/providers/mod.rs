//! What the sources answer, made into measurements, and the measurements of all
//! sources taken together.

use vstd::arithmetic::power2::pow2;
use vstd::prelude::*;

use crate::agg::{
    aggregate, aggregate_wind_dir, aggregated, code_place, counted, decides, finite_from, params_with,
    ties_go_to_the_agency, trusted_condition, unbeaten, wind_aggregated, AggParams, OutlierMath, Scale,
    Spread, ValueMath, WeightedSample, WindDirResult, WindSums,
};
use crate::ieee::Single;
use crate::model::{
    wmo_state, AggregatedValue, Measurement, PointMeasurements, SourceId, WeatherCode, WeatherSnapshot,
};

pub mod jma;
pub mod open_meteo;
pub mod owm;

verus! {

/// A quantity that sources measure.
#[derive(Clone, Copy, PartialEq, Eq, Debug, Structural)]
pub enum Metric {
    Temperature,
    Humidity,
    WindSpeed,
    WindDirection,
    Precipitation,
}

/// What a source measured of a quantity.
pub open spec fn metric_value(p: PointMeasurements, metric: Metric) -> Option<Measurement> {
    match metric {
        Metric::Temperature => p.temp_c,
        Metric::Humidity => p.humidity_pct,
        Metric::WindSpeed => p.wind_ms,
        Metric::WindDirection => p.wind_dir_deg,
        Metric::Precipitation => p.precip_mmh,
    }
}

/// What the first `n` sources measured of a quantity, those that did.
pub open spec fn measured(points: Seq<PointMeasurements>, metric: Metric, n: nat) -> Seq<Measurement>
    decreases n,
{
    if n == 0 {
        Seq::empty()
    } else {
        let before = measured(points, metric, (n - 1) as nat);
        match metric_value(points[n - 1], metric) {
            Some(m) => before.push(m),
            None => before,
        }
    }
}

/// What the sources measured of a quantity, those that did.
pub fn collect(points: &[PointMeasurements], metric: Metric) -> (out: Vec<Measurement>)
    ensures
        out@ == measured(points@, metric, points@.len()),
{
    let mut out: Vec<Measurement> = Vec::new();
    let mut i: usize = 0;
    while i < points.len()
        invariant
            i <= points@.len(),
            out@ == measured(points@, metric, i as nat),
        decreases points@.len() - i,
    {
        let p = points[i];
        let value = match metric {
            Metric::Temperature => p.temp_c,
            Metric::Humidity => p.humidity_pct,
            Metric::WindSpeed => p.wind_ms,
            Metric::WindDirection => p.wind_dir_deg,
            Metric::Precipitation => p.precip_mmh,
        };
        if let Some(m) = value {
            out.push(m);
        }
        i = i + 1;
    }
    out
}

/// The votes on the weather of one source among the first `n` points.
pub open spec fn votes_from(points: Seq<PointMeasurements>, source: SourceId, n: nat) -> Seq<
    (SourceId, WeatherCode),
>
    decreases n,
{
    if n == 0 {
        Seq::empty()
    } else {
        let before = votes_from(points, source, (n - 1) as nat);
        match (points[n - 1].source, points[n - 1].wmo_code) {
            (Some(s), Some(code)) => if s == source {
                before.push((source, wmo_state(code as int)))
            } else {
                before
            },
            _ => before,
        }
    }
}

/// The votes on the weather: those of the most trusted source first.
pub open spec fn all_votes(points: Seq<PointMeasurements>) -> Seq<(SourceId, WeatherCode)> {
    votes_from(points, SourceId::Jma, points.len()) + votes_from(
        points,
        SourceId::OpenMeteo,
        points.len(),
    ) + votes_from(points, SourceId::OpenWeatherMap, points.len())
}

/// Appends the votes of one source.
fn push_votes(
    votes: &mut Vec<(SourceId, WeatherCode)>,
    points: &[PointMeasurements],
    source: SourceId,
)
    ensures
        final(votes)@ == old(votes)@ + votes_from(points@, source, points@.len()),
{
    proof {
        assert(votes@ =~= votes@ + votes_from(points@, source, 0));
    }
    let mut i: usize = 0;
    while i < points.len()
        invariant
            i <= points@.len(),
            votes@ == old(votes)@ + votes_from(points@, source, i as nat),
        decreases points@.len() - i,
    {
        let p = points[i];
        if let Some(s) = p.source {
            if let Some(code) = p.wmo_code {
                if s == source {
                    votes.push((source, WeatherCode::from_wmo(code)));
                }
            }
        }
        proof {
            assert(votes@ =~= old(votes)@ + votes_from(points@, source, (i + 1) as nat));
        }
        i = i + 1;
    }
}

/// The votes on the weather: those of the most trusted source first, so that a
/// tie goes to it.
pub fn collect_votes(points: &[PointMeasurements]) -> (votes: Vec<(SourceId, WeatherCode)>)
    ensures
        votes@ == all_votes(points@),
{
    let mut votes: Vec<(SourceId, WeatherCode)> = Vec::new();
    push_votes(&mut votes, points, SourceId::Jma);
    push_votes(&mut votes, points, SourceId::OpenMeteo);
    push_votes(&mut votes, points, SourceId::OpenWeatherMap);
    proof {
        assert(votes@ =~= all_votes(points@));
    }
    votes
}

/// A wind direction as a value: the more the sources agree, the more it is
/// trusted.
pub open spec fn wind_value(wind: WindDirResult, spread: Single) -> AggregatedValue {
    AggregatedValue {
        value: wind.dir_deg,
        cv: spread,
        confidence: wind.concentration,
        n_used: wind.n_used,
        n_excluded: 0,
    }
}

/// The parameters for what changes slowly: values age in 5400 seconds.
pub open spec fn slow_params() -> AggParams {
    params_with(Single { bits: 0x45A8_C000 })
}

/// The parameters for rain: values age in 1800 seconds.
pub open spec fn rain_params() -> AggParams {
    params_with(Single { bits: 0x44E1_0000 })
}

/// What the points say of a quantity.
pub open spec fn all_of(points: Seq<PointMeasurements>, metric: Metric) -> Seq<Measurement> {
    measured(points, metric, points.len())
}

/// Whether `v` is the wind direction made of the points, as a value: the spread
/// is what `rest` makes of the agreement.
pub open spec fn wind_value_made<
    W: Fn(Single, u64, Single) -> Single,
    WS: Fn(Vec<WeightedSample>) -> WindSums,
    R: Fn(Single) -> Single,
>(
    points: Seq<PointMeasurements>,
    now: u64,
    weight: W,
    wind_sum: WS,
    rest: R,
    v: AggregatedValue,
) -> bool {
    exists|wind: WindDirResult, spread: Single|
        wind_aggregated(
            all_of(points, Metric::WindDirection),
            now,
            slow_params(),
            weight,
            wind_sum,
            wind,
        ) && #[trigger] rest.ensures((wind.concentration,), spread) && v == wind_value(wind, spread)
}

/// Whether `c` is the state of the weather by the votes of the points; unknown
/// without votes.
pub open spec fn condition_made<A2: Fn(Single, Single) -> Single>(
    points: Seq<PointMeasurements>,
    add_up: A2,
    c: WeatherCode,
) -> bool {
    if all_votes(points).len() == 0 {
        c == WeatherCode::Unknown
    } else {
        exists|history: Seq<Seq<Single>>| #[trigger]
            counted(add_up, all_votes(points), slow_params(), history) && decides(
                all_votes(points),
                history,
                c,
            )
    }
}

/// The weather made of the measurements of all sources.
///
/// Temperature, humidity and wind speed change slowly, and rain fast: the
/// parameters are those for the one and the other. The arithmetic is the
/// caller's: that of values and outliers, `wind_sum` for the mean of directions,
/// `rest` for what an agreement leaves to 1, and `add_up` for sums of weights.
pub fn aggregate_points<
    W: Fn(Single, u64, Single) -> Single,
    S: Fn(Vec<WeightedSample>) -> Spread,
    C: Fn(Single, Single, u8, u8, AggParams) -> (Single, Single),
    M: Fn(Single, Single) -> Single,
    D: Fn(Single, Single) -> Single,
    A: Fn(Vec<Single>) -> Single,
    Z: Fn(Single, Scale) -> Single,
    WS: Fn(Vec<WeightedSample>) -> WindSums,
    R: Fn(Single) -> Single,
    A2: Fn(Single, Single) -> Single,
>(
    points: &[PointMeasurements],
    now: u64,
    math: &ValueMath<W, S, C>,
    outliers: &OutlierMath<M, D, A, Z>,
    wind_sum: &WS,
    rest: &R,
    add_up: &A2,
) -> (s: WeatherSnapshot)
    requires
        math.total(),
        outliers.total(),
        forall|list: Vec<WeightedSample>| #[trigger] wind_sum.requires((list,)),
        forall|a: Single| #[trigger] rest.requires((a,)),
        forall|a: Single, b: Single| #[trigger] add_up.requires((a, b)),
        finite_from(
            all_of(points@, Metric::WindDirection),
            all_of(points@, Metric::WindDirection).len(),
        ).len() <= u8::MAX,
    ensures
        aggregated(
            all_of(points@, Metric::Temperature),
            now,
            slow_params(),
            *math,
            *outliers,
            s.temp_c,
        ),
        aggregated(
            all_of(points@, Metric::Humidity),
            now,
            slow_params(),
            *math,
            *outliers,
            s.humidity_pct,
        ),
        aggregated(
            all_of(points@, Metric::WindSpeed),
            now,
            slow_params(),
            *math,
            *outliers,
            s.wind_ms,
        ),
        aggregated(
            all_of(points@, Metric::Precipitation),
            now,
            rain_params(),
            *math,
            *outliers,
            s.precip_mmh,
        ),
        wind_value_made(points@, now, math.weight, *wind_sum, *rest, s.wind_dir_deg),
        condition_made(points@, *add_up, s.condition),
        s.generated_at == now,
{
    let slow = AggParams::for_slow();
    let precip = AggParams::for_precip();
    let temps = collect(points, Metric::Temperature);
    let hums = collect(points, Metric::Humidity);
    let winds = collect(points, Metric::WindSpeed);
    let wind_dirs = collect(points, Metric::WindDirection);
    let precips = collect(points, Metric::Precipitation);
    let temp_c = aggregate(temps.as_slice(), now, &slow, math, outliers);
    let humidity_pct = aggregate(hums.as_slice(), now, &slow, math, outliers);
    let wind_ms = aggregate(winds.as_slice(), now, &slow, math, outliers);
    let precip_mmh = aggregate(precips.as_slice(), now, &precip, math, outliers);
    let wind = aggregate_wind_dir(wind_dirs.as_slice(), now, &slow, &math.weight, wind_sum);
    let spread = rest(wind.concentration);
    let wind_dir_deg = AggregatedValue {
        value: wind.dir_deg,
        cv: spread,
        confidence: wind.concentration,
        n_used: wind.n_used,
        n_excluded: 0,
    };
    let votes = collect_votes(points);
    let condition = if votes.len() == 0 {
        WeatherCode::Unknown
    } else {
        trusted_condition(votes.as_slice(), &slow, add_up)
    };
    proof {
        if votes@.len() > 0 {
            let history = choose|history: Seq<Seq<Single>>| #[trigger]
                counted(*add_up, votes@, slow, history) && decides(votes@, history, condition);
            assert(counted(*add_up, all_votes(points@), slow_params(), history));
        }
    }
    WeatherSnapshot {
        temp_c,
        humidity_pct,
        wind_ms,
        wind_dir_deg,
        precip_mmh,
        condition,
        generated_at: now,
    }
}

/// The agency wins its ties: where it voted for one state, and no score exceeds
/// that state's, the weather made of the points is in that state.
pub proof fn agency_wins_ties<A2: Fn(Single, Single) -> Single>(
    points: Seq<PointMeasurements>,
    add_up: A2,
    history: Seq<Seq<Single>>,
    at: int,
    c: WeatherCode,
    decided: WeatherCode,
)
    requires
        counted(add_up, all_votes(points), slow_params(), history),
        decides(all_votes(points), history, decided),
        0 <= at < all_votes(points).len(),
        all_votes(points)[at] == (SourceId::Jma, c),
        unbeaten(history.last(), code_place(c)),
        forall|k: int|
            0 <= k < all_votes(points).len() && (#[trigger] all_votes(points)[k]).0 == SourceId::Jma
                && unbeaten(history.last(), code_place(all_votes(points)[k].1))
                ==> all_votes(points)[k].1 == c,
    ensures
        condition_made(points, add_up, decided),
        decided == c,
{
    ties_go_to_the_agency(all_votes(points), history, c, at, decided);
}

/// The votes are those of the points: each vote is that of a point with a source
/// and a code, and the state is the one of the code; each such point has its
/// vote; and the votes of the agency come first, then those of Open-Meteo.
pub proof fn votes_are_those_of_the_points(points: Seq<PointMeasurements>, i: int, k: int, l: int)
    ensures
        0 <= k < all_votes(points).len() ==> exists|j: int|
            0 <= j < points.len() && votes_for(
                #[trigger] points[j],
                all_votes(points)[k].0,
                all_votes(points)[k].1,
            ),
        0 <= i < points.len() ==> forall|s: SourceId, c: WeatherCode| #[trigger]
            votes_for(points[i], s, c) ==> all_votes(points).contains((s, c)),
        0 <= k < l < all_votes(points).len() ==> trust(all_votes(points)[k].0) <= trust(
            all_votes(points)[l].0,
        ),
{
    let n = points.len();
    let a = votes_from(points, SourceId::Jma, n);
    let b = votes_from(points, SourceId::OpenMeteo, n);
    let c = votes_from(points, SourceId::OpenWeatherMap, n);
    let all = all_votes(points);
    assert(all == a + b + c);
    if 0 <= k < all.len() {
        if k < a.len() {
            lemma_votes_from(points, SourceId::Jma, n, k, i);
        } else if k < a.len() + b.len() {
            lemma_votes_from(points, SourceId::OpenMeteo, n, k - a.len(), i);
        } else {
            lemma_votes_from(points, SourceId::OpenWeatherMap, n, k - a.len() - b.len(), i);
        }
    }
    if 0 <= k < l < all.len() {
        if l < a.len() {
            lemma_votes_from(points, SourceId::Jma, n, l, i);
        } else if l < a.len() + b.len() {
            lemma_votes_from(points, SourceId::OpenMeteo, n, l - a.len(), i);
        } else {
            lemma_votes_from(points, SourceId::OpenWeatherMap, n, l - a.len() - b.len(), i);
        }
    }
    if 0 <= i < points.len() {
        assert forall|s: SourceId, w: WeatherCode| #[trigger] votes_for(points[i], s, w) implies all.contains(
            (s, w),
        ) by {
            lemma_votes_from(points, s, n, 0, i);
            let part = votes_from(points, s, n);
            let m = choose|m: int| 0 <= m < part.len() && part[m] == (s, w);
            let at = match s {
                SourceId::Jma => m,
                SourceId::OpenMeteo => a.len() + m,
                SourceId::OpenWeatherMap => a.len() + b.len() + m,
            };
            assert(all[at] == (s, w));
        }
    }
}

/// Whether a point votes so: it has the source, and a code of that state.
pub open spec fn votes_for(p: PointMeasurements, source: SourceId, state: WeatherCode) -> bool {
    p.source == Some(source) && (p.wmo_code matches Some(code) && wmo_state(code as int) == state)
}

/// The rank of a source, the most trusted first.
pub open spec fn trust(source: SourceId) -> int {
    match source {
        SourceId::Jma => 0,
        SourceId::OpenMeteo => 1,
        SourceId::OpenWeatherMap => 2,
    }
}

proof fn lemma_votes_from(points: Seq<PointMeasurements>, source: SourceId, n: nat, k: int, i: int)
    requires
        n <= points.len(),
    ensures
        0 <= k < votes_from(points, source, n).len() ==> votes_from(points, source, n)[k].0 == source
            && exists|j: int|
            0 <= j < n && votes_for(
                #[trigger] points[j],
                source,
                votes_from(points, source, n)[k].1,
            ),
        0 <= i < n ==> forall|c: WeatherCode| #[trigger]
            votes_for(points[i], source, c) ==> votes_from(points, source, n).contains((source, c)),
    decreases n,
{
    if n > 0 {
        let m = (n - 1) as nat;
        lemma_votes_from(points, source, m, k, i);
        let before = votes_from(points, source, m);
        let now = votes_from(points, source, n);
        if 0 <= k < now.len() {
            if k < before.len() {
                let j = choose|j: int|
                    0 <= j < m && votes_for(#[trigger] points[j], source, before[k].1);
                assert(votes_for(points[j], source, now[k].1));
            } else {
                assert(votes_for(points[n - 1], source, now[k].1));
            }
        }
        if 0 <= i < n {
            assert forall|c: WeatherCode| #[trigger] votes_for(points[i], source, c) implies now.contains(
                (source, c),
            ) by {
                if i < m {
                    let q = choose|q: int| 0 <= q < before.len() && before[q] == (source, c);
                    assert(now[q] == (source, c));
                } else {
                    assert(now[now.len() - 1] == (source, c));
                }
            }
        }
    }
}

/// Each quantity is read from its own field.
pub proof fn quantities_are_read_from_their_fields(p: PointMeasurements)
    ensures
        metric_value(p, Metric::Temperature) == p.temp_c,
        metric_value(p, Metric::Humidity) == p.humidity_pct,
        metric_value(p, Metric::WindSpeed) == p.wind_ms,
        metric_value(p, Metric::WindDirection) == p.wind_dir_deg,
        metric_value(p, Metric::Precipitation) == p.precip_mmh,
{
}

/// What is taken together of a quantity is exactly what the points hold of it,
/// in the order of the points.
pub proof fn nothing_measured_is_lost(points: Seq<PointMeasurements>, metric: Metric)
    ensures
        all_of(points, metric) == points.filter(
            |p: PointMeasurements| metric_value(p, metric) is Some,
        ).map_values(|p: PointMeasurements| metric_value(p, metric)->0),
{
    lemma_measured(points, metric, points.len());
    assert(points.take(points.len() as int) =~= points);
}

proof fn lemma_measured(points: Seq<PointMeasurements>, metric: Metric, n: nat)
    requires
        n <= points.len(),
    ensures
        measured(points, metric, n) == points.take(n as int).filter(
            |p: PointMeasurements| metric_value(p, metric) is Some,
        ).map_values(|p: PointMeasurements| metric_value(p, metric)->0),
    decreases n,
{
    reveal(Seq::filter);
    let has = |p: PointMeasurements| metric_value(p, metric) is Some;
    let get = |p: PointMeasurements| metric_value(p, metric)->0;
    if n > 0 {
        lemma_measured(points, metric, (n - 1) as nat);
        let now = points.take(n as int);
        assert(now.drop_last() =~= points.take(n - 1));
        let before = points.take(n - 1).filter(has);
        if has(points[n - 1]) {
            assert(now.filter(has) == before.push(points[n - 1]));
            assert(before.push(points[n - 1]).map_values(get) =~= before.map_values(get).push(
                get(points[n - 1]),
            ));
        }
    } else {
        assert(measured(points, metric, 0) =~= points.take(0).filter(has).map_values(get));
    }
}

/// The votes of a source are those of the points of that source that have a code,
/// in the order of the points.
pub proof fn sources_vote_once_for_each_point(points: Seq<PointMeasurements>, source: SourceId, n: nat)
    requires
        n <= points.len(),
    ensures
        votes_from(points, source, n) == points.take(n as int).filter(
            |p: PointMeasurements| p.source == Some(source) && p.wmo_code is Some,
        ).map_values(|p: PointMeasurements| (source, wmo_state(p.wmo_code->0 as int))),
    decreases n,
{
    reveal(Seq::filter);
    let has = |p: PointMeasurements| p.source == Some(source) && p.wmo_code is Some;
    let vote = |p: PointMeasurements| (source, wmo_state(p.wmo_code->0 as int));
    if n > 0 {
        sources_vote_once_for_each_point(points, source, (n - 1) as nat);
        let now = points.take(n as int);
        assert(now.drop_last() =~= points.take(n - 1));
        let before = points.take(n - 1).filter(has);
        if has(points[n - 1]) {
            assert(now.filter(has) == before.push(points[n - 1]));
            assert(before.push(points[n - 1]).map_values(vote) =~= before.map_values(vote).push(
                vote(points[n - 1]),
            ));
        } else {
            assert(now.filter(has) == before);
        }
    } else {
        assert(votes_from(points, source, 0) =~= points.take(0).filter(has).map_values(vote));
    }
}

/// Rain ages in half an hour, and everything else in an hour and a half.
pub proof fn rain_ages_fast()
    ensures
        rain_params().tau_secs.value() == 1_800 * pow2(149),
        slow_params().tau_secs.value() == 5_400 * pow2(149),
        slow_params() == (AggParams { tau_secs: slow_params().tau_secs, ..rain_params() }),
{
    vstd::arithmetic::power2::lemma2_to64();
    (Single { bits: 0x44E1_0000 }).whole(1_800, 137, 0x61_0000, 13);
    (Single { bits: 0x45A8_C000 }).whole(5_400, 139, 0x28_C000, 11);
}

/// A wind direction as a value: it is trusted as far as the sources agree, its
/// spread is what that leaves to 1, and no source is left out.
pub proof fn wind_is_trusted_as_far_as_sources_agree<
    W: Fn(Single, u64, Single) -> Single,
    WS: Fn(Vec<WeightedSample>) -> WindSums,
    R: Fn(Single) -> Single,
>(
    points: Seq<PointMeasurements>,
    now: u64,
    weight: W,
    wind_sum: WS,
    rest: R,
    v: AggregatedValue,
)
    requires
        wind_value_made(points, now, weight, wind_sum, rest, v),
    ensures
        rest.ensures((v.confidence,), v.cv),
        v.n_excluded == 0,
        wind_aggregated(
            all_of(points, Metric::WindDirection),
            now,
            slow_params(),
            weight,
            wind_sum,
            WindDirResult { dir_deg: v.value, concentration: v.confidence, n_used: v.n_used },
        ),
{
    let (wind, spread) = choose|wind: WindDirResult, spread: Single|
        wind_aggregated(
            all_of(points, Metric::WindDirection),
            now,
            slow_params(),
            weight,
            wind_sum,
            wind,
        ) && #[trigger] rest.ensures((wind.concentration,), spread) && v == wind_value(wind, spread);
    assert(wind == (WindDirResult {
        dir_deg: v.value,
        concentration: v.confidence,
        n_used: v.n_used,
    }));
}

/// Without a vote the weather is unknown; with votes it is the state decided on.
pub proof fn weather_is_unknown_only_without_a_vote<A2: Fn(Single, Single) -> Single>(
    points: Seq<PointMeasurements>,
    add_up: A2,
    c: WeatherCode,
)
    requires
        condition_made(points, add_up, c),
    ensures
        (forall|i: int|
            0 <= i < points.len() ==> (#[trigger] points[i]).source is None || points[i].wmo_code
                is None) ==> c == WeatherCode::Unknown,
        all_votes(points).len() > 0 ==> exists|history: Seq<Seq<Single>>| #[trigger]
            counted(add_up, all_votes(points), slow_params(), history) && decides(
                all_votes(points),
                history,
                c,
            ),
{
    if forall|i: int|
        0 <= i < points.len() ==> (#[trigger] points[i]).source is None || points[i].wmo_code
            is None {
        if all_votes(points).len() > 0 {
            votes_are_those_of_the_points(points, 0, 0, 0);
        }
    }
}

} // verus!
