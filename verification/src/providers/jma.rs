//! The Japan Meteorological Agency: the forecast to ask for, and what it says.

use vstd::prelude::*;
use vstd::string::{StrSliceExecFns, StringExecFns};

use crate::error::SourceError;
use crate::ieee::{Double, Single};
use crate::model::{wmo_state, Measurement, PointMeasurements, SourceId, WeatherCode};
use crate::calendar::digits_value;
use crate::places::city_table;
use crate::text::{decimal, decimal_is_faithful, digit_char, is_digit};

verus! {

/// A forecast area: where its centre is, and its code.
#[derive(Clone, Copy)]
pub struct Area {
    /// Latitude in hundredths of a degree.
    pub lat: i32,
    /// Longitude in hundredths of a degree.
    pub lon: i32,
    pub code: &'static str,
}

/// How many forecast areas are known.
pub const AREA_COUNT: usize = 8;

/// What is known of a forecast area: latitude and longitude in hundredths of a
/// degree, and the code.
pub open spec fn area_table() -> Seq<(int, int, Seq<char>)> {
    seq![
        (4306int, 14135int, "016000"@),
        (3827int, 14087int, "040000"@),
        (3569int, 13969int, "130000"@),
        (3518int, 13691int, "230000"@),
        (3469int, 13550int, "270000"@),
        (3439int, 13246int, "340000"@),
        (3359int, 13040int, "400000"@),
        (2621int, 12768int, "471000"@),
    ]
}

/// The forecast areas: Sapporo, Sendai, Tokyo, Nagoya, Osaka, Hiroshima,
/// Fukuoka and Naha.
pub fn areas() -> (table: [Area; 8])
    ensures
        forall|i: int|
            0 <= i < AREA_COUNT ==> (
            (#[trigger] table@[i]).lat as int,
            table@[i].lon as int,
            table@[i].code@,
        ) == area_table()[i],
{
    [
        Area { lat: 4306, lon: 14135, code: "016000" },
        Area { lat: 3827, lon: 14087, code: "040000" },
        Area { lat: 3569, lon: 13969, code: "130000" },
        Area { lat: 3518, lon: 13691, code: "230000" },
        Area { lat: 3469, lon: 13550, code: "270000" },
        Area { lat: 3439, lon: 13246, code: "340000" },
        Area { lat: 3359, lon: 13040, code: "400000" },
        Area { lat: 2621, lon: 12768, code: "471000" },
    ]
}

/// The first of the first `n` areas with the smallest distance, and that
/// distance; Tokyo where no distance is below the largest finite number.
pub open spec fn nearest_area(distances: Seq<Double>, n: nat) -> (int, Double)
    decreases n,
{
    if n == 0 {
        (2, Double { bits: 0x7FEF_FFFF_FFFF_FFFF })
    } else {
        let (best, d) = nearest_area(distances, (n - 1) as nat);
        if distances[n - 1].below(d) {
            (n - 1, distances[n - 1])
        } else {
            (best, d)
        }
    }
}

/// The code of the nearest area, given the distance of each.
pub fn area_for(distances: &[Double; 8]) -> (code: &'static str)
    ensures
        code@ == area_table()[nearest_area(distances@, 8).0].2,
{
    let table = areas();
    let mut best: usize = 2;
    let mut best_d = Double::from_bits(0x7FEF_FFFF_FFFF_FFFF);
    let mut i: usize = 0;
    while i < AREA_COUNT
        invariant
            i <= AREA_COUNT,
            best < AREA_COUNT,
            nearest_area(distances@, i as nat) == (best as int, best_d),
        decreases AREA_COUNT - i,
    {
        if distances[i].lt(best_d) {
            best_d = distances[i];
            best = i;
        }
        i = i + 1;
    }
    proof {
        assert(table@[best as int].code@ == area_table()[best as int].2);
    }
    table[best].code
}

/// No area is nearer than the one chosen, and none before it is as near.
pub proof fn chosen_area_is_nearest(distances: Seq<Double>, n: nat)
    requires
        n <= distances.len(),
        forall|i: int|
            0 <= i < n ==> (#[trigger] distances[i]).below(
                Double { bits: 0x7FEF_FFFF_FFFF_FFFF },
            ),
    ensures
        n > 0 ==> 0 <= nearest_area(distances, n).0 < n && distances[nearest_area(distances, n).0]
            == nearest_area(distances, n).1,
        forall|i: int|
            0 <= i < n ==> !(#[trigger] distances[i]).below(nearest_area(distances, n).1),
        n > 0 ==> forall|i: int|
            0 <= i < nearest_area(distances, n).0 ==> nearest_area(distances, n).1.below(
                #[trigger] distances[i],
            ),
    decreases n,
{
    if n > 0 {
        chosen_area_is_nearest(distances, (n - 1) as nat);
        assert(distances[n - 1].below(Double { bits: 0x7FEF_FFFF_FFFF_FFFF }));
        if n == 1 {
            assert(nearest_area(distances, 0) == (2int, Double { bits: 0x7FEF_FFFF_FFFF_FFFF }));
        }
    }
}

/// The address of a forecast.
pub fn forecast_url(area_code: &str) -> (url: String)
    ensures
        url@ == "https://www.jma.go.jp/bosai/forecast/data/forecast/"@ + area_code@ + ".json"@,
{
    let mut url = "https://www.jma.go.jp/bosai/forecast/data/forecast/".to_owned();
    url.append(area_code);
    url.append(".json");
    url
}

/// The number that digits make up; none without a digit or with another
/// character.
pub open spec fn digits_number(s: Seq<char>) -> Option<int>
    decreases s.len(),
{
    if s.len() == 0 || !is_digit(s.last()) {
        None
    } else {
        let d = s.last() as int - '0' as int;
        if s.len() == 1 {
            Some(d)
        } else {
            match digits_number(s.drop_last()) {
                Some(n) => Some(10 * n + d),
                None => None,
            }
        }
    }
}

/// The number that a text stands for: digits, after a plus sign or without, up
/// to the largest of 32 bits.
pub open spec fn text_number(s: Seq<char>) -> Option<int> {
    let digits = if s.len() > 0 && s[0] == '+' {
        s.drop_first()
    } else {
        s
    };
    match digits_number(digits) {
        Some(n) if n <= u32::MAX => Some(n),
        _ => None,
    }
}

proof fn lemma_digits_number(s: Seq<char>, n: int)
    requires
        0 < n <= s.len(),
    ensures
        s.take(n).last() == s[n - 1],
        s.take(n).drop_last() == s.take(n - 1),
{
    assert(s.take(n).drop_last() =~= s.take(n - 1));
}

/// A number stays too large, and a text stays without a number, whatever
/// characters follow.
proof fn lemma_stays(s: Seq<char>, n: int, m: int)
    requires
        0 < n <= m <= s.len(),
    ensures
        digits_number(s.take(n)) is None ==> digits_number(s.take(m)) is None,
        digits_number(s.take(n)) matches Some(v) ==> v >= 0 && (digits_number(s.take(m)) matches Some(
            w,
        ) ==> w >= v),
    decreases m,
{
    lemma_digits_number(s, m);
    if n < m {
        lemma_stays(s, n, m - 1);
    } else if n > 1 {
        lemma_stays(s, n - 1, n - 1);
    }
}

/// The number that a text stands for.
pub fn parse_u32(s: &str) -> (n: Option<u32>)
    ensures
        match n {
            Some(v) => text_number(s@) == Some(v as int),
            None => text_number(s@) is None,
        },
{
    let len: usize = s.unicode_len();
    let start: usize = if len > 0 && s.get_char(0) == '+' { 1 } else { 0 };
    let ghost digits = s@.skip(start as int);
    proof {
        if start == 1 {
            assert(digits =~= s@.drop_first());
        } else {
            assert(digits =~= s@);
        }
    }
    if len == start {
        return None;
    }
    let mut value: u32 = 0;
    let mut i: usize = start;
    while i < len
        invariant
            start <= i <= len,
            start < len,
            len == s@.len(),
            digits == s@.skip(start as int),
            digits.len() == len - start,
            text_number(s@) == (match digits_number(digits) {
                Some(n) if n <= u32::MAX => Some(n),
                _ => None::<int>,
            }),
            i == start ==> value == 0,
            i > start ==> digits_number(digits.take(i - start)) == Some(value as int),
        decreases len - i,
    {
        let c: char = s.get_char(i);
        let ghost k = i - start;
        proof {
            lemma_digits_number(digits, k + 1);
            lemma_stays(digits, k + 1, digits.len() as int);
            assert(digits.take(digits.len() as int) =~= digits);
            assert(digits[k] == c);
        }
        if c < '0' || '9' < c {
            return None;
        }
        let d: u32 = c as u32 - '0' as u32;
        let next: u64 = value as u64 * 10 + d as u64;
        proof {
            assert(digits_number(digits.take(k + 1)) == Some(next as int));
        }
        if next > u32::MAX as u64 {
            return None;
        }
        value = next as u32;
        i = i + 1;
    }
    proof {
        assert(digits.take(digits.len() as int) =~= digits);
    }
    Some(value)
}

/// The state of the weather for a weather code of the agency: sunny from 100,
/// cloudy from 200, rain from 300, snow from 400 on.
pub open spec fn agency_state(code: Seq<char>) -> WeatherCode {
    let n = match text_number(code) {
        Some(n) => n,
        None => 0,
    };
    if n == 100 {
        WeatherCode::Clear
    } else if 101 <= n <= 199 {
        WeatherCode::PartlyCloudy
    } else if 200 <= n <= 299 {
        WeatherCode::Cloudy
    } else if 300 <= n <= 399 {
        WeatherCode::Rain
    } else if 400 <= n <= 499 {
        WeatherCode::Snow
    } else {
        WeatherCode::Unknown
    }
}

/// The state of the weather for a weather code of the agency.
pub fn jma_code_to_weather(code: &str) -> (c: WeatherCode)
    ensures
        c == agency_state(code@),
{
    let n: u32 = match parse_u32(code) {
        Some(n) => n,
        None => 0,
    };
    match n {
        100 => WeatherCode::Clear,
        101..=199 => WeatherCode::PartlyCloudy,
        200..=299 => WeatherCode::Cloudy,
        300..=399 => WeatherCode::Rain,
        400..=499 => WeatherCode::Snow,
        _ => WeatherCode::Unknown,
    }
}

/// A WMO code that stands for a state of the weather.
pub open spec fn state_wmo(c: WeatherCode) -> int {
    match c {
        WeatherCode::Clear => 0,
        WeatherCode::PartlyCloudy => 1,
        WeatherCode::Cloudy => 3,
        WeatherCode::Fog => 45,
        WeatherCode::Drizzle => 51,
        WeatherCode::Rain => 61,
        WeatherCode::Snow => 71,
        WeatherCode::Thunderstorm => 95,
        WeatherCode::Unknown => 255,
    }
}

/// A WMO code that stands for a state of the weather.
pub fn weather_to_pseudo_wmo(c: WeatherCode) -> (code: u8)
    ensures
        code == state_wmo(c),
{
    match c {
        WeatherCode::Clear => 0,
        WeatherCode::PartlyCloudy => 1,
        WeatherCode::Cloudy => 3,
        WeatherCode::Fog => 45,
        WeatherCode::Drizzle => 51,
        WeatherCode::Rain => 61,
        WeatherCode::Snow => 71,
        WeatherCode::Thunderstorm => 95,
        WeatherCode::Unknown => 255,
    }
}

/// A state of the weather survives the way through its WMO code.
pub proof fn state_survives_its_code(c: WeatherCode)
    ensures
        wmo_state(state_wmo(c)) == c,
{
}

/// A temperature of a forecast: its text, and the number that it reads as.
pub struct TempText {
    pub text: String,
    pub value: Option<Single>,
}

/// An area of a forecast: temperatures and weather codes, where it has them.
pub struct ForecastArea {
    pub temps: Option<Vec<TempText>>,
    pub weather_codes: Option<Vec<String>>,
}

/// What the first temperature whose text is not empty reads as, from `from` on.
pub open spec fn first_temp(temps: Seq<TempText>, from: int) -> Option<Single>
    decreases temps.len() - from,
{
    if from < 0 || from >= temps.len() {
        None
    } else if temps[from].text@.len() > 0 {
        temps[from].value
    } else {
        first_temp(temps, from + 1)
    }
}

/// The state of the weather for the first code that is not empty, from `from`
/// on.
pub open spec fn first_state(codes: Seq<String>, from: int) -> Option<WeatherCode>
    decreases codes.len() - from,
{
    if from < 0 || from >= codes.len() {
        None
    } else if codes[from]@.len() > 0 {
        Some(agency_state(codes[from]@))
    } else {
        first_state(codes, from + 1)
    }
}

/// The first temperature in the first `n` areas.
pub open spec fn temp_in(areas: Seq<ForecastArea>, n: nat) -> Option<Single>
    decreases n,
{
    if n == 0 {
        None
    } else {
        match temp_in(areas, (n - 1) as nat) {
            Some(t) => Some(t),
            None => match areas[n - 1].temps {
                Some(temps) => first_temp(temps@, 0),
                None => None,
            },
        }
    }
}

/// The first state of the weather in the first `n` areas.
pub open spec fn state_in(areas: Seq<ForecastArea>, n: nat) -> Option<WeatherCode>
    decreases n,
{
    if n == 0 {
        None
    } else {
        match state_in(areas, (n - 1) as nat) {
            Some(c) => Some(c),
            None => match areas[n - 1].weather_codes {
                Some(codes) => first_state(codes@, 0),
                None => None,
            },
        }
    }
}

/// Whether a text has no characters.
fn blank(s: &str) -> (r: bool)
    ensures
        r == (s@.len() == 0),
{
    proof {
        vstd::utf8::encode_utf8_decode_utf8(s@);
    }
    s.is_empty()
}

fn area_temp(temps: &Vec<TempText>) -> (t: Option<Single>)
    ensures
        t == first_temp(temps@, 0),
{
    let mut i: usize = 0;
    while i < temps.len()
        invariant
            i <= temps@.len(),
            first_temp(temps@, i as int) == first_temp(temps@, 0),
        decreases temps@.len() - i,
    {
        if !blank(temps[i].text.as_str()) {
            return temps[i].value;
        }
        i = i + 1;
    }
    None
}

fn area_state(codes: &Vec<String>) -> (c: Option<WeatherCode>)
    ensures
        c == first_state(codes@, 0),
{
    let mut i: usize = 0;
    while i < codes.len()
        invariant
            i <= codes@.len(),
            first_state(codes@, i as int) == first_state(codes@, 0),
        decreases codes@.len() - i,
    {
        if !blank(codes[i].as_str()) {
            return Some(jma_code_to_weather(codes[i].as_str()));
        }
        i = i + 1;
    }
    None
}

/// The first temperature and the first state of the weather that a forecast
/// gives, in the order of its areas.
pub fn extract_temp_and_code(areas: &[ForecastArea], now: u64) -> (r: (
    Option<Measurement>,
    Option<WeatherCode>,
))
    ensures
        r.0 == match temp_in(areas@, areas@.len()) {
            Some(v) => Some(Measurement { source: SourceId::Jma, value: v, observed_at: now }),
            None => None,
        },
        r.1 == state_in(areas@, areas@.len()),
{
    let mut temp: Option<Single> = None;
    let mut state: Option<WeatherCode> = None;
    let mut i: usize = 0;
    while i < areas.len()
        invariant
            i <= areas@.len(),
            temp == temp_in(areas@, i as nat),
            state == state_in(areas@, i as nat),
        decreases areas@.len() - i,
    {
        let area = &areas[i];
        if temp.is_none() {
            if let Some(temps) = &area.temps {
                temp = area_temp(temps);
            }
        }
        if state.is_none() {
            if let Some(codes) = &area.weather_codes {
                state = area_state(codes);
            }
        }
        i = i + 1;
    }
    let measured = match temp {
        Some(v) => Some(Measurement::new(SourceId::Jma, v, now)),
        None => None,
    };
    (measured, state)
}

/// The measurements in a forecast; an error if it gives neither a temperature
/// nor a state of the weather.
pub fn jma_point(areas: &[ForecastArea], now: u64) -> (r: Result<PointMeasurements, SourceError>)
    ensures
        ({
            let temp = temp_in(areas@, areas@.len());
            let state = state_in(areas@, areas@.len());
            match r {
                Err(e) => temp is None && state is None && e == SourceError::NoData,
                Ok(p) => (temp is Some || state is Some) && p == (PointMeasurements {
                    temp_c: match temp {
                        Some(v) => Some(
                            Measurement { source: SourceId::Jma, value: v, observed_at: now },
                        ),
                        None => None,
                    },
                    humidity_pct: None,
                    wind_ms: None,
                    wind_dir_deg: None,
                    precip_mmh: None,
                    wmo_code: match state {
                        Some(c) => Some(state_wmo(c) as u8),
                        None => None,
                    },
                    source: Some(SourceId::Jma),
                }),
            }
        }),
{
    let (temp_c, state) = extract_temp_and_code(areas, now);
    if temp_c.is_none() && state.is_none() {
        return Err(SourceError::NoData);
    }
    let wmo_code = match state {
        Some(c) => Some(weather_to_pseudo_wmo(c)),
        None => None,
    };
    Ok(
        PointMeasurements {
            temp_c,
            humidity_pct: None,
            wind_ms: None,
            wind_dir_deg: None,
            precip_mmh: None,
            wmo_code,
            source: Some(SourceId::Jma),
        },
    )
}

/// A number reads back: the decimal digits of a number of 32 bits, with a plus
/// sign before them or without, stand for that number.
pub proof fn written_numbers_read_back(n: nat)
    requires
        n <= u32::MAX,
    ensures
        text_number(decimal(n)) == Some(n as int),
        text_number(seq!['+'] + decimal(n)) == Some(n as int),
{
    lemma_digits_read_back(n);
    decimal_is_faithful(n, n);
    assert(is_digit(decimal(n)[0]));
    let signed = seq!['+'] + decimal(n);
    assert(signed[0] == '+');
    assert(signed.drop_first() =~= decimal(n));
}

proof fn lemma_digits_read_back(n: nat)
    ensures
        digits_number(decimal(n)) == Some(n as int),
    decreases n,
{
    decimal_is_faithful(n, n);
    let s = decimal(n);
    assert(is_digit(s[s.len() - 1]));
    if n >= 10 {
        lemma_digits_read_back(n / 10);
        decimal_is_faithful(n / 10, n / 10);
        assert(s.drop_last() =~= decimal(n / 10));
        assert(s.last() == digit_char((n % 10) as int));
    } else {
        assert(s.last() == digit_char(n as int));
    }
}

/// The hundreds of a code of the agency decide: 100 is a clear sky and every
/// other code of its hundred partly cloudy; the second hundred is cloudy, the
/// third rain, the fourth snow, each from its first code to its last; and every
/// other number, and what is no number, is unknown.
pub proof fn hundreds_decide_the_state(code: Seq<char>, n: int)
    ensures
        text_number(code) is None ==> agency_state(code) == WeatherCode::Unknown,
        text_number(code) == Some(n) && n >= 0 ==> {
            &&& agency_state(code) == WeatherCode::Clear <==> n == 100
            &&& agency_state(code) == WeatherCode::PartlyCloudy <==> n / 100 == 1 && n != 100
            &&& agency_state(code) == WeatherCode::Cloudy <==> n / 100 == 2
            &&& agency_state(code) == WeatherCode::Rain <==> n / 100 == 3
            &&& agency_state(code) == WeatherCode::Snow <==> n / 100 == 4
            &&& agency_state(code) == WeatherCode::Unknown <==> n / 100 == 0 || n / 100 >= 5
        },
{
}

/// Two codes of one hundred, but for the first of all, stand for one state.
pub proof fn one_hundred_one_state(a: nat, b: nat)
    requires
        a <= u32::MAX,
        b <= u32::MAX,
        a / 100 == b / 100,
        a != 100,
        b != 100,
    ensures
        agency_state(decimal(a)) == agency_state(decimal(b)),
{
    written_numbers_read_back(a);
    written_numbers_read_back(b);
}

/// Whether the code number `k` of a list is the first that is not empty.
pub open spec fn first_code_at(codes: Seq<String>, k: int) -> bool {
    &&& 0 <= k < codes.len()
    &&& codes[k]@.len() > 0
    &&& forall|j: int| 0 <= j < k ==> (#[trigger] codes[j])@.len() == 0
}

/// Whether the temperature number `k` of a list is the first whose text is not
/// empty.
pub open spec fn first_temp_at(temps: Seq<TempText>, k: int) -> bool {
    &&& 0 <= k < temps.len()
    &&& temps[k].text@.len() > 0
    &&& forall|j: int| 0 <= j < k ==> (#[trigger] temps[j]).text@.len() == 0
}

/// The state of a forecast is that of the first code: the first that is not
/// empty, in the first area that has one; and there is a state wherever there is
/// such a code.
pub proof fn forecast_has_the_state_of_its_first_code(
    areas: Seq<ForecastArea>,
    n: nat,
    i: int,
    k: int,
)
    requires
        n <= areas.len(),
        0 <= i < n,
        areas[i].weather_codes matches Some(codes) && first_code_at(codes@, k),
        forall|j: int, m: int|
            #![trigger first_code_at(areas[j].weather_codes->0@, m)]
            0 <= j < i && areas[j].weather_codes is Some ==> !first_code_at(
                areas[j].weather_codes->0@,
                m,
            ),
    ensures
        state_in(areas, n) == Some(agency_state(areas[i].weather_codes->0@[k]@)),
    decreases n,
{
    if n - 1 > i {
        forecast_has_the_state_of_its_first_code(areas, (n - 1) as nat, i, k);
    } else {
        lemma_first_state(areas[i].weather_codes->0@, 0, k);
        lemma_no_state_before(areas, i as nat);
    }
}

proof fn lemma_first_state(codes: Seq<String>, from: int, k: int)
    requires
        0 <= from <= k,
        first_code_at(codes, k),
    ensures
        first_state(codes, from) == Some(agency_state(codes[k]@)),
    decreases k - from,
{
    if from < k {
        assert(codes[from]@.len() == 0);
        lemma_first_state(codes, from + 1, k);
    }
}

/// Without a code that is not empty there is no state.
proof fn lemma_no_state(codes: Seq<String>, from: int)
    requires
        0 <= from,
        forall|m: int| !first_code_at(codes, m),
        forall|j: int| 0 <= j < from && j < codes.len() ==> (#[trigger] codes[j])@.len() == 0,
    ensures
        first_state(codes, from) is None,
    decreases codes.len() - from,
{
    if from < codes.len() {
        assert(!first_code_at(codes, from));
        lemma_no_state(codes, from + 1);
    }
}

proof fn lemma_no_state_before(areas: Seq<ForecastArea>, n: nat)
    requires
        n <= areas.len(),
        forall|j: int, m: int|
            #![trigger first_code_at(areas[j].weather_codes->0@, m)]
            0 <= j < n && areas[j].weather_codes is Some ==> !first_code_at(
                areas[j].weather_codes->0@,
                m,
            ),
    ensures
        state_in(areas, n) is None,
    decreases n,
{
    if n > 0 {
        lemma_no_state_before(areas, (n - 1) as nat);
        if let Some(codes) = areas[n - 1].weather_codes {
            assert forall|m: int| !first_code_at(codes@, m) by {
                assert(!first_code_at(areas[n - 1].weather_codes->0@, m));
            }
            lemma_no_state(codes@, 0);
        }
    }
}

/// The temperature of a forecast is the first that can be read: in the first
/// area whose first temperature with a text reads as a number.
pub proof fn forecast_has_its_first_temperature(
    areas: Seq<ForecastArea>,
    n: nat,
    i: int,
    k: int,
    value: Single,
)
    requires
        n <= areas.len(),
        0 <= i < n,
        areas[i].temps matches Some(temps) && first_temp_at(temps@, k) && temps@[k].value == Some(
            value,
        ),
        forall|j: int, m: int|
            #![trigger first_temp_at(areas[j].temps->0@, m)]
            0 <= j < i && areas[j].temps is Some && first_temp_at(areas[j].temps->0@, m)
                ==> areas[j].temps->0@[m].value is None,
    ensures
        temp_in(areas, n) == Some(value),
    decreases n,
{
    if n - 1 > i {
        forecast_has_its_first_temperature(areas, (n - 1) as nat, i, k, value);
    } else {
        lemma_first_temp(areas[i].temps->0@, 0, k);
        lemma_no_temp_before(areas, i as nat);
    }
}

proof fn lemma_first_temp(temps: Seq<TempText>, from: int, k: int)
    requires
        0 <= from <= k,
        first_temp_at(temps, k),
    ensures
        first_temp(temps, from) == temps[k].value,
    decreases k - from,
{
    if from < k {
        assert(temps[from].text@.len() == 0);
        lemma_first_temp(temps, from + 1, k);
    }
}

proof fn lemma_no_temp(temps: Seq<TempText>, from: int)
    requires
        0 <= from,
        forall|m: int| first_temp_at(temps, m) ==> (#[trigger] temps[m]).value is None,
        forall|j: int| 0 <= j < from && j < temps.len() ==> (#[trigger] temps[j]).text@.len() == 0,
    ensures
        first_temp(temps, from) is None,
    decreases temps.len() - from,
{
    if from < temps.len() {
        if temps[from].text@.len() > 0 {
            assert(first_temp_at(temps, from));
        } else {
            lemma_no_temp(temps, from + 1);
        }
    }
}

proof fn lemma_no_temp_before(areas: Seq<ForecastArea>, n: nat)
    requires
        n <= areas.len(),
        forall|j: int, m: int|
            #![trigger first_temp_at(areas[j].temps->0@, m)]
            0 <= j < n && areas[j].temps is Some && first_temp_at(areas[j].temps->0@, m)
                ==> areas[j].temps->0@[m].value is None,
    ensures
        temp_in(areas, n) is None,
    decreases n,
{
    if n > 0 {
        lemma_no_temp_before(areas, (n - 1) as nat);
        if let Some(temps) = areas[n - 1].temps {
            assert forall|m: int| first_temp_at(temps@, m) implies (#[trigger] temps@[m]).value is None by {
                assert(first_temp_at(areas[n - 1].temps->0@, m));
            }
            lemma_no_temp(temps@, 0);
        }
    }
}

/// The forecast areas lie where their cities do: each has the latitude and
/// longitude of the built-in city that it is named for.
pub proof fn areas_lie_at_their_cities()
    ensures
        area_table().len() == 8,
        forall|i: int|
            0 <= i < 8 ==> (#[trigger] area_table()[i]).0 == city_table()[area_city(i)].lat
                && area_table()[i].1 == city_table()[area_city(i)].lon,
{
    assert forall|i: int| 0 <= i < 8 implies (#[trigger] area_table()[i]).0 == city_table()[area_city(
        i,
    )].lat && area_table()[i].1 == city_table()[area_city(i)].lon by {
        assert(i == 0 || i == 1 || i == 2 || i == 3 || i == 4 || i == 5 || i == 6 || i == 7);
    }
}

/// The number of the city of a forecast area: Sapporo, Sendai, Tokyo, Nagoya,
/// Osaka, Hiroshima, Fukuoka, Naha.
pub open spec fn area_city(i: int) -> int {
    if i == 0 {
        3
    } else if i == 1 {
        4
    } else if i == 2 {
        0
    } else if i == 3 {
        2
    } else if i == 4 {
        1
    } else if i == 5 {
        8
    } else if i == 6 {
        9
    } else {
        10
    }
}

/// The code of a state is the lowest that stands for it, and 255 that of none.
pub proof fn states_have_their_lowest_code(c: WeatherCode, code: u8)
    ensures
        c != WeatherCode::Unknown && wmo_state(code as int) == c ==> state_wmo(c) <= code,
        state_wmo(WeatherCode::Unknown) == 255,
{
}

/// Whether a text is made of decimal digits, at least one.
pub open spec fn all_digits(s: Seq<char>) -> bool {
    s.len() > 0 && forall|i: int| 0 <= i < s.len() ==> '0' <= #[trigger] s[i] <= '9'
}

/// What reads as a number: decimal digits, leading zeros among them, with one plus
/// sign before them or none, whose number fits 32 bits; nothing else does.
pub proof fn numbers_are_made_of_digits(s: Seq<char>)
    ensures
        ({
            let digits = if s.len() > 0 && s[0] == '+' {
                s.drop_first()
            } else {
                s
            };
            let value = digits_value(digits, 0, digits.len() as int);
            text_number(s) == if all_digits(digits) && value <= 0xffff_ffff {
                Some(value)
            } else {
                None
            }
        }),
{
    let digits = if s.len() > 0 && s[0] == '+' {
        s.drop_first()
    } else {
        s
    };
    lemma_digits_value(digits);
}

proof fn lemma_digits_value(s: Seq<char>)
    ensures
        digits_number(s) == if all_digits(s) {
            Some(digits_value(s, 0, s.len() as int))
        } else {
            None
        },
    decreases s.len(),
{
    if s.len() > 0 {
        let before = s.drop_last();
        lemma_digits_value(before);
        lemma_same_value(s, before, before.len() as int);
        let last = s[s.len() - 1];
        assert(s.last() == last);
        if all_digits(s) {
            assert('0' <= last <= '9');
            assert forall|i: int| 0 <= i < before.len() implies '0' <= #[trigger] before[i] <= '9' by {
                assert('0' <= s[i] <= '9');
            }
            if before.len() > 0 {
                assert(all_digits(before));
            }
        } else if is_digit(last) && before.len() > 0 {
            if all_digits(before) {
                assert forall|i: int| 0 <= i < s.len() implies '0' <= #[trigger] s[i] <= '9' by {
                    if i < before.len() {
                        assert('0' <= before[i] <= '9');
                    }
                }
            }
        } else if is_digit(last) {
            assert(all_digits(s));
        }
        if s.len() == 1 {
            assert(digits_value(s, 0, 0) == 0);
        }
    }
}

proof fn lemma_same_value(a: Seq<char>, b: Seq<char>, n: int)
    requires
        0 <= n <= b.len() <= a.len(),
        forall|i: int| 0 <= i < b.len() ==> a[i] == b[i],
    ensures
        digits_value(a, 0, n) == digits_value(b, 0, n),
    decreases n,
{
    if n > 0 {
        lemma_same_value(a, b, n - 1);
    }
}

/// The code of a forecast area starts with the number of its prefecture: 1 for
/// Hokkaido, 4 for Miyagi, 13 for Tokyo, 23 for Aichi, 27 for Osaka, 34 for
/// Hiroshima, 40 for Fukuoka and 47 for Okinawa. Only those of Hokkaido and Okinawa
/// are of a part of it.
pub proof fn area_codes_start_with_the_prefecture(i: int)
    requires
        0 <= i < 8,
    ensures
        ({
            let code = area_table()[i].2;
            let prefecture = seq![1int, 4, 13, 23, 27, 34, 40, 47][i];
            let part = if i == 0 {
                6_000int
            } else if i == 7 {
                1_000
            } else {
                0
            };
            code.len() == 6 && digits_value(code, 0, 6) == 10_000 * prefecture + part
        }),
{
    reveal_strlit("016000");
    reveal_strlit("040000");
    reveal_strlit("130000");
    reveal_strlit("230000");
    reveal_strlit("270000");
    reveal_strlit("340000");
    reveal_strlit("400000");
    reveal_strlit("471000");
    reveal_with_fuel(digits_value, 7);
    assert(i == 0 || i == 1 || i == 2 || i == 3 || i == 4 || i == 5 || i == 6 || i == 7);
}

} // verus!
