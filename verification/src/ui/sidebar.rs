//! The sidebar: the weather in numbers.

use vstd::prelude::*;
use vstd::string::{StrSliceExecFns, StringExecFns};

use crate::agg::{compass_16_ja, compass_names};
use crate::app::App;
use crate::ieee::Single;
use crate::model::{state_label, AggregatedValue};
use crate::text::{append_decimal, decimal};
use crate::ui::{piece_of, pieces, push_piece, Piece, PieceModel, Tone};

verus! {

/// The numbers of the sidebar as they are written.
pub struct Figures {
    /// Latitude and longitude, three decimals.
    pub lat: String,
    pub lon: String,
    /// Temperature and its spread, one decimal.
    pub temp: String,
    pub temp_spread: String,
    /// Humidity and its spread, no decimals.
    pub humidity: String,
    pub humidity_spread: String,
    /// Wind speed, one decimal.
    pub wind: String,
    /// The number of the sector that the wind comes from, clockwise from north.
    pub wind_sector: Option<usize>,
    /// Rain and its spread, one decimal.
    pub precip: String,
    pub precip_spread: String,
    /// Spread of the temperature in percent, one decimal.
    pub cv_pct: String,
    /// Confidence in the temperature in percent, no decimals.
    pub confidence_pct: String,
}

/// The colour of a spread: green where sources agree, red where they do not.
pub open spec fn spread_tone(cv: Single) -> Tone {
    if cv.below(Single { bits: 0x3D4C_CCCD }) {
        Tone::Green
    } else if cv.below(Single { bits: 0x3DF5_C28F }) {
        Tone::Yellow
    } else {
        Tone::Red
    }
}

/// The colour of a spread: green below 0.05, yellow below 0.12, else red.
pub fn cv_color(cv: Single) -> (t: Tone)
    ensures
        t == spread_tone(cv),
{
    if cv.lt(Single::from_bits(0x3D4C_CCCD)) {
        Tone::Green
    } else if cv.lt(Single::from_bits(0x3DF5_C28F)) {
        Tone::Yellow
    } else {
        Tone::Red
    }
}

/// A text with spaces after it, four characters at least.
pub open spec fn padded(text: Seq<char>) -> Seq<char> {
    if text.len() >= 4 {
        text
    } else {
        text + Seq::new((4 - text.len()) as nat, |i: int| ' ')
    }
}

fn pad(text: &str) -> (out: String)
    ensures
        out@ == padded(text@),
{
    let mut out = text.to_owned();
    let len: usize = text.unicode_len();
    let mut i: usize = len;
    proof {
        reveal_strlit(" ");
        assert(out@ =~= text@ + Seq::new(0, |i: int| ' '));
    }
    while i < 4
        invariant
            len == text@.len(),
            len <= i,
            i <= 4 || i == len,
            out@ == text@ + Seq::new((i - len) as nat, |i: int| ' '),
            " "@ == seq![' '],
        decreases 4 - i,
    {
        out.append(" ");
        i = i + 1;
        proof {
            assert(out@ =~= text@ + Seq::new((i - len) as nat, |i: int| ' '));
        }
    }
    proof {
        assert(out@ =~= padded(text@));
    }
    out
}

/// A line of a quantity: label, value with unit, and spread; two dashes where
/// there is no value.
pub open spec fn metric_pieces(
    label: Seq<char>,
    a: AggregatedValue,
    value: Seq<char>,
    spread: Seq<char>,
    unit: Seq<char>,
) -> Seq<PieceModel> {
    if !a.value.finite() {
        seq![piece_of(padded(label) + " --"@, Tone::Plain)]
    } else {
        seq![
            piece_of(padded(label) + " "@, Tone::Plain),
            piece_of(value + unit, Tone::White),
            piece_of("  ±"@ + spread, Tone::Dim),
        ]
    }
}

/// A line of a quantity.
pub fn metric_line(label: &str, a: &AggregatedValue, value: &str, spread: &str, unit: &str) -> (line:
    Vec<Piece>)
    ensures
        pieces(line@) == metric_pieces(label@, *a, value@, spread@, unit@),
{
    let mut line: Vec<Piece> = Vec::new();
    if !a.value.is_finite() {
        let text = pad(label).concat(" --");
        push_piece(&mut line, text.as_str(), Tone::Plain);
    } else {
        let head = pad(label).concat(" ");
        let number = value.to_owned().concat(unit);
        let tail = "  ±".to_owned().concat(spread);
        push_piece(&mut line, head.as_str(), Tone::Plain);
        push_piece(&mut line, number.as_str(), Tone::White);
        push_piece(&mut line, tail.as_str(), Tone::Dim);
    }
    proof {
        assert(pieces(line@) =~= metric_pieces(label@, *a, value@, spread@, unit@));
    }
    line
}

/// What the lines of the sidebar hold.
pub open spec fn all_pieces(lines: Seq<Vec<Piece>>) -> Seq<Seq<PieceModel>> {
    lines.map_values(|l: Vec<Piece>| pieces(l@))
}

/// A line of one piece.
pub open spec fn single(text: Seq<char>, tone: Tone) -> Seq<PieceModel> {
    seq![piece_of(text, tone)]
}

/// The lines between the place and the status: the weather, or that it is
/// awaited.
pub open spec fn weather_lines(app: App, f: Figures) -> Seq<Seq<PieceModel>> {
    match app.snapshot {
        None => seq![single("天気データ取得待ち..."@, Tone::Dim)],
        Some(s) => seq![
            metric_pieces("気温"@, s.temp_c, f.temp@, f.temp_spread@, "°C"@),
            metric_pieces("湿度"@, s.humidity_pct, f.humidity@, f.humidity_spread@, "%"@),
            single(
                "風   "@ + (if s.wind_ms.value.finite() {
                    f.wind@
                } else {
                    "--"@
                }) + " m/s "@ + (match f.wind_sector {
                    Some(k) => compass_names()[k as int % 16],
                    None => "--"@,
                }),
                Tone::Plain,
            ),
            metric_pieces("降水"@, s.precip_mmh, f.precip@, f.precip_spread@, "mm/h"@),
            single(""@, Tone::Plain),
            single("天気 "@ + state_label(s.condition), Tone::Plain),
            single(""@, Tone::Plain),
            seq![
                piece_of("一致 CV "@, Tone::Plain),
                piece_of(f.cv_pct@ + "%"@, spread_tone(s.temp_c.cv)),
            ],
            single(
                "信頼 "@ + f.confidence_pct@ + "%  使用"@ + decimal(s.temp_c.n_used as nat)
                    + "/除外"@ + decimal(s.temp_c.n_excluded as nat),
                Tone::Plain,
            ),
        ],
    }
}

/// The lines of the sidebar: the place, the weather, and the status.
pub open spec fn sidebar_lines(app: App, f: Figures) -> Seq<Seq<PieceModel>> {
    seq![
        single(
            "位置 "@ + f.lat@ + "N "@ + f.lon@ + "E z"@ + decimal(app.zoom as nat),
            Tone::Plain,
        ),
        single(""@, Tone::Plain),
    ] + weather_lines(app, f) + seq![single(""@, Tone::Plain), single(app.status@, Tone::Dim)]
}

/// Appends a line of one piece.
fn push_single(lines: &mut Vec<Vec<Piece>>, text: &str, tone: Tone)
    ensures
        all_pieces(final(lines)@) == all_pieces(old(lines)@).push(single(text@, tone)),
{
    let ghost before = all_pieces(lines@);
    let mut line: Vec<Piece> = Vec::new();
    push_piece(&mut line, text, tone);
    proof {
        assert(pieces(line@) =~= single(text@, tone));
    }
    lines.push(line);
    proof {
        assert(all_pieces(lines@) =~= before.push(single(text@, tone)));
    }
}

/// Appends a line.
fn push_line(lines: &mut Vec<Vec<Piece>>, line: Vec<Piece>)
    ensures
        all_pieces(final(lines)@) == all_pieces(old(lines)@).push(pieces(line@)),
{
    let ghost before = all_pieces(lines@);
    lines.push(line);
    proof {
        assert(all_pieces(lines@) =~= before.push(pieces(line@)));
    }
}

/// The lines of the sidebar.
pub fn sidebar(app: &App, f: &Figures) -> (lines: Vec<Vec<Piece>>)
    ensures
        all_pieces(lines@) == sidebar_lines(*app, *f),
{
    let mut lines: Vec<Vec<Piece>> = Vec::new();
    let mut place = "位置 ".to_owned();
    place.append(f.lat.as_str());
    place.append("N ");
    place.append(f.lon.as_str());
    place.append("E z");
    append_decimal(&mut place, app.zoom as u64);
    push_single(&mut lines, place.as_str(), Tone::Plain);
    push_single(&mut lines, "", Tone::Plain);
    let ghost head = all_pieces(lines@);
    if let Some(s) = &app.snapshot {
        push_line(
            &mut lines,
            metric_line("気温", &s.temp_c, f.temp.as_str(), f.temp_spread.as_str(), "°C"),
        );
        push_line(
            &mut lines,
            metric_line(
                "湿度",
                &s.humidity_pct,
                f.humidity.as_str(),
                f.humidity_spread.as_str(),
                "%",
            ),
        );
        let mut wind = "風   ".to_owned();
        if s.wind_ms.value.is_finite() {
            wind.append(f.wind.as_str());
        } else {
            wind.append("--");
        }
        wind.append(" m/s ");
        wind.append(compass_16_ja(f.wind_sector));
        push_single(&mut lines, wind.as_str(), Tone::Plain);
        push_line(
            &mut lines,
            metric_line(
                "降水",
                &s.precip_mmh,
                f.precip.as_str(),
                f.precip_spread.as_str(),
                "mm/h",
            ),
        );
        push_single(&mut lines, "", Tone::Plain);
        let state = "天気 ".to_owned().concat(s.condition.label_ja());
        push_single(&mut lines, state.as_str(), Tone::Plain);
        push_single(&mut lines, "", Tone::Plain);
        let mut agreement: Vec<Piece> = Vec::new();
        push_piece(&mut agreement, "一致 CV ", Tone::Plain);
        let cv = f.cv_pct.clone().concat("%");
        push_piece(&mut agreement, cv.as_str(), cv_color(s.temp_c.cv));
        proof {
            assert(pieces(agreement@) =~= seq![
                piece_of("一致 CV "@, Tone::Plain),
                piece_of(f.cv_pct@ + "%"@, spread_tone(s.temp_c.cv)),
            ]);
        }
        push_line(&mut lines, agreement);
        let mut trust = "信頼 ".to_owned();
        trust.append(f.confidence_pct.as_str());
        trust.append("%  使用");
        append_decimal(&mut trust, s.temp_c.n_used as u64);
        trust.append("/除外");
        append_decimal(&mut trust, s.temp_c.n_excluded as u64);
        push_single(&mut lines, trust.as_str(), Tone::Plain);
    } else {
        push_single(&mut lines, "天気データ取得待ち...", Tone::Dim);
    }
    proof {
        assert(all_pieces(lines@) =~= head + weather_lines(*app, *f));
    }
    push_single(&mut lines, "", Tone::Plain);
    push_single(&mut lines, app.status.as_str(), Tone::Dim);
    proof {
        assert(all_pieces(lines@) =~= sidebar_lines(*app, *f));
    }
    lines
}

/// The colour of a spread: green below 5 percent, yellow from there to 12 percent,
/// and red from there on and where it is no number. A smaller spread never looks
/// worse.
pub proof fn spreads_are_judged_by_size(cv: Single, other: Single)
    ensures
        spread_tone(cv) == Tone::Green <==> !cv.nan() && cv.value() < (Single {
            bits: 0x3D4C_CCCD,
        }).value(),
        spread_tone(cv) == Tone::Red <==> cv.nan() || cv.value() >= (Single {
            bits: 0x3DF5_C28F,
        }).value(),
        spread_tone(cv) == Tone::Yellow <==> !cv.nan() && (Single { bits: 0x3D4C_CCCD }).value()
            <= cv.value() < (Single { bits: 0x3DF5_C28F }).value(),
        cv.below(other) && spread_tone(other) == Tone::Green ==> spread_tone(cv) == Tone::Green,
        cv.below(other) && spread_tone(cv) == Tone::Red ==> spread_tone(other) == Tone::Red,
{
    (Single { bits: 0x3D4C_CCCD }).positive_order(Single { bits: 0x3DF5_C28F });
}

/// A label is not cut: it is followed by spaces up to four characters.
pub proof fn labels_are_filled_up(text: Seq<char>, i: int)
    ensures
        padded(text).len() >= 4,
        padded(text).len() == text.len() || padded(text).len() == 4,
        padded(text).take(text.len() as int) == text,
        text.len() <= i < padded(text).len() ==> padded(text)[i] == ' ',
{
    assert(padded(text).take(text.len() as int) =~= text);
}

/// A quantity that is a number shows value, unit and spread; one that is not shows
/// two dashes and nothing of them.
pub proof fn quantities_show_their_value(
    label: Seq<char>,
    a: AggregatedValue,
    value: Seq<char>,
    spread: Seq<char>,
    unit: Seq<char>,
)
    ensures
        ({
            let line = metric_pieces(label, a, value, spread, unit);
            &&& line[0].text.take(label.len() as int) == label
            &&& line.len() == 3 <==> a.value.finite()
            &&& line.len() == 1 <==> !a.value.finite()
            &&& a.value.finite() ==> line[1].text == value + unit && line[2].text == "  ±"@ + spread
            &&& !a.value.finite() ==> line[0].text == padded(label) + " --"@
        }),
{
    labels_are_filled_up(label, 0);
    let line = metric_pieces(label, a, value, spread, unit);
    let p = padded(label);
    assert(line[0].text.take(label.len() as int) =~= p.take(label.len() as int));
}

/// What stands where in the sidebar: the place first, the status last; between
/// them nine lines of weather where there is some, and one that it is awaited where
/// there is none. Temperature, humidity and rain stand in their lines.
pub proof fn sidebar_has_its_lines(app: App, f: Figures)
    ensures
        ({
            let lines = sidebar_lines(app, f);
            &&& lines[lines.len() - 1] == seq![piece_of(app.status@, Tone::Dim)]
            &&& app.snapshot is None ==> lines.len() == 5 && lines[2] == seq![
                piece_of("天気データ取得待ち..."@, Tone::Dim),
            ]
            &&& app.snapshot matches Some(s) ==> {
                &&& lines.len() == 13
                &&& lines[2].len() == 3 <==> s.temp_c.value.finite()
                &&& s.temp_c.value.finite() ==> lines[2][1].text == f.temp@ + "°C"@
                    && lines[2][2].text == "  ±"@ + f.temp_spread@
                &&& lines[3].len() == 3 <==> s.humidity_pct.value.finite()
                &&& s.humidity_pct.value.finite() ==> lines[3][1].text == f.humidity@ + "%"@
                    && lines[3][2].text == "  ±"@ + f.humidity_spread@
                &&& lines[5].len() == 3 <==> s.precip_mmh.value.finite()
                &&& s.precip_mmh.value.finite() ==> lines[5][1].text == f.precip@ + "mm/h"@
                    && lines[5][2].text == "  ±"@ + f.precip_spread@
                &&& lines[7][0].text == "天気 "@ + state_label(s.condition)
                &&& lines[9][1].tone == spread_tone(s.temp_c.cv)
                &&& lines[9][1].text == f.cv_pct@ + "%"@
            }
        }),
{
}

/// The sidebar tells the place and the zoom first; the wind by its speed, unless
/// that is no number, and by the name of its direction; and at the end how far the
/// temperature can be trusted, with the numbers of sources used and left out.
pub proof fn sidebar_tells_place_wind_and_trust(app: App, f: Figures, k: int)
    requires
        0 <= k < 16,
    ensures
        ({
            let lines = sidebar_lines(app, f);
            &&& lines[0] == seq![
                piece_of(
                    "位置 "@ + f.lat@ + "N "@ + f.lon@ + "E z"@ + decimal(app.zoom as nat),
                    Tone::Plain,
                ),
            ]
            &&& app.snapshot matches Some(s) ==> {
                &&& lines[4].len() == 1
                &&& lines[10].len() == 1
                &&& lines[10][0].text == "信頼 "@ + f.confidence_pct@ + "%  使用"@ + decimal(
                    s.temp_c.n_used as nat,
                ) + "/除外"@ + decimal(s.temp_c.n_excluded as nat)
                &&& s.wind_ms.value.finite() && f.wind_sector == Some(k as usize)
                    ==> lines[4][0].text == "風   "@ + f.wind@ + " m/s "@ + compass_names()[k]
                &&& !s.wind_ms.value.finite() && f.wind_sector is None ==> lines[4][0].text
                    == "風   "@ + "--"@ + " m/s "@ + "--"@
            }
        }),
{
}

} // verus!
