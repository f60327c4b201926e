//! The timeline: one line under the map.

use vstd::prelude::*;
use vstd::string::StringExecFns;

use crate::app::App;
use crate::radar::RadarFrame;
use crate::ui::{piece_of, pieces, push_piece, Piece, PieceModel, Tone};

verus! {

/// The marks of the first `n` frames: a dot for the one shown, a dash in the
/// colour of its sort for each other.
pub open spec fn marks(frames: Seq<RadarFrame>, shown: int, n: nat) -> Seq<PieceModel>
    decreases n,
{
    if n == 0 {
        Seq::empty()
    } else {
        marks(frames, shown, (n - 1) as nat).push(
            if n - 1 == shown {
                piece_of("●"@, Tone::Bold)
            } else {
                piece_of(
                    "━"@,
                    if frames[n - 1].is_forecast {
                        Tone::Cyan
                    } else {
                        Tone::Gray
                    },
                )
            },
        )
    }
}

/// The number of the frame that is shown.
pub open spec fn shown_frame(app: App) -> int {
    if app.frame_idx < app.frames@.len() {
        app.frame_idx as int
    } else {
        app.frames@.len() - 1
    }
}

/// The timeline: past and future at its ends and the marks of the frames
/// between them; then the time of the frame shown, whether it is observed or
/// forecast, and whether the timeline is playing.
pub open spec fn timeline_pieces(app: App, hhmm: Seq<char>) -> Seq<PieceModel> {
    let shown = shown_frame(app);
    let forecast = app.frames@[shown].is_forecast;
    seq![piece_of("過去 ◀"@, Tone::Dim), piece_of(" "@, Tone::Plain)] + marks(
        app.frames@,
        shown,
        app.frames@.len(),
    ) + seq![
        piece_of(" "@, Tone::Plain),
        piece_of("▶ 未来"@, Tone::Dim),
        piece_of("  "@, Tone::Plain),
        piece_of(hhmm + " "@, Tone::Bold),
        if forecast {
            piece_of("予報"@, Tone::Cyan)
        } else {
            piece_of("実況"@, Tone::White)
        },
        piece_of(" "@, Tone::Plain),
        piece_of(
            if app.playing {
                "▶再生"@
            } else {
                "⏸停止"@
            },
            Tone::Yellow,
        ),
    ]
}

/// The pieces of the timeline. `hhmm` is the time of the frame shown. On no
/// space there are none, and without frames it says that they are awaited.
pub fn timeline(app: &App, width: u16, height: u16, hhmm: &str) -> (line: Vec<Piece>)
    ensures
        pieces(line@) == if width == 0 || height == 0 {
            Seq::empty()
        } else if app.frames@.len() == 0 {
            seq![piece_of(" 雨雲タイムライン: 取得待ち..."@, Tone::Dim)]
        } else {
            timeline_pieces(*app, hhmm@)
        },
{
    let mut line: Vec<Piece> = Vec::new();
    proof {
        assert(pieces(line@) =~= Seq::<PieceModel>::empty());
    }
    if width == 0 || height == 0 {
        return line;
    }
    if app.frames.len() == 0 {
        push_piece(&mut line, " 雨雲タイムライン: 取得待ち...", Tone::Dim);
        proof {
            assert(pieces(line@) =~= seq![
                piece_of(" 雨雲タイムライン: 取得待ち..."@, Tone::Dim),
            ]);
        }
        return line;
    }
    let n: usize = app.frames.len();
    let shown: usize = if app.frame_idx < n { app.frame_idx } else { n - 1 };
    push_piece(&mut line, "過去 ◀", Tone::Dim);
    push_piece(&mut line, " ", Tone::Plain);
    let ghost head = pieces(line@);
    proof {
        assert(head =~= head + marks(app.frames@, shown as int, 0));
    }
    let mut i: usize = 0;
    while i < n
        invariant
            i <= n,
            n == app.frames@.len(),
            pieces(line@) == head + marks(app.frames@, shown as int, i as nat),
        decreases n - i,
    {
        if i == shown {
            push_piece(&mut line, "●", Tone::Bold);
        } else if app.frames[i].is_forecast {
            push_piece(&mut line, "━", Tone::Cyan);
        } else {
            push_piece(&mut line, "━", Tone::Gray);
        }
        proof {
            assert(pieces(line@) =~= head + marks(app.frames@, shown as int, (i + 1) as nat));
        }
        i = i + 1;
    }
    push_piece(&mut line, " ", Tone::Plain);
    push_piece(&mut line, "▶ 未来", Tone::Dim);
    push_piece(&mut line, "  ", Tone::Plain);
    let time = hhmm.to_owned().concat(" ");
    push_piece(&mut line, time.as_str(), Tone::Bold);
    if app.frames[shown].is_forecast {
        push_piece(&mut line, "予報", Tone::Cyan);
    } else {
        push_piece(&mut line, "実況", Tone::White);
    }
    push_piece(&mut line, " ", Tone::Plain);
    if app.playing {
        push_piece(&mut line, "▶再生", Tone::Yellow);
    } else {
        push_piece(&mut line, "⏸停止", Tone::Yellow);
    }
    proof {
        assert(head =~= seq![piece_of("過去 ◀"@, Tone::Dim), piece_of(" "@, Tone::Plain)]);
        assert(pieces(line@) =~= timeline_pieces(*app, hhmm@));
    }
    line
}

/// The timeline of the screen; none while rain is hidden.
pub fn timeline_bar(app: &App, width: u16, height: u16, hhmm: &str) -> (line: Option<Vec<Piece>>)
    ensures
        line is Some <==> app.show_radar,
        line matches Some(l) ==> pieces(l@) == if width == 0 || height == 0 {
            Seq::empty()
        } else if app.frames@.len() == 0 {
            seq![piece_of(" 雨雲タイムライン: 取得待ち..."@, Tone::Dim)]
        } else {
            timeline_pieces(*app, hhmm@)
        },
{
    if app.show_radar {
        Some(timeline(app, width, height, hhmm))
    } else {
        None
    }
}

/// The timeline marks each frame once, and exactly the one shown with a dot.
pub proof fn one_mark_for_each_frame(frames: Seq<RadarFrame>, shown: int, n: nat)
    requires
        n <= frames.len(),
    ensures
        marks(frames, shown, n).len() == n,
        forall|i: int|
            0 <= i < n ==> ((#[trigger] marks(frames, shown, n)[i]).tone == Tone::Bold <==> i
                == shown),
    decreases n,
{
    if n > 0 {
        one_mark_for_each_frame(frames, shown, (n - 1) as nat);
        let before = marks(frames, shown, (n - 1) as nat);
        assert forall|i: int| 0 <= i < n implies ((#[trigger] marks(frames, shown, n)[i]).tone
            == Tone::Bold <==> i == shown) by {
            if i < n - 1 {
                assert(marks(frames, shown, n)[i] == before[i]);
            }
        }
    }
}

/// The mark of a frame tells its sort: the frame shown has a dot, every other a
/// dash, in cyan where it is forecast and grey where it is observed.
pub proof fn marks_tell_the_sort(frames: Seq<RadarFrame>, shown: int, n: nat, i: int)
    requires
        0 <= i < n <= frames.len(),
    ensures
        marks(frames, shown, n).len() == n,
        i == shown ==> marks(frames, shown, n)[i].text == "●"@,
        i != shown ==> marks(frames, shown, n)[i].text == "━"@,
        i != shown ==> (marks(frames, shown, n)[i].tone == Tone::Cyan <==> frames[i].is_forecast),
        i != shown ==> (marks(frames, shown, n)[i].tone == Tone::Gray <==> !frames[i].is_forecast),
    decreases n,
{
    one_mark_for_each_frame(frames, shown, n);
    if i < n - 1 {
        marks_tell_the_sort(frames, shown, (n - 1) as nat, i);
    } else {
        one_mark_for_each_frame(frames, shown, (n - 1) as nat);
    }
}

/// The timeline tells of the frame shown: behind two pieces stand the marks, one
/// for each frame; the fourth piece after them is the time, the fifth says whether
/// the frame shown is forecast, and the last whether the timeline is playing.
pub proof fn timeline_tells_of_the_frame_shown(app: App, hhmm: Seq<char>, i: int)
    requires
        app.wf(),
        0 <= i < app.frames@.len(),
    ensures
        ({
            let line = timeline_pieces(app, hhmm);
            let n = app.frames@.len() as int;
            &&& line.len() == n + 9
            &&& line[2 + i].text == "●"@ <==> i == app.frame_idx
            &&& line[n + 5].text == hhmm + " "@
            &&& line[n + 6].text == "予報"@ <==> app.frames@[app.frame_idx as int].is_forecast
            &&& line[n + 6].text == "実況"@ <==> !app.frames@[app.frame_idx as int].is_forecast
            &&& line[n + 8].text == "▶再生"@ <==> app.playing
            &&& line[n + 8].text == "⏸停止"@ <==> !app.playing
        }),
{
    let line = timeline_pieces(app, hhmm);
    let n = app.frames@.len();
    let shown = shown_frame(app);
    marks_tell_the_sort(app.frames@, shown, n, i);
    let m = marks(app.frames@, shown, n);
    assert(line[2 + i] == m[i]);
    reveal_strlit("●");
    reveal_strlit("━");
    reveal_strlit("予報");
    reveal_strlit("実況");
    reveal_strlit("▶再生");
    reveal_strlit("⏸停止");
    assert("●"@[0] != "━"@[0]);
    assert("予報"@[0] != "実況"@[0]);
    assert("▶再生"@[0] != "⏸停止"@[0]);
}

} // verus!
