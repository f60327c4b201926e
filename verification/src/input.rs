//! Keys, and what they do.

use vstd::prelude::*;

use crate::app::App;
use crate::ieee::Double;

verus! {

/// A key.
#[derive(Clone, Copy, PartialEq, Eq, Debug, Structural)]
pub enum Key {
    Char(char),
    Up,
    Down,
    Left,
    Right,
    /// Any other key.
    Other,
}

/// What is left to do after a key.
#[derive(Clone, Copy, PartialEq, Eq, Debug, Structural)]
pub enum InputAction {
    Nothing,
    /// Fetch weather and map anew.
    Refetch,
    /// Save centre and zoom to the settings.
    SaveConfig,
    Quit,
}

/// What a key asks for.
#[derive(Clone, Copy, PartialEq, Eq, Debug, Structural)]
pub enum Command {
    Quit,
    /// Move the map by steps to the north and to the east.
    Pan(i8, i8),
    ZoomIn,
    ZoomOut,
    TogglePlay,
    /// Go on or back on the timeline.
    Step(i8),
    ToggleRadar,
    Save,
    Refetch,
    Nothing,
}

/// What a key asks for, pressed with the control key or without.
pub open spec fn command_of(key: Key, control: bool) -> Command {
    match key {
        Key::Up => Command::Pan(1, 0),
        Key::Down => Command::Pan(-1i8, 0),
        Key::Left => Command::Pan(0, -1i8),
        Key::Right => Command::Pan(0, 1),
        Key::Other => Command::Nothing,
        Key::Char(c) => if c == 'q' || (c == 'c' && control) {
            Command::Quit
        } else if c == 'k' {
            Command::Pan(1, 0)
        } else if c == 'j' {
            Command::Pan(-1i8, 0)
        } else if c == 'h' {
            Command::Pan(0, -1i8)
        } else if c == 'l' {
            Command::Pan(0, 1)
        } else if c == 'a' || c == '+' || c == '=' {
            Command::ZoomIn
        } else if c == 'z' || c == '-' || c == '_' {
            Command::ZoomOut
        } else if c == ' ' {
            Command::TogglePlay
        } else if c == '.' || c == ']' {
            Command::Step(1)
        } else if c == ',' || c == '[' {
            Command::Step(-1i8)
        } else if c == 't' {
            Command::ToggleRadar
        } else if c == 's' {
            Command::Save
        } else if c == 'r' {
            Command::Refetch
        } else {
            Command::Nothing
        },
    }
}

/// What a key asks for.
pub fn command(key: Key, control: bool) -> (c: Command)
    ensures
        c == command_of(key, control),
{
    match key {
        Key::Up | Key::Char('k') => Command::Pan(1, 0),
        Key::Down | Key::Char('j') => Command::Pan(-1, 0),
        Key::Left | Key::Char('h') => Command::Pan(0, -1),
        Key::Right | Key::Char('l') => Command::Pan(0, 1),
        Key::Char('q') => Command::Quit,
        Key::Char('c') => if control {
            Command::Quit
        } else {
            Command::Nothing
        },
        Key::Char('a') | Key::Char('+') | Key::Char('=') => Command::ZoomIn,
        Key::Char('z') | Key::Char('-') | Key::Char('_') => Command::ZoomOut,
        Key::Char(' ') => Command::TogglePlay,
        Key::Char('.') | Key::Char(']') => Command::Step(1),
        Key::Char(',') | Key::Char('[') => Command::Step(-1),
        Key::Char('t') => Command::ToggleRadar,
        Key::Char('s') => Command::Save,
        Key::Char('r') => Command::Refetch,
        _ => Command::Nothing,
    }
}

/// What is left to do after a command.
pub open spec fn action_of(c: Command) -> InputAction {
    match c {
        Command::Quit => InputAction::Quit,
        Command::Pan(_, _) | Command::ZoomIn | Command::ZoomOut | Command::Refetch => InputAction::Refetch,
        Command::Save => InputAction::SaveConfig,
        _ => InputAction::Nothing,
    }
}

/// Where a step of the map leads: latitude, longitude, and the longitude less
/// and more a turn.
pub type Moved = (Double, Double, Double, Double);

/// The state after a command, where `moved` is where a step of the map leads.
pub open spec fn obeyed(app: App, c: Command, moved: Moved) -> App {
    match c {
        Command::Pan(_, _) => App {
            center_lat: crate::app::cut_lat(moved.0),
            center_lon: crate::app::wrap_lon(moved.1, moved.2, moved.3),
            ..app
        },
        Command::ZoomIn => App {
            zoom: if app.zoom < crate::app::MAX_ZOOM {
                (app.zoom + 1) as u8
            } else {
                app.zoom
            },
            ..app
        },
        Command::ZoomOut => App {
            zoom: if app.zoom > crate::app::MIN_ZOOM {
                (app.zoom - 1) as u8
            } else {
                app.zoom
            },
            ..app
        },
        Command::TogglePlay => App {
            playing: if app.frames@.len() > 0 {
                !app.playing
            } else {
                app.playing
            },
            ..app
        },
        Command::Step(d) => App {
            playing: false,
            frame_idx: if app.frames@.len() == 0 {
                app.frame_idx
            } else {
                ((app.frame_idx + d) % (app.frames@.len() as int)) as usize
            },
            ..app
        },
        Command::ToggleRadar => App {
            show_radar: !app.show_radar,
            playing: app.playing && !app.show_radar,
            ..app
        },
        _ => app,
    }
}

/// How far a step to the north or east goes, in percent of what is shown.
pub open spec fn step_percent(zoom: u8, steps: int) -> int {
    steps * (if zoom <= 5 {
        10int
    } else if zoom <= 9 {
        20
    } else if zoom <= 13 {
        30
    } else {
        40
    })
}

/// Does what a key asks for, and answers what is left to do. `moved` says where
/// the map gets to by a number of percent of what is shown to the north, and
/// another to the east.
pub fn handle_key<F: Fn(i8, i8) -> Moved>(app: &mut App, key: Key, control: bool, moved: F) -> (action:
    InputAction)
    requires
        forall|north: i8, east: i8| #[trigger] moved.requires((north, east)),
    ensures
        action == action_of(command_of(key, control)),
        match command_of(key, control) {
            Command::Pan(north, east) => exists|m: Moved|
                #![trigger obeyed(*old(app), command_of(key, control), m)]
                moved.ensures(
                    (
                        step_percent(old(app).zoom, north as int) as i8,
                        step_percent(old(app).zoom, east as int) as i8,
                    ),
                    m,
                ) && *final(app) == obeyed(*old(app), command_of(key, control), m),
            c => forall|m: Moved| *final(app) == #[trigger] obeyed(*old(app), c, m),
        },
{
    let c = command(key, control);
    match c {
        Command::Quit => InputAction::Quit,
        Command::Pan(north, east) => {
            let f: i8 = app.pan_fraction() as i8;
            proof {
                assert(north == 0 || north == 1 || north == -1);
                assert(east == 0 || east == 1 || east == -1);
                assert(-40 <= north * f <= 40) by (nonlinear_arith)
                    requires
                        north == 0 || north == 1 || north == -1,
                        0 <= f <= 40,
                ;
                assert(-40 <= east * f <= 40) by (nonlinear_arith)
                    requires
                        east == 0 || east == 1 || east == -1,
                        0 <= f <= 40,
                ;
            }
            let m = moved(north * f, east * f);
            proof {
                assert(obeyed(*old(app), c, m) == obeyed(*old(app), command_of(key, control), m));
            }
            app.pan(m.0, m.1, m.2, m.3);
            InputAction::Refetch
        },
        Command::ZoomIn => {
            app.zoom_in();
            InputAction::Refetch
        },
        Command::ZoomOut => {
            app.zoom_out();
            InputAction::Refetch
        },
        Command::TogglePlay => {
            app.toggle_play();
            InputAction::Nothing
        },
        Command::Step(d) => {
            app.step_frame(d as isize);
            InputAction::Nothing
        },
        Command::ToggleRadar => {
            app.toggle_radar();
            InputAction::Nothing
        },
        Command::Save => InputAction::SaveConfig,
        Command::Refetch => InputAction::Refetch,
        Command::Nothing => InputAction::Nothing,
    }
}

/// No key breaks the state: the frame shown stays on the timeline, and a zoom
/// in range stays in range.
pub proof fn keys_keep_the_state_valid(app: App, key: Key, control: bool, m: Moved)
    requires
        app.wf(),
    ensures
        obeyed(app, command_of(key, control), m).wf(),
        crate::app::MIN_ZOOM <= app.zoom <= crate::app::MAX_ZOOM ==> crate::app::MIN_ZOOM <= obeyed(
            app,
            command_of(key, control),
            m,
        ).zoom <= crate::app::MAX_ZOOM,
{
    if let Command::Step(d) = command_of(key, control) {
        if app.frames@.len() > 0 {
            vstd::arithmetic::div_mod::lemma_mod_bound(
                app.frame_idx + d,
                app.frames@.len() as int,
            );
        }
    }
}

/// Zooming in and out again leads back, short of the nearest zoom.
pub proof fn zooming_out_undoes_zooming_in(app: App, m: Moved)
    requires
        crate::app::MIN_ZOOM <= app.zoom < crate::app::MAX_ZOOM,
    ensures
        obeyed(obeyed(app, Command::ZoomIn, m), Command::ZoomOut, m) == app,
{
}

/// Each key has one meaning: the program is left by q, and by c with the control
/// key; the map moves by the arrows and by h, j, k, l; and each other command has the
/// keys given here and no others.
pub proof fn keys_mean_what_the_help_says(key: Key, control: bool)
    ensures
        command_of(key, control) == Command::Quit <==> key == Key::Char('q') || (key == Key::Char(
            'c',
        ) && control),
        command_of(key, control) == Command::Pan(1, 0) <==> key == Key::Up || key == Key::Char('k'),
        command_of(key, control) == Command::Pan(-1i8, 0) <==> key == Key::Down || key == Key::Char(
            'j',
        ),
        command_of(key, control) == Command::Pan(0, -1i8) <==> key == Key::Left || key == Key::Char(
            'h',
        ),
        command_of(key, control) == Command::Pan(0, 1) <==> key == Key::Right || key == Key::Char(
            'l',
        ),
        command_of(key, control) == Command::ZoomIn <==> key == Key::Char('a') || key == Key::Char(
            '+',
        ) || key == Key::Char('='),
        command_of(key, control) == Command::ZoomOut <==> key == Key::Char('z') || key == Key::Char(
            '-',
        ) || key == Key::Char('_'),
        command_of(key, control) == Command::TogglePlay <==> key == Key::Char(' '),
        command_of(key, control) == Command::Step(1) <==> key == Key::Char('.') || key == Key::Char(
            ']',
        ),
        command_of(key, control) == Command::Step(-1i8) <==> key == Key::Char(',') || key
            == Key::Char('['),
        command_of(key, control) == Command::ToggleRadar <==> key == Key::Char('t'),
        command_of(key, control) == Command::Save <==> key == Key::Char('s'),
        command_of(key, control) == Command::Refetch <==> key == Key::Char('r'),
        !control ==> command_of(Key::Char('c'), control) == Command::Nothing,
{
}

/// A key that changes the view makes the program fetch, as r does, and no other
/// key does; the timeline and what is shown of it change without a fetch.
pub proof fn changed_views_are_fetched(app: App, c: Command, m: Moved)
    ensures
        obeyed(app, c, m).zoom != app.zoom || obeyed(app, c, m).center_lat != app.center_lat
            || obeyed(app, c, m).center_lon != app.center_lon ==> action_of(c)
            == InputAction::Refetch,
        obeyed(app, c, m).playing != app.playing || obeyed(app, c, m).frame_idx != app.frame_idx
            || obeyed(app, c, m).show_radar != app.show_radar ==> action_of(c)
            == InputAction::Nothing,
        action_of(c) == InputAction::Refetch <==> c is Pan || c is ZoomIn || c is ZoomOut || c
            is Refetch,
        action_of(c) == InputAction::SaveConfig <==> c is Save,
        action_of(c) == InputAction::Quit <==> c is Quit,
        action_of(c) != InputAction::Nothing && !(c is Pan) && !(c is ZoomIn) && !(c is ZoomOut)
            ==> obeyed(app, c, m) == app,
{
}

/// Only its own part of the state changes by a command: the centre by a move, the
/// zoom by one step within 3 to 16, playing and the frame by the timeline's keys,
/// and rain by its own, which stops playing where it is hidden.
pub proof fn commands_change_their_own_part(app: App, c: Command, m: Moved)
    requires
        app.wf(),
        3 <= app.zoom <= 16,
    ensures
        obeyed(app, c, m) == (App {
            center_lat: obeyed(app, c, m).center_lat,
            center_lon: obeyed(app, c, m).center_lon,
            zoom: obeyed(app, c, m).zoom,
            playing: obeyed(app, c, m).playing,
            frame_idx: obeyed(app, c, m).frame_idx,
            show_radar: obeyed(app, c, m).show_radar,
            ..app
        }),
        !(c is Pan) ==> obeyed(app, c, m).center_lat == app.center_lat && obeyed(
            app,
            c,
            m,
        ).center_lon == app.center_lon,
        obeyed(app, c, m).zoom == app.zoom + 1 <==> c is ZoomIn && app.zoom < 16,
        obeyed(app, c, m).zoom == app.zoom - 1 <==> c is ZoomOut && app.zoom > 3,
        3 <= obeyed(app, c, m).zoom <= 16,
        -1 <= obeyed(app, c, m).zoom - app.zoom <= 1,
        obeyed(app, c, m).show_radar != app.show_radar <==> c is ToggleRadar,
        !obeyed(app, c, m).show_radar && app.show_radar ==> !obeyed(app, c, m).playing,
        obeyed(app, c, m).playing && !app.playing <==> c is TogglePlay && !app.playing
            && app.frames@.len() > 0,
        !obeyed(app, c, m).playing && app.playing ==> c is TogglePlay || c is Step || (c
            is ToggleRadar && app.show_radar),
        c is Step ==> !obeyed(app, c, m).playing,
        obeyed(app, c, m).frame_idx != app.frame_idx ==> c is Step,
        c == Command::Step(1) && app.frame_idx + 1 < app.frames@.len() ==> obeyed(
            app,
            c,
            m,
        ).frame_idx == app.frame_idx + 1,
        c == Command::Step(1) && app.frame_idx + 1 == app.frames@.len() ==> obeyed(
            app,
            c,
            m,
        ).frame_idx == 0,
        c == Command::Step(-1i8) && app.frames@.len() > 0 && app.frame_idx > 0 ==> obeyed(
            app,
            c,
            m,
        ).frame_idx == app.frame_idx - 1,
        c == Command::Step(-1i8) && app.frames@.len() > 0 && app.frame_idx == 0 ==> obeyed(
            app,
            c,
            m,
        ).frame_idx == app.frames@.len() - 1,
{
    let n = app.frames@.len() as int;
    if n > 0 {
        let at = app.frame_idx as int;
        assert(n == app.frames.len());
        if at + 1 < n {
            vstd::arithmetic::div_mod::lemma_small_mod((at + 1) as nat, n as nat);
        } else {
            vstd::arithmetic::div_mod::lemma_fundamental_div_mod_converse(at + 1, n, 1, 0);
        }
        if at > 0 {
            vstd::arithmetic::div_mod::lemma_small_mod((at - 1) as nat, n as nat);
        } else {
            vstd::arithmetic::div_mod::lemma_fundamental_div_mod_converse(-1, n, -1, n - 1);
        }
    }
}

/// Steps to the north and to the south, or east and west, are of one length, and
/// a step takes more of what is shown the nearer the map is: a tenth up to zoom 5,
/// and a tenth more from zooms 6, 10 and 14 on.
pub proof fn steps_grow_with_zoom(zoom: u8, steps: int)
    ensures
        step_percent(zoom, -steps) == -step_percent(zoom, steps),
        step_percent(zoom, 0) == 0,
        step_percent(zoom, 1) == 10 * (1 + (if zoom >= 6 {
            1int
        } else {
            0
        }) + (if zoom >= 10 {
            1int
        } else {
            0
        }) + (if zoom >= 14 {
            1int
        } else {
            0
        })),
{
    assert(step_percent(zoom, -steps) == -step_percent(zoom, steps)) by (nonlinear_arith);
}

/// A move of the map leads where it says: the centre gets the latitude and the
/// longitude moved to, kept on the map.
pub proof fn moves_lead_where_they_say(app: App, c: Command, m: Moved)
    requires
        c is Pan,
        !m.0.nan(),
        !m.1.nan(),
    ensures
        ({
            let north = (Double { bits: 0x4055_4000_0000_0000 }).value();
            let east = (Double { bits: 0x4066_8000_0000_0000 }).value();
            let after = obeyed(app, c, m);
            &&& -north <= m.0.value() <= north ==> after.center_lat == m.0
            &&& -north <= after.center_lat.value() <= north
            &&& -east <= m.1.value() <= east ==> after.center_lon == m.1
            &&& m.1.value() > east ==> after.center_lon == m.2
            &&& m.1.value() < -east ==> after.center_lon == m.3
            &&& after.zoom == app.zoom
        }),
{
    crate::app::latitudes_stay_on_the_map(m.0);
    let (e, w) = (Double { bits: 0x4066_8000_0000_0000 }, Double { bits: 0xC066_8000_0000_0000 });
    assert(e.raw() == w.raw());
    assert(w.value() == -e.value());
}

} // verus!
