//! What the screen shows, part by part, for a front end to put there.

use vstd::prelude::*;

use crate::app::App;
use crate::places::sat;
use crate::render::colormap::Rgb;

pub mod legend;
pub mod map;
pub mod sidebar;
pub mod timeline;

verus! {

/// How a piece of text is shown.
#[derive(Clone, Copy, PartialEq, Eq, Debug, Structural)]
pub enum Tone {
    Plain,
    /// Dark grey.
    Dim,
    Gray,
    Cyan,
    White,
    /// White and bold.
    Bold,
    Yellow,
    Green,
    Red,
    Color(Rgb),
}

/// A piece of text in one tone.
pub struct Piece {
    pub text: String,
    pub tone: Tone,
}

/// What a [`Piece`] holds.
pub struct PieceModel {
    pub text: Seq<char>,
    pub tone: Tone,
}

impl Piece {
    pub open spec fn model(self) -> PieceModel {
        PieceModel { text: self.text@, tone: self.tone }
    }
}

/// What the pieces of a line hold.
pub open spec fn pieces(line: Seq<Piece>) -> Seq<PieceModel> {
    line.map_values(|p: Piece| p.model())
}

/// A piece of text in a tone.
pub open spec fn piece_of(text: Seq<char>, tone: Tone) -> PieceModel {
    PieceModel { text, tone }
}

/// A piece of text in a tone.
pub(crate) fn piece(text: &str, tone: Tone) -> (p: Piece)
    ensures
        p.model() == piece_of(text@, tone),
{
    Piece { text: text.to_owned(), tone }
}

/// Appends a piece to a line.
pub(crate) fn push_piece(line: &mut Vec<Piece>, text: &str, tone: Tone)
    ensures
        pieces(final(line)@) == pieces(old(line)@).push(piece_of(text@, tone)),
{
    let ghost before = pieces(line@);
    line.push(piece(text, tone));
    proof {
        assert(pieces(line@) =~= before.push(piece_of(text@, tone)));
    }
}

/// `a - b`, at least 0.
pub open spec fn less(a: u16, b: int) -> int {
    if a >= b {
        a - b
    } else {
        0
    }
}

/// Takes the size of the map, which is that of its area less the frame.
pub fn set_viewport(app: &mut App, area_width: u16, area_height: u16)
    ensures
        *final(app) == (App {
            map_cols: less(area_width, 2) as u16,
            map_rows: less(area_height, 2) as u16,
            ..*old(app)
        }),
{
    app.map_cols = area_width.saturating_sub(2);
    app.map_rows = area_height.saturating_sub(2);
}

/// Where the line of help goes, over the bottom of the frame of the map: left
/// end, row and width; nowhere on a map area of fewer than two rows.
pub fn help_place(x: u16, y: u16, width: u16, height: u16) -> (place: Option<(u16, u16, u16)>)
    requires
        x < u16::MAX,
    ensures
        place == if height < 2 {
            None
        } else {
            Some(((x + 1) as u16, (sat(y as int, height as int) - 1) as u16, less(width, 2) as u16))
        },
{
    if height < 2 {
        return None;
    }
    Some((x + 1, y.saturating_add(height) - 1, width.saturating_sub(2)))
}

/// What is left of a width after a frame of `b` cells: the two make up the width,
/// or nothing is left.
pub proof fn frames_take_their_cells(a: u16, b: int)
    requires
        b >= 0,
    ensures
        a >= b ==> less(a, b) + b == a,
        a <= b ==> less(a, b) == 0,
{
}

} // verus!
