//! The legend of the rain colours.

use vstd::prelude::*;
use vstd::string::StringExecFns;

use crate::render::colormap::{legend_labels, precip_legend, precip_scale};
use crate::ui::{piece, piece_of, pieces, push_piece, Piece, PieceModel, Tone};

verus! {

/// The legend of the rain colours.
pub struct Legend;

/// The legend of the first `n` bands: for each a square in its colour, and the
/// label of its lower bound.
pub open spec fn legend_line(n: nat) -> Seq<PieceModel>
    decreases n,
{
    if n == 0 {
        Seq::empty()
    } else {
        legend_line((n - 1) as nat).push(piece_of("■"@, Tone::Color(precip_scale()[n - 1].1))).push(
            piece_of(legend_labels()[n - 1] + " "@, Tone::Plain),
        )
    }
}

impl Legend {
    /// The line of colours.
    pub fn colors(&self) -> (line: Vec<Piece>)
        ensures
            pieces(line@) == legend_line(8),
    {
        let entries = precip_legend();
        let mut line: Vec<Piece> = Vec::new();
        proof {
            assert(pieces(line@) =~= legend_line(0));
        }
        let mut i: usize = 0;
        while i < 8
            invariant
                i <= 8,
                pieces(line@) == legend_line(i as nat),
                forall|k: int|
                    0 <= k < 8 ==> (#[trigger] entries@[k]).from == precip_scale()[k].0
                        && entries@[k].color == precip_scale()[k].1 && entries@[k].label@
                        == legend_labels()[k],
            decreases 8 - i,
        {
            let entry = entries[i];
            proof {
                assert(entries@[i as int].color == precip_scale()[i as int].1);
            }
            push_piece(&mut line, "■", Tone::Color(entry.color));
            let label = entry.label.to_owned().concat(" ");
            push_piece(&mut line, label.as_str(), Tone::Plain);
            i = i + 1;
        }
        line
    }

    /// The line that names the sources of rain and map.
    pub fn credits(&self) -> (p: Piece)
        ensures
            p.model() == piece_of("出典: 気象庁 / 国土地理院"@, Tone::Dim),
    {
        piece("出典: 気象庁 / 国土地理院", Tone::Dim)
    }
}

/// The legend has two pieces for each band: a square in its colour, and the label
/// of its lower bound with a space.
pub proof fn bands_have_a_square_and_a_label(n: nat, k: int)
    requires
        0 <= k < n <= 8,
    ensures
        legend_line(n).len() == 2 * n,
        legend_line(n)[2 * k].text == "■"@,
        legend_line(n)[2 * k].tone == Tone::Color(precip_scale()[k].1),
        legend_line(n)[2 * k + 1].text == legend_labels()[k] + " "@,
        legend_line(n)[2 * k + 1].tone == Tone::Plain,
    decreases n,
{
    if n > 1 {
        bands_have_a_square_and_a_label((n - 1) as nat, if k < n - 1 {
            k
        } else {
            0
        });
    } else {
        assert(legend_line(0).len() == 0);
    }
}

} // verus!
