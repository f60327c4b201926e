//! Cutting a segment to the screen, after Cohen and Sutherland: the decision
//! that each round takes. The caller moves an end as it is told, and asks again.

use vstd::prelude::*;

use vstd::arithmetic::power2::pow2;

use crate::ieee::Double;

verus! {

/// An edge of the screen.
#[derive(Clone, Copy, PartialEq, Eq, Debug, Structural)]
pub enum Edge {
    Left,
    Right,
    /// Where y is 0.
    Bottom,
    /// Where y is largest.
    Top,
}

/// A point, in dots.
#[derive(Clone, Copy, PartialEq, Eq, Debug, Structural)]
pub struct Point {
    pub x: Double,
    pub y: Double,
}

/// What to do next with a segment.
#[derive(Clone, Copy, PartialEq, Eq, Debug, Structural)]
pub enum ClipStep {
    /// Both ends are on the screen: draw it.
    Accept,
    /// Both ends are beyond one edge: drop it.
    Reject,
    /// Move the first end to where the segment crosses the edge.
    MoveFirst(Edge),
    /// Move the second end to where the segment crosses the edge.
    MoveSecond(Edge),
}

const OC_LEFT: u8 = 1;

const OC_RIGHT: u8 = 2;

const OC_BOTTOM: u8 = 4;

const OC_TOP: u8 = 8;

/// Whether the point lies beyond the edge of a screen that reaches from
/// (0, 0) to `max`.
pub open spec fn beyond(p: Point, max: Point, edge: Edge) -> bool {
    match edge {
        Edge::Left => p.x.below(Double { bits: 0 }),
        Edge::Right => !p.x.below(Double { bits: 0 }) && max.x.below(p.x),
        Edge::Bottom => p.y.below(Double { bits: 0 }),
        Edge::Top => !p.y.below(Double { bits: 0 }) && max.y.below(p.y),
    }
}

/// Whether the point lies beyond no edge.
pub open spec fn on_screen(p: Point, max: Point) -> bool {
    forall|e: Edge| !#[trigger] beyond(p, max, e)
}

/// The edge that a point off the screen is moved to first.
pub open spec fn edge_to_cross(p: Point, max: Point) -> Edge {
    if beyond(p, max, Edge::Top) {
        Edge::Top
    } else if beyond(p, max, Edge::Bottom) {
        Edge::Bottom
    } else if beyond(p, max, Edge::Right) {
        Edge::Right
    } else {
        Edge::Left
    }
}

/// The decision on the segment from `a` to `b`.
pub open spec fn clip_decision(a: Point, b: Point, max: Point) -> ClipStep {
    if on_screen(a, max) && on_screen(b, max) {
        ClipStep::Accept
    } else if exists|e: Edge| #[trigger] beyond(a, max, e) && beyond(b, max, e) {
        ClipStep::Reject
    } else if !on_screen(a, max) {
        ClipStep::MoveFirst(edge_to_cross(a, max))
    } else {
        ClipStep::MoveSecond(edge_to_cross(b, max))
    }
}

/// The edges that a point is beyond, one bit each.
fn outcode(p: Point, max: Point) -> (c: u8)
    ensures
        c < 16,
        (c & OC_LEFT != 0) == beyond(p, max, Edge::Left),
        (c & OC_RIGHT != 0) == beyond(p, max, Edge::Right),
        (c & OC_BOTTOM != 0) == beyond(p, max, Edge::Bottom),
        (c & OC_TOP != 0) == beyond(p, max, Edge::Top),
{
    let zero = Double::from_bits(0);
    let mut c: u8 = 0;
    if p.x.lt(zero) {
        c = c | OC_LEFT;
    } else if max.x.lt(p.x) {
        c = c | OC_RIGHT;
    }
    if p.y.lt(zero) {
        c = c | OC_BOTTOM;
    } else if max.y.lt(p.y) {
        c = c | OC_TOP;
    }
    assert(0u8 & 1 == 0 && 0u8 & 2 == 0 && 0u8 & 4 == 0 && 0u8 & 8 == 0 && 1u8 & 1 == 1 && 1u8 & 2
        == 0 && 1u8 & 4 == 0 && 1u8 & 8 == 0 && 2u8 & 1 == 0 && 2u8 & 2 == 2 && 2u8 & 4 == 0 && 2u8
        & 8 == 0 && 4u8 & 1 == 0 && 4u8 & 2 == 0 && 4u8 & 4 == 4 && 4u8 & 8 == 0 && 8u8 & 1 == 0
        && 8u8 & 2 == 0 && 8u8 & 4 == 0 && 8u8 & 8 == 8 && 0u8 | 1 == 1 && 0u8 | 2 == 2 && 0u8 | 4
        == 4 && 0u8 | 8 == 8 && 1u8 | 4 == 5 && 1u8 | 8 == 9 && 2u8 | 4 == 6 && 2u8 | 8 == 10 && 5u8
        & 1 == 1 && 5u8 & 2 == 0 && 5u8 & 4 == 4 && 5u8 & 8 == 0 && 9u8 & 1 == 1 && 9u8 & 2 == 0
        && 9u8 & 4 == 0 && 9u8 & 8 == 8 && 6u8 & 1 == 0 && 6u8 & 2 == 2 && 6u8 & 4 == 4 && 6u8 & 8
        == 0 && 10u8 & 1 == 0 && 10u8 & 2 == 2 && 10u8 & 4 == 0 && 10u8 & 8 == 8) by (bit_vector);
    c
}

/// The edge that stands first in a code: top, bottom, right, left.
fn first_edge(c: u8, Ghost(p): Ghost<Point>, Ghost(max): Ghost<Point>) -> (e: Edge)
    requires
        (c & OC_RIGHT != 0) == beyond(p, max, Edge::Right),
        (c & OC_BOTTOM != 0) == beyond(p, max, Edge::Bottom),
        (c & OC_TOP != 0) == beyond(p, max, Edge::Top),
    ensures
        e == edge_to_cross(p, max),
{
    if c & OC_TOP != 0 {
        Edge::Top
    } else if c & OC_BOTTOM != 0 {
        Edge::Bottom
    } else if c & OC_RIGHT != 0 {
        Edge::Right
    } else {
        Edge::Left
    }
}

/// Decides on the segment from `a` to `b`, on a screen that reaches from
/// (0, 0) to `max`.
pub fn clip_step(a: Point, b: Point, max: Point) -> (step: ClipStep)
    ensures
        step == clip_decision(a, b, max),
{
    let o0: u8 = outcode(a, max);
    let o1: u8 = outcode(b, max);
    proof {
        assert((o0 == 0) == (o0 & 1 == 0 && o0 & 2 == 0 && o0 & 4 == 0 && o0 & 8 == 0)
            && (o1 == 0) == (o1 & 1 == 0 && o1 & 2 == 0 && o1 & 4 == 0 && o1 & 8 == 0)
            && ((o0 | o1) == 0) == (o0 == 0 && o1 == 0)
            && ((o0 & o1) != 0) == ((o0 & 1 != 0 && o1 & 1 != 0) || (o0 & 2 != 0 && o1 & 2 != 0) || (o0
            & 4 != 0 && o1 & 4 != 0) || (o0 & 8 != 0 && o1 & 8 != 0))) by (bit_vector)
            requires
                o0 < 16,
                o1 < 16,
        ;
        lemma_on_screen(a, max);
        lemma_on_screen(b, max);
        assert((exists|e: Edge| #[trigger] beyond(a, max, e) && beyond(b, max, e)) <==> (beyond(
            a,
            max,
            Edge::Left,
        ) && beyond(b, max, Edge::Left)) || (beyond(a, max, Edge::Right) && beyond(
            b,
            max,
            Edge::Right,
        )) || (beyond(a, max, Edge::Bottom) && beyond(b, max, Edge::Bottom)) || (beyond(
            a,
            max,
            Edge::Top,
        ) && beyond(b, max, Edge::Top)));
    }
    if o0 | o1 == 0 {
        return ClipStep::Accept;
    }
    if o0 & o1 != 0 {
        return ClipStep::Reject;
    }
    if o0 != 0 {
        ClipStep::MoveFirst(first_edge(o0, Ghost(a), Ghost(max)))
    } else {
        ClipStep::MoveSecond(first_edge(o1, Ghost(b), Ghost(max)))
    }
}

proof fn lemma_on_screen(p: Point, max: Point)
    ensures
        on_screen(p, max) <==> !beyond(p, max, Edge::Left) && !beyond(p, max, Edge::Right)
            && !beyond(p, max, Edge::Bottom) && !beyond(p, max, Edge::Top),
{
    assert forall|e: Edge|
        !beyond(p, max, Edge::Left) && !beyond(p, max, Edge::Right) && !beyond(p, max, Edge::Bottom)
            && !beyond(p, max, Edge::Top) implies !#[trigger] beyond(p, max, e) by {
        match e {
            Edge::Left => {},
            Edge::Right => {},
            Edge::Bottom => {},
            Edge::Top => {},
        }
    }
}

/// An end that is told to move is off the screen, beyond the edge named; the
/// other end is not beyond that edge, so the segment does cross it.
pub proof fn moved_end_crosses_the_edge(a: Point, b: Point, max: Point)
    ensures
        match clip_decision(a, b, max) {
            ClipStep::MoveFirst(e) => beyond(a, max, e) && !beyond(b, max, e),
            ClipStep::MoveSecond(e) => beyond(b, max, e) && !beyond(a, max, e),
            _ => true,
        },
{
    lemma_on_screen(a, max);
    lemma_on_screen(b, max);
}

/// A segment is drawn exactly if both ends are on the screen, and dropped exactly
/// if both ends lie past one side of it; on a screen that reaches from 0 to `max`
/// in both directions.
pub proof fn segments_are_judged_by_their_ends(a: Point, b: Point, max: Point)
    requires
        !a.x.nan(),
        !a.y.nan(),
        !b.x.nan(),
        !b.y.nan(),
        !max.x.nan(),
        !max.y.nan(),
        max.x.value() >= 0,
        max.y.value() >= 0,
    ensures
        clip_decision(a, b, max) is Accept <==> {
            &&& 0 <= a.x.value() <= max.x.value()
            &&& 0 <= a.y.value() <= max.y.value()
            &&& 0 <= b.x.value() <= max.x.value()
            &&& 0 <= b.y.value() <= max.y.value()
        },
        clip_decision(a, b, max) is Reject <==> {
            ||| a.x.value() < 0 && b.x.value() < 0
            ||| a.x.value() > max.x.value() && b.x.value() > max.x.value()
            ||| a.y.value() < 0 && b.y.value() < 0
            ||| a.y.value() > max.y.value() && b.y.value() > max.y.value()
        },
{
    lemma_on_screen(a, max);
    lemma_on_screen(b, max);
    lemma_zero();
    assert(beyond(a, max, Edge::Left) == (a.x.value() < 0));
    assert(beyond(a, max, Edge::Right) == (a.x.value() > max.x.value()));
    assert(beyond(a, max, Edge::Bottom) == (a.y.value() < 0));
    assert(beyond(a, max, Edge::Top) == (a.y.value() > max.y.value()));
    assert(beyond(b, max, Edge::Left) == (b.x.value() < 0));
    assert(beyond(b, max, Edge::Right) == (b.x.value() > max.x.value()));
    assert(beyond(b, max, Edge::Bottom) == (b.y.value() < 0));
    assert(beyond(b, max, Edge::Top) == (b.y.value() > max.y.value()));
}

/// The end that moves, and to where: the first end if it is off the screen, else
/// the second; an end above or below the screen to that edge, and one only beside
/// it to the edge on that side.
pub proof fn ends_move_to_the_edge_they_are_past(a: Point, b: Point, max: Point)
    requires
        !a.x.nan(),
        !a.y.nan(),
        !b.x.nan(),
        !b.y.nan(),
        !max.x.nan(),
        !max.y.nan(),
        max.x.value() >= 0,
        max.y.value() >= 0,
        !(clip_decision(a, b, max) is Accept),
        !(clip_decision(a, b, max) is Reject),
    ensures
        clip_decision(a, b, max) is MoveFirst <==> !(0 <= a.x.value() <= max.x.value() && 0
            <= a.y.value() <= max.y.value()),
        ({
            let (p, e) = match clip_decision(a, b, max) {
                ClipStep::MoveFirst(e) => (a, e),
                ClipStep::MoveSecond(e) => (b, e),
                _ => (a, Edge::Left),
            };
            &&& e == Edge::Top <==> p.y.value() > max.y.value()
            &&& e == Edge::Bottom <==> p.y.value() < 0
            &&& e == Edge::Right <==> p.x.value() > max.x.value() && 0 <= p.y.value()
                <= max.y.value()
            &&& e == Edge::Left <==> p.x.value() < 0 && 0 <= p.y.value() <= max.y.value()
        }),
{
    lemma_on_screen(a, max);
    lemma_on_screen(b, max);
    lemma_zero();
    segments_are_judged_by_their_ends(a, b, max);
}

proof fn lemma_zero()
    ensures
        (Double { bits: 0 }).value() == 0,
        !(Double { bits: 0 }).nan(),
{
    let raw = (Double { bits: 0 }).raw();
    assert(raw == 0);
    vstd::arithmetic::power2::lemma_pow2_pos(52);
    assert(0nat % pow2(52) == 0 && 0nat / pow2(52) == 0) by {
        vstd::arithmetic::div_mod::lemma_small_mod(0, pow2(52));
        vstd::arithmetic::div_mod::lemma_basic_div(0, pow2(52) as int);
    }
}

} // verus!
