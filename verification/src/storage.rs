//! Fixed-capacity storage: `heapless::Vec`, whose capacity is part of its
//! type, so that a map is drawn without growing anything on the way.
//!
//! The functions of this file make the calls into that crate, one operation
//! each, and state what the operation does to the list of items held.

use vstd::prelude::*;

use crate::agg::WeightedSample;
use crate::ieee::Single;
use crate::places::PlaceLabel;
use crate::render::lines::CellAccum;
use crate::render::DrawCell;

verus! {

/// `heapless::Vec`: a vector that holds at most `N` items.
#[verifier::external_type_specification]
#[verifier::external_body]
#[verifier::reject_recursive_types(T)]
pub struct ExHeaplessVec<T, const N: usize>(heapless::Vec<T, N>);

/// The widest grid.
pub const GRID_MAX_W: usize = 256;

/// The highest grid.
pub const GRID_MAX_H: usize = 256;

/// The most values that a grid holds.
pub const GRID_CAP: usize = 65_536;

/// The values of a grid.
pub type GridVec = heapless::Vec<Single, GRID_CAP>;

/// The values that a [`GridVec`] holds, in order.
pub uninterp spec fn values_of(v: heapless::Vec<Single, GRID_CAP>) -> Seq<Single>;

/// `heapless::Vec::new`: holds nothing.
#[verifier::external_body]
pub(crate) fn values_new() -> (v: heapless::Vec<Single, GRID_CAP>)
    ensures
        values_of(v) == Seq::<Single>::empty(),
{
    heapless::Vec::new()
}

/// `heapless::Vec::push`: appends the item and answers true, or answers false
/// and changes nothing when the capacity is used up.
#[verifier::external_body]
pub(crate) fn values_push(v: &mut heapless::Vec<Single, GRID_CAP>, item: Single) -> (pushed: bool)
    ensures
        pushed == (values_of(*old(v)).len() < GRID_CAP),
        values_of(*final(v)) == if pushed {
            values_of(*old(v)).push(item)
        } else {
            values_of(*old(v))
        },
{
    v.push(item).is_ok()
}

/// `heapless::Vec::as_slice`: the items held, in order.
#[verifier::external_body]
pub(crate) fn values_slice(v: &heapless::Vec<Single, GRID_CAP>) -> (items: &[Single])
    ensures
        items@ == values_of(*v),
{
    v.as_slice()
}

/// Indexed assignment to a `heapless::Vec`: replaces the item at `i`, which
/// must exist.
#[verifier::external_body]
pub(crate) fn values_set(v: &mut heapless::Vec<Single, GRID_CAP>, i: usize, item: Single)
    requires
        i < values_of(*old(v)).len(),
    ensures
        values_of(*final(v)) == values_of(*old(v)).update(i as int, item),
{
    v[i] = item;
}

/// The most cells that one drawing pass gives out: 200 columns by 60 rows.
pub const MAX_CELLS: usize = 12_000;

/// The cells of a drawing pass.
pub type CellVec = heapless::Vec<DrawCell, MAX_CELLS>;

/// The cells that a [`CellVec`] holds, in order.
pub uninterp spec fn cells_of(v: heapless::Vec<DrawCell, MAX_CELLS>) -> Seq<DrawCell>;

/// `heapless::Vec::new`: holds nothing.
#[verifier::external_body]
pub(crate) fn cells_new() -> (v: heapless::Vec<DrawCell, MAX_CELLS>)
    ensures
        cells_of(v) == Seq::<DrawCell>::empty(),
{
    heapless::Vec::new()
}

/// `heapless::Vec::push`: appends the item and answers true, or answers false
/// and changes nothing when the capacity is used up.
#[verifier::external_body]
pub(crate) fn cells_push(v: &mut heapless::Vec<DrawCell, MAX_CELLS>, item: DrawCell) -> (pushed: bool)
    ensures
        pushed == (cells_of(*old(v)).len() < MAX_CELLS),
        cells_of(*final(v)) == if pushed {
            cells_of(*old(v)).push(item)
        } else {
            cells_of(*old(v))
        },
{
    v.push(item).is_ok()
}

/// `heapless::Vec::as_slice`: the items held, in order.
#[verifier::external_body]
pub(crate) fn cells_slice(v: &heapless::Vec<DrawCell, MAX_CELLS>) -> (items: &[DrawCell])
    ensures
        items@ == cells_of(*v),
{
    v.as_slice()
}

/// What is drawn so far of every cell of a screen.
pub type AccumVec = heapless::Vec<CellAccum, MAX_CELLS>;

/// The accumulators that an [`AccumVec`] holds, in order.
pub uninterp spec fn accums_of(v: heapless::Vec<CellAccum, MAX_CELLS>) -> Seq<CellAccum>;

/// `heapless::Vec::new`: holds nothing.
#[verifier::external_body]
pub(crate) fn accums_new() -> (v: heapless::Vec<CellAccum, MAX_CELLS>)
    ensures
        accums_of(v) == Seq::<CellAccum>::empty(),
{
    heapless::Vec::new()
}

/// `heapless::Vec::push`: appends the item and answers true, or answers false
/// and changes nothing when the capacity is used up.
#[verifier::external_body]
pub(crate) fn accums_push(v: &mut heapless::Vec<CellAccum, MAX_CELLS>, item: CellAccum) -> (pushed:
    bool)
    ensures
        pushed == (accums_of(*old(v)).len() < MAX_CELLS),
        accums_of(*final(v)) == if pushed {
            accums_of(*old(v)).push(item)
        } else {
            accums_of(*old(v))
        },
{
    v.push(item).is_ok()
}

/// `heapless::Vec::as_slice`: the items held, in order.
#[verifier::external_body]
pub(crate) fn accums_slice(v: &heapless::Vec<CellAccum, MAX_CELLS>) -> (items: &[CellAccum])
    ensures
        items@ == accums_of(*v),
{
    v.as_slice()
}

/// Indexed assignment to a `heapless::Vec`: replaces the item at `i`, which
/// must exist.
#[verifier::external_body]
pub(crate) fn accums_set(v: &mut heapless::Vec<CellAccum, MAX_CELLS>, i: usize, item: CellAccum)
    requires
        i < accums_of(*old(v)).len(),
    ensures
        accums_of(*final(v)) == accums_of(*old(v)).update(i as int, item),
{
    v[i] = item;
}

/// The most labels of a screen.
pub const MAX_LABELS: usize = 64;

/// The labels of a screen.
pub type LabelVec = heapless::Vec<PlaceLabel, MAX_LABELS>;

/// The labels that a [`LabelVec`] holds, in order.
pub uninterp spec fn labels_of(v: heapless::Vec<PlaceLabel, MAX_LABELS>) -> Seq<PlaceLabel>;

/// `heapless::Vec::new`: holds nothing.
#[verifier::external_body]
pub(crate) fn labels_new() -> (v: heapless::Vec<PlaceLabel, MAX_LABELS>)
    ensures
        labels_of(v) == Seq::<PlaceLabel>::empty(),
{
    heapless::Vec::new()
}

/// `heapless::Vec::push`: appends the item and answers true, or answers false
/// and changes nothing when the capacity is used up.
#[verifier::external_body]
pub(crate) fn labels_push(v: &mut heapless::Vec<PlaceLabel, MAX_LABELS>, item: PlaceLabel) -> (pushed:
    bool)
    ensures
        pushed == (labels_of(*old(v)).len() < MAX_LABELS),
        labels_of(*final(v)) == if pushed {
            labels_of(*old(v)).push(item)
        } else {
            labels_of(*old(v))
        },
{
    v.push(item).is_ok()
}

/// `heapless::Vec::as_slice`: the items held, in order.
#[verifier::external_body]
pub(crate) fn labels_slice(v: &heapless::Vec<PlaceLabel, MAX_LABELS>) -> (items: &[PlaceLabel])
    ensures
        items@ == labels_of(*v),
{
    v.as_slice()
}

/// The most values of one quantity that are taken together.
pub const MAX_SAMPLES: usize = 8;

/// The values of one quantity.
pub type SampleVec = heapless::Vec<WeightedSample, MAX_SAMPLES>;

/// The samples that a [`SampleVec`] holds, in order.
pub uninterp spec fn samples_of(v: heapless::Vec<WeightedSample, MAX_SAMPLES>) -> Seq<WeightedSample>;

/// `heapless::Vec::new`: holds nothing.
#[verifier::external_body]
pub(crate) fn samples_new() -> (v: heapless::Vec<WeightedSample, MAX_SAMPLES>)
    ensures
        samples_of(v) == Seq::<WeightedSample>::empty(),
{
    heapless::Vec::new()
}

/// `heapless::Vec::push`: appends the item and answers true, or answers false
/// and changes nothing when the capacity is used up.
#[verifier::external_body]
pub(crate) fn samples_push(
    v: &mut heapless::Vec<WeightedSample, MAX_SAMPLES>,
    item: WeightedSample,
) -> (pushed: bool)
    ensures
        pushed == (samples_of(*old(v)).len() < MAX_SAMPLES),
        samples_of(*final(v)) == if pushed {
            samples_of(*old(v)).push(item)
        } else {
            samples_of(*old(v))
        },
{
    v.push(item).is_ok()
}

/// `heapless::Vec::as_slice`: the items held, in order.
#[verifier::external_body]
pub(crate) fn samples_slice(v: &heapless::Vec<WeightedSample, MAX_SAMPLES>) -> (items:
    &[WeightedSample])
    ensures
        items@ == samples_of(*v),
        items@.len() <= MAX_SAMPLES,
{
    v.as_slice()
}

/// Indexed assignment to a `heapless::Vec`: replaces the item at `i`, which
/// must exist.
#[verifier::external_body]
pub(crate) fn samples_set(
    v: &mut heapless::Vec<WeightedSample, MAX_SAMPLES>,
    i: usize,
    item: WeightedSample,
)
    requires
        i < samples_of(*old(v)).len(),
    ensures
        samples_of(*final(v)) == samples_of(*old(v)).update(i as int, item),
{
    v[i] = item;
}

} // verus!
