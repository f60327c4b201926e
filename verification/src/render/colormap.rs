//! Colours, and the scales that give one to a measured value.

use vstd::arithmetic::power2::pow2;
use vstd::prelude::*;

use crate::ieee::Single;
use crate::text::decimal;

verus! {

/// A 24-bit colour.
#[derive(Clone, Copy, PartialEq, Eq, Debug, Structural)]
pub struct Rgb {
    pub r: u8,
    pub g: u8,
    pub b: u8,
}

impl Rgb {
    pub fn new(r: u8, g: u8, b: u8) -> (c: Rgb)
        ensures
            c == (Rgb { r, g, b }),
    {
        Rgb { r, g, b }
    }
}

/// A colour scale: lower bounds of bands, in ascending order, and their colours.
/// The colour that `value` has among the first `n` bands is that of the last
/// one whose lower bound it is not below; none if it is below all.
pub open spec fn band_color(scale: Seq<(Single, Rgb)>, n: nat, value: Single) -> Option<Rgb>
    decreases n,
{
    if n == 0 {
        None
    } else if !value.below(scale[n - 1].0) {
        Some(scale[n - 1].1)
    } else {
        band_color(scale, (n - 1) as nat, value)
    }
}

/// The rain scale: from 0.1, 1, 5, 10, 20, 30, 50 and 80 mm/h on.
pub open spec fn precip_scale() -> Seq<(Single, Rgb)> {
    seq![
        (Single { bits: 0x3DCC_CCCD }, Rgb { r: 0xC0, g: 0xD8, b: 0xFF }),
        (Single { bits: 0x3F80_0000 }, Rgb { r: 0x60, g: 0xA8, b: 0xFF }),
        (Single { bits: 0x40A0_0000 }, Rgb { r: 0x21, g: 0x8C, b: 0xFF }),
        (Single { bits: 0x4120_0000 }, Rgb { r: 0x00, g: 0xC8, b: 0x00 }),
        (Single { bits: 0x41A0_0000 }, Rgb { r: 0xFA, g: 0xF5, b: 0x00 }),
        (Single { bits: 0x41F0_0000 }, Rgb { r: 0xFF, g: 0x99, b: 0x00 }),
        (Single { bits: 0x4248_0000 }, Rgb { r: 0xFF, g: 0x28, b: 0x28 }),
        (Single { bits: 0x42A0_0000 }, Rgb { r: 0xB4, g: 0x00, b: 0xB4 }),
    ]
}

/// The cloud scale: from 10, 30, 60 and 85 percent on.
pub open spec fn cloud_scale() -> Seq<(Single, Rgb)> {
    seq![
        (Single { bits: 0x4120_0000 }, Rgb { r: 0xD8, g: 0xDC, b: 0xE0 }),
        (Single { bits: 0x41F0_0000 }, Rgb { r: 0xAC, g: 0xB2, b: 0xB8 }),
        (Single { bits: 0x4270_0000 }, Rgb { r: 0x84, g: 0x8A, b: 0x90 }),
        (Single { bits: 0x42AA_0000 }, Rgb { r: 0x5C, g: 0x62, b: 0x68 }),
    ]
}

/// A scale whose bounds are positive numbers in ascending order.
pub open spec fn ascending(scale: Seq<(Single, Rgb)>) -> bool {
    &&& forall|i: int| 0 <= i < scale.len() ==> (#[trigger] scale[i]).0.bits <= 0x7f80_0000
    &&& forall|i: int, j: int|
        0 <= i < j < scale.len() ==> (#[trigger] scale[i]).0.bits < (#[trigger] scale[j]).0.bits
}

/// Both scales ascend, so their bands do not overlap.
pub proof fn scales_ascend()
    ensures
        ascending(precip_scale()),
        ascending(cloud_scale()),
{
}

/// Below one bound of an ascending scale is below every higher one.
proof fn lemma_below_higher(scale: Seq<(Single, Rgb)>, value: Single)
    requires
        ascending(scale),
    ensures
        forall|i: int, j: int|
            0 <= i <= j < scale.len() && value.below(#[trigger] scale[i].0) ==> value.below(
                #[trigger] scale[j].0,
            ),
{
    assert forall|i: int, j: int|
        0 <= i <= j < scale.len() && value.below(#[trigger] scale[i].0) implies value.below(
        #[trigger] scale[j].0,
    ) by {
        if i < j {
            scale[i].0.positive_order(scale[j].0);
        }
    }
}

/// Colours rise with the value: a band that a value reaches, every larger
/// value reaches too, and has a colour.
pub proof fn stronger_reaches_as_far(
    scale: Seq<(Single, Rgb)>,
    weak: Single,
    strong: Single,
    k: int,
)
    requires
        ascending(scale),
        weak.at_most(strong),
        0 <= k < scale.len(),
        !weak.below(scale[k].0),
    ensures
        !strong.below(scale[k].0),
        band_color(scale, scale.len(), strong) is Some,
{
    lemma_band(scale, scale.len(), strong, k);
}

/// Not below the bound of a band means a colour.
proof fn lemma_band(scale: Seq<(Single, Rgb)>, n: nat, value: Single, k: int)
    requires
        0 <= k < n <= scale.len(),
        !value.below(scale[k].0),
    ensures
        band_color(scale, n, value) is Some,
    decreases n,
{
    if value.below(scale[n - 1].0) {
        lemma_band(scale, (n - 1) as nat, value, k);
    }
}

/// The colour of an amount of rain, in mm/h; none below 0.1.
pub fn precip_to_rgb(mmh: Single) -> (c: Option<Rgb>)
    ensures
        c == band_color(precip_scale(), 8, mmh),
{
    proof {
        reveal_with_fuel(band_color, 9);
        scales_ascend();
        lemma_below_higher(precip_scale(), mmh);
    }
    if mmh.lt(Single::from_bits(0x3DCC_CCCD)) {
        None
    } else if mmh.lt(Single::from_bits(0x3F80_0000)) {
        Some(Rgb::new(0xC0, 0xD8, 0xFF))
    } else if mmh.lt(Single::from_bits(0x40A0_0000)) {
        Some(Rgb::new(0x60, 0xA8, 0xFF))
    } else if mmh.lt(Single::from_bits(0x4120_0000)) {
        Some(Rgb::new(0x21, 0x8C, 0xFF))
    } else if mmh.lt(Single::from_bits(0x41A0_0000)) {
        Some(Rgb::new(0x00, 0xC8, 0x00))
    } else if mmh.lt(Single::from_bits(0x41F0_0000)) {
        Some(Rgb::new(0xFA, 0xF5, 0x00))
    } else if mmh.lt(Single::from_bits(0x4248_0000)) {
        Some(Rgb::new(0xFF, 0x99, 0x00))
    } else if mmh.lt(Single::from_bits(0x42A0_0000)) {
        Some(Rgb::new(0xFF, 0x28, 0x28))
    } else {
        Some(Rgb::new(0xB4, 0x00, 0xB4))
    }
}

/// The colour of a cloud cover, in percent; none below 10.
pub fn cloud_to_rgb(pct: Single) -> (c: Option<Rgb>)
    ensures
        c == band_color(cloud_scale(), 4, pct),
{
    proof {
        reveal_with_fuel(band_color, 5);
        scales_ascend();
        lemma_below_higher(cloud_scale(), pct);
    }
    if pct.lt(Single::from_bits(0x4120_0000)) {
        None
    } else if pct.lt(Single::from_bits(0x41F0_0000)) {
        Some(Rgb::new(0xD8, 0xDC, 0xE0))
    } else if pct.lt(Single::from_bits(0x4270_0000)) {
        Some(Rgb::new(0xAC, 0xB2, 0xB8))
    } else if pct.lt(Single::from_bits(0x42AA_0000)) {
        Some(Rgb::new(0x84, 0x8A, 0x90))
    } else {
        Some(Rgb::new(0x5C, 0x62, 0x68))
    }
}

/// One entry of the rain legend.
#[derive(Clone, Copy, PartialEq, Eq, Debug)]
pub struct LegendEntry {
    /// Lower bound of the band, in mm/h.
    pub from: Single,
    pub label: &'static str,
    pub color: Rgb,
}

/// The labels of the rain legend.
pub open spec fn legend_labels() -> Seq<Seq<char>> {
    seq!["0.1"@, "1"@, "5"@, "10"@, "20"@, "30"@, "50"@, "80+"@]
}

/// The rain legend: one entry for each band of the rain scale.
pub fn precip_legend() -> (entries: [LegendEntry; 8])
    ensures
        forall|i: int|
            0 <= i < 8 ==> (#[trigger] entries@[i]).from == precip_scale()[i].0
                && entries@[i].color == precip_scale()[i].1 && entries@[i].label@ == legend_labels()[i],
{
    [
        LegendEntry { from: Single::from_bits(0x3DCC_CCCD), label: "0.1", color: Rgb::new(0xC0, 0xD8, 0xFF) },
        LegendEntry { from: Single::from_bits(0x3F80_0000), label: "1", color: Rgb::new(0x60, 0xA8, 0xFF) },
        LegendEntry { from: Single::from_bits(0x40A0_0000), label: "5", color: Rgb::new(0x21, 0x8C, 0xFF) },
        LegendEntry { from: Single::from_bits(0x4120_0000), label: "10", color: Rgb::new(0x00, 0xC8, 0x00) },
        LegendEntry { from: Single::from_bits(0x41A0_0000), label: "20", color: Rgb::new(0xFA, 0xF5, 0x00) },
        LegendEntry { from: Single::from_bits(0x41F0_0000), label: "30", color: Rgb::new(0xFF, 0x99, 0x00) },
        LegendEntry { from: Single::from_bits(0x4248_0000), label: "50", color: Rgb::new(0xFF, 0x28, 0x28) },
        LegendEntry { from: Single::from_bits(0x42A0_0000), label: "80+", color: Rgb::new(0xB4, 0x00, 0xB4) },
    ]
}

/// The legend tells the truth: an amount equal to the lower bound of an entry
/// is drawn in the entry's colour.
pub proof fn legend_matches_colors(i: int)
    requires
        0 <= i < 8,
    ensures
        band_color(precip_scale(), 8, precip_scale()[i].0) == Some(precip_scale()[i].1),
{
    reveal_with_fuel(band_color, 9);
    scales_ascend();
    let scale = precip_scale();
    assert forall|j: int| i < j < 8 implies scale[i].0.below(#[trigger] scale[j].0) by {
        scale[i].0.positive_order(scale[j].0);
    }
}

/// Whether a number is at least `from`, and below `to`.
pub open spec fn within(value: Single, from: Single, to: Single) -> bool {
    !value.nan() && from.value() <= value.value() < to.value()
}

/// The rain colours, from 0.1, 1, 5, 10, 20, 30, 50 and 80 mm/h on: a number
/// from one bound up to the next has the colour of that band, every number from
/// 80 on the last, and one below 0.1 none. Legend and map show the same.
pub proof fn rain_bands_have_their_colors(value: Single)
    ensures
        !value.nan() && value.value() < (Single { bits: 0x3DCC_CCCD }).value() ==> band_color(
            precip_scale(),
            8,
            value,
        ) is None,
        within(value, Single { bits: 0x3DCC_CCCD }, Single { bits: 0x3F80_0000 }) ==> band_color(
            precip_scale(),
            8,
            value,
        ) == Some(Rgb { r: 0xC0, g: 0xD8, b: 0xFF }),
        within(value, Single { bits: 0x3F80_0000 }, Single { bits: 0x40A0_0000 }) ==> band_color(
            precip_scale(),
            8,
            value,
        ) == Some(Rgb { r: 0x60, g: 0xA8, b: 0xFF }),
        within(value, Single { bits: 0x40A0_0000 }, Single { bits: 0x4120_0000 }) ==> band_color(
            precip_scale(),
            8,
            value,
        ) == Some(Rgb { r: 0x21, g: 0x8C, b: 0xFF }),
        within(value, Single { bits: 0x4120_0000 }, Single { bits: 0x41A0_0000 }) ==> band_color(
            precip_scale(),
            8,
            value,
        ) == Some(Rgb { r: 0x00, g: 0xC8, b: 0x00 }),
        within(value, Single { bits: 0x41A0_0000 }, Single { bits: 0x41F0_0000 }) ==> band_color(
            precip_scale(),
            8,
            value,
        ) == Some(Rgb { r: 0xFA, g: 0xF5, b: 0x00 }),
        within(value, Single { bits: 0x41F0_0000 }, Single { bits: 0x4248_0000 }) ==> band_color(
            precip_scale(),
            8,
            value,
        ) == Some(Rgb { r: 0xFF, g: 0x99, b: 0x00 }),
        within(value, Single { bits: 0x4248_0000 }, Single { bits: 0x42A0_0000 }) ==> band_color(
            precip_scale(),
            8,
            value,
        ) == Some(Rgb { r: 0xFF, g: 0x28, b: 0x28 }),
        (Single { bits: 0x42A0_0000 }).at_most(value) ==> band_color(precip_scale(), 8, value)
            == Some(Rgb { r: 0xB4, g: 0x00, b: 0xB4 }),
{
    reveal_with_fuel(band_color, 9);
    scales_ascend();
    lemma_below_higher(precip_scale(), value);
    let scale = precip_scale();
    assert(forall|k: int| 0 <= k < 8 ==> !(#[trigger] scale[k]).0.nan());
}

/// The cloud colours, from 10, 30, 60 and 85 percent on: a number from one bound
/// up to the next has the colour of that band, every number from 85 on the last,
/// and one below 10 none.
pub proof fn cloud_bands_have_their_colors(value: Single)
    ensures
        !value.nan() && value.value() < (Single { bits: 0x4120_0000 }).value() ==> band_color(
            cloud_scale(),
            4,
            value,
        ) is None,
        within(value, Single { bits: 0x4120_0000 }, Single { bits: 0x41F0_0000 }) ==> band_color(
            cloud_scale(),
            4,
            value,
        ) == Some(Rgb { r: 0xD8, g: 0xDC, b: 0xE0 }),
        within(value, Single { bits: 0x41F0_0000 }, Single { bits: 0x4270_0000 }) ==> band_color(
            cloud_scale(),
            4,
            value,
        ) == Some(Rgb { r: 0xAC, g: 0xB2, b: 0xB8 }),
        within(value, Single { bits: 0x4270_0000 }, Single { bits: 0x42AA_0000 }) ==> band_color(
            cloud_scale(),
            4,
            value,
        ) == Some(Rgb { r: 0x84, g: 0x8A, b: 0x90 }),
        (Single { bits: 0x42AA_0000 }).at_most(value) ==> band_color(cloud_scale(), 4, value)
            == Some(Rgb { r: 0x5C, g: 0x62, b: 0x68 }),
{
    reveal_with_fuel(band_color, 5);
    scales_ascend();
    lemma_below_higher(cloud_scale(), value);
    let scale = cloud_scale();
    assert(forall|k: int| 0 <= k < 4 ==> !(#[trigger] scale[k]).0.nan());
}

/// Whether `value` lies in band `k` of a scale: not below the bound of the band,
/// and below that of the next, if there is a next.
pub open spec fn in_band(scale: Seq<(Single, Rgb)>, k: int, value: Single) -> bool {
    &&& 0 <= k < scale.len()
    &&& !value.below(scale[k].0)
    &&& k + 1 < scale.len() ==> value.below(scale[k + 1].0)
}

/// On an ascending scale a value has the colour of the one band that it lies in.
pub proof fn color_is_that_of_the_band(scale: Seq<(Single, Rgb)>, value: Single, k: int)
    requires
        ascending(scale),
        in_band(scale, k, value),
    ensures
        band_color(scale, scale.len(), value) == Some(scale[k].1),
{
    lemma_below_higher(scale, value);
    lemma_band_of(scale, scale.len(), value, k);
}

proof fn lemma_band_of(scale: Seq<(Single, Rgb)>, n: nat, value: Single, k: int)
    requires
        0 <= k < n <= scale.len(),
        !value.below(scale[k].0),
        forall|j: int| k < j < scale.len() ==> value.below((#[trigger] scale[j]).0),
    ensures
        band_color(scale, n, value) == Some(scale[k].1),
    decreases n,
{
    if k < n - 1 {
        assert(value.below(scale[n - 1].0));
        lemma_band_of(scale, (n - 1) as nat, value, k);
    }
}

/// The labels of the legend name the lower bounds: from the second band on the
/// label starts with the number of millimetres per hour at which the band starts,
/// and only the last has something behind it.
pub proof fn labels_name_the_lower_bounds(i: int)
    requires
        1 <= i < 8,
    ensures
        ({
            let n: nat = if i == 1 {
                1
            } else if i == 2 {
                5
            } else if i == 3 {
                10
            } else if i == 4 {
                20
            } else if i == 5 {
                30
            } else if i == 6 {
                50
            } else {
                80
            };
            &&& precip_scale()[i].0.value() == n * pow2(149)
            &&& legend_labels()[i] == if i < 7 {
                decimal(n)
            } else {
                decimal(n) + "+"@
            }
        }),
{
    reveal_with_fuel(decimal, 3);
    reveal_strlit("1");
    reveal_strlit("5");
    reveal_strlit("10");
    reveal_strlit("20");
    reveal_strlit("30");
    reveal_strlit("50");
    reveal_strlit("80+");
    reveal_strlit("+");
    assert(legend_labels()[1] =~= decimal(1));
    assert(legend_labels()[2] =~= decimal(5));
    assert(legend_labels()[3] =~= decimal(10));
    assert(legend_labels()[4] =~= decimal(20));
    assert(legend_labels()[5] =~= decimal(30));
    assert(legend_labels()[6] =~= decimal(50));
    assert(legend_labels()[7] =~= decimal(80) + "+"@);
    vstd::arithmetic::power2::lemma2_to64();
    (Single { bits: 0x3F80_0000 }).whole(1, 127, 0, 23);
    (Single { bits: 0x40A0_0000 }).whole(5, 129, 0x20_0000, 21);
    (Single { bits: 0x4120_0000 }).whole(10, 130, 0x20_0000, 20);
    (Single { bits: 0x41A0_0000 }).whole(20, 131, 0x20_0000, 19);
    (Single { bits: 0x41F0_0000 }).whole(30, 131, 0x70_0000, 19);
    (Single { bits: 0x4248_0000 }).whole(50, 132, 0x48_0000, 18);
    (Single { bits: 0x42A0_0000 }).whole(80, 133, 0x20_0000, 17);
}

} // verus!
