//! Making one value of those of several sources: which values count, which are
//! outliers, and what the votes on the weather come to. The sums, means and
//! roots in between are the caller's.

use vstd::prelude::*;

use crate::ieee::Single;
use crate::model::{no_value, AggregatedValue, Measurement, SourceId, WeatherCode};
use crate::storage::{
    samples_new, samples_of, samples_push, samples_set, samples_slice, SampleVec, MAX_SAMPLES,
};

verus! {

/// How values are weighed and judged.
#[derive(Clone, Copy, PartialEq, Eq, Debug, Structural)]
pub struct AggParams {
    pub w_jma: Single,
    pub w_open_meteo: Single,
    pub w_owm: Single,
    /// How fast a value ages, in seconds.
    pub tau_secs: Single,
    /// From what score on a value is an outlier.
    pub z_thresh: Single,
    /// From what spread on a value is not trusted at all.
    pub cv_max: Single,
    /// How many sources are expected.
    pub n_expected: u8,
}

/// The parameters with an ageing time: weights 1, 0.9 and 0.8, threshold 3.5,
/// spread 0.2, three sources.
pub open spec fn params_with(tau_secs: Single) -> AggParams {
    AggParams {
        w_jma: Single { bits: 0x3F80_0000 },
        w_open_meteo: Single { bits: 0x3F66_6666 },
        w_owm: Single { bits: 0x3F4C_CCCD },
        tau_secs,
        z_thresh: Single { bits: 0x4060_0000 },
        cv_max: Single { bits: 0x3E4C_CCCD },
        n_expected: 3,
    }
}

impl AggParams {
    fn with_tau(tau_secs: Single) -> (p: AggParams)
        ensures
            p == params_with(tau_secs),
    {
        AggParams {
            w_jma: Single::from_bits(0x3F80_0000),
            w_open_meteo: Single::from_bits(0x3F66_6666),
            w_owm: Single::from_bits(0x3F4C_CCCD),
            tau_secs,
            z_thresh: Single::from_bits(0x4060_0000),
            cv_max: Single::from_bits(0x3E4C_CCCD),
            n_expected: 3,
        }
    }

    /// For rain, which changes fast: values age in 1800 seconds.
    pub fn for_precip() -> (p: AggParams)
        ensures
            p == params_with(Single { bits: 0x44E1_0000 }),
    {
        AggParams::with_tau(Single::from_bits(0x44E1_0000))
    }

    /// For the rest, which changes slowly: values age in 5400 seconds.
    pub fn for_slow() -> (p: AggParams)
        ensures
            p == params_with(Single { bits: 0x45A8_C000 }),
    {
        AggParams::with_tau(Single::from_bits(0x45A8_C000))
    }

    /// The weight of a source.
    pub open spec fn weight_of(self, s: SourceId) -> Single {
        match s {
            SourceId::Jma => self.w_jma,
            SourceId::OpenMeteo => self.w_open_meteo,
            SourceId::OpenWeatherMap => self.w_owm,
        }
    }

    /// The weight of a source.
    pub fn static_weight(&self, s: SourceId) -> (w: Single)
        ensures
            w == self.weight_of(s),
    {
        match s {
            SourceId::Jma => self.w_jma,
            SourceId::OpenMeteo => self.w_open_meteo,
            SourceId::OpenWeatherMap => self.w_owm,
        }
    }
}

impl Default for AggParams {
    fn default() -> (p: AggParams)
        ensures
            p == params_with(Single { bits: 0x45A8_C000 }),
    {
        AggParams::for_slow()
    }
}

/// The age of a value in seconds; 0 for one from the future.
pub open spec fn age(now: u64, observed_at: u64) -> u64 {
    if observed_at <= now {
        (now - observed_at) as u64
    } else {
        0
    }
}

/// The age of a value in seconds; 0 for one from the future.
pub fn age_secs(now: u64, observed_at: u64) -> (secs: u64)
    ensures
        secs == age(now, observed_at),
{
    now.saturating_sub(observed_at)
}

/// A value with its weight, and whether it is left out.
#[derive(Clone, Copy, PartialEq, Eq, Debug, Structural)]
pub struct WeightedSample {
    pub value: Single,
    pub weight: Single,
    pub excluded: bool,
}

/// The first samples, eight at most.
pub open spec fn first_samples(samples: Seq<WeightedSample>) -> Seq<WeightedSample> {
    if samples.len() > MAX_SAMPLES {
        samples.take(MAX_SAMPLES as int)
    } else {
        samples
    }
}

/// Measurements with their weights, as samples, eight at most.
fn collect_samples(measurements: &[Measurement], weights: &[Single]) -> (out: SampleVec)
    requires
        measurements@.len() == weights@.len(),
    ensures
        samples_of(out) == first_samples(as_samples(measurements@, weights@)),
{
    let mut out = samples_new();
    let ghost all = as_samples(measurements@, weights@);
    let mut i: usize = 0;
    while i < measurements.len()
        invariant
            i <= measurements@.len(),
            measurements@.len() == weights@.len(),
            all == as_samples(measurements@, weights@),
            samples_of(out) =~= first_samples(all.take(i as int)),
        decreases measurements@.len() - i,
    {
        samples_push(
            &mut out,
            WeightedSample { value: measurements[i].value, weight: weights[i], excluded: false },
        );
        i = i + 1;
    }
    proof {
        assert(all.take(i as int) =~= all);
    }
    out
}

/// Those of the first `n` samples that are not left out.
pub open spec fn live_from(samples: Seq<WeightedSample>, n: nat) -> Seq<WeightedSample>
    decreases n,
{
    if n == 0 {
        Seq::empty()
    } else if samples[n - 1].excluded {
        live_from(samples, (n - 1) as nat)
    } else {
        live_from(samples, (n - 1) as nat).push(samples[n - 1])
    }
}

/// The samples that are not left out.
fn live_samples(samples: &SampleVec) -> (live: Vec<WeightedSample>)
    ensures
        samples_of(*samples).len() <= MAX_SAMPLES,
        live@ == live_from(samples_of(*samples), samples_of(*samples).len()),
{
    let all = samples_slice(samples);
    let mut live: Vec<WeightedSample> = Vec::new();
    let mut i: usize = 0;
    while i < all.len()
        invariant
            i <= all@.len(),
            all@ == samples_of(*samples),
            live@ == live_from(all@, i as nat),
        decreases all@.len() - i,
    {
        if !all[i].excluded {
            live.push(all[i]);
        }
        i = i + 1;
    }
    live
}

/// Where a value goes among the first `n` of sorted values: behind those that
/// do not exceed it.
pub open spec fn slot(sorted: Seq<Single>, n: nat, v: Single) -> nat
    decreases n,
{
    if n > 0 && v.below(sorted[n - 1]) {
        slot(sorted, (n - 1) as nat, v)
    } else {
        n
    }
}

/// The first `n` values in ascending order.
pub open spec fn ascending_values(values: Seq<Single>, n: nat) -> Seq<Single>
    decreases n,
{
    if n == 0 {
        Seq::empty()
    } else {
        let before = ascending_values(values, (n - 1) as nat);
        before.insert(slot(before, before.len(), values[n - 1]) as int, values[n - 1])
    }
}

/// What stands in the middle of ascending values.
#[derive(Clone, Copy, PartialEq, Eq, Debug, Structural)]
pub enum Middle {
    /// There are no values.
    Nothing,
    /// The value in the middle.
    One(Single),
    /// The two values next to the middle, whose mean is the median.
    Two(Single, Single),
}

/// What stands in the middle of values when they are in ascending order.
pub open spec fn middle_of(values: Seq<Single>) -> Middle {
    let n = values.len();
    let sorted = ascending_values(values, n);
    if n == 0 {
        Middle::Nothing
    } else if n % 2 == 1 {
        Middle::One(sorted[n as int / 2])
    } else {
        Middle::Two(sorted[n as int / 2 - 1], sorted[n as int / 2])
    }
}

/// The values in ascending order.
fn sort_values(values: &[Single]) -> (sorted: Vec<Single>)
    ensures
        sorted@ == ascending_values(values@, values@.len()),
        sorted@.len() == values@.len(),
{
    let mut sorted: Vec<Single> = Vec::new();
    let mut i: usize = 0;
    while i < values.len()
        invariant
            i <= values@.len(),
            sorted@ == ascending_values(values@, i as nat),
            sorted@.len() == i,
        decreases values@.len() - i,
    {
        let v = values[i];
        let mut k: usize = sorted.len();
        while k > 0 && v.lt(sorted[k - 1])
            invariant
                k <= sorted@.len(),
                slot(sorted@, k as nat, v) == slot(sorted@, sorted@.len(), v),
            decreases k,
        {
            k = k - 1;
        }
        sorted.insert(k, v);
        i = i + 1;
    }
    sorted
}

/// What stands in the middle of values when they are in ascending order.
fn middle(values: &[Single]) -> (m: Middle)
    ensures
        m == middle_of(values@),
{
    let sorted = sort_values(values);
    let n: usize = values.len();
    if n == 0 {
        Middle::Nothing
    } else if n % 2 == 1 {
        Middle::One(sorted[n / 2])
    } else {
        Middle::Two(sorted[n / 2 - 1], sorted[n / 2])
    }
}

/// Whether values ascend.
pub open spec fn values_ascend(values: Seq<Single>) -> bool {
    forall|i: int, j: int|
        0 <= i <= j < values.len() ==> (#[trigger] values[i]).at_most(#[trigger] values[j])
}

proof fn lemma_slot(sorted: Seq<Single>, n: nat, v: Single)
    requires
        n <= sorted.len(),
    ensures
        slot(sorted, n, v) <= n,
        slot(sorted, n, v) > 0 ==> !v.below(sorted[slot(sorted, n, v) - 1]),
        slot(sorted, n, v) < n ==> v.below(sorted[slot(sorted, n, v) as int]),
    decreases n,
{
    if n > 0 && v.below(sorted[n - 1]) {
        lemma_slot(sorted, (n - 1) as nat, v);
    }
}

/// Ordering numbers loses none, adds none, and orders them; so half of them lie
/// on either side of the middle.
pub proof fn ordering_is_a_permutation(values: Seq<Single>, n: nat)
    requires
        n <= values.len(),
        forall|i: int| 0 <= i < n ==> !(#[trigger] values[i]).nan(),
    ensures
        ascending_values(values, n).len() == n,
        values_ascend(ascending_values(values, n)),
        ascending_values(values, n).to_multiset() == values.take(n as int).to_multiset(),
    decreases n,
{
    broadcast use vstd::seq_lib::group_to_multiset_ensures;

    if n > 0 {
        let m = (n - 1) as nat;
        ordering_is_a_permutation(values, m);
        let before = ascending_values(values, m);
        let v = values[n - 1];
        let p = slot(before, before.len(), v);
        lemma_slot(before, before.len(), v);
        let now = ascending_values(values, n);
        assert(now == before.insert(p as int, v));
        assert forall|i: int, j: int| 0 <= i <= j < now.len() implies (#[trigger] now[i]).at_most(
            #[trigger] now[j],
        ) by {
            let bi = if i < p {
                i
            } else {
                i - 1
            };
            let bj = if j < p {
                j
            } else {
                j - 1
            };
            if i != p && j != p {
                assert(before[bi].at_most(before[bj]));
            } else if i == p && j != p {
                assert(before[p as int].at_most(before[bj]));
            } else if i != p && j == p {
                assert(before[bi].at_most(before[p - 1]));
            }
        }
        vstd::seq_lib::to_multiset_insert(before, p as int, v);
        assert(values.take(n as int) =~= values.take(m as int).push(v));
    } else {
        assert(values.take(0) =~= ascending_values(values, 0));
    }
}

/// Numbers up to this, the single-precision machine epsilon, count as nothing.
pub open spec fn negligible() -> Single {
    Single { bits: 0x3400_0000 }
}

/// How deviations from the median are scaled.
#[derive(Clone, Copy, PartialEq, Eq, Debug, Structural)]
pub enum Scale {
    /// By their median.
    MedianDeviation(Single),
    /// By their mean, where the median is next to nothing.
    MeanDeviation(Single),
}

/// The scale for a median and a mean of the deviations; none where both are
/// next to nothing, and no value is an outlier.
pub open spec fn scale_for(median_dev: Single, mean_dev: Single) -> Option<Scale> {
    if negligible().below(median_dev) {
        Some(Scale::MedianDeviation(median_dev))
    } else if mean_dev.at_most(negligible()) {
        None
    } else {
        Some(Scale::MeanDeviation(mean_dev))
    }
}

/// The scale for a median and a mean of the deviations.
fn outlier_scale(median_dev: Single, mean_dev: Single) -> (scale: Option<Scale>)
    ensures
        scale == scale_for(median_dev, mean_dev),
{
    let eps = Single::from_bits(0x3400_0000);
    if eps.lt(median_dev) {
        Some(Scale::MedianDeviation(median_dev))
    } else if mean_dev.le(eps) {
        None
    } else {
        Some(Scale::MeanDeviation(mean_dev))
    }
}

/// A sample after it has been judged by its score.
pub open spec fn judged(s: WeightedSample, score: Single, z_thresh: Single) -> WeightedSample {
    WeightedSample { excluded: s.excluded || z_thresh.below(score), ..s }
}

/// How many of the first `n` samples are not left out.
pub open spec fn live_count(samples: Seq<WeightedSample>, n: nat) -> nat {
    live_from(samples, n).len()
}

/// Leaves out the samples whose score exceeds the threshold, and answers how
/// many these are.
fn exclude_above(samples: &mut SampleVec, scores: &[Single], z_thresh: Single) -> (excluded: u8)
    requires
        scores@.len() == samples_of(*old(samples)).len(),
    ensures
        samples_of(*final(samples)) == Seq::new(
            scores@.len(),
            |i: int| judged(samples_of(*old(samples))[i], scores@[i], z_thresh),
        ),
        excluded == live_count(samples_of(*old(samples)), scores@.len()) - live_count(
            samples_of(*final(samples)),
            scores@.len(),
        ),
{
    let ghost before = samples_of(*samples);
    let n: usize = samples_slice(samples).len();
    let mut excluded: u8 = 0;
    let mut i: usize = 0;
    while i < n
        invariant
            i <= n <= MAX_SAMPLES,
            n == scores@.len(),
            before == samples_of(*old(samples)),
            before.len() == n,
            samples_of(*samples).len() == n,
            forall|k: int|
                0 <= k < i ==> #[trigger] samples_of(*samples)[k] == judged(
                    before[k],
                    scores@[k],
                    z_thresh,
                ),
            forall|k: int| i <= k < n ==> #[trigger] samples_of(*samples)[k] == before[k],
            excluded <= i,
            excluded == live_count(before, i as nat) - live_count(samples_of(*samples), i as nat),
        decreases n - i,
    {
        let ghost now = samples_of(*samples);
        let s = samples_slice(samples)[i];
        if !s.excluded && z_thresh.lt(scores[i]) {
            samples_set(samples, i, WeightedSample { excluded: true, ..s });
            excluded = excluded + 1;
        }
        proof {
            lemma_live_prefix(now, samples_of(*samples), i as nat);
        }
        i = i + 1;
    }
    proof {
        assert(samples_of(*samples) =~= Seq::new(
            scores@.len(),
            |i: int| judged(samples_of(*old(samples))[i], scores@[i], z_thresh),
        ));
    }
    excluded
}

/// Which samples are live depends on these samples alone.
proof fn lemma_live_prefix(a: Seq<WeightedSample>, b: Seq<WeightedSample>, n: nat)
    requires
        n <= a.len(),
        n <= b.len(),
        forall|k: int| 0 <= k < n ==> a[k] == b[k],
    ensures
        live_from(a, n) == live_from(b, n),
    decreases n,
{
    if n > 0 {
        lemma_live_prefix(a, b, (n - 1) as nat);
    }
}

/// Judging leaves samples out, and does nothing else to them: none comes back,
/// and values and weights stay.
pub proof fn judging_only_excludes(
    before: Seq<WeightedSample>,
    scores: Seq<Single>,
    z_thresh: Single,
)
    requires
        scores.len() == before.len(),
    ensures
        ({
            let after = Seq::new(scores.len(), |i: int| judged(before[i], scores[i], z_thresh));
            &&& live_count(after, before.len()) <= live_count(before, before.len())
            &&& forall|i: int|
                0 <= i < before.len() ==> (#[trigger] after[i]).value == before[i].value
                    && after[i].weight == before[i].weight
        }),
{
    let after = Seq::new(scores.len(), |i: int| judged(before[i], scores[i], z_thresh));
    lemma_fewer_live(before, after, before.len());
}

proof fn lemma_fewer_live(before: Seq<WeightedSample>, after: Seq<WeightedSample>, n: nat)
    requires
        n <= before.len() == after.len(),
        forall|i: int| 0 <= i < n && before[i].excluded ==> (#[trigger] after[i]).excluded,
    ensures
        live_count(after, n) <= live_count(before, n),
    decreases n,
{
    if n > 0 {
        lemma_fewer_live(before, after, (n - 1) as nat);
    }
}

/// Whether weights add up to something.
fn weights_usable(weight_sum: Single, n: usize) -> (usable: bool)
    ensures
        usable == (!weight_sum.at_most(negligible()) && n > 0),
{
    !weight_sum.le(Single::from_bits(0x3400_0000)) && n > 0
}

/// The arithmetic that outliers are found with.
pub struct OutlierMath<M, D, A, Z> {
    /// The mean of two values.
    pub mean_of_two: M,
    /// The distance of a value from the median.
    pub distance: D,
    /// The mean of values.
    pub mean: A,
    /// The score of a distance on a scale.
    pub score: Z,
}

impl<
    M: Fn(Single, Single) -> Single,
    D: Fn(Single, Single) -> Single,
    A: Fn(Vec<Single>) -> Single,
    Z: Fn(Single, Scale) -> Single,
> OutlierMath<M, D, A, Z> {
    /// Whether the arithmetic has a result for any values.
    pub open spec fn total(self) -> bool {
        &&& forall|a: Single, b: Single| #[trigger] self.mean_of_two.requires((a, b))
        &&& forall|a: Single, b: Single| #[trigger] self.distance.requires((a, b))
        &&& forall|list: Vec<Single>| #[trigger] self.mean.requires((list,))
        &&& forall|d: Single, scale: Scale| #[trigger] self.score.requires((d, scale))
    }

    /// Whether the arithmetic gives one result for the same values.
    pub open spec fn definite(self) -> bool {
        &&& forall|a: Single, b: Single, r: Single, s: Single| #[trigger]
            self.mean_of_two.ensures((a, b), r) && #[trigger] self.mean_of_two.ensures((a, b), s)
                ==> r == s
        &&& forall|a: Single, b: Single, r: Single, s: Single| #[trigger]
            self.distance.ensures((a, b), r) && #[trigger] self.distance.ensures((a, b), s) ==> r
                == s
        &&& forall|k: Vec<Single>, l: Vec<Single>, r: Single, s: Single|
            k@ == l@ && #[trigger] self.mean.ensures((k,), r) && #[trigger] self.mean.ensures(
                (l,),
                s,
            ) ==> r == s
        &&& forall|d: Single, scale: Scale, r: Single, s: Single| #[trigger]
            self.score.ensures((d, scale), r) && #[trigger] self.score.ensures((d, scale), s) ==> r
                == s
    }

    /// Whether `m` is the median of the values: the one in the middle, or the
    /// mean of the two next to it.
    pub open spec fn is_median(self, values: Seq<Single>, m: Single) -> bool {
        match middle_of(values) {
            Middle::Nothing => m == Single { bits: 0x7FC0_0000 },
            Middle::One(v) => m == v,
            Middle::Two(a, b) => self.mean_of_two.ensures((a, b), m),
        }
    }

    /// Whether the distances are those of the values from `m`.
    pub open spec fn are_distances(self, values: Seq<Single>, m: Single, distances: Seq<Single>) -> bool {
        distances.len() == values.len() && forall|i: int|
            0 <= i < values.len() ==> self.distance.ensures(
                (#[trigger] values[i], m),
                distances[i],
            )
    }

    /// Whether `d` is the mean of the distances.
    pub open spec fn is_mean(self, distances: Seq<Single>, d: Single) -> bool {
        exists|list: Vec<Single>| list@ == distances && #[trigger] self.mean.ensures((list,), d)
    }

    /// Whether each score is that of a sample's distance from `m`.
    pub open spec fn are_scores(
        self,
        samples: Seq<WeightedSample>,
        m: Single,
        scale: Scale,
        scores: Seq<Single>,
    ) -> bool {
        scores.len() == samples.len() && forall|i: int|
            0 <= i < samples.len() ==> self.is_score(#[trigger] samples[i], m, scale, scores[i])
    }

    /// Whether a score is that of a sample's distance from `m`.
    pub open spec fn is_score(self, s: WeightedSample, m: Single, scale: Scale, score: Single) -> bool {
        exists|d: Single|
            self.distance.ensures((s.value, m), d) && #[trigger] self.score.ensures((d, scale), score)
    }

    /// Whether `after` is what finding outliers in `before` leaves, with the
    /// numbers given on the way: nothing changes among fewer than three live
    /// samples, or where no deviation is to speak of; otherwise each sample is
    /// judged by its score. Distances are taken in the order of the values, from
    /// the smallest on.
    pub open spec fn finds(
        self,
        before: Seq<WeightedSample>,
        after: Seq<WeightedSample>,
        z_thresh: Single,
        median: Single,
        distances: Seq<Single>,
        median_dev: Single,
        mean_dev: Single,
        scores: Seq<Single>,
    ) -> bool {
        let values = values_in(live_from(before, before.len()));
        if values.len() < 3 {
            after == before
        } else {
            &&& self.is_median(values, median)
            &&& self.are_distances(
                ascending_values(values, values.len()),
                median,
                distances,
            )
            &&& self.is_median(distances, median_dev)
            &&& self.is_mean(distances, mean_dev)
            &&& match scale_for(median_dev, mean_dev) {
                None => after == before,
                Some(scale) => {
                    &&& self.are_scores(before, median, scale, scores)
                    &&& after == Seq::new(
                        before.len(),
                        |i: int| judged(before[i], scores[i], z_thresh),
                    )
                },
            }
        }
    }

    /// Whether `after` is what finding outliers in `before` leaves.
    pub open spec fn found(
        self,
        before: Seq<WeightedSample>,
        after: Seq<WeightedSample>,
        z_thresh: Single,
    ) -> bool {
        exists|
            median: Single,
            distances: Seq<Single>,
            median_dev: Single,
            mean_dev: Single,
            scores: Seq<Single>,
        | #[trigger]
            self.finds(
                before,
                after,
                z_thresh,
                median,
                distances,
                median_dev,
                mean_dev,
                scores,
            )
    }

    /// The median of values.
    fn median_of(&self, values: &[Single]) -> (m: Single)
        requires
            self.total(),
        ensures
            self.is_median(values@, m),
    {
        match middle(values) {
            Middle::Nothing => Single::from_bits(0x7FC0_0000),
            Middle::One(v) => v,
            Middle::Two(a, b) => (self.mean_of_two)(a, b),
        }
    }

    /// The scores of samples.
    fn scores_of(&self, samples: &[WeightedSample], median: Single, scale: Scale) -> (scores: Vec<
        Single,
    >)
        requires
            self.total(),
        ensures
            self.are_scores(samples@, median, scale, scores@),
    {
        let mut scores: Vec<Single> = Vec::new();
        let mut i: usize = 0;
        while i < samples.len()
            invariant
                self.total(),
                i <= samples@.len(),
                scores@.len() == i,
                forall|k: int|
                    0 <= k < i ==> self.is_score(#[trigger] samples@[k], median, scale, scores@[k]),
            decreases samples@.len() - i,
        {
            let d = (self.distance)(samples[i].value, median);
            scores.push((self.score)(d, scale));
            i = i + 1;
        }
        scores
    }
}

/// The values of samples.
pub open spec fn values_in(samples: Seq<WeightedSample>) -> Seq<Single> {
    samples.map_values(|s: WeightedSample| s.value)
}

/// The values of the samples that are not left out.
fn live_values(samples: &SampleVec) -> (values: Vec<Single>)
    ensures
        values@ == values_in(live_from(samples_of(*samples), samples_of(*samples).len())),
{
    let live = live_samples(samples);
    let mut values: Vec<Single> = Vec::new();
    let mut i: usize = 0;
    while i < live.len()
        invariant
            i <= live@.len(),
            values@ =~= values_in(live@.take(i as int)),
        decreases live@.len() - i,
    {
        values.push(live[i].value);
        proof {
            assert(live@.take(i + 1) =~= live@.take(i as int).push(live@[i as int]));
        }
        i = i + 1;
    }
    proof {
        assert(live@.take(i as int) =~= live@);
    }
    values
}

/// Leaves out the outliers among samples, and answers how many these are.
///
/// A value is an outlier when its distance from the median, on the scale of the
/// median distance, scores above the threshold. Where most values are equal and
/// the median distance is next to nothing, the mean distance is the scale.
pub fn mark_outliers<
    M: Fn(Single, Single) -> Single,
    D: Fn(Single, Single) -> Single,
    A: Fn(Vec<Single>) -> Single,
    Z: Fn(Single, Scale) -> Single,
>(samples: &mut SampleVec, z_thresh: Single, math: &OutlierMath<M, D, A, Z>) -> (excluded: u8)
    requires
        math.total(),
    ensures
        math.found(samples_of(*old(samples)), samples_of(*final(samples)), z_thresh),
        samples_of(*final(samples)).len() == samples_of(*old(samples)).len(),
        excluded == live_count(
            samples_of(*old(samples)),
            samples_of(*old(samples)).len(),
        ) - live_count(samples_of(*final(samples)), samples_of(*old(samples)).len()),
{
    let ghost before = samples_of(*samples);
    let values = live_values(samples);
    let ghost nothing = Single { bits: 0 };
    if values.len() < 3 {
        proof {
            assert(math.finds(
                before,
                before,
                z_thresh,
                nothing,
                Seq::empty(),
                nothing,
                nothing,
                Seq::empty(),
            ));
        }
        return 0;
    }
    let median = math.median_of(values.as_slice());
    let sorted = sort_values(values.as_slice());
    let mut distances: Vec<Single> = Vec::new();
    let mut i: usize = 0;
    while i < sorted.len()
        invariant
            math.total(),
            i <= sorted@.len(),
            distances@.len() == i,
            forall|k: int|
                0 <= k < i ==> math.distance.ensures((#[trigger] sorted@[k], median), distances@[k]),
        decreases sorted@.len() - i,
    {
        distances.push((math.distance)(sorted[i], median));
        i = i + 1;
    }
    let ghost dist = distances@;
    let median_dev = math.median_of(distances.as_slice());
    let mean_dev = (math.mean)(distances);
    match outlier_scale(median_dev, mean_dev) {
        None => {
            proof {
                assert(math.finds(
                    before,
                    before,
                    z_thresh,
                    median,
                    dist,
                    median_dev,
                    mean_dev,
                    Seq::empty(),
                ));
            }
            0
        },
        Some(scale) => {
            let scores = math.scores_of(samples_slice(samples), median, scale);
            let excluded: u8 = exclude_above(samples, scores.as_slice(), z_thresh);
            proof {
                assert(math.finds(
                    before,
                    samples_of(*samples),
                    z_thresh,
                    median,
                    dist,
                    median_dev,
                    mean_dev,
                    scores@,
                ));
            }
            excluded
        },
    }
}

/// Sums over samples: of their weights, their weighted mean and their weighted
/// standard deviation.
#[derive(Clone, Copy, PartialEq, Eq, Debug, Structural)]
pub struct Spread {
    pub weight_sum: Single,
    pub mean: Single,
    pub std: Single,
}

/// What sums over samples say: mean, standard deviation and number of samples;
/// no number, 0 and 0 where the weights add up to nothing.
pub open spec fn stats_of(live: Seq<WeightedSample>, sums: Spread) -> (Single, Single, int) {
    if sums.weight_sum.at_most(negligible()) || live.len() == 0 {
        (Single { bits: 0x7FC0_0000 }, Single { bits: 0 }, 0)
    } else {
        (sums.mean, sums.std, live.len() as int)
    }
}

/// Mean, standard deviation and number of the samples that are not left out.
pub fn weighted_stats<S: Fn(Vec<WeightedSample>) -> Spread>(samples: &SampleVec, sum: &S) -> (r: (
    Single,
    Single,
    u8,
))
    requires
        forall|list: Vec<WeightedSample>| #[trigger] sum.requires((list,)),
    ensures
        exists|list: Vec<WeightedSample>, sums: Spread|
            list@ == live_from(samples_of(*samples), samples_of(*samples).len())
                && #[trigger] sum.ensures((list,), sums) && (r.0, r.1, r.2 as int) == stats_of(
                list@,
                sums,
            ),
        r.2 <= MAX_SAMPLES,
{
    let live = live_samples(samples);
    proof {
        lemma_live_len(samples_of(*samples), samples_of(*samples).len());
    }
    let n: usize = live.len();
    let sums = sum(live);
    if weights_usable(sums.weight_sum, n) {
        (sums.mean, sums.std, n as u8)
    } else {
        (Single::from_bits(0x7FC0_0000), Single::from_bits(0), 0)
    }
}

proof fn lemma_live_len(samples: Seq<WeightedSample>, n: nat)
    ensures
        live_from(samples, n).len() <= n,
    decreases n,
{
    if n > 0 {
        lemma_live_len(samples, (n - 1) as nat);
    }
}

/// The arithmetic that a value is made with.
pub struct ValueMath<W, S, C> {
    /// The weight of a value, for the weight of its source, its age in seconds
    /// and the time in which values age.
    pub weight: W,
    /// The sums over samples.
    pub sum: S,
    /// Spread and confidence for a value and its standard deviation, the
    /// number of samples used and the number left out.
    pub confidence: C,
}

impl<
    W: Fn(Single, u64, Single) -> Single,
    S: Fn(Vec<WeightedSample>) -> Spread,
    C: Fn(Single, Single, u8, u8, AggParams) -> (Single, Single),
> ValueMath<W, S, C> {
    /// Whether the arithmetic has a result for any values.
    pub open spec fn total(self) -> bool {
        &&& forall|w: Single, age: u64, tau: Single| #[trigger]
            self.weight.requires((w, age, tau))
        &&& forall|list: Vec<WeightedSample>| #[trigger] self.sum.requires((list,))
        &&& forall|a: Single, b: Single, n: u8, x: u8, p: AggParams| #[trigger]
            self.confidence.requires((a, b, n, x, p))
    }

    /// Whether the arithmetic gives one result for the same values.
    pub open spec fn definite(self) -> bool {
        &&& forall|w: Single, age: u64, tau: Single, r: Single, s: Single| #[trigger]
            self.weight.ensures((w, age, tau), r) && #[trigger] self.weight.ensures(
                (w, age, tau),
                s,
            ) ==> r == s
        &&& forall|k: Vec<WeightedSample>, l: Vec<WeightedSample>, r: Spread, s: Spread|
            k@ == l@ && #[trigger] self.sum.ensures((k,), r) && #[trigger] self.sum.ensures(
                (l,),
                s,
            ) ==> r == s
        &&& forall|
            a: Single,
            b: Single,
            n: u8,
            x: u8,
            p: AggParams,
            r: (Single, Single),
            s: (Single, Single),
        | #[trigger]
            self.confidence.ensures((a, b, n, x, p), r) && #[trigger] self.confidence.ensures(
                (a, b, n, x, p),
                s,
            ) ==> r == s
    }
}

/// Whether `s` is what `sum` says of the samples that are not left out.
pub open spec fn summed<S: Fn(Vec<WeightedSample>) -> Spread>(
    sum: S,
    samples: Seq<WeightedSample>,
    s: (Single, Single, int),
) -> bool {
    exists|list: Vec<WeightedSample>, sums: Spread|
        list@ == live_from(samples, samples.len()) && #[trigger] sum.ensures((list,), sums) && s
            == stats_of(list@, sums)
}

/// The mean that stands: of the samples used, or of all where that is no finite
/// number.
pub open spec fn settled(mean_all: Single, mean_used: Single) -> Single {
    if mean_used.finite() {
        mean_used
    } else {
        mean_all
    }
}

/// Whether `v` is what is made of samples, with the numbers given on the way.
/// `all` and `used` are mean, standard deviation and number of the samples
/// before and after outliers have been left out.
pub open spec fn value_made<
    S: Fn(Vec<WeightedSample>) -> Spread,
    C: Fn(Single, Single, u8, u8, AggParams) -> (Single, Single),
    M: Fn(Single, Single) -> Single,
    D: Fn(Single, Single) -> Single,
    A: Fn(Vec<Single>) -> Single,
    Z: Fn(Single, Scale) -> Single,
>(
    sum: S,
    confidence: C,
    outliers: OutlierMath<M, D, A, Z>,
    params: AggParams,
    samples: Seq<WeightedSample>,
    judged_samples: Seq<WeightedSample>,
    all: (Single, Single, int),
    used: (Single, Single, int),
    v: AggregatedValue,
) -> bool {
    &&& summed(sum, samples, all)
    &&& if !all.0.finite() {
        v == no_value()
    } else {
        &&& outliers.found(samples, judged_samples, params.z_thresh)
        &&& judged_samples.len() == samples.len()
        &&& summed(sum, judged_samples, used)
        &&& v.value == settled(all.0, used.0)
        &&& v.n_used == used.2
        &&& v.n_excluded == live_count(samples, samples.len()) - live_count(
            judged_samples,
            samples.len(),
        )
        &&& confidence.ensures(
            (v.value, used.1, v.n_used, v.n_excluded, params),
            (v.cv, v.confidence),
        )
    }
}

/// Whether `v` is what is made of measurements, where `weights` holds the
/// weights of those that are finite numbers: nothing without samples, and
/// otherwise what the rules make of them.
pub open spec fn value_weighed<
    W: Fn(Single, u64, Single) -> Single,
    S: Fn(Vec<WeightedSample>) -> Spread,
    C: Fn(Single, Single, u8, u8, AggParams) -> (Single, Single),
    M: Fn(Single, Single) -> Single,
    D: Fn(Single, Single) -> Single,
    A: Fn(Vec<Single>) -> Single,
    Z: Fn(Single, Scale) -> Single,
>(
    finite: Seq<Measurement>,
    weights: Seq<Single>,
    params: AggParams,
    math: ValueMath<W, S, C>,
    outliers: OutlierMath<M, D, A, Z>,
    v: AggregatedValue,
) -> bool {
    let samples = first_samples(as_samples(finite, weights));
    if samples.len() == 0 {
        v == no_value()
    } else {
        &&& v.n_used > 0 ==> v.n_used + v.n_excluded == samples.len()
        &&& exists|
            judged_samples: Seq<WeightedSample>,
            all: (Single, Single, int),
            used: (Single, Single, int),
        | #[trigger]
            value_made(
                math.sum,
                math.confidence,
                outliers,
                params,
                samples,
                judged_samples,
                all,
                used,
                v,
            )
    }
}

/// Whether `v` is the value of a quantity, made of measurements at a time.
/// Measurements that are no finite number do not count.
pub open spec fn aggregated<
    W: Fn(Single, u64, Single) -> Single,
    S: Fn(Vec<WeightedSample>) -> Spread,
    C: Fn(Single, Single, u8, u8, AggParams) -> (Single, Single),
    M: Fn(Single, Single) -> Single,
    D: Fn(Single, Single) -> Single,
    A: Fn(Vec<Single>) -> Single,
    Z: Fn(Single, Scale) -> Single,
>(
    measurements: Seq<Measurement>,
    now: u64,
    params: AggParams,
    math: ValueMath<W, S, C>,
    outliers: OutlierMath<M, D, A, Z>,
    v: AggregatedValue,
) -> bool {
    let finite = finite_from(measurements, measurements.len());
    exists|weights: Seq<Single>| #[trigger]
        weighed(math.weight, finite, now, params, weights) && value_weighed(
            finite,
            weights,
            params,
            math,
            outliers,
            v,
        )
}

/// The value of a quantity, made of measurements.
///
/// Measurements that are no finite number do not count. Outliers are left out
/// of the mean; those used and those left out are all samples. The arithmetic
/// is the caller's.
pub fn aggregate<
    W: Fn(Single, u64, Single) -> Single,
    S: Fn(Vec<WeightedSample>) -> Spread,
    C: Fn(Single, Single, u8, u8, AggParams) -> (Single, Single),
    M: Fn(Single, Single) -> Single,
    D: Fn(Single, Single) -> Single,
    A: Fn(Vec<Single>) -> Single,
    Z: Fn(Single, Scale) -> Single,
>(
    measurements: &[Measurement],
    now: u64,
    params: &AggParams,
    math: &ValueMath<W, S, C>,
    outliers: &OutlierMath<M, D, A, Z>,
) -> (v: AggregatedValue)
    requires
        outliers.total(),
        math.total(),
    ensures
        aggregated(measurements@, now, *params, *math, *outliers, v),
{
    let finite = finite_measurements(measurements);
    let weights = weigh_all(finite.as_slice(), now, params, &math.weight);
    let mut samples = collect_samples(finite.as_slice(), weights.as_slice());
    let ghost before = samples_of(samples);
    if samples_slice(&samples).len() == 0 {
        let v = AggregatedValue::default();
        proof {
            assert(value_weighed(finite@, weights@, *params, *math, *outliers, v));
        }
        return v;
    }
    let (mean1, std1, n1) = weighted_stats(&samples, &math.sum);
    let ghost all = (mean1, std1, n1 as int);
    proof {
        assert(summed(math.sum, before, all));
    }
    if !mean1.is_finite() {
        let v = AggregatedValue::default();
        proof {
            assert(value_made(
                math.sum,
                math.confidence,
                *outliers,
                *params,
                before,
                before,
                all,
                all,
                v,
            ));
            assert(value_weighed(finite@, weights@, *params, *math, *outliers, v));
        }
        return v;
    }
    let n_excluded: u8 = mark_outliers(&mut samples, params.z_thresh, outliers);
    let ghost after = samples_of(samples);
    let (mean2, std2, n_used) = weighted_stats(&samples, &math.sum);
    let ghost used = (mean2, std2, n_used as int);
    let value = if mean2.is_finite() { mean2 } else { mean1 };
    let (cv, confidence) = (math.confidence)(value, std2, n_used, n_excluded, *params);
    let v = AggregatedValue { value, cv, confidence, n_used, n_excluded };
    proof {
        lemma_all_live(before, before.len());
        assert(summed(math.sum, after, used));
        assert(value_made(
            math.sum,
            math.confidence,
            *outliers,
            *params,
            before,
            after,
            all,
            used,
            v,
        ));
        assert(value_weighed(finite@, weights@, *params, *math, *outliers, v));
    }
    v
}

/// What is no number does not count: of two lists of measurements that hold the
/// same finite ones in the same order, the same values can be made; and of a
/// list without finite ones nothing is made.
pub proof fn numbers_alone_count<
    W: Fn(Single, u64, Single) -> Single,
    S: Fn(Vec<WeightedSample>) -> Spread,
    C: Fn(Single, Single, u8, u8, AggParams) -> (Single, Single),
    M: Fn(Single, Single) -> Single,
    D: Fn(Single, Single) -> Single,
    A: Fn(Vec<Single>) -> Single,
    Z: Fn(Single, Scale) -> Single,
>(
    a: Seq<Measurement>,
    b: Seq<Measurement>,
    now: u64,
    params: AggParams,
    math: ValueMath<W, S, C>,
    outliers: OutlierMath<M, D, A, Z>,
    v: AggregatedValue,
)
    requires
        finite_from(a, a.len()) == finite_from(b, b.len()),
    ensures
        aggregated(a, now, params, math, outliers, v) == aggregated(
            b,
            now,
            params,
            math,
            outliers,
            v,
        ),
        (forall|i: int| 0 <= i < a.len() ==> !(#[trigger] a[i]).value.finite()) && aggregated(
            a,
            now,
            params,
            math,
            outliers,
            v,
        ) ==> v == no_value(),
{
    if forall|i: int| 0 <= i < a.len() ==> !(#[trigger] a[i]).value.finite() {
        lemma_none_finite(a, a.len());
    }
}

/// Whether `b` is `a` with measurements that are no finite numbers put in, any
/// number of them, anywhere.
pub open spec fn padded_with_no_numbers(a: Seq<Measurement>, b: Seq<Measurement>) -> bool
    decreases b.len(),
{
    if b.len() == 0 {
        a.len() == 0
    } else {
        ||| a.len() > 0 && a.last() == b.last() && padded_with_no_numbers(
            a.drop_last(),
            b.drop_last(),
        )
        ||| !b.last().value.finite() && padded_with_no_numbers(a, b.drop_last())
    }
}

/// Putting in what is no finite number keeps the finite ones, in order.
pub proof fn padding_keeps_the_numbers(a: Seq<Measurement>, b: Seq<Measurement>)
    requires
        padded_with_no_numbers(a, b),
    ensures
        finite_from(a, a.len()) == finite_from(b, b.len()),
    decreases b.len(),
{
    if b.len() > 0 {
        let short_b = b.drop_last();
        lemma_finite_prefix(b, short_b, short_b.len());
        if a.len() > 0 && a.last() == b.last() && padded_with_no_numbers(a.drop_last(), short_b) {
            padding_keeps_the_numbers(a.drop_last(), short_b);
            lemma_finite_prefix(a, a.drop_last(), a.drop_last().len());
        } else {
            padding_keeps_the_numbers(a, short_b);
        }
    }
}

proof fn lemma_finite_prefix(longer: Seq<Measurement>, list: Seq<Measurement>, n: nat)
    requires
        n <= list.len(),
        n <= longer.len(),
        forall|i: int| 0 <= i < n ==> longer[i] == list[i],
    ensures
        finite_from(longer, n) == finite_from(list, n),
    decreases n,
{
    if n > 0 {
        lemma_finite_prefix(longer, list, (n - 1) as nat);
    }
}

/// What is no number changes nothing: with measurements that are no finite
/// numbers put in, any number of them, anywhere, the value made is the same in
/// every field, where the arithmetic gives one result for the same numbers.
pub proof fn no_numbers_change_nothing<
    W: Fn(Single, u64, Single) -> Single,
    S: Fn(Vec<WeightedSample>) -> Spread,
    C: Fn(Single, Single, u8, u8, AggParams) -> (Single, Single),
    M: Fn(Single, Single) -> Single,
    D: Fn(Single, Single) -> Single,
    A: Fn(Vec<Single>) -> Single,
    Z: Fn(Single, Scale) -> Single,
>(
    a: Seq<Measurement>,
    b: Seq<Measurement>,
    now: u64,
    params: AggParams,
    math: ValueMath<W, S, C>,
    outliers: OutlierMath<M, D, A, Z>,
    v: AggregatedValue,
    w: AggregatedValue,
)
    requires
        padded_with_no_numbers(a, b),
        math.definite(),
        outliers.definite(),
        aggregated(a, now, params, math, outliers, v),
        aggregated(b, now, params, math, outliers, w),
    ensures
        v == w,
{
    padding_keeps_the_numbers(a, b);
    let finite = finite_from(a, a.len());
    let wa = choose|weights: Seq<Single>| #[trigger]
        weighed(math.weight, finite, now, params, weights) && value_weighed(
            finite,
            weights,
            params,
            math,
            outliers,
            v,
        );
    let wb = choose|weights: Seq<Single>| #[trigger]
        weighed(math.weight, finite, now, params, weights) && value_weighed(
            finite,
            weights,
            params,
            math,
            outliers,
            w,
        );
    assert forall|i: int| 0 <= i < wa.len() implies #[trigger] wa[i] == wb[i] by {
        assert(is_weight(math.weight, finite[i], now, params, wa[i]));
        assert(is_weight(math.weight, finite[i], now, params, wb[i]));
    }
    assert(wa =~= wb);
    let samples = first_samples(as_samples(finite, wa));
    if samples.len() > 0 {
        let (ja, alla, ua) = choose|
            j: Seq<WeightedSample>,
            all: (Single, Single, int),
            used: (Single, Single, int),
        | #[trigger]
            value_made(math.sum, math.confidence, outliers, params, samples, j, all, used, v);
        let (jb, allb, ub) = choose|
            j: Seq<WeightedSample>,
            all: (Single, Single, int),
            used: (Single, Single, int),
        | #[trigger]
            value_made(math.sum, math.confidence, outliers, params, samples, j, all, used, w);
        lemma_one_sum(math, samples, alla, allb);
        if alla.0.finite() {
            lemma_one_judgement(outliers, samples, ja, jb, params.z_thresh);
            lemma_one_sum(math, ja, ua, ub);
            assert((v.cv, v.confidence) == (w.cv, w.confidence));
        }
    }
}

proof fn lemma_one_sum<
    W: Fn(Single, u64, Single) -> Single,
    S: Fn(Vec<WeightedSample>) -> Spread,
    C: Fn(Single, Single, u8, u8, AggParams) -> (Single, Single),
>(
    math: ValueMath<W, S, C>,
    samples: Seq<WeightedSample>,
    x: (Single, Single, int),
    y: (Single, Single, int),
)
    requires
        math.definite(),
        summed(math.sum, samples, x),
        summed(math.sum, samples, y),
    ensures
        x == y,
{
}

proof fn lemma_one_judgement<
    M: Fn(Single, Single) -> Single,
    D: Fn(Single, Single) -> Single,
    A: Fn(Vec<Single>) -> Single,
    Z: Fn(Single, Scale) -> Single,
>(
    outliers: OutlierMath<M, D, A, Z>,
    before: Seq<WeightedSample>,
    x: Seq<WeightedSample>,
    y: Seq<WeightedSample>,
    z_thresh: Single,
)
    requires
        outliers.definite(),
        outliers.found(before, x, z_thresh),
        outliers.found(before, y, z_thresh),
    ensures
        x == y,
{
    let (m1, d1, md1, mn1, s1) = choose|
        median: Single,
        distances: Seq<Single>,
        median_dev: Single,
        mean_dev: Single,
        scores: Seq<Single>,
    | #[trigger]
        outliers.finds(
            before,
            x,
            z_thresh,
            median,
            distances,
            median_dev,
            mean_dev,
            scores,
        );
    let (m2, d2, md2, mn2, s2) = choose|
        median: Single,
        distances: Seq<Single>,
        median_dev: Single,
        mean_dev: Single,
        scores: Seq<Single>,
    | #[trigger]
        outliers.finds(
            before,
            y,
            z_thresh,
            median,
            distances,
            median_dev,
            mean_dev,
            scores,
        );
    let values = values_in(live_from(before, before.len()));
    if values.len() >= 3 {
        let sorted = ascending_values(values, values.len());
        assert(m1 == m2);
        assert forall|i: int| 0 <= i < d1.len() implies #[trigger] d1[i] == d2[i] by {
            assert(outliers.distance.ensures((sorted[i], m1), d1[i]));
            assert(outliers.distance.ensures((sorted[i], m1), d2[i]));
        }
        assert(d1 =~= d2);
        assert(md1 == md2);
        assert(mn1 == mn2);
        if let Some(scale) = scale_for(md1, mn1) {
            assert forall|i: int| 0 <= i < s1.len() implies #[trigger] s1[i] == s2[i] by {
                assert(outliers.is_score(before[i], m1, scale, s1[i]));
                assert(outliers.is_score(before[i], m1, scale, s2[i]));
            }
            assert(s1 =~= s2);
        }
    }
}

proof fn lemma_none_finite(measurements: Seq<Measurement>, n: nat)
    requires
        n <= measurements.len(),
        forall|i: int| 0 <= i < measurements.len() ==> !(#[trigger] measurements[i]).value.finite(),
    ensures
        finite_from(measurements, n).len() == 0,
    decreases n,
{
    if n > 0 {
        lemma_none_finite(measurements, (n - 1) as nat);
    }
}

/// Samples of which none is left out are all live.
proof fn lemma_all_live(samples: Seq<WeightedSample>, n: nat)
    requires
        n <= samples.len(),
        forall|i: int| 0 <= i < samples.len() ==> !(#[trigger] samples[i]).excluded,
    ensures
        live_from(samples, n).len() == n,
    decreases n,
{
    if n > 0 {
        lemma_all_live(samples, (n - 1) as nat);
    }
}

/// Whether `w` is the weight of a measurement.
pub open spec fn is_weight<W: Fn(Single, u64, Single) -> Single>(
    weight: W,
    m: Measurement,
    now: u64,
    params: AggParams,
    w: Single,
) -> bool {
    weight.ensures((params.weight_of(m.source), age(now, m.observed_at), params.tau_secs), w)
}

/// Whether each weight is that of its measurement.
pub open spec fn weighed<W: Fn(Single, u64, Single) -> Single>(
    weight: W,
    measurements: Seq<Measurement>,
    now: u64,
    params: AggParams,
    weights: Seq<Single>,
) -> bool {
    weights.len() == measurements.len() && forall|i: int|
        0 <= i < measurements.len() ==> is_weight(
            weight,
            #[trigger] measurements[i],
            now,
            params,
            weights[i],
        )
}

/// The weights of measurements.
fn weigh_all<W: Fn(Single, u64, Single) -> Single>(
    measurements: &[Measurement],
    now: u64,
    params: &AggParams,
    weight: &W,
) -> (weights: Vec<Single>)
    requires
        forall|w: Single, age: u64, tau: Single| #[trigger] weight.requires((w, age, tau)),
    ensures
        weighed(*weight, measurements@, now, *params, weights@),
{
    let mut weights: Vec<Single> = Vec::new();
    let mut i: usize = 0;
    while i < measurements.len()
        invariant
            i <= measurements@.len(),
            weights@.len() == i,
            forall|w: Single, age: u64, tau: Single| #[trigger] weight.requires((w, age, tau)),
            forall|k: int|
                0 <= k < i ==> is_weight(
                    *weight,
                    #[trigger] measurements@[k],
                    now,
                    *params,
                    weights@[k],
                ),
        decreases measurements@.len() - i,
    {
        let m = measurements[i];
        let w = params.static_weight(m.source);
        weights.push(weight(w, age_secs(now, m.observed_at), params.tau_secs));
        i = i + 1;
    }
    weights
}

/// Those of the first `n` measurements whose value is finite.
pub open spec fn finite_from(measurements: Seq<Measurement>, n: nat) -> Seq<Measurement>
    decreases n,
{
    if n == 0 {
        Seq::empty()
    } else if measurements[n - 1].value.finite() {
        finite_from(measurements, (n - 1) as nat).push(measurements[n - 1])
    } else {
        finite_from(measurements, (n - 1) as nat)
    }
}

/// The measurements whose value is finite.
fn finite_measurements(measurements: &[Measurement]) -> (out: Vec<Measurement>)
    ensures
        out@ == finite_from(measurements@, measurements@.len()),
{
    let mut out: Vec<Measurement> = Vec::new();
    let mut i: usize = 0;
    while i < measurements.len()
        invariant
            i <= measurements@.len(),
            out@ == finite_from(measurements@, i as nat),
        decreases measurements@.len() - i,
    {
        if measurements[i].value.is_finite() {
            out.push(measurements[i]);
        }
        i = i + 1;
    }
    out
}

/// Where the wind comes from, made of several sources.
#[derive(Clone, Copy, PartialEq, Eq, Debug, Structural)]
pub struct WindDirResult {
    /// Degrees clockwise from north; no number where there is none.
    pub dir_deg: Single,
    /// How far the sources agree, from 0 to 1.
    pub concentration: Single,
    pub n_used: u8,
}

/// Sums over wind directions: of their weights, and direction and length of
/// their weighted mean, as vectors.
#[derive(Clone, Copy, PartialEq, Eq, Debug, Structural)]
pub struct WindSums {
    pub weight_sum: Single,
    pub dir_deg: Single,
    pub concentration: Single,
}

/// What sums over wind directions say; no direction where the weights add up to
/// nothing.
pub open spec fn wind_of(n: int, sums: WindSums) -> WindDirResult {
    if sums.weight_sum.at_most(negligible()) || n == 0 {
        WindDirResult {
            dir_deg: Single { bits: 0x7FC0_0000 },
            concentration: Single { bits: 0 },
            n_used: 0,
        }
    } else {
        WindDirResult {
            dir_deg: sums.dir_deg,
            concentration: sums.concentration,
            n_used: n as u8,
        }
    }
}

/// Measurements with their weights, as samples.
pub open spec fn as_samples(measurements: Seq<Measurement>, weights: Seq<Single>) -> Seq<WeightedSample> {
    Seq::new(
        measurements.len(),
        |i: int|
            WeightedSample { value: measurements[i].value, weight: weights[i], excluded: false },
    )
}

/// Whether `r` is the wind direction that `sum` makes of finite measurements and
/// their weights.
pub open spec fn wind_made<S: Fn(Vec<WeightedSample>) -> WindSums>(
    sum: S,
    finite: Seq<Measurement>,
    weights: Seq<Single>,
    r: WindDirResult,
) -> bool {
    exists|list: Vec<WeightedSample>, sums: WindSums|
        list@ == as_samples(finite, weights) && #[trigger] sum.ensures((list,), sums) && r
            == wind_of(finite.len() as int, sums)
}

/// Whether `r` is the wind direction made of measurements at a time; those that
/// are no finite number do not count.
pub open spec fn wind_aggregated<
    W: Fn(Single, u64, Single) -> Single,
    S: Fn(Vec<WeightedSample>) -> WindSums,
>(
    dirs: Seq<Measurement>,
    now: u64,
    params: AggParams,
    weight: W,
    sum: S,
    r: WindDirResult,
) -> bool {
    let finite = finite_from(dirs, dirs.len());
    exists|weights: Seq<Single>| #[trigger]
        weighed(weight, finite, now, params, weights) && wind_made(sum, finite, weights, r)
}

/// The wind direction made of measurements; those that are no finite number do
/// not count. The arithmetic is the caller's.
pub fn aggregate_wind_dir<
    W: Fn(Single, u64, Single) -> Single,
    S: Fn(Vec<WeightedSample>) -> WindSums,
>(dirs: &[Measurement], now: u64, params: &AggParams, weight: &W, sum: &S) -> (r: WindDirResult)
    requires
        finite_from(dirs@, dirs@.len()).len() <= u8::MAX,
        forall|w: Single, age: u64, tau: Single| #[trigger] weight.requires((w, age, tau)),
        forall|list: Vec<WeightedSample>| #[trigger] sum.requires((list,)),
    ensures
        wind_aggregated(dirs@, now, *params, *weight, *sum, r),
{
    let finite = finite_measurements(dirs);
    let n: u8 = finite.len() as u8;
    let weights = weigh_all(finite.as_slice(), now, params, weight);
    let mut list: Vec<WeightedSample> = Vec::new();
    let mut i: usize = 0;
    while i < finite.len()
        invariant
            i <= finite@.len(),
            weights@.len() == finite@.len(),
            list@.len() == i,
            forall|k: int|
                0 <= k < i ==> #[trigger] list@[k] == as_samples(finite@, weights@)[k],
        decreases finite@.len() - i,
    {
        list.push(
            WeightedSample { value: finite[i].value, weight: weights[i], excluded: false },
        );
        i = i + 1;
    }
    proof {
        assert(list@ =~= as_samples(finite@, weights@));
    }
    let sums = sum(list);
    if weights_usable(sums.weight_sum, n as usize) {
        WindDirResult { dir_deg: sums.dir_deg, concentration: sums.concentration, n_used: n }
    } else {
        WindDirResult {
            dir_deg: Single::from_bits(0x7FC0_0000),
            concentration: Single::from_bits(0),
            n_used: 0,
        }
    }
}

/// The names of the sixteen directions, clockwise from north.
pub open spec fn compass_names() -> Seq<Seq<char>> {
    seq![
        "北"@,
        "北北東"@,
        "北東"@,
        "東北東"@,
        "東"@,
        "東南東"@,
        "南東"@,
        "南南東"@,
        "南"@,
        "南南西"@,
        "南西"@,
        "西南西"@,
        "西"@,
        "西北西"@,
        "北西"@,
        "北北西"@,
    ]
}

/// The name of a direction, given the number of its sector clockwise from
/// north; two dashes if there is none.
pub fn compass_16_ja(sector: Option<usize>) -> (name: &'static str)
    ensures
        name@ == match sector {
            Some(s) => compass_names()[s as int % 16],
            None => "--"@,
        },
{
    match sector {
        None => "--",
        Some(s) => match s % 16 {
            0 => "北",
            1 => "北北東",
            2 => "北東",
            3 => "東北東",
            4 => "東",
            5 => "東南東",
            6 => "南東",
            7 => "南南東",
            8 => "南",
            9 => "南南西",
            10 => "南西",
            11 => "西南西",
            12 => "西",
            13 => "西北西",
            14 => "北西",
            _ => "北北西",
        },
    }
}

/// The place of a state of the weather in the count of votes.
pub open spec fn code_place(c: WeatherCode) -> int {
    match c {
        WeatherCode::Clear => 0,
        WeatherCode::PartlyCloudy => 1,
        WeatherCode::Cloudy => 2,
        WeatherCode::Fog => 3,
        WeatherCode::Drizzle => 4,
        WeatherCode::Rain => 5,
        WeatherCode::Snow => 6,
        WeatherCode::Thunderstorm => 7,
        WeatherCode::Unknown => 8,
    }
}

/// The state of the weather at a place in the count of votes.
pub open spec fn code_at(i: int) -> WeatherCode {
    if i == 0 {
        WeatherCode::Clear
    } else if i == 1 {
        WeatherCode::PartlyCloudy
    } else if i == 2 {
        WeatherCode::Cloudy
    } else if i == 3 {
        WeatherCode::Fog
    } else if i == 4 {
        WeatherCode::Drizzle
    } else if i == 5 {
        WeatherCode::Rain
    } else if i == 6 {
        WeatherCode::Snow
    } else if i == 7 {
        WeatherCode::Thunderstorm
    } else {
        WeatherCode::Unknown
    }
}

/// The place of a state of the weather in the count of votes.
pub fn code_index(c: WeatherCode) -> (i: usize)
    ensures
        i == code_place(c),
        i < 9,
{
    match c {
        WeatherCode::Clear => 0,
        WeatherCode::PartlyCloudy => 1,
        WeatherCode::Cloudy => 2,
        WeatherCode::Fog => 3,
        WeatherCode::Drizzle => 4,
        WeatherCode::Rain => 5,
        WeatherCode::Snow => 6,
        WeatherCode::Thunderstorm => 7,
        WeatherCode::Unknown => 8,
    }
}

/// The state of the weather at a place in the count of votes.
pub fn index_code(i: usize) -> (c: WeatherCode)
    ensures
        c == code_at(i as int),
{
    match i {
        0 => WeatherCode::Clear,
        1 => WeatherCode::PartlyCloudy,
        2 => WeatherCode::Cloudy,
        3 => WeatherCode::Fog,
        4 => WeatherCode::Drizzle,
        5 => WeatherCode::Rain,
        6 => WeatherCode::Snow,
        7 => WeatherCode::Thunderstorm,
        _ => WeatherCode::Unknown,
    }
}

/// Each state of the weather has a place of its own in the count.
pub proof fn places_are_distinct(c: WeatherCode, i: int)
    ensures
        0 <= code_place(c) < 9,
        code_at(code_place(c)) == c,
        0 <= i < 9 ==> code_place(code_at(i)) == i,
{
}

/// Whether a vote leads from one count to the next: it adds the weight of its
/// source to the score of its state.
pub open spec fn vote_counts<A: Fn(Single, Single) -> Single>(
    add_up: A,
    before: Seq<Single>,
    vote: (SourceId, WeatherCode),
    params: AggParams,
    after: Seq<Single>,
) -> bool {
    exists|sum: Single| #[trigger]
        add_up.ensures((before[code_place(vote.1)], params.weight_of(vote.0)), sum) && after
            == before.update(code_place(vote.1), sum)
}

/// Whether `history` is the count of the votes as it goes: all scores 0 at
/// first, and then the scores after each vote.
pub open spec fn counted<A: Fn(Single, Single) -> Single>(
    add_up: A,
    votes: Seq<(SourceId, WeatherCode)>,
    params: AggParams,
    history: Seq<Seq<Single>>,
) -> bool {
    &&& history.len() == votes.len() + 1
    &&& history[0] == Seq::new(9, |i: int| Single { bits: 0 })
    &&& forall|k: int|
        #![trigger votes[k]]
        0 <= k < votes.len() ==> vote_counts(
            add_up,
            history[k],
            votes[k],
            params,
            history[k + 1],
        )
}

/// Whether a score counts: it is a number above -1.
pub open spec fn stands(score: Single) -> bool {
    (Single { bits: 0xBF80_0000 }).below(score)
}

/// Whether the score at place `p` counts, and no score exceeds it.
pub open spec fn unbeaten(scores: Seq<Single>, p: int) -> bool {
    stands(scores[p]) && forall|i: int|
        0 <= i < scores.len() ==> !scores[p].below(#[trigger] scores[i])
}

/// After how many votes, `k` or more, place `p` had its final score.
pub open spec fn reached_from(history: Seq<Seq<Single>>, p: int, k: int) -> int
    decreases history.len() - k,
{
    if k < 0 || k >= history.len() - 1 || history[k][p] == history.last()[p] {
        k
    } else {
        reached_from(history, p, k + 1)
    }
}

/// After how many votes place `p` had its final score.
pub open spec fn reached(history: Seq<Seq<Single>>, p: int) -> int {
    reached_from(history, p, 0)
}

/// Whether place `p` wins: no score exceeds its score, and of several such
/// places it had its final score first; where that is after the same number of
/// votes, it stands first. Where no score counts, the first place wins.
pub open spec fn wins(history: Seq<Seq<Single>>, p: int) -> bool {
    if exists|q: int| 0 <= q < 9 && #[trigger] unbeaten(history.last(), q) {
        &&& 0 <= p < 9
        &&& unbeaten(history.last(), p)
        &&& forall|i: int|
            #![trigger history.last()[i]]
            0 <= i < 9 && i != p && unbeaten(history.last(), i) ==> reached(history, p) < reached(
                history,
                i,
            ) || (reached(history, p) == reached(history, i) && p < i)
    } else {
        p == 0
    }
}

/// The scores after each vote, and before the first.
fn count_votes<A: Fn(Single, Single) -> Single>(
    votes: &[(SourceId, WeatherCode)],
    params: &AggParams,
    add_up: &A,
) -> (history: Vec<Vec<Single>>)
    requires
        forall|a: Single, b: Single| #[trigger] add_up.requires((a, b)),
    ensures
        counted(*add_up, votes@, *params, count_of(history@)),
        forall|k: int| 0 <= k < history@.len() ==> (#[trigger] history@[k])@.len() == 9,
{
    let mut scores: Vec<Single> = Vec::new();
    let mut k: usize = 0;
    while k < 9
        invariant
            k <= 9,
            scores@ =~= Seq::new(k as nat, |i: int| Single { bits: 0 }),
        decreases 9 - k,
    {
        scores.push(Single::from_bits(0));
        k = k + 1;
    }
    let mut history: Vec<Vec<Single>> = Vec::new();
    history.push(scores);
    let mut v: usize = 0;
    while v < votes.len()
        invariant
            v <= votes@.len(),
            history@.len() == v + 1,
            history@[0]@ == Seq::new(9, |i: int| Single { bits: 0 }),
            forall|k: int| 0 <= k < history@.len() ==> (#[trigger] history@[k])@.len() == 9,
            forall|k: int|
                #![trigger votes@[k]]
                0 <= k < v ==> vote_counts(
                    *add_up,
                    history@[k]@,
                    votes@[k],
                    *params,
                    history@[k + 1]@,
                ),
            forall|a: Single, b: Single| #[trigger] add_up.requires((a, b)),
        decreases votes@.len() - v,
    {
        let (source, code) = votes[v];
        let place: usize = code_index(code);
        let mut next = copy_scores(history[v].as_slice());
        let ghost before = history@[v as int]@;
        let sum = add_up(next[place], params.static_weight(source));
        next.set(place, sum);
        proof {
            assert(vote_counts(*add_up, before, votes@[v as int], *params, next@));
        }
        let ghost old_history = history@;
        history.push(next);
        proof {
            assert forall|k: int|
                #![trigger votes@[k]]
                0 <= k < v + 1 implies vote_counts(
                *add_up,
                history@[k]@,
                votes@[k],
                *params,
                history@[k + 1]@,
            ) by {
                assert(history@[k] == old_history[k]);
                if k < v {
                    assert(history@[k + 1] == old_history[k + 1]);
                }
            }
        }
        v = v + 1;
    }
    proof {
        let h = count_of(history@);
        assert forall|k: int|
            #![trigger votes@[k]]
            0 <= k < votes@.len() implies vote_counts(
            *add_up,
            h[k],
            votes@[k],
            *params,
            h[k + 1],
        ) by {
            assert(h[k] == history@[k]@ && h[k + 1] == history@[k + 1]@);
        }
    }
    history
}

/// The scores of a count as it goes.
pub open spec fn count_of(history: Seq<Vec<Single>>) -> Seq<Seq<Single>> {
    history.map_values(|scores: Vec<Single>| scores@)
}

fn copy_scores(scores: &[Single]) -> (out: Vec<Single>)
    ensures
        out@ == scores@,
{
    let mut out: Vec<Single> = Vec::new();
    let mut i: usize = 0;
    while i < scores.len()
        invariant
            i <= scores@.len(),
            out@ =~= scores@.take(i as int),
        decreases scores@.len() - i,
    {
        out.push(scores[i]);
        i = i + 1;
    }
    out
}

/// Whether the score at a place counts, and no score exceeds it.
fn is_unbeaten(scores: &Vec<Single>, p: usize) -> (r: bool)
    requires
        p < scores@.len(),
    ensures
        r == unbeaten(scores@, p as int),
{
    if !Single::from_bits(0xBF80_0000).lt(scores[p]) {
        return false;
    }
    let mut i: usize = 0;
    while i < scores.len()
        invariant
            i <= scores@.len(),
            p < scores@.len(),
            stands(scores@[p as int]),
            forall|k: int| 0 <= k < i ==> !scores@[p as int].below(#[trigger] scores@[k]),
        decreases scores@.len() - i,
    {
        if scores[p].lt(scores[i]) {
            return false;
        }
        i = i + 1;
    }
    true
}

/// After how many votes a place had its final score.
fn votes_to_reach(history: &Vec<Vec<Single>>, p: usize) -> (k: usize)
    requires
        p < 9,
        history@.len() > 0,
        forall|k: int| 0 <= k < history@.len() ==> (#[trigger] history@[k])@.len() == 9,
    ensures
        k == reached(count_of(history@), p as int),
{
    let ghost h = count_of(history@);
    let last: usize = history.len() - 1;
    let mut k: usize = 0;
    proof {
        assert(h.last() == history@[last as int]@);
    }
    while k < last && history[k][p].bits != history[last][p].bits
        invariant
            k <= last,
            last == history@.len() - 1,
            p < 9,
            h == count_of(history@),
            h.last() == history@[last as int]@,
            forall|k: int| 0 <= k < history@.len() ==> (#[trigger] history@[k])@.len() == 9,
            reached_from(h, p as int, k as int) == reached(h, p as int),
        decreases last - k,
    {
        proof {
            assert(h[k as int] == history@[k as int]@);
        }
        k = k + 1;
    }
    proof {
        assert(h[k as int] == history@[k as int]@);
    }
    k
}

/// The place that wins a count.
fn winning_place(history: &Vec<Vec<Single>>) -> (p: usize)
    requires
        history@.len() > 0,
        forall|k: int| 0 <= k < history@.len() ==> (#[trigger] history@[k])@.len() == 9,
    ensures
        wins(count_of(history@), p as int),
{
    let ghost h = count_of(history@);
    let last: usize = history.len() - 1;
    proof {
        assert(h.last() == history@[last as int]@);
        assert(history@[last as int]@.len() == 9);
    }
    let mut best: usize = 9;
    let mut best_k: usize = 0;
    let mut i: usize = 0;
    while i < 9
        invariant
            i <= 9,
            best < i || best == 9,
            last == history@.len() - 1,
            history@.len() > 0,
            forall|k: int| 0 <= k < history@.len() ==> (#[trigger] history@[k])@.len() == 9,
            h == count_of(history@),
            h.last() == history@[last as int]@,
            best == 9 ==> forall|j: int|
                #![trigger h.last()[j]]
                0 <= j < i ==> !unbeaten(h.last(), j),
            best < 9 ==> {
                &&& unbeaten(h.last(), best as int)
                &&& best_k == reached(h, best as int)
                &&& forall|j: int|
                    #![trigger h.last()[j]]
                    0 <= j < i && j != best && unbeaten(h.last(), j) ==> best_k < reached(h, j) || (
                    best_k == reached(h, j) && best < j)
            },
        decreases 9 - i,
    {
        if is_unbeaten(&history[last], i) {
            let k: usize = votes_to_reach(history, i);
            if best == 9 || k < best_k {
                best = i;
                best_k = k;
            }
        }
        i = i + 1;
    }
    if best == 9 {
        proof {
            assert forall|q: int| 0 <= q < 9 implies !#[trigger] unbeaten(h.last(), q) by {
                let s = h.last()[q];
            }
        }
        return 0;
    }
    proof {
        assert(unbeaten(h.last(), best as int));
    }
    best
}

/// The state of the weather with the most votes, by the weights of the sources.
/// Of several it is the one that reached the score first. A score that is no
/// number does not count. `add_up` adds two numbers.
pub fn vote_condition<A: Fn(Single, Single) -> Single>(
    votes: &[(SourceId, WeatherCode)],
    params: &AggParams,
    add_up: &A,
) -> (c: WeatherCode)
    requires
        forall|a: Single, b: Single| #[trigger] add_up.requires((a, b)),
    ensures
        exists|history: Seq<Seq<Single>>| #[trigger]
            counted(*add_up, votes@, *params, history) && wins(history, code_place(c)),
{
    let history = count_votes(votes, params, add_up);
    let p: usize = winning_place(&history);
    proof {
        assert(counted(*add_up, votes@, *params, count_of(history@)));
        places_are_distinct(WeatherCode::Clear, p as int);
    }
    index_code(p)
}

/// The state of the first vote of the agency, from `k` on, whose score no other
/// exceeds.
pub open spec fn agency_choice(
    votes: Seq<(SourceId, WeatherCode)>,
    scores: Seq<Single>,
    k: int,
) -> Option<WeatherCode>
    decreases votes.len() - k,
{
    if k < 0 || k >= votes.len() {
        None
    } else if votes[k].0 == SourceId::Jma && unbeaten(scores, code_place(votes[k].1)) {
        Some(votes[k].1)
    } else {
        agency_choice(votes, scores, k + 1)
    }
}

/// Whether `c` is the state of the weather by a count of votes: a state that
/// the agency voted for if no score exceeds its score, else the one that wins.
pub open spec fn decides(
    votes: Seq<(SourceId, WeatherCode)>,
    history: Seq<Seq<Single>>,
    c: WeatherCode,
) -> bool {
    match agency_choice(votes, history.last(), 0) {
        Some(state) => c == state,
        None => wins(history, code_place(c)),
    }
}

/// The state of the weather with the most votes, where a tie that the agency is
/// part of goes to the agency.
pub fn trusted_condition<A: Fn(Single, Single) -> Single>(
    votes: &[(SourceId, WeatherCode)],
    params: &AggParams,
    add_up: &A,
) -> (c: WeatherCode)
    requires
        forall|a: Single, b: Single| #[trigger] add_up.requires((a, b)),
    ensures
        exists|history: Seq<Seq<Single>>| #[trigger]
            counted(*add_up, votes@, *params, history) && decides(votes@, history, c),
{
    let history = count_votes(votes, params, add_up);
    let ghost h = count_of(history@);
    let last: usize = history.len() - 1;
    proof {
        assert(h.last() == history@[last as int]@);
        assert(counted(*add_up, votes@, *params, h));
    }
    let mut k: usize = 0;
    while k < votes.len()
        invariant
            k <= votes@.len(),
            last < history@.len(),
            h.last() == history@[last as int]@,
            history@[last as int]@.len() == 9,
            counted(*add_up, votes@, *params, h),
            agency_choice(votes@, h.last(), k as int) == agency_choice(votes@, h.last(), 0),
        decreases votes@.len() - k,
    {
        let (source, code) = votes[k];
        if source == SourceId::Jma && is_unbeaten(&history[last], code_index(code)) {
            return code;
        }
        k = k + 1;
    }
    let p: usize = winning_place(&history);
    proof {
        places_are_distinct(WeatherCode::Clear, p as int);
    }
    index_code(p)
}

/// The agency wins its ties: where no score exceeds that of a state that it
/// voted for, and that of no other state that it voted for, the weather is in
/// that state.
pub proof fn ties_go_to_the_agency(
    votes: Seq<(SourceId, WeatherCode)>,
    history: Seq<Seq<Single>>,
    c: WeatherCode,
    at: int,
    decided: WeatherCode,
)
    requires
        0 <= at < votes.len(),
        votes[at] == (SourceId::Jma, c),
        unbeaten(history.last(), code_place(c)),
        forall|k: int|
            0 <= k < votes.len() && (#[trigger] votes[k]).0 == SourceId::Jma && unbeaten(
                history.last(),
                code_place(votes[k].1),
            ) ==> votes[k].1 == c,
        decides(votes, history, decided),
    ensures
        decided == c,
{
    lemma_agency_choice(votes, history.last(), c, at, 0);
}

proof fn lemma_agency_choice(
    votes: Seq<(SourceId, WeatherCode)>,
    scores: Seq<Single>,
    c: WeatherCode,
    at: int,
    k: int,
)
    requires
        0 <= k <= at < votes.len(),
        votes[at] == (SourceId::Jma, c),
        unbeaten(scores, code_place(c)),
        forall|k: int|
            0 <= k < votes.len() && (#[trigger] votes[k]).0 == SourceId::Jma && unbeaten(
                scores,
                code_place(votes[k].1),
            ) ==> votes[k].1 == c,
    ensures
        agency_choice(votes, scores, k) == Some(c),
    decreases at - k,
{
    if k < at && !(votes[k].0 == SourceId::Jma && unbeaten(scores, code_place(votes[k].1))) {
        lemma_agency_choice(votes, scores, c, at, k + 1);
    }
}

/// The winner reached it first: no other state that no score exceeds had its
/// score after fewer votes.
pub proof fn winner_reached_it_first(history: Seq<Seq<Single>>, p: int, i: int)
    requires
        wins(history, p),
        0 <= i < 9,
        unbeaten(history.last(), i),
    ensures
        reached(history, p) <= reached(history, i),
{
    let s = history.last()[i];
}

/// The winner has the highest score: where some score counts, the winner's does,
/// so it is a number, and no score exceeds it.
pub proof fn winner_has_the_highest_score(history: Seq<Seq<Single>>, p: int, i: int)
    requires
        history.last().len() == 9,
        wins(history, p),
        0 <= i < 9,
        stands(history.last()[i]),
    ensures
        !history.last()[p].nan(),
        history.last()[i].at_most(history.last()[p]),
        unbeaten(history.last(), p),
{
    lemma_someone_unbeaten(history.last(), i, 9);
}

/// Where a score counts, one of those that count is not exceeded.
proof fn lemma_someone_unbeaten(scores: Seq<Single>, k: int, n: nat)
    requires
        0 <= k < n <= scores.len(),
        stands(scores[k]),
    ensures
        exists|p: int| 0 <= p < n && #[trigger] unbeaten(scores.take(n as int), p),
        n == scores.len() ==> exists|p: int| 0 <= p < n && #[trigger] unbeaten(scores, p),
    decreases n,
{
    let s = scores.take(n as int);
    if exists|j: int| 0 <= j < n - 1 && stands(#[trigger] scores[j]) {
        let j = choose|j: int| 0 <= j < n - 1 && stands(#[trigger] scores[j]);
        lemma_someone_unbeaten(scores, j, (n - 1) as nat);
        let t = scores.take(n - 1);
        let p = choose|p: int| 0 <= p < n - 1 && #[trigger] unbeaten(t, p);
        let q = if scores[p].below(scores[n - 1]) {
            n - 1
        } else {
            p
        };
        assert(t[p] == scores[p]);
        assert forall|i: int| 0 <= i < s.len() implies !s[q].below(#[trigger] s[i]) by {
            if i < n - 1 {
                assert(!t[p].below(t[i]));
            }
        }
        assert(unbeaten(s, q));
    } else {
        assert(k == n - 1);
        assert forall|i: int| 0 <= i < s.len() implies !s[k].below(#[trigger] s[i]) by {
            if i < n - 1 {
                assert(!stands(scores[i]));
            }
        }
        assert(unbeaten(s, k));
    }
    if n == scores.len() {
        assert(s =~= scores);
    }
}

/// The verdict is by the score alone: a sample that is not left out yet is left
/// out exactly if its score is a number above the threshold, whatever its value,
/// sign or weight; so two such samples with the same score get the same verdict.
/// One that is left out stays so, and values and weights stay.
pub proof fn verdict_is_by_the_score_alone(
    before: Seq<WeightedSample>,
    scores: Seq<Single>,
    z_thresh: Single,
    i: int,
    j: int,
)
    requires
        scores.len() == before.len(),
        0 <= i < before.len(),
        0 <= j < before.len(),
    ensures
        ({
            let after = Seq::new(scores.len(), |k: int| judged(before[k], scores[k], z_thresh));
            &&& before[i].excluded ==> after[i].excluded
            &&& !before[i].excluded ==> (after[i].excluded <==> !z_thresh.nan() && !scores[i].nan()
                && z_thresh.value() < scores[i].value())
            &&& !before[i].excluded && !before[j].excluded && scores[i] == scores[j]
                ==> after[i].excluded == after[j].excluded
            &&& after[i].value == before[i].value
            &&& after[i].weight == before[i].weight
        }),
{
}

/// Whether each sample that is not left out in `before` is left out in `after`
/// exactly if the score of its distance from `median`, on `scale`, is a number
/// above the threshold; and the others stay left out.
pub open spec fn told_by_distance<
    M: Fn(Single, Single) -> Single,
    D: Fn(Single, Single) -> Single,
    A: Fn(Vec<Single>) -> Single,
    Z: Fn(Single, Scale) -> Single,
>(
    math: OutlierMath<M, D, A, Z>,
    before: Seq<WeightedSample>,
    after: Seq<WeightedSample>,
    z_thresh: Single,
    median: Single,
    scale: Scale,
) -> bool {
    forall|i: int|
        #![trigger after[i]]
        0 <= i < before.len() ==> {
            &&& before[i].excluded ==> after[i].excluded
            &&& !before[i].excluded ==> exists|d: Single, score: Single|
                math.distance.ensures((before[i].value, median), d) && #[trigger] math.score.ensures(
                    (d, scale),
                    score,
                ) && (after[i].excluded <==> !z_thresh.nan() && !score.nan() && z_thresh.value()
                    < score.value())
        }
}

/// Finding outliers keeps all samples, their values and their weights. Among
/// fewer than three that are not left out, it changes nothing; otherwise it
/// changes nothing, or judges each by its distance from the median of those that
/// are not left out.
pub proof fn outliers_are_told_by_distance<
    M: Fn(Single, Single) -> Single,
    D: Fn(Single, Single) -> Single,
    A: Fn(Vec<Single>) -> Single,
    Z: Fn(Single, Scale) -> Single,
>(
    math: OutlierMath<M, D, A, Z>,
    before: Seq<WeightedSample>,
    after: Seq<WeightedSample>,
    z_thresh: Single,
)
    requires
        math.found(before, after, z_thresh),
    ensures
        after.len() == before.len(),
        forall|i: int|
            0 <= i < before.len() ==> (#[trigger] after[i]).value == before[i].value
                && after[i].weight == before[i].weight,
        before.filter(|s: WeightedSample| !s.excluded).len() < 3 ==> after == before,
        after == before || exists|median: Single, scale: Scale|
            math.is_median(
                values_in(before.filter(|s: WeightedSample| !s.excluded)),
                median,
            ) && #[trigger] told_by_distance(math, before, after, z_thresh, median, scale),
{
    live_samples_are_those_not_left_out(before);
    let (median, distances, median_dev, mean_dev, scores) = choose|
        median: Single,
        distances: Seq<Single>,
        median_dev: Single,
        mean_dev: Single,
        scores: Seq<Single>,
    | #[trigger]
        math.finds(
            before,
            after,
            z_thresh,
            median,
            distances,
            median_dev,
            mean_dev,
            scores,
        );
    let values = values_in(live_from(before, before.len()));
    if values.len() >= 3 {
        if let Some(scale) = scale_for(median_dev, mean_dev) {
            assert forall|i: int|
                #![trigger after[i]]
                0 <= i < before.len() implies {
                &&& before[i].excluded ==> after[i].excluded
                &&& !before[i].excluded ==> exists|d: Single, score: Single|
                    math.distance.ensures((before[i].value, median), d)
                        && #[trigger] math.score.ensures((d, scale), score) && (after[i].excluded
                        <==> !z_thresh.nan() && !score.nan() && z_thresh.value() < score.value())
            } by {
                assert(math.is_score(before[i], median, scale, scores[i]));
                verdict_is_by_the_score_alone(before, scores, z_thresh, i, i);
            }
            assert(told_by_distance(math, before, after, z_thresh, median, scale));
        }
    }
}

/// Samples of the same value get the same verdict, where the arithmetic gives
/// one result for the same numbers.
pub proof fn equal_values_get_equal_verdicts<
    M: Fn(Single, Single) -> Single,
    D: Fn(Single, Single) -> Single,
    A: Fn(Vec<Single>) -> Single,
    Z: Fn(Single, Scale) -> Single,
>(
    math: OutlierMath<M, D, A, Z>,
    before: Seq<WeightedSample>,
    after: Seq<WeightedSample>,
    z_thresh: Single,
    i: int,
    j: int,
)
    requires
        math.found(before, after, z_thresh),
        math.definite(),
        0 <= i < before.len(),
        0 <= j < before.len(),
        !before[i].excluded,
        !before[j].excluded,
        before[i].value == before[j].value,
    ensures
        after[i].excluded == after[j].excluded,
{
    outliers_are_told_by_distance(math, before, after, z_thresh);
    if after != before {
        let (median, scale) = choose|median: Single, scale: Scale|
            math.is_median(
                values_in(before.filter(|s: WeightedSample| !s.excluded)),
                median,
            ) && #[trigger] told_by_distance(math, before, after, z_thresh, median, scale);
        let (a, b) = (after[i], after[j]);
    }
}

/// The samples that count are those not left out, in order.
pub proof fn live_samples_are_those_not_left_out(samples: Seq<WeightedSample>)
    ensures
        live_from(samples, samples.len()) == samples.filter(|s: WeightedSample| !s.excluded),
{
    lemma_live_filter(samples, samples.len());
    assert(samples.take(samples.len() as int) =~= samples);
}

proof fn lemma_live_filter(samples: Seq<WeightedSample>, n: nat)
    requires
        n <= samples.len(),
    ensures
        live_from(samples, n) == samples.take(n as int).filter(|s: WeightedSample| !s.excluded),
    decreases n,
{
    reveal(Seq::filter);
    if n > 0 {
        lemma_live_filter(samples, (n - 1) as nat);
        assert(samples.take(n as int).drop_last() =~= samples.take(n - 1));
    }
}

/// The measurements that count are those with a finite value, in order.
pub proof fn finite_measurements_are_those_with_a_finite_value(list: Seq<Measurement>)
    ensures
        finite_from(list, list.len()) == list.filter(
            |m: Measurement| !m.value.nan() && m.value.raw() != 0x7f80_0000,
        ),
{
    lemma_finite_filter(list, list.len());
    assert(list.take(list.len() as int) =~= list);
}

proof fn lemma_finite_filter(list: Seq<Measurement>, n: nat)
    requires
        n <= list.len(),
    ensures
        finite_from(list, n) == list.take(n as int).filter(
            |m: Measurement| !m.value.nan() && m.value.raw() != 0x7f80_0000,
        ),
    decreases n,
{
    reveal(Seq::filter);
    if n > 0 {
        lemma_finite_filter(list, (n - 1) as nat);
        assert(list.take(n as int).drop_last() =~= list.take(n - 1));
    }
}

/// The median stands in the middle: of numbers in ascending order the one with
/// as many before it as after it, or the two with as many before the first as
/// after the second.
pub proof fn median_stands_in_the_middle(values: Seq<Single>)
    requires
        forall|i: int| 0 <= i < values.len() ==> !(#[trigger] values[i]).nan(),
    ensures
        ({
            let sorted = ascending_values(values, values.len());
            &&& sorted.to_multiset() == values.to_multiset()
            &&& values_ascend(sorted)
            &&& match middle_of(values) {
                Middle::Nothing => values.len() == 0,
                Middle::One(v) => exists|i: int|
                    0 <= i < sorted.len() && i == sorted.len() - 1 - i && v == #[trigger] sorted[i],
                Middle::Two(a, b) => exists|i: int|
                    0 <= i && i + 1 < sorted.len() && i == sorted.len() - 2 - i && a
                        == #[trigger] sorted[i] && b == sorted[i + 1],
            }
        }),
{
    let n = values.len();
    ordering_is_a_permutation(values, n);
    assert(values.take(n as int) =~= values);
    let sorted = ascending_values(values, n);
    match middle_of(values) {
        Middle::Nothing => {},
        Middle::One(v) => {
            let i = n as int / 2;
            assert(v == sorted[i]);
        },
        Middle::Two(a, b) => {
            let i = n as int / 2 - 1;
            assert(a == sorted[i] && b == sorted[i + 1]);
        },
    }
}

/// The scale is the median deviation wherever that is a number above 2^-23; else
/// the mean deviation; and there is none only where that is at most 2^-23.
pub proof fn scale_is_the_median_deviation_where_there_is_one(median_dev: Single, mean_dev: Single)
    ensures
        (Single { bits: 0x3400_0000 }).below(median_dev) <==> scale_for(median_dev, mean_dev)
            == Some(Scale::MedianDeviation(median_dev)),
        scale_for(median_dev, mean_dev) is None <==> !(Single { bits: 0x3400_0000 }).below(
            median_dev,
        ) && mean_dev.at_most(Single { bits: 0x3400_0000 }),
        scale_for(median_dev, mean_dev) matches Some(Scale::MeanDeviation(d)) ==> d == mean_dev,
        scale_for(median_dev, mean_dev) matches Some(Scale::MedianDeviation(d)) ==> d == median_dev,
{
}

/// A value is the mean of those kept: made of samples with a finite mean, it is
/// what `sum` gives as the mean of the samples that are not left out, and counts
/// these; or, where their weights add up to nothing or their mean is not finite,
/// the mean of all.
pub proof fn value_is_the_mean_of_those_kept<
    W: Fn(Single, u64, Single) -> Single,
    S: Fn(Vec<WeightedSample>) -> Spread,
    C: Fn(Single, Single, u8, u8, AggParams) -> (Single, Single),
    M: Fn(Single, Single) -> Single,
    D: Fn(Single, Single) -> Single,
    A: Fn(Vec<Single>) -> Single,
    Z: Fn(Single, Scale) -> Single,
>(
    finite: Seq<Measurement>,
    weights: Seq<Single>,
    params: AggParams,
    math: ValueMath<W, S, C>,
    outliers: OutlierMath<M, D, A, Z>,
    v: AggregatedValue,
)
    requires
        value_weighed(finite, weights, params, math, outliers, v),
        v != no_value(),
    ensures
        ({
            let samples = first_samples(as_samples(finite, weights));
            exists|
                kept: Seq<WeightedSample>,
                all_list: Vec<WeightedSample>,
                all: Spread,
                list: Vec<WeightedSample>,
                sums: Spread,
            |
                {
                    &&& #[trigger] outliers.found(samples, kept, params.z_thresh)
                    &&& all_list@ == samples
                    &&& #[trigger] math.sum.ensures((all_list,), all)
                    &&& list@ == kept.filter(|s: WeightedSample| !s.excluded)
                    &&& #[trigger] math.sum.ensures((list,), sums)
                    &&& v.value == if list@.len() > 0 && !sums.weight_sum.at_most(
                        Single { bits: 0x3400_0000 },
                    ) && sums.mean.finite() {
                        sums.mean
                    } else {
                        all.mean
                    }
                    &&& v.n_used == if list@.len() > 0 && !sums.weight_sum.at_most(
                        Single { bits: 0x3400_0000 },
                    ) {
                        list@.len() as int
                    } else {
                        0
                    }
                    &&& v.n_excluded == samples.len() - list@.len()
                }
        }),
{
    let samples = first_samples(as_samples(finite, weights));
    let (kept, all, used) = choose|
        j: Seq<WeightedSample>,
        all: (Single, Single, int),
        used: (Single, Single, int),
    | #[trigger]
        value_made(math.sum, math.confidence, outliers, params, samples, j, all, used, v);
    lemma_all_live(samples, samples.len());
    lemma_live_is_all(samples, samples.len());
    assert(samples.take(samples.len() as int) =~= samples);
    live_samples_are_those_not_left_out(kept);
    let (all_list, all_sums) = choose|list: Vec<WeightedSample>, sums: Spread|
        list@ == live_from(samples, samples.len()) && #[trigger] math.sum.ensures((list,), sums)
            && all == stats_of(list@, sums);
    let (list, sums) = choose|list: Vec<WeightedSample>, sums: Spread|
        list@ == live_from(kept, kept.len()) && #[trigger] math.sum.ensures((list,), sums) && used
            == stats_of(list@, sums);
    assert(all.0.finite());
    assert(!(Single { bits: 0x7FC0_0000 }).finite());
    assert(list@ == kept.filter(|s: WeightedSample| !s.excluded));
    assert(math.sum.ensures((all_list,), all_sums));
    assert(math.sum.ensures((list,), sums));
}

/// Samples of which none is left out are all that count.
proof fn lemma_live_is_all(samples: Seq<WeightedSample>, n: nat)
    requires
        n <= samples.len(),
        forall|i: int| 0 <= i < samples.len() ==> !(#[trigger] samples[i]).excluded,
    ensures
        live_from(samples, n) == samples.take(n as int),
    decreases n,
{
    if n > 0 {
        lemma_live_is_all(samples, (n - 1) as nat);
        assert(samples.take(n as int) =~= samples.take(n - 1).push(samples[n - 1]));
    } else {
        assert(samples.take(0) =~= live_from(samples, 0));
    }
}

/// Each measurement has its own weight: the first eight measurements become
/// samples with their values and weights, none left out.
pub proof fn samples_pair_values_with_weights(
    finite: Seq<Measurement>,
    weights: Seq<Single>,
    i: int,
)
    ensures
        first_samples(as_samples(finite, weights)).len() == if finite.len() < 8 {
            finite.len() as int
        } else {
            8
        },
        0 <= i < 8 && i < finite.len() ==> first_samples(as_samples(finite, weights))[i] == (
        WeightedSample { value: finite[i].value, weight: weights[i], excluded: false }),
{
}

/// A vote counts for its state alone: it leaves the scores of all other states
/// as they were, and adds the weight of its source to that of its own.
pub proof fn vote_counts_for_its_state_alone<A: Fn(Single, Single) -> Single>(
    add_up: A,
    votes: Seq<(SourceId, WeatherCode)>,
    params: AggParams,
    history: Seq<Seq<Single>>,
    k: int,
    state: WeatherCode,
)
    requires
        counted(add_up, votes, params, history),
        0 <= k < votes.len(),
        history[k].len() == 9,
    ensures
        history[0][code_place(state)] == (Single { bits: 0 }),
        state != votes[k].1 ==> history[k + 1][code_place(state)] == history[k][code_place(state)],
        state == votes[k].1 ==> add_up.ensures(
            (
                history[k][code_place(state)],
                match votes[k].0 {
                    SourceId::Jma => params.w_jma,
                    SourceId::OpenMeteo => params.w_open_meteo,
                    SourceId::OpenWeatherMap => params.w_owm,
                },
            ),
            history[k + 1][code_place(state)],
        ),
        history[k + 1].len() == 9,
{
    places_are_distinct(state, 0);
    places_are_distinct(votes[k].1, 0);
    assert(vote_counts(add_up, history[k], votes[k], params, history[k + 1]));
}

/// When a score is reached: after that many votes it stands as at the end, and
/// after fewer it does not.
pub proof fn score_is_reached_once(history: Seq<Seq<Single>>, p: int, k: int)
    requires
        history.len() > 0,
        0 <= k < history.len(),
    ensures
        0 <= reached(history, p) < history.len(),
        history[reached(history, p)][p] == history.last()[p],
        k < reached(history, p) ==> history[k][p] != history.last()[p],
{
    lemma_reached(history, p, 0, k);
}

proof fn lemma_reached(history: Seq<Seq<Single>>, p: int, from: int, k: int)
    requires
        0 <= from < history.len(),
        0 <= k < history.len(),
    ensures
        from <= reached_from(history, p, from) < history.len(),
        history[reached_from(history, p, from)][p] == history.last()[p],
        from <= k < reached_from(history, p, from) ==> history[k][p] != history.last()[p],
    decreases history.len() - from,
{
    if from < history.len() - 1 && history[from][p] != history.last()[p] {
        lemma_reached(history, p, from + 1, k);
    }
}

/// The state decided on has the highest score: where some state's score is a
/// number above -1, the score of the state decided on is a number, and no score
/// exceeds it.
pub proof fn decided_state_has_the_highest_score(
    votes: Seq<(SourceId, WeatherCode)>,
    history: Seq<Seq<Single>>,
    decided: WeatherCode,
    other: WeatherCode,
)
    requires
        history.last().len() == 9,
        decides(votes, history, decided),
        (Single { bits: 0xBF80_0000 }).below(history.last()[code_place(other)]),
    ensures
        !history.last()[code_place(decided)].nan(),
        history.last()[code_place(other)].value() <= history.last()[code_place(decided)].value(),
{
    places_are_distinct(other, 0);
    places_are_distinct(decided, 0);
    if let Some(state) = agency_choice(votes, history.last(), 0) {
        lemma_agency_choice_unbeaten(votes, history.last(), 0);
        let s = history.last()[code_place(other)];
        assert(!history.last()[code_place(decided)].below(s));
    } else {
        winner_has_the_highest_score(history, code_place(decided), code_place(other));
    }
}

proof fn lemma_agency_choice_unbeaten(
    votes: Seq<(SourceId, WeatherCode)>,
    scores: Seq<Single>,
    k: int,
)
    ensures
        agency_choice(votes, scores, k) matches Some(c) ==> unbeaten(scores, code_place(c)),
    decreases votes.len() - k,
{
    if 0 <= k < votes.len() && !(votes[k].0 == SourceId::Jma && unbeaten(
        scores,
        code_place(votes[k].1),
    )) {
        lemma_agency_choice_unbeaten(votes, scores, k + 1);
    }
}

/// Directions are named after their neighbours: those between north, east, south
/// and west by north or south and then east or west; and those between these by
/// the nearest of the four and then the nearest of those between.
pub proof fn directions_are_named_after_their_neighbours(k: int)
    requires
        0 <= k < 4,
    ensures
        compass_names()[0] == "北"@,
        compass_names()[4] == "東"@,
        compass_names()[8] == "南"@,
        compass_names()[12] == "西"@,
        compass_names()[2] == compass_names()[0] + compass_names()[4],
        compass_names()[6] == compass_names()[8] + compass_names()[4],
        compass_names()[10] == compass_names()[8] + compass_names()[12],
        compass_names()[14] == compass_names()[0] + compass_names()[12],
        compass_names()[4 * k + 1] == compass_names()[4 * k] + compass_names()[4 * k + 2],
        compass_names()[(4 * k + 15) % 16] == compass_names()[4 * k] + compass_names()[(4 * k + 14)
            % 16],
{
    reveal_strlit("北");
    reveal_strlit("北北東");
    reveal_strlit("北東");
    reveal_strlit("東北東");
    reveal_strlit("東");
    reveal_strlit("東南東");
    reveal_strlit("南東");
    reveal_strlit("南南東");
    reveal_strlit("南");
    reveal_strlit("南南西");
    reveal_strlit("南西");
    reveal_strlit("西南西");
    reveal_strlit("西");
    reveal_strlit("西北西");
    reveal_strlit("北西");
    reveal_strlit("北北西");
    assert("北東"@ =~= "北"@ + "東"@);
    assert("南東"@ =~= "南"@ + "東"@);
    assert("南西"@ =~= "南"@ + "西"@);
    assert("北西"@ =~= "北"@ + "西"@);
    assert("北北東"@ =~= "北"@ + "北東"@);
    assert("東南東"@ =~= "東"@ + "南東"@);
    assert("南南西"@ =~= "南"@ + "南西"@);
    assert("西北西"@ =~= "西"@ + "北西"@);
    assert("東北東"@ =~= "東"@ + "北東"@);
    assert("南南東"@ =~= "南"@ + "南東"@);
    assert("西南西"@ =~= "西"@ + "南西"@);
    assert("北北西"@ =~= "北"@ + "北西"@);
    assert(k == 0 || k == 1 || k == 2 || k == 3);
}

/// Whether `m` is the median of values that are in order: the one with as many
/// before it as after it, or the mean of the two with as many before the first as
/// after the second; no number where there are none.
pub open spec fn is_middle<M: Fn(Single, Single) -> Single>(
    mean_of_two: M,
    sorted: Seq<Single>,
    m: Single,
) -> bool {
    ||| sorted.len() == 0 && m.bits == 0x7FC0_0000
    ||| exists|i: int| 0 <= i && 2 * i + 1 == sorted.len() && m == #[trigger] sorted[i]
    ||| exists|i: int|
        0 <= i && 2 * i + 2 == sorted.len() && mean_of_two.ensures(
            (#[trigger] sorted[i], sorted[i + 1]),
            m,
        )
}

/// The median is what stands in the middle of the values in ascending order.
pub proof fn medians_are_taken_in_the_middle<
    M: Fn(Single, Single) -> Single,
    D: Fn(Single, Single) -> Single,
    A: Fn(Vec<Single>) -> Single,
    Z: Fn(Single, Scale) -> Single,
>(math: OutlierMath<M, D, A, Z>, values: Seq<Single>, m: Single)
    ensures
        math.is_median(values, m) <==> is_middle(
            math.mean_of_two,
            ascending_values(values, values.len()),
            m,
        ),
{
    let n = values.len();
    lemma_ascending_len(values, n);
    let sorted = ascending_values(values, n);
    let h = n as int / 2;
    if math.is_median(values, m) && n > 0 {
        if n % 2 == 1 {
            assert(2 * h + 1 == n && m == sorted[h]);
        } else {
            assert(2 * (h - 1) + 2 == n);
            assert(math.mean_of_two.ensures((sorted[h - 1], sorted[h - 1 + 1]), m));
        }
    }
}

proof fn lemma_ascending_len(values: Seq<Single>, n: nat)
    ensures
        ascending_values(values, n).len() == n,
    decreases n,
{
    if n > 0 {
        lemma_ascending_len(values, (n - 1) as nat);
        let before = ascending_values(values, (n - 1) as nat);
        lemma_slot_bound(before, before.len(), values[n - 1]);
    }
}

proof fn lemma_slot_bound(sorted: Seq<Single>, n: nat, v: Single)
    ensures
        slot(sorted, n, v) <= n,
    decreases n,
{
    if n > 0 && v.below(sorted[n - 1]) {
        lemma_slot_bound(sorted, (n - 1) as nat, v);
    }
}

/// Whether `median`, `median_dev` and `mean_dev` are the median of the values, and
/// the median and the mean of their distances from it, taken in ascending order of
/// the values.
pub open spec fn deviates<
    M: Fn(Single, Single) -> Single,
    D: Fn(Single, Single) -> Single,
    A: Fn(Vec<Single>) -> Single,
    Z: Fn(Single, Scale) -> Single,
>(
    math: OutlierMath<M, D, A, Z>,
    values: Seq<Single>,
    median: Single,
    median_dev: Single,
    mean_dev: Single,
) -> bool {
    let sorted = ascending_values(values, values.len());
    is_middle(math.mean_of_two, sorted, median) && exists|list: Vec<Single>|
        {
            &&& list@.len() == sorted.len()
            &&& forall|i: int|
                0 <= i < sorted.len() ==> math.distance.ensures(
                    (#[trigger] sorted[i], median),
                    list@[i],
                )
            &&& is_middle(
                math.mean_of_two,
                ascending_values(list@, list@.len()),
                median_dev,
            )
            &&& #[trigger] math.mean.ensures((list,), mean_dev)
        }
}

/// The values of the samples that are not left out, in order.
pub open spec fn values_left(samples: Seq<WeightedSample>) -> Seq<Single> {
    samples.filter(|s: WeightedSample| !s.excluded).map_values(|s: WeightedSample| s.value)
}

/// Outliers are found wherever they can be told: among three samples or more that
/// are not left out, each is judged by its distance from the median, on the scale of
/// the median distance where that is above 2^-23, else on that of the mean distance;
/// and only where that is not above 2^-23 either nothing changes.
pub proof fn outliers_are_found_wherever_they_can_be_told<
    M: Fn(Single, Single) -> Single,
    D: Fn(Single, Single) -> Single,
    A: Fn(Vec<Single>) -> Single,
    Z: Fn(Single, Scale) -> Single,
>(
    math: OutlierMath<M, D, A, Z>,
    before: Seq<WeightedSample>,
    after: Seq<WeightedSample>,
    z_thresh: Single,
)
    requires
        math.found(before, after, z_thresh),
        before.filter(|s: WeightedSample| !s.excluded).len() >= 3,
    ensures
        exists|median: Single, median_dev: Single, mean_dev: Single|
            {
                &&& #[trigger] deviates(
                    math,
                    values_left(before),
                    median,
                    median_dev,
                    mean_dev,
                )
                &&& if (Single { bits: 0x3400_0000 }).below(median_dev) {
                    told_by_distance(
                        math,
                        before,
                        after,
                        z_thresh,
                        median,
                        Scale::MedianDeviation(median_dev),
                    )
                } else if mean_dev.at_most(Single { bits: 0x3400_0000 }) {
                    after == before
                } else {
                    told_by_distance(
                        math,
                        before,
                        after,
                        z_thresh,
                        median,
                        Scale::MeanDeviation(mean_dev),
                    )
                }
            },
{
    live_samples_are_those_not_left_out(before);
    let (median, distances, median_dev, mean_dev, scores) = choose|
        median: Single,
        distances: Seq<Single>,
        median_dev: Single,
        mean_dev: Single,
        scores: Seq<Single>,
    | #[trigger]
        math.finds(
            before,
            after,
            z_thresh,
            median,
            distances,
            median_dev,
            mean_dev,
            scores,
        );
    let values = values_in(live_from(before, before.len()));
    assert(values =~= values_left(before));
    let sorted = ascending_values(values, values.len());
    medians_are_taken_in_the_middle(math, values, median);
    medians_are_taken_in_the_middle(math, distances, median_dev);
    let list = choose|list: Vec<Single>|
        list@ == distances && #[trigger] math.mean.ensures((list,), mean_dev);
    assert(list@ == distances);
    assert forall|i: int| 0 <= i < sorted.len() implies math.distance.ensures(
        (#[trigger] sorted[i], median),
        list@[i],
    ) by {}
    assert(deviates(math, values, median, median_dev, mean_dev));
    if let Some(scale) = scale_for(median_dev, mean_dev) {
        assert forall|i: int|
            #![trigger after[i]]
            0 <= i < before.len() implies {
            &&& before[i].excluded ==> after[i].excluded
            &&& !before[i].excluded ==> exists|d: Single, score: Single|
                math.distance.ensures((before[i].value, median), d)
                    && #[trigger] math.score.ensures((d, scale), score) && (after[i].excluded
                    <==> !z_thresh.nan() && !score.nan() && z_thresh.value() < score.value())
        } by {
            assert(math.is_score(before[i], median, scale, scores[i]));
            verdict_is_by_the_score_alone(before, scores, z_thresh, i, i);
        }
        assert(told_by_distance(math, before, after, z_thresh, median, scale));
    }
}

/// Whether sums have a mean: their weights add up to something, and the mean is a
/// finite number.
pub open spec fn has_mean(s: Spread) -> bool {
    !s.weight_sum.at_most(Single { bits: 0x3400_0000 }) && s.mean.finite()
}

/// There is a value wherever the samples have a mean, and none elsewhere. Spread and
/// confidence are those of the value, the standard deviation of the samples kept,
/// their number and the number left out; a standard deviation of 0 stands for none.
pub proof fn values_exist_wherever_there_is_a_mean<
    W: Fn(Single, u64, Single) -> Single,
    S: Fn(Vec<WeightedSample>) -> Spread,
    C: Fn(Single, Single, u8, u8, AggParams) -> (Single, Single),
    M: Fn(Single, Single) -> Single,
    D: Fn(Single, Single) -> Single,
    A: Fn(Vec<Single>) -> Single,
    Z: Fn(Single, Scale) -> Single,
>(
    finite: Seq<Measurement>,
    weights: Seq<Single>,
    params: AggParams,
    math: ValueMath<W, S, C>,
    outliers: OutlierMath<M, D, A, Z>,
    v: AggregatedValue,
)
    requires
        value_weighed(finite, weights, params, math, outliers, v),
    ensures
        finite.len() == 0 ==> v == no_value(),
        v == no_value() <==> !v.value.finite(),
        finite.len() > 0 ==> exists|list: Vec<WeightedSample>, all: Spread|
            {
                &&& list@ == first_samples(as_samples(finite, weights))
                &&& #[trigger] math.sum.ensures((list,), all)
                &&& v.value.finite() <==> has_mean(all)
            },
        v.value.finite() ==> exists|kept: Seq<WeightedSample>, list: Vec<WeightedSample>, sums: Spread|
            {
                &&& #[trigger] outliers.found(
                    first_samples(as_samples(finite, weights)),
                    kept,
                    params.z_thresh,
                )
                &&& list@ == kept.filter(|s: WeightedSample| !s.excluded)
                &&& #[trigger] math.sum.ensures((list,), sums)
                &&& math.confidence.ensures(
                    (
                        v.value,
                        if list@.len() > 0 && !sums.weight_sum.at_most(
                            Single { bits: 0x3400_0000 },
                        ) {
                            sums.std
                        } else {
                            Single { bits: 0 }
                        },
                        v.n_used,
                        v.n_excluded,
                        params,
                    ),
                    (v.cv, v.confidence),
                )
            },
{
    let samples = first_samples(as_samples(finite, weights));
    assert(!no_value().value.finite());
    if samples.len() > 0 {
        let (kept, all, used) = choose|
            j: Seq<WeightedSample>,
            all: (Single, Single, int),
            used: (Single, Single, int),
        | #[trigger]
            value_made(math.sum, math.confidence, outliers, params, samples, j, all, used, v);
        lemma_all_live(samples, samples.len());
        lemma_live_is_all(samples, samples.len());
        assert(samples.take(samples.len() as int) =~= samples);
        live_samples_are_those_not_left_out(kept);
        let (all_list, all_sums) = choose|list: Vec<WeightedSample>, sums: Spread|
            list@ == live_from(samples, samples.len()) && #[trigger] math.sum.ensures((list,), sums)
                && all == stats_of(list@, sums);
        assert(all_list@ == samples);
        assert(math.sum.ensures((all_list,), all_sums));
        if all.0.finite() {
            let (list, sums) = choose|list: Vec<WeightedSample>, sums: Spread|
                list@ == live_from(kept, kept.len()) && #[trigger] math.sum.ensures((list,), sums)
                    && used == stats_of(list@, sums);
            assert(list@ == kept.filter(|s: WeightedSample| !s.excluded));
            assert(outliers.found(samples, kept, params.z_thresh));
            assert(math.sum.ensures((list,), sums));
        }
    }
}

/// The value of nothing is no number, has no spread and no trust, and counts
/// nothing.
pub proof fn nothing_is_worth_nothing()
    ensures
        no_value().value.nan(),
        no_value().cv.bits == 0,
        no_value().confidence.bits == 0,
        no_value().n_used == 0,
        no_value().n_excluded == 0,
{
}

/// A measurement is weighed by its source, its age and the ageing time: the age is
/// what has passed since it was taken, and nothing for one from the future.
pub proof fn measurements_are_weighed_by_source_and_age<W: Fn(Single, u64, Single) -> Single>(
    weight: W,
    measurements: Seq<Measurement>,
    now: u64,
    params: AggParams,
    weights: Seq<Single>,
    i: int,
    passed: u64,
)
    requires
        weighed(weight, measurements, now, params, weights),
        0 <= i < measurements.len(),
        measurements[i].observed_at <= now ==> measurements[i].observed_at + passed == now,
        measurements[i].observed_at > now ==> passed == 0,
    ensures
        weights.len() == measurements.len(),
        measurements[i].source is Jma ==> weight.ensures((params.w_jma, passed, params.tau_secs), weights[i]),
        measurements[i].source is OpenMeteo ==> weight.ensures(
            (params.w_open_meteo, passed, params.tau_secs),
            weights[i],
        ),
        measurements[i].source is OpenWeatherMap ==> weight.ensures(
            (params.w_owm, passed, params.tau_secs),
            weights[i],
        ),
{
    assert(is_weight(weight, measurements[i], now, params, weights[i]));
}

/// The agency weighs most and OpenWeatherMap least, every source something; an
/// outlier scores above 3.5, and three sources are expected.
pub proof fn the_agency_weighs_most(tau: Single)
    ensures
        ({
            let p = params_with(tau);
            &&& p.w_owm.below(p.w_open_meteo)
            &&& p.w_open_meteo.below(p.w_jma)
            &&& (Single { bits: 0 }).below(p.w_owm)
            &&& p.w_jma.bits == 0x3F80_0000
            &&& p.w_open_meteo.bits == 0x3F66_6666
            &&& p.w_owm.bits == 0x3F4C_CCCD
            &&& p.z_thresh.bits == 0x4060_0000
            &&& p.cv_max.bits == 0x3E4C_CCCD
            &&& p.n_expected == 3
            &&& p.tau_secs == tau
        }),
{
    (Single { bits: 0x3F4C_CCCD }).positive_order(Single { bits: 0x3F66_6666 });
    (Single { bits: 0x3F66_6666 }).positive_order(Single { bits: 0x3F80_0000 });
    (Single { bits: 0 }).positive_order(Single { bits: 0x3F4C_CCCD });
}

/// The wind has the direction that the sums over all finite measurements say, and
/// counts them all; it has none exactly where there are none, or where their
/// weights add up to nothing.
pub proof fn wind_is_what_the_sums_say<S: Fn(Vec<WeightedSample>) -> WindSums>(
    sum: S,
    finite: Seq<Measurement>,
    weights: Seq<Single>,
    r: WindDirResult,
)
    requires
        wind_made(sum, finite, weights, r),
        finite.len() <= 255,
    ensures
        exists|list: Vec<WeightedSample>, sums: WindSums|
            {
                &&& #[trigger] sum.ensures((list,), sums)
                &&& list@.len() == finite.len()
                &&& forall|i: int|
                    0 <= i < finite.len() ==> (#[trigger] list@[i]).value == finite[i].value
                        && list@[i].weight == weights[i] && !list@[i].excluded
                &&& if finite.len() > 0 && !sums.weight_sum.at_most(Single { bits: 0x3400_0000 }) {
                    r.dir_deg == sums.dir_deg && r.concentration == sums.concentration && r.n_used
                        == finite.len()
                } else {
                    r.dir_deg.nan() && r.concentration.bits == 0 && r.n_used == 0
                }
            },
{
    let (list, sums) = choose|list: Vec<WeightedSample>, sums: WindSums|
        list@ == as_samples(finite, weights) && #[trigger] sum.ensures((list,), sums) && r
            == wind_of(finite.len() as int, sums);
    assert(sum.ensures((list,), sums));
}

/// Where no score is a number above -1, as where all weights are no numbers, and
/// the agency has no say, the sky counts as clear.
pub proof fn without_a_score_the_sky_is_clear(
    votes: Seq<(SourceId, WeatherCode)>,
    history: Seq<Seq<Single>>,
    decided: WeatherCode,
)
    requires
        decides(votes, history, decided),
        forall|i: int|
            0 <= i < 9 ==> !(Single { bits: 0xBF80_0000 }).below(#[trigger] history.last()[i]),
    ensures
        decided == WeatherCode::Clear,
{
    if agency_choice(votes, history.last(), 0) is Some {
        lemma_agency_choice_unbeaten(votes, history.last(), 0);
        places_are_distinct(decided, 0);
        assert(stands(history.last()[code_place(decided)]));
    } else {
        assert forall|q: int| 0 <= q < 9 implies !#[trigger] unbeaten(history.last(), q) by {
            assert(!stands(history.last()[q]));
        }
        places_are_distinct(decided, code_place(decided));
        places_are_distinct(WeatherCode::Clear, 0);
    }
}

/// States stand in the count in the order of their list, so that of states with
/// one score and no vote the sky counts as clear before all others.
pub proof fn states_are_counted_in_the_order_of_their_list()
    ensures
        code_place(WeatherCode::Clear) == 0,
        code_place(WeatherCode::PartlyCloudy) == 1,
        code_place(WeatherCode::Cloudy) == 2,
        code_place(WeatherCode::Fog) == 3,
        code_place(WeatherCode::Drizzle) == 4,
        code_place(WeatherCode::Rain) == 5,
        code_place(WeatherCode::Snow) == 6,
        code_place(WeatherCode::Thunderstorm) == 7,
        code_place(WeatherCode::Unknown) == 8,
{
}

} // verus!
