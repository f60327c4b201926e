//! The timeline: which of the announced radar images are shown, in which order.

use vstd::prelude::*;

use crate::calendar::{unix_time, validtime_to_unix};
use crate::text::same_text;

verus! {

/// The most observed images on the timeline.
pub const NOWCAST_FRAMES: usize = 6;

/// The most forecast images on the timeline.
pub const FORECAST_FRAMES: usize = 7;

/// An announced radar image: when it was computed, and the time it shows.
pub struct TargetTime {
    pub basetime: String,
    pub validtime: String,
}

/// A radar image chosen for the timeline.
#[derive(Debug)]
pub struct FrameSpec {
    pub basetime: String,
    pub validtime: String,
    /// The time it shows, in seconds from the start of 1970.
    pub valid_unix: u64,
    pub is_forecast: bool,
}

/// What a [`TargetTime`] holds.
pub struct TimeModel {
    pub basetime: Seq<char>,
    pub validtime: Seq<char>,
}

/// What a [`FrameSpec`] holds.
pub struct FrameModel {
    pub basetime: Seq<char>,
    pub validtime: Seq<char>,
    pub valid_unix: int,
    pub is_forecast: bool,
}

impl TargetTime {
    pub open spec fn model(self) -> TimeModel {
        TimeModel { basetime: self.basetime@, validtime: self.validtime@ }
    }
}

impl FrameSpec {
    pub open spec fn model(self) -> FrameModel {
        FrameModel {
            basetime: self.basetime@,
            validtime: self.validtime@,
            valid_unix: self.valid_unix as int,
            is_forecast: self.is_forecast,
        }
    }

    /// A frame that holds the same.
    fn copy(&self) -> (f: FrameSpec)
        ensures
            f.model() == self.model(),
    {
        FrameSpec {
            basetime: self.basetime.clone(),
            validtime: self.validtime.clone(),
            valid_unix: self.valid_unix,
            is_forecast: self.is_forecast,
        }
    }
}

/// What the times of a list hold.
pub open spec fn time_models(times: Seq<TargetTime>) -> Seq<TimeModel> {
    times.map_values(|t: TargetTime| t.model())
}

/// What the frames of a list hold.
pub open spec fn frame_models(frames: Seq<FrameSpec>) -> Seq<FrameModel> {
    frames.map_values(|f: FrameSpec| f.model())
}

/// Where a frame at `time` goes among the first `n` frames: behind those that
/// show no later time.
pub open spec fn place(frames: Seq<FrameModel>, n: nat, time: int) -> nat
    decreases n,
{
    if n > 0 && frames[n - 1].valid_unix > time {
        place(frames, (n - 1) as nat, time)
    } else {
        n
    }
}

/// The frames with one more in its place.
pub open spec fn with_frame(frames: Seq<FrameModel>, f: FrameModel) -> Seq<FrameModel> {
    frames.insert(place(frames, frames.len(), f.valid_unix) as int, f)
}

/// The first `n` frames by time; those that show the same time stay in order.
pub open spec fn by_time(frames: Seq<FrameModel>, n: nat) -> Seq<FrameModel>
    decreases n,
{
    if n == 0 {
        Seq::empty()
    } else {
        with_frame(by_time(frames, (n - 1) as nat), frames[n - 1])
    }
}

/// The frames of the first `n` announced images. One whose time cannot be read
/// is passed over.
pub open spec fn readable(times: Seq<TimeModel>, n: nat, is_forecast: bool) -> Seq<FrameModel>
    decreases n,
{
    if n == 0 {
        Seq::empty()
    } else {
        let before = readable(times, (n - 1) as nat, is_forecast);
        let t = times[n - 1];
        match unix_time(t.validtime) {
            Some(valid_unix) => before.push(
                FrameModel {
                    basetime: t.basetime,
                    validtime: t.validtime,
                    valid_unix,
                    is_forecast,
                },
            ),
            None => before,
        }
    }
}

/// The frames of announced images, by time.
pub open spec fn frames_by_time(times: Seq<TimeModel>, is_forecast: bool) -> Seq<FrameModel> {
    let all = readable(times, times.len(), is_forecast);
    by_time(all, all.len())
}

/// The last `k` frames, or all if there are not so many.
pub open spec fn last_frames(frames: Seq<FrameModel>, k: int) -> Seq<FrameModel> {
    if frames.len() > k {
        frames.skip(frames.len() - k)
    } else {
        frames
    }
}

/// The observed frames: the last six.
pub open spec fn observed(n1: Seq<TimeModel>) -> Seq<FrameModel> {
    last_frames(frames_by_time(n1, false), NOWCAST_FRAMES as int)
}

/// The time of the last frame; 0 if there is none.
pub open spec fn last_time(frames: Seq<FrameModel>) -> int {
    if frames.len() > 0 {
        frames.last().valid_unix
    } else {
        0
    }
}

/// Those of the first `n` frames that show a time after `time`.
pub open spec fn after(frames: Seq<FrameModel>, n: nat, time: int) -> Seq<FrameModel>
    decreases n,
{
    if n == 0 {
        Seq::empty()
    } else {
        let before = after(frames, (n - 1) as nat, time);
        if frames[n - 1].valid_unix > time {
            before.push(frames[n - 1])
        } else {
            before
        }
    }
}

/// Every other frame, from the first on, and `k` at most.
pub open spec fn every_other(frames: Seq<FrameModel>, k: int) -> Seq<FrameModel> {
    let n = (frames.len() + 1) / 2;
    Seq::new(
        (if n <= k {
            n as int
        } else {
            k
        }) as nat,
        |i: int| frames[2 * i],
    )
}

/// The forecast frames: every other one after the last observed time, seven at
/// most.
pub open spec fn forecast(n2: Seq<TimeModel>, last_observed: int) -> Seq<FrameModel> {
    let all = frames_by_time(n2, true);
    every_other(after(all, all.len(), last_observed), FORECAST_FRAMES as int)
}

/// Whether one of the frames shows the time.
pub open spec fn shown(frames: Seq<FrameModel>, validtime: Seq<char>) -> bool {
    exists|i: int| 0 <= i < frames.len() && (#[trigger] frames[i]).validtime == validtime
}

/// Those of the first `n` frames that show a time not shown before.
pub open spec fn once(frames: Seq<FrameModel>, n: nat) -> Seq<FrameModel>
    decreases n,
{
    if n == 0 {
        Seq::empty()
    } else {
        let before = once(frames, (n - 1) as nat);
        if shown(before, frames[n - 1].validtime) {
            before
        } else {
            before.push(frames[n - 1])
        }
    }
}

/// The frames of a timeline before any is dropped for want of room: the last
/// observed frames and the forecast frames after them, each time once.
pub open spec fn whole_timeline(n1: Seq<TimeModel>, n2: Seq<TimeModel>) -> Seq<FrameModel> {
    let obs = observed(n1);
    let list = obs + forecast(n2, last_time(obs));
    once(list, list.len())
}

/// The timeline of observed images `n1` and forecast images `n2`: the last
/// observed frames and the forecast frames after them, each time once, by time,
/// the last `max_frames` of them.
pub open spec fn timeline(n1: Seq<TimeModel>, n2: Seq<TimeModel>, max_frames: int) -> Seq<FrameModel> {
    let all = whole_timeline(n1, n2);
    last_frames(by_time(all, all.len()), max_frames)
}

/// Puts a frame in its place by time.
fn insert_frame(frames: &mut Vec<FrameSpec>, f: FrameSpec)
    ensures
        frame_models(final(frames)@) == with_frame(frame_models(old(frames)@), f.model()),
{
    let ghost before = frame_models(frames@);
    let mut i: usize = frames.len();
    while i > 0 && frames[i - 1].valid_unix > f.valid_unix
        invariant
            i <= frames@.len(),
            frames@ == old(frames)@,
            before == frame_models(frames@),
            place(before, i as nat, f.valid_unix as int) == place(
                before,
                before.len(),
                f.valid_unix as int,
            ),
        decreases i,
    {
        i = i - 1;
    }
    frames.insert(i, f);
    proof {
        assert(frame_models(frames@) =~= before.insert(i as int, f.model()));
    }
}

/// Orders frames by time; those that show the same time stay in order.
fn sort_by_time(frames: &Vec<FrameSpec>) -> (sorted: Vec<FrameSpec>)
    ensures
        frame_models(sorted@) == by_time(frame_models(frames@), frames@.len()),
{
    let ghost model = frame_models(frames@);
    let mut sorted: Vec<FrameSpec> = Vec::new();
    proof {
        assert(frame_models(sorted@) =~= by_time(model, 0));
    }
    let mut i: usize = 0;
    while i < frames.len()
        invariant
            i <= frames@.len(),
            model == frame_models(frames@),
            frame_models(sorted@) == by_time(model, i as nat),
        decreases frames@.len() - i,
    {
        insert_frame(&mut sorted, frames[i].copy());
        i = i + 1;
    }
    sorted
}

/// The frames of announced images, by time.
fn read_frames(times: &[TargetTime], is_forecast: bool) -> (frames: Vec<FrameSpec>)
    ensures
        frame_models(frames@) == frames_by_time(time_models(times@), is_forecast),
{
    let ghost model = time_models(times@);
    let mut all: Vec<FrameSpec> = Vec::new();
    proof {
        assert(frame_models(all@) =~= readable(model, 0, is_forecast));
    }
    let mut i: usize = 0;
    while i < times.len()
        invariant
            i <= times@.len(),
            model == time_models(times@),
            frame_models(all@) == readable(model, i as nat, is_forecast),
        decreases times@.len() - i,
    {
        let t = &times[i];
        let ghost before = frame_models(all@);
        if let Some(valid_unix) = validtime_to_unix(t.validtime.as_str()) {
            let f = FrameSpec {
                basetime: t.basetime.clone(),
                validtime: t.validtime.clone(),
                valid_unix,
                is_forecast,
            };
            all.push(f);
            proof {
                assert(frame_models(all@) =~= before.push(f.model()));
            }
        }
        i = i + 1;
    }
    sort_by_time(&all)
}

/// The last `k` frames.
fn keep_last(frames: &Vec<FrameSpec>, k: usize) -> (kept: Vec<FrameSpec>)
    ensures
        frame_models(kept@) == last_frames(frame_models(frames@), k as int),
{
    let ghost model = frame_models(frames@);
    let start: usize = if frames.len() > k { frames.len() - k } else { 0 };
    let mut kept: Vec<FrameSpec> = Vec::new();
    let mut i: usize = start;
    while i < frames.len()
        invariant
            start <= i <= frames@.len(),
            model == frame_models(frames@),
            frame_models(kept@) =~= model.subrange(start as int, i as int),
        decreases frames@.len() - i,
    {
        let ghost before = frame_models(kept@);
        kept.push(frames[i].copy());
        proof {
            assert(frame_models(kept@) =~= before.push(model[i as int]));
        }
        i = i + 1;
    }
    proof {
        assert(frame_models(kept@) =~= last_frames(model, k as int));
    }
    kept
}

/// Whether one of the frames shows the time.
fn is_shown(frames: &Vec<FrameSpec>, validtime: &str) -> (r: bool)
    ensures
        r == shown(frame_models(frames@), validtime@),
{
    let ghost model = frame_models(frames@);
    let mut i: usize = 0;
    while i < frames.len()
        invariant
            i <= frames@.len(),
            model == frame_models(frames@),
            forall|k: int| 0 <= k < i ==> (#[trigger] model[k]).validtime != validtime@,
        decreases frames@.len() - i,
    {
        if same_text(frames[i].validtime.as_str(), validtime) {
            proof {
                assert(model[i as int].validtime == validtime@);
            }
            return true;
        }
        i = i + 1;
    }
    false
}

/// The forecast frames: every other one after a time, seven at most.
fn pick_forecast(n2: &[TargetTime], last_observed: u64) -> (frames: Vec<FrameSpec>)
    ensures
        frame_models(frames@) == forecast(time_models(n2@), last_observed as int),
{
    let all = read_frames(n2, true);
    let ghost model = frame_models(all@);
    let mut later: Vec<FrameSpec> = Vec::new();
    proof {
        assert(frame_models(later@) =~= after(model, 0, last_observed as int));
    }
    let mut i: usize = 0;
    while i < all.len()
        invariant
            i <= all@.len(),
            model == frame_models(all@),
            frame_models(later@) == after(model, i as nat, last_observed as int),
        decreases all@.len() - i,
    {
        let ghost before = frame_models(later@);
        if all[i].valid_unix > last_observed {
            later.push(all[i].copy());
            proof {
                assert(frame_models(later@) =~= before.push(model[i as int]));
            }
        }
        i = i + 1;
    }
    let ghost later_model = frame_models(later@);
    let mut picked: Vec<FrameSpec> = Vec::new();
    let half: usize = later.len() / 2 + later.len() % 2;
    let n: usize = if half <= FORECAST_FRAMES { half } else { FORECAST_FRAMES };
    let mut k: usize = 0;
    while k < n
        invariant
            k <= n <= (later@.len() + 1) / 2,
            n <= FORECAST_FRAMES,
            later_model == frame_models(later@),
            frame_models(picked@) =~= Seq::new(k as nat, |i: int| later_model[2 * i]),
        decreases n - k,
    {
        let ghost before = frame_models(picked@);
        picked.push(later[2 * k].copy());
        proof {
            assert(frame_models(picked@) =~= before.push(later_model[2 * k]));
        }
        k = k + 1;
    }
    proof {
        assert(frame_models(picked@) =~= every_other(later_model, FORECAST_FRAMES as int));
    }
    picked
}

/// The frames that show a time not shown before.
fn keep_once(frames: &Vec<FrameSpec>) -> (kept: Vec<FrameSpec>)
    ensures
        frame_models(kept@) == once(frame_models(frames@), frames@.len()),
{
    let ghost model = frame_models(frames@);
    let mut kept: Vec<FrameSpec> = Vec::new();
    proof {
        assert(frame_models(kept@) =~= once(model, 0));
    }
    let mut i: usize = 0;
    while i < frames.len()
        invariant
            i <= frames@.len(),
            model == frame_models(frames@),
            frame_models(kept@) == once(model, i as nat),
        decreases frames@.len() - i,
    {
        let ghost before = frame_models(kept@);
        if !is_shown(&kept, frames[i].validtime.as_str()) {
            kept.push(frames[i].copy());
            proof {
                assert(frame_models(kept@) =~= before.push(model[i as int]));
            }
        }
        i = i + 1;
    }
    kept
}

/// Chooses the images of the timeline among the announced ones, observed and
/// forecast, in whatever order they come. No time is shown twice.
pub fn select_frame_specs(n1: &[TargetTime], n2: &[TargetTime], max_frames: usize) -> (frames: Vec<
    FrameSpec,
>)
    ensures
        frame_models(frames@) == timeline(time_models(n1@), time_models(n2@), max_frames as int),
{
    let obs_all = read_frames(n1, false);
    let mut list = keep_last(&obs_all, NOWCAST_FRAMES);
    let ghost obs = list@;
    let last_obs: u64 = if list.len() > 0 { list[list.len() - 1].valid_unix } else { 0 };
    let mut fc = pick_forecast(n2, last_obs);
    let ghost more = fc@;
    list.append(&mut fc);
    proof {
        assert(frame_models(list@) =~= frame_models(obs) + frame_models(more));
    }
    let all = keep_once(&list);
    let sorted = sort_by_time(&all);
    keep_last(&sorted, max_frames)
}

/// Whether no frame shows an earlier time than one before it.
pub open spec fn in_order(frames: Seq<FrameModel>) -> bool {
    forall|i: int, j: int|
        0 <= i <= j < frames.len() ==> (#[trigger] frames[i]).valid_unix <= (
        #[trigger] frames[j]).valid_unix
}

proof fn lemma_place(frames: Seq<FrameModel>, n: nat, time: int)
    requires
        n <= frames.len(),
    ensures
        place(frames, n, time) <= n,
        forall|i: int|
            place(frames, n, time) <= i < n ==> (#[trigger] frames[i]).valid_unix > time,
        place(frames, n, time) > 0 ==> frames[place(frames, n, time) - 1].valid_unix <= time,
    decreases n,
{
    if n > 0 && frames[n - 1].valid_unix > time {
        lemma_place(frames, (n - 1) as nat, time);
    }
}

/// Putting frames in order loses none, adds none, and orders them.
proof fn lemma_by_time(frames: Seq<FrameModel>, n: nat)
    requires
        n <= frames.len(),
    ensures
        in_order(by_time(frames, n)),
        by_time(frames, n).len() == n,
        by_time(frames, n).to_multiset() == frames.take(n as int).to_multiset(),
    decreases n,
{
    if n > 0 {
        let m = (n - 1) as nat;
        lemma_by_time(frames, m);
        let before = by_time(frames, m);
        let f = frames[n - 1];
        let p = place(before, before.len(), f.valid_unix);
        lemma_place(before, before.len(), f.valid_unix);
        let now = by_time(frames, n);
        assert(now == before.insert(p as int, f));
        assert forall|i: int, j: int| 0 <= i <= j < now.len() implies (
        #[trigger] now[i]).valid_unix <= (#[trigger] now[j]).valid_unix by {
            let bi = if i < p {
                i
            } else {
                i - 1
            };
            let bj = if j < p {
                j
            } else {
                j - 1
            };
            if i != p && j != p {
                assert(before[bi].valid_unix <= before[bj].valid_unix);
            } else if i == p && j != p {
                assert(before[bj].valid_unix > f.valid_unix);
            } else if i != p && j == p {
                assert(before[bi].valid_unix <= before[p - 1].valid_unix);
            }
        }
        vstd::seq_lib::to_multiset_insert(before, p as int, f);
        assert(frames.take(n as int) =~= frames.take(m as int).push(f));
        broadcast use vstd::seq_lib::group_to_multiset_ensures;

    } else {
        assert(frames.take(0) =~= by_time(frames, 0));
    }
}

/// Frames that are in order stay as they are.
proof fn lemma_by_time_in_order(frames: Seq<FrameModel>, n: nat)
    requires
        n <= frames.len(),
        in_order(frames),
    ensures
        by_time(frames, n) == frames.take(n as int),
    decreases n,
{
    if n > 0 {
        let m = (n - 1) as nat;
        lemma_by_time_in_order(frames, m);
        let before = by_time(frames, m);
        if m > 0 {
            assert(before[m - 1].valid_unix == frames[m - 1].valid_unix);
            assert(frames[m - 1].valid_unix <= frames[n - 1].valid_unix);
        }
        assert(place(before, before.len(), frames[n - 1].valid_unix) == m);
    }
    assert(by_time(frames, n) =~= frames.take(n as int));
}

/// Whether the frames are all of one sort.
spec fn all_of(frames: Seq<FrameModel>, is_forecast: bool) -> bool {
    forall|i: int| 0 <= i < frames.len() ==> (#[trigger] frames[i]).is_forecast == is_forecast
}

proof fn lemma_readable(times: Seq<TimeModel>, n: nat, is_forecast: bool)
    requires
        n <= times.len(),
    ensures
        all_of(readable(times, n, is_forecast), is_forecast),
    decreases n,
{
    if n > 0 {
        lemma_readable(times, (n - 1) as nat, is_forecast);
    }
}

proof fn lemma_frames_by_time(times: Seq<TimeModel>, is_forecast: bool)
    ensures
        in_order(frames_by_time(times, is_forecast)),
        all_of(frames_by_time(times, is_forecast), is_forecast),
{
    let all = readable(times, times.len(), is_forecast);
    lemma_readable(times, times.len(), is_forecast);
    lemma_by_time(all, all.len());
    let sorted = by_time(all, all.len());
    assert(all.take(all.len() as int) =~= all);
    assert forall|i: int| 0 <= i < sorted.len() implies (#[trigger] sorted[i]).is_forecast
        == is_forecast by {
        broadcast use vstd::seq_lib::group_to_multiset_ensures;

        assert(sorted.to_multiset().count(sorted[i]) > 0);
        assert(all.contains(sorted[i]));
    }
}

proof fn lemma_after(frames: Seq<FrameModel>, n: nat, time: int)
    requires
        n <= frames.len(),
        in_order(frames),
        all_of(frames, true),
    ensures
        in_order(after(frames, n, time)),
        all_of(after(frames, n, time), true),
        forall|i: int|
            0 <= i < after(frames, n, time).len() ==> (#[trigger] after(frames, n, time)[i]).valid_unix
                > time,
        n > 0 ==> forall|i: int|
            0 <= i < after(frames, n, time).len() ==> (#[trigger] after(frames, n, time)[i]).valid_unix
                <= frames[n - 1].valid_unix,
    decreases n,
{
    if n > 0 {
        lemma_after(frames, (n - 1) as nat, time);
        if n > 1 {
            assert(frames[n - 2].valid_unix <= frames[n - 1].valid_unix);
        }
    }
}

/// What is left of frames that show each time once: still in order, and still
/// observed ones, up to time `t`, before forecast ones; `m` of the frames given
/// are observed.
proof fn lemma_once(list: Seq<FrameModel>, m: nat, t: int, n: nat)
    requires
        n <= list.len(),
        m <= list.len(),
        in_order(list),
        forall|i: int|
            0 <= i < m ==> !(#[trigger] list[i]).is_forecast && list[i].valid_unix <= t,
        forall|i: int|
            m <= i < list.len() ==> (#[trigger] list[i]).is_forecast && list[i].valid_unix > t,
    ensures
        in_order(once(list, n)),
        no_time_twice(once(list, n)),
        n > 0 ==> forall|i: int|
            0 <= i < once(list, n).len() ==> (#[trigger] once(list, n)[i]).valid_unix
                <= list[n - 1].valid_unix,
        n <= m ==> once(list, n).len() <= n && forall|i: int|
            0 <= i < once(list, n).len() ==> !(#[trigger] once(list, n)[i]).is_forecast
                && once(list, n)[i].valid_unix <= t,
        n >= m ==> once(list, m).len() <= m && once(list, m).len() <= once(list, n).len() <= once(
            list,
            m,
        ).len() + (n - m) && forall|i: int|
            0 <= i < once(list, n).len() ==> (#[trigger] once(list, n)[i]).is_forecast == (i
                >= once(list, m).len()) && (once(list, n)[i].valid_unix > t) == (i >= once(
                list,
                m,
            ).len()),
    decreases n,
{
    if n > 0 {
        lemma_once(list, m, t, (n - 1) as nat);
        let before = once(list, (n - 1) as nat);
        let now = once(list, n);
        let f = list[n - 1];
        if n > 1 {
            assert(list[n - 2].valid_unix <= f.valid_unix);
        }
        if !shown(before, f.validtime) {
            assert(now == before.push(f));
            assert forall|i: int, j: int| 0 <= i <= j < now.len() implies (
            #[trigger] now[i]).valid_unix <= (#[trigger] now[j]).valid_unix by {
                if j < before.len() {
                    assert(before[i].valid_unix <= before[j].valid_unix);
                } else if i < before.len() {
                    assert(before[i].valid_unix <= f.valid_unix);
                }
            }
            assert forall|i: int, j: int| 0 <= i < j < now.len() implies (
            #[trigger] now[i]).validtime != (#[trigger] now[j]).validtime by {
                if j < before.len() {
                    assert(before[i].validtime != before[j].validtime);
                } else {
                    assert(before[i].validtime != f.validtime);
                }
            }
        }
    }
}

/// Whether no two frames show the same time.
pub open spec fn no_time_twice(frames: Seq<FrameModel>) -> bool {
    forall|i: int, j: int|
        0 <= i < j < frames.len() ==> (#[trigger] frames[i]).validtime != (
        #[trigger] frames[j]).validtime
}

proof fn lemma_timeline(n1: Seq<TimeModel>, n2: Seq<TimeModel>)
    ensures
        ({
            let all = whole_timeline(n1, n2);
            &&& in_order(all)
            &&& no_time_twice(all)
            &&& by_time(all, all.len()) == all
            &&& exists|k: int| #[trigger]
                splits(all, k) && k <= NOWCAST_FRAMES && all.len() - k <= FORECAST_FRAMES
            &&& forall|i: int, j: int|
                0 <= i < all.len() && 0 <= j < all.len() && !(#[trigger] all[i]).is_forecast && (
                #[trigger] all[j]).is_forecast ==> all[i].valid_unix < all[j].valid_unix
        }),
{
    lemma_frames_by_time(n1, false);
    lemma_frames_by_time(n2, true);
    let sorted1 = frames_by_time(n1, false);
    let obs = observed(n1);
    let t = last_time(obs);
    assert forall|i: int| 0 <= i < obs.len() implies #[trigger] obs[i] == sorted1[i + sorted1.len()
        - obs.len()] by {}
    assert forall|i: int| 0 <= i < obs.len() implies !(#[trigger] obs[i]).is_forecast
        && obs[i].valid_unix <= t by {
        let off = sorted1.len() - obs.len();
        assert(obs[i] == sorted1[i + off]);
        assert(obs[obs.len() - 1] == sorted1[obs.len() - 1 + off]);
    }
    let sorted2 = frames_by_time(n2, true);
    lemma_after(sorted2, sorted2.len(), t);
    let later = after(sorted2, sorted2.len(), t);
    let fc = forecast(n2, t);
    assert forall|i: int| 0 <= i < fc.len() implies #[trigger] fc[i] == later[2 * i] && 0 <= 2 * i
        < later.len() by {}
    assert forall|i: int| 0 <= i < fc.len() implies (#[trigger] fc[i]).is_forecast
        && fc[i].valid_unix > t by {
        assert(later[2 * i].is_forecast && later[2 * i].valid_unix > t);
    }
    let list = obs + fc;
    assert forall|i: int, j: int| 0 <= i <= j < list.len() implies (#[trigger] list[i]).valid_unix
        <= (#[trigger] list[j]).valid_unix by {
        let off = sorted1.len() - obs.len();
        if j < obs.len() {
            assert(obs[i] == sorted1[i + off] && obs[j] == sorted1[j + off]);
        } else if i >= obs.len() {
            let (a, b) = (i - obs.len(), j - obs.len());
            assert(fc[a] == later[2 * a] && fc[b] == later[2 * b]);
            assert(later[2 * a].valid_unix <= later[2 * b].valid_unix);
        } else {
            assert(list[i] == obs[i] && list[j] == fc[j - obs.len()]);
        }
    }
    lemma_once(list, obs.len(), t, list.len());
    let all = whole_timeline(n1, n2);
    lemma_by_time_in_order(all, all.len());
    assert(all.take(all.len() as int) =~= all);
    assert(splits(all, once(list, obs.len()).len() as int));
}

/// Whether the frames before place `k` are observed, and the others forecast.
pub open spec fn splits(frames: Seq<FrameModel>, k: int) -> bool {
    0 <= k <= frames.len() && forall|i: int|
        0 <= i < frames.len() ==> (#[trigger] frames[i]).is_forecast == (i >= k)
}

/// The timeline is in order of time, and no longer than asked for.
pub proof fn timeline_is_in_order(n1: Seq<TimeModel>, n2: Seq<TimeModel>, max_frames: nat)
    ensures
        in_order(timeline(n1, n2, max_frames as int)),
        timeline(n1, n2, max_frames as int).len() <= max_frames,
        timeline(n1, n2, max_frames as int) == last_frames(
            whole_timeline(n1, n2),
            max_frames as int,
        ),
{
    lemma_timeline(n1, n2);
    let all = whole_timeline(n1, n2);
    let t = timeline(n1, n2, max_frames as int);
    assert forall|i: int, j: int| 0 <= i <= j < t.len() implies (#[trigger] t[i]).valid_unix <= (
    #[trigger] t[j]).valid_unix by {
        let off = all.len() - t.len();
        assert(t[i] == all[i + off] && t[j] == all[j + off]);
    }
}

/// At most six observed frames come first, and at most seven forecast frames
/// follow, each showing a later time than every observed one.
pub proof fn forecasts_follow_observations(n1: Seq<TimeModel>, n2: Seq<TimeModel>, max_frames: nat)
    ensures
        ({
            let t = timeline(n1, n2, max_frames as int);
            &&& exists|k: int| #[trigger]
                splits(t, k) && k <= NOWCAST_FRAMES && t.len() - k <= FORECAST_FRAMES
            &&& forall|i: int, j: int|
                0 <= i < t.len() && 0 <= j < t.len() && !(#[trigger] t[i]).is_forecast && (
                #[trigger] t[j]).is_forecast ==> t[i].valid_unix < t[j].valid_unix
        }),
{
    lemma_timeline(n1, n2);
    timeline_is_in_order(n1, n2, max_frames);
    let all = whole_timeline(n1, n2);
    let t = timeline(n1, n2, max_frames as int);
    let off = all.len() - t.len();
    let whole_k = choose|k: int| #[trigger]
        splits(all, k) && k <= NOWCAST_FRAMES && all.len() - k <= FORECAST_FRAMES;
    let k = if whole_k > off {
        whole_k - off
    } else {
        0
    };
    assert forall|i: int| 0 <= i < t.len() implies (#[trigger] t[i]).is_forecast == (i >= k) by {
        assert(t[i] == all[i + off]);
    }
    assert(splits(t, k));
    assert forall|i: int, j: int|
        0 <= i < t.len() && 0 <= j < t.len() && !(#[trigger] t[i]).is_forecast && (
        #[trigger] t[j]).is_forecast implies t[i].valid_unix < t[j].valid_unix by {
        assert(t[i] == all[i + off] && t[j] == all[j + off]);
    }
}

/// No two frames of a timeline show the same time.
pub proof fn timeline_shows_each_time_once(n1: Seq<TimeModel>, n2: Seq<TimeModel>, max_frames: nat)
    ensures
        no_time_twice(timeline(n1, n2, max_frames as int)),
{
    lemma_timeline(n1, n2);
    timeline_is_in_order(n1, n2, max_frames);
    let all = whole_timeline(n1, n2);
    let t = timeline(n1, n2, max_frames as int);
    assert forall|i: int, j: int| 0 <= i < j < t.len() implies (#[trigger] t[i]).validtime != (
    #[trigger] t[j]).validtime by {
        let off = all.len() - t.len();
        assert(t[i] == all[i + off] && t[j] == all[j + off]);
    }
}

/// Whether the images that can be read all show different times.
pub open spec fn distinct_times(times: Seq<TimeModel>) -> bool {
    forall|i: int, j: int|
        0 <= i < j < times.len() ==> unix_time((#[trigger] times[i]).validtime) is None || unix_time(
            (#[trigger] times[j]).validtime,
        ) != unix_time(times[i].validtime)
}

/// The images that can be read.
pub open spec fn readable_times(times: Seq<TimeModel>) -> Seq<TimeModel> {
    times.filter(|t: TimeModel| unix_time(t.validtime) is Some)
}

/// The frame of an image that can be read.
pub open spec fn frame_of(t: TimeModel, is_forecast: bool) -> FrameModel {
    FrameModel {
        basetime: t.basetime,
        validtime: t.validtime,
        valid_unix: unix_time(t.validtime)->0,
        is_forecast,
    }
}

/// The order of announced images, and those that cannot be read, change nothing:
/// announcements with the same readable images, in whatever order, of different
/// times within each list, make the same timeline.
pub proof fn announced_order_changes_nothing(
    a1: Seq<TimeModel>,
    a2: Seq<TimeModel>,
    b1: Seq<TimeModel>,
    b2: Seq<TimeModel>,
    max_frames: nat,
)
    requires
        readable_times(a1).to_multiset() == readable_times(b1).to_multiset(),
        readable_times(a2).to_multiset() == readable_times(b2).to_multiset(),
        distinct_times(a1),
        distinct_times(a2),
    ensures
        timeline(a1, a2, max_frames as int) == timeline(b1, b2, max_frames as int),
{
    lemma_same_frames(a1, b1, false);
    lemma_same_frames(a2, b2, true);
}

proof fn lemma_same_frames(a: Seq<TimeModel>, b: Seq<TimeModel>, is_forecast: bool)
    requires
        readable_times(a).to_multiset() == readable_times(b).to_multiset(),
        distinct_times(a),
    ensures
        frames_by_time(a, is_forecast) == frames_by_time(b, is_forecast),
{
    let ra = readable(a, a.len(), is_forecast);
    let rb = readable(b, b.len(), is_forecast);
    lemma_readable_is_map(a, a.len(), is_forecast);
    lemma_readable_is_map(b, b.len(), is_forecast);
    assert(a.take(a.len() as int) =~= a);
    assert(b.take(b.len() as int) =~= b);
    let f = |t: TimeModel| frame_of(t, is_forecast);
    lemma_map_multiset(readable_times(a), readable_times(b), f);
    lemma_readable_distinct(a, a.len(), is_forecast);
    lemma_by_time(ra, ra.len());
    lemma_by_time(rb, rb.len());
    assert(ra.take(ra.len() as int) =~= ra);
    assert(rb.take(rb.len() as int) =~= rb);
    lemma_strict(ra, by_time(ra, ra.len()));
    lemma_sorted_unique(by_time(ra, ra.len()), by_time(rb, rb.len()));
}

/// Whether times ascend strictly.
spec fn strictly(frames: Seq<FrameModel>) -> bool {
    forall|i: int, j: int|
        0 <= i < j < frames.len() ==> (#[trigger] frames[i]).valid_unix < (
        #[trigger] frames[j]).valid_unix
}

/// Whether all times are different.
spec fn different(frames: Seq<FrameModel>) -> bool {
    forall|i: int, j: int|
        0 <= i < j < frames.len() ==> (#[trigger] frames[i]).valid_unix != (
        #[trigger] frames[j]).valid_unix
}

proof fn lemma_readable_is_map(times: Seq<TimeModel>, n: nat, is_forecast: bool)
    requires
        n <= times.len(),
    ensures
        readable(times, n, is_forecast) == readable_times(times.take(n as int)).map_values(
            |t: TimeModel| frame_of(t, is_forecast),
        ),
    decreases n,
{
    reveal(Seq::filter);
    let f = |t: TimeModel| frame_of(t, is_forecast);
    if n > 0 {
        lemma_readable_is_map(times, (n - 1) as nat, is_forecast);
        let now = times.take(n as int);
        assert(now.drop_last() =~= times.take(n - 1));
        assert(now.last() == times[n - 1]);
        let before = readable_times(times.take(n - 1));
        if unix_time(times[n - 1].validtime) is Some {
            assert(readable_times(now) == before.push(times[n - 1]));
            assert(before.push(times[n - 1]).map_values(f) =~= before.map_values(f).push(
                f(times[n - 1]),
            ));
        } else {
            assert(readable_times(now) == before);
        }
    } else {
        assert(readable(times, 0, is_forecast) =~= readable_times(times.take(0)).map_values(f));
    }
}

/// A map keeps it that two lists hold the same.
proof fn lemma_map_multiset(a: Seq<TimeModel>, b: Seq<TimeModel>, f: spec_fn(TimeModel) -> FrameModel)
    requires
        a.to_multiset() == b.to_multiset(),
    ensures
        a.map_values(f).to_multiset() == b.map_values(f).to_multiset(),
    decreases a.len(),
{
    broadcast use vstd::seq_lib::group_to_multiset_ensures;

    if a.len() > 0 {
        let x = a.last();
        assert(a[a.len() - 1] == x);
        assert(a.to_multiset().count(x) > 0);
        assert(b.contains(x));
        let k = choose|k: int| 0 <= k < b.len() && b[k] == x;
        let c = b.remove(k);
        assert(b =~= c.insert(k, x));
        vstd::seq_lib::to_multiset_insert(c, k, x);
        let d = a.drop_last();
        assert(a =~= d.push(x));
        assert(d.to_multiset().insert(x) == c.to_multiset().insert(x));
        assert(d.to_multiset() =~= d.to_multiset().insert(x).remove(x));
        assert(c.to_multiset() =~= c.to_multiset().insert(x).remove(x));
        lemma_map_multiset(d, c, f);
        assert(a.map_values(f) =~= d.map_values(f).push(f(x)));
        assert(b.map_values(f) =~= c.map_values(f).insert(k, f(x)));
        vstd::seq_lib::to_multiset_insert(c.map_values(f), k, f(x));
    } else {
        assert(b.len() == 0) by {
            assert(a.to_multiset().len() == 0);
        }
        assert(a.map_values(f) =~= b.map_values(f));
    }
}

proof fn lemma_readable_distinct(times: Seq<TimeModel>, n: nat, is_forecast: bool)
    requires
        n <= times.len(),
        distinct_times(times),
    ensures
        different(readable(times, n, is_forecast)),
        forall|i: int|
            0 <= i < readable(times, n, is_forecast).len() ==> exists|k: int|
                0 <= k < n && unix_time((#[trigger] times[k]).validtime) == Some(
                    (#[trigger] readable(times, n, is_forecast)[i]).valid_unix,
                ),
    decreases n,
{
    if n > 0 {
        let m = (n - 1) as nat;
        lemma_readable_distinct(times, m, is_forecast);
        let before = readable(times, m, is_forecast);
        let now = readable(times, n, is_forecast);
        assert forall|i: int| 0 <= i < now.len() implies exists|k: int|
            0 <= k < n && unix_time((#[trigger] times[k]).validtime) == Some(
                (#[trigger] now[i]).valid_unix,
            ) by {
            if i < before.len() {
                assert(now[i] == before[i]);
                let k = choose|k: int|
                    0 <= k < m && unix_time((#[trigger] times[k]).validtime) == Some(
                        before[i].valid_unix,
                    );
                assert(unix_time(times[k].validtime) == Some(now[i].valid_unix));
            } else {
                assert(unix_time(times[n - 1].validtime) == Some(now[i].valid_unix));
            }
        }
        assert forall|i: int, j: int| 0 <= i < j < now.len() implies (#[trigger] now[i]).valid_unix
            != (#[trigger] now[j]).valid_unix by {
            assert(now[i] == before[i]);
            if j < before.len() {
                assert(now[j] == before[j]);
            } else {
                let k = choose|k: int|
                    0 <= k < m && unix_time((#[trigger] times[k]).validtime) == Some(
                        before[i].valid_unix,
                    );
                assert(unix_time(times[k].validtime) != unix_time(times[n - 1].validtime));
            }
        }
    }
}

/// Different times, put in order, ascend strictly.
proof fn lemma_strict(frames: Seq<FrameModel>, sorted: Seq<FrameModel>)
    requires
        different(frames),
        in_order(sorted),
        sorted.to_multiset() == frames.to_multiset(),
    ensures
        strictly(sorted),
{
    broadcast use vstd::seq_lib::group_to_multiset_ensures;

    assert forall|i: int, j: int| 0 <= i < j < sorted.len() implies (
    #[trigger] sorted[i]).valid_unix < (#[trigger] sorted[j]).valid_unix by {
        let (x, y) = (sorted[i], sorted[j]);
        assert(x.valid_unix <= y.valid_unix);
        if x.valid_unix == y.valid_unix {
            assert(sorted.to_multiset().count(x) > 0 && sorted.to_multiset().count(y) > 0);
            assert(frames.contains(x) && frames.contains(y));
            let a = choose|a: int| 0 <= a < frames.len() && frames[a] == x;
            let b = choose|b: int| 0 <= b < frames.len() && frames[b] == y;
            assert(a == b);
            assert(x == y);
            lemma_twice(sorted, i, j);
            lemma_once_only(frames, x);
        }
    }
}

/// A frame at two places counts twice.
proof fn lemma_twice(frames: Seq<FrameModel>, i: int, j: int)
    requires
        0 <= i < j < frames.len(),
        frames[i] == frames[j],
    ensures
        frames.to_multiset().count(frames[i]) >= 2,
{
    broadcast use vstd::seq_lib::group_to_multiset_ensures;

    let rest = frames.remove(j);
    assert(frames =~= rest.insert(j, frames[j]));
    vstd::seq_lib::to_multiset_insert(rest, j, frames[j]);
    assert(rest[i] == frames[i]);
    assert(rest.contains(frames[i]));
    assert(rest.to_multiset().count(frames[i]) > 0);
}

/// A frame of a time that no other has counts once.
proof fn lemma_once_only(frames: Seq<FrameModel>, x: FrameModel)
    requires
        different(frames),
    ensures
        frames.to_multiset().count(x) <= 1,
{
    broadcast use vstd::seq_lib::group_to_multiset_ensures;

    if frames.to_multiset().count(x) > 1 {
        assert(frames.contains(x));
        let a = choose|a: int| 0 <= a < frames.len() && frames[a] == x;
        let rest = frames.remove(a);
        assert(frames =~= rest.insert(a, x));
        vstd::seq_lib::to_multiset_insert(rest, a, x);
        assert(rest.to_multiset().count(x) > 0);
        assert(rest.contains(x));
        let b = choose|b: int| 0 <= b < rest.len() && rest[b] == x;
        if b < a {
            assert(frames[b] == x);
            assert(frames[b].valid_unix != frames[a].valid_unix);
        } else {
            assert(frames[b + 1] == x);
            assert(frames[a].valid_unix != frames[b + 1].valid_unix);
        }
    }
}

/// Frames that ascend strictly are known by what they are.
proof fn lemma_sorted_unique(a: Seq<FrameModel>, b: Seq<FrameModel>)
    requires
        strictly(a),
        in_order(b),
        a.to_multiset() == b.to_multiset(),
    ensures
        a == b,
    decreases a.len(),
{
    broadcast use vstd::seq_lib::group_to_multiset_ensures;

    assert(a.len() == a.to_multiset().len() && b.len() == b.to_multiset().len());
    if a.len() > 0 {
        let (x, y) = (a.last(), b.last());
        assert(a[a.len() - 1] == x && b[b.len() - 1] == y);
        assert(a.to_multiset().count(x) > 0 && b.to_multiset().count(y) > 0);
        assert(b.contains(x) && a.contains(y));
        let i = choose|i: int| 0 <= i < b.len() && b[i] == x;
        let j = choose|j: int| 0 <= j < a.len() && a[j] == y;
        assert(b[i].valid_unix <= b[b.len() - 1].valid_unix);
        if j < a.len() - 1 {
            assert(a[j].valid_unix < a[a.len() - 1].valid_unix);
        }
        assert(x == y);
        let (c, d) = (a.drop_last(), b.drop_last());
        assert(a =~= c.push(x) && b =~= d.push(x));
        assert(c.to_multiset() =~= c.to_multiset().insert(x).remove(x));
        assert(d.to_multiset() =~= d.to_multiset().insert(x).remove(x));
        assert forall|p: int, q: int| 0 <= p < q < c.len() implies (#[trigger] c[p]).valid_unix < (
        #[trigger] c[q]).valid_unix by {
            assert(a[p].valid_unix < a[q].valid_unix);
        }
        assert forall|p: int, q: int| 0 <= p <= q < d.len() implies (#[trigger] d[p]).valid_unix <= (
        #[trigger] d[q]).valid_unix by {
            assert(b[p].valid_unix <= b[q].valid_unix);
        }
        lemma_sorted_unique(c, d);
    } else {
        assert(a =~= b);
    }
}

/// The frames of a list are its readable images in order of time: none is lost or
/// added, no frame shows an earlier time than one before it, and those that show
/// one time stay in the order in which they were announced.
pub proof fn frames_are_the_readable_images_by_time(times: Seq<TimeModel>, is_forecast: bool, t: int)
    ensures
        ({
            let frames = frames_by_time(times, is_forecast);
            let announced = times.filter(
                |m: TimeModel| unix_time(m.validtime) is Some,
            ).map_values(|m: TimeModel| frame_of(m, is_forecast));
            &&& in_order(frames)
            &&& frames.to_multiset() == announced.to_multiset()
            &&& frames.filter(|f: FrameModel| f.valid_unix == t) == announced.filter(
                |f: FrameModel| f.valid_unix == t,
            )
        }),
{
    let all = readable(times, times.len(), is_forecast);
    lemma_readable_is_map(times, times.len(), is_forecast);
    assert(times.take(times.len() as int) =~= times);
    lemma_by_time(all, all.len());
    assert(all.take(all.len() as int) =~= all);
    lemma_ties_stay(all, all.len(), t);
}

proof fn lemma_ties_stay(frames: Seq<FrameModel>, n: nat, t: int)
    requires
        n <= frames.len(),
    ensures
        by_time(frames, n).filter(|f: FrameModel| f.valid_unix == t) == frames.take(
            n as int,
        ).filter(|f: FrameModel| f.valid_unix == t),
    decreases n,
{
    let at = |f: FrameModel| f.valid_unix == t;
    if n > 0 {
        let m = (n - 1) as nat;
        lemma_ties_stay(frames, m, t);
        lemma_by_time(frames, m);
        let before = by_time(frames, m);
        let f = frames[n - 1];
        let p = place(before, before.len(), f.valid_unix) as int;
        lemma_place(before, before.len(), f.valid_unix);
        let (head, tail) = (before.take(p), before.skip(p));
        assert(before =~= head + tail);
        assert(by_time(frames, n) =~= head + (seq![f] + tail));
        assert(frames.take(n as int) =~= frames.take(m as int) + seq![f]);
        Seq::filter_distributes_over_add(head, tail, at);
        Seq::filter_distributes_over_add(seq![f], tail, at);
        Seq::filter_distributes_over_add(head, seq![f] + tail, at);
        Seq::filter_distributes_over_add(frames.take(m as int), seq![f], at);
        if f.valid_unix == t {
            lemma_none_at(tail, t);
            assert(head.filter(at) + (seq![f].filter(at) + tail.filter(at)) =~= (head.filter(at)
                + tail.filter(at)) + seq![f].filter(at));
        } else {
            lemma_none_at(seq![f], t);
            assert(head.filter(at) + (seq![f].filter(at) + tail.filter(at)) =~= (head.filter(at)
                + tail.filter(at)) + seq![f].filter(at));
        }
    } else {
        assert(frames.take(0) =~= by_time(frames, 0));
    }
}

proof fn lemma_none_at(frames: Seq<FrameModel>, t: int)
    requires
        forall|i: int| 0 <= i < frames.len() ==> (#[trigger] frames[i]).valid_unix != t,
    ensures
        frames.filter(|f: FrameModel| f.valid_unix == t).len() == 0,
    decreases frames.len(),
{
    reveal(Seq::filter);
    if frames.len() > 0 {
        assert(frames.last() == frames[frames.len() - 1]);
        lemma_none_at(frames.drop_last(), t);
    }
}

/// The observed frames are the last six by time, or all where there are not more.
pub proof fn observed_are_the_last_six(n1: Seq<TimeModel>)
    ensures
        ({
            let all = frames_by_time(n1, false);
            let kept = if all.len() <= 6 {
                all.len() as int
            } else {
                6
            };
            &&& observed(n1).len() == kept
            &&& forall|i: int|
                0 <= i < kept ==> #[trigger] observed(n1)[i] == all[all.len() - kept + i]
        }),
{
}

/// The latest observation decides where the forecast starts: where some observed
/// image can be read, the time after which forecasts are shown is that of an
/// announced image, and none is later; where none can be read it is 0.
pub proof fn forecasts_start_after_the_latest_observation(n1: Seq<TimeModel>, k: int)
    ensures
        0 <= k < n1.len() && unix_time(n1[k].validtime) is Some ==> {
            &&& unix_time(n1[k].validtime)->0 <= last_time(observed(n1))
            &&& exists|j: int|
                0 <= j < n1.len() && unix_time((#[trigger] n1[j]).validtime) == Some(
                    last_time(observed(n1)),
                )
        },
        (forall|j: int| 0 <= j < n1.len() ==> unix_time((#[trigger] n1[j]).validtime) is None)
            ==> last_time(observed(n1)) == 0,
{
    let all = frames_by_time(n1, false);
    lemma_frames_by_time(n1, false);
    if all.len() > 0 {
        assert(observed(n1).last() == all.last());
        assert(all[all.len() - 1] == all.last());
        lemma_announced(n1, false, all.len() - 1);
    }
    if 0 <= k < n1.len() && unix_time(n1[k].validtime) is Some {
        lemma_announced_is_there(n1, false, k);
        let p = choose|p: int| 0 <= p < all.len() && all[p] == frame_of(n1[k], false);
        assert(all[p].valid_unix <= all[all.len() - 1].valid_unix);
    }
}

/// Each frame of a list is that of an announced image.
proof fn lemma_announced(times: Seq<TimeModel>, is_forecast: bool, i: int)
    requires
        0 <= i < frames_by_time(times, is_forecast).len(),
    ensures
        exists|k: int|
            0 <= k < times.len() && unix_time((#[trigger] times[k]).validtime) is Some
                && frames_by_time(times, is_forecast)[i] == frame_of(times[k], is_forecast),
{
    broadcast use vstd::seq_lib::group_to_multiset_ensures;

    let all = readable(times, times.len(), is_forecast);
    let sorted = frames_by_time(times, is_forecast);
    lemma_by_time(all, all.len());
    assert(all.take(all.len() as int) =~= all);
    assert(sorted.to_multiset().count(sorted[i]) > 0);
    assert(all.contains(sorted[i]));
    let p = choose|p: int| 0 <= p < all.len() && all[p] == sorted[i];
    lemma_readable_is_announced(times, times.len(), is_forecast, p);
}

proof fn lemma_readable_is_announced(times: Seq<TimeModel>, n: nat, is_forecast: bool, i: int)
    requires
        n <= times.len(),
        0 <= i < readable(times, n, is_forecast).len(),
    ensures
        exists|k: int|
            0 <= k < n && unix_time((#[trigger] times[k]).validtime) is Some && readable(
                times,
                n,
                is_forecast,
            )[i] == frame_of(times[k], is_forecast),
    decreases n,
{
    let before = readable(times, (n - 1) as nat, is_forecast);
    if i < before.len() {
        lemma_readable_is_announced(times, (n - 1) as nat, is_forecast, i);
        let k = choose|k: int|
            0 <= k < n - 1 && unix_time((#[trigger] times[k]).validtime) is Some && before[i]
                == frame_of(times[k], is_forecast);
        assert(readable(times, n, is_forecast)[i] == frame_of(times[k], is_forecast));
    } else {
        assert(readable(times, n, is_forecast)[i] == frame_of(times[n - 1], is_forecast));
    }
}

/// Each announced image that can be read is in the list.
proof fn lemma_announced_is_there(times: Seq<TimeModel>, is_forecast: bool, k: int)
    requires
        0 <= k < times.len(),
        unix_time(times[k].validtime) is Some,
    ensures
        frames_by_time(times, is_forecast).contains(frame_of(times[k], is_forecast)),
{
    broadcast use vstd::seq_lib::group_to_multiset_ensures;

    let all = readable(times, times.len(), is_forecast);
    let sorted = frames_by_time(times, is_forecast);
    lemma_by_time(all, all.len());
    assert(all.take(all.len() as int) =~= all);
    lemma_readable_has(times, times.len(), is_forecast, k);
    assert(all.to_multiset().count(frame_of(times[k], is_forecast)) > 0);
}

proof fn lemma_readable_has(times: Seq<TimeModel>, n: nat, is_forecast: bool, k: int)
    requires
        n <= times.len(),
        0 <= k < n,
        unix_time(times[k].validtime) is Some,
    ensures
        readable(times, n, is_forecast).contains(frame_of(times[k], is_forecast)),
    decreases n,
{
    let now = readable(times, n, is_forecast);
    let before = readable(times, (n - 1) as nat, is_forecast);
    if k < n - 1 {
        lemma_readable_has(times, (n - 1) as nat, is_forecast, k);
        let p = choose|p: int| 0 <= p < before.len() && before[p] == frame_of(times[k], is_forecast);
        assert(now[p] == frame_of(times[k], is_forecast));
    } else {
        assert(now[before.len() as int] == frame_of(times[k], is_forecast));
    }
}

/// The forecast frames are every other one of those that show a later time than
/// the last observation, the first of them with it, and not more than seven.
pub proof fn forecasts_are_every_other_later_one(n2: Seq<TimeModel>, last_observed: int)
    ensures
        ({
            let later = frames_by_time(n2, true).filter(
                |f: FrameModel| f.valid_unix > last_observed,
            );
            let all = forecast(n2, last_observed);
            &&& all.len() <= 7
            &&& all.len() < 7 ==> later.len() == 2 * all.len() || later.len() == 2 * all.len() - 1
            &&& all.len() == 7 ==> later.len() >= 13
            &&& forall|i: int| 0 <= i < all.len() ==> #[trigger] all[i] == later[2 * i]
        }),
{
    let frames = frames_by_time(n2, true);
    lemma_after_is_filter(frames, frames.len(), last_observed);
    assert(frames.take(frames.len() as int) =~= frames);
}

proof fn lemma_after_is_filter(frames: Seq<FrameModel>, n: nat, time: int)
    requires
        n <= frames.len(),
    ensures
        after(frames, n, time) == frames.take(n as int).filter(
            |f: FrameModel| f.valid_unix > time,
        ),
    decreases n,
{
    reveal(Seq::filter);
    if n > 0 {
        lemma_after_is_filter(frames, (n - 1) as nat, time);
        assert(frames.take(n as int).drop_last() =~= frames.take(n - 1));
        assert(frames.take(n as int).last() == frames[n - 1]);
    }
}

/// Whether no frame before place `j` shows its time.
pub open spec fn first_of_its_time(list: Seq<FrameModel>, j: int) -> bool {
    forall|i: int| 0 <= i < j ==> (#[trigger] list[i]).validtime != list[j].validtime
}

/// Whether a frame is the first in a list to show its time.
pub open spec fn is_a_first(list: Seq<FrameModel>, f: FrameModel) -> bool {
    exists|j: int| 0 <= j < list.len() && first_of_its_time(list, j) && #[trigger] list[j] == f
}

/// A timeline of 13 frames has room for all: its frames are the observed ones and
/// the forecast ones after them, of those that show one time the first. A shorter
/// timeline shows the end of that.
pub proof fn timeline_shows_observed_and_forecast(
    n1: Seq<TimeModel>,
    n2: Seq<TimeModel>,
    max_frames: nat,
)
    ensures
        ({
            let list = observed(n1) + forecast(n2, last_time(observed(n1)));
            let long = timeline(n1, n2, 13);
            let some = timeline(n1, n2, max_frames as int);
            &&& forall|j: int|
                0 <= j < list.len() && first_of_its_time(list, j) ==> long.contains(
                    #[trigger] list[j],
                )
            &&& forall|p: int| 0 <= p < long.len() ==> is_a_first(list, #[trigger] long[p])
            &&& some.len() == if max_frames <= long.len() {
                max_frames as int
            } else {
                long.len() as int
            }
            &&& forall|p: int|
                0 <= p < some.len() ==> #[trigger] some[p] == long[long.len() - some.len() + p]
        }),
{
    lemma_timeline(n1, n2);
    timeline_is_in_order(n1, n2, 13);
    timeline_is_in_order(n1, n2, max_frames);
    let obs = observed(n1);
    let list = obs + forecast(n2, last_time(obs));
    let all = whole_timeline(n1, n2);
    let k = choose|k: int| #[trigger]
        splits(all, k) && k <= NOWCAST_FRAMES && all.len() - k <= FORECAST_FRAMES;
    assert(all.len() <= 13);
    assert(timeline(n1, n2, 13) == all);
    lemma_once_keeps_the_first(list, list.len());
}

proof fn lemma_once_keeps_the_first(list: Seq<FrameModel>, n: nat)
    requires
        n <= list.len(),
    ensures
        forall|j: int|
            0 <= j < n && first_of_its_time(list, j) ==> once(list, n).contains(#[trigger] list[j]),
        forall|p: int| 0 <= p < once(list, n).len() ==> is_a_first(list, #[trigger] once(list, n)[p]),
{
    assert forall|j: int| 0 <= j < n && first_of_its_time(list, j) implies once(list, n).contains(
        #[trigger] list[j],
    ) by {
        lemma_first_is_kept(list, n, j);
    }
    assert forall|p: int| 0 <= p < once(list, n).len() implies is_a_first(
        list,
        #[trigger] once(list, n)[p],
    ) by {
        lemma_kept_is_first(list, n, p);
    }
}

/// Each time of a list is shown.
proof fn lemma_times_are_shown(list: Seq<FrameModel>, n: nat, j: int)
    requires
        0 <= j < n <= list.len(),
    ensures
        shown(once(list, n), list[j].validtime),
    decreases n,
{
    let before = once(list, (n - 1) as nat);
    let now = once(list, n);
    if j < n - 1 {
        lemma_times_are_shown(list, (n - 1) as nat, j);
        let p = choose|p: int|
            0 <= p < before.len() && (#[trigger] before[p]).validtime == list[j].validtime;
        assert(now[p] == before[p]);
    } else if !shown(before, list[j].validtime) {
        assert(now[before.len() as int] == list[j]);
    }
}

/// What is kept is the first of its time.
proof fn lemma_kept_is_first(list: Seq<FrameModel>, n: nat, p: int)
    requires
        n <= list.len(),
        0 <= p < once(list, n).len(),
    ensures
        exists|j: int|
            0 <= j < n && first_of_its_time(list, j) && #[trigger] list[j] == once(list, n)[p],
    decreases n,
{
    let before = once(list, (n - 1) as nat);
    let now = once(list, n);
    if p < before.len() {
        lemma_kept_is_first(list, (n - 1) as nat, p);
        assert(now[p] == before[p]);
    } else {
        let f = list[n - 1];
        assert(now[p] == f && !shown(before, f.validtime));
        assert forall|i: int| 0 <= i < n - 1 implies (#[trigger] list[i]).validtime != f.validtime by {
            lemma_times_are_shown(list, (n - 1) as nat, i);
        }
        assert(first_of_its_time(list, n - 1));
    }
}

/// The first of its time is kept.
proof fn lemma_first_is_kept(list: Seq<FrameModel>, n: nat, j: int)
    requires
        0 <= j < n <= list.len(),
        first_of_its_time(list, j),
    ensures
        once(list, n).contains(list[j]),
    decreases n,
{
    let before = once(list, (n - 1) as nat);
    let now = once(list, n);
    if j < n - 1 {
        lemma_first_is_kept(list, (n - 1) as nat, j);
        let p = choose|p: int| 0 <= p < before.len() && before[p] == list[j];
        assert(now[p] == list[j]);
    } else {
        if shown(before, list[j].validtime) {
            let p = choose|p: int|
                0 <= p < before.len() && (#[trigger] before[p]).validtime == list[j].validtime;
            lemma_kept_is_first(list, (n - 1) as nat, p);
            let i = choose|i: int|
                0 <= i < n - 1 && first_of_its_time(list, i) && #[trigger] list[i] == before[p];
            assert(list[i].validtime == list[j].validtime);
        }
        assert(now[before.len() as int] == list[j]);
    }
}

/// Whether one of the announced images has the texts of a frame, and shows its
/// time.
pub open spec fn announces(times: Seq<TimeModel>, f: FrameModel) -> bool {
    exists|k: int|
        0 <= k < times.len() && f.basetime == (#[trigger] times[k]).basetime && f.validtime
            == times[k].validtime && unix_time(times[k].validtime) == Some(f.valid_unix)
}

/// Each frame of a timeline is that of an announced image: an observed frame of an
/// observed one, a forecast frame of a forecast one, with its texts and the time
/// that its text gives.
pub proof fn frames_are_announced_images(n1: Seq<TimeModel>, n2: Seq<TimeModel>, max_frames: nat, p: int)
    requires
        0 <= p < timeline(n1, n2, max_frames as int).len(),
    ensures
        ({
            let f = timeline(n1, n2, max_frames as int)[p];
            if f.is_forecast {
                announces(n2, f)
            } else {
                announces(n1, f)
            }
        }),
{
    timeline_shows_observed_and_forecast(n1, n2, max_frames);
    let obs = observed(n1);
    let fc = forecast(n2, last_time(obs));
    let list = obs + fc;
    let long = timeline(n1, n2, 13);
    let some = timeline(n1, n2, max_frames as int);
    let q = long.len() - some.len() + p;
    assert(some[p] == long[q]);
    assert(is_a_first(list, long[q]));
    let j = choose|j: int|
        0 <= j < list.len() && first_of_its_time(list, j) && #[trigger] list[j] == long[q];
    if j < obs.len() {
        let all = frames_by_time(n1, false);
        observed_are_the_last_six(n1);
        let at = all.len() - obs.len() + j;
        assert(list[j] == obs[j] && obs[j] == all[at]);
        lemma_announced(n1, false, at);
    } else {
        let all = frames_by_time(n2, true);
        let i = j - obs.len();
        let later = after(all, all.len(), last_time(obs));
        lemma_after_is_some(all, all.len(), last_time(obs), 2 * i);
        let at = choose|at: int| 0 <= at < all.len() && all[at] == later[2 * i];
        assert(list[j] == fc[i] && fc[i] == all[at]);
        lemma_announced(n2, true, at);
    }
}

proof fn lemma_after_is_some(frames: Seq<FrameModel>, n: nat, time: int, i: int)
    requires
        n <= frames.len(),
        0 <= i < after(frames, n, time).len(),
    ensures
        frames.contains(after(frames, n, time)[i]),
    decreases n,
{
    let before = after(frames, (n - 1) as nat, time);
    if i < before.len() {
        lemma_after_is_some(frames, (n - 1) as nat, time, i);
    } else {
        assert(frames[n - 1] == after(frames, n, time)[i]);
    }
}

} // verus!
