//! Aggregate statistics of a document.

use vstd::prelude::*;
use vstd::arithmetic::div_mod::{lemma_fundamental_div_mod, lemma_hoist_over_denominator};
use crate::decimal::{
    exact_sum, gap, lemma_saturating_sum_exact, lemma_saturating_sum_nonnegative, saturating_sum,
    Decimal, UNITS_PER_ONE,
};
use crate::flatten::{all_points, flatten, flattened, views, JsTrackpoint, JsTrackpointView};
use crate::model::{Activity, ActivityView, DatabaseView, LapView, TrainingCenterDatabase};

verus! {

/// The statistics of a document.
///
/// Sport and start time are those of the first activity. The totals run over
/// every lap of every activity, the heart-rate and altitude figures over every
/// trackpoint of the flattened view.
#[derive(Clone, Debug, PartialEq, Eq)]
pub struct JsActivityStats {
    pub sport: String,
    pub start_time: String,
    pub total_time_seconds: Decimal,
    pub total_distance_meters: Decimal,
    pub total_calories: u64,
    pub trackpoint_count: usize,
    pub avg_heart_rate: Option<Decimal>,
    pub max_heart_rate: Option<u32>,
    pub min_heart_rate: Option<u32>,
    pub elevation_gain: Option<Decimal>,
    pub elevation_loss: Option<Decimal>,
    pub max_altitude: Option<Decimal>,
    pub min_altitude: Option<Decimal>,
}

/// What a [`JsActivityStats`] holds.
pub struct JsActivityStatsView {
    pub sport: Seq<char>,
    pub start_time: Seq<char>,
    pub total_time_seconds: Decimal,
    pub total_distance_meters: Decimal,
    pub total_calories: u64,
    pub trackpoint_count: usize,
    pub avg_heart_rate: Option<Decimal>,
    pub max_heart_rate: Option<u32>,
    pub min_heart_rate: Option<u32>,
    pub elevation_gain: Option<Decimal>,
    pub elevation_loss: Option<Decimal>,
    pub max_altitude: Option<Decimal>,
    pub min_altitude: Option<Decimal>,
}

impl View for JsActivityStats {
    type V = JsActivityStatsView;

    open spec fn view(&self) -> JsActivityStatsView {
        JsActivityStatsView {
            sport: self.sport@,
            start_time: self.start_time@,
            total_time_seconds: self.total_time_seconds,
            total_distance_meters: self.total_distance_meters,
            total_calories: self.total_calories,
            trackpoint_count: self.trackpoint_count,
            avg_heart_rate: self.avg_heart_rate,
            max_heart_rate: self.max_heart_rate,
            min_heart_rate: self.min_heart_rate,
            elevation_gain: self.elevation_gain,
            elevation_loss: self.elevation_loss,
            max_altitude: self.max_altitude,
            min_altitude: self.min_altitude,
        }
    }
}

/// The laps of a sequence of activities, activity after activity.
pub open spec fn all_laps(activities: Seq<ActivityView>) -> Seq<LapView>
    decreases activities.len(),
{
    if activities.len() == 0 {
        Seq::empty()
    } else {
        all_laps(activities.drop_last()) + activities.last().laps
    }
}

/// The durations of the laps, in units.
pub open spec fn durations(laps: Seq<LapView>) -> Seq<int> {
    laps.map_values(|l: LapView| l.total_time_seconds.units as int)
}

/// The distances of the laps, in units.
pub open spec fn distances(laps: Seq<LapView>) -> Seq<int> {
    laps.map_values(|l: LapView| l.distance_meters.units as int)
}

/// The calorie counts of the laps.
pub open spec fn calories(laps: Seq<LapView>) -> Seq<int> {
    laps.map_values(|l: LapView| l.calories as int)
}

/// `v`, or `cap` where `v` is above it.
pub open spec fn capped(v: int, cap: int) -> int {
    if v > cap {
        cap
    } else {
        v
    }
}

/// The heart rates that the trackpoints carry, in order.
pub open spec fn heart_rates(points: Seq<JsTrackpointView>) -> Seq<u32>
    decreases points.len(),
{
    if points.len() == 0 {
        Seq::empty()
    } else {
        match points.last().heart_rate {
            Some(rate) => heart_rates(points.drop_last()).push(rate),
            None => heart_rates(points.drop_last()),
        }
    }
}

/// The altitudes that the trackpoints carry, in order.
pub open spec fn altitudes(points: Seq<JsTrackpointView>) -> Seq<Decimal>
    decreases points.len(),
{
    if points.len() == 0 {
        Seq::empty()
    } else {
        match points.last().altitude_meters {
            Some(height) => altitudes(points.drop_last()).push(height),
            None => altitudes(points.drop_last()),
        }
    }
}

/// The sum of the rates.
pub open spec fn rate_sum(rates: Seq<u32>) -> int
    decreases rates.len(),
{
    if rates.len() == 0 {
        0
    } else {
        rate_sum(rates.drop_last()) + rates.last()
    }
}

/// The greatest of the rates; 0 for none.
pub open spec fn highest_rate(rates: Seq<u32>) -> u32
    decreases rates.len(),
{
    if rates.len() == 0 {
        0
    } else if rates.last() >= highest_rate(rates.drop_last()) {
        rates.last()
    } else {
        highest_rate(rates.drop_last())
    }
}

/// The least of the rates; `u32::MAX` for none.
pub open spec fn lowest_rate(rates: Seq<u32>) -> u32
    decreases rates.len(),
{
    if rates.len() == 0 {
        u32::MAX
    } else if rates.last() <= lowest_rate(rates.drop_last()) {
        rates.last()
    } else {
        lowest_rate(rates.drop_last())
    }
}

/// The mean of the rates, rounded down to a whole count of units; `None` for
/// no rates.
pub open spec fn mean_rate(rates: Seq<u32>) -> Option<Decimal> {
    if rates.len() == 0 {
        None
    } else {
        Some(Decimal { units: ((rate_sum(rates) * UNITS_PER_ONE) / (rates.len() as int)) as i128 })
    }
}

/// The greatest of the heights, in units; `i128::MIN` for none.
pub open spec fn highest(heights: Seq<Decimal>) -> i128
    decreases heights.len(),
{
    if heights.len() == 0 {
        i128::MIN
    } else if heights.last().units >= highest(heights.drop_last()) {
        heights.last().units
    } else {
        highest(heights.drop_last())
    }
}

/// The least of the heights, in units; `i128::MAX` for none.
pub open spec fn lowest(heights: Seq<Decimal>) -> i128
    decreases heights.len(),
{
    if heights.len() == 0 {
        i128::MAX
    } else if heights.last().units <= lowest(heights.drop_last()) {
        heights.last().units
    } else {
        lowest(heights.drop_last())
    }
}

/// By how many units `to` lies above `from`; 0 where it does not.
pub open spec fn rise(from: Decimal, to: Decimal) -> int {
    if to.units > from.units {
        to.units - from.units
    } else {
        0
    }
}

/// By how many units `to` lies below `from`; 0 where it does not.
pub open spec fn fall(from: Decimal, to: Decimal) -> int {
    if to.units < from.units {
        from.units - to.units
    } else {
        0
    }
}

/// The sum of the rises from each height to the next.
pub open spec fn total_rise(heights: Seq<Decimal>) -> int
    decreases heights.len(),
{
    if heights.len() < 2 {
        0
    } else {
        total_rise(heights.drop_last()) + rise(heights[heights.len() - 2], heights.last())
    }
}

/// The sum of the falls from each height to the next.
pub open spec fn total_fall(heights: Seq<Decimal>) -> int
    decreases heights.len(),
{
    if heights.len() < 2 {
        0
    } else {
        total_fall(heights.drop_last()) + fall(heights[heights.len() - 2], heights.last())
    }
}

/// The statistics of a document.
///
/// The totals of duration and distance are saturating sums in document order,
/// the total of calories is the exact sum capped at `u64::MAX`. Heart-rate
/// figures are present when a trackpoint carries a heart rate. Gain and loss
/// are present from two altitudes on and are capped at the greatest `Decimal`;
/// the altitude extremes are present from one altitude on.
pub open spec fn stats_of(db: DatabaseView) -> JsActivityStatsView {
    let laps = all_laps(db.activities);
    let points = flattened(db);
    let rates = heart_rates(points);
    let heights = altitudes(points);
    JsActivityStatsView {
        sport: if db.activities.len() > 0 {
            db.activities.first().sport
        } else {
            Seq::empty()
        },
        start_time: if db.activities.len() > 0 {
            db.activities.first().id
        } else {
            Seq::empty()
        },
        total_time_seconds: Decimal { units: saturating_sum(durations(laps)) as i128 },
        total_distance_meters: Decimal { units: saturating_sum(distances(laps)) as i128 },
        total_calories: capped(exact_sum(calories(laps)), u64::MAX as int) as u64,
        trackpoint_count: points.len() as usize,
        avg_heart_rate: mean_rate(rates),
        max_heart_rate: if rates.len() > 0 {
            Some(highest_rate(rates))
        } else {
            None
        },
        min_heart_rate: if rates.len() > 0 {
            Some(lowest_rate(rates))
        } else {
            None
        },
        elevation_gain: if heights.len() > 1 {
            Some(Decimal { units: capped(total_rise(heights), i128::MAX as int) as i128 })
        } else {
            None
        },
        elevation_loss: if heights.len() > 1 {
            Some(Decimal { units: capped(total_fall(heights), i128::MAX as int) as i128 })
        } else {
            None
        },
        max_altitude: if heights.len() > 0 {
            Some(Decimal { units: highest(heights) })
        } else {
            None
        },
        min_altitude: if heights.len() > 0 {
            Some(Decimal { units: lowest(heights) })
        } else {
            None
        },
    }
}

/// A sum of numbers of which none is negative is not negative.
pub proof fn lemma_exact_sum_nonnegative(values: Seq<int>)
    requires
        forall|i: int| 0 <= i < values.len() ==> #[trigger] values[i] >= 0,
    ensures
        exact_sum(values) >= 0,
    decreases values.len(),
{
    if values.len() > 0 {
        lemma_exact_sum_nonnegative(values.drop_last());
    }
}

/// The totals are the sums over all laps: the total of calories whenever the
/// sum is at most `u64::MAX`, the totals of duration and distance whenever
/// every partial sum in document order is within the range of a `Decimal`.
pub proof fn lemma_totals_are_sums(db: DatabaseView)
    ensures
        ({
            let laps = all_laps(db.activities);
            let stats = stats_of(db);
            &&& (forall|n: int|
                0 <= n <= laps.len() ==> i128::MIN <= #[trigger] exact_sum(
                    durations(laps).take(n),
                ) <= i128::MAX) ==> stats.total_time_seconds.units == exact_sum(durations(laps))
            &&& (forall|n: int|
                0 <= n <= laps.len() ==> i128::MIN <= #[trigger] exact_sum(
                    distances(laps).take(n),
                ) <= i128::MAX) ==> stats.total_distance_meters.units == exact_sum(
                distances(laps),
            )
            &&& exact_sum(calories(laps)) <= u64::MAX ==> stats.total_calories == exact_sum(
                calories(laps),
            )
        }),
{
    let laps = all_laps(db.activities);
    if forall|n: int|
        0 <= n <= laps.len() ==> i128::MIN <= #[trigger] exact_sum(durations(laps).take(n))
            <= i128::MAX {
        lemma_saturating_sum_exact(durations(laps));
        assert(durations(laps).take(laps.len() as int) =~= durations(laps));
    }
    if forall|n: int|
        0 <= n <= laps.len() ==> i128::MIN <= #[trigger] exact_sum(distances(laps).take(n))
            <= i128::MAX {
        lemma_saturating_sum_exact(distances(laps));
        assert(distances(laps).take(laps.len() as int) =~= distances(laps));
    }
    lemma_exact_sum_nonnegative(calories(laps));
}

/// Where no lap has a negative duration, the total duration is the sum of
/// the durations of all laps, or the greatest `Decimal` where the sum is
/// greater; and so for the distances.
pub proof fn lemma_totals_of_nonnegative_laps(db: DatabaseView)
    ensures
        ({
            let laps = all_laps(db.activities);
            let stats = stats_of(db);
            &&& (forall|i: int|
                0 <= i < laps.len() ==> (#[trigger] laps[i]).total_time_seconds.units >= 0)
                ==> stats.total_time_seconds.units == capped(
                exact_sum(durations(laps)),
                i128::MAX as int,
            )
            &&& (forall|i: int| 0 <= i < laps.len() ==> (#[trigger] laps[i]).distance_meters.units >= 0)
                ==> stats.total_distance_meters.units == capped(
                exact_sum(distances(laps)),
                i128::MAX as int,
            )
        }),
{
    let laps = all_laps(db.activities);
    if forall|i: int| 0 <= i < laps.len() ==> (#[trigger] laps[i]).total_time_seconds.units >= 0 {
        assert forall|i: int| 0 <= i < durations(laps).len() implies #[trigger] durations(
            laps,
        )[i] >= 0 by {
            assert(laps[i].total_time_seconds.units >= 0);
        }
        lemma_saturating_sum_nonnegative(durations(laps));
    }
    if forall|i: int| 0 <= i < laps.len() ==> (#[trigger] laps[i]).distance_meters.units >= 0 {
        assert forall|i: int| 0 <= i < distances(laps).len() implies #[trigger] distances(
            laps,
        )[i] >= 0 by {
            assert(laps[i].distance_meters.units >= 0);
        }
        lemma_saturating_sum_nonnegative(distances(laps));
    }
}

/// No heart rate is collected exactly when no trackpoint carries one.
pub proof fn lemma_heart_rates_empty(points: Seq<JsTrackpointView>)
    ensures
        heart_rates(points).len() == 0 <==> forall|i: int|
            0 <= i < points.len() ==> (#[trigger] points[i]).heart_rate.is_none(),
    decreases points.len(),
{
    if points.len() > 0 {
        let front = points.drop_last();
        lemma_heart_rates_empty(front);
        assert forall|i: int| 0 <= i < front.len() implies front[i] == points[i] by {}
        if heart_rates(points).len() == 0 {
            assert forall|i: int| 0 <= i < points.len() implies (
            #[trigger] points[i]).heart_rate.is_none() by {
                if i < front.len() {
                    assert(front[i] == points[i]);
                }
            }
        } else {
            if points.last().heart_rate.is_none() {
                let i = choose|i: int| 0 <= i < front.len() && !(#[trigger] front[i]).heart_rate.is_none();
                assert(points[i] == front[i]);
            } else {
                assert(!points[points.len() - 1].heart_rate.is_none());
            }
        }
    }
}

/// The least rate is at most the greatest, and the sum of the rates lies
/// between their number times the least and their number times the greatest.
pub proof fn lemma_rate_bounds(rates: Seq<u32>)
    requires
        rates.len() > 0,
    ensures
        lowest_rate(rates) <= highest_rate(rates),
        lowest_rate(rates) * rates.len() <= rate_sum(rates) <= highest_rate(rates) * rates.len(),
    decreases rates.len(),
{
    let front = rates.drop_last();
    if front.len() == 0 {
        assert(rate_sum(front) == 0);
    } else {
        lemma_rate_bounds(front);
        let n = front.len() as int;
        let low = lowest_rate(rates) as int;
        let high = highest_rate(rates) as int;
        let front_low = lowest_rate(front) as int;
        let front_high = highest_rate(front) as int;
        assert(low * (n + 1) <= front_low * n + low) by (nonlinear_arith)
            requires
                low <= front_low,
                n >= 0,
        ;
        assert(front_high * n + high <= high * (n + 1)) by (nonlinear_arith)
            requires
                front_high <= high,
                n >= 0,
        ;
    }
}

/// The heart-rate figures agree: all three are absent exactly when no
/// trackpoint of the document carries a heart rate, and where they are
/// present the mean lies between the least and the greatest rate.
pub proof fn lemma_heart_rate_consistency(db: DatabaseView)
    ensures
        ({
            let stats = stats_of(db);
            let points = all_points(db.activities);
            let none_carried = forall|i: int|
                0 <= i < points.len() ==> (#[trigger] points[i]).heart_rate.is_none();
            &&& stats.avg_heart_rate.is_none() <==> none_carried
            &&& stats.max_heart_rate.is_none() <==> none_carried
            &&& stats.min_heart_rate.is_none() <==> none_carried
            &&& !none_carried ==> stats.min_heart_rate.unwrap() * UNITS_PER_ONE
                <= stats.avg_heart_rate.unwrap().units <= stats.max_heart_rate.unwrap()
                * UNITS_PER_ONE
            &&& !none_carried ==> stats.min_heart_rate.unwrap() <= stats.max_heart_rate.unwrap()
        }),
{
    let points = all_points(db.activities);
    let flat = flattened(db);
    let rates = heart_rates(flat);
    lemma_heart_rates_empty(flat);
    assert forall|i: int| 0 <= i < points.len() implies (#[trigger] points[i]).heart_rate
        == flat[i].heart_rate by {}
    if rates.len() > 0 {
        lemma_rate_bounds(rates);
        let n = rates.len() as int;
        let sum = rate_sum(rates);
        let low = lowest_rate(rates) as int;
        let high = highest_rate(rates) as int;
        let one = UNITS_PER_ONE as int;
        let mean = (sum * one) / n;
        assert(low * one <= mean <= high * one) by (nonlinear_arith)
            requires
                n > 0,
                one > 0,
                low * n <= sum <= high * n,
                mean == (sum * one) / n,
        ;
        assert(0 <= high * one <= i128::MAX) by (nonlinear_arith)
            requires
                0 <= high <= u32::MAX,
                one == 1_000_000_000_000_000_000,
        ;
        assert(0 <= low * one) by (nonlinear_arith)
            requires
                0 <= low,
                one > 0,
        ;
        let i = choose|i: int| 0 <= i < flat.len() && !(#[trigger] flat[i]).heart_rate.is_none();
        assert(!points[i].heart_rate.is_none());
    } else {
        assert forall|i: int| 0 <= i < points.len() implies (
        #[trigger] points[i]).heart_rate.is_none() by {
            assert(flat[i].heart_rate.is_none());
        }
    }
}

struct LapTotals {
    time: Decimal,
    distance: Decimal,
    calories: u64,
}

spec fn totals_match(totals: LapTotals, laps: Seq<LapView>) -> bool {
    &&& totals.time.units == saturating_sum(durations(laps))
    &&& totals.distance.units == saturating_sum(distances(laps))
    &&& totals.calories == capped(exact_sum(calories(laps)), u64::MAX as int)
}

fn add_activity_laps(activity: &Activity, totals: LapTotals, Ghost(before): Ghost<Seq<LapView>>) -> (r:
    LapTotals)
    requires
        totals_match(totals, before),
    ensures
        totals_match(r, before + activity@.laps),
{
    let mut totals = totals;
    let mut j: usize = 0;
    proof {
        assert(before + activity@.laps.take(0) =~= before);
    }
    while j < activity.laps.len()
        invariant
            j <= activity.laps@.len(),
            totals_match(totals, before + activity@.laps.take(j as int)),
        decreases activity.laps@.len() - j,
    {
        let lap = &activity.laps[j];
        proof {
            let seen = before + activity@.laps.take(j as int);
            let next = before + activity@.laps.take(j + 1);
            assert(next =~= seen.push(lap@));
            assert(durations(next).drop_last() =~= durations(seen));
            assert(distances(next).drop_last() =~= distances(seen));
            assert(calories(next).drop_last() =~= calories(seen));
        }
        totals =
        LapTotals {
            time: totals.time.saturating_add(lap.total_time_seconds),
            distance: totals.distance.saturating_add(lap.distance_meters),
            calories: totals.calories.saturating_add(lap.calories as u64),
        };
        j = j + 1;
    }
    proof {
        assert(activity@.laps.take(j as int) =~= activity@.laps);
    }
    totals
}

fn lap_totals(db: &TrainingCenterDatabase) -> (r: LapTotals)
    ensures
        totals_match(r, all_laps(db@.activities)),
{
    let mut totals = LapTotals { time: Decimal::zero(), distance: Decimal::zero(), calories: 0 };
    let mut i: usize = 0;
    proof {
        assert(durations(Seq::<LapView>::empty()) =~= Seq::<int>::empty());
        assert(distances(Seq::<LapView>::empty()) =~= Seq::<int>::empty());
        assert(calories(Seq::<LapView>::empty()) =~= Seq::<int>::empty());
    }
    while i < db.activities.activity.len()
        invariant
            i <= db.activities.activity@.len(),
            totals_match(totals, all_laps(db@.activities.take(i as int))),
        decreases db.activities.activity@.len() - i,
    {
        proof {
            assert(db@.activities.take(i + 1).drop_last() =~= db@.activities.take(i as int));
        }
        totals =
        add_activity_laps(
            &db.activities.activity[i],
            totals,
            Ghost(all_laps(db@.activities.take(i as int))),
        );
        i = i + 1;
    }
    proof {
        assert(db@.activities.take(i as int) =~= db@.activities);
    }
    totals
}

fn heart_rate_values(points: &Vec<JsTrackpoint>) -> (r: Vec<u32>)
    ensures
        r@ == heart_rates(views(points@)),
{
    let mut out: Vec<u32> = Vec::new();
    let mut k: usize = 0;
    while k < points.len()
        invariant
            k <= points@.len(),
            out@ == heart_rates(views(points@).take(k as int)),
        decreases points@.len() - k,
    {
        proof {
            assert(views(points@).take(k + 1).drop_last() =~= views(points@).take(k as int));
        }
        if let Some(rate) = points[k].heart_rate {
            out.push(rate);
        }
        k = k + 1;
    }
    proof {
        assert(views(points@).take(k as int) =~= views(points@));
    }
    out
}

fn altitude_values(points: &Vec<JsTrackpoint>) -> (r: Vec<Decimal>)
    ensures
        r@ == altitudes(views(points@)),
{
    let mut out: Vec<Decimal> = Vec::new();
    let mut k: usize = 0;
    while k < points.len()
        invariant
            k <= points@.len(),
            out@ == altitudes(views(points@).take(k as int)),
        decreases points@.len() - k,
    {
        proof {
            assert(views(points@).take(k + 1).drop_last() =~= views(points@).take(k as int));
        }
        if let Some(height) = points[k].altitude_meters {
            out.push(height);
        }
        k = k + 1;
    }
    proof {
        assert(views(points@).take(k as int) =~= views(points@));
    }
    out
}

fn mean_of(rates: &Vec<u32>) -> (r: Option<Decimal>)
    ensures
        r == mean_rate(rates@),
{
    if rates.len() == 0 {
        return None;
    }
    let mut sum: u128 = 0;
    let mut k: usize = 0;
    while k < rates.len()
        invariant
            k <= rates@.len(),
            sum == rate_sum(rates@.take(k as int)),
            sum <= k * u32::MAX,
        decreases rates@.len() - k,
    {
        proof {
            assert(rates@.take(k + 1).drop_last() =~= rates@.take(k as int));
        }
        sum = sum + rates[k] as u128;
        k = k + 1;
    }
    proof {
        assert(rates@.take(k as int) =~= rates@);
    }
    let count: u128 = rates.len() as u128;
    let whole: u128 = sum / count;
    let rest: u128 = sum % count;
    let one: u128 = UNITS_PER_ONE as u128;
    proof {
        assert(whole <= u32::MAX) by (nonlinear_arith)
            requires
                count > 0,
                sum <= count * u32::MAX,
                whole == sum / count,
        ;
        lemma_fundamental_div_mod(sum as int, count as int);
        lemma_hoist_over_denominator(rest * one, whole * one, count as nat);
        assert(rest * one + (whole * one) * count == sum * one) by (nonlinear_arith)
            requires
                sum == count * whole + rest,
        ;
        assert((rest * one) / (count as int) < one) by (nonlinear_arith)
            requires
                count > 0,
                0 <= rest < count,
                one > 0,
        ;
    }
    let units: u128 = whole * one + (rest * one) / count;
    Some(Decimal { units: units as i128 })
}

fn highest_rate_of(rates: &Vec<u32>) -> (r: Option<u32>)
    ensures
        r == if rates@.len() > 0 {
            Some(highest_rate(rates@))
        } else {
            None
        },
{
    if rates.len() == 0 {
        return None;
    }
    let mut best: u32 = 0;
    let mut k: usize = 0;
    while k < rates.len()
        invariant
            k <= rates@.len(),
            best == highest_rate(rates@.take(k as int)),
        decreases rates@.len() - k,
    {
        proof {
            assert(rates@.take(k + 1).drop_last() =~= rates@.take(k as int));
        }
        if rates[k] >= best {
            best = rates[k];
        }
        k = k + 1;
    }
    proof {
        assert(rates@.take(k as int) =~= rates@);
    }
    Some(best)
}

fn lowest_rate_of(rates: &Vec<u32>) -> (r: Option<u32>)
    ensures
        r == if rates@.len() > 0 {
            Some(lowest_rate(rates@))
        } else {
            None
        },
{
    if rates.len() == 0 {
        return None;
    }
    let mut best: u32 = u32::MAX;
    let mut k: usize = 0;
    while k < rates.len()
        invariant
            k <= rates@.len(),
            best == lowest_rate(rates@.take(k as int)),
        decreases rates@.len() - k,
    {
        proof {
            assert(rates@.take(k + 1).drop_last() =~= rates@.take(k as int));
        }
        if rates[k] <= best {
            best = rates[k];
        }
        k = k + 1;
    }
    proof {
        assert(rates@.take(k as int) =~= rates@);
    }
    Some(best)
}

fn highest_of(heights: &Vec<Decimal>) -> (r: Option<Decimal>)
    ensures
        r == if heights@.len() > 0 {
            Some(Decimal { units: highest(heights@) })
        } else {
            None
        },
{
    if heights.len() == 0 {
        return None;
    }
    let mut best: i128 = i128::MIN;
    let mut k: usize = 0;
    while k < heights.len()
        invariant
            k <= heights@.len(),
            best == highest(heights@.take(k as int)),
        decreases heights@.len() - k,
    {
        proof {
            assert(heights@.take(k + 1).drop_last() =~= heights@.take(k as int));
        }
        if heights[k].units >= best {
            best = heights[k].units;
        }
        k = k + 1;
    }
    proof {
        assert(heights@.take(k as int) =~= heights@);
    }
    Some(Decimal { units: best })
}

fn lowest_of(heights: &Vec<Decimal>) -> (r: Option<Decimal>)
    ensures
        r == if heights@.len() > 0 {
            Some(Decimal { units: lowest(heights@) })
        } else {
            None
        },
{
    if heights.len() == 0 {
        return None;
    }
    let mut best: i128 = i128::MAX;
    let mut k: usize = 0;
    while k < heights.len()
        invariant
            k <= heights@.len(),
            best == lowest(heights@.take(k as int)),
        decreases heights@.len() - k,
    {
        proof {
            assert(heights@.take(k + 1).drop_last() =~= heights@.take(k as int));
        }
        if heights[k].units <= best {
            best = heights[k].units;
        }
        k = k + 1;
    }
    proof {
        assert(heights@.take(k as int) =~= heights@);
    }
    Some(Decimal { units: best })
}

fn capped_add(total: u128, step: u128) -> (r: u128)
    requires
        total <= i128::MAX,
    ensures
        r == capped(total + step, i128::MAX as int),
{
    let cap: u128 = i128::MAX as u128;
    if step > cap - total {
        cap
    } else {
        total + step
    }
}

fn gain_and_loss(heights: &Vec<Decimal>) -> (r: (Option<Decimal>, Option<Decimal>))
    ensures
        r.0 == if heights@.len() > 1 {
            Some(Decimal { units: capped(total_rise(heights@), i128::MAX as int) as i128 })
        } else {
            None
        },
        r.1 == if heights@.len() > 1 {
            Some(Decimal { units: capped(total_fall(heights@), i128::MAX as int) as i128 })
        } else {
            None
        },
{
    if heights.len() <= 1 {
        return (None, None);
    }
    let mut gain: u128 = 0;
    let mut loss: u128 = 0;
    let mut k: usize = 1;
    proof {
        assert(heights@.take(1).len() < 2);
    }
    while k < heights.len()
        invariant
            1 <= k <= heights@.len(),
            gain == capped(total_rise(heights@.take(k as int)), i128::MAX as int),
            loss == capped(total_fall(heights@.take(k as int)), i128::MAX as int),
            total_rise(heights@.take(k as int)) >= 0,
            total_fall(heights@.take(k as int)) >= 0,
        decreases heights@.len() - k,
    {
        proof {
            assert(heights@.take(k + 1).drop_last() =~= heights@.take(k as int));
        }
        let from: i128 = heights[k - 1].units;
        let to: i128 = heights[k].units;
        if to > from {
            gain = capped_add(gain, gap(from, to));
        } else {
            loss = capped_add(loss, gap(to, from));
        }
        k = k + 1;
    }
    proof {
        assert(heights@.take(k as int) =~= heights@);
    }
    (Some(Decimal { units: gain as i128 }), Some(Decimal { units: loss as i128 }))
}

/// Computes the statistics of the document.
pub fn compute(db: &TrainingCenterDatabase) -> (r: JsActivityStats)
    ensures
        r@ == stats_of(db@),
{
    let (sport, start_time) = if db.activities.activity.len() > 0 {
        let first = &db.activities.activity[0];
        (first.sport.clone(), first.id.clone())
    } else {
        (String::new(), String::new())
    };
    let totals = lap_totals(db);
    let points = flatten(db);
    let rates = heart_rate_values(&points);
    let heights = altitude_values(&points);
    let (elevation_gain, elevation_loss) = gain_and_loss(&heights);
    proof {
        assert(views(points@).len() == points@.len());
    }
    JsActivityStats {
        sport,
        start_time,
        total_time_seconds: totals.time,
        total_distance_meters: totals.distance,
        total_calories: totals.calories,
        trackpoint_count: points.len(),
        avg_heart_rate: mean_of(&rates),
        max_heart_rate: highest_rate_of(&rates),
        min_heart_rate: lowest_rate_of(&rates),
        elevation_gain,
        elevation_loss,
        max_altitude: highest_of(&heights),
        min_altitude: lowest_of(&heights),
    }
}

} // verus!
