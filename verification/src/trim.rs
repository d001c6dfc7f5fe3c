//! The range editor: cutting every track down to a range of indices and
//! bringing the lap summaries back in line with what is left.

use vstd::prelude::*;
use crate::decimal::{clamp_units, Decimal, UNITS_PER_THOUSANDTH};
use crate::error::TcxError;
use crate::model::{
    Activity, ActivityView, DatabaseView, Lap, LapView, Trackpoint, TrackpointView,
    TrainingCenterDatabase,
};
use crate::timestamp::{elapsed_between, elapsed_millis, rfc3339_millis};

verus! {

/// Whether the inclusive range from `start` to `end` lies within a track of
/// `total` trackpoints.
pub open spec fn range_fits(total: nat, start: usize, end: usize) -> bool {
    start <= end && end < total
}

/// The length of the lap's track where the range does not fit it.
pub open spec fn lap_misfit(lap: LapView, start: usize, end: usize) -> Option<nat> {
    match lap.track {
        Some(points) => if range_fits(points.len(), start, end) {
            None
        } else {
            Some(points.len())
        },
        None => None,
    }
}

/// The length of the first track among the laps that the range does not fit.
pub open spec fn laps_misfit(laps: Seq<LapView>, start: usize, end: usize) -> Option<nat>
    decreases laps.len(),
{
    if laps.len() == 0 {
        None
    } else {
        match laps_misfit(laps.drop_last(), start, end) {
            Some(total) => Some(total),
            None => lap_misfit(laps.last(), start, end),
        }
    }
}

/// The length of the first track among the activities that the range does not
/// fit.
pub open spec fn activities_misfit(activities: Seq<ActivityView>, start: usize, end: usize)
    -> Option<nat>
    decreases activities.len(),
{
    if activities.len() == 0 {
        None
    } else {
        match activities_misfit(activities.drop_last(), start, end) {
            Some(total) => Some(total),
            None => laps_misfit(activities.last().laps, start, end),
        }
    }
}

/// The length of the first track of the document, in document order, that the
/// range does not fit; `None` where it fits every track.
pub open spec fn misfit(db: DatabaseView, start: usize, end: usize) -> Option<nat> {
    activities_misfit(db.activities, start, end)
}

/// The lap with its track cut down to the range.
pub open spec fn cut_lap(lap: LapView, start: usize, end: usize) -> LapView {
    match lap.track {
        Some(points) => LapView { track: Some(points.subrange(start as int, end + 1)), ..lap },
        None => lap,
    }
}

/// The activity with every track cut down to the range.
pub open spec fn cut_activity(activity: ActivityView, start: usize, end: usize) -> ActivityView {
    ActivityView { laps: activity.laps.map_values(|l: LapView| cut_lap(l, start, end)), ..activity }
}

/// The document with every track cut down to the range.
pub open spec fn cut(db: DatabaseView, start: usize, end: usize) -> DatabaseView {
    DatabaseView {
        activities: db.activities.map_values(|a: ActivityView| cut_activity(a, start, end)),
        ..db
    }
}

/// The distance that a trackpoint records, zero where it records none.
pub open spec fn point_distance(point: TrackpointView) -> int {
    match point.distance_meters {
        Some(distance) => distance.units as int,
        None => 0,
    }
}

/// The lap with its summary brought in line with its track.
///
/// A lap without a track stays as it is. With an empty track, duration and
/// distance become zero. Otherwise the start time becomes the time of the
/// first trackpoint, the duration the time that passes from the first to the
/// last trackpoint (unchanged where one of the two is no timestamp), and the
/// distance the last trackpoint's distance less the first one's. Calories stay.
pub open spec fn recalculated_lap(lap: LapView) -> LapView {
    match lap.track {
        None => lap,
        Some(points) => if points.len() == 0 {
            LapView {
                total_time_seconds: Decimal { units: 0 },
                distance_meters: Decimal { units: 0 },
                ..lap
            }
        } else {
            LapView {
                start_time: points.first().time,
                total_time_seconds: match elapsed_between(
                    points.first().time,
                    points.last().time,
                ) {
                    Some(ms) => Decimal { units: (ms * UNITS_PER_THOUSANDTH) as i128 },
                    None => lap.total_time_seconds,
                },
                distance_meters: Decimal {
                    units: clamp_units(point_distance(points.last()) - point_distance(points.first()))
                        as i128,
                },
                ..lap
            }
        },
    }
}

/// The activity with every lap recalculated and its identifier set to the
/// start time of its first lap; an activity without laps keeps its identifier.
pub open spec fn recalculated_activity(activity: ActivityView) -> ActivityView {
    let laps = activity.laps.map_values(|l: LapView| recalculated_lap(l));
    ActivityView {
        id: if laps.len() > 0 {
            laps.first().start_time
        } else {
            activity.id
        },
        laps,
        ..activity
    }
}

/// The document with every activity recalculated.
pub open spec fn recalculated(db: DatabaseView) -> DatabaseView {
    DatabaseView {
        activities: db.activities.map_values(|a: ActivityView| recalculated_activity(a)),
        ..db
    }
}

/// The document trimmed to the range: every track cut, then every summary
/// recalculated.
pub open spec fn trimmed(db: DatabaseView, start: usize, end: usize) -> DatabaseView {
    recalculated(cut(db, start, end))
}

/// Among laps the range misfits none exactly when it fits each, and a
/// reported length is that of one of their tracks that it does not fit.
pub proof fn lemma_laps_misfit(laps: Seq<LapView>, start: usize, end: usize)
    ensures
        laps_misfit(laps, start, end).is_none() <==> forall|j: int|
            0 <= j < laps.len() ==> lap_misfit(#[trigger] laps[j], start, end).is_none(),
        laps_misfit(laps, start, end).is_some() ==> exists|j: int|
            0 <= j < laps.len() && lap_misfit(#[trigger] laps[j], start, end) == laps_misfit(
                laps,
                start,
                end,
            ),
    decreases laps.len(),
{
    if laps.len() > 0 {
        let front = laps.drop_last();
        lemma_laps_misfit(front, start, end);
        assert forall|j: int| 0 <= j < front.len() implies front[j] == laps[j] by {}
        if laps_misfit(front, start, end).is_some() {
            let j = choose|j: int|
                0 <= j < front.len() && lap_misfit(#[trigger] front[j], start, end) == laps_misfit(
                    front,
                    start,
                    end,
                );
            assert(lap_misfit(laps[j], start, end) == laps_misfit(laps, start, end));
        } else {
            if lap_misfit(laps.last(), start, end).is_some() {
                assert(lap_misfit(laps[laps.len() - 1], start, end) == laps_misfit(
                    laps,
                    start,
                    end,
                ));
            } else {
                assert forall|j: int| 0 <= j < laps.len() implies lap_misfit(
                    #[trigger] laps[j],
                    start,
                    end,
                ).is_none() by {
                    if j < front.len() {
                        assert(front[j] == laps[j]);
                    }
                }
            }
        }
    }
}

/// Among activities the range misfits none exactly when it misfits none of
/// the laps of each.
pub proof fn lemma_activities_misfit(activities: Seq<ActivityView>, start: usize, end: usize)
    ensures
        activities_misfit(activities, start, end).is_none() <==> forall|i: int|
            0 <= i < activities.len() ==> laps_misfit(
                (#[trigger] activities[i]).laps,
                start,
                end,
            ).is_none(),
        activities_misfit(activities, start, end).is_some() ==> exists|i: int|
            0 <= i < activities.len() && laps_misfit(
                (#[trigger] activities[i]).laps,
                start,
                end,
            ) == activities_misfit(activities, start, end),
    decreases activities.len(),
{
    if activities.len() > 0 {
        let front = activities.drop_last();
        lemma_activities_misfit(front, start, end);
        assert forall|i: int| 0 <= i < front.len() implies front[i] == activities[i] by {}
        if activities_misfit(front, start, end).is_some() {
            let i = choose|i: int|
                0 <= i < front.len() && laps_misfit((#[trigger] front[i]).laps, start, end)
                    == activities_misfit(front, start, end);
            assert(laps_misfit(activities[i].laps, start, end) == activities_misfit(
                activities,
                start,
                end,
            ));
        } else {
            if laps_misfit(activities.last().laps, start, end).is_some() {
                assert(laps_misfit(activities[activities.len() - 1].laps, start, end)
                    == activities_misfit(activities, start, end));
            } else {
                assert forall|i: int| 0 <= i < activities.len() implies laps_misfit(
                    (#[trigger] activities[i]).laps,
                    start,
                    end,
                ).is_none() by {
                    if i < front.len() {
                        assert(front[i] == activities[i]);
                    }
                }
            }
        }
    }
}

/// Whether the document has an activity `i` with a lap `j`.
pub open spec fn is_lap_of(db: DatabaseView, i: int, j: int) -> bool {
    0 <= i < db.activities.len() && 0 <= j < db.activities[i].laps.len()
}

/// A range fits the document exactly when it fits the track of every lap.
pub proof fn lemma_misfit_none(db: DatabaseView, start: usize, end: usize)
    ensures
        misfit(db, start, end).is_none() <==> forall|i: int, j: int|
            is_lap_of(db, i, j) ==> lap_misfit(
                #[trigger] db.activities[i].laps[j],
                start,
                end,
            ).is_none(),
{
    lemma_activities_misfit(db.activities, start, end);
    assert forall|i: int| 0 <= i < db.activities.len() implies (laps_misfit(
        (#[trigger] db.activities[i]).laps,
        start,
        end,
    ).is_none() <==> forall|j: int|
        0 <= j < db.activities[i].laps.len() ==> lap_misfit(
            #[trigger] db.activities[i].laps[j],
            start,
            end,
        ).is_none()) by {
        lemma_laps_misfit(db.activities[i].laps, start, end);
    }
    if misfit(db, start, end).is_none() {
        assert forall|i: int, j: int| is_lap_of(db, i, j) implies lap_misfit(
            #[trigger] db.activities[i].laps[j],
            start,
            end,
        ).is_none() by {
            assert(laps_misfit(db.activities[i].laps, start, end).is_none());
        }
    } else {
        let i = choose|i: int|
            0 <= i < db.activities.len() && laps_misfit(
                (#[trigger] db.activities[i]).laps,
                start,
                end,
            ) == activities_misfit(db.activities, start, end);
        lemma_laps_misfit(db.activities[i].laps, start, end);
        let j = choose|j: int|
            0 <= j < db.activities[i].laps.len() && lap_misfit(
                #[trigger] db.activities[i].laps[j],
                start,
                end,
            ) == laps_misfit(db.activities[i].laps, start, end);
        assert(is_lap_of(db, i, j));
        assert(lap_misfit(db.activities[i].laps[j], start, end).is_some());
    }
}

/// Trimming is refused whenever the document has a track and the range is
/// inverted or reaches past the end of that track.
pub proof fn lemma_trim_bounds(db: DatabaseView, start: usize, end: usize, i: int, j: int)
    requires
        is_lap_of(db, i, j),
        db.activities[i].laps[j].track.is_some(),
        start > end || start >= db.activities[i].laps[j].track.unwrap().len() || end
            >= db.activities[i].laps[j].track.unwrap().len(),
    ensures
        misfit(db, start, end).is_some(),
{
    lemma_misfit_none(db, start, end);
    assert(lap_misfit(db.activities[i].laps[j], start, end).is_some());
}

/// After a trim that was not refused every track has `end - start + 1`
/// trackpoints, and a lap without a track still has none.
pub proof fn lemma_trim_length(db: DatabaseView, start: usize, end: usize, i: int, j: int)
    requires
        misfit(db, start, end).is_none(),
        is_lap_of(db, i, j),
    ensures
        is_lap_of(trimmed(db, start, end), i, j),
        match db.activities[i].laps[j].track {
            Some(_) => trimmed(db, start, end).activities[i].laps[j].track.is_some() && trimmed(
                db,
                start,
                end,
            ).activities[i].laps[j].track.unwrap().len() == end - start + 1,
            None => trimmed(db, start, end).activities[i].laps[j].track.is_none(),
        },
{
    lemma_misfit_none(db, start, end);
    assert(lap_misfit(db.activities[i].laps[j], start, end).is_none());
    let after_cut = cut(db, start, end);
    assert(after_cut.activities[i] == cut_activity(db.activities[i], start, end));
    assert(after_cut.activities[i].laps[j] == cut_lap(db.activities[i].laps[j], start, end));
    let done = trimmed(db, start, end);
    assert(done.activities[i] == recalculated_activity(after_cut.activities[i]));
    assert(done.activities[i].laps[j] == recalculated_lap(after_cut.activities[i].laps[j]));
}

/// Recalculating a lap leaves its duration as it was where the time of its
/// first or of its last trackpoint is no timestamp.
pub proof fn lemma_duration_needs_timestamps(lap: LapView)
    requires
        lap.track.is_some(),
        lap.track.unwrap().len() > 0,
        rfc3339_millis(lap.track.unwrap().first().time).is_none() || rfc3339_millis(
            lap.track.unwrap().last().time,
        ).is_none(),
    ensures
        recalculated_lap(lap).total_time_seconds == lap.total_time_seconds,
{
}

/// Trimming keeps the namespace, the number of activities and of laps, and
/// the calories of every lap.
pub proof fn lemma_trim_keeps_calories(db: DatabaseView, start: usize, end: usize)
    requires
        misfit(db, start, end).is_none(),
    ensures
        trimmed(db, start, end).xmlns == db.xmlns,
        trimmed(db, start, end).activities.len() == db.activities.len(),
        forall|i: int, j: int|
            is_lap_of(db, i, j) ==> is_lap_of(trimmed(db, start, end), i, j) && (#[trigger] trimmed(
                db,
                start,
                end,
            ).activities[i].laps[j]).calories == db.activities[i].laps[j].calories,
{
    let done = trimmed(db, start, end);
    let after_cut = cut(db, start, end);
    assert forall|i: int, j: int| is_lap_of(db, i, j) implies is_lap_of(done, i, j) && (
    #[trigger] done.activities[i].laps[j]).calories == db.activities[i].laps[j].calories by {
        assert(after_cut.activities[i] == cut_activity(db.activities[i], start, end));
        assert(after_cut.activities[i].laps[j] == cut_lap(db.activities[i].laps[j], start, end));
        assert(done.activities[i] == recalculated_activity(after_cut.activities[i]));
        assert(done.activities[i].laps[j] == recalculated_lap(after_cut.activities[i].laps[j]));
    }
}

fn lap_misfit_of(lap: &Lap, start: usize, end: usize) -> (r: Option<usize>)
    ensures
        match r {
            Some(total) => lap_misfit(lap@, start, end) == Some(total as nat),
            None => lap_misfit(lap@, start, end).is_none(),
        },
{
    match &lap.track {
        Some(track) => {
            let total: usize = track.trackpoints.len();
            if start >= total || end >= total || start > end {
                Some(total)
            } else {
                None
            }
        },
        None => None,
    }
}

fn laps_misfit_of(activity: &Activity, start: usize, end: usize) -> (r: Option<usize>)
    ensures
        match r {
            Some(total) => laps_misfit(activity@.laps, start, end) == Some(total as nat),
            None => laps_misfit(activity@.laps, start, end).is_none(),
        },
{
    let mut found: Option<usize> = None;
    let mut j: usize = 0;
    while j < activity.laps.len()
        invariant
            j <= activity.laps@.len(),
            match found {
                Some(total) => laps_misfit(activity@.laps.take(j as int), start, end) == Some(
                    total as nat,
                ),
                None => laps_misfit(activity@.laps.take(j as int), start, end).is_none(),
            },
        decreases activity.laps@.len() - j,
    {
        proof {
            assert(activity@.laps.take(j + 1).drop_last() =~= activity@.laps.take(j as int));
        }
        if found.is_none() {
            found = lap_misfit_of(&activity.laps[j], start, end);
        }
        j = j + 1;
    }
    proof {
        assert(activity@.laps.take(j as int) =~= activity@.laps);
    }
    found
}

/// Looks for the first track of the document, in document order, that the
/// range does not fit, and returns its length.
pub fn find_misfit(db: &TrainingCenterDatabase, start: usize, end: usize) -> (r: Option<usize>)
    ensures
        match r {
            Some(total) => misfit(db@, start, end) == Some(total as nat),
            None => misfit(db@, start, end).is_none(),
        },
{
    let mut found: Option<usize> = None;
    let mut i: usize = 0;
    while i < db.activities.activity.len()
        invariant
            i <= db.activities.activity@.len(),
            match found {
                Some(total) => activities_misfit(db@.activities.take(i as int), start, end)
                    == Some(total as nat),
                None => activities_misfit(db@.activities.take(i as int), start, end).is_none(),
            },
        decreases db.activities.activity@.len() - i,
    {
        proof {
            assert(db@.activities.take(i + 1).drop_last() =~= db@.activities.take(i as int));
        }
        if found.is_none() {
            found = laps_misfit_of(&db.activities.activity[i], start, end);
        }
        i = i + 1;
    }
    proof {
        assert(db@.activities.take(i as int) =~= db@.activities);
    }
    found
}

fn cut_one_lap(lap: &mut Lap, start: usize, end: usize)
    requires
        lap_misfit(old(lap)@, start, end).is_none(),
    ensures
        final(lap)@ == cut_lap(old(lap)@, start, end),
{
    match &mut lap.track {
        Some(track) => {
            let ghost before = track.trackpoints@;
            let total: usize = track.trackpoints.len();
            proof {
                assert(old(lap)@.track == Some(track@));
                assert(track@.len() == total);
            }
            track.trackpoints.truncate(end + 1);
            let kept = track.trackpoints.split_off(start);
            proof {
                assert(kept@ =~= before.subrange(start as int, end + 1));
                assert(kept@.map_values(|p: Trackpoint| p@) =~= before.map_values(
                    |p: Trackpoint| p@,
                ).subrange(start as int, end + 1));
            }
            track.trackpoints = kept;
        },
        None => {},
    }
}

fn cut_one_activity(activity: &mut Activity, start: usize, end: usize)
    requires
        laps_misfit(old(activity)@.laps, start, end).is_none(),
    ensures
        final(activity)@ == cut_activity(old(activity)@, start, end),
{
    let mut j: usize = 0;
    proof {
        lemma_laps_misfit(activity@.laps, start, end);
    }
    while j < activity.laps.len()
        invariant
            j <= activity.laps@.len(),
            activity.laps@.len() == old(activity).laps@.len(),
            activity.sport == old(activity).sport,
            activity.id == old(activity).id,
            forall|k: int|
                0 <= k < old(activity)@.laps.len() ==> lap_misfit(
                    #[trigger] old(activity)@.laps[k],
                    start,
                    end,
                ).is_none(),
            forall|k: int|
                0 <= k < j ==> (#[trigger] activity.laps@[k])@ == cut_lap(
                    old(activity).laps@[k]@,
                    start,
                    end,
                ),
            forall|k: int|
                j <= k < activity.laps@.len() ==> #[trigger] activity.laps@[k] == old(
                    activity,
                ).laps@[k],
        decreases activity.laps@.len() - j,
    {
        proof {
            assert(old(activity)@.laps[j as int] == old(activity).laps@[j as int]@);
        }
        cut_one_lap(&mut activity.laps[j], start, end);
        j = j + 1;
    }
    proof {
        assert(activity@.laps =~= cut_activity(old(activity)@, start, end).laps);
    }
}

/// Cuts every track of the document down to a range that fits each of them.
pub(crate) fn cut_tracks(db: &mut TrainingCenterDatabase, start: usize, end: usize)
    requires
        misfit(old(db)@, start, end).is_none(),
    ensures
        final(db)@ == cut(old(db)@, start, end),
{
    let mut i: usize = 0;
    proof {
        lemma_activities_misfit(db@.activities, start, end);
    }
    while i < db.activities.activity.len()
        invariant
            i <= db.activities.activity@.len(),
            db.activities.activity@.len() == old(db).activities.activity@.len(),
            db.xmlns == old(db).xmlns,
            forall|k: int|
                0 <= k < old(db)@.activities.len() ==> laps_misfit(
                    (#[trigger] old(db)@.activities[k]).laps,
                    start,
                    end,
                ).is_none(),
            forall|k: int|
                0 <= k < i ==> (#[trigger] db.activities.activity@[k])@ == cut_activity(
                    old(db).activities.activity@[k]@,
                    start,
                    end,
                ),
            forall|k: int|
                i <= k < db.activities.activity@.len() ==> #[trigger] db.activities.activity@[k]
                    == old(db).activities.activity@[k],
        decreases db.activities.activity@.len() - i,
    {
        proof {
            assert(old(db)@.activities[i as int] == old(db).activities.activity@[i as int]@);
        }
        cut_one_activity(&mut db.activities.activity[i], start, end);
        i = i + 1;
    }
    proof {
        assert(db@.activities =~= cut(old(db)@, start, end).activities);
    }
}

fn distance_of(point: &Trackpoint) -> (r: Decimal)
    ensures
        r.units == point_distance(point@),
{
    match point.distance_meters {
        Some(distance) => distance,
        None => Decimal::zero(),
    }
}

fn recalculate_lap(lap: &mut Lap)
    ensures
        final(lap)@ == recalculated_lap(old(lap)@),
{
    if let Some(track) = &lap.track {
        let total: usize = track.trackpoints.len();
        if total == 0 {
            lap.total_time_seconds = Decimal::zero();
            lap.distance_meters = Decimal::zero();
        } else {
            let first = &track.trackpoints[0];
            let last = &track.trackpoints[total - 1];
            proof {
                assert(track@.first() == first@);
                assert(track@.last() == last@);
            }
            let start_time = first.time.clone();
            let elapsed = elapsed_millis(first.time.as_str(), last.time.as_str());
            let distance = distance_of(last).saturating_sub(distance_of(first));
            lap.start_time = start_time;
            if let Some(ms) = elapsed {
                lap.total_time_seconds = Decimal::from_millis(ms);
            }
            lap.distance_meters = distance;
        }
    }
}

fn recalculate_activity(activity: &mut Activity)
    ensures
        final(activity)@ == recalculated_activity(old(activity)@),
{
    let mut j: usize = 0;
    while j < activity.laps.len()
        invariant
            j <= activity.laps@.len(),
            activity.laps@.len() == old(activity).laps@.len(),
            activity.sport == old(activity).sport,
            activity.id == old(activity).id,
            forall|k: int|
                0 <= k < j ==> (#[trigger] activity.laps@[k])@ == recalculated_lap(
                    old(activity).laps@[k]@,
                ),
            forall|k: int|
                j <= k < activity.laps@.len() ==> #[trigger] activity.laps@[k] == old(
                    activity,
                ).laps@[k],
        decreases activity.laps@.len() - j,
    {
        recalculate_lap(&mut activity.laps[j]);
        j = j + 1;
    }
    proof {
        assert(activity@.laps =~= recalculated_activity(old(activity)@).laps);
    }
    if activity.laps.len() > 0 {
        activity.id = activity.laps[0].start_time.clone();
    }
}

/// Brings every lap summary and every activity identifier of the document in
/// line with the trackpoints that the document holds now.
pub fn recalculate_lap_stats(db: &mut TrainingCenterDatabase)
    ensures
        final(db)@ == recalculated(old(db)@),
{
    let mut i: usize = 0;
    while i < db.activities.activity.len()
        invariant
            i <= db.activities.activity@.len(),
            db.activities.activity@.len() == old(db).activities.activity@.len(),
            db.xmlns == old(db).xmlns,
            forall|k: int|
                0 <= k < i ==> (#[trigger] db.activities.activity@[k])@ == recalculated_activity(
                    old(db).activities.activity@[k]@,
                ),
            forall|k: int|
                i <= k < db.activities.activity@.len() ==> #[trigger] db.activities.activity@[k]
                    == old(db).activities.activity@[k],
        decreases db.activities.activity@.len() - i,
    {
        recalculate_activity(&mut db.activities.activity[i]);
        i = i + 1;
    }
    proof {
        assert(db@.activities =~= recalculated(old(db)@).activities);
    }
}

/// Trims every track of the document to the inclusive range of indices from
/// `start` to `end` and recalculates the summaries.
///
/// The range is held against every track before anything is changed. Where it
/// does not fit one, nothing is changed and the error names the length of the
/// first such track in document order.
pub fn trim_by_indices(db: &mut TrainingCenterDatabase, start: usize, end: usize) -> (r: Result<
    (),
    TcxError,
>)
    ensures
        match r {
            Ok(_) => misfit(old(db)@, start, end).is_none() && final(db)@ == trimmed(
                old(db)@,
                start,
                end,
            ),
            Err(error) => *final(db) == *old(db) && exists|total: usize|
                misfit(old(db)@, start, end) == Some(total as nat) && error == (TcxError::Index {
                    start,
                    end,
                    total,
                }),
        },
{
    match find_misfit(db, start, end) {
        Some(total) => Err(TcxError::Index { start, end, total }),
        None => {
            cut_tracks(db, start, end);
            recalculate_lap_stats(db);
            Ok(())
        },
    }
}

} // verus!
