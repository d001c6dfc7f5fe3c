//! The flattened view: every trackpoint of a document, in document order.

use vstd::prelude::*;
use crate::decimal::Decimal;
use crate::model::{
    ActivityView, Activity, DatabaseView, Lap, LapView, Trackpoint, TrackpointView,
    TrainingCenterDatabase,
};
use crate::timestamp::{parse_timestamp, rfc3339_millis};

verus! {

/// One trackpoint of the flattened view, with its timestamp resolved.
#[derive(Clone, Debug, PartialEq, Eq)]
pub struct JsTrackpoint {
    pub time: String,
    pub timestamp_ms: i64,
    pub latitude: Option<Decimal>,
    pub longitude: Option<Decimal>,
    pub altitude_meters: Option<Decimal>,
    pub distance_meters: Option<Decimal>,
    pub heart_rate: Option<u32>,
    pub cadence: Option<u32>,
}

/// What a [`JsTrackpoint`] holds.
pub struct JsTrackpointView {
    pub time: Seq<char>,
    pub timestamp_ms: i64,
    pub latitude: Option<Decimal>,
    pub longitude: Option<Decimal>,
    pub altitude_meters: Option<Decimal>,
    pub distance_meters: Option<Decimal>,
    pub heart_rate: Option<u32>,
    pub cadence: Option<u32>,
}

impl View for JsTrackpoint {
    type V = JsTrackpointView;

    open spec fn view(&self) -> JsTrackpointView {
        JsTrackpointView {
            time: self.time@,
            timestamp_ms: self.timestamp_ms,
            latitude: self.latitude,
            longitude: self.longitude,
            altitude_meters: self.altitude_meters,
            distance_meters: self.distance_meters,
            heart_rate: self.heart_rate,
            cadence: self.cadence,
        }
    }
}

/// The views of a sequence of flattened trackpoints.
pub open spec fn views(points: Seq<JsTrackpoint>) -> Seq<JsTrackpointView> {
    points.map_values(|p: JsTrackpoint| p@)
}

/// The trackpoints of a lap: those of its track, none for a lap without one.
pub open spec fn lap_points(lap: LapView) -> Seq<TrackpointView> {
    match lap.track {
        Some(points) => points,
        None => Seq::empty(),
    }
}

/// The trackpoints of a sequence of laps, lap after lap.
pub open spec fn laps_points(laps: Seq<LapView>) -> Seq<TrackpointView>
    decreases laps.len(),
{
    if laps.len() == 0 {
        Seq::empty()
    } else {
        laps_points(laps.drop_last()) + lap_points(laps.last())
    }
}

/// The trackpoints of a sequence of activities, activity after activity.
pub open spec fn all_points(activities: Seq<ActivityView>) -> Seq<TrackpointView>
    decreases activities.len(),
{
    if activities.len() == 0 {
        Seq::empty()
    } else {
        all_points(activities.drop_last()) + laps_points(activities.last().laps)
    }
}

/// The flattened form of one trackpoint. The numeric timestamp is 0 where the
/// time text is no timestamp.
pub open spec fn flat_point(p: TrackpointView) -> JsTrackpointView {
    JsTrackpointView {
        time: p.time,
        timestamp_ms: match rfc3339_millis(p.time) {
            Some(ms) => ms,
            None => 0,
        },
        latitude: match p.position {
            Some(position) => Some(position.latitude_degrees),
            None => None,
        },
        longitude: match p.position {
            Some(position) => Some(position.longitude_degrees),
            None => None,
        },
        altitude_meters: p.altitude_meters,
        distance_meters: p.distance_meters,
        heart_rate: p.heart_rate,
        cadence: p.cadence,
    }
}

/// The flattened forms of a sequence of trackpoints.
pub open spec fn flat_points(points: Seq<TrackpointView>) -> Seq<JsTrackpointView> {
    points.map_values(|p: TrackpointView| flat_point(p))
}

/// The flattened view of a document.
pub open spec fn flattened(db: DatabaseView) -> Seq<JsTrackpointView> {
    flat_points(all_points(db.activities))
}

/// How many trackpoints a document holds.
pub open spec fn point_count(db: DatabaseView) -> nat {
    all_points(db.activities).len()
}

/// Taking one more lap appends that lap's trackpoints.
proof fn lemma_laps_points_step(laps: Seq<LapView>, n: int)
    requires
        0 <= n < laps.len(),
    ensures
        laps_points(laps.take(n + 1)) == laps_points(laps.take(n)) + lap_points(laps[n]),
{
    assert(laps.take(n + 1).drop_last() =~= laps.take(n));
}

/// Taking one more activity appends that activity's trackpoints.
proof fn lemma_all_points_step(activities: Seq<ActivityView>, n: int)
    requires
        0 <= n < activities.len(),
    ensures
        all_points(activities.take(n + 1)) == all_points(activities.take(n)) + laps_points(
            activities[n].laps,
        ),
{
    assert(activities.take(n + 1).drop_last() =~= activities.take(n));
}

fn flat_trackpoint(point: &Trackpoint) -> (r: JsTrackpoint)
    ensures
        r@ == flat_point(point@),
{
    let timestamp_ms: i64 = match parse_timestamp(point.time.as_str()) {
        Some(ms) => ms,
        None => 0,
    };
    JsTrackpoint {
        time: point.time.clone(),
        timestamp_ms,
        latitude: match point.position {
            Some(position) => Some(position.latitude_degrees),
            None => None,
        },
        longitude: match point.position {
            Some(position) => Some(position.longitude_degrees),
            None => None,
        },
        altitude_meters: point.altitude_meters,
        distance_meters: point.distance_meters,
        heart_rate: match point.heart_rate_bpm {
            Some(rate) => Some(rate.value),
            None => None,
        },
        cadence: point.cadence,
    }
}

fn push_lap_points(out: &mut Vec<JsTrackpoint>, lap: &Lap)
    ensures
        views(final(out)@) == views(old(out)@) + flat_points(lap_points(lap@)),
{
    match &lap.track {
        Some(track) => {
            let mut k: usize = 0;
            while k < track.trackpoints.len()
                invariant
                    k <= track.trackpoints@.len(),
                    lap.track == Some(*track),
                    views(out@) == views(old(out)@) + flat_points(track@.take(k as int)),
                decreases track.trackpoints@.len() - k,
            {
                let ghost before = out@;
                let flat = flat_trackpoint(&track.trackpoints[k]);
                out.push(flat);
                proof {
                    assert(track@.take(k + 1) =~= track@.take(k as int).push(track@[k as int]));
                    assert(views(out@) =~= views(before).push(flat@));
                    assert(track@[k as int] == track.trackpoints@[k as int]@);
                    assert(flat_points(track@.take(k + 1)) =~= flat_points(
                        track@.take(k as int),
                    ).push(flat_point(track@[k as int])));
                    assert(views(out@) =~= views(old(out)@) + flat_points(track@.take(k + 1)));
                }
                k = k + 1;
            }
            proof {
                assert(track@.take(k as int) =~= track@);
            }
        },
        None => {
            proof {
                assert(views(out@) =~= views(old(out)@) + flat_points(lap_points(lap@)));
            }
        },
    }
}

fn push_activity_points(out: &mut Vec<JsTrackpoint>, activity: &Activity)
    ensures
        views(final(out)@) == views(old(out)@) + flat_points(laps_points(activity@.laps)),
{
    let mut j: usize = 0;
    proof {
        assert(views(out@) =~= views(old(out)@) + flat_points(
            laps_points(activity@.laps.take(0)),
        ));
    }
    while j < activity.laps.len()
        invariant
            j <= activity.laps@.len(),
            views(out@) == views(old(out)@) + flat_points(
                laps_points(activity@.laps.take(j as int)),
            ),
        decreases activity.laps@.len() - j,
    {
        push_lap_points(out, &activity.laps[j]);
        proof {
            lemma_laps_points_step(activity@.laps, j as int);
            assert(views(out@) =~= views(old(out)@) + flat_points(
                laps_points(activity@.laps.take(j + 1)),
            ));
        }
        j = j + 1;
    }
    proof {
        assert(activity@.laps.take(j as int) =~= activity@.laps);
    }
}

/// Collects every trackpoint of the document in document order: activity
/// after activity, lap after lap, skipping laps without a track.
pub fn flatten(db: &TrainingCenterDatabase) -> (r: Vec<JsTrackpoint>)
    ensures
        views(r@) == flattened(db@),
{
    let mut out: Vec<JsTrackpoint> = Vec::new();
    let mut i: usize = 0;
    proof {
        assert(views(out@) =~= flat_points(all_points(db@.activities.take(0))));
    }
    while i < db.activities.activity.len()
        invariant
            i <= db.activities.activity@.len(),
            views(out@) == flat_points(all_points(db@.activities.take(i as int))),
        decreases db.activities.activity@.len() - i,
    {
        push_activity_points(&mut out, &db.activities.activity[i]);
        proof {
            lemma_all_points_step(db@.activities, i as int);
            assert(views(out@) =~= flat_points(all_points(db@.activities.take(i + 1))));
        }
        i = i + 1;
    }
    proof {
        assert(db@.activities.take(i as int) =~= db@.activities);
    }
    out
}

fn count_lap_points(lap: &Lap) -> (n: usize)
    ensures
        n == lap_points(lap@).len(),
{
    match &lap.track {
        Some(track) => track.trackpoints.len(),
        None => 0,
    }
}

fn count_activity_points(activity: &Activity, so_far: usize) -> (n: usize)
    ensures
        n == if so_far + laps_points(activity@.laps).len() > usize::MAX {
            usize::MAX as int
        } else {
            so_far + laps_points(activity@.laps).len()
        },
{
    let mut n: usize = so_far;
    let mut j: usize = 0;
    while j < activity.laps.len()
        invariant
            j <= activity.laps@.len(),
            n == if so_far + laps_points(activity@.laps.take(j as int)).len() > usize::MAX {
                usize::MAX as int
            } else {
                so_far + laps_points(activity@.laps.take(j as int)).len()
            },
        decreases activity.laps@.len() - j,
    {
        let step: usize = count_lap_points(&activity.laps[j]);
        proof {
            lemma_laps_points_step(activity@.laps, j as int);
        }
        n = n.saturating_add(step);
        j = j + 1;
    }
    proof {
        assert(activity@.laps.take(j as int) =~= activity@.laps);
    }
    n
}

/// Counts the trackpoints of the document. A count that no `usize` holds is
/// reported as `usize::MAX`.
pub fn count_trackpoints(db: &TrainingCenterDatabase) -> (n: usize)
    ensures
        n == if point_count(db@) > usize::MAX {
            usize::MAX as nat
        } else {
            point_count(db@)
        },
{
    let mut n: usize = 0;
    let mut i: usize = 0;
    while i < db.activities.activity.len()
        invariant
            i <= db.activities.activity@.len(),
            n == if all_points(db@.activities.take(i as int)).len() > usize::MAX {
                usize::MAX as nat
            } else {
                all_points(db@.activities.take(i as int)).len()
            },
        decreases db.activities.activity@.len() - i,
    {
        proof {
            lemma_all_points_step(db@.activities, i as int);
        }
        n = count_activity_points(&db.activities.activity[i], n);
        i = i + 1;
    }
    proof {
        assert(db@.activities.take(i as int) =~= db@.activities);
    }
    n
}

} // verus!
