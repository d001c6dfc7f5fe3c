//! The document: a database of activities, laps, tracks and trackpoints.

use vstd::prelude::*;
use crate::decimal::Decimal;

verus! {

/// A geographic position in degrees.
#[derive(Clone, Copy, Debug, PartialEq, Eq)]
pub struct Position {
    pub latitude_degrees: Decimal,
    pub longitude_degrees: Decimal,
}

/// A heart rate in beats per minute.
#[derive(Clone, Copy, Debug, PartialEq, Eq)]
pub struct HeartRateBpm {
    pub value: u32,
}

/// An extension payload, carried along and never interpreted.
#[derive(Clone, Debug, PartialEq, Eq)]
pub struct Extensions {
    pub content: Option<String>,
}

/// One timestamped sample of a track.
#[derive(Clone, Debug, PartialEq, Eq)]
pub struct Trackpoint {
    pub time: String,
    pub position: Option<Position>,
    pub altitude_meters: Option<Decimal>,
    pub distance_meters: Option<Decimal>,
    pub heart_rate_bpm: Option<HeartRateBpm>,
    pub cadence: Option<u32>,
    pub extensions: Option<Extensions>,
}

/// The samples of one lap, in the order in which they were recorded.
#[derive(Clone, Debug, PartialEq, Eq)]
pub struct Track {
    pub trackpoints: Vec<Trackpoint>,
}

/// A stretch of an activity with its own summary.
#[derive(Clone, Debug, PartialEq, Eq)]
pub struct Lap {
    pub start_time: String,
    pub total_time_seconds: Decimal,
    pub distance_meters: Decimal,
    pub calories: u32,
    pub intensity: String,
    pub trigger_method: String,
    pub track: Option<Track>,
}

/// One recorded exercise session.
#[derive(Clone, Debug, PartialEq, Eq)]
pub struct Activity {
    pub sport: String,
    pub id: String,
    pub laps: Vec<Lap>,
}

/// The activities of a database, in file order.
#[derive(Clone, Debug, PartialEq, Eq)]
pub struct Activities {
    pub activity: Vec<Activity>,
}

/// The root of a document.
#[derive(Clone, Debug, PartialEq, Eq)]
pub struct TrainingCenterDatabase {
    pub xmlns: Option<String>,
    pub activities: Activities,
}

/// What a [`Trackpoint`] holds.
pub struct TrackpointView {
    pub time: Seq<char>,
    pub position: Option<Position>,
    pub altitude_meters: Option<Decimal>,
    pub distance_meters: Option<Decimal>,
    pub heart_rate: Option<u32>,
    pub cadence: Option<u32>,
    pub extensions: Option<Option<Seq<char>>>,
}

/// What a [`Lap`] holds; its track is the sequence of its trackpoints.
pub struct LapView {
    pub start_time: Seq<char>,
    pub total_time_seconds: Decimal,
    pub distance_meters: Decimal,
    pub calories: u32,
    pub intensity: Seq<char>,
    pub trigger_method: Seq<char>,
    pub track: Option<Seq<TrackpointView>>,
}

/// What an [`Activity`] holds.
pub struct ActivityView {
    pub sport: Seq<char>,
    pub id: Seq<char>,
    pub laps: Seq<LapView>,
}

/// What a [`TrainingCenterDatabase`] holds.
pub struct DatabaseView {
    pub xmlns: Option<Seq<char>>,
    pub activities: Seq<ActivityView>,
}

impl View for Extensions {
    type V = Option<Seq<char>>;

    open spec fn view(&self) -> Option<Seq<char>> {
        match self.content {
            Some(text) => Some(text@),
            None => None,
        }
    }
}

impl View for Trackpoint {
    type V = TrackpointView;

    open spec fn view(&self) -> TrackpointView {
        TrackpointView {
            time: self.time@,
            position: self.position,
            altitude_meters: self.altitude_meters,
            distance_meters: self.distance_meters,
            heart_rate: match self.heart_rate_bpm {
                Some(rate) => Some(rate.value),
                None => None,
            },
            cadence: self.cadence,
            extensions: match self.extensions {
                Some(payload) => Some(payload@),
                None => None,
            },
        }
    }
}

impl View for Track {
    type V = Seq<TrackpointView>;

    open spec fn view(&self) -> Seq<TrackpointView> {
        self.trackpoints@.map_values(|p: Trackpoint| p@)
    }
}

impl View for Lap {
    type V = LapView;

    open spec fn view(&self) -> LapView {
        LapView {
            start_time: self.start_time@,
            total_time_seconds: self.total_time_seconds,
            distance_meters: self.distance_meters,
            calories: self.calories,
            intensity: self.intensity@,
            trigger_method: self.trigger_method@,
            track: match self.track {
                Some(track) => Some(track@),
                None => None,
            },
        }
    }
}

impl View for Activity {
    type V = ActivityView;

    open spec fn view(&self) -> ActivityView {
        ActivityView {
            sport: self.sport@,
            id: self.id@,
            laps: self.laps@.map_values(|l: Lap| l@),
        }
    }
}

impl View for Activities {
    type V = Seq<ActivityView>;

    open spec fn view(&self) -> Seq<ActivityView> {
        self.activity@.map_values(|a: Activity| a@)
    }
}

impl View for TrainingCenterDatabase {
    type V = DatabaseView;

    open spec fn view(&self) -> DatabaseView {
        DatabaseView {
            xmlns: match self.xmlns {
                Some(text) => Some(text@),
                None => None,
            },
            activities: self.activities@,
        }
    }
}

} // verus!
