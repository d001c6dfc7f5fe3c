//! An editor for exercise recordings in the Training Center XML schema.
//!
//! A recording is a tree of activities, laps, tracks and timestamped
//! trackpoints. The library flattens it into one sequence of trackpoints,
//! computes aggregate statistics, trims every track to a range of indices
//! while keeping the lap summaries consistent, and keeps the text a session
//! was opened from so that every edit can be undone.
//!
//! Decimal quantities are exact fixed-point numbers; see [`decimal::Decimal`].

pub mod digits;
pub mod decimal;
pub mod timestamp;
pub mod model;
pub mod flatten;
pub mod error;
pub mod trim;
pub mod stats;
pub mod editor;

pub use decimal::Decimal;
pub use editor::TcxEditor;
pub use error::TcxError;
pub use flatten::JsTrackpoint;
pub use stats::JsActivityStats;
pub use model::{
    Activities, Activity, Extensions, HeartRateBpm, Lap, Position, Track, Trackpoint,
    TrainingCenterDatabase,
};
