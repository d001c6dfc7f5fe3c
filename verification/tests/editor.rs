use tcx_parser::editor::XML_DECLARATION;
use tcx_parser::flatten::{count_trackpoints, flatten};
use tcx_parser::stats::compute;
use tcx_parser::trim::{find_misfit, recalculate_lap_stats, trim_by_indices};
use tcx_parser::{
    Activities, Activity, Decimal, Extensions, HeartRateBpm, Lap, Position, TcxEditor, TcxError,
    Track, Trackpoint, TrainingCenterDatabase,
};

const SAMPLE_TCX: &str = r#"<?xml version="1.0" encoding="UTF-8" standalone="yes"?>
<TrainingCenterDatabase xmlns="http://www.garmin.com/xmlschemas/TrainingCenterDatabase/v2">
    <Activities>
        <Activity Sport="Running">
            <Id>2025-12-07T08:48:35.000+01:00</Id>
            <Lap StartTime="2025-12-07T08:48:35.000+01:00">
                <TotalTimeSeconds>367.827</TotalTimeSeconds>
                <DistanceMeters>1000.0</DistanceMeters>
                <Calories>65</Calories>
                <Intensity>Active</Intensity>
                <TriggerMethod>Manual</TriggerMethod>
                <Track>
                    <Trackpoint>
                        <Time>2025-12-07T08:48:35.000+01:00</Time>
                        <Position>
                            <LatitudeDegrees>45.81882</LatitudeDegrees>
                            <LongitudeDegrees>9.0663</LongitudeDegrees>
                        </Position>
                        <AltitudeMeters>204.585</AltitudeMeters>
                        <DistanceMeters>0.0</DistanceMeters>
                        <HeartRateBpm>
                            <Value>100</Value>
                        </HeartRateBpm>
                    </Trackpoint>
                    <Trackpoint>
                        <Time>2025-12-07T08:48:38.000+01:00</Time>
                        <Position>
                            <LatitudeDegrees>45.81882</LatitudeDegrees>
                            <LongitudeDegrees>9.0663</LongitudeDegrees>
                        </Position>
                        <AltitudeMeters>204.585</AltitudeMeters>
                        <DistanceMeters>4.64</DistanceMeters>
                        <HeartRateBpm>
                            <Value>103</Value>
                        </HeartRateBpm>
                    </Trackpoint>
                </Track>
            </Lap>
        </Activity>
    </Activities>
</TrainingCenterDatabase>"#;

const MICRO: i128 = 1_000_000_000_000;

fn micros(n: i128) -> Decimal {
    Decimal { units: n * MICRO }
}

fn sample_point(time: &str, distance: i128, rate: u32) -> Trackpoint {
    Trackpoint {
        time: time.to_string(),
        position: Some(Position {
            latitude_degrees: micros(45_818_820),
            longitude_degrees: micros(9_066_300),
        }),
        altitude_meters: Some(micros(204_585_000)),
        distance_meters: Some(micros(distance)),
        heart_rate_bpm: Some(HeartRateBpm { value: rate }),
        cadence: None,
        extensions: None,
    }
}

fn sample_database() -> TrainingCenterDatabase {
    TrainingCenterDatabase {
        xmlns: Some("http://www.garmin.com/xmlschemas/TrainingCenterDatabase/v2".to_string()),
        activities: Activities {
            activity: vec![Activity {
                sport: "Running".to_string(),
                id: "2025-12-07T08:48:35.000+01:00".to_string(),
                laps: vec![Lap {
                    start_time: "2025-12-07T08:48:35.000+01:00".to_string(),
                    total_time_seconds: micros(367_827_000),
                    distance_meters: micros(1_000_000_000),
                    calories: 65,
                    intensity: "Active".to_string(),
                    trigger_method: "Manual".to_string(),
                    track: Some(Track {
                        trackpoints: vec![
                            sample_point("2025-12-07T08:48:35.000+01:00", 0, 100),
                            sample_point("2025-12-07T08:48:38.000+01:00", 4_640_000, 103),
                        ],
                    }),
                }],
            }],
        },
    }
}

fn sample_editor() -> TcxEditor {
    TcxEditor::new(SAMPLE_TCX, Ok(sample_database())).unwrap()
}

#[test]
fn test_parse_tcx() {
    let editor = sample_editor();
    assert_eq!(editor.get_trackpoint_count(), 2);
}

const T0: &str = "2025-12-07T08:48:35.000+01:00";
const T1: &str = "2025-12-07T08:48:38.000+01:00";
const T2: &str = "2025-12-07T08:48:41.250+01:00";

fn bare_point(time: &str) -> Trackpoint {
    Trackpoint {
        time: time.to_string(),
        position: None,
        altitude_meters: None,
        distance_meters: None,
        heart_rate_bpm: None,
        cadence: None,
        extensions: None,
    }
}

fn point(time: &str, altitude: Option<i128>, distance: Option<i128>, rate: Option<u32>) -> Trackpoint {
    Trackpoint {
        altitude_meters: altitude.map(micros),
        distance_meters: distance.map(micros),
        heart_rate_bpm: rate.map(|value| HeartRateBpm { value }),
        ..bare_point(time)
    }
}

fn lap(start: &str, seconds: i128, meters: i128, calories: u32, track: Option<Vec<Trackpoint>>) -> Lap {
    Lap {
        start_time: start.to_string(),
        total_time_seconds: micros(seconds * 1_000_000),
        distance_meters: micros(meters * 1_000_000),
        calories,
        intensity: "Active".to_string(),
        trigger_method: "Manual".to_string(),
        track: track.map(|trackpoints| Track { trackpoints }),
    }
}

fn activity(sport: &str, id: &str, laps: Vec<Lap>) -> Activity {
    Activity { sport: sport.to_string(), id: id.to_string(), laps }
}

fn database(activity: Vec<Activity>) -> TrainingCenterDatabase {
    TrainingCenterDatabase { xmlns: None, activities: Activities { activity } }
}

/// Two activities; the first has a lap of three trackpoints and a lap
/// without a track, the second a lap of two trackpoints.
fn two_activities() -> TrainingCenterDatabase {
    database(vec![
        activity(
            "Running",
            "first",
            vec![
                lap(
                    "lap-one",
                    100,
                    500,
                    10,
                    Some(vec![
                        point(T0, Some(100_000_000), Some(1_500_000), Some(120)),
                        point(T1, Some(103_500_000), Some(10_000_000), None),
                        point(T2, Some(101_000_000), Some(21_250_000), Some(131)),
                    ]),
                ),
                lap("lap-two", 20, 30, 5, None),
            ],
        ),
        activity(
            "Biking",
            "second",
            vec![lap(
                "lap-three",
                7,
                9,
                4_000_000_000,
                Some(vec![
                    point(T1, Some(90_000_000), None, Some(80)),
                    point(T2, None, Some(3_000_000), Some(90)),
                ]),
            )],
        ),
    ])
}

#[test]
fn sample_statistics() {
    let editor = sample_editor();
    let stats = editor.get_stats();
    assert_eq!(editor.get_trackpoint_count(), 2);
    assert_eq!(stats.trackpoint_count, 2);
    assert_eq!(stats.avg_heart_rate, Some(micros(101_500_000)));
    assert_eq!(stats.avg_heart_rate.unwrap().to_text(), "101.5");
    assert_eq!(stats.max_heart_rate, Some(103));
    assert_eq!(stats.min_heart_rate, Some(100));
    assert_eq!(stats.sport, "Running");
    assert_eq!(stats.start_time, T0);
    assert_eq!(stats.total_time_seconds.to_text(), "367.827");
    assert_eq!(stats.total_distance_meters.to_text(), "1000");
    assert_eq!(stats.total_calories, 65);
    assert_eq!(stats.elevation_gain, Some(micros(0)));
    assert_eq!(stats.elevation_loss, Some(micros(0)));
    assert_eq!(stats.max_altitude, Some(micros(204_585_000)));
    assert_eq!(stats.min_altitude, Some(micros(204_585_000)));
}

#[test]
fn sample_trim_to_first_point() {
    let mut editor = sample_editor();
    assert_eq!(editor.trim_by_indices(0, 0), Ok(()));
    assert_eq!(editor.get_trackpoint_count(), 1);
    let db = editor.database();
    let lap = &db.activities.activity[0].laps[0];
    assert_eq!(lap.total_time_seconds, micros(0));
    assert_eq!(lap.distance_meters, micros(0));
    assert_eq!(lap.start_time, T0);
    assert_eq!(lap.calories, 65);
    assert_eq!(db.activities.activity[0].id, T0);
    assert_eq!(lap.track.as_ref().unwrap().trackpoints, vec![sample_point(T0, 0, 100)]);
}

#[test]
fn sample_trim_to_last_point() {
    let mut editor = sample_editor();
    assert_eq!(editor.trim_by_indices(1, 1), Ok(()));
    let db = editor.database();
    let lap = &db.activities.activity[0].laps[0];
    assert_eq!(lap.start_time, T1);
    assert_eq!(db.activities.activity[0].id, T1);
    assert_eq!(lap.total_time_seconds, micros(0));
    assert_eq!(lap.distance_meters, micros(0));
    assert_eq!(lap.track.as_ref().unwrap().trackpoints, vec![sample_point(T1, 4_640_000, 103)]);
}

#[test]
fn sample_trim_whole_range_recalculates() {
    let mut editor = sample_editor();
    assert_eq!(editor.trim_by_indices(0, 1), Ok(()));
    let lap = &editor.database().activities.activity[0].laps[0];
    assert_eq!(lap.total_time_seconds.to_text(), "3");
    assert_eq!(lap.distance_meters.to_text(), "4.64");
    assert_eq!(editor.get_trackpoint_count(), 2);
}

#[test]
fn sample_trim_out_of_range() {
    let mut editor = sample_editor();
    let outcome = editor.trim_by_indices(0, 5);
    assert_eq!(outcome, Err(TcxError::Index { start: 0, end: 5, total: 2 }));
    assert_eq!(outcome.unwrap_err().message(), "Invalid indices: start=0, end=5, total=2");
    assert_eq!(editor.get_trackpoint_count(), 2);
    assert_eq!(*editor.database(), sample_database());
}

#[test]
fn trim_rejects_inverted_and_late_ranges() {
    let mut editor = sample_editor();
    assert_eq!(editor.trim_by_indices(1, 0), Err(TcxError::Index { start: 1, end: 0, total: 2 }));
    assert_eq!(editor.trim_by_indices(2, 2), Err(TcxError::Index { start: 2, end: 2, total: 2 }));
    assert_eq!(editor.trim_by_indices(2, 1), Err(TcxError::Index { start: 2, end: 1, total: 2 }));
    assert_eq!(
        editor.trim_by_indices(usize::MAX, usize::MAX),
        Err(TcxError::Index { start: usize::MAX, end: usize::MAX, total: 2 })
    );
    assert_eq!(*editor.database(), sample_database());
}

#[test]
fn trim_is_all_or_nothing() {
    let mut db = two_activities();
    assert_eq!(find_misfit(&db, 0, 2), Some(2));
    assert_eq!(
        trim_by_indices(&mut db, 0, 2),
        Err(TcxError::Index { start: 0, end: 2, total: 2 })
    );
    assert_eq!(db, two_activities());
    assert_eq!(find_misfit(&db, 0, 1), None);
}

#[test]
fn trim_cuts_every_track() {
    let mut db = two_activities();
    assert_eq!(trim_by_indices(&mut db, 1, 1), Ok(()));
    let first = &db.activities.activity[0];
    let second = &db.activities.activity[1];
    assert_eq!(first.laps[0].track.as_ref().unwrap().trackpoints.len(), 1);
    assert_eq!(first.laps[0].track.as_ref().unwrap().trackpoints[0].time, T1);
    assert_eq!(first.laps[1].track, None);
    assert_eq!(second.laps[0].track.as_ref().unwrap().trackpoints.len(), 1);
    assert_eq!(second.laps[0].track.as_ref().unwrap().trackpoints[0].time, T2);
    assert_eq!(first.laps[0].start_time, T1);
    assert_eq!(first.id, T1);
    assert_eq!(second.laps[0].start_time, T2);
    assert_eq!(second.id, T2);
    // The lap without a track keeps its summary.
    assert_eq!(first.laps[1], lap("lap-two", 20, 30, 5, None));
    assert_eq!(count_trackpoints(&db), 2);
}

#[test]
fn trim_recalculates_duration_and_distance() {
    let mut db = two_activities();
    assert_eq!(trim_by_indices(&mut db, 0, 1), Ok(()));
    let first = &db.activities.activity[0].laps[0];
    assert_eq!(first.track.as_ref().unwrap().trackpoints.len(), 2);
    assert_eq!(first.total_time_seconds.to_text(), "3");
    assert_eq!(first.distance_meters.to_text(), "8.5");
    assert_eq!(first.calories, 10);
    let third = &db.activities.activity[1].laps[0];
    assert_eq!(third.total_time_seconds.to_text(), "3.25");
    // The first trackpoint records no distance: it counts as zero.
    assert_eq!(third.distance_meters.to_text(), "3");
    assert_eq!(third.calories, 4_000_000_000);
}

#[test]
fn trim_keeps_a_negative_distance() {
    let mut db = database(vec![activity(
        "Running",
        "id",
        vec![lap(
            "start",
            1,
            1,
            1,
            Some(vec![
                point(T0, None, Some(9_000_000), None),
                point(T2, None, Some(2_500_000), None),
            ]),
        )],
    )]);
    assert_eq!(trim_by_indices(&mut db, 0, 1), Ok(()));
    let lap = &db.activities.activity[0].laps[0];
    assert_eq!(lap.distance_meters.to_text(), "-6.5");
    assert_eq!(lap.total_time_seconds.to_text(), "6.25");
}

#[test]
fn trim_without_tracks_accepts_any_range() {
    let mut db = database(vec![activity("Running", "id", vec![lap("start", 1, 2, 3, None)])]);
    let before = db.clone();
    assert_eq!(trim_by_indices(&mut db, 7, 3), Ok(()));
    // Nothing to cut; the identifier follows the first lap's start time.
    assert_eq!(db.activities.activity[0].laps, before.activities.activity[0].laps);
    assert_eq!(db.activities.activity[0].id, "start");
    let mut empty = database(vec![]);
    assert_eq!(trim_by_indices(&mut empty, 0, 0), Ok(()));
    assert_eq!(empty, database(vec![]));
}

#[test]
fn trim_rejects_an_empty_track() {
    let mut db = database(vec![activity("Running", "id", vec![lap("start", 1, 2, 3, Some(vec![]))])]);
    assert_eq!(
        trim_by_indices(&mut db, 0, 0),
        Err(TcxError::Index { start: 0, end: 0, total: 0 })
    );
}

#[test]
fn recalculation_zeroes_a_lap_with_an_empty_track() {
    let mut db = database(vec![
        activity("Running", "id", vec![lap("start", 11, 22, 33, Some(vec![]))]),
        activity("Walking", "kept", vec![]),
    ]);
    recalculate_lap_stats(&mut db);
    let lap = &db.activities.activity[0].laps[0];
    assert_eq!(lap.total_time_seconds, micros(0));
    assert_eq!(lap.distance_meters, micros(0));
    assert_eq!(lap.start_time, "start");
    assert_eq!(lap.calories, 33);
    assert_eq!(db.activities.activity[0].id, "start");
    assert_eq!(db.activities.activity[1].id, "kept");
}

#[test]
fn recalculation_keeps_the_duration_without_timestamps() {
    let mut db = database(vec![activity(
        "Running",
        "id",
        vec![lap(
            "start",
            11,
            22,
            33,
            Some(vec![point("yesterday", None, Some(1_000_000), None), point(T1, None, None, None)]),
        )],
    )]);
    recalculate_lap_stats(&mut db);
    let lap = &db.activities.activity[0].laps[0];
    assert_eq!(lap.total_time_seconds.to_text(), "11");
    assert_eq!(lap.distance_meters.to_text(), "-1");
    assert_eq!(lap.start_time, "yesterday");
    assert_eq!(db.activities.activity[0].id, "yesterday");
}

#[test]
fn recalculation_measures_time_backwards() {
    let mut db = database(vec![activity(
        "Running",
        "id",
        vec![lap("start", 0, 0, 0, Some(vec![bare_point(T2), bare_point(T0)]))],
    )]);
    recalculate_lap_stats(&mut db);
    assert_eq!(db.activities.activity[0].laps[0].total_time_seconds.to_text(), "-6.25");
}

#[test]
fn flatten_resolves_timestamps() {
    let points = flatten(&sample_database());
    assert_eq!(points.len(), 2);
    assert_eq!(points[0].time, T0);
    assert_eq!(points[0].timestamp_ms, 1_765_093_715_000);
    assert_eq!(points[1].timestamp_ms, 1_765_093_718_000);
    assert_eq!(points[0].latitude, Some(micros(45_818_820)));
    assert_eq!(points[0].longitude, Some(micros(9_066_300)));
    assert_eq!(points[1].distance_meters, Some(micros(4_640_000)));
    assert_eq!(points[1].heart_rate, Some(103));
    assert_eq!(points[1].cadence, None);
}

#[test]
fn flatten_follows_document_order() {
    let points = flatten(&two_activities());
    let times: Vec<&str> = points.iter().map(|p| p.time.as_str()).collect();
    assert_eq!(times, vec![T0, T1, T2, T1, T2]);
    assert_eq!(points[2].timestamp_ms, 1_765_093_721_250);
    assert_eq!(points[3].altitude_meters, Some(micros(90_000_000)));
    assert_eq!(points[3].latitude, None);
    assert_eq!(count_trackpoints(&two_activities()), 5);
}

#[test]
fn flatten_gives_zero_for_a_bad_timestamp() {
    let db = database(vec![activity(
        "Running",
        "id",
        vec![lap(
            "start",
            0,
            0,
            0,
            Some(vec![bare_point("not a time"), bare_point("1970-01-01T00:00:01.444Z")]),
        )],
    )]);
    let points = flatten(&db);
    assert_eq!(points[0].timestamp_ms, 0);
    assert_eq!(points[0].time, "not a time");
    assert_eq!(points[1].timestamp_ms, 1_444);
}

#[test]
fn flatten_skips_laps_without_points() {
    let db = database(vec![
        activity("Running", "a", vec![lap("s", 0, 0, 0, None), lap("s", 0, 0, 0, Some(vec![]))]),
        activity("Running", "b", vec![]),
    ]);
    assert_eq!(flatten(&db), vec![]);
    assert_eq!(count_trackpoints(&db), 0);
}

#[test]
fn statistics_of_two_activities() {
    let stats = compute(&two_activities());
    assert_eq!(stats.sport, "Running");
    assert_eq!(stats.start_time, "first");
    assert_eq!(stats.total_time_seconds.to_text(), "127");
    assert_eq!(stats.total_distance_meters.to_text(), "539");
    assert_eq!(stats.total_calories, 4_000_000_015);
    assert_eq!(stats.trackpoint_count, 5);
    // 120, 131, 80, 90
    assert_eq!(stats.avg_heart_rate.unwrap().to_text(), "105.25");
    assert_eq!(stats.max_heart_rate, Some(131));
    assert_eq!(stats.min_heart_rate, Some(80));
    // 100, 103.5, 101, 90
    assert_eq!(stats.elevation_gain.unwrap().to_text(), "3.5");
    assert_eq!(stats.elevation_loss.unwrap().to_text(), "13.5");
    assert_eq!(stats.max_altitude.unwrap().to_text(), "103.5");
    assert_eq!(stats.min_altitude.unwrap().to_text(), "90");
}

#[test]
fn statistics_totals_are_sums_over_laps() {
    let db = two_activities();
    let stats = compute(&db);
    let mut seconds: i128 = 0;
    let mut meters: i128 = 0;
    let mut calories: u64 = 0;
    for activity in &db.activities.activity {
        for lap in &activity.laps {
            seconds += lap.total_time_seconds.units;
            meters += lap.distance_meters.units;
            calories += lap.calories as u64;
        }
    }
    assert_eq!(stats.total_time_seconds.units, seconds);
    assert_eq!(stats.total_distance_meters.units, meters);
    assert_eq!(stats.total_calories, calories);
}

#[test]
fn statistics_mean_lies_between_the_extremes() {
    for db in [sample_database(), two_activities()] {
        let stats = compute(&db);
        let one = Decimal::from_integer(1).units;
        let mean = stats.avg_heart_rate.unwrap().units;
        assert!(stats.min_heart_rate.unwrap() as i128 * one <= mean);
        assert!(mean <= stats.max_heart_rate.unwrap() as i128 * one);
    }
}

#[test]
fn statistics_mean_is_rounded_down() {
    let db = database(vec![activity(
        "Running",
        "id",
        vec![lap(
            "s",
            0,
            0,
            0,
            Some(vec![
                point(T0, None, None, Some(1)),
                point(T0, None, None, Some(1)),
                point(T0, None, None, Some(0)),
            ]),
        )],
    )]);
    assert_eq!(compute(&db).avg_heart_rate.unwrap().to_text(), "0.666666666666666666");
}

#[test]
fn statistics_of_an_empty_document() {
    let stats = compute(&database(vec![]));
    assert_eq!(stats.sport, "");
    assert_eq!(stats.start_time, "");
    assert_eq!(stats.total_time_seconds, micros(0));
    assert_eq!(stats.total_distance_meters, micros(0));
    assert_eq!(stats.total_calories, 0);
    assert_eq!(stats.trackpoint_count, 0);
    assert_eq!(stats.avg_heart_rate, None);
    assert_eq!(stats.max_heart_rate, None);
    assert_eq!(stats.min_heart_rate, None);
    assert_eq!(stats.elevation_gain, None);
    assert_eq!(stats.elevation_loss, None);
    assert_eq!(stats.max_altitude, None);
    assert_eq!(stats.min_altitude, None);
}

#[test]
fn statistics_without_heart_rates_or_altitudes() {
    let db = database(vec![activity(
        "Running",
        "id",
        vec![lap("s", 1, 2, 3, Some(vec![bare_point(T0), bare_point(T1)]))],
    )]);
    let stats = compute(&db);
    assert_eq!(stats.trackpoint_count, 2);
    assert_eq!(stats.avg_heart_rate, None);
    assert_eq!(stats.max_heart_rate, None);
    assert_eq!(stats.min_heart_rate, None);
    assert_eq!(stats.elevation_gain, None);
    assert_eq!(stats.max_altitude, None);
}

#[test]
fn statistics_with_a_single_altitude() {
    let db = database(vec![activity(
        "Running",
        "id",
        vec![lap(
            "s",
            1,
            2,
            3,
            Some(vec![bare_point(T0), point(T1, Some(-12_500_000), None, Some(77))]),
        )],
    )]);
    let stats = compute(&db);
    assert_eq!(stats.elevation_gain, None);
    assert_eq!(stats.elevation_loss, None);
    assert_eq!(stats.max_altitude.unwrap().to_text(), "-12.5");
    assert_eq!(stats.min_altitude.unwrap().to_text(), "-12.5");
    assert_eq!(stats.avg_heart_rate.unwrap().to_text(), "77");
    assert_eq!(stats.max_heart_rate, Some(77));
    assert_eq!(stats.min_heart_rate, Some(77));
}

#[test]
fn statistics_stop_at_the_ends_of_the_range() {
    let top = Decimal { units: i128::MAX };
    let bottom = Decimal { units: i128::MIN };
    let mut high = lap("s", 0, 0, 0, None);
    high.total_time_seconds = top;
    high.distance_meters = bottom;
    let db = database(vec![activity(
        "Running",
        "id",
        vec![
            high.clone(),
            high,
            lap(
                "s",
                -1,
                1,
                0,
                Some(vec![
                    Trackpoint { altitude_meters: Some(bottom), ..bare_point(T0) },
                    Trackpoint { altitude_meters: Some(top), ..bare_point(T0) },
                    Trackpoint { altitude_meters: Some(bottom), ..bare_point(T0) },
                ]),
            ),
        ],
    )]);
    let stats = compute(&db);
    assert_eq!(stats.total_time_seconds.units, i128::MAX - Decimal::from_integer(1).units);
    assert_eq!(stats.total_distance_meters.units, i128::MIN + Decimal::from_integer(1).units);
    assert_eq!(stats.elevation_gain, Some(top));
    assert_eq!(stats.elevation_loss, Some(top));
    assert_eq!(stats.max_altitude, Some(top));
    assert_eq!(stats.min_altitude, Some(bottom));
}

#[test]
fn editor_views_match_the_document() {
    let editor = TcxEditor::new("text", Ok(two_activities())).unwrap();
    assert_eq!(editor.get_trackpoints(), flatten(&two_activities()));
    assert_eq!(editor.get_stats(), compute(&two_activities()));
    assert_eq!(editor.get_trackpoint_count(), 5);
    assert_eq!(editor.original_xml(), "text");
    assert_eq!(*editor.database(), two_activities());
}

#[test]
fn editor_refuses_text_that_does_not_decode() {
    let outcome = TcxEditor::new("<oops", Err("unexpected end".to_string()));
    let error = outcome.err().unwrap();
    assert_eq!(error, TcxError::Parse { detail: "unexpected end".to_string() });
    assert_eq!(error.message(), "Failed to parse TCX: unexpected end");
}

#[test]
fn editor_reset_restores_the_document() {
    let mut editor = sample_editor();
    assert_eq!(editor.trim_by_indices(1, 1), Ok(()));
    assert_eq!(editor.trim_by_indices(0, 0), Ok(()));
    assert_ne!(*editor.database(), sample_database());
    assert_eq!(editor.original_xml(), SAMPLE_TCX);
    assert_eq!(editor.reset(Ok(sample_database())), Ok(()));
    assert_eq!(*editor.database(), sample_database());
    assert_eq!(editor.get_trackpoint_count(), 2);
    assert_eq!(editor.original_xml(), SAMPLE_TCX);
}

#[test]
fn editor_reset_failure_changes_nothing() {
    let mut editor = sample_editor();
    assert_eq!(editor.trim_by_indices(0, 0), Ok(()));
    let trimmed = editor.database().clone();
    assert_eq!(
        editor.reset(Err("broken".to_string())),
        Err(TcxError::Parse { detail: "broken".to_string() })
    );
    assert_eq!(*editor.database(), trimmed);
    assert_eq!(editor.original_xml(), SAMPLE_TCX);
}

#[test]
fn editor_frames_the_exported_root() {
    let editor = sample_editor();
    assert_eq!(
        editor.to_xml("<TrainingCenterDatabase/>"),
        "<?xml version=\"1.0\" encoding=\"UTF-8\" standalone=\"yes\"?>\n<TrainingCenterDatabase/>"
    );
    assert_eq!(editor.to_xml(""), format!("{}\n", XML_DECLARATION));
}

#[test]
fn trim_keeps_what_a_trackpoint_carries() {
    let mut db = database(vec![activity(
        "Running",
        "id",
        vec![lap(
            "s",
            1,
            2,
            3,
            Some(vec![
                bare_point(T0),
                Trackpoint {
                    cadence: Some(88),
                    extensions: Some(Extensions { content: Some("<x/>".to_string()) }),
                    ..sample_point(T1, 5, 99)
                },
            ]),
        )],
    )]);
    let kept = db.activities.activity[0].laps[0].track.as_ref().unwrap().trackpoints[1].clone();
    assert_eq!(trim_by_indices(&mut db, 1, 1), Ok(()));
    assert_eq!(db.activities.activity[0].laps[0].track.as_ref().unwrap().trackpoints, vec![kept]);
    assert_eq!(db.xmlns, None);
    assert_eq!(db.activities.activity[0].sport, "Running");
}
