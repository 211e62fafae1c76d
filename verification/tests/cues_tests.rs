use video_presenter::cues::{Cues, LoadError, RowOutcome};
use video_presenter::time::Time;

fn tc(hours: u8, minutes: u8, seconds: u8, frames: u8) -> Time {
    Time { hours, minutes, seconds, frames }
}

fn expected_times() -> [Time; 11] {
    [
        tc(0, 0, 4, 57),
        tc(0, 0, 21, 31),
        tc(0, 0, 30, 50),
        tc(0, 0, 38, 28),
        tc(0, 0, 43, 16),
        tc(0, 1, 12, 53),
        tc(0, 1, 35, 45),
        tc(0, 1, 58, 28),
        tc(0, 2, 6, 29),
        tc(0, 2, 18, 55),
        tc(0, 2, 24, 18),
    ]
}

#[test]
fn test_parse_premiere_cues() {
    let contents = "Marker Name\tDescription\tIn\tOut\tDuration\tMarker Type\t\n\
         \t\t00:00:04:57\t00:00:04:57\t00:00:00:00\tFlash Cue Point\t\n\
         \t\t00:00:21:31\t00:00:21:31\t00:00:00:00\tFlash Cue Point\t\n\
         \t\t00:00:30:50\t00:00:30:50\t00:00:00:00\tFlash Cue Point\t\n\
         \t\t00:00:38:28\t00:00:38:28\t00:00:00:00\tFlash Cue Point\t\n\
         \t\t00:00:43:16\t00:00:43:16\t00:00:00:00\tFlash Cue Point\t\n\
         \t\t00:01:12:53\t00:01:12:53\t00:00:00:00\tFlash Cue Point\t\n\
         \t\t00:01:35:45\t00:01:35:45\t00:00:00:00\tFlash Cue Point\t\n\
         \t\t00:01:58:28\t00:01:58:28\t00:00:00:00\tFlash Cue Point\t\n\
         \t\t00:02:06:29\t00:02:06:29\t00:00:00:00\tFlash Cue Point\t\n\
         \t\t00:02:18:55\t00:02:18:55\t00:00:00:00\tFlash Cue Point\t\n\
         \t\t00:02:24:18\t00:02:24:18\t00:00:00:00\tFlash Cue Point\t\n";

    let cues = Cues::from_str(contents).unwrap();
    let times = expected_times();
    assert_eq!(cues.len(), times.len());

    for (i, t) in times.iter().enumerate() {
        assert_eq!(cues.get(i + 1), *t);
    }
}

#[test]
fn test_parse_after_effects_cues() {
    let contents = ",,00:00:04:57,00:00:04:57,0,Cue Point\n\
         ,,00:00:21:31,00:00:21:31,0,Cue Point\n\
         ,,00:00:30:50,00:00:30:50,0,Cue Point\n\
         ,,00:00:38:28,00:00:38:28,0,Cue Point\n\
         ,,00:00:43:16,00:00:43:16,0,Cue Point\n\
         ,,00:01:12:53,00:01:12:53,0,Cue Point\n\
         ,,00:01:35:45,00:01:35:45,0,Cue Point\n\
         ,,00:01:58:28,00:01:58:28,0,Cue Point\n\
         ,,00:02:06:29,00:02:06:29,0,Cue Point\n\
         ,,00:02:18:55,00:02:18:55,0,Cue Point\n\
         ,,00:02:24:18,00:02:24:18,0,Cue Point\n";

    let cues = Cues::from_str(contents).unwrap();
    let times = expected_times();
    assert_eq!(cues.len(), times.len());

    // Sorted ascending; the first entry is the earliest marker.
    assert_eq!(cues.get(1), tc(0, 0, 4, 57));
    for (i, t) in times.iter().enumerate() {
        assert_eq!(cues.get(i + 1), *t);
    }
}

#[test]
fn test_nonzero_duration_row_skipped() {
    let contents = ",,00:00:04:57,00:00:04:57,0,Cue Point\n\
         ,,00:00:10:00,00:00:12:00,0,Cue Point\n\
         ,,00:00:21:31,00:00:21:31,0,Cue Point\n";
    let cues = Cues::from_str(contents).unwrap();
    assert_eq!(cues.len(), 2);
    assert_eq!(cues.get(1), tc(0, 0, 4, 57));
    assert_eq!(cues.get(2), tc(0, 0, 21, 31));

    assert_eq!(
        video_presenter::cues::classify_row(",,00:00:10:00,00:00:12:00,0,Cue Point"),
        RowOutcome::NonZeroDuration
    );
}

#[test]
fn test_foreign_marker_row_skipped() {
    let contents = ",,00:00:04:57,00:00:04:57,0,Cue Point\n\
         ,,00:00:10:00,00:00:10:00,0,Chapter\n";
    let cues = Cues::from_str(contents).unwrap();
    assert_eq!(cues.len(), 1);
    assert_eq!(
        video_presenter::cues::classify_row(",,00:00:10:00,00:00:10:00,0,Chapter"),
        RowOutcome::NotCue
    );
}

#[test]
fn test_short_row_is_malformed() {
    let contents = ",,00:00:04:57\n";
    assert!(matches!(Cues::from_str(contents), Err(LoadError::Malformed)));
    assert_eq!(
        video_presenter::cues::classify_row(",,00:00:04:57"),
        RowOutcome::Malformed
    );
}

#[test]
fn test_bad_time_is_malformed() {
    let contents = ",,00:00:xx:57,00:00:xx:57,0,Cue Point\n";
    assert!(matches!(Cues::from_str(contents), Err(LoadError::Malformed)));
}

#[test]
fn test_header_detected_by_alphabetic_start() {
    // The header row has a single field; it would be fatal were it not
    // recognized and skipped.
    let contents = "Markers\n\
         ,,00:00:05:00,00:00:05:00,0,Cue Point\n";
    let cues = Cues::from_str(contents).unwrap();
    assert_eq!(cues.len(), 1);
    assert_eq!(cues.get(1), tc(0, 0, 5, 0));
}

#[test]
fn test_unsorted_markers_are_sorted() {
    let contents = ",,00:00:40:00,00:00:40:00,0,Cue Point\n\
         ,,00:00:05:00,00:00:05:00,0,Cue Point\n\
         ,,00:00:20:00,00:00:20:00,0,Cue Point\n";
    let cues = Cues::from_str(contents).unwrap();
    assert_eq!(cues.len(), 3);
    assert_eq!(cues.get(1), tc(0, 0, 5, 0));
    assert_eq!(cues.get(2), tc(0, 0, 20, 0));
    assert_eq!(cues.get(3), tc(0, 0, 40, 0));
}

fn table_5_20_40() -> Cues {
    let contents = ",,00:00:05:00,00:00:05:00,0,Cue Point\n\
         ,,00:00:20:00,00:00:20:00,0,Cue Point\n\
         ,,00:00:40:00,00:00:40:00,0,Cue Point\n";
    Cues::from_str(contents).unwrap()
}

#[test]
fn test_locate_boundaries() {
    // At one tick per second, positions in ticks are positions in seconds.
    let cues = table_5_20_40();
    assert_eq!(cues.current(0, 1), 0);
    assert_eq!(cues.current(5, 1), 1);
    assert_eq!(cues.current(19, 1), 1);
    assert_eq!(cues.current(20, 1), 2);
    assert_eq!(cues.current(41, 1), 4);
}

#[test]
fn test_locate_at_or_past_last_cue_is_past_table() {
    let cues = table_5_20_40();
    assert_eq!(cues.current(40, 1), 4);
    assert_eq!(cues.current(1_000_000, 1), 4);
}

#[test]
fn test_locate_monotonic_samples() {
    let cues = table_5_20_40();
    let mut last = 0;
    for pos in 0..50 {
        let idx = cues.current(pos, 1);
        assert!(idx >= last);
        last = idx;
    }
}

#[test]
fn test_locate_round_trip_before_last() {
    let cues = table_5_20_40();
    for i in 1..cues.len() {
        let pos = cues.get(i).as_frames(1);
        assert_eq!(cues.current(pos, 1), i);
    }
    // The last cue is the boundary to the end: its own position counts as
    // past the whole table.
    let last_pos = cues.get(cues.len()).as_frames(1);
    assert_eq!(cues.current(last_pos, 1), cues.len() + 1);
}

#[test]
fn test_get_edges() {
    let cues = table_5_20_40();
    assert_eq!(cues.get(0), tc(0, 0, 0, 0));
    assert_eq!(cues.get(4), Time::end());
    assert_eq!(cues.get(100), Time::end());
}

#[test]
fn test_locate_is_tick_exact_at_higher_rates() {
    // A cue at 5 seconds and 10 frames sits at tick 160 when the rate is
    // 30: one tick earlier has not reached it, the exact tick has.
    let cues = Cues::from_str(",,00:00:05:10,00:00:05:10,0,Cue Point\n").unwrap();
    assert_eq!(cues.get(1).as_frames(30), 160);
    assert_eq!(cues.current(159, 30), 0);
    assert_eq!(cues.current(160, 30), 2);
}
