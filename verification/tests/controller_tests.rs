use video_presenter::controller::{EngineAction, PlaybackSyncController, DEFAULT_FPS};
use video_presenter::cues::Cues;
use video_presenter::time::Time;

fn tc(hours: u8, minutes: u8, seconds: u8, frames: u8) -> Time {
    Time { hours, minutes, seconds, frames }
}

/// Cues at 5, 20 and 40 seconds; with one tick per second, positions in
/// ticks are positions in seconds.
fn controller_5_20_40() -> PlaybackSyncController {
    let contents = ",,00:00:05:00,00:00:05:00,0,Cue Point\n\
         ,,00:00:20:00,00:00:20:00,0,Cue Point\n\
         ,,00:00:40:00,00:00:40:00,0,Cue Point\n";
    let cues = Cues::from_str(contents).unwrap();
    let mut c = PlaybackSyncController::new(cues);
    c.on_media_loaded(1);
    c
}

#[test]
fn test_fps_defaults_until_loaded() {
    let cues = Cues::from_str(",,00:00:05:00,00:00:05:00,0,Cue Point\n").unwrap();
    let mut c = PlaybackSyncController::new(cues);
    assert_eq!(c.fps(), DEFAULT_FPS);
    c.on_media_loaded(25);
    assert_eq!(c.fps(), 25);
    // A re-load overwrites the earlier rate.
    c.on_media_loaded(30);
    assert_eq!(c.fps(), 30);
}

#[test]
fn test_position_report_pauses_once_per_crossing() {
    let mut c = controller_5_20_40();
    assert_eq!(c.current_index(), 0);

    // Crossing into cue 1 pauses.
    assert_eq!(c.on_position_report(5), EngineAction::Pause);
    assert_eq!(c.current_index(), 1);

    // Reports that map to the index already held do not pause again.
    assert_eq!(c.on_position_report(6), EngineAction::NoOp);
    assert_eq!(c.on_position_report(19), EngineAction::NoOp);
    assert_eq!(c.current_index(), 1);

    // Crossing into cue 2 pauses exactly once more.
    assert_eq!(c.on_position_report(20), EngineAction::Pause);
    assert_eq!(c.current_index(), 2);
}

#[test]
fn test_position_report_idempotent() {
    let mut c = controller_5_20_40();
    let first = c.on_position_report(21);
    let idx = c.current_index();
    let second = c.on_position_report(21);
    assert_eq!(first, EngineAction::Pause);
    assert_eq!(second, EngineAction::NoOp);
    assert_eq!(c.current_index(), idx);
}

#[test]
fn test_position_report_rewind_reanchors_without_pause() {
    let mut c = controller_5_20_40();
    assert_eq!(c.on_position_report(21), EngineAction::Pause);
    assert_eq!(c.current_index(), 2);
    // An external rewind: the index follows the position, no pause.
    assert_eq!(c.on_position_report(3), EngineAction::NoOp);
    assert_eq!(c.current_index(), 0);
}

#[test]
fn test_external_seek_never_pauses() {
    let mut c = controller_5_20_40();
    c.on_external_seek(25);
    assert_eq!(c.current_index(), 2);
    c.on_external_seek(0);
    assert_eq!(c.current_index(), 0);
}

#[test]
fn test_advance_steps_through_cues() {
    let mut c = controller_5_20_40();
    assert_eq!(c.advance(), EngineAction::SeekTo(5));
    assert_eq!(c.current_index(), 1);
    assert_eq!(c.advance(), EngineAction::SeekTo(20));
    assert_eq!(c.current_index(), 2);
    assert_eq!(c.advance(), EngineAction::SeekTo(40));
    assert_eq!(c.current_index(), 3);
}

#[test]
fn test_advance_at_last_cue_seeks_to_end_then_stops() {
    let mut c = controller_5_20_40();
    c.advance();
    c.advance();
    c.advance();
    assert_eq!(c.current_index(), 3);

    // From the last cue, advancing seeks to the end of the media.
    assert_eq!(c.advance(), EngineAction::SeekToEnd);
    assert_eq!(c.current_index(), 4);

    // Past the end, advancing does nothing.
    assert_eq!(c.advance(), EngineAction::NoOp);
    assert_eq!(c.current_index(), 4);
}

#[test]
fn test_advance_on_empty_table_seeks_to_end() {
    // A table whose only row is skipped is empty: the first cue is already
    // the end of the video.
    let cues = Cues::from_str(",,00:00:05:00,00:00:05:00,0,Chapter\n").unwrap();
    assert_eq!(cues.len(), 0);
    let mut c = PlaybackSyncController::new(cues);
    assert_eq!(c.advance(), EngineAction::SeekToEnd);
    assert_eq!(c.current_index(), 1);
    assert_eq!(c.advance(), EngineAction::NoOp);
}

#[test]
fn test_retreat_steps_back_and_clamps_at_start() {
    let mut c = controller_5_20_40();
    c.advance();
    c.advance();
    assert_eq!(c.current_index(), 2);

    assert_eq!(c.retreat(), EngineAction::SeekTo(5));
    assert_eq!(c.current_index(), 1);
    assert_eq!(c.retreat(), EngineAction::SeekTo(0));
    assert_eq!(c.current_index(), 0);
    // Already at the start: stay there, seek to the start again.
    assert_eq!(c.retreat(), EngineAction::SeekTo(0));
    assert_eq!(c.current_index(), 0);
}

#[test]
fn test_retreat_from_past_the_end() {
    let mut c = controller_5_20_40();
    c.on_position_report(100);
    assert_eq!(c.current_index(), 4);
    assert_eq!(c.retreat(), EngineAction::SeekTo(40));
    assert_eq!(c.current_index(), 3);
}

#[test]
fn test_actions_in_ticks_scale_with_fps() {
    let contents = ",,00:00:05:10,00:00:05:10,0,Cue Point\n";
    let cues = Cues::from_str(contents).unwrap();
    assert_eq!(cues.get(1), tc(0, 0, 5, 10));
    let mut c = PlaybackSyncController::new(cues);
    c.on_media_loaded(30);
    // 5 seconds at 30 ticks each, plus 10 frames.
    assert_eq!(c.advance(), EngineAction::SeekTo(160));
}
