use tanukioke::transport::{AudioEngine, PlayAction, PlaybackState, TrackSink};

fn sink(id: &str, duration_ms: i64) -> TrackSink {
    TrackSink {
        id: id.to_string(),
        name: id.to_string(),
        duration: duration_ms,
        source: format!("/songs/{}.flac", id),
        volume: 1000,
    }
}

#[test]
fn test_duration_is_longest_track() {
    // three stems of 3:30, 3:28 and 3:31 play as one 3:31 song
    let mut e = AudioEngine::new();
    e.begin_load();
    e.push_loaded_track(sink("vocals", 210_000));
    e.push_loaded_track(sink("band", 208_000));
    e.push_loaded_track(sink("click", 211_000));
    assert_eq!(e.duration(), 211_000);
    assert_eq!(e.tracks().len(), 3);
}

#[test]
fn test_duration_empty() {
    let e = AudioEngine::new();
    assert_eq!(e.duration(), 0);
}

#[test]
fn test_play_action() {
    let mut e = AudioEngine::new();
    assert_eq!(e.play_action(), PlayAction::NoTracks);
    e.begin_load();
    e.push_loaded_track(sink("a", 1000));
    assert_eq!(e.play_action(), PlayAction::StartAll);
    e.seek(90_000);
    assert_eq!(e.play_action(), PlayAction::ReloadAtAndStartAll { position: 90_000 });
}

#[test]
fn test_play_pause_positions() {
    let mut e = AudioEngine::new();
    e.begin_load();
    e.push_loaded_track(sink("a", 300_000));
    assert!(!e.is_playing());
    e.play(1_000);
    assert!(e.is_playing());
    assert_eq!(e.position(31_000), 30_000);
    e.pause(31_000);
    assert!(e.is_paused());
    assert!(!e.is_playing());
    assert_eq!(e.position(99_999), 30_000);
    // resume 9 seconds later: the paused half-minute is kept
    e.play(40_000);
    assert_eq!(e.position(40_000), 30_000);
    assert_eq!(e.position(41_000), 31_000);
}

#[test]
fn test_pause_resume_idempotent() {
    // play; pause; play; pause at one instant equals a single pause there
    let mut once = AudioEngine::new();
    once.begin_load();
    once.push_loaded_track(sink("a", 300_000));
    once.play(1_000);
    once.pause(31_000);
    let reference = once.position(31_000);

    let mut twice = AudioEngine::new();
    twice.begin_load();
    twice.push_loaded_track(sink("a", 300_000));
    twice.play(1_000);
    twice.pause(31_000);
    twice.play(31_000);
    twice.pause(31_000);
    assert_eq!(twice.position(31_000), reference);
    assert_eq!(reference, 30_000);
}

#[test]
fn test_seek_then_play() {
    let mut e = AudioEngine::new();
    e.begin_load();
    e.push_loaded_track(sink("a", 300_000));
    e.seek(90_000);
    // while paused at the target, scrubbing is cheap: no reload yet
    assert!(e.is_paused());
    assert_eq!(e.position(5_000), 90_000);
    // the runtime reloads, then play commits: position is the target
    assert_eq!(e.play_action(), PlayAction::ReloadAtAndStartAll { position: 90_000 });
    e.play(5_000);
    assert!(e.is_playing());
    assert_eq!(e.position(5_000), 90_000);
    assert_eq!(e.position(6_000), 91_000);
}

#[test]
fn test_seek_reload_failure_keeps_paused() {
    let mut e = AudioEngine::new();
    e.begin_load();
    e.push_loaded_track(sink("a", 300_000));
    e.seek(90_000);
    e.seek_reload_failed();
    assert!(e.is_paused());
    assert!(!e.is_playing());
    assert_eq!(e.position(77_000), 90_000);
    assert_eq!(e.play_action(), PlayAction::StartAll);
}

#[test]
fn test_stop_clears_everything() {
    let mut e = AudioEngine::new();
    e.begin_load();
    e.push_loaded_track(sink("a", 300_000));
    e.play(0);
    e.seek(1_000);
    e.stop();
    assert!(!e.is_playing());
    assert!(!e.is_paused());
    assert_eq!(e.position(50_000), 0);
    assert_eq!(e.play_action(), PlayAction::StartAll);
}

#[test]
fn test_load_resets_state() {
    let mut e = AudioEngine::new();
    e.begin_load();
    e.push_loaded_track(sink("a", 100_000));
    e.play(0);
    e.begin_load();
    assert!(!e.is_playing());
    assert_eq!(e.tracks().len(), 0);
    assert_eq!(e.duration(), 0);
}

#[test]
fn test_volumes() {
    let mut e = AudioEngine::new();
    e.begin_load();
    e.push_loaded_track(sink("a", 1000));
    e.push_loaded_track(sink("b", 1000));
    assert_eq!(e.get_volume("a"), Some(1000));
    assert!(e.set_volume("a", 250));
    assert_eq!(e.get_volume("a"), Some(250));
    assert_eq!(e.get_volume("b"), Some(1000));
    assert!(!e.set_volume("missing", 1));
    assert_eq!(e.get_volume("missing"), None);
}

#[test]
fn test_playback_snapshot() {
    let mut e = AudioEngine::new();
    e.begin_load();
    e.push_loaded_track(sink("a", 211_000));
    e.play(2_000);
    let mut s = PlaybackState::new();
    e.update_playback_state(&mut s, 12_000);
    assert_eq!(s.position, 10_000);
    assert_eq!(s.duration, 211_000);
    assert!(s.is_playing);
    assert!(!s.is_paused);
}
