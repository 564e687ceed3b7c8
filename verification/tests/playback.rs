use thesia::playback::{
    duration_to_frame, frame_to_duration, requests_needed, resampled_frame_count, SongQueue,
};

#[test]
fn frames_become_durations() {
    assert_eq!(frame_to_duration(120000, 48000), (2, 500_000_000));
    assert_eq!(frame_to_duration(0, 44100), (0, 0));
    assert_eq!(frame_to_duration(1, 44100), (0, 22675));
}

#[test]
fn durations_become_frames() {
    assert_eq!(duration_to_frame(2, 500_000_000, 48000, 1_000_000), 120000);
    assert_eq!(duration_to_frame(2, 500_000_000, 48000, 100), 100);
    // one frame's start time leads back to the frame before it when rounded down
    assert_eq!(duration_to_frame(0, 22675, 44100, 10), 0);
    let (s, n) = frame_to_duration(44100 * 3 + 7, 44100);
    let back = duration_to_frame(s, n, 44100, usize::MAX);
    assert!(back == 44100 * 3 + 7 || back == 44100 * 3 + 6);
}

#[test]
fn resampled_blocks_shrink_at_the_end() {
    assert_eq!(resampled_frame_count(1024, 512, 512), 1024);
    assert_eq!(resampled_frame_count(1024, 100, 400), 256);
    assert_eq!(resampled_frame_count(1024, 0, 400), 0);
}

#[test]
fn enough_blocks_are_asked_for() {
    assert_eq!(requests_needed(100, 0, 0, 30), 4);
    assert_eq!(requests_needed(100, 40, 1, 30), 1);
    assert_eq!(requests_needed(100, 100, 0, 30), 0);
    assert_eq!(requests_needed(0, 0, 0, 1), 0);
}

#[test]
fn seeking_moves_the_playing_song_else_the_queued_one() {
    let mut q: SongQueue<&str> = SongQueue::new();
    assert!(!q.seek((1, 0)));
    q.queue_next("a", None);
    assert_eq!(q.next, Some(("a", (0, 0))));
    assert!(q.seek((2, 5)));
    assert_eq!(q.next, Some(("a", (2, 5))));
    assert!(q.start_next_if_idle());
    assert_eq!(q.playback, Some(("a", (2, 5))));
    assert!(q.next.is_none());
    assert!(q.seek((3, 0)));
    assert_eq!(q.position(), Some((3, 0)));
}

#[test]
fn removing_the_next_song_falls_back_to_the_current() {
    let mut q: SongQueue<&str> = SongQueue::new();
    q.queue_next("a", Some((1, 0)));
    q.start_next_if_idle();
    q.queue_next("b", None);
    assert!(q.has_next_song());
    q.force_remove_next_song();
    assert!(!q.has_next_song());
    assert!(q.has_current_song());
    q.force_remove_next_song();
    assert!(!q.has_current_song());
}

#[test]
fn skipping_and_stopping() {
    let mut q: SongQueue<&str> = SongQueue::new();
    q.queue_next("a", None);
    q.start_next_if_idle();
    q.queue_next("b", None);
    q.skip();
    assert!(q.position().is_none());
    assert!(q.has_current_song());
    assert!(q.advance_to_next());
    assert_eq!(q.playback, Some(("b", (0, 0))));
    assert!(!q.advance_to_next());
    q.stop();
    assert!(!q.has_current_song());
}
