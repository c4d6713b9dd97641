use coral::engine::AudioAction;
use coral::engine::PlaybackEngine;
use coral::engine::QueueEntry;
use coral::engine::progress_permille;
use coral::engine::should_refresh_presence;
use coral::library::LibraryIndex;
use coral::track::Track;

fn track(artist: &str, title: &str, album: &str, number: Option<usize>) -> Track {
    Track {
        artist: artist.to_string(),
        title: title.to_string(),
        album: album.to_string(),
        path: format!("/music/{}.flac", title),
        duration_ms: 180_000,
        track_number: number,
    }
}

#[test]
fn enqueue_then_play_then_advance_to_exhaustion() {
    // Scenario: two entries, play, then two buffer-empty advances.
    let mut e = PlaybackEngine::new();
    e.enqueue(0);
    e.enqueue(1);
    let act = e.play();
    assert!(e.playing);
    assert_eq!(e.current_track, Some(0));
    assert_eq!(act, Some(AudioAction::Load(0)));
    let act = e.play_next();
    assert!(e.playing);
    assert_eq!(e.current_track, Some(1));
    assert_eq!(act, Some(AudioAction::Load(1)));
    let act = e.play_next();
    assert_eq!(e.current_track, None);
    assert!(!e.playing);
    assert_eq!(act, None);
}

#[test]
fn play_on_empty_queue_stays_idle() {
    let mut e = PlaybackEngine::new();
    let act = e.play();
    assert!(!e.playing);
    assert_eq!(e.current_track, None);
    assert_eq!(act, None);
}

#[test]
fn play_wraps_exhausted_cursor_to_head() {
    let mut e = PlaybackEngine::new();
    e.enqueue(4);
    e.enqueue(5);
    let _ = e.play();
    let _ = e.play_next();
    let _ = e.play_next();
    assert_eq!(e.queue_pos, 2);
    let act = e.play();
    assert_eq!(e.queue_pos, 0);
    assert_eq!(e.current_track, Some(4));
    assert_eq!(act, Some(AudioAction::Load(4)));
}

#[test]
fn pause_keeps_position() {
    let mut e = PlaybackEngine::new();
    e.enqueue(3);
    let _ = e.play();
    let act = e.pause();
    assert!(!e.playing);
    assert_eq!(e.current_track, Some(3));
    assert_eq!(e.queue_pos, 0);
    assert_eq!(act, AudioAction::Pause);
    let act = e.play();
    assert!(e.playing);
    assert_eq!(act, Some(AudioAction::Resume));
}

#[test]
fn remove_of_playing_slot_loads_shifted_entry() {
    // Scenario: queue = [A, B, C], playing B at slot 1; remove(1) leaves
    // [A, C], clears the buffer and loads C, the cursor staying at 1.
    let mut e = PlaybackEngine::new();
    e.enqueue(10);
    e.enqueue(11);
    e.enqueue(12);
    let _ = e.play_at(1);
    assert_eq!(e.current_track, Some(11));
    let act = e.remove(1);
    assert_eq!(e.queue.len(), 2);
    assert_eq!(e.queue[0].track, 10);
    assert_eq!(e.queue[1].track, 12);
    assert_eq!(e.queue_pos, 1);
    assert_eq!(e.current_track, Some(12));
    assert!(e.playing);
    assert_eq!(act, Some(AudioAction::Load(12)));
}

#[test]
fn remove_before_cursor_pulls_it_back() {
    let mut e = PlaybackEngine::new();
    e.enqueue(10);
    e.enqueue(11);
    e.enqueue(12);
    let _ = e.play_at(2);
    let act = e.remove(0);
    assert_eq!(e.queue_pos, 1);
    assert_eq!(e.current_track, Some(12));
    assert_eq!(e.queue[e.queue_pos].track, 12);
    assert_eq!(act, None);
}

#[test]
fn remove_of_playing_slot_from_pair_stops() {
    // With only one entry left, the engine stops instead of reloading.
    let mut e = PlaybackEngine::new();
    e.enqueue(10);
    e.enqueue(11);
    let _ = e.play_at(0);
    let act = e.remove(0);
    assert_eq!(e.queue.len(), 1);
    assert!(!e.playing);
    assert_eq!(e.current_track, None);
    assert_eq!(act, Some(AudioAction::ClearBuffer));
}

#[test]
fn remove_after_cursor_changes_nothing_else() {
    let mut e = PlaybackEngine::new();
    e.enqueue(10);
    e.enqueue(11);
    e.enqueue(12);
    let _ = e.play_at(0);
    let act = e.remove(2);
    assert_eq!(e.queue_pos, 0);
    assert_eq!(e.current_track, Some(10));
    assert!(e.playing);
    assert_eq!(act, None);
}

#[test]
fn back_near_start_skips_to_previous_slot() {
    // Scenario: back() at 5% progress steps the cursor back; back() at
    // 50% only seeks the current track to its start.
    let mut e = PlaybackEngine::new();
    e.enqueue(20);
    e.enqueue(21);
    e.enqueue(22);
    let _ = e.play_at(2);
    e.update_progress(9, 180);
    assert_eq!(e.progress, 50);
    let act = e.back();
    assert_eq!(e.queue_pos, 1);
    assert_eq!(e.current_track, Some(21));
    assert_eq!(act, AudioAction::Load(21));
    e.update_progress(90, 180);
    assert_eq!(e.progress, 500);
    let act = e.back();
    assert_eq!(e.queue_pos, 1);
    assert_eq!(e.current_track, Some(21));
    assert_eq!(act, AudioAction::SeekToStart);
}

#[test]
fn back_at_queue_head_seeks_to_start() {
    let mut e = PlaybackEngine::new();
    e.enqueue(20);
    let _ = e.play_at(0);
    assert_eq!(e.progress, 0);
    let act = e.back();
    assert_eq!(e.queue_pos, 0);
    assert_eq!(act, AudioAction::SeekToStart);
}

#[test]
fn reorder_rederives_cursor_from_loaded_track() {
    let mut e = PlaybackEngine::new();
    e.enqueue(30);
    e.enqueue(31);
    e.enqueue(32);
    let _ = e.play_at(1);
    let permuted = vec![e.queue[2], e.queue[0], e.queue[1]];
    e.reorder(permuted);
    assert_eq!(e.queue_pos, 2);
    assert_eq!(e.queue[e.queue_pos].track, 31);
    assert_eq!(e.current_track, Some(31));
    assert_eq!(e.queue[0].track, 32);
    assert_eq!(e.queue[1].track, 30);
}

#[test]
fn reorder_keeps_every_uid() {
    let mut e = PlaybackEngine::new();
    e.enqueue(30);
    e.enqueue(31);
    e.enqueue(32);
    let before: Vec<usize> = e.queue.iter().map(|q| q.uid).collect();
    let permuted = vec![e.queue[1], e.queue[2], e.queue[0]];
    e.reorder(permuted);
    let mut after: Vec<usize> = e.queue.iter().map(|q| q.uid).collect();
    after.sort();
    let mut sorted_before = before.clone();
    sorted_before.sort();
    assert_eq!(after, sorted_before);
    for q in &e.queue {
        assert!(q.uid < e.next_uid);
    }
}

#[test]
fn uids_are_fresh_and_never_reassigned() {
    let mut e = PlaybackEngine::new();
    e.enqueue(7);
    e.enqueue(7);
    e.enqueue(8);
    assert_eq!(e.queue[0], QueueEntry { track: 7, uid: 0 });
    assert_eq!(e.queue[1], QueueEntry { track: 7, uid: 1 });
    assert_eq!(e.queue[2], QueueEntry { track: 8, uid: 2 });
    let _ = e.remove(1);
    e.enqueue(9);
    // the freed uid is not reused while the counter runs on
    assert_eq!(e.queue[2], QueueEntry { track: 9, uid: 3 });
    let uids: Vec<usize> = e.queue.iter().map(|q| q.uid).collect();
    assert_eq!(uids, vec![0, 2, 3]);
}

#[test]
fn shuffle_queue_is_a_permutation_loading_the_head() {
    // Scenario: shuffling keeps exactly the old uid set, rewinds the
    // cursor to 0 and asks the backend for the track now at the head.
    let mut e = PlaybackEngine::new();
    for t in 0..6 {
        e.enqueue(t);
    }
    let mut uids_before: Vec<usize> = e.queue.iter().map(|q| q.uid).collect();
    uids_before.sort();
    let act = e.shuffle_queue();
    assert_eq!(e.queue.len(), 6);
    let mut uids_after: Vec<usize> = e.queue.iter().map(|q| q.uid).collect();
    uids_after.sort();
    assert_eq!(uids_after, uids_before);
    assert_eq!(e.queue_pos, 0);
    assert!(e.playing);
    assert_eq!(e.current_track, Some(e.queue[0].track));
    assert_eq!(act, AudioAction::Load(e.queue[0].track));
    // each uid still names the track it was issued for
    for q in &e.queue {
        assert_eq!(q.track, q.uid);
    }
}

#[test]
fn shuffle_play_rebuilds_queue_from_whole_library() {
    let mut e = PlaybackEngine::new();
    e.enqueue(0);
    let _ = e.clear_queue();
    e.enqueue(2);
    let act = e.shuffle_play(4);
    assert_eq!(e.queue.len(), 4);
    let mut tracks: Vec<usize> = e.queue.iter().map(|q| q.track).collect();
    tracks.sort();
    assert_eq!(tracks, vec![0, 1, 2, 3]);
    assert_eq!(e.queue_pos, 0);
    assert!(e.playing);
    assert_eq!(act, Some(AudioAction::Load(e.queue[0].track)));
    // fresh uids continue from the counter: 1 was used by the enqueue
    let mut uids: Vec<usize> = e.queue.iter().map(|q| q.uid).collect();
    uids.sort();
    assert_eq!(uids, vec![1, 2, 3, 4]);
}

#[test]
fn shuffle_play_on_empty_library_goes_idle() {
    let mut e = PlaybackEngine::new();
    e.enqueue(0);
    let act = e.shuffle_play(0);
    assert_eq!(e.queue.len(), 0);
    assert!(!e.playing);
    assert_eq!(e.current_track, None);
    assert_eq!(act, Some(AudioAction::ClearBuffer));
}

#[test]
fn clear_queue_twice_gives_the_same_idle_state() {
    // Idempotence: the second clear changes nothing.
    let mut e = PlaybackEngine::new();
    e.enqueue(1);
    e.enqueue(2);
    let _ = e.play();
    let act1 = e.clear_queue();
    let snapshot = (
        e.playing,
        e.current_track,
        e.queue.clone(),
        e.next_uid,
        e.queue_pos,
        e.progress,
    );
    let act2 = e.clear_queue();
    let again = (
        e.playing,
        e.current_track,
        e.queue.clone(),
        e.next_uid,
        e.queue_pos,
        e.progress,
    );
    assert_eq!(act1, AudioAction::ClearBuffer);
    assert_eq!(act2, AudioAction::ClearBuffer);
    assert_eq!(snapshot, again);
    assert!(!e.playing);
    assert_eq!(e.current_track, None);
    assert_eq!(e.queue.len(), 0);
    assert_eq!(e.next_uid, 0);
    assert_eq!(e.queue_pos, 0);
}

#[test]
fn play_now_replaces_queue_with_one_entry() {
    let mut e = PlaybackEngine::new();
    e.enqueue(5);
    e.enqueue(6);
    let act = e.play_now(9);
    assert_eq!(e.queue.len(), 1);
    assert_eq!(e.queue[0].track, 9);
    assert_eq!(e.queue[0].uid, 2);
    assert_eq!(e.queue_pos, 0);
    assert_eq!(e.current_track, Some(9));
    assert!(e.playing);
    assert_eq!(act, AudioAction::Load(9));
}

#[test]
fn enqueue_album_appends_group_in_sorted_order() {
    let mut lib = LibraryIndex::new();
    lib.add_track(track("A", "t0", "X", Some(2)));
    lib.add_track(track("A", "t1", "X", Some(1)));
    lib.add_track(track("A", "t2", "X", None));
    lib.add_track(track("B", "t3", "Y", Some(1)));
    let mut e = PlaybackEngine::new();
    e.enqueue(99);
    e.enqueue_album(&lib, 0);
    let tracks: Vec<usize> = e.queue.iter().map(|q| q.track).collect();
    assert_eq!(tracks, vec![99, 1, 0, 2]);
    let uids: Vec<usize> = e.queue.iter().map(|q| q.uid).collect();
    assert_eq!(uids, vec![0, 1, 2, 3]);
    assert_eq!(e.next_uid, 4);
}

#[test]
fn progress_handles_zero_duration_and_clamps() {
    assert_eq!(progress_permille(5, 0), 0);
    assert_eq!(progress_permille(0, 100), 0);
    assert_eq!(progress_permille(50, 100), 500);
    assert_eq!(progress_permille(100, 100), 1000);
    assert_eq!(progress_permille(250, 100), 1000);
    assert_eq!(progress_permille(1, 3), 333);
}

#[test]
fn presence_refresh_only_when_playing_and_track_changed() {
    assert!(should_refresh_presence(None, Some(1), true));
    assert!(!should_refresh_presence(Some(1), Some(1), true));
    assert!(should_refresh_presence(Some(1), Some(2), true));
    assert!(should_refresh_presence(Some(1), None, true));
    assert!(!should_refresh_presence(None, Some(1), false));
    assert!(!should_refresh_presence(Some(1), Some(2), false));
}
