use luminous::playback::{
    repeat_mode_from_key, repeat_mode_to_key, shuffle_mode_from_key, shuffle_mode_to_key,
    PlayItem, PlaybackQueue, RepeatMode, ShuffleMode, Step,
};

fn item(id: i64, album: &str) -> PlayItem {
    PlayItem {
        uuid: format!("uuid-{id}"),
        song_id: Some(id),
        unavailable: false,
        album: Some(album.to_string()),
        artist: Some("Artist".to_string()),
        length_nanosec: Some(180_000_000_000),
    }
}

fn items(n: i64) -> Vec<PlayItem> {
    (1..=n).map(|i| item(i, "Album")).collect()
}

fn started(step: &Step) -> Option<i64> {
    match step {
        Step::Start { target, .. } => Some(target.song_id),
        Step::Stop => None,
    }
}

#[test]
fn play_playlist_starts_the_requested_track() {
    let mut q = PlaybackQueue::new();
    let s = q.play_playlist(items(5), 2);
    assert_eq!(started(&s), Some(3));
    assert_eq!(q.current_index(), Some(2));
    assert_eq!(q.current_item_uuid().as_deref(), Some("uuid-3"));
    assert_eq!(q.played_indices(), vec![2]);
    assert_eq!(q.remaining_playlist_items(), 2);
}

#[test]
fn play_playlist_with_shuffle_plays_the_requested_track_first() {
    let mut q = PlaybackQueue::new();
    q.set_shuffle_mode(ShuffleMode::All);
    let s = q.play_playlist(items(10), 6);
    assert_eq!(started(&s), Some(7));
    assert_eq!(q.current_index(), Some(0));
    let mut order = q.play_order();
    assert_eq!(order[0], 6);
    order.sort();
    assert_eq!(order, (0..10).collect::<Vec<usize>>());
}

#[test]
fn next_track_stops_at_end_then_wraps_with_repeat_playlist() {
    let mut q = PlaybackQueue::new();
    q.play_playlist(items(3), 2);
    assert!(matches!(q.next_track(), Step::Stop));
    assert_eq!(q.current_song_id(), None);
    q.set_repeat_mode(RepeatMode::Playlist);
    q.play_playlist(items(3), 2);
    assert_eq!(started(&q.next_track()), Some(1));
}

#[test]
fn previous_walks_back_and_does_not_wrap_without_repeat() {
    let mut q = PlaybackQueue::new();
    q.play_playlist(items(3), 0);
    q.next_track();
    q.next_track();
    assert_eq!(q.current_song_id(), Some(3));
    assert_eq!(q.previous_track().map(|t| t.song_id), Some(2));
    assert_eq!(q.previous_track().map(|t| t.song_id), Some(1));
    assert!(q.previous_track().is_none());
    assert_eq!(q.current_song_id(), Some(1));
}

#[test]
fn previous_wraps_past_unavailable_tracks_with_repeat_playlist() {
    let mut list = items(4);
    list[3].unavailable = true;
    let mut q = PlaybackQueue::new();
    q.set_repeat_mode(RepeatMode::Playlist);
    q.play_playlist(list, 0);
    assert_eq!(q.previous_track().map(|t| t.song_id), Some(3));
}

#[test]
fn play_skips_unavailable_items() {
    let mut list = items(3);
    list[0].unavailable = true;
    list[1].song_id = None;
    let mut q = PlaybackQueue::new();
    assert_eq!(started(&q.play_playlist(list, 0)), Some(3));
    let mut none = items(2);
    none[0].unavailable = true;
    none[1].unavailable = true;
    assert!(matches!(q.play_playlist(none, 0), Step::Stop));
}

#[test]
fn repeat_album_stays_within_album_and_wraps() {
    let list = vec![item(1, "A"), item(2, "A"), item(3, "B"), item(4, "A")];
    let mut q = PlaybackQueue::new();
    q.set_repeat_mode(RepeatMode::Album);
    q.play_playlist(list, 1);
    assert_eq!(started(&q.on_track_finished()), Some(4));
    assert_eq!(started(&q.on_track_finished()), Some(1));
    // A manual skip is not confined to the album.
    assert_eq!(started(&q.next_track()), Some(2));
    assert_eq!(started(&q.next_track()), Some(3));
}

#[test]
fn repeat_track_replays() {
    let mut q = PlaybackQueue::new();
    q.set_repeat_mode(RepeatMode::Track);
    q.play_playlist(items(3), 1);
    assert_eq!(started(&q.on_track_finished()), Some(2));
    assert_eq!(q.current_index(), Some(1));
}

#[test]
fn queued_items_play_before_the_playlist_continues() {
    let mut q = PlaybackQueue::new();
    q.set_repeat_mode(RepeatMode::Playlist);
    q.play_playlist(items(2), 1);
    let mut gone = item(98, "X");
    gone.unavailable = true;
    q.queue_next(gone);
    q.queue_next(item(99, "X"));
    assert_eq!(started(&q.next_track()), Some(99));
    assert_eq!(q.up_next_len(), 0);
    assert_eq!(q.current_index(), Some(1));
    assert_eq!(started(&q.next_track()), Some(1));
}

#[test]
fn stop_after_current_stops_once() {
    let mut q = PlaybackQueue::new();
    q.play_playlist(items(3), 0);
    q.set_stop_after_current(true);
    assert!(matches!(q.on_track_finished(), Step::Stop));
    assert!(!q.stop_after_current());
}

#[test]
fn gapless_transition_commits_without_replaying() {
    let mut q = PlaybackQueue::new();
    q.play_playlist(items(3), 0);
    q.on_position_update(100_000_000_000);
    assert!(q.scrobbled());
    match q.on_gapless_transition(2) {
        Step::Start { target, real_play } => {
            assert_eq!(target.song_id, 2);
            assert!(!real_play);
        }
        Step::Stop => panic!("expected a start"),
    }
    assert_eq!(q.current_index(), Some(1));
    assert!(!q.scrobbled());
    assert_eq!(q.scrobble_point_nanosec(), Some(90_000_000_000));
    match q.on_gapless_transition(999) {
        Step::Start { target, real_play } => {
            assert_eq!(target.song_id, 3);
            assert!(real_play);
        }
        Step::Stop => panic!("expected a start"),
    }
}

#[test]
fn scrobble_point_reached_records_once() {
    let mut q = PlaybackQueue::new();
    q.play_playlist(items(1), 0);
    assert!(!q.on_position_update(50_000_000_000));
    assert!(q.on_position_update(90_000_000_000));
    assert!(!q.on_position_update(120_000_000_000));
    assert_eq!(q.note_manual_skip(), None);
}

#[test]
fn manual_skip_before_scrobble_point_records_the_song() {
    let mut q = PlaybackQueue::new();
    q.play_playlist(items(2), 0);
    assert_eq!(q.note_manual_skip(), Some(1));
}

#[test]
fn playback_errors_stop_after_five() {
    let mut q = PlaybackQueue::new();
    q.play_playlist(items(2), 0);
    for _ in 0..4 {
        assert!(!q.note_playback_error(false).should_stop);
    }
    let o = q.note_playback_error(true);
    assert!(o.should_stop);
    assert!(o.flagged_unavailable);
    assert_eq!(o.failed_song, Some(1));
    q.reset_playback_errors();
    assert!(!q.note_playback_error(false).should_stop);
}

#[test]
fn reshuffle_keeps_playing_track_and_history() {
    let mut q = PlaybackQueue::new();
    q.play_playlist(items(10), 0);
    q.next_track();
    q.next_track();
    let before: Vec<i64> = history_songs(&q);
    q.set_shuffle_mode(ShuffleMode::All);
    assert_eq!(q.current_song_id(), Some(3));
    assert_eq!(q.current_index(), Some(0));
    assert_eq!(history_songs(&q), before);
    q.set_shuffle_mode(ShuffleMode::Off);
    assert_eq!(q.current_index(), Some(2));
    assert_eq!(started(&q.next_track()), Some(4));
}

fn history_songs(q: &PlaybackQueue) -> Vec<i64> {
    let list = q.playback_order();
    q.played_indices()
        .iter()
        .map(|&v| list[v].song_id.unwrap())
        .collect()
}

#[test]
fn grouped_shuffle_keeps_album_order() {
    let list = vec![item(1, "A"), item(2, "A"), item(3, "B"), item(4, "B"), item(5, "B")];
    let mut q = PlaybackQueue::new();
    q.set_shuffle_mode(ShuffleMode::Albums);
    q.play_playlist(list, 2);
    let order = q.play_order();
    assert_eq!(order[0], 2);
    assert_eq!(&order[1..3], &[3, 4]);
    assert_eq!(&order[3..], &[0, 1]);
}

#[test]
fn remove_items_keeps_playing_item_and_shuffle_order() {
    let mut q = PlaybackQueue::new();
    q.set_shuffle_mode(ShuffleMode::All);
    q.play_playlist(items(6), 3);
    let before: Vec<i64> = q.playback_order().iter().map(|i| i.song_id.unwrap()).collect();
    q.remove_items(&vec!["uuid-2".to_string(), "uuid-4".to_string()]);
    assert_eq!(q.len(), 5);
    let after: Vec<i64> = q.playback_order().iter().map(|i| i.song_id.unwrap()).collect();
    let expected: Vec<i64> = before.into_iter().filter(|&s| s != 2).collect();
    assert_eq!(after, expected);
    assert_eq!(q.current_index(), Some(0));
    assert_eq!(q.played_indices(), vec![0]);
}

#[test]
fn reorder_follows_the_playing_item() {
    let mut q = PlaybackQueue::new();
    q.play_playlist(items(4), 1);
    q.reorder(1, 3);
    assert_eq!(q.current_index(), Some(3));
    assert_eq!(q.current_song_id(), Some(2));
    let songs: Vec<i64> = q.playback_order().iter().map(|i| i.song_id.unwrap()).collect();
    assert_eq!(songs, vec![1, 3, 4, 2]);
    q.reorder_by_uuid(&"uuid-2".to_string(), &"uuid-1".to_string());
    let songs: Vec<i64> = q.playback_order().iter().map(|i| i.song_id.unwrap()).collect();
    assert_eq!(songs, vec![2, 1, 3, 4]);
    assert_eq!(q.current_index(), Some(0));
    q.reorder(0, 9);
    assert_eq!(q.current_index(), Some(0));
}

#[test]
fn append_and_clear() {
    let mut q = PlaybackQueue::new();
    q.play_playlist(items(2), 0);
    q.append_items(vec![item(3, "Album")]);
    assert_eq!(q.play_order(), vec![0, 1, 2]);
    assert_eq!(q.remaining_playlist_items(), 2);
    q.clear();
    assert_eq!(q.len(), 0);
    assert_eq!(q.current_index(), None);
}

#[test]
fn play_item_by_uuid_finds_the_item() {
    let mut q = PlaybackQueue::new();
    q.load(items(3), 3);
    assert_eq!(q.current_index(), None);
    assert!(q.play_item_by_uuid(&"missing".to_string()).is_none());
    let s = q.play_item_by_uuid(&"uuid-3".to_string()).unwrap();
    assert_eq!(started(&s), Some(3));
}

#[test]
fn mode_keys_round_trip() {
    for m in [
        ShuffleMode::Off,
        ShuffleMode::All,
        ShuffleMode::InsideAlbum,
        ShuffleMode::Albums,
        ShuffleMode::Artists,
    ] {
        assert_eq!(shuffle_mode_from_key(shuffle_mode_to_key(m)), m);
    }
    for m in [
        RepeatMode::Off,
        RepeatMode::Track,
        RepeatMode::Album,
        RepeatMode::Playlist,
        RepeatMode::Intro,
    ] {
        assert_eq!(repeat_mode_from_key(repeat_mode_to_key(m)), m);
    }
    assert_eq!(shuffle_mode_from_key("nope"), ShuffleMode::Off);
    assert_eq!(repeat_mode_to_key(RepeatMode::Intro), "intro");
}

#[test]
fn restore_without_a_song_gives_an_empty_queue_with_the_saved_modes() {
    let (q, uuid) = PlaybackQueue::restore(ShuffleMode::All, RepeatMode::Playlist, None, Some(3), None, items(3));
    assert_eq!(q.len(), 0);
    assert_eq!(q.current_index(), None);
    assert_eq!(q.shuffle_mode(), ShuffleMode::All);
    assert_eq!(q.repeat_mode(), RepeatMode::Playlist);
    assert_eq!(uuid, None);
}

#[test]
fn restore_cues_the_saved_item_of_a_saved_playlist() {
    let mut rows = items(4);
    rows[3].song_id = Some(2);
    rows[3].uuid = "saved".to_string();
    let (q, uuid) = PlaybackQueue::restore(
        ShuffleMode::Off,
        RepeatMode::Off,
        Some(item(2, "Album")),
        Some(7),
        Some("saved".to_string()),
        rows,
    );
    assert_eq!(q.len(), 4);
    assert_eq!(q.current_index(), Some(3));
    assert_eq!(q.current_song_id(), Some(2));
    assert_eq!(q.current_item_uuid().as_deref(), Some("saved"));
    assert_eq!(uuid.as_deref(), Some("saved"));
    assert_eq!(q.scrobble_point_nanosec(), Some(90_000_000_000));
    assert!(q.played_indices().is_empty());
}

#[test]
fn restore_falls_back_to_the_songs_first_row() {
    let (q, _) = PlaybackQueue::restore(
        ShuffleMode::Off,
        RepeatMode::Off,
        Some(item(3, "Album")),
        Some(7),
        Some("gone".to_string()),
        items(4),
    );
    assert_eq!(q.current_index(), Some(2));
}

#[test]
fn restore_of_an_adhoc_queue_ignores_the_saved_uuid() {
    let mut rows = items(3);
    rows[0].uuid = "saved".to_string();
    let (q, _) = PlaybackQueue::restore(
        ShuffleMode::Off,
        RepeatMode::Off,
        Some(item(2, "Album")),
        Some(0),
        Some("saved".to_string()),
        rows,
    );
    assert_eq!(q.current_index(), Some(1));
}

#[test]
fn restore_without_rows_loads_the_song_alone() {
    let (q, uuid) = PlaybackQueue::restore(ShuffleMode::Off, RepeatMode::Track, Some(item(9, "Album")), None, None, Vec::new());
    assert_eq!(q.len(), 1);
    assert_eq!(q.current_index(), Some(0));
    assert_eq!(q.current_song_id(), Some(9));
    let u = uuid.unwrap();
    assert_eq!(u.len(), 36);
    assert_eq!(q.current_item_uuid(), Some(u));
    let (q2, uuid2) =
        PlaybackQueue::restore(ShuffleMode::Off, RepeatMode::Off, Some(item(9, "Album")), Some(5), Some("kept".to_string()), Vec::new());
    assert_eq!(uuid2.as_deref(), Some("kept"));
    assert_eq!(q2.playback_order()[0].uuid, "kept");
}

/// The item the current position designates is the one being played.
fn assert_synced(q: &PlaybackQueue) {
    if let (Some(v), Some(u)) = (q.current_index(), q.current_item_uuid()) {
        let order = q.playback_order();
        if order.iter().any(|it| it.uuid == u) {
            assert_eq!(order[v].uuid, u);
        }
    }
}

#[test]
fn current_position_follows_the_played_item_through_edits() {
    let mut q = PlaybackQueue::new();
    q.play_playlist(items(6), 3);
    assert_synced(&q);
    q.set_shuffle_mode(ShuffleMode::All);
    assert_synced(&q);
    q.next_track();
    assert_synced(&q);
    q.reorder(0, 5);
    assert_synced(&q);
    q.set_shuffle_mode(ShuffleMode::Off);
    assert_synced(&q);
    q.remove_items(&vec!["uuid-1".to_string(), "uuid-2".to_string()]);
    assert_synced(&q);
    q.append_items(vec![item(7, "Other")]);
    assert_synced(&q);
    q.queue_next(item(8, "Other"));
    q.next_track();
    assert_eq!(q.current_item_uuid().as_deref(), Some("uuid-8"));
    assert_synced(&q);
    q.previous_track();
    assert_synced(&q);
    let uuid = q.playback_order()[0].uuid.clone();
    q.play_item_by_uuid(&uuid);
    assert_eq!(q.current_index(), Some(0));
    assert_synced(&q);
}
