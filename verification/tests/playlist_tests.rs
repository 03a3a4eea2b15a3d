use luminous::playlist::{
    imported_playlist_name, is_reserved_playlist_name, ImportedTrack, PlaylistEntry, PlaylistError,
    PlaylistManager,
};

fn dynamic_of(manager: &PlaylistManager, id: i64) -> (bool, Option<String>, String) {
    let info = manager
        .get_playlists()
        .into_iter()
        .find(|p| p.id == id)
        .unwrap();
    (
        info.dynamic.enabled,
        info.dynamic.spec.clone(),
        info.dynamic.population_mode.clone(),
    )
}

fn song_ids(rows: &[PlaylistEntry]) -> Vec<Option<i64>> {
    rows.iter().map(|r| r.song_id).collect()
}

fn uuids(rows: &[PlaylistEntry]) -> Vec<String> {
    rows.iter().map(|r| r.uuid.clone()).collect()
}

#[test]
fn test_reserved_playlist_names() {
    let mut manager = PlaylistManager::new();

    let queue = manager.create_playlist("Queue").unwrap();

    assert!(manager.create_playlist("queue").is_err());
    assert!(manager.create_playlist("  QUEUE  ").is_err());
    assert!(manager.create_playlist("File d'attente").is_err());

    let other = manager.create_playlist("Chill Mix").unwrap();
    assert!(manager.rename_playlist(other.id, "Queue").is_err());
    assert!(manager.rename_playlist(other.id, "File D'Attente").is_err());
    let playlists = manager.get_playlists();
    assert_eq!(
        playlists.iter().find(|p| p.id == other.id).unwrap().name,
        "Chill Mix"
    );

    assert_eq!(
        playlists.iter().find(|p| p.id == queue.id).unwrap().name,
        "Queue"
    );
}

#[test]
fn test_queue_is_idempotent_and_flagged() {
    let mut manager = PlaylistManager::new();

    let q1 = manager.queue().unwrap();
    let q2 = manager.queue().unwrap();
    assert_eq!(q1.id, q2.id, "queue() must not create duplicates");
    assert!(q1.is_queue);
    assert_eq!(manager.get_playlists().len(), 1);

    let other = manager.create_playlist("Road Trip").unwrap();
    assert!(!other.is_queue);
    let listed = manager.get_playlists();
    assert!(listed.iter().find(|p| p.id == q1.id).unwrap().is_queue);
    assert!(!listed.iter().find(|p| p.id == other.id).unwrap().is_queue);
}

#[test]
fn test_replace_queue_swaps_contents_and_is_undoable() {
    let mut manager = PlaylistManager::new();
    let (queue_id, items) = manager.replace_queue(&[1, 2]).unwrap();
    assert_eq!(items.len(), 2);

    let (queue_id_2, items) = manager.replace_queue(&[3]).unwrap();
    assert_eq!(queue_id, queue_id_2, "replace must reuse the same Queue row");
    assert_eq!(items.len(), 1);
    assert_eq!(items[0].song_id, Some(3));

    manager.undo().unwrap();
    manager.undo().unwrap();
    let tracks = manager.get_playlist_tracks(queue_id);
    assert_eq!(tracks.len(), 2);
}

#[test]
fn test_playlist_crud() {
    let mut manager = PlaylistManager::new();

    let pl = manager.create_playlist("Chill Mix").unwrap();
    let pl_id = pl.id;
    assert!(pl_id > 0);

    let playlists = manager.get_playlists();
    assert_eq!(playlists.len(), 1);
    assert_eq!(playlists[0].name, "Chill Mix");

    manager.rename_playlist(pl_id, "Chill Beats").unwrap();
    let playlists = manager.get_playlists();
    assert_eq!(playlists[0].name, "Chill Beats");

    manager.delete_playlist(pl_id).unwrap();
    let playlists = manager.get_playlists();
    assert_eq!(playlists.len(), 0);
}

#[test]
fn test_undo_redo_on_empty_stack_returns_false() {
    let mut manager = PlaylistManager::new();
    assert!(!manager.undo().unwrap());
    assert!(!manager.redo().unwrap());
}

#[test]
fn test_clear_playlist_undo_redo() {
    let mut manager = PlaylistManager::new();
    let pl = manager.create_playlist("Clear Test").unwrap();
    manager.add_songs_to_playlist(pl.id, &[1]).unwrap();

    let tracks = manager.get_playlist_tracks(pl.id);
    assert_eq!(tracks.len(), 1);

    manager.clear_playlist(pl.id).unwrap();
    let tracks_after_clear = manager.get_playlist_tracks(pl.id);
    assert_eq!(tracks_after_clear.len(), 0);

    manager.undo().unwrap();
    let tracks_after_undo = manager.get_playlist_tracks(pl.id);
    assert_eq!(tracks_after_undo.len(), 1);
    assert_eq!(tracks_after_undo[0].song_id, Some(1));

    manager.redo().unwrap();
    let tracks_after_redo = manager.get_playlist_tracks(pl.id);
    assert_eq!(tracks_after_redo.len(), 0);
}

#[test]
fn test_remove_middle_item_undo_restores_exact_position() {
    let mut manager = PlaylistManager::new();
    let pl = manager.create_playlist("Middle Remove Test").unwrap();
    manager
        .add_songs_to_playlist(pl.id, &[1, 2, 3, 4, 5])
        .unwrap();

    let original_tracks = manager.get_playlist_tracks(pl.id);
    assert_eq!(original_tracks.len(), 5);
    let original_uuids = uuids(&original_tracks);
    let middle_uuid = original_tracks[2].uuid.clone();
    assert_eq!(original_tracks[2].song_id, Some(3));

    manager
        .remove_from_playlist(pl.id, std::slice::from_ref(&middle_uuid))
        .unwrap();
    let after_remove = manager.get_playlist_tracks(pl.id);
    assert_eq!(after_remove.len(), 4);
    assert!(after_remove.iter().all(|t| t.uuid != middle_uuid));

    manager.undo().unwrap();
    let after_undo = manager.get_playlist_tracks(pl.id);
    assert_eq!(after_undo.len(), 5);

    let restored_uuids = uuids(&after_undo);
    assert_eq!(restored_uuids, original_uuids);
    assert_eq!(after_undo[2].uuid, middle_uuid);
    assert_eq!(after_undo[2].song_id, Some(3));
}

#[test]
fn test_reorder_playlist_item_by_uuid() {
    let mut manager = PlaylistManager::new();
    let pl = manager.create_playlist("Test UUID Reorder").unwrap();
    manager.add_songs_to_playlist(pl.id, &[1]).unwrap();
    manager.add_songs_to_playlist(pl.id, &[2]).unwrap();
    manager.add_songs_to_playlist(pl.id, &[3]).unwrap();

    let tracks = manager.get_playlist_tracks(pl.id);
    let uuid0 = tracks[0].uuid.clone();
    let uuid2 = tracks[2].uuid.clone();

    manager
        .reorder_playlist_item_by_uuid(pl.id, &uuid0, &uuid2)
        .unwrap();

    let reordered = manager.get_playlist_tracks(pl.id);
    assert_eq!(reordered[0].song_id, Some(2));
    assert_eq!(reordered[1].song_id, Some(3));
    assert_eq!(reordered[2].song_id, Some(1));
}

#[test]
fn test_deduplicate_playlist_removes_repeat_songs_keeping_first_occurrence() {
    let mut manager = PlaylistManager::new();
    let pl = manager.create_playlist("Dedup Test").unwrap();
    manager.add_songs_to_playlist(pl.id, &[1]).unwrap();
    manager.add_songs_to_playlist(pl.id, &[2]).unwrap();
    manager.add_songs_to_playlist(pl.id, &[1]).unwrap();

    let removed = manager.deduplicate_playlist(pl.id).unwrap();
    assert_eq!(removed.len(), 1);

    let tracks = manager.get_playlist_tracks(pl.id);
    assert_eq!(tracks.len(), 2);
    assert_eq!(tracks[0].song_id, Some(1));
    assert_eq!(tracks[1].song_id, Some(2));

    let removed_again = manager.deduplicate_playlist(pl.id).unwrap();
    assert!(removed_again.is_empty());
}

#[test]
fn test_trim_playlist_before_uuid_removes_only_earlier_items() {
    let mut manager = PlaylistManager::new();
    let pl = manager.create_playlist("Trim Test").unwrap();
    manager.add_songs_to_playlist(pl.id, &[1]).unwrap();
    manager.add_songs_to_playlist(pl.id, &[2]).unwrap();
    manager.add_songs_to_playlist(pl.id, &[3]).unwrap();

    let tracks = manager.get_playlist_tracks(pl.id);
    let uuid2 = tracks[2].uuid.clone();

    let removed = manager.trim_playlist_before_uuid(pl.id, &uuid2).unwrap();
    assert_eq!(removed.len(), 2);

    let remaining = manager.get_playlist_tracks(pl.id);
    assert_eq!(remaining.len(), 1);
    assert_eq!(remaining[0].song_id, Some(3));

    let removed_at_head = manager
        .trim_playlist_before_uuid(pl.id, &remaining[0].uuid)
        .unwrap();
    assert!(removed_at_head.is_empty());

    let removed_unknown = manager
        .trim_playlist_before_uuid(pl.id, "not-a-real-uuid")
        .unwrap();
    assert!(removed_unknown.is_empty());
}

#[test]
fn test_reorder_playlist_items_batch() {
    let mut manager = PlaylistManager::new();
    let pl = manager.create_playlist("Batch Test").unwrap();
    manager.add_songs_to_playlist(pl.id, &[1, 2, 3, 4]).unwrap();

    manager
        .reorder_playlist_items_batch(pl.id, &[0, 1], 3)
        .unwrap();

    let tracks = manager.get_playlist_tracks(pl.id);
    assert_eq!(
        song_ids(&tracks),
        vec![Some(3), Some(4), Some(1), Some(2)]
    );

    manager.undo().unwrap();
    let tracks_undo = manager.get_playlist_tracks(pl.id);
    assert_eq!(
        song_ids(&tracks_undo),
        vec![Some(1), Some(2), Some(3), Some(4)]
    );
}

#[test]
fn reserved_name_check_trims_and_lowercases() {
    assert!(is_reserved_playlist_name("Queue"));
    assert!(is_reserved_playlist_name("  FILE D'ATTENTE "));
    assert!(!is_reserved_playlist_name("Queued"));
    assert!(!is_reserved_playlist_name("My Queue"));
}

#[test]
fn reserved_refusal_names_the_trimmed_name() {
    let mut manager = PlaylistManager::new();
    manager.create_playlist("Chill").unwrap();
    let err = manager.create_playlist("  File d'attente ").unwrap_err();
    assert_eq!(
        err,
        PlaylistError::Reserved {
            name: "File d'attente".to_string()
        }
    );
    assert_eq!(
        err.message(),
        "\"File d'attente\" is reserved for the app's built-in Queue playlist"
    );
}

#[test]
fn playlist_ids_count_up_from_one() {
    let mut manager = PlaylistManager::new();
    let a = manager.create_playlist("A").unwrap();
    let b = manager.create_playlist("B").unwrap();
    manager.delete_playlist(a.id).unwrap();
    let c = manager.create_playlist("C").unwrap();
    assert_eq!((a.id, b.id, c.id), (1, 2, 3));
    let names: Vec<String> = manager.get_playlists().into_iter().map(|p| p.name).collect();
    assert_eq!(names, vec!["B".to_string(), "C".to_string()]);
}

#[test]
fn adding_to_an_unknown_playlist_is_refused() {
    let mut manager = PlaylistManager::new();
    assert_eq!(
        manager.add_songs_to_playlist(42, &[1]),
        Err(PlaylistError::UnknownPlaylist)
    );
    assert!(!manager.undo().unwrap());
    assert_eq!(manager.add_songs_to_playlist(42, &[]), Ok(()));
}

#[test]
fn moving_from_an_empty_position_is_refused() {
    let mut manager = PlaylistManager::new();
    let pl = manager.create_playlist("P").unwrap();
    manager.add_songs_to_playlist(pl.id, &[1, 2]).unwrap();
    assert_eq!(
        manager.reorder_playlist_item(pl.id, 5, 0),
        Err(PlaylistError::NoRowAt { position: 5 })
    );
    assert_eq!(manager.reorder_playlist_item(pl.id, 7, 7), Ok(()));
}

#[test]
fn move_target_is_clamped_into_range() {
    let mut manager = PlaylistManager::new();
    let pl = manager.create_playlist("P").unwrap();
    manager.add_songs_to_playlist(pl.id, &[1, 2, 3]).unwrap();
    manager.reorder_playlist_item(pl.id, 0, 99).unwrap();
    assert_eq!(
        song_ids(&manager.get_playlist_tracks(pl.id)),
        vec![Some(2), Some(3), Some(1)]
    );
    manager.reorder_playlist_item(pl.id, 2, -4).unwrap();
    assert_eq!(
        song_ids(&manager.get_playlist_tracks(pl.id)),
        vec![Some(1), Some(2), Some(3)]
    );
}

#[test]
fn every_edit_is_undone_then_redone() {
    let mut manager = PlaylistManager::new();
    let pl = manager.create_playlist("Undo").unwrap();
    manager.add_songs_to_playlist(pl.id, &[1, 2, 3, 4, 5]).unwrap();
    let start = manager.get_playlist_tracks(pl.id);

    let victims = vec![start[1].uuid.clone(), start[3].uuid.clone()];
    manager.remove_from_playlist(pl.id, &victims).unwrap();
    let removed = manager.get_playlist_tracks(pl.id);
    assert_eq!(song_ids(&removed), vec![Some(1), Some(3), Some(5)]);
    assert!(manager.undo().unwrap());
    assert_eq!(uuids(&manager.get_playlist_tracks(pl.id)), uuids(&start));
    assert!(manager.redo().unwrap());
    assert_eq!(uuids(&manager.get_playlist_tracks(pl.id)), uuids(&removed));
    assert!(manager.undo().unwrap());

    manager.reorder_playlist_item(pl.id, 4, 1).unwrap();
    let moved = manager.get_playlist_tracks(pl.id);
    assert_eq!(
        song_ids(&moved),
        vec![Some(1), Some(5), Some(2), Some(3), Some(4)]
    );
    assert!(manager.undo().unwrap());
    assert_eq!(uuids(&manager.get_playlist_tracks(pl.id)), uuids(&start));
    assert!(manager.redo().unwrap());
    assert_eq!(uuids(&manager.get_playlist_tracks(pl.id)), uuids(&moved));
    assert!(manager.undo().unwrap());

    manager
        .reorder_playlist_items_batch(pl.id, &[3, 0, 3, 9], 2)
        .unwrap();
    let batched = manager.get_playlist_tracks(pl.id);
    assert_eq!(
        song_ids(&batched),
        vec![Some(2), Some(3), Some(1), Some(4), Some(5)]
    );
    assert!(manager.undo().unwrap());
    assert_eq!(uuids(&manager.get_playlist_tracks(pl.id)), uuids(&start));
    assert!(manager.redo().unwrap());
    assert_eq!(uuids(&manager.get_playlist_tracks(pl.id)), uuids(&batched));
    assert!(manager.undo().unwrap());

    manager.add_songs_to_playlist(pl.id, &[6, 7]).unwrap();
    assert!(manager.undo().unwrap());
    assert_eq!(uuids(&manager.get_playlist_tracks(pl.id)), uuids(&start));
    assert!(manager.redo().unwrap());
    let readded = manager.get_playlist_tracks(pl.id);
    assert_eq!(
        song_ids(&readded),
        vec![Some(1), Some(2), Some(3), Some(4), Some(5), Some(6), Some(7)]
    );
    assert_eq!(uuids(&readded[..5]), uuids(&start));
    assert!(!manager.redo().unwrap());
}

#[test]
fn an_edit_clears_the_redo_stack() {
    let mut manager = PlaylistManager::new();
    let pl = manager.create_playlist("P").unwrap();
    manager.add_songs_to_playlist(pl.id, &[1]).unwrap();
    manager.add_songs_to_playlist(pl.id, &[2]).unwrap();
    assert!(manager.undo().unwrap());
    manager.add_songs_to_playlist(pl.id, &[3]).unwrap();
    assert!(!manager.redo().unwrap());
    assert_eq!(
        song_ids(&manager.get_playlist_tracks(pl.id)),
        vec![Some(1), Some(3)]
    );
}

#[test]
fn batch_move_that_changes_nothing_records_nothing() {
    let mut manager = PlaylistManager::new();
    let pl = manager.create_playlist("P").unwrap();
    manager.add_songs_to_playlist(pl.id, &[1, 2, 3]).unwrap();
    manager
        .reorder_playlist_items_batch(pl.id, &[0, 1], 0)
        .unwrap();
    assert_eq!(
        song_ids(&manager.get_playlist_tracks(pl.id)),
        vec![Some(1), Some(2), Some(3)]
    );
    assert!(manager.undo().unwrap());
    assert!(manager.get_playlist_tracks(pl.id).is_empty());
}

#[test]
fn imported_rows_keep_paths_and_metadata_of_unmatched_tracks() {
    let mut manager = PlaylistManager::new();
    let tracks = vec![
        ImportedTrack {
            song_id: Some(7),
            path: "/music/a.mp3".to_string(),
            metadata: Some("{\"title\":\"A\"}".to_string()),
        },
        ImportedTrack {
            song_id: None,
            path: "/music/b.mp3".to_string(),
            metadata: Some("{\"title\":\"B\"}".to_string()),
        },
    ];
    let info = manager.add_imported_playlist("Mix", &tracks).unwrap();
    assert_eq!(info.track_count, 0);
    let rows = manager.get_playlist_tracks(info.id);
    assert_eq!(rows.len(), 2);
    assert_eq!(rows[0].song_id, Some(7));
    assert_eq!(rows[0].url.as_deref(), Some("/music/a.mp3"));
    assert_eq!(rows[0].additional_metadata, None);
    assert_eq!(rows[1].song_id, None);
    assert_eq!(rows[1].url.as_deref(), Some("/music/b.mp3"));
    assert_eq!(
        rows[1].additional_metadata.as_deref(),
        Some("{\"title\":\"B\"}")
    );
    assert!(!manager.undo().unwrap());
}

#[test]
fn dedup_keys_rows_without_a_song_by_url_then_uuid() {
    let mut manager = PlaylistManager::new();
    let track = |path: &str, metadata: Option<&str>| ImportedTrack {
        song_id: None,
        path: path.to_string(),
        metadata: metadata.map(|m| m.to_string()),
    };
    let tracks = vec![
        track("/x.mp3", Some("{\"title\":\"X\"}")),
        track("/y.mp3", Some("{\"title\":\"Y\"}")),
        track("/z.mp3", Some("not json")),
        track("/z.mp3", None),
        track("/x.mp3", Some("{oops")),
    ];
    let info = manager.add_imported_playlist("Odd", &tracks).unwrap();
    let rows = manager.get_playlist_tracks(info.id);
    let removed = manager.deduplicate_playlist(info.id).unwrap();
    assert_eq!(removed, vec![rows[3].uuid.clone(), rows[4].uuid.clone()]);
    let left = manager.get_playlist_tracks(info.id);
    assert_eq!(uuids(&left), vec![rows[0].uuid.clone(), rows[1].uuid.clone(), rows[2].uuid.clone()]);
    assert_eq!(manager.deduplicate_playlist(info.id).unwrap(), Vec::<String>::new());
}

#[test]
fn imported_names_fall_back_to_file_stem() {
    assert_eq!(imported_playlist_name(Some("Road"), "/a/b.m3u"), "Road");
    assert_eq!(imported_playlist_name(None, "/a/summer.mix.m3u8"), "summer.mix");
    assert_eq!(imported_playlist_name(None, "/a/.hidden"), ".hidden");
    assert_eq!(imported_playlist_name(None, "/"), "Imported Playlist");
}

#[test]
fn fresh_rows_get_distinct_uuids() {
    let mut manager = PlaylistManager::new();
    let pl = manager.create_playlist("P").unwrap();
    manager.add_songs_to_playlist(pl.id, &[1, 1, 1]).unwrap();
    let rows = manager.get_playlist_tracks(pl.id);
    assert_eq!(rows[0].uuid.len(), 36);
    assert_ne!(rows[0].uuid, rows[1].uuid);
    assert_ne!(rows[1].uuid, rows[2].uuid);
}

#[test]
fn test_reconcile_appends_new_matches_and_evicts_stale_without_reordering() {
    let mut manager = PlaylistManager::new();
    let pl = manager.create_playlist("Rock Smart").unwrap();
    manager
        .set_playlist_dynamic_spec(pl.id, "genre:Rock", &[1, 2])
        .unwrap();
    let before = manager.get_playlist_tracks(pl.id);
    assert_eq!(before.len(), 2);

    let matches = vec![(pl.id, vec![2, 4])];
    let deltas = manager.reconcile_dynamic_playlists(&matches).unwrap();
    assert_eq!(deltas.len(), 1);
    let delta = &deltas[0];
    assert_eq!(delta.playlist_id, pl.id);
    assert_eq!(delta.added.len(), 1);
    assert_eq!(delta.added[0].song_id, Some(4));
    assert_eq!(delta.removed_uuids, vec![before[0].uuid.clone()]);

    let after = manager.get_playlist_tracks(pl.id);
    assert_eq!(after.last().unwrap().song_id, Some(4));
    assert!(after.iter().any(|i| i.uuid == before[1].uuid));
    assert_eq!(after[1].uuid, delta.added[0].uuid);

    let deltas = manager.reconcile_dynamic_playlists(&matches).unwrap();
    assert!(deltas.is_empty());

    assert!(!manager.undo().unwrap());
    assert_eq!(manager.get_playlist_tracks(pl.id).len(), after.len());
}

#[test]
fn dynamic_spec_turns_filling_on_and_off() {
    let mut manager = PlaylistManager::new();
    let pl = manager.create_playlist("Smart").unwrap();
    assert_eq!(dynamic_of(&manager, pl.id), (false, None, "all".to_string()));

    manager
        .set_playlist_dynamic_config(pl.id, "deep_cuts", "decade:1980s", &[5, 6, 7])
        .unwrap();
    assert_eq!(
        dynamic_of(&manager, pl.id),
        (true, Some("decade:1980s".to_string()), "deep_cuts".to_string())
    );
    assert_eq!(
        song_ids(&manager.get_playlist_tracks(pl.id)),
        vec![Some(5), Some(6), Some(7)]
    );
    let targets = manager.dynamic_targets();
    assert_eq!(
        targets,
        vec![(pl.id, "decade:1980s".to_string(), "deep_cuts".to_string())]
    );

    manager.set_playlist_dynamic_spec(pl.id, "   ", &[9]).unwrap();
    assert_eq!(
        dynamic_of(&manager, pl.id),
        (false, Some("   ".to_string()), "deep_cuts".to_string())
    );
    assert_eq!(manager.get_playlist_tracks(pl.id).len(), 3);
    assert!(manager.dynamic_targets().is_empty());

    manager.refresh_auto_playlist(pl.id, &[9]).unwrap();
    assert_eq!(manager.get_playlist_tracks(pl.id).len(), 3);

    manager.set_playlist_population_mode(pl.id, "all").unwrap();
    assert_eq!(dynamic_of(&manager, pl.id).2, "all");
}

#[test]
fn refreshing_all_dynamic_playlists_uses_each_last_entry() {
    let mut manager = PlaylistManager::new();
    let a = manager.create_playlist("A").unwrap();
    let b = manager.create_playlist("B").unwrap();
    let plain = manager.create_playlist("Plain").unwrap();
    manager.add_songs_to_playlist(plain.id, &[1]).unwrap();
    manager.set_playlist_dynamic_spec(a.id, "tag:Rock", &[1]).unwrap();
    manager.set_playlist_dynamic_spec(b.id, "tag:Jazz", &[2]).unwrap();
    let old_a = manager.get_playlist_tracks(a.id);

    manager
        .refresh_all_dynamic_playlists(&[(a.id, vec![3]), (plain.id, vec![8]), (a.id, vec![4, 5])])
        .unwrap();
    let new_a = manager.get_playlist_tracks(a.id);
    assert_eq!(song_ids(&new_a), vec![Some(4), Some(5)]);
    assert_ne!(new_a[0].uuid, old_a[0].uuid);
    assert_eq!(song_ids(&manager.get_playlist_tracks(b.id)), vec![Some(2)]);
    assert_eq!(song_ids(&manager.get_playlist_tracks(plain.id)), vec![Some(1)]);
}

#[test]
fn reconcile_appends_every_new_match_and_skips_other_playlists() {
    let mut manager = PlaylistManager::new();
    let tracks = vec![
        ImportedTrack {
            song_id: None,
            path: "/radio.pls".to_string(),
            metadata: None,
        },
        ImportedTrack {
            song_id: Some(1),
            path: "/a.mp3".to_string(),
            metadata: None,
        },
    ];
    let info = manager.add_imported_playlist("Mixed", &tracks).unwrap();
    manager.set_playlist_dynamic_spec(info.id, "genre:Any", &[]).unwrap();
    assert!(manager.get_playlist_tracks(info.id).is_empty());

    let other = manager.create_playlist("Other").unwrap();
    manager.add_songs_to_playlist(other.id, &[1]).unwrap();

    let deltas = manager
        .reconcile_dynamic_playlists(&[(other.id, vec![]), (info.id, vec![3, 3]), (info.id, vec![])])
        .unwrap();
    assert_eq!(deltas.len(), 1);
    assert_eq!(deltas[0].playlist_id, info.id);
    assert!(deltas[0].removed_uuids.is_empty());
    assert_eq!(song_ids(&deltas[0].added), vec![Some(3), Some(3)]);
    assert_eq!(song_ids(&manager.get_playlist_tracks(other.id)), vec![Some(1)]);
}

#[test]
fn error_messages_name_each_refusal() {
    assert_eq!(PlaylistError::NoIdLeft.message(), "no playlist id is left");
    assert_eq!(PlaylistError::TooManyRows.message(), "the playlist would hold too many rows");
    assert_eq!(PlaylistError::UnknownPlaylist.message(), "no such playlist");
    assert_eq!(PlaylistError::NoRowAt { position: 3 }.message(), "no row at that position");
    assert_eq!(
        PlaylistError::Reserved { name: "queue".to_string() }.message(),
        "\"queue\" is reserved for the app's built-in Queue playlist"
    );
}

#[test]
fn replace_queue_keeps_the_queue_and_other_playlists() {
    let mut manager = PlaylistManager::new();
    let other = manager.create_playlist("Road Trip").unwrap();
    manager.add_songs_to_playlist(other.id, &[9]).unwrap();
    let (q1, _) = manager.replace_queue(&[1, 2]).unwrap();
    let (q2, items) = manager.replace_queue(&[3]).unwrap();
    assert_eq!(q1, q2);
    assert_eq!(items.len(), 1);
    assert_eq!(items[0].song_id, Some(3));
    assert_eq!(manager.get_playlist_tracks(other.id).len(), 1);
    assert_eq!(manager.queue().unwrap().id, q1);
}
