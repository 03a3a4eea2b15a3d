use luminous::subsonic_sync::{queued_play_action, PlayOutcome, QueueAction};
use luminous::subsonic::track_uri;
use luminous::subsonic_sync::report_now_playing;
use luminous::subsonic_sync::{
    artist_names, fingerprint_changed, genre_of, stale_songs, title_of, track_write, ArtistRef, ExistingSong,
    ItemGenre, Paging, SubsonicSyncStats, TrackOutcome, TrackWrite, PAGE_SIZE,
};

/// Pages through `fetch(offset)` the way the sync does, keeping the new
/// items of each page.
fn fetch_all_pages(fetch: &mut dyn FnMut(usize) -> Vec<String>) -> Vec<String> {
    let mut paging = Paging::new();
    let mut all = Vec::new();
    let mut offset = 0;
    loop {
        let page = fetch(offset);
        let (fresh, next) = paging.take_page(&page);
        for i in fresh {
            all.push(page[i].clone());
        }
        match next {
            Some(o) => offset = o,
            None => return all,
        }
    }
}

#[test]
fn fetch_all_pages_stops_on_short_page_and_on_repeats() {
    let mut calls = 0;
    let items = fetch_all_pages(&mut |offset| {
        calls += 1;
        let n = if offset == 0 { PAGE_SIZE } else { 3 };
        (offset..offset + n).map(|i| i.to_string()).collect()
    });
    assert_eq!(items.len(), PAGE_SIZE + 3);
    assert_eq!(calls, 2);

    // A server that ignores the offset returns the same full page forever.
    let mut calls = 0;
    let items = fetch_all_pages(&mut |_| {
        calls += 1;
        (0..PAGE_SIZE).map(|i| i.to_string()).collect()
    });
    assert_eq!(items.len(), PAGE_SIZE);
    assert_eq!(calls, 2);
}

#[test]
fn take_page_counts_a_repeat_within_a_page_once() {
    let mut p = Paging::new();
    let page: Vec<String> = vec!["a".into(), "b".into(), "a".into()];
    let (fresh, next) = p.take_page(&page);
    assert_eq!(fresh, vec![0, 1]);
    assert_eq!(next, None);
    assert_eq!(p.seen, vec!["a".to_string(), "b".to_string()]);
}

#[test]
fn artist_names_join_entries_or_fall_back() {
    let refs = vec![
        ArtistRef { id: "1".into(), name: " Daft Punk ".into() },
        ArtistRef { id: "2".into(), name: "  ".into() },
        ArtistRef { id: "3".into(), name: "Pharrell".into() },
    ];
    assert_eq!(artist_names(&refs, Some("ignored")).as_deref(), Some("Daft Punk; Pharrell"));
    assert_eq!(artist_names(&[], Some("  Solo ")).as_deref(), Some("Solo"));
    assert_eq!(artist_names(&[], Some("   ")), None);
    assert_eq!(artist_names(&[], None), None);
}

#[test]
fn genre_and_title_fallbacks() {
    let gs = vec![ItemGenre { name: "Rock".into() }, ItemGenre { name: " Pop ".into() }];
    assert_eq!(genre_of(&Some("Jazz".into()), &gs).as_deref(), Some("Jazz"));
    assert_eq!(genre_of(&None, &gs).as_deref(), Some("Rock; Pop"));
    assert_eq!(genre_of(&None, &[]), None);
    assert_eq!(title_of("One", Some("x/y.mp3")).as_deref(), Some("One"));
    assert_eq!(title_of("  ", Some("music/Artist/02 - Two.flac")).as_deref(), Some("02 - Two"));
    assert_eq!(title_of("", None), None);
}

#[test]
fn track_write_keeps_unchanged_songs_and_counts_the_rest() {
    let found = ExistingSong { id: 7, unavailable: false, art_automatic: Some("old.jpg".into()) };
    assert!(matches!(track_write(Some(&found), false, Some("cover.jpg")), TrackWrite::Keep { id: 7 }));
    match track_write(Some(&found), true, None) {
        TrackWrite::Write { art, outcome } => {
            assert_eq!(art.as_deref(), Some("old.jpg"));
            assert_eq!(outcome, TrackOutcome::Updated);
        },
        _ => panic!("expected a write"),
    }
    let bare = ExistingSong { id: 8, unavailable: false, art_automatic: None };
    match track_write(Some(&bare), false, Some("cover.jpg")) {
        TrackWrite::Write { art, outcome } => {
            assert_eq!(art.as_deref(), Some("cover.jpg"));
            assert_eq!(outcome, TrackOutcome::Unchanged);
        },
        _ => panic!("expected a write"),
    }
    match track_write(None, false, None) {
        TrackWrite::Write { outcome, .. } => assert_eq!(outcome, TrackOutcome::Added),
        _ => panic!("expected a write"),
    }
    assert!(fingerprint_changed(None, "fp"));
    assert!(!fingerprint_changed(Some("fp"), "fp"));
}

#[test]
fn stale_songs_and_totals() {
    assert_eq!(stale_songs(&[1, 2, 3, 4], &[2, 4]), vec![1, 3]);
    let mut s = SubsonicSyncStats::new();
    s.record(TrackOutcome::Added);
    s.record(TrackOutcome::Updated);
    s.record(TrackOutcome::Unchanged);
    assert_eq!((s.added, s.updated, s.removed), (1, 1, 0));
}

#[test]
fn now_playing_goes_to_servers_that_report_plays() {
    let path = track_uri(3, "tr-1");
    assert_eq!(report_now_playing(&path, &[(2, true), (3, true)]), Some((3, "tr-1".to_string())));
    assert_eq!(report_now_playing(&path, &[(3, false), (3, true)]), None);
    assert_eq!(report_now_playing(&path, &[]), None);
    assert_eq!(report_now_playing("/music/a.mp3", &[(3, true)]), None);
}

#[test]
fn queued_plays_are_sent_dropped_or_retried() {
    assert_eq!(queued_play_action(0, PlayOutcome::Accepted), QueueAction::Sent);
    assert_eq!(queued_play_action(0, PlayOutcome::ApiError { code: 70 }), QueueAction::Dropped);
    assert_eq!(queued_play_action(0, PlayOutcome::ApiError { code: 10 }), QueueAction::Dropped);
    assert_eq!(queued_play_action(0, PlayOutcome::ApiError { code: 40 }), QueueAction::Retry);
    assert_eq!(queued_play_action(18, PlayOutcome::Failed), QueueAction::Retry);
    assert_eq!(queued_play_action(19, PlayOutcome::Failed), QueueAction::Dropped);
}
