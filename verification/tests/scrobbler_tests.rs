use luminous::scrobbler::{
    feedback_target, flush_allowed, listen_of, listen_type, manual_flush_token, now_playing_allowed, rejection_message,
    scrobble_allowed, settings_from_pairs, settings_pairs, token_to_validate, validation_outcome, ScrobbleCache,
    ScrobbleTrack, ScrobblerSettings,
};

fn on() -> ScrobblerSettings {
    let mut s = ScrobblerSettings::default();
    s.listenbrainz_enabled = true;
    s.listenbrainz_token = "  tok  ".to_string();
    s
}

fn track(title: &str, length_s: i64) -> ScrobbleTrack {
    ScrobbleTrack {
        artist: Some("Radiohead".to_string()),
        title: Some(title.to_string()),
        album: Some("OK Computer".to_string()),
        length_nanosec: Some(length_s * 1_000_000_000),
        track: Some(6),
        recording_mbid: Some("0946b553-7a96-4a49-9cfd-f952fdbbe7e8".to_string()),
        release_mbid: None,
        artist_mbid: Some("a74b1b7f-71a5-4011-9441-d0b5e4122711".to_string()),
        release_group_mbid: None,
        track_mbid: None,
    }
}

#[test]
fn default_settings_match_the_documented_defaults() {
    let s = ScrobblerSettings::default();
    assert!(!s.listenbrainz_enabled);
    assert_eq!(s.listenbrainz_token, "");
    assert_eq!(s.listenbrainz_username, None);
    assert!(s.scrobble_now_playing && s.scrobble_ratings && !s.scrobble_paused);
    assert_eq!(s.min_duration_secs, 30);
}

#[test]
fn settings_read_back_from_stored_pairs() {
    let mut s = on();
    s.listenbrainz_username = Some("soltys".to_string());
    s.scrobble_ratings = false;
    s.min_duration_secs = 45;
    let pairs = settings_pairs(&s);
    assert_eq!(pairs[0], ("listenbrainz_enabled".to_string(), "true".to_string()));
    assert_eq!(pairs[6], ("scrobbler_min_duration_secs".to_string(), "45".to_string()));
    let back = settings_from_pairs(&pairs);
    assert!(back.listenbrainz_enabled);
    assert_eq!(back.listenbrainz_token, "  tok  ");
    assert_eq!(back.listenbrainz_username.as_deref(), Some("soltys"));
    assert!(!back.scrobble_ratings);
    assert_eq!(back.min_duration_secs, 45);
}

#[test]
fn stored_flags_read_leniently() {
    let pairs = vec![
        ("listenbrainz_enabled".to_string(), "1".to_string()),
        ("scrobbler_now_playing".to_string(), "no".to_string()),
        ("scrobbler_ratings".to_string(), "0".to_string()),
        ("scrobbler_min_duration_secs".to_string(), "-5".to_string()),
        ("listenbrainz_username".to_string(), "".to_string()),
        ("other".to_string(), "x".to_string()),
    ];
    let s = settings_from_pairs(&pairs);
    assert!(s.listenbrainz_enabled);
    assert!(s.scrobble_now_playing);
    assert!(!s.scrobble_ratings);
    assert_eq!(s.min_duration_secs, 30);
    assert_eq!(s.listenbrainz_username, None);
}

#[test]
fn now_playing_needs_everything_on_and_a_token() {
    let s = on();
    assert!(now_playing_allowed(&s, false));
    assert!(!now_playing_allowed(&s, true));
    let mut p = on();
    p.scrobble_paused = true;
    assert!(!now_playing_allowed(&p, false));
    let mut t = on();
    t.listenbrainz_token = "   ".to_string();
    assert!(!now_playing_allowed(&t, false));
}

#[test]
fn scrobbles_respect_the_minimum_duration() {
    let s = on();
    assert!(scrobble_allowed(&s, false, Some(30_000_000_000)));
    assert!(!scrobble_allowed(&s, false, Some(29_999_999_999)));
    assert!(scrobble_allowed(&s, false, None));
    assert!(!scrobble_allowed(&s, true, None));
}

#[test]
fn feedback_needs_a_recording_id() {
    let s = on();
    let t = feedback_target(&s, &Some("mbid".to_string())).unwrap();
    assert_eq!(t, ("mbid".to_string(), "tok".to_string()));
    assert!(feedback_target(&s, &Some("  ".to_string())).is_none());
    assert!(feedback_target(&s, &None).is_none());
}

#[test]
fn listen_fills_in_missing_names_and_milliseconds() {
    let mut t = track("Karma Police", 264);
    let l = listen_of(&t);
    assert_eq!(l.artist, "Radiohead");
    assert_eq!(l.duration_ms, Some(264_000));
    assert_eq!(l.track_number, Some(6));
    t.artist = None;
    t.title = None;
    t.length_nanosec = Some(-1_500_000);
    let l = listen_of(&t);
    assert_eq!((l.artist.as_str(), l.track.as_str()), ("Unknown Artist", "Unknown Track"));
    assert_eq!(l.duration_ms, Some(-1));
}

#[test]
fn token_validation_steps() {
    assert_eq!(token_to_validate("  abc "), Ok("abc".to_string()));
    assert_eq!(token_to_validate("   "), Err("Token cannot be empty".to_string()));
    assert_eq!(validation_outcome(true, Some("soltys".to_string()), None), Ok("soltys".to_string()));
    assert_eq!(validation_outcome(false, None, Some("Invalid token.".to_string())), Err("Invalid token.".to_string()));
    assert_eq!(validation_outcome(false, None, None), Err("Invalid token".to_string()));
    assert_eq!(validation_outcome(true, None, None), Err("Validated, but no username returned".to_string()));
    let mut s = on();
    assert!(!s.adopt_username("tok", "soltys"));
    s.listenbrainz_token = "tok".to_string();
    assert!(s.adopt_username("tok", "soltys"));
    assert_eq!(s.listenbrainz_username.as_deref(), Some("soltys"));
}

#[test]
fn cache_batches_oldest_first_and_settles_outcomes() {
    let mut c = ScrobbleCache::new();
    let l = listen_of(&track("A", 200));
    assert_eq!(c.enqueue(&l, 100, 50), Ok(1));
    assert_eq!(c.enqueue(&l, 101, 10), Ok(2));
    assert_eq!(c.enqueue(&l, 102, 30), Ok(3));
    let b = c.batch();
    let ids: Vec<i64> = b.iter().map(|e| e.id).collect();
    assert_eq!(ids, vec![2, 3, 1]);
    assert_eq!(listen_type(b.len()), "import");
    assert_eq!(listen_type(1), "single");
    c.record_failure(&[2, 3], 999, "HTTP 500: boom");
    let st = c.status();
    assert_eq!(st.pending_count, 3);
    assert_eq!(st.last_attempt, Some(999));
    assert_eq!(st.last_error.as_deref(), Some("HTTP 500: boom"));
    assert_eq!(c.entries[1].attempts, 1);
    assert_eq!(c.entries[0].attempts, 0);
    assert_eq!(c.record_sent(&[2, 3]), 2);
    let left: Vec<i64> = c.entries.iter().map(|e| e.id).collect();
    assert_eq!(left, vec![1]);
    assert_eq!(c.status().last_attempt, None);
}

#[test]
fn cache_batches_at_most_fifty() {
    let mut c = ScrobbleCache::new();
    let l = listen_of(&track("A", 200));
    for i in 0..60 {
        c.enqueue(&l, i, 1000 - i).unwrap();
    }
    let b = c.batch();
    assert_eq!(b.len(), 50);
    assert_eq!(b[0].id, 60);
}

#[test]
fn rejection_messages_carry_the_status() {
    assert_eq!(rejection_message(401, Some("bad token".to_string())), "HTTP 401: bad token");
    assert_eq!(rejection_message(503, None), "HTTP 503: HTTP error 503");
}

#[test]
fn flushing_needs_a_token() {
    let s = on();
    assert!(flush_allowed(&s));
    let mut t = on();
    t.listenbrainz_token = String::new();
    assert!(!flush_allowed(&t));
    assert_eq!(manual_flush_token(&t), Err("ListenBrainz user token is not configured".to_string()));
    assert_eq!(manual_flush_token(&s), Ok("  tok  ".to_string()));
}
