use luminous::playlist::is_reserved_playlist_name;
use luminous::auto_sync::{daypart_bucket_for_hour, to_title_case};
use luminous::errors::join_error_chain;
use luminous::restart::should_notify_update;
use luminous::scheduler::{interval_secs, next_run_at, RemoteKind};
use luminous::stats::{range_start_unix, StatsRange, SECONDS_PER_DAY};

#[test]
fn test_daypart_bucket_for_hour_matches_home_greeting_boundaries() {
    assert_eq!(daypart_bucket_for_hour(5).0, "morning");
    assert_eq!(daypart_bucket_for_hour(11).0, "morning");
    assert_eq!(daypart_bucket_for_hour(12).0, "afternoon");
    assert_eq!(daypart_bucket_for_hour(16).0, "afternoon");
    assert_eq!(daypart_bucket_for_hour(17).0, "evening");
    assert_eq!(daypart_bucket_for_hour(20).0, "evening");
    assert_eq!(daypart_bucket_for_hour(21).0, "latenight");
    assert_eq!(daypart_bucket_for_hour(4).0, "latenight");
    assert_eq!(daypart_bucket_for_hour(0).0, "latenight");
}

#[test]
fn daypart_names_match_buckets() {
    assert_eq!(daypart_bucket_for_hour(8), ("morning", "Morning Mix"));
    assert_eq!(daypart_bucket_for_hour(13), ("afternoon", "Afternoon Mix"));
    assert_eq!(daypart_bucket_for_hour(18), ("evening", "Evening Mix"));
    assert_eq!(daypart_bucket_for_hour(23), ("latenight", "Late Night Mix"));
    assert_eq!(daypart_bucket_for_hour(100), ("latenight", "Late Night Mix"));
}

#[test]
fn title_case_capitalizes_each_word() {
    assert_eq!(to_title_case("prog-rock"), "Prog-Rock");
    assert_eq!(to_title_case("canadian"), "Canadian");
    assert_eq!(to_title_case("hIP hOP"), "Hip Hop");
    assert_eq!(to_title_case(""), "");
    assert_eq!(to_title_case("élan vital"), "Élan Vital");
}

#[test]
fn test_notifies_when_msix_version_changed() {
    assert!(should_notify_update("msix", Some("1.0.0"), "1.1.0"));
}

#[test]
fn test_does_not_notify_when_version_unchanged() {
    assert!(!should_notify_update("msix", Some("1.1.0"), "1.1.0"));
}

#[test]
fn test_does_not_notify_on_first_launch() {
    assert!(!should_notify_update("msix", None, "1.1.0"));
}

#[test]
fn test_does_not_notify_for_non_msix_formats() {
    assert!(!should_notify_update("windows_setup", Some("1.0.0"), "1.1.0"));
    assert!(!should_notify_update("deb", Some("1.0.0"), "1.1.0"));
}

#[test]
fn test_range_start_unix() {
    let now = 1_700_000_000;
    assert_eq!(
        range_start_unix(StatsRange::SevenDays, now),
        now - 7 * SECONDS_PER_DAY
    );
    assert_eq!(
        range_start_unix(StatsRange::TwentyEightDays, now),
        now - 28 * SECONDS_PER_DAY
    );
    assert_eq!(
        range_start_unix(StatsRange::OneYear, now),
        now - 365 * SECONDS_PER_DAY
    );
}

#[test]
fn test_stats_range_parse() {
    assert_eq!(StatsRange::parse("7d"), Some(StatsRange::SevenDays));
    assert_eq!(StatsRange::parse("28d"), Some(StatsRange::TwentyEightDays));
    assert_eq!(StatsRange::parse("1y"), Some(StatsRange::OneYear));
    assert_eq!(StatsRange::parse("bogus"), None);
}

#[test]
fn stats_range_names_round_trip() {
    for r in [StatsRange::SevenDays, StatsRange::TwentyEightDays, StatsRange::OneYear] {
        assert_eq!(StatsRange::parse(r.as_str()), Some(r));
    }
    assert_eq!(StatsRange::OneYear.days(), 365);
    assert_eq!(StatsRange::parse("7D"), None);
}

#[test]
fn remote_kinds_name_their_tables() {
    assert_eq!(RemoteKind::all(), [RemoteKind::WebDav, RemoteKind::Subsonic]);
    assert_eq!(RemoteKind::WebDav.table(), "webdav_servers");
    assert_eq!(RemoteKind::Subsonic.table(), "subsonic_servers");
    assert_eq!(RemoteKind::WebDav.label(), "WebDAV");
    assert_eq!(RemoteKind::Subsonic.label(), "OpenSubsonic");
}

#[test]
fn schedule_interval_is_at_least_a_minute() {
    assert_eq!(interval_secs(0), 60);
    assert_eq!(interval_secs(-5), 60);
    assert_eq!(interval_secs(15), 900);
    assert_eq!(next_run_at(1_000, 900), 1_900);
}

#[test]
fn error_chain_joins_distinct_messages() {
    let msgs = vec![
        "failed to write Mpeg file".to_string(),
        "failed to write ID3v2 tag".to_string(),
        "disk full (os error 28)".to_string(),
    ];
    assert_eq!(
        join_error_chain(&msgs),
        "failed to write Mpeg file: failed to write ID3v2 tag: disk full (os error 28)"
    );
    let repeated = vec!["a".to_string(), "b".to_string(), "a".to_string()];
    assert_eq!(join_error_chain(&repeated), "a: b");
    assert_eq!(join_error_chain(&[]), "");
}

#[test]
fn reserved_playlist_names_ignore_case_and_whitespace() {
    assert!(is_reserved_playlist_name("Queue"));
    assert!(is_reserved_playlist_name("  QUEUE  "));
    assert!(is_reserved_playlist_name("File D'Attente"));
    assert!(!is_reserved_playlist_name("Chill Mix"));
    assert!(!is_reserved_playlist_name("Queues"));
}

#[derive(Debug)]
struct Level2;
impl std::fmt::Display for Level2 {
    fn fmt(&self, f: &mut std::fmt::Formatter<'_>) -> std::fmt::Result {
        f.write_str("disk full (os error 28)")
    }
}
impl std::error::Error for Level2 {}

#[derive(Debug)]
struct Level1(Level2);
impl std::fmt::Display for Level1 {
    fn fmt(&self, f: &mut std::fmt::Formatter<'_>) -> std::fmt::Result {
        f.write_str("failed to write ID3v2 tag")
    }
}
impl std::error::Error for Level1 {
    fn source(&self) -> Option<&(dyn std::error::Error + 'static)> {
        Some(&self.0)
    }
}

#[derive(Debug)]
struct Top(Level1);
impl std::fmt::Display for Top {
    fn fmt(&self, f: &mut std::fmt::Formatter<'_>) -> std::fmt::Result {
        f.write_str("failed to write Mpeg file")
    }
}
impl std::error::Error for Top {
    fn source(&self) -> Option<&(dyn std::error::Error + 'static)> {
        Some(&self.0)
    }
}

/// An error and its causes, outermost first, as the chain reports them.
fn chain_messages(err: &dyn std::error::Error) -> Vec<String> {
    let mut out = vec![err.to_string()];
    let mut current = err.source();
    while let Some(cause) = current {
        out.push(cause.to_string());
        current = cause.source();
    }
    out
}

#[test]
fn test_format_error_chain_unpacks_nested_sources() {
    let top = Top(Level1(Level2));
    assert_eq!(
        join_error_chain(&chain_messages(&top)),
        "failed to write Mpeg file: failed to write ID3v2 tag: disk full (os error 28)"
    );
}
