use luminous::auto_sync::{
    daypart_candidates, daypart_is_current, daypart_writes, format_bpm_range_spec, format_daypart_spec,
    missing_metadata_action, pick_daypart_grouping, plan_auto_playlists, resolve_grouping, AutoAction, AutoRow,
    AutoWanted, DaypartCandidate,
};
use luminous::tag_views::{TagGroup, TagGroupChild};

fn row(id: i64, spec: &str, updated: i64) -> AutoRow {
    AutoRow { id, spec: spec.to_string(), updated }
}

fn want(key: &str, matching: i64) -> AutoWanted {
    AutoWanted { key: key.to_string(), name: key.to_string(), matching }
}

fn describe(a: &AutoAction) -> String {
    match a {
        AutoAction::Delete { id } => format!("delete {id}"),
        AutoAction::Refresh { id, key, .. } => format!("refresh {id} {key}"),
        AutoAction::Create { spec, .. } => format!("create {spec}"),
    }
}

const NOW: i64 = 1_000_000;

#[test]
fn plan_prunes_unwanted_and_creates_only_above_the_minimum() {
    let rows = vec![row(1, "tag:Metal", NOW), row(2, "decade:1980s", 0), row(3, "tag:Gone", NOW), row(4, "TAG:odd", NOW)];
    let wanted = vec![want("Metal", 30), want("Jazz", 25), want("Polka", 24)];
    let plan: Vec<String> = plan_auto_playlists(&rows, "tag:", &wanted, false, NOW).iter().map(describe).collect();
    assert_eq!(plan, vec!["delete 3", "delete 4", "create tag:Jazz"]);
}

#[test]
fn plan_refreshes_stale_rows_and_deletes_emptied_ones() {
    let rows = vec![row(1, "decade:1980s", NOW - 86_401), row(2, "decade:1990s", NOW - 86_400), row(3, "decade:2000s", 0)];
    let wanted = vec![want("1980s", 3), want("1990s", 40), want("2000s", 0)];
    let plan: Vec<String> = plan_auto_playlists(&rows, "decade:", &wanted, false, NOW).iter().map(describe).collect();
    assert_eq!(plan, vec!["refresh 1 1980s", "delete 3"]);
}

#[test]
fn artist_tag_pruning_ignores_ascii_case() {
    let rows = vec![row(1, "artisttag:Canadian", NOW), row(2, "artisttag:french", NOW)];
    let wanted = vec![want("canadian", 30)];
    let plan: Vec<String> = plan_auto_playlists(&rows, "artisttag:", &wanted, true, NOW).iter().map(describe).collect();
    // The stored "Canadian" row survives the prune but is not the exact spec,
    // so a row with the exact spec is made.
    assert_eq!(plan, vec!["delete 2", "create artisttag:canadian"]);
}

#[test]
fn missing_metadata_is_made_and_kept_fresh() {
    assert_eq!(describe(&missing_metadata_action(None, NOW).unwrap()), "create missingmeta");
    let fresh = row(7, "missingmeta", NOW - 10);
    assert!(missing_metadata_action(Some(&fresh), NOW).is_none());
    let stale = row(7, "missingmeta", NOW - 90_000);
    assert_eq!(describe(&missing_metadata_action(Some(&stale), NOW).unwrap()), "refresh 7 ");
}

#[test]
fn bpm_specs_format_whole_bounds() {
    assert_eq!(format_bpm_range_spec(60, Some(90)), "bpmrange:60-90");
    assert_eq!(format_bpm_range_spec(150, None), "bpmrange:150-");
}

#[test]
fn daypart_spec_round_trip() {
    let spec = format_daypart_spec("morning", "2024-05-01", "Rock");
    assert_eq!(spec, "daypart:morning:2024-05-01:Rock");
    assert!(daypart_is_current(&spec, "morning", "2024-05-01"));
    assert!(!daypart_is_current(&spec, "evening", "2024-05-01"));
    assert!(!daypart_is_current(&spec, "morning", "2024-05-02"));
    assert!(daypart_is_current("daypart:latenight:2024-05-01", "latenight", "2024-05-01"));
    assert!(!daypart_is_current("mix:morning:2024-05-01", "morning", "2024-05-01"));
    assert!(daypart_writes(true, 0));
    assert!(!daypart_writes(false, 24));
    assert!(daypart_writes(false, 25));
}

fn hierarchy() -> Vec<TagGroup> {
    vec![TagGroup {
        name: "Rock".to_string(),
        color_index: 0,
        song_count: 408,
        children: vec![
            TagGroupChild { name: "Soft Rock".to_string(), song_count: 10 },
            TagGroupChild { name: "Punk".to_string(), song_count: 40 },
        ],
    }]
}

#[test]
fn daypart_candidates_resolve_small_chips_to_their_card() {
    let cs = daypart_candidates(&hierarchy());
    let names: Vec<&str> = cs.iter().map(|c| c.name.as_str()).collect();
    assert_eq!(names, vec!["Rock", "Soft Rock", "Punk"]);
    assert_eq!(resolve_grouping(&cs[1]).as_deref(), Some("Rock"));
    assert_eq!(resolve_grouping(&cs[2]).as_deref(), Some("Punk"));
    let tiny = DaypartCandidate { name: "Tiny".to_string(), song_count: 3, parent: Some(("Small".to_string(), 5)) };
    assert_eq!(resolve_grouping(&tiny), None);
    let picked = pick_daypart_grouping(&hierarchy()).unwrap();
    assert!(picked == "Rock" || picked == "Punk");
    assert_eq!(pick_daypart_grouping(&[]), None);
}
