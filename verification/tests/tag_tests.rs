use luminous::tags::{join_multi_value, parse_multi_value, take_limit, TagManager};

#[test]
fn test_rewrite_genre_for_merge_preserves_position_and_dedupes() {
    assert_eq!(
        TagManager::rewrite_genre_for_merge(
            "Metal; Prog Metal",
            "Prog Metal",
            "Progressive Metal"
        ),
        "Metal; Progressive Metal"
    );
    // Merging into a name already present elsewhere in the list dedupes.
    assert_eq!(
        TagManager::rewrite_genre_for_merge(
            "Prog Metal; Progressive Metal",
            "Prog Metal",
            "Progressive Metal"
        ),
        "Progressive Metal"
    );
    // Unaffected songs pass through unchanged.
    assert_eq!(
        TagManager::rewrite_genre_for_merge("Ambient", "Prog Metal", "Progressive Metal"),
        "Ambient"
    );
}

#[test]
fn test_rewrite_genre_for_delete_strips_names() {
    assert_eq!(
        TagManager::rewrite_genre_for_delete(
            "Metal; Progressive Metal; Symphonic Metal",
            &["Progressive Metal".to_string()]
        ),
        "Metal; Symphonic Metal"
    );
}

#[test]
fn merge_matches_case_insensitively() {
    assert_eq!(
        TagManager::rewrite_genre_for_merge("metal; PROG METAL", "Prog Metal", "Progressive Metal"),
        "metal; Progressive Metal"
    );
}

#[test]
fn delete_matches_case_insensitively_and_can_empty_the_field() {
    assert_eq!(
        TagManager::rewrite_genre_for_delete("Rock; rock", &["ROCK".to_string()]),
        ""
    );
}

#[test]
fn multi_values_split_trim_and_join() {
    assert_eq!(
        parse_multi_value(" Metal ;;Symphonic Metal; "),
        vec!["Metal".to_string(), "Symphonic Metal".to_string()]
    );
    assert!(parse_multi_value("").is_empty());
    assert_eq!(
        join_multi_value(&["A".to_string(), "B".to_string(), "C".to_string()]),
        "A; B; C"
    );
    assert_eq!(join_multi_value(&[]), "");
}

#[test]
fn songs_containing_any_matches_whole_values() {
    let rows = vec![
        (1, "/a.mp3".to_string(), "Rock".to_string()),
        (2, "/b.mp3".to_string(), "Prog Rock".to_string()),
        (3, "/c.mp3".to_string(), "Jazz; ROCK".to_string()),
    ];
    let hits = TagManager::songs_containing_any(&rows, &["rock".to_string()]);
    let ids: Vec<i64> = hits.iter().map(|r| r.0).collect();
    assert_eq!(ids, vec![1, 3]);
}

#[test]
fn negative_limit_means_no_limit() {
    assert_eq!(take_limit(-1), usize::MAX);
    assert_eq!(take_limit(0), 0);
    assert_eq!(take_limit(25), 25);
}

#[test]
fn merging_or_deleting_twice_changes_nothing_more() {
    let g = "Rock; hard rock;  Pop ;Hard Rock; Jazz";
    let merged = TagManager::rewrite_genre_for_merge(g, "Hard Rock", "Rock");
    assert_eq!(merged, "Rock; Pop; Jazz");
    assert_eq!(TagManager::rewrite_genre_for_merge(&merged, "Hard Rock", "Rock"), merged);
    let names = vec!["pop".to_string()];
    let deleted = TagManager::rewrite_genre_for_delete(g, &names);
    assert_eq!(deleted, "Rock; hard rock; Hard Rock; Jazz");
    assert_eq!(TagManager::rewrite_genre_for_delete(&deleted, &names), deleted);
}
