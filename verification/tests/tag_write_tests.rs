use luminous::tag_write::{tag_edit_plan, TagEdit};

fn edit() -> TagEdit {
    TagEdit {
        title: "Song".to_string(),
        titlesort: Some("  Song, The ".to_string()),
        artist: "A; B ;; C".to_string(),
        artistsort: Some("   ".to_string()),
        album: "Album".to_string(),
        albumsort: None,
        album_artist: "Various".to_string(),
        album_artist_sort: Some("Various".to_string()),
        composer: "".to_string(),
        composersort: None,
        genre: "Metal; Symphonic Metal".to_string(),
        track: Some(3),
        disc: None,
        year: Some(70000),
        grouping: " g ".to_string(),
        initial_key: "Am".to_string(),
        compilation: true,
    }
}

#[test]
fn tag_edit_plan_splits_multi_values_and_trims_sort_fields() {
    let p = tag_edit_plan(&edit());
    assert_eq!(p.title, "Song");
    assert_eq!(p.title_sort.as_deref(), Some("Song, The"));
    assert_eq!(p.artist_sort, None);
    assert_eq!(p.album_sort, None);
    assert_eq!(p.album_artist_sort.as_deref(), Some("Various"));
    assert_eq!(p.artists, vec!["A", "B", "C"]);
    assert_eq!(p.genres, vec!["Metal", "Symphonic Metal"]);
    assert!(p.composers.is_empty());
    assert_eq!(p.grouping, " g ");
    assert_eq!(p.compilation, "1");
    assert_eq!(p.track, Some(3));
    assert_eq!(p.disc, None);
    assert_eq!(p.year, Some(70000u32 as u16));
}

#[test]
fn tag_edit_plan_writes_compilation_off_as_zero() {
    let mut e = edit();
    e.compilation = false;
    e.year = None;
    let p = tag_edit_plan(&e);
    assert_eq!(p.compilation, "0");
    assert_eq!(p.year, None);
}
