use luminous::tags::{parse_multi_value, TagAssignmentRow, TagGroupRow, TagManager};
use luminous::tag_views::{Tag, TagGroup};

fn lists(genres: &[&str]) -> Vec<Vec<String>> {
    genres.iter().map(|g| parse_multi_value(g)).filter(|l| !l.is_empty()).collect()
}

fn card<'a>(m: &'a TagManager, name: &str) -> Option<&'a TagGroupRow> {
    m.groups.iter().find(|g| g.name == name)
}

fn chip<'a>(m: &'a TagManager, name: &str) -> Option<&'a TagAssignmentRow> {
    m.assignments.iter().find(|a| a.tag_name == name)
}

#[test]
fn reconcile_builds_cards_and_chips_from_scratch() {
    let mut m = TagManager::new();
    let l = lists(&["Rock; Indie", "Rock; Punk", "Jazz"]);
    assert_eq!(m.reconcile_hierarchy(&l), Ok(true));
    assert_eq!(m.groups.len(), 2);
    let rock = card(&m, "Rock").unwrap();
    assert_eq!((rock.id, rock.color_index, rock.sort_order), (1, 0, 0));
    let jazz = card(&m, "Jazz").unwrap();
    assert_eq!((jazz.id, jazz.color_index, jazz.sort_order), (2, 1, 1));
    let indie = chip(&m, "Indie").unwrap();
    assert_eq!((indie.group_id, indie.sort_order), (1, 0));
    let punk = chip(&m, "Punk").unwrap();
    assert_eq!((punk.group_id, punk.sort_order), (1, 1));
    assert_eq!(m.next_group_id, 3);
    // Nothing new: a second pass changes nothing.
    assert_eq!(m.reconcile_hierarchy(&l), Ok(false));
    assert_eq!(m.groups.len(), 2);
    assert_eq!(m.assignments.len(), 2);
}

#[test]
fn reconcile_puts_a_chip_under_the_root_it_follows_most() {
    let mut m = TagManager::new();
    let l = lists(&["Metal; Doom", "Rock; Doom", "Rock; Doom"]);
    assert_eq!(m.reconcile_hierarchy(&l), Ok(true));
    let rock = card(&m, "Rock").unwrap().id;
    assert_eq!(chip(&m, "Doom").unwrap().group_id, rock);
}

#[test]
fn reconcile_breaks_a_tie_for_the_root_seen_first() {
    let mut m = TagManager::new();
    let l = lists(&["Metal; Doom", "Rock; Doom"]);
    assert_eq!(m.reconcile_hierarchy(&l), Ok(true));
    let metal = card(&m, "Metal").unwrap().id;
    assert_eq!(chip(&m, "Doom").unwrap().group_id, metal);
}

#[test]
fn reconcile_evicts_an_unused_card_with_its_chips() {
    let mut m = TagManager::new();
    assert_eq!(m.reconcile_hierarchy(&lists(&["Metal; Doom", "Rock"])), Ok(true));
    let before = m.next_group_id;
    assert_eq!(m.reconcile_hierarchy(&lists(&["Rock", "Doom"])), Ok(true));
    assert!(card(&m, "Metal").is_none());
    // Doom's chip went with the Metal card; its key stays noted, so it is
    // not re-created in the same pass.
    assert!(chip(&m, "Doom").is_none());
    assert!(card(&m, "Doom").is_none());
    assert_eq!(m.next_group_id, before);
    // The next pass gives Doom (now a main genre) its own card.
    assert_eq!(m.reconcile_hierarchy(&lists(&["Rock", "Doom"])), Ok(true));
    assert_eq!(card(&m, "Doom").unwrap().id, before);
}

#[test]
fn reconcile_strips_a_chip_named_like_a_card() {
    let mut m = TagManager::new();
    assert_eq!(m.reconcile_hierarchy(&lists(&["Metal", "Rock"])), Ok(true));
    let metal = card(&m, "Metal").unwrap().id;
    m.assignments.push(TagAssignmentRow { tag_name: "rock".to_string(), group_id: metal, sort_order: 0 });
    assert_eq!(m.reconcile_hierarchy(&lists(&["Metal", "Rock"])), Ok(true));
    assert!(m.assignments.is_empty());
    assert!(card(&m, "Rock").is_some());
}

#[test]
fn reconcile_keeps_a_demoted_card_a_chip() {
    let mut m = TagManager::new();
    let l = lists(&["Alternative", "Shoegaze"]);
    assert_eq!(m.reconcile_hierarchy(&l), Ok(true));
    let alt = card(&m, "Alternative").unwrap().id;
    m.groups.retain(|g| g.name != "Shoegaze");
    m.assignments.push(TagAssignmentRow { tag_name: "Shoegaze".to_string(), group_id: alt, sort_order: 0 });
    assert_eq!(m.reconcile_hierarchy(&l), Ok(false));
    assert!(card(&m, "Shoegaze").is_none());
    assert_eq!(chip(&m, "Shoegaze").unwrap().group_id, alt);
}

#[test]
fn reconcile_never_moves_an_existing_chip() {
    let mut m = TagManager::new();
    assert_eq!(m.reconcile_hierarchy(&lists(&["Metal; Doom", "Rock"])), Ok(true));
    let rock = card(&m, "Rock").unwrap().id;
    m.assignments[0].group_id = rock;
    m.assignments[0].sort_order = 7;
    assert_eq!(m.reconcile_hierarchy(&lists(&["Metal; Doom", "Metal; Doom", "Rock"])), Ok(false));
    let doom = chip(&m, "Doom").unwrap();
    assert_eq!((doom.group_id, doom.sort_order), (rock, 7));
}

#[test]
fn reconcile_counts_on_from_the_largest_sort_orders() {
    let mut m = TagManager::new();
    m.groups.push(TagGroupRow { id: 9, name: "Rock".to_string(), color_index: 4, sort_order: 5 });
    m.next_group_id = 10;
    assert_eq!(m.reconcile_hierarchy(&lists(&["Rock", "Jazz; Bebop"])), Ok(true));
    let jazz = card(&m, "Jazz").unwrap();
    // One card existed: the palette index follows the card count.
    assert_eq!((jazz.id, jazz.color_index, jazz.sort_order), (10, 1, 6));
    assert_eq!(chip(&m, "Bebop").unwrap().group_id, 10);
}

#[test]
fn reconcile_refuses_when_ids_would_overflow() {
    let mut m = TagManager::new();
    m.next_group_id = i64::MAX;
    assert!(m.reconcile_hierarchy(&lists(&["Rock"])).is_err());
    assert!(m.groups.is_empty());
    assert_eq!(m.next_group_id, i64::MAX);
}

/// A small library: each song's genre field, in storage order.
struct Library {
    genres: Vec<String>,
}

impl Library {
    fn new() -> Self {
        Library { genres: Vec::new() }
    }
    fn insert_song(&mut self, genre: &str) {
        self.genres.push(genre.to_string());
    }
    fn lists(&self) -> Vec<Vec<String>> {
        self.genres.iter().map(|g| parse_multi_value(g)).filter(|l| !l.is_empty()).collect()
    }
    fn rows(&self) -> Vec<(i64, String, String)> {
        self.genres.iter().enumerate().map(|(i, g)| (i as i64 + 1, format!("/{i}.mp3"), g.clone())).collect()
    }
    fn songs_with_tag(&self, tag: &str) -> usize {
        self.genres
            .iter()
            .filter(|g| parse_multi_value(g).iter().any(|v| v.to_lowercase() == tag.to_lowercase()))
            .count()
    }
}

fn hierarchy(m: &TagManager, lib: &Library) -> Vec<TagGroup> {
    m.get_tag_hierarchy(&lib.lists())
}

fn reconcile(m: &mut TagManager, lib: &Library) -> bool {
    m.reconcile_hierarchy(&lib.lists()).unwrap()
}

#[test]
fn test_list_all_tags_splits_and_dedupes_case_insensitively() {
    let mut lib = Library::new();
    lib.insert_song("Metal; Symphonic Metal");
    lib.insert_song("metal");
    let tags = TagManager::list_all_tags(&lib.lists());
    assert_eq!(tags.len(), 2);
    let metal = tags.iter().find(|t| t.name.eq_ignore_ascii_case("metal")).unwrap();
    assert_eq!(metal.song_count, 2);
}

#[test]
fn test_get_tags_overview_matches_separate_calls() {
    let mut lib = Library::new();
    lib.insert_song("Metal; Symphonic Metal");
    lib.insert_song("Ambient");
    let (tags, graph, no_genre_count) = TagManager::get_tags_overview(&lib.lists(), 0);
    assert_eq!(tags, TagManager::list_all_tags(&lib.lists()));
    assert_eq!(graph, TagManager::get_genre_graph(&lib.lists()));
    assert_eq!(no_genre_count, 0);
}

#[test]
fn list_all_tags_orders_by_lowercase_name_and_keeps_first_spelling() {
    let l = lists(&["rock; Ambient", "ROCK", "ambient; Zydeco"]);
    let tags = TagManager::list_all_tags(&l);
    let got: Vec<(String, i64)> = tags.into_iter().map(|t: Tag| (t.name, t.song_count)).collect();
    assert_eq!(
        got,
        vec![("Ambient".to_string(), 2), ("rock".to_string(), 2), ("Zydeco".to_string(), 1)]
    );
}

#[test]
fn test_genre_graph_star_relationship_and_lone_root() {
    let mut lib = Library::new();
    lib.insert_song("Metal; Progressive Metal; Symphonic Metal");
    lib.insert_song("Ambient");
    let graph = TagManager::get_genre_graph(&lib.lists());
    let metal = graph.iter().find(|g| g.main_tag == "Metal").unwrap();
    assert_eq!(metal.song_count, 1);
    let child_names: Vec<&str> = metal.children.iter().map(|c| c.name.as_str()).collect();
    assert!(child_names.contains(&"Progressive Metal"));
    assert!(child_names.contains(&"Symphonic Metal"));
    let ambient = graph.iter().find(|g| g.main_tag == "Ambient").unwrap();
    assert_eq!(ambient.song_count, 1);
    assert!(ambient.children.is_empty());
}

#[test]
fn test_genre_graph_same_tag_under_multiple_parents() {
    let mut lib = Library::new();
    lib.insert_song("Metal; Symphonic Metal");
    lib.insert_song("Classical; Symphonic Metal");
    let graph = TagManager::get_genre_graph(&lib.lists());
    let metal = graph.iter().find(|g| g.main_tag == "Metal").unwrap();
    assert!(metal.children.iter().any(|c| c.name == "Symphonic Metal"));
    let classical = graph.iter().find(|g| g.main_tag == "Classical").unwrap();
    assert!(classical.children.iter().any(|c| c.name == "Symphonic Metal"));
}

#[test]
fn genre_graph_counts_and_orders_groups_and_children() {
    let l = lists(&["rock; Punk; indie", "Rock; Indie", "Ambient"]);
    let graph = TagManager::get_genre_graph(&l);
    assert_eq!(graph.len(), 2);
    assert_eq!((graph[0].main_tag.as_str(), graph[0].song_count), ("Ambient", 1));
    assert_eq!((graph[1].main_tag.as_str(), graph[1].song_count), ("rock", 2));
    let kids: Vec<(&str, i64)> = graph[1].children.iter().map(|c| (c.name.as_str(), c.song_count)).collect();
    assert_eq!(kids, vec![("indie", 2), ("Punk", 1)]);
}

#[test]
fn test_hierarchy_reflects_existing_genres_after_reconcile() {
    let mut lib = Library::new();
    lib.insert_song("Metal; Progressive Metal");
    lib.insert_song("Metal; Symphonic Metal");
    lib.insert_song("Ambient");
    let mut m = TagManager::new();
    reconcile(&mut m, &lib);
    let h = hierarchy(&m, &lib);
    let metal = h.iter().find(|g| g.name == "Metal").unwrap();
    let child_names: Vec<&str> = metal.children.iter().map(|c| c.name.as_str()).collect();
    assert!(child_names.contains(&"Progressive Metal"));
    assert!(child_names.contains(&"Symphonic Metal"));
    assert!(h.iter().any(|g| g.name == "Ambient"));
}

#[test]
fn hierarchy_orders_cards_and_chips_and_counts_songs() {
    let mut lib = Library::new();
    lib.insert_song("Metal; Doom; Sludge");
    lib.insert_song("metal; doom");
    lib.insert_song("Ambient");
    let mut m = TagManager::new();
    reconcile(&mut m, &lib);
    let h = hierarchy(&m, &lib);
    let names: Vec<&str> = h.iter().map(|g| g.name.as_str()).collect();
    assert_eq!(names, vec!["Metal", "Ambient"]);
    assert_eq!(h[0].song_count, 2);
    assert_eq!(h[0].color_index, 0);
    assert_eq!(h[1].color_index, 1);
    let kids: Vec<(&str, i64)> = h[0].children.iter().map(|c| (c.name.as_str(), c.song_count)).collect();
    assert_eq!(kids, vec![("Doom", 2), ("Sludge", 1)]);
}

#[test]
fn test_reconcile_hierarchy_adds_new_tags_and_evicts_stale_ones() {
    let mut lib = Library::new();
    lib.insert_song("Metal; Symphonic Metal");
    let mut m = TagManager::new();
    assert!(reconcile(&mut m, &lib));
    assert!(!reconcile(&mut m, &lib));
    lib.insert_song("Ambient; Drone");
    assert!(reconcile(&mut m, &lib));
    let h = hierarchy(&m, &lib);
    assert!(h.iter().any(|g| g.name == "Ambient"));
    let ambient = h.iter().find(|g| g.name == "Ambient").unwrap();
    assert!(ambient.children.iter().any(|c| c.name == "Drone"));
    lib.genres.remove(0);
    assert!(reconcile(&mut m, &lib));
    let h = hierarchy(&m, &lib);
    assert!(!h.iter().any(|g| g.name == "Metal"));
}

#[test]
fn test_reconcile_hierarchy_never_links_a_top_level_genre_as_a_subgenre() {
    let mut lib = Library::new();
    lib.insert_song("Electronic; Pop");
    lib.insert_song("Pop");
    let mut m = TagManager::new();
    reconcile(&mut m, &lib);
    let h = hierarchy(&m, &lib);
    assert!(h.iter().any(|g| g.name == "Pop"), "Pop keeps its own card");
    let electronic = h.iter().find(|g| g.name == "Electronic").unwrap();
    assert!(!electronic.children.iter().any(|c| c.name == "Pop"));
}

#[test]
fn test_reconcile_hierarchy_purges_a_cross_group_conflicting_assignment() {
    let mut lib = Library::new();
    lib.insert_song("Metal");
    lib.insert_song("Rock");
    let mut m = TagManager::new();
    reconcile(&mut m, &lib);
    let metal_id = card(&m, "Metal").unwrap().id;
    m.assignments.push(TagAssignmentRow { tag_name: "Rock".to_string(), group_id: metal_id, sort_order: 0 });
    reconcile(&mut m, &lib);
    let h = hierarchy(&m, &lib);
    assert!(h.iter().any(|g| g.name == "Rock"), "Rock keeps its own card");
    let metal = h.iter().find(|g| g.name == "Metal").unwrap();
    assert!(!metal.children.iter().any(|c| c.name == "Rock"));
}

#[test]
fn test_reparent_and_promote_tag() {
    let mut lib = Library::new();
    lib.insert_song("Metal; Progressive Metal");
    lib.insert_song("Ambient");
    let mut m = TagManager::new();
    reconcile(&mut m, &lib);
    m.reparent_tag("Progressive Metal", "Ambient").unwrap();
    let h = hierarchy(&m, &lib);
    let metal = h.iter().find(|g| g.name == "Metal").unwrap();
    assert!(!metal.children.iter().any(|c| c.name == "Progressive Metal"));
    let ambient = h.iter().find(|g| g.name == "Ambient").unwrap();
    assert!(ambient.children.iter().any(|c| c.name == "Progressive Metal"));

    m.promote_tag("Progressive Metal").unwrap();
    let h = hierarchy(&m, &lib);
    assert!(h.iter().any(|g| g.name == "Progressive Metal"));
    let ambient = h.iter().find(|g| g.name == "Ambient").unwrap();
    assert!(!ambient.children.iter().any(|c| c.name == "Progressive Metal"));
}

#[test]
fn test_reparent_and_demote_refuse_a_tag_becoming_a_child_of_its_own_name() {
    let mut lib = Library::new();
    lib.insert_song("Electronic");
    lib.insert_song("Rock; Electronic");
    let mut m = TagManager::new();
    reconcile(&mut m, &lib);
    m.reparent_tag("Electronic", "Electronic").unwrap();
    let h = hierarchy(&m, &lib);
    let electronic = h.iter().find(|g| g.name == "Electronic").unwrap();
    assert!(!electronic.children.iter().any(|c| c.name == "Electronic"));
    m.demote_group_to_child("Electronic", "Electronic").unwrap();
    let h = hierarchy(&m, &lib);
    assert!(h.iter().any(|g| g.name == "Electronic"));
}

#[test]
fn test_reconcile_hierarchy_evicts_a_preexisting_self_referential_assignment() {
    let mut lib = Library::new();
    lib.insert_song("Electronic");
    let mut m = TagManager::new();
    reconcile(&mut m, &lib);
    let id = card(&m, "Electronic").unwrap().id;
    m.assignments.push(TagAssignmentRow { tag_name: "Electronic".to_string(), group_id: id, sort_order: 0 });
    reconcile(&mut m, &lib);
    let h = hierarchy(&m, &lib);
    let electronic = h.iter().find(|g| g.name == "Electronic").unwrap();
    assert!(!electronic.children.iter().any(|c| c.name == "Electronic"));
}

#[test]
fn test_demote_group_to_child_removes_own_card_and_reassigns_its_children() {
    let mut lib = Library::new();
    lib.insert_song("Electronic");
    lib.insert_song("Synth-Pop; Electronic");
    lib.insert_song("Synth-Pop; New Retro Wave");
    let mut m = TagManager::new();
    reconcile(&mut m, &lib);
    let h = hierarchy(&m, &lib);
    assert!(h.iter().any(|g| g.name == "Synth-Pop"));
    m.demote_group_to_child("Synth-Pop", "Electronic").unwrap();
    let h = hierarchy(&m, &lib);
    assert!(!h.iter().any(|g| g.name == "Synth-Pop"));
    let electronic = h.iter().find(|g| g.name == "Electronic").unwrap();
    assert!(electronic.children.iter().any(|c| c.name == "Synth-Pop"));
    assert!(!h.iter().flat_map(|g| &g.children).any(|c| c.name == "New Retro Wave"));
}

#[test]
fn test_demoted_group_is_not_resurrected_by_a_later_reconcile() {
    let mut lib = Library::new();
    lib.insert_song("Alternative");
    lib.insert_song("Shoegaze");
    let mut m = TagManager::new();
    reconcile(&mut m, &lib);
    m.demote_group_to_child("Shoegaze", "Alternative").unwrap();
    reconcile(&mut m, &lib);
    let h = hierarchy(&m, &lib);
    assert!(!h.iter().any(|g| g.name == "Shoegaze"));
    let alternative = h.iter().find(|g| g.name == "Alternative").unwrap();
    assert!(alternative.children.iter().any(|c| c.name == "Shoegaze"));
}

#[test]
fn test_reorder_tag_in_group() {
    let mut lib = Library::new();
    lib.insert_song("Metal; Progressive Metal; Symphonic Metal; Doom Metal");
    let mut m = TagManager::new();
    reconcile(&mut m, &lib);
    m.reorder_tag_in_group("Doom Metal", 0).unwrap();
    let h = hierarchy(&m, &lib);
    let metal = h.iter().find(|g| g.name == "Metal").unwrap();
    assert_eq!(metal.children[0].name, "Doom Metal");
}

#[test]
fn reorder_clamps_the_index_and_renumbers_from_zero() {
    let mut lib = Library::new();
    lib.insert_song("Metal; A; B; C");
    let mut m = TagManager::new();
    reconcile(&mut m, &lib);
    m.reorder_tag_in_group("a", 99).unwrap();
    let h = hierarchy(&m, &lib);
    let kids: Vec<&str> = h[0].children.iter().map(|c| c.name.as_str()).collect();
    assert_eq!(kids, vec!["B", "C", "A"]);
    let sorts: Vec<(String, i32)> = m.assignments.iter().map(|a| (a.tag_name.clone(), a.sort_order)).collect();
    assert_eq!(sorts, vec![("A".to_string(), 2), ("B".to_string(), 0), ("C".to_string(), 1)]);
    assert!(m.reorder_tag_in_group("Nope", 0).is_err());
}

#[test]
fn reparent_refuses_an_unknown_card_and_changes_nothing() {
    let mut lib = Library::new();
    lib.insert_song("Metal; Doom");
    let mut m = TagManager::new();
    reconcile(&mut m, &lib);
    assert!(m.reparent_tag("Doom", "Nowhere").is_err());
    assert_eq!(chip(&m, "Doom").unwrap().group_id, card(&m, "Metal").unwrap().id);
}

#[test]
fn set_group_color_wraps_into_the_palette() {
    let mut lib = Library::new();
    lib.insert_song("Metal");
    let mut m = TagManager::new();
    reconcile(&mut m, &lib);
    m.set_group_color("METAL", -3);
    assert_eq!(card(&m, "Metal").unwrap().color_index, 7);
    m.set_group_color("metal", 23);
    assert_eq!(card(&m, "Metal").unwrap().color_index, 3);
}

#[test]
fn test_merge_tags_rewrites_genre_and_hierarchy() {
    let mut lib = Library::new();
    lib.insert_song("Metal; Prog Metal");
    lib.insert_song("Metal; Progressive Metal");
    let mut m = TagManager::new();
    reconcile(&mut m, &lib);
    let affected = TagManager::songs_containing_any(&lib.rows(), &["Prog Metal".to_string()]);
    assert_eq!(affected.len(), 1);
    for (id, _path, genre) in &affected {
        let new_genre = TagManager::rewrite_genre_for_merge(genre, "Prog Metal", "Progressive Metal");
        lib.genres[(*id - 1) as usize] = new_genre;
    }
    m.apply_merge_hierarchy("Prog Metal", "Progressive Metal");
    assert_eq!(lib.songs_with_tag("Progressive Metal"), 2);
    let h = hierarchy(&m, &lib);
    let metal = h.iter().find(|g| g.name == "Metal").unwrap();
    assert!(!metal.children.iter().any(|c| c.name == "Prog Metal"));
    assert!(metal.children.iter().any(|c| c.name == "Progressive Metal"));
}

#[test]
fn test_merge_hierarchy_purges_self_referential_child() {
    let mut lib = Library::new();
    lib.insert_song("IDM");
    lib.insert_song("Electronic");
    let mut m = TagManager::new();
    reconcile(&mut m, &lib);
    let idm_id = card(&m, "IDM").unwrap().id;
    m.assignments.push(TagAssignmentRow { tag_name: "Electronic".to_string(), group_id: idm_id, sort_order: 0 });
    m.apply_merge_hierarchy("IDM", "Electronic");
    for g in lib.genres.iter_mut() {
        *g = TagManager::rewrite_genre_for_merge(g, "IDM", "Electronic");
    }
    reconcile(&mut m, &lib);
    let h = hierarchy(&m, &lib);
    let electronic = h.iter().find(|g| g.name == "Electronic").unwrap();
    assert!(!electronic.children.iter().any(|c| c.name.eq_ignore_ascii_case("Electronic")));
}

#[test]
fn merge_renames_the_card_when_the_target_has_none() {
    let mut m = TagManager::new();
    m.groups.push(TagGroupRow { id: 1, name: "Prog".to_string(), color_index: 2, sort_order: 0 });
    m.assignments.push(TagAssignmentRow { tag_name: "Zeuhl".to_string(), group_id: 1, sort_order: 0 });
    m.assignments.push(TagAssignmentRow { tag_name: "prog".to_string(), group_id: 1, sort_order: 1 });
    m.apply_merge_hierarchy("Prog", "Progressive Rock");
    assert_eq!(m.groups.len(), 1);
    assert_eq!((m.groups[0].id, m.groups[0].name.as_str(), m.groups[0].color_index), (1, "Progressive Rock", 2));
    let chips: Vec<&str> = m.assignments.iter().map(|a| a.tag_name.as_str()).collect();
    assert_eq!(chips, vec!["Zeuhl"]);
}

#[test]
fn delete_hierarchy_drops_cards_their_chips_and_chips() {
    let mut m = TagManager::new();
    m.groups.push(TagGroupRow { id: 1, name: "Metal".to_string(), color_index: 0, sort_order: 0 });
    m.groups.push(TagGroupRow { id: 2, name: "Rock".to_string(), color_index: 1, sort_order: 1 });
    m.assignments.push(TagAssignmentRow { tag_name: "Doom".to_string(), group_id: 1, sort_order: 0 });
    m.assignments.push(TagAssignmentRow { tag_name: "Punk".to_string(), group_id: 2, sort_order: 0 });
    m.assignments.push(TagAssignmentRow { tag_name: "Indie".to_string(), group_id: 2, sort_order: 1 });
    m.apply_delete_hierarchy(&["metal".to_string(), "INDIE".to_string()]);
    let cards: Vec<&str> = m.groups.iter().map(|g| g.name.as_str()).collect();
    assert_eq!(cards, vec!["Rock"]);
    let chips: Vec<&str> = m.assignments.iter().map(|a| a.tag_name.as_str()).collect();
    assert_eq!(chips, vec!["Punk"]);
}

#[test]
fn promote_adds_a_card_last_and_drops_the_chip() {
    let mut m = TagManager::new();
    m.groups.push(TagGroupRow { id: 4, name: "Metal".to_string(), color_index: 0, sort_order: 3 });
    m.next_group_id = 5;
    m.assignments.push(TagAssignmentRow { tag_name: "Doom".to_string(), group_id: 4, sort_order: 0 });
    m.promote_tag("doom").unwrap();
    assert!(m.assignments.is_empty());
    let doom = card(&m, "doom").unwrap();
    assert_eq!((doom.id, doom.color_index, doom.sort_order), (5, 1, 4));
    assert_eq!(m.next_group_id, 6);
    // A card already named so: no second one.
    m.promote_tag("METAL").unwrap();
    assert_eq!(m.groups.len(), 2);
}

fn genre_rows(lib: &Library) -> Vec<(i64, String)> {
    lib.genres.iter().enumerate().map(|(i, g)| (i as i64 + 1, g.clone())).collect()
}

#[test]
fn test_get_songs_by_tag_matches_exact_component_not_substring() {
    let mut lib = Library::new();
    lib.insert_song("Rock");
    lib.insert_song("Prog Rock");
    let songs = TagManager::get_songs_by_tag(&genre_rows(&lib), "rock", 50);
    assert_eq!(songs.len(), 1);
    assert_eq!(lib.genres[(songs[0] - 1) as usize], "Rock");
}

#[test]
fn test_get_songs_by_curated_group_matches_self_and_children_not_substrings() {
    let mut lib = Library::new();
    lib.insert_song("Metal");
    lib.insert_song("Metal; Progressive Metal");
    lib.insert_song("Doom");
    lib.insert_song("Prog Rock");
    let mut m = TagManager::new();
    reconcile(&mut m, &lib);
    m.demote_group_to_child("Doom", "Metal").unwrap();
    let songs = m.get_songs_by_curated_group(&genre_rows(&lib), "Metal", 50);
    let genres: Vec<String> = songs.iter().map(|id| lib.genres[(*id - 1) as usize].clone()).collect();
    assert_eq!(songs.len(), 3, "self + curated child (Progressive Metal) + demoted child (Doom)");
    assert!(genres.contains(&"Metal".to_string()));
    assert!(genres.contains(&"Metal; Progressive Metal".to_string()));
    assert!(genres.contains(&"Doom".to_string()));
}

#[test]
fn test_get_songs_by_curated_group_reflects_live_reparenting() {
    let mut lib = Library::new();
    lib.insert_song("Metal");
    lib.insert_song("Ambient");
    lib.insert_song("Drone");
    let mut m = TagManager::new();
    reconcile(&mut m, &lib);
    m.reparent_tag("Drone", "Ambient").unwrap();
    assert_eq!(m.get_songs_by_curated_group(&genre_rows(&lib), "Ambient", 50).len(), 2);
    m.reparent_tag("Drone", "Metal").unwrap();
    assert_eq!(m.get_songs_by_curated_group(&genre_rows(&lib), "Ambient", 50).len(), 1);
    assert_eq!(m.get_songs_by_curated_group(&genre_rows(&lib), "Metal", 50).len(), 2);
}

#[test]
fn test_get_songs_by_curated_tag_dispatches_group_vs_child() {
    let mut lib = Library::new();
    lib.insert_song("Metal; Progressive Metal");
    lib.insert_song("Ambient");
    let mut m = TagManager::new();
    reconcile(&mut m, &lib);
    assert_eq!(m.get_songs_by_curated_tag(&genre_rows(&lib), "Metal", 50).len(), 1);
    assert_eq!(m.get_songs_by_curated_tag(&genre_rows(&lib), "Progressive Metal", 50).len(), 1);
}

#[test]
fn test_get_songs_by_curated_tag_handles_colon_in_genre_value() {
    let mut lib = Library::new();
    lib.insert_song("Sci-Fi: Space Opera");
    let mut m = TagManager::new();
    reconcile(&mut m, &lib);
    assert_eq!(m.get_songs_by_curated_tag(&genre_rows(&lib), "Sci-Fi: Space Opera", 50).len(), 1);
}

#[test]
fn song_lookups_honour_the_limit() {
    let mut lib = Library::new();
    for _ in 0..5 {
        lib.insert_song("Rock");
    }
    assert_eq!(TagManager::get_songs_by_tag(&genre_rows(&lib), "ROCK", 3), vec![1, 2, 3]);
    assert_eq!(TagManager::get_songs_by_tag(&genre_rows(&lib), "rock", -1).len(), 5);
    assert_eq!(TagManager::get_songs_by_tag(&genre_rows(&lib), "rock", 0).len(), 0);
}

#[test]
fn reconcile_gives_a_card_only_when_the_main_genre_was_demoted() {
    let mut m = TagManager::new();
    m.groups.push(TagGroupRow { id: 1, name: "Rock".to_string(), color_index: 0, sort_order: 0 });
    m.assignments.push(TagAssignmentRow { tag_name: "Metal".to_string(), group_id: 1, sort_order: 0 });
    m.next_group_id = 2;
    let l = lists(&["Rock", "Metal; Sludge"]);
    assert_eq!(m.reconcile_hierarchy(&l), Ok(true));
    assert!(card(&m, "Sludge").is_some());
    assert!(chip(&m, "Sludge").is_none());
    assert!(card(&m, "Metal").is_none());
    assert!(chip(&m, "Metal").is_some());
    // A second pass finds nothing to do.
    assert_eq!(m.reconcile_hierarchy(&l), Ok(false));
    assert_eq!(m.groups.len(), 2);
    assert_eq!(m.assignments.len(), 1);
}
