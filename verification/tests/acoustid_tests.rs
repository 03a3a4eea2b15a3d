use luminous::acoustid::acoustid_key;
use luminous::acoustid::{suggested_tags, AcoustIdDate, AcoustIdRecording, AcoustIdRelease};

#[test]
fn suggestions_take_the_first_of_each_and_the_first_readable_year() {
    let rec = AcoustIdRecording {
        title: Some("Karma Police".to_string()),
        artists: Some(vec!["Radiohead".to_string(), "Other".to_string()]),
        release_groups: Some(vec![None]),
        releases: Some(vec![
            AcoustIdRelease { title: Some("OK Computer".to_string()), date: Some(AcoustIdDate::Full("n/a".to_string())) },
            AcoustIdRelease { title: None, date: None },
            AcoustIdRelease { title: None, date: Some(AcoustIdDate::Full("1997-05-21".to_string())) },
            AcoustIdRelease { title: None, date: Some(AcoustIdDate::Year(2009)) },
        ]),
    };
    let t = suggested_tags(&rec);
    assert_eq!(t.title.as_deref(), Some("Karma Police"));
    assert_eq!(t.artist.as_deref(), Some("Radiohead"));
    assert_eq!(t.album.as_deref(), Some("OK Computer"));
    assert_eq!(t.year, Some(1997));
}

#[test]
fn suggestions_prefer_the_release_group_title() {
    let rec = AcoustIdRecording {
        title: None,
        artists: Some(vec![]),
        release_groups: Some(vec![Some("Group".to_string())]),
        releases: Some(vec![AcoustIdRelease { title: Some("Release".to_string()), date: Some(AcoustIdDate::Year(2001)) }]),
    };
    let t = suggested_tags(&rec);
    assert_eq!(t.title, None);
    assert_eq!(t.artist, None);
    assert_eq!(t.album.as_deref(), Some("Group"));
    assert_eq!(t.year, Some(2001));
}

#[test]
fn acoustid_key_prefers_the_given_key_and_refuses_blank_ones() {
    assert_eq!(acoustid_key(Some("abc".to_string()), Some("env".to_string())), Ok("abc".to_string()));
    assert_eq!(acoustid_key(None, Some("env".to_string())), Ok("env".to_string()));
    assert_eq!(acoustid_key(Some("  ".to_string()), Some("env".to_string())), Err("NO_API_KEY".to_string()));
    assert_eq!(acoustid_key(None, None), Err("NO_API_KEY".to_string()));
}
