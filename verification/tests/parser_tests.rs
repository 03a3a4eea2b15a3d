use luminous::parsers::{
    diff_paths, escape_xml, export_playlist, extract_xml_tag, parse_m3u, parse_pls, parse_xspf,
    unescape_xml, ExportTrack, PlaylistFormat,
};

#[test]
fn test_m3u_parser() {
    let content = r#"#EXTM3U
#EXTINF:180,Artist One - Song Alpha
/path/to/song1.mp3
#EXTINF:240,Song Beta
relative/song2.flac
"#;
    let tracks = parse_m3u(content);
    assert_eq!(tracks.len(), 2);

    assert_eq!(tracks[0].path_or_url, "/path/to/song1.mp3");
    assert_eq!(tracks[0].artist.as_deref(), Some("Artist One"));
    assert_eq!(tracks[0].title.as_deref(), Some("Song Alpha"));
    assert_eq!(tracks[0].duration_sec, Some(180));

    assert_eq!(tracks[1].path_or_url, "relative/song2.flac");
    assert_eq!(tracks[1].artist, None);
    assert_eq!(tracks[1].title.as_deref(), Some("Song Beta"));
    assert_eq!(tracks[1].duration_sec, Some(240));
}

#[test]
fn m3u_durations_round_and_ignore_nonpositive() {
    let content = "#EXTINF:2.5,A\na.mp3\r\n#EXTINF:-1,B\nb.mp3\n#EXTINF:0.4,C\nc.mp3\n# comment\n\n#EXTINF:abc,D\nd.mp3";
    let t = parse_m3u(content);
    assert_eq!(t.len(), 4);
    assert_eq!(t[0].duration_sec, Some(3));
    assert_eq!(t[1].duration_sec, None);
    assert_eq!(t[2].duration_sec, Some(0));
    assert_eq!(t[3].duration_sec, None);
    assert_eq!(t[3].title.as_deref(), Some("D"));
}

#[test]
fn test_pls_parser() {
    let content = r#"[playlist]
NumberOfEntries=2

File1=/music/track1.mp3
Title1=Cool Artist - Cool Track
Length1=210

File2=folder/track2.ogg
Title2=Another Song
Length2=150
"#;
    let tracks = parse_pls(content);
    assert_eq!(tracks.len(), 2);

    assert_eq!(tracks[0].path_or_url, "/music/track1.mp3");
    assert_eq!(tracks[0].artist.as_deref(), Some("Cool Artist"));
    assert_eq!(tracks[0].title.as_deref(), Some("Cool Track"));
    assert_eq!(tracks[0].duration_sec, Some(210));

    assert_eq!(tracks[1].path_or_url, "folder/track2.ogg");
    assert_eq!(tracks[1].title.as_deref(), Some("Another Song"));
    assert_eq!(tracks[1].duration_sec, Some(150));
}

#[test]
fn pls_orders_by_index_and_drops_entries_without_files() {
    let content = "file3=c.mp3\nTITLE2=Only a title\nFile1=a.mp3\nLength1=-5\nLength3=7\n";
    let t = parse_pls(content);
    assert_eq!(t.len(), 2);
    assert_eq!(t[0].path_or_url, "a.mp3");
    assert_eq!(t[0].duration_sec, None);
    assert_eq!(t[1].path_or_url, "c.mp3");
    assert_eq!(t[1].duration_sec, Some(7));
}

#[test]
fn test_xspf_parser() {
    let content = r#"<?xml version="1.0" encoding="UTF-8"?>
<playlist version="1" xmlns="http://xspf.org/ns/0/">
  <title>My Favorite XSPF</title>
  <trackList>
    <track>
      <location>/music/track1.mp3</location>
      <title>Track One</title>
      <creator>Creator Name</creator>
      <album>Album Title</album>
      <duration>185000</duration>
    </track>
  </trackList>
</playlist>
"#;
    let parsed = parse_xspf(content).unwrap();
    assert_eq!(parsed.title.as_deref(), Some("My Favorite XSPF"));
    assert_eq!(parsed.tracks.len(), 1);

    let t = &parsed.tracks[0];
    assert_eq!(t.path_or_url, "/music/track1.mp3");
    assert_eq!(t.title.as_deref(), Some("Track One"));
    assert_eq!(t.artist.as_deref(), Some("Creator Name"));
    assert_eq!(t.album.as_deref(), Some("Album Title"));
    assert_eq!(t.duration_sec, Some(185));
}

#[test]
fn xspf_decodes_file_uris_and_entities() {
    let content = "<track><location>file:///music/a%20b.mp3</location><title>R &amp; B</title><duration>-1500</duration></track><track><title>no location</title></track>";
    let p = parse_xspf(content).unwrap();
    assert_eq!(p.title, None);
    assert_eq!(p.tracks.len(), 1);
    assert_eq!(p.tracks[0].path_or_url, "/music/a b.mp3");
    assert_eq!(p.tracks[0].title.as_deref(), Some("R & B"));
    assert_eq!(p.tracks[0].duration_sec, Some(-1));
}

#[test]
fn test_export_playlist_m3u8() {
    let track1 = ExportTrack {
        path: "/music/album/song1.mp3".to_string(),
        title: Some("Song 1".to_string()),
        artist: Some("Artist 1".to_string()),
        album: Some("Album 1".to_string()),
        duration_sec: Some(200),
    };

    let tracks = vec![track1];
    let out = export_playlist(
        "Test",
        &tracks,
        PlaylistFormat::M3u8,
        "/music/playlist.m3u8",
        true,
    )
    .unwrap();

    assert!(out.contains("#EXTM3U"));
    assert!(out.contains("#EXTINF:200,Artist 1 - Song 1"));
    assert!(out.contains("album/song1.mp3"));
}

#[test]
fn export_pls_and_xspf_exact_text() {
    let tracks = vec![
        ExportTrack {
            path: "/m/a.mp3".to_string(),
            title: Some("T".to_string()),
            artist: None,
            album: None,
            duration_sec: None,
        },
        ExportTrack {
            path: "/m/x/b & c.flac".to_string(),
            title: None,
            artist: Some("A".to_string()),
            album: Some("<Al>".to_string()),
            duration_sec: Some(3),
        },
    ];
    let pls = export_playlist("P", &tracks, PlaylistFormat::Pls, "/m/p.pls", true).unwrap();
    assert_eq!(
        pls,
        "[playlist]\nNumberOfEntries=2\n\nFile1=a.mp3\nTitle1=T\nLength1=-1\n\nFile2=x/b & c.flac\nLength2=3\n\n"
    );
    let xspf = export_playlist("P&Q", &tracks, PlaylistFormat::Xspf, "/m/p.xspf", false).unwrap();
    assert!(xspf.contains("  <title>P&amp;Q</title>\n"));
    assert!(xspf.contains("      <location>/m/x/b &amp; c.flac</location>\n"));
    assert!(xspf.contains("      <album>&lt;Al&gt;</album>\n"));
    assert!(xspf.contains("      <duration>3000</duration>\n"));
    let m3u = export_playlist("P", &tracks[1..], PlaylistFormat::M3u, "", false).unwrap();
    assert_eq!(m3u, "#EXTM3U\n#EXTINF:3,A\n/m/x/b & c.flac\n");
}

#[test]
fn export_m3u_falls_back_to_the_file_stem() {
    let tracks = vec![ExportTrack {
        path: "/music/Some Song.flac".to_string(),
        title: None,
        artist: None,
        album: None,
        duration_sec: None,
    }];
    let out = export_playlist("P", &tracks, PlaylistFormat::M3u, "/elsewhere/p.m3u", true).unwrap();
    assert_eq!(out, "#EXTM3U\n#EXTINF:-1,Some Song\n../music/Some Song.flac\n");
}

#[test]
fn format_from_extension() {
    assert_eq!(PlaylistFormat::from_path("/a/b.M3U"), Some(PlaylistFormat::M3u));
    assert_eq!(PlaylistFormat::from_path("x.m3u8"), Some(PlaylistFormat::M3u8));
    assert_eq!(PlaylistFormat::from_path("x.pls"), Some(PlaylistFormat::Pls));
    assert_eq!(PlaylistFormat::from_path("x.xspf"), Some(PlaylistFormat::Xspf));
    assert_eq!(PlaylistFormat::from_path(".m3u"), None);
    assert_eq!(PlaylistFormat::from_path("x.txt"), None);
    assert_eq!(PlaylistFormat::from_path("/"), None);
}

#[test]
fn xml_entities_round_trip() {
    let s = "a < b > c \" d ' e";
    assert_eq!(escape_xml(s), "a &lt; b &gt; c &quot; d &apos; e");
    assert_eq!(unescape_xml(&escape_xml(s)), s);
    assert_eq!(unescape_xml("&amp;lt;"), "<");
    assert_eq!(extract_xml_tag("<a><b> x </b></a>", "b").as_deref(), Some("x"));
    assert_eq!(extract_xml_tag("<b>x", "b"), None);
}

#[test]
fn relative_paths() {
    assert_eq!(diff_paths("/a/b/c.mp3", "/a").as_deref(), Ok("b/c.mp3"));
    assert_eq!(diff_paths("/a/b/c.mp3", "/a/d").as_deref(), Ok("../b/c.mp3"));
    assert_eq!(diff_paths("/x.mp3", "rel").as_deref(), Ok("/x.mp3"));
    assert!(diff_paths("rel/x.mp3", "/abs").is_err());
    assert_eq!(diff_paths("./a/b", "./a").as_deref(), Ok("b"));
}

#[test]
fn m3u_export_reads_back_path_artist_title_and_duration() {
    let tracks = vec![
        ExportTrack {
            path: "/music/a b.mp3".to_string(),
            title: Some("Song, One".to_string()),
            artist: Some("The Band".to_string()),
            album: Some("Album".to_string()),
            duration_sec: Some(215),
        },
        ExportTrack {
            path: "C:\\music\\b.flac".to_string(),
            title: Some("Two".to_string()),
            artist: Some("Solo".to_string()),
            album: None,
            duration_sec: Some(0),
        },
    ];
    let out = export_playlist("Mix", &tracks, PlaylistFormat::M3u8, "/lists/mix.m3u8", false).unwrap();
    let back = parse_m3u(&out);
    assert_eq!(back.len(), 2);
    assert_eq!(back[0].path_or_url, "/music/a b.mp3");
    assert_eq!(back[0].artist.as_deref(), Some("The Band"));
    assert_eq!(back[0].title.as_deref(), Some("Song, One"));
    assert_eq!(back[0].album, None);
    assert_eq!(back[0].duration_sec, Some(215));
    assert_eq!(back[1].path_or_url, "C:\\music\\b.flac");
    assert_eq!(back[1].duration_sec, None);
}
