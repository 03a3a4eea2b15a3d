use luminous::subsonic::{
    auth_token, build_signed_url, describe_api_error, describe_envelope, envelope_error,
    normalize_base_url, parse_track_uri, resolve_stream_url, stream_url, track_uri, ApiError, Auth,
    AuthMode, EnvelopeStatus, OpenSubsonicExtension, SavedServer, ServerInfo, ServerProbe,
    SubsonicClient, API_VERSION, CLIENT_NAME,
};
use std::collections::HashMap;

fn query(url: &str) -> HashMap<String, String> {
    url::Url::parse(url)
        .unwrap()
        .query_pairs()
        .into_owned()
        .collect()
}

fn servers() -> Vec<SavedServer> {
    vec![
        SavedServer {
            id: 3,
            url: "https://music.example.com".to_string(),
            auth: Auth::new(AuthMode::Token, "alice", "hunter2"),
        },
        SavedServer {
            id: 4,
            url: "https://keys.example.com".to_string(),
            auth: Auth::new(AuthMode::ApiKey, "", "k3y"),
        },
    ]
}

#[test]
fn auth_token_matches_spec_example() {
    // Example from the Subsonic API docs: password "sesame", salt "c19b2d".
    assert_eq!(
        auth_token("sesame", "c19b2d"),
        "26719a1196d2a940705a59634eb18eab"
    );
}

#[test]
fn auth_params_use_fresh_salt_and_never_include_password() {
    let a = Auth::token("alice", "hunter2").params();
    let b = Auth::token("alice", "hunter2").params();
    let salt = |p: &[(&str, String)]| p.iter().find(|(k, _)| *k == "s").unwrap().1.clone();
    assert_ne!(salt(&a), salt(&b));
    assert!(salt(&a).len() >= 6);
    assert!(a.iter().all(|(_, v)| !v.contains("hunter2")));
    let get = |k: &str| a.iter().find(|(kk, _)| *kk == k).unwrap().1.clone();
    assert_eq!(get("t"), auth_token("hunter2", &salt(&a)));
    assert_eq!(get("v"), API_VERSION);
    assert_eq!(get("c"), CLIENT_NAME);
    assert_eq!(get("f"), "json");
}

#[test]
fn password_mode_params_carry_hex_password() {
    let p = Auth::new(AuthMode::Password, "alice", "sesame").params();
    let keys: Vec<&str> = p.iter().map(|(k, _)| *k).collect();
    assert_eq!(keys, vec!["u", "p", "v", "c", "f"]);
    assert_eq!(p[1].1, "enc:736573616d65");
}

#[test]
fn api_key_mode_params_carry_only_the_key() {
    let p = Auth::new(AuthMode::ApiKey, "", "k3y").params();
    let keys: Vec<&str> = p.iter().map(|(k, _)| *k).collect();
    assert_eq!(keys, vec!["apiKey", "v", "c", "f"]);
    assert_eq!(p[0].1, "k3y");
}

#[test]
fn auth_debug_never_shows_the_secret() {
    let dbg = Auth::new(AuthMode::ApiKey, "", "k3y-secret").debug_text();
    assert!(!dbg.contains("k3y-secret"), "{dbg}");
}

#[test]
fn auth_mode_round_trips_through_the_db_value() {
    for mode in [AuthMode::Token, AuthMode::Password, AuthMode::ApiKey] {
        assert_eq!(AuthMode::from_db(mode.as_str()), mode);
    }
    assert_eq!(AuthMode::from_db("bogus"), AuthMode::Token);
}

#[test]
fn describe_api_error_covers_auth_codes() {
    let e = |code| ApiError {
        code,
        message: "x".into(),
    };
    assert_eq!(describe_api_error(&e(40)), "Wrong username or password");
    assert!(describe_api_error(&e(41)).contains("Password sign-in method"));
    assert_eq!(describe_api_error(&e(44)), "The server rejected the API key");
    assert_eq!(describe_api_error(&e(999)), "Server error: x");
}

#[test]
fn describe_api_error_falls_back_to_the_code() {
    let e = ApiError { code: 77, message: "   ".into() };
    assert_eq!(describe_api_error(&e), "Server error (code 77)");
    let m = ApiError { code: 10, message: " id ".into() };
    assert_eq!(
        describe_api_error(&m),
        "The server rejected the request (missing parameter: id)"
    );
}

#[test]
fn failed_envelopes_are_described_and_ok_ones_are_not() {
    let failed = EnvelopeStatus {
        status: "failed".to_string(),
        error: Some(ApiError { code: 70, message: "data not found".into() }),
    };
    assert_eq!(describe_envelope(&failed).as_deref(), Some("Not found on the server"));
    let ok = EnvelopeStatus { status: "ok".to_string(), error: None };
    assert_eq!(describe_envelope(&ok), None);
    let odd = EnvelopeStatus { status: "weird".to_string(), error: None };
    let e = envelope_error(&odd).unwrap();
    assert_eq!(e.code, 0);
    assert_eq!(e.message, "unexpected status 'weird'");
}

#[test]
fn track_uri_round_trips_including_awkward_ids() {
    for id in [
        "6zNzY0KWdlrffKVhMqzQv6",
        "tr-123",
        "42",
        "a/b?c=d&e#f",
        "ünï code",
    ] {
        let uri = track_uri(7, id);
        assert!(uri.starts_with("subsonic://7/"));
        assert_eq!(uri.matches('/').count(), 3, "id must be escaped: {uri}");
        assert_eq!(parse_track_uri(&uri), Some((7, id.to_string())));
    }
}

#[test]
fn track_uri_escapes_with_uppercase_hex() {
    assert_eq!(track_uri(3, "a b"), "subsonic://3/a%20b");
    assert_eq!(track_uri(-1, "x"), "subsonic://-1/x");
}

#[test]
fn parse_track_uri_rejects_other_paths() {
    assert_eq!(parse_track_uri("/music/song.flac"), None);
    assert_eq!(parse_track_uri("https://host/rest/stream.view?id=1"), None);
    assert_eq!(parse_track_uri("subsonic://notanumber/abc"), None);
    assert_eq!(parse_track_uri("subsonic://3/"), None);
    assert_eq!(parse_track_uri("subsonic://3"), None);
}

#[test]
fn extension_names_in_order() {
    let probe = ServerProbe {
        info: ServerInfo {
            version: "1.16.1".into(),
            server_type: Some("navidrome".into()),
            server_version: None,
            open_subsonic: true,
        },
        extensions: vec![
            OpenSubsonicExtension { name: "transcodeOffset".into(), versions: vec![1] },
            OpenSubsonicExtension { name: "apiKeyAuthentication".into(), versions: vec![1] },
        ],
    };
    assert_eq!(probe.extension_names(), vec!["transcodeOffset", "apiKeyAuthentication"]);
    assert!(probe.supports_api_key());
}

#[test]
fn stream_url_is_signed_without_the_password() {
    let auth = Auth::token("alice", "hunter2");
    let a = stream_url("https://music.example.com/rest/", &auth, "tr/1").unwrap();
    let b = stream_url("https://music.example.com", &auth, "tr/1").unwrap();
    assert!(a.starts_with("https://music.example.com/rest/stream.view?"));
    assert!(!a.contains("hunter2") && !a.contains("p="));
    let q = query(&a);
    assert_eq!(q["id"], "tr/1");
    assert_eq!(q["format"], "raw");
    assert_eq!(q["u"], "alice");
    assert_eq!(q["t"], auth_token("hunter2", &q["s"]));
    assert_ne!(a, b, "each URL gets a fresh salt");
}

#[test]
fn password_mode_sends_hex_encoded_password() {
    let auth = Auth::new(AuthMode::Password, "alice", "sesame");
    let q = query(&stream_url("https://music.example.com", &auth, "1").unwrap());
    assert_eq!(q["u"], "alice");
    assert_eq!(q["p"], "enc:736573616d65");
    assert!(!q.contains_key("t") && !q.contains_key("s") && !q.contains_key("apiKey"));
    assert_eq!(q["v"], API_VERSION);
}

#[test]
fn api_key_mode_sends_only_the_key() {
    let auth = Auth::new(AuthMode::ApiKey, "", "k3y");
    let q = query(&stream_url("https://music.example.com", &auth, "1").unwrap());
    assert_eq!(q["apiKey"], "k3y");
    for k in ["u", "t", "s", "p"] {
        assert!(!q.contains_key(k), "{k} should not be sent");
    }
    assert_eq!(q["c"], CLIENT_NAME);
    assert_eq!(q["f"], "json");
}

#[test]
fn resolve_stream_url_signs_with_the_saved_server() {
    let url = resolve_stream_url(&servers(), &track_uri(3, "a b")).unwrap();
    assert!(url.starts_with("https://music.example.com/rest/stream.view?"));
    assert!(url.contains("id=a+b") || url.contains("id=a%20b"));
    assert!(url.contains("u=alice"));
}

#[test]
fn resolve_stream_url_uses_the_saved_auth_mode() {
    let q = query(&resolve_stream_url(&servers(), &track_uri(4, "x")).unwrap());
    assert_eq!(q["apiKey"], "k3y");
    assert!(!q.contains_key("u"));
}

#[test]
fn resolve_stream_url_reports_a_removed_server() {
    let err = resolve_stream_url(&servers(), "subsonic://9/abc").unwrap_err();
    assert!(err.contains("has been removed"), "{err}");
    assert_eq!(
        resolve_stream_url(&servers(), "/music/a.flac").unwrap_err(),
        "Invalid Subsonic track path '/music/a.flac'"
    );
}

#[test]
fn client_normalizes_base_url() {
    for input in [
        "https://music.example.com",
        "https://music.example.com/",
        "https://music.example.com/rest",
        "https://music.example.com/rest/",
    ] {
        let c = SubsonicClient::new(input, Auth::token("u", "p")).unwrap();
        let url = c.signed_url("ping", &vec![]).unwrap();
        assert_eq!(url::Url::parse(&url).unwrap().path(), "/rest/ping.view", "input: {input}");
    }
    let c = SubsonicClient::new("https://example.com/navidrome/", Auth::token("u", "p")).unwrap();
    let url = c.signed_url("ping", &vec![]).unwrap();
    assert_eq!(url::Url::parse(&url).unwrap().path(), "/navidrome/rest/ping.view");
    assert!(SubsonicClient::new("music.example.com", Auth::token("u", "p")).is_err());
}

#[test]
fn signed_url_carries_extra_params_and_no_password() {
    let c = SubsonicClient::new("https://music.example.com", Auth::token("alice", "hunter2")).unwrap();
    let url = c
        .signed_url(
            "stream",
            &vec![
                ("id".to_string(), "abc".to_string()),
                ("format".to_string(), "raw".to_string()),
            ],
        )
        .unwrap();
    let q = query(&url);
    assert_eq!(q.get("id").map(String::as_str), Some("abc"));
    assert_eq!(q.get("format").map(String::as_str), Some("raw"));
    assert_eq!(q.get("u").map(String::as_str), Some("alice"));
    assert!(!url.contains("hunter2"));
}

#[test]
fn server_urls_are_trimmed_to_their_root() {
    assert_eq!(
        normalize_base_url("  https://a.example.com/music/rest///  ").unwrap(),
        "https://a.example.com/music"
    );
    assert_eq!(
        normalize_base_url("https://a.example.com/restful").unwrap(),
        "https://a.example.com/restful"
    );
    assert_eq!(
        normalize_base_url("not a url").unwrap_err(),
        "Enter a full server URL, e.g. https://music.example.com"
    );
    assert!(build_signed_url("::", &Auth::token("u", "p"), "ping", &vec![]).is_err());
}
