//! ListenBrainz scrobbling: the settings and how they are stored, when a
//! listen is sent or queued, and the offline cache of queued listens.
use vstd::prelude::*;
use crate::parsers::{decimal, digit_char, push_int, int_text};
use crate::text::{
    all_digits, chars_eq, chars_of, digit_value, digits_value, is_digit, parse_usize, push_chars, string_of, trim,
    trim_chars, unsigned_magnitude,
};

verus! {

// ---------------------------------------------------------------------------
// Settings
// ---------------------------------------------------------------------------

/// What the user chose for scrobbling.
#[derive(Debug)]
pub struct ScrobblerSettings {
    pub listenbrainz_enabled: bool,
    pub listenbrainz_token: String,
    pub listenbrainz_username: Option<String>,
    pub scrobble_now_playing: bool,
    pub scrobble_ratings: bool,
    pub scrobble_paused: bool,
    pub min_duration_secs: u32,
}

/// The settings as values.
pub struct SettingsV {
    pub enabled: bool,
    pub token: Seq<char>,
    pub username: Option<Seq<char>>,
    pub now_playing: bool,
    pub ratings: bool,
    pub paused: bool,
    pub min_duration_secs: u32,
}

pub open spec fn opt_v(o: Option<String>) -> Option<Seq<char>> {
    match o {
        Some(s) => Some(s@),
        None => None,
    }
}

pub open spec fn settings_v(s: ScrobblerSettings) -> SettingsV {
    SettingsV {
        enabled: s.listenbrainz_enabled,
        token: s.listenbrainz_token@,
        username: opt_v(s.listenbrainz_username),
        now_playing: s.scrobble_now_playing,
        ratings: s.scrobble_ratings,
        paused: s.scrobble_paused,
        min_duration_secs: s.min_duration_secs,
    }
}

/// The settings before anything is stored: scrobbling off, no token,
/// now-playing and ratings on, not paused, 30 s minimum.
pub open spec fn default_settings() -> SettingsV {
    SettingsV {
        enabled: false,
        token: Seq::empty(),
        username: None,
        now_playing: true,
        ratings: true,
        paused: false,
        min_duration_secs: 30,
    }
}

impl Default for ScrobblerSettings {
    fn default() -> (s: Self)
        ensures
            settings_v(s) == default_settings(),
    {
        ScrobblerSettings {
            listenbrainz_enabled: false,
            listenbrainz_token: String::new(),
            listenbrainz_username: None,
            scrobble_now_playing: true,
            scrobble_ratings: true,
            scrobble_paused: false,
            min_duration_secs: 30,
        }
    }
}

/// `u32::from_str`.
pub open spec fn parse_u32_spec(s: Seq<char>) -> Option<u32> {
    match unsigned_magnitude(s) {
        Some(v) => if v <= u32::MAX {
            Some(v as u32)
        } else {
            None
        },
        None => None,
    }
}

/// `u32::from_str` on a character sequence.
pub fn parse_u32(s: &[char]) -> (r: Option<u32>)
    ensures
        r == parse_u32_spec(s@),
{
    match parse_usize(s) {
        Some(v) => if v <= u32::MAX as usize {
            Some(v as u32)
        } else {
            None
        },
        None => None,
    }
}

/// Flags stored as text are on for "true" or "1".
pub open spec fn flag_on(v: Seq<char>) -> bool {
    v == "true"@ || v == "1"@
}

/// Flags stored as text are off only for "false" or "0".
pub open spec fn flag_not_off(v: Seq<char>) -> bool {
    v != "false"@ && v != "0"@
}

/// One stored key and value applied to the settings; other keys leave
/// them as they are.
pub open spec fn apply_setting(s: SettingsV, k: Seq<char>, v: Seq<char>) -> SettingsV {
    if k == "listenbrainz_enabled"@ {
        SettingsV { enabled: flag_on(v), ..s }
    } else if k == "listenbrainz_token"@ {
        SettingsV { token: v, ..s }
    } else if k == "listenbrainz_username"@ {
        SettingsV { username: if v.len() == 0 { None } else { Some(v) }, ..s }
    } else if k == "scrobbler_now_playing"@ {
        SettingsV { now_playing: flag_not_off(v), ..s }
    } else if k == "scrobbler_ratings"@ {
        SettingsV { ratings: flag_not_off(v), ..s }
    } else if k == "scrobbler_paused"@ {
        SettingsV { paused: flag_on(v), ..s }
    } else if k == "scrobbler_min_duration_secs"@ {
        match parse_u32_spec(v) {
            Some(n) => SettingsV { min_duration_secs: n, ..s },
            None => s,
        }
    } else {
        s
    }
}

/// Stored pairs applied in turn.
pub open spec fn apply_settings(s: SettingsV, pairs: Seq<(Seq<char>, Seq<char>)>) -> SettingsV
    decreases pairs.len(),
{
    if pairs.len() == 0 {
        s
    } else {
        apply_setting(apply_settings(s, pairs.drop_last()), pairs.last().0, pairs.last().1)
    }
}

pub open spec fn pairs_v(p: Seq<(String, String)>) -> Seq<(Seq<char>, Seq<char>)> {
    p.map_values(|e: (String, String)| (e.0@, e.1@))
}

fn lit(s: &str) -> (r: String)
    ensures
        r@ == s@,
{
    string_of(chars_of(s).as_slice())
}

fn is_lit(v: &String, s: &str) -> (b: bool)
    ensures
        b == (v@ == s@),
{
    let a = chars_of(v.as_str());
    let c = chars_of(s);
    chars_eq(a.as_slice(), c.as_slice())
}

/// The settings stored as key/value pairs (as read back from the store,
/// in any order), applied to the defaults.
pub fn settings_from_pairs(pairs: &[(String, String)]) -> (s: ScrobblerSettings)
    ensures
        settings_v(s) == apply_settings(default_settings(), pairs_v(pairs@)),
{
    let ghost pv = pairs_v(pairs@);
    let mut s = ScrobblerSettings::default();
    let mut i: usize = 0;
    while i < pairs.len()
        invariant
            i <= pairs@.len(),
            pv == pairs_v(pairs@),
            settings_v(s) == apply_settings(default_settings(), pv.take(i as int)),
        decreases pairs@.len() - i,
    {
        assert(pv.take(i + 1).drop_last() =~= pv.take(i as int));
        assert(pv.take(i + 1).last() == (pairs@[i as int].0@, pairs@[i as int].1@));
        let k = &pairs[i].0;
        let v = &pairs[i].1;
        if is_lit(k, "listenbrainz_enabled") {
            s.listenbrainz_enabled = is_lit(v, "true") || is_lit(v, "1");
        } else if is_lit(k, "listenbrainz_token") {
            s.listenbrainz_token = v.clone();
        } else if is_lit(k, "listenbrainz_username") {
            s.listenbrainz_username = if chars_of(v.as_str()).len() == 0 {
                None
            } else {
                Some(v.clone())
            };
        } else if is_lit(k, "scrobbler_now_playing") {
            s.scrobble_now_playing = !is_lit(v, "false") && !is_lit(v, "0");
        } else if is_lit(k, "scrobbler_ratings") {
            s.scrobble_ratings = !is_lit(v, "false") && !is_lit(v, "0");
        } else if is_lit(k, "scrobbler_paused") {
            s.scrobble_paused = is_lit(v, "true") || is_lit(v, "1");
        } else if is_lit(k, "scrobbler_min_duration_secs") {
            let c = chars_of(v.as_str());
            match parse_u32(c.as_slice()) {
                Some(n) => {
                    s.min_duration_secs = n;
                },
                None => {},
            }
        }
        i += 1;
    }
    assert(pv.take(i as int) =~= pv);
    s
}

/// A flag written as text.
pub open spec fn flag_text(b: bool) -> Seq<char> {
    if b {
        "true"@
    } else {
        "false"@
    }
}

/// The pairs the settings are stored as, in this order.
pub open spec fn stored_pairs(s: SettingsV) -> Seq<(Seq<char>, Seq<char>)> {
    seq![
        ("listenbrainz_enabled"@, flag_text(s.enabled)),
        ("listenbrainz_token"@, s.token),
        ("listenbrainz_username"@, match s.username {
            Some(u) => u,
            None => Seq::empty(),
        }),
        ("scrobbler_now_playing"@, flag_text(s.now_playing)),
        ("scrobbler_ratings"@, flag_text(s.ratings)),
        ("scrobbler_paused"@, flag_text(s.paused)),
        ("scrobbler_min_duration_secs"@, decimal(s.min_duration_secs as nat)),
    ]
}

fn flag_string(b: bool) -> (r: String)
    ensures
        r@ == flag_text(b),
{
    if b {
        lit("true")
    } else {
        lit("false")
    }
}

/// The key/value pairs the settings are stored as (see `stored_pairs`).
pub fn settings_pairs(s: &ScrobblerSettings) -> (r: Vec<(String, String)>)
    ensures
        pairs_v(r@) == stored_pairs(settings_v(*s)),
{
    let mut out: Vec<(String, String)> = Vec::new();
    out.push((lit("listenbrainz_enabled"), flag_string(s.listenbrainz_enabled)));
    out.push((lit("listenbrainz_token"), s.listenbrainz_token.clone()));
    let user = match &s.listenbrainz_username {
        Some(u) => u.clone(),
        None => String::new(),
    };
    out.push((lit("listenbrainz_username"), user));
    out.push((lit("scrobbler_now_playing"), flag_string(s.scrobble_now_playing)));
    out.push((lit("scrobbler_ratings"), flag_string(s.scrobble_ratings)));
    out.push((lit("scrobbler_paused"), flag_string(s.scrobble_paused)));
    let mut digits: Vec<char> = Vec::new();
    push_int(&mut digits, s.min_duration_secs as i64);
    assert(digits@ =~= int_text(s.min_duration_secs as int));
    out.push((lit("scrobbler_min_duration_secs"), string_of(digits.as_slice())));
    assert(pairs_v(out@) =~= stored_pairs(settings_v(*s)));
    out
}

pub(crate) proof fn lemma_decimal_parses(n: nat)
    ensures
        decimal(n).len() > 0,
        all_digits(decimal(n)),
        digits_value(decimal(n)) == n,
    decreases n,
{
    if n >= 10 {
        lemma_decimal_parses(n / 10);
        let d = decimal(n / 10);
        let t = d.push(digit_char(n % 10));
        assert(t.drop_last() =~= d);
        assert forall|i: int| 0 <= i < t.len() implies is_digit(#[trigger] t[i]) by {
            if i < d.len() {
                assert(t[i] == d[i]);
            }
        }
        assert(digit_value(digit_char(n % 10)) == n % 10);
        assert(n == (n / 10) * 10 + n % 10) by (nonlinear_arith);
        assert(decimal(n) == t);
        assert(digits_value(t) == digits_value(d) * 10 + digit_value(t.last()));
    } else {
        assert(digit_value(digit_char(n)) == n);
        let t = seq![digit_char(n)];
        assert(t.drop_last() =~= Seq::<char>::empty());
        assert(decimal(n) == t);
        assert(digits_value(t) == digits_value(t.drop_last()) * 10 + digit_value(t.last()));
        assert(is_digit(t[0]));
    }
}

/// Storing the settings and reading the pairs back gives the same
/// settings, for any settings whose username is not the empty text (an
/// empty username reads back as none).
pub proof fn stored_settings_read_back(s: SettingsV)
    requires
        s.username != Some(Seq::<char>::empty()),
    ensures
        apply_settings(default_settings(), stored_pairs(s)) == s,
{
    reveal_strlit("listenbrainz_enabled");
    reveal_strlit("listenbrainz_token");
    reveal_strlit("listenbrainz_username");
    reveal_strlit("scrobbler_now_playing");
    reveal_strlit("scrobbler_ratings");
    reveal_strlit("scrobbler_paused");
    reveal_strlit("scrobbler_min_duration_secs");
    reveal_strlit("true");
    reveal_strlit("false");
    reveal_strlit("1");
    reveal_strlit("0");
    let p = stored_pairs(s);
    lemma_decimal_parses(s.min_duration_secs as nat);
    let d = decimal(s.min_duration_secs as nat);
    assert(d.len() == 0 || d[0] != '+') by {
        if d.len() > 0 {
            assert(is_digit(d[0]));
        }
    }
    assert(unsigned_magnitude(d) == Some(s.min_duration_secs as nat));
    let s0 = default_settings();
    assert(p.take(0) =~= Seq::<(Seq<char>, Seq<char>)>::empty());
    assert(p.take(1).drop_last() =~= p.take(0));
    assert(p.take(1).last() == p[0]);
    assert(p.take(2).drop_last() =~= p.take(1));
    assert(p.take(2).last() == p[1]);
    assert(p.take(3).drop_last() =~= p.take(2));
    assert(p.take(3).last() == p[2]);
    assert(p.take(4).drop_last() =~= p.take(3));
    assert(p.take(4).last() == p[3]);
    assert(p.take(5).drop_last() =~= p.take(4));
    assert(p.take(5).last() == p[4]);
    assert(p.take(6).drop_last() =~= p.take(5));
    assert(p.take(6).last() == p[5]);
    assert(p.take(7).drop_last() =~= p.take(6));
    assert(p.take(7).last() == p[6]);
    assert("listenbrainz_enabled"@.len() == 20);
    assert("listenbrainz_token"@.len() == 18);
    assert("listenbrainz_username"@.len() == 21);
    assert("scrobbler_now_playing"@.len() == 21);
    assert("scrobbler_ratings"@.len() == 17);
    assert("scrobbler_paused"@.len() == 16);
    assert("scrobbler_min_duration_secs"@.len() == 27);
    assert("listenbrainz_enabled"@ != "listenbrainz_token"@);
    assert("listenbrainz_enabled"@ != "listenbrainz_username"@);
    assert("listenbrainz_enabled"@ != "scrobbler_now_playing"@);
    assert("listenbrainz_enabled"@ != "scrobbler_ratings"@);
    assert("listenbrainz_enabled"@ != "scrobbler_paused"@);
    assert("listenbrainz_enabled"@ != "scrobbler_min_duration_secs"@);
    assert("listenbrainz_token"@ != "listenbrainz_username"@);
    assert("listenbrainz_token"@ != "scrobbler_now_playing"@);
    assert("listenbrainz_token"@ != "scrobbler_ratings"@);
    assert("listenbrainz_token"@ != "scrobbler_paused"@);
    assert("listenbrainz_token"@ != "scrobbler_min_duration_secs"@);
    assert("listenbrainz_username"@ != "scrobbler_ratings"@);
    assert("listenbrainz_username"@ != "scrobbler_paused"@);
    assert("listenbrainz_username"@ != "scrobbler_min_duration_secs"@);
    assert("scrobbler_now_playing"@ != "scrobbler_ratings"@);
    assert("scrobbler_now_playing"@ != "scrobbler_paused"@);
    assert("scrobbler_now_playing"@ != "scrobbler_min_duration_secs"@);
    assert("scrobbler_ratings"@ != "scrobbler_paused"@);
    assert("scrobbler_ratings"@ != "scrobbler_min_duration_secs"@);
    assert("scrobbler_paused"@ != "scrobbler_min_duration_secs"@);
    assert(apply_settings(s0, p.take(0)) == s0);
    assert("scrobbler_now_playing"@ != "listenbrainz_username"@) by {
        assert("scrobbler_now_playing"@[0] != "listenbrainz_username"@[0]);
    }
    let s1 = apply_settings(s0, p.take(1));
    assert(s1 == apply_setting(s0, p[0].0, p[0].1));
    let s2 = apply_settings(s0, p.take(2));
    assert(s2 == apply_setting(s1, p[1].0, p[1].1));
    let s3 = apply_settings(s0, p.take(3));
    assert(s3 == apply_setting(s2, p[2].0, p[2].1));
    let s4 = apply_settings(s0, p.take(4));
    assert(s4 == apply_setting(s3, p[3].0, p[3].1));
    let s5 = apply_settings(s0, p.take(5));
    assert(s5 == apply_setting(s4, p[4].0, p[4].1));
    let s6 = apply_settings(s0, p.take(6));
    assert(s6 == apply_setting(s5, p[5].0, p[5].1));
    let s7 = apply_settings(s0, p.take(7));
    assert(s7 == apply_setting(s6, p[6].0, p[6].1));
    assert(parse_u32_spec(d) == Some(s.min_duration_secs));
    assert(p.take(7) =~= p);
    assert(p[0].0 == "listenbrainz_enabled"@);
    assert(p[1].0 == "listenbrainz_token"@);
    assert(p[2].0 == "listenbrainz_username"@);
    assert(p[3].0 == "scrobbler_now_playing"@);
    assert(p[4].0 == "scrobbler_ratings"@);
    assert(p[5].0 == "scrobbler_paused"@);
    assert(p[6].0 == "scrobbler_min_duration_secs"@);
    assert(flag_on(flag_text(s.enabled)) == s.enabled);
    assert(flag_on(flag_text(s.paused)) == s.paused);
    assert(flag_not_off(flag_text(s.now_playing)) == s.now_playing);
    assert(flag_not_off(flag_text(s.ratings)) == s.ratings);
    assert(s1.enabled == s.enabled);
    assert(s2.token == s.token);
    if let Some(u) = s.username {
        if u.len() == 0 {
            assert(u =~= Seq::<char>::empty());
        }
    }
    assert(s3.username == s.username);
    assert(s4.now_playing == s.now_playing);
    assert(s5.ratings == s.ratings);
    assert(s6.paused == s.paused);
    assert(s7.enabled == s.enabled);
    assert(s7.token == s.token);
    assert(s7.username == s.username);
    assert(s7.now_playing == s.now_playing);
    assert(s7.ratings == s.ratings);
    assert(s7.paused == s.paused);
    assert(s7.min_duration_secs == s.min_duration_secs);
}

// ---------------------------------------------------------------------------
// When to send
// ---------------------------------------------------------------------------

/// The token once surrounding whitespace is trimmed.
pub fn trimmed_token(s: &ScrobblerSettings) -> (r: Vec<char>)
    ensures
        r@ == trim(s.listenbrainz_token@),
{
    let c = chars_of(s.listenbrainz_token.as_str());
    trim_chars(c.as_slice())
}

/// A "playing now" listen is sent: scrobbling on, not paused, now-playing
/// on, a token set, and not a radio stream.
pub open spec fn sends_now_playing(s: SettingsV, is_radio: bool) -> bool {
    s.enabled && !s.paused && s.now_playing && trim(s.token).len() > 0 && !is_radio
}

/// Whether a "playing now" listen is sent for a track (see
/// `sends_now_playing`).
pub fn now_playing_allowed(s: &ScrobblerSettings, is_radio: bool) -> (b: bool)
    ensures
        b == sends_now_playing(settings_v(*s), is_radio),
        s.scrobble_paused || !s.listenbrainz_enabled || !s.scrobble_now_playing || is_radio ==> !b,
{
    if !s.listenbrainz_enabled || s.scrobble_paused || !s.scrobble_now_playing {
        return false;
    }
    let t = trimmed_token(s);
    t.len() > 0 && !is_radio
}

/// A track reaching its scrobble point is queued: scrobbling on, not
/// paused, not a radio stream, and (when its length is known) at least
/// the minimum duration long, in whole seconds.
pub open spec fn queues_scrobble(s: SettingsV, is_radio: bool, length_nanosec: Option<i64>) -> bool {
    &&& s.enabled
    &&& !s.paused
    &&& !is_radio
    &&& match length_nanosec {
        Some(ns) => (ns as u64) / 1_000_000_000 >= s.min_duration_secs,
        None => true,
    }
}

/// Whether a track reaching its scrobble point is queued (see
/// `queues_scrobble`).
pub fn scrobble_allowed(s: &ScrobblerSettings, is_radio: bool, length_nanosec: Option<i64>) -> (b: bool)
    ensures
        b == queues_scrobble(settings_v(*s), is_radio, length_nanosec),
        s.scrobble_paused || !s.listenbrainz_enabled || is_radio ==> !b,
{
    if !s.listenbrainz_enabled || s.scrobble_paused || is_radio {
        return false;
    }
    match length_nanosec {
        Some(ns) => {
            let secs: u64 = (#[verifier::truncate] (ns as u64)) / 1_000_000_000;
            secs >= s.min_duration_secs as u64
        },
        None => true,
    }
}

/// Rating feedback is sent for a recording: scrobbling on, not paused,
/// ratings on, a recording id that is not blank, and a token set.
pub open spec fn sends_feedback(s: SettingsV, recording_mbid: Option<Seq<char>>) -> bool {
    &&& s.enabled
    &&& !s.paused
    &&& s.ratings
    &&& recording_mbid matches Some(m) && trim(m).len() > 0
    &&& trim(s.token).len() > 0
}

/// The recording id and the trimmed token to send rating feedback with,
/// when it is sent (see `sends_feedback`).
pub fn feedback_target(s: &ScrobblerSettings, recording_mbid: &Option<String>) -> (r: Option<(String, String)>)
    ensures
        r is Some <==> sends_feedback(settings_v(*s), opt_v(*recording_mbid)),
        s.scrobble_paused || !s.listenbrainz_enabled || !s.scrobble_ratings ==> r is None,
        r matches Some(p) ==> (recording_mbid matches Some(m) && p.0@ == m@ && p.1@ == trim(
            s.listenbrainz_token@,
        )),
{
    if !s.listenbrainz_enabled || s.scrobble_paused || !s.scrobble_ratings {
        return None;
    }
    let m = match recording_mbid {
        Some(m) => m,
        None => {
            return None;
        },
    };
    let mc = chars_of(m.as_str());
    if trim_chars(mc.as_slice()).len() == 0 {
        return None;
    }
    let t = trimmed_token(s);
    if t.len() == 0 {
        return None;
    }
    Some((m.clone(), string_of(t.as_slice())))
}

// ---------------------------------------------------------------------------
// Validating a token
// ---------------------------------------------------------------------------

/// The token to validate, trimmed; `Err` when it is blank.
pub fn token_to_validate(token: &str) -> (r: Result<String, String>)
    ensures
        match r {
            Ok(t) => t@ == trim(token@) && trim(token@).len() > 0,
            Err(e) => trim(token@).len() == 0 && e@ == "Token cannot be empty"@,
        },
{
    let t = trim_chars(chars_of(token).as_slice());
    if t.len() == 0 {
        Err(lit("Token cannot be empty"))
    } else {
        Ok(string_of(t.as_slice()))
    }
}

/// What a validation reply means: the user name when the token is valid
/// and one came back; otherwise the reply's message ("Invalid token" when
/// it has none), or a note that no user name came back.
pub fn validation_outcome(valid: bool, user_name: Option<String>, message: Option<String>) -> (r: Result<String, String>)
    ensures
        !valid ==> (r matches Err(e) && e@ == match opt_v(message) {
            Some(m) => m,
            None => "Invalid token"@,
        }),
        valid && user_name is None ==> (r matches Err(e) && e@ == "Validated, but no username returned"@),
        valid && user_name is Some ==> (r matches Ok(u) && u@ == user_name.unwrap()@),
{
    if !valid {
        return Err(match message {
            Some(m) => m,
            None => lit("Invalid token"),
        });
    }
    match user_name {
        Some(u) => Ok(u),
        None => Err(lit("Validated, but no username returned")),
    }
}

impl ScrobblerSettings {
    /// Records `username` as the account of the stored token when the
    /// validated token (trimmed) is the stored one; tells whether it did.
    pub fn adopt_username(&mut self, validated: &str, username: &str) -> (b: bool)
        ensures
            b == (old(self).listenbrainz_token@ == validated@),
            b ==> settings_v(*final(self)) == (SettingsV { username: Some(username@), ..settings_v(*old(self)) }),
            !b ==> settings_v(*final(self)) == settings_v(*old(self)),
    {
        if is_lit(&self.listenbrainz_token, validated) {
            self.listenbrainz_username = Some(lit(username));
            true
        } else {
            false
        }
    }
}

// ---------------------------------------------------------------------------
// What is sent
// ---------------------------------------------------------------------------

/// What the player knows of a track when it reports it.
#[derive(Debug)]
pub struct ScrobbleTrack {
    pub artist: Option<String>,
    pub title: Option<String>,
    pub album: Option<String>,
    pub length_nanosec: Option<i64>,
    pub track: Option<i32>,
    pub recording_mbid: Option<String>,
    pub release_mbid: Option<String>,
    pub artist_mbid: Option<String>,
    pub release_group_mbid: Option<String>,
    pub track_mbid: Option<String>,
}

/// A listen as ListenBrainz is told of it.
#[derive(Debug)]
pub struct Listen {
    pub artist: String,
    pub track: String,
    pub album: Option<String>,
    pub duration_ms: Option<i64>,
    pub track_number: Option<i32>,
    pub recording_mbid: Option<String>,
    pub release_mbid: Option<String>,
    pub artist_mbids: Option<String>,
    pub release_group_mbid: Option<String>,
    pub track_mbid: Option<String>,
}

/// Whole milliseconds of `ns` nanoseconds, truncated toward zero.
pub open spec fn millis_of(ns: i64) -> i64 {
    if ns >= 0 {
        (ns / 1_000_000) as i64
    } else {
        (-((-ns) / 1_000_000)) as i64
    }
}

fn copy_opt(o: &Option<String>) -> (r: Option<String>)
    ensures
        opt_v(r) == opt_v(*o),
{
    match o {
        Some(s) => Some(s.clone()),
        None => None,
    }
}

/// The listen reported for a track: "Unknown Artist" and "Unknown Track"
/// stand in for a missing artist or title, the length is given in whole
/// milliseconds, and the rest is the track's as it is.
pub fn listen_of(t: &ScrobbleTrack) -> (l: Listen)
    ensures
        l.artist@ == match opt_v(t.artist) {
            Some(a) => a,
            None => "Unknown Artist"@,
        },
        l.track@ == match opt_v(t.title) {
            Some(a) => a,
            None => "Unknown Track"@,
        },
        opt_v(l.album) == opt_v(t.album),
        l.duration_ms == match t.length_nanosec {
            Some(ns) => Some(millis_of(ns)),
            None => None,
        },
        l.track_number == t.track,
        opt_v(l.recording_mbid) == opt_v(t.recording_mbid),
        opt_v(l.release_mbid) == opt_v(t.release_mbid),
        opt_v(l.artist_mbids) == opt_v(t.artist_mbid),
        opt_v(l.release_group_mbid) == opt_v(t.release_group_mbid),
        opt_v(l.track_mbid) == opt_v(t.track_mbid),
{
    Listen {
        artist: match &t.artist {
            Some(a) => a.clone(),
            None => lit("Unknown Artist"),
        },
        track: match &t.title {
            Some(a) => a.clone(),
            None => lit("Unknown Track"),
        },
        album: copy_opt(&t.album),
        duration_ms: match t.length_nanosec {
            Some(ns) => Some(ns / 1_000_000),
            None => None,
        },
        track_number: t.track,
        recording_mbid: copy_opt(&t.recording_mbid),
        release_mbid: copy_opt(&t.release_mbid),
        artist_mbids: copy_opt(&t.artist_mbid),
        release_group_mbid: copy_opt(&t.release_group_mbid),
        track_mbid: copy_opt(&t.track_mbid),
    }
}

/// How a batch is submitted: "single" for one listen, "import" for more.
pub fn listen_type(count: usize) -> (r: &'static str)
    ensures
        r@ == (if count == 1 {
            "single"@
        } else {
            "import"@
        }),
{
    if count == 1 {
        "single"
    } else {
        "import"
    }
}

// ---------------------------------------------------------------------------
// The offline cache
// ---------------------------------------------------------------------------

/// A queued listen waiting to be sent.
#[derive(Debug)]
pub struct ScrobbleCacheEntry {
    pub id: i64,
    pub service: String,
    pub artist: String,
    pub track: String,
    pub album: Option<String>,
    pub duration_ms: Option<i64>,
    pub track_number: Option<i32>,
    pub recording_mbid: Option<String>,
    pub release_mbid: Option<String>,
    pub artist_mbids: Option<String>,
    pub release_group_mbid: Option<String>,
    pub track_mbid: Option<String>,
    pub listened_at: i64,
    pub attempts: i32,
    pub last_attempt: Option<i64>,
    pub last_error: Option<String>,
    pub created_at: i64,
}

/// How the cache stands.
#[derive(Debug)]
pub struct ScrobbleCacheStatus {
    pub pending_count: i64,
    pub last_error: Option<String>,
    pub last_attempt: Option<i64>,
}

/// A queued listen as values.
pub struct EntryV {
    pub id: i64,
    pub service: Seq<char>,
    pub artist: Seq<char>,
    pub track: Seq<char>,
    pub album: Option<Seq<char>>,
    pub duration_ms: Option<i64>,
    pub track_number: Option<i32>,
    pub recording_mbid: Option<Seq<char>>,
    pub release_mbid: Option<Seq<char>>,
    pub artist_mbids: Option<Seq<char>>,
    pub release_group_mbid: Option<Seq<char>>,
    pub track_mbid: Option<Seq<char>>,
    pub listened_at: i64,
    pub attempts: i32,
    pub last_attempt: Option<i64>,
    pub last_error: Option<Seq<char>>,
    pub created_at: i64,
}

pub open spec fn entry_v(e: ScrobbleCacheEntry) -> EntryV {
    EntryV {
        id: e.id,
        service: e.service@,
        artist: e.artist@,
        track: e.track@,
        album: opt_v(e.album),
        duration_ms: e.duration_ms,
        track_number: e.track_number,
        recording_mbid: opt_v(e.recording_mbid),
        release_mbid: opt_v(e.release_mbid),
        artist_mbids: opt_v(e.artist_mbids),
        release_group_mbid: opt_v(e.release_group_mbid),
        track_mbid: opt_v(e.track_mbid),
        listened_at: e.listened_at,
        attempts: e.attempts,
        last_attempt: e.last_attempt,
        last_error: opt_v(e.last_error),
        created_at: e.created_at,
    }
}

pub open spec fn entries_view(s: Seq<ScrobbleCacheEntry>) -> Seq<EntryV> {
    s.map_values(|e: ScrobbleCacheEntry| entry_v(e))
}

/// The listens waiting to be sent, in the order they were queued, and the
/// id the next one gets.
pub struct ScrobbleCache {
    pub entries: Vec<ScrobbleCacheEntry>,
    pub next_id: i64,
}

/// The queued listen made of listen `l`, heard at `listened_at`, queued at
/// `now` under `id`.
pub open spec fn queued(l: Listen, listened_at: i64, now: i64, id: i64) -> EntryV {
    EntryV {
        id,
        service: "listenbrainz"@,
        artist: l.artist@,
        track: l.track@,
        album: opt_v(l.album),
        duration_ms: l.duration_ms,
        track_number: l.track_number,
        recording_mbid: opt_v(l.recording_mbid),
        release_mbid: opt_v(l.release_mbid),
        artist_mbids: opt_v(l.artist_mbids),
        release_group_mbid: opt_v(l.release_group_mbid),
        track_mbid: opt_v(l.track_mbid),
        listened_at,
        attempts: 0,
        last_attempt: None,
        last_error: None,
        created_at: now,
    }
}

/// The sort entries of queued listens: by the time they were queued.
pub open spec fn batch_entries(es: Seq<EntryV>) -> Seq<crate::ordering::Entry> {
    Seq::new(es.len(), |i: int| (es[i].created_at as int, Seq::<char>::empty(), i))
}

/// The next batch to send: up to 50 listens, the earliest queued first
/// (those queued at the same time in the order they are held).
pub open spec fn batch_of(es: Seq<EntryV>) -> Seq<EntryV> {
    let o = crate::ordering::ordered(batch_entries(es));
    let n = if o.len() < 50 {
        o.len() as int
    } else {
        50
    };
    o.take(n).map_values(|e: crate::ordering::Entry| es[e.2])
}

/// The queued listens whose id is not in `ids`.
pub open spec fn without_ids(es: Seq<EntryV>, ids: Seq<i64>) -> Seq<EntryV>
    decreases es.len(),
{
    if es.len() == 0 {
        Seq::empty()
    } else {
        let r = without_ids(es.drop_last(), ids);
        if ids.contains(es.last().id) {
            r
        } else {
            r.push(es.last())
        }
    }
}

/// A failed attempt noted on a queued listen: one more attempt (the count
/// stops at the largest `i32`), when, and why.
pub open spec fn attempt_noted(e: EntryV, now: i64, error: Seq<char>) -> EntryV {
    EntryV {
        attempts: if e.attempts < i32::MAX {
            (e.attempts + 1) as i32
        } else {
            e.attempts
        },
        last_attempt: Some(now),
        last_error: Some(error),
        ..e
    }
}

/// A failed attempt noted on the queued listens whose id is in `ids`.
pub open spec fn failure_noted(es: Seq<EntryV>, ids: Seq<i64>, now: i64, error: Seq<char>) -> Seq<EntryV> {
    es.map_values(|e: EntryV| if ids.contains(e.id) { attempt_noted(e, now, error) } else { e })
}

/// The queued listen attempted last: the first of those with the latest
/// attempt time.
pub open spec fn latest_attempt(es: Seq<EntryV>) -> Option<int>
    decreases es.len(),
{
    if es.len() == 0 {
        None
    } else {
        let r = latest_attempt(es.drop_last());
        match es.last().last_attempt {
            None => r,
            Some(t) => match r {
                None => Some(es.len() - 1),
                Some(i) => if t > es[i].last_attempt.unwrap() {
                    Some(es.len() - 1)
                } else {
                    Some(i)
                },
            },
        }
    }
}

/// The text a rejected submission leaves: "HTTP {status}: " and the
/// reply's body, or "HTTP error {status}" when there was none.
pub open spec fn rejection_text(status: u16, body: Option<Seq<char>>) -> Seq<char> {
    "HTTP "@ + crate::parsers::int_text(status as int) + ": "@ + match body {
        Some(b) => b,
        None => "HTTP error "@ + crate::parsers::int_text(status as int),
    }
}

/// The message of a submission ListenBrainz answered with status
/// `status` (see `rejection_text`).
pub fn rejection_message(status: u16, body: Option<String>) -> (r: String)
    ensures
        r@ == rejection_text(status, opt_v(body)),
{
    let mut out: Vec<char> = Vec::new();
    push_chars(&mut out, chars_of("HTTP ").as_slice());
    push_int(&mut out, status as i64);
    push_chars(&mut out, chars_of(": ").as_slice());
    match &body {
        Some(b) => {
            push_chars(&mut out, chars_of(b.as_str()).as_slice());
        },
        None => {
            push_chars(&mut out, chars_of("HTTP error ").as_slice());
            push_int(&mut out, status as i64);
        },
    }
    assert(out@ =~= rejection_text(status, opt_v(body)));
    string_of(out.as_slice())
}

fn copy_entry(e: &ScrobbleCacheEntry) -> (r: ScrobbleCacheEntry)
    ensures
        entry_v(r) == entry_v(*e),
{
    ScrobbleCacheEntry {
        id: e.id,
        service: e.service.clone(),
        artist: e.artist.clone(),
        track: e.track.clone(),
        album: copy_opt(&e.album),
        duration_ms: e.duration_ms,
        track_number: e.track_number,
        recording_mbid: copy_opt(&e.recording_mbid),
        release_mbid: copy_opt(&e.release_mbid),
        artist_mbids: copy_opt(&e.artist_mbids),
        release_group_mbid: copy_opt(&e.release_group_mbid),
        track_mbid: copy_opt(&e.track_mbid),
        listened_at: e.listened_at,
        attempts: e.attempts,
        last_attempt: e.last_attempt,
        last_error: copy_opt(&e.last_error),
        created_at: e.created_at,
    }
}

fn id_listed(ids: &[i64], id: i64) -> (b: bool)
    ensures
        b == ids@.contains(id),
{
    let mut i: usize = 0;
    while i < ids.len()
        invariant
            i <= ids@.len(),
            forall|k: int| 0 <= k < i ==> ids@[k] != id,
        decreases ids@.len() - i,
    {
        if ids[i] == id {
            return true;
        }
        i += 1;
    }
    false
}

impl ScrobbleCache {
    /// An empty cache; ids start at 1.
    pub fn new() -> (c: ScrobbleCache)
        ensures
            c.entries@.len() == 0,
            c.next_id == 1,
    {
        ScrobbleCache { entries: Vec::new(), next_id: 1 }
    }

    /// Queues listen `l`, heard at `listened_at`, at time `now`, under the
    /// next id, and returns that id; `Err`, with nothing queued, when no
    /// id is left.
    pub fn enqueue(&mut self, l: &Listen, listened_at: i64, now: i64) -> (r: Result<i64, String>)
        ensures
            match r {
                Ok(id) => {
                    &&& id == old(self).next_id
                    &&& entries_view(final(self).entries@) == entries_view(old(self).entries@).push(
                        queued(*l, listened_at, now, id),
                    )
                    &&& final(self).next_id == old(self).next_id + 1
                },
                Err(_) => old(self).next_id == i64::MAX && final(self).entries == old(self).entries
                    && final(self).next_id == old(self).next_id,
            },
    {
        if self.next_id == i64::MAX {
            return Err(lit("no id is left for another queued listen"));
        }
        let id = self.next_id;
        let e = ScrobbleCacheEntry {
            id,
            service: lit("listenbrainz"),
            artist: l.artist.clone(),
            track: l.track.clone(),
            album: copy_opt(&l.album),
            duration_ms: l.duration_ms,
            track_number: l.track_number,
            recording_mbid: copy_opt(&l.recording_mbid),
            release_mbid: copy_opt(&l.release_mbid),
            artist_mbids: copy_opt(&l.artist_mbids),
            release_group_mbid: copy_opt(&l.release_group_mbid),
            track_mbid: copy_opt(&l.track_mbid),
            listened_at,
            attempts: 0,
            last_attempt: None,
            last_error: None,
            created_at: now,
        };
        let ghost before = entries_view(self.entries@);
        let ghost ev = entry_v(e);
        self.entries.push(e);
        assert(entries_view(self.entries@) =~= before.push(ev));
        self.next_id = id + 1;
        Ok(id)
    }

    /// The next batch to send (see `batch_of`).
    pub fn batch(&self) -> (r: Vec<ScrobbleCacheEntry>)
        ensures
            entries_view(r@) == batch_of(entries_view(self.entries@)),
    {
        let ghost ev = entries_view(self.entries@);
        let mut es: Vec<(i64, Vec<char>, usize)> = Vec::new();
        let mut i: usize = 0;
        while i < self.entries.len()
            invariant
                i <= self.entries@.len(),
                ev == entries_view(self.entries@),
                es@.len() == i,
                forall|q: int| 0 <= q < i ==> (#[trigger] crate::ordering::entries_v(es@)[q]) == (
                    ev[q].created_at as int,
                    Seq::<char>::empty(),
                    q,
                ),
            decreases self.entries@.len() - i,
        {
            let ghost e0 = crate::ordering::entries_v(es@);
            es.push((self.entries[i].created_at, Vec::new(), i));
            assert(ev[i as int] == entry_v(self.entries@[i as int]));
            assert(crate::ordering::entries_v(es@) =~= e0.push((ev[i as int].created_at as int, Seq::<char>::empty(), i as int)));
            i += 1;
        }
        let ghost be = batch_entries(ev);
        assert(crate::ordering::entries_v(es@) =~= be);
        let sorted = crate::ordering::order_entries(es);
        let ghost os = crate::ordering::ordered(be);
        proof {
            crate::ordering::lemma_ordered_members(be);
        }
        assert(crate::ordering::entries_v(sorted@).len() == sorted@.len());
        let n: usize = if sorted.len() < 50 {
            sorted.len()
        } else {
            50
        };
        let mut out: Vec<ScrobbleCacheEntry> = Vec::new();
        let mut k: usize = 0;
        while k < n
            invariant
                k <= n,
                n <= sorted@.len(),
                n == (if sorted@.len() < 50 { sorted@.len() as int } else { 50 }),
                crate::ordering::entries_v(sorted@) == os,
                os == crate::ordering::ordered(be),
                os.len() == be.len(),
                be == batch_entries(ev),
                ev == entries_view(self.entries@),
                forall|q: int| 0 <= q < be.len() ==> be.contains(#[trigger] os[q]),
                entries_view(out@) == os.take(k as int).map_values(|e: crate::ordering::Entry| ev[e.2]),
            decreases n - k,
        {
            assert(os[k as int] == (sorted@[k as int].0 as int, sorted@[k as int].1@, sorted@[k as int].2 as int));
            assert(be.contains(os[k as int]));
            let ghost w = choose|w: int| 0 <= w < be.len() && be[w] == os[k as int];
            let j = sorted[k].2;
            assert(j as int == w);
            assert(ev[j as int] == entry_v(self.entries@[j as int]));
            let ghost o0 = entries_view(out@);
            out.push(copy_entry(&self.entries[j]));
            assert(entries_view(out@) =~= o0.push(ev[j as int]));
            assert(os.take(k + 1).map_values(|e: crate::ordering::Entry| ev[e.2]) =~= os.take(k as int).map_values(
                |e: crate::ordering::Entry| ev[e.2],
            ).push(ev[os[k as int].2]));
            k += 1;
        }
        out
    }

    /// The listens of a batch ListenBrainz accepted leave the cache;
    /// returns how many were sent.
    pub fn record_sent(&mut self, ids: &[i64]) -> (n: u32)
        ensures
            entries_view(final(self).entries@) == without_ids(entries_view(old(self).entries@), ids@),
            final(self).next_id == old(self).next_id,
            n == ids@.len() as u32,
    {
        let ghost ev = entries_view(self.entries@);
        let mut kept: Vec<ScrobbleCacheEntry> = Vec::new();
        let mut i: usize = 0;
        while i < self.entries.len()
            invariant
                i <= self.entries@.len(),
                ev == entries_view(self.entries@),
                entries_view(kept@) == without_ids(ev.take(i as int), ids@),
            decreases self.entries@.len() - i,
        {
            assert(ev.take(i + 1).drop_last() =~= ev.take(i as int));
            assert(ev.take(i + 1).last() == entry_v(self.entries@[i as int]));
            if !id_listed(ids, self.entries[i].id) {
                let ghost k0 = entries_view(kept@);
                kept.push(copy_entry(&self.entries[i]));
                assert(entries_view(kept@) =~= k0.push(entry_v(self.entries@[i as int])));
            }
            i += 1;
        }
        assert(ev.take(i as int) =~= ev);
        self.entries = kept;
        #[verifier::truncate] (ids.len() as u32)
    }

    /// Notes a failed attempt at time `now`, for reason `error`, on the
    /// listens whose id is in `ids` (see `failure_noted`).
    pub fn record_failure(&mut self, ids: &[i64], now: i64, error: &str)
        ensures
            entries_view(final(self).entries@) == failure_noted(entries_view(old(self).entries@), ids@, now, error@),
            final(self).next_id == old(self).next_id,
    {
        let ghost ev = entries_view(self.entries@);
        let ghost target = failure_noted(ev, ids@, now, error@);
        let mut i: usize = 0;
        while i < self.entries.len()
            invariant
                i <= self.entries@.len(),
                self.entries@.len() == ev.len(),
                target == failure_noted(ev, ids@, now, error@),
                target.len() == ev.len(),
                forall|q: int| 0 <= q < i ==> (#[trigger] entries_view(self.entries@)[q]) == target[q],
                forall|q: int| i <= q < self.entries@.len() ==> (#[trigger] entries_view(self.entries@)[q]) == ev[q],
                self.next_id == old(self).next_id,
            decreases self.entries@.len() - i,
        {
            assert(entries_view(self.entries@)[i as int] == entry_v(self.entries@[i as int]));
            if id_listed(ids, self.entries[i].id) {
                let ghost before = entries_view(self.entries@);
                let mut e = copy_entry(&self.entries[i]);
                e.attempts = if e.attempts < i32::MAX {
                    e.attempts + 1
                } else {
                    e.attempts
                };
                e.last_attempt = Some(now);
                e.last_error = Some(lit(error));
                let ghost nv = entry_v(e);
                self.entries.set(i, e);
                assert(entries_view(self.entries@) =~= before.update(i as int, nv));
            }
            i += 1;
        }
        assert(entries_view(self.entries@) =~= target);
    }

    /// How the cache stands: how many listens wait, and the time and
    /// reason of the latest attempt (see `latest_attempt`).
    pub fn status(&self) -> (r: ScrobbleCacheStatus)
        requires
            self.entries@.len() <= i64::MAX,
        ensures
            r.pending_count == self.entries@.len(),
            match latest_attempt(entries_view(self.entries@)) {
                Some(i) => r.last_attempt == entries_view(self.entries@)[i].last_attempt && opt_v(r.last_error)
                    == entries_view(self.entries@)[i].last_error,
                None => r.last_attempt is None && r.last_error is None,
            },
    {
        let ghost ev = entries_view(self.entries@);
        let mut best: Option<usize> = None;
        let mut i: usize = 0;
        while i < self.entries.len()
            invariant
                i <= self.entries@.len(),
                ev == entries_view(self.entries@),
                match best {
                    Some(b) => latest_attempt(ev.take(i as int)) == Some(b as int) && b < i && ev[b as int].last_attempt is Some,
                    None => latest_attempt(ev.take(i as int)) is None,
                },
            decreases self.entries@.len() - i,
        {
            assert(ev.take(i + 1).drop_last() =~= ev.take(i as int));
            assert(ev.take(i + 1).last() == entry_v(self.entries@[i as int]));
            proof {
                if let Some(b) = best {
                    assert(ev.take(i + 1)[b as int] == ev[b as int]);
                }
            }
            match self.entries[i].last_attempt {
                None => {},
                Some(t) => {
                    match best {
                        None => {
                            best = Some(i);
                        },
                        Some(b) => {
                            assert(ev[b as int] == entry_v(self.entries@[b as int]));
                            let bt = match self.entries[b].last_attempt {
                                Some(x) => x,
                                None => 0,
                            };
                            if t > bt {
                                best = Some(i);
                            }
                        },
                    }
                },
            }
            i += 1;
        }
        assert(ev.take(i as int) =~= ev);
        match best {
            Some(b) => {
                assert(ev[b as int] == entry_v(self.entries@[b as int]));
                ScrobbleCacheStatus {
                    pending_count: self.entries.len() as i64,
                    last_error: copy_opt(&self.entries[b].last_error),
                    last_attempt: self.entries[b].last_attempt,
                }
            },
            None => ScrobbleCacheStatus { pending_count: self.entries.len() as i64, last_error: None, last_attempt: None },
        }
    }
}

/// A flush may run: scrobbling on, not paused, and a token set.
pub fn flush_allowed(s: &ScrobblerSettings) -> (b: bool)
    ensures
        b == (s.listenbrainz_enabled && !s.scrobble_paused && trim(s.listenbrainz_token@).len() > 0),
{
    if !s.listenbrainz_enabled || s.scrobble_paused {
        return false;
    }
    trimmed_token(s).len() > 0
}

/// A flush asked for by hand needs a token: `Err` when none is set.
pub fn manual_flush_token(s: &ScrobblerSettings) -> (r: Result<String, String>)
    ensures
        match r {
            Ok(t) => trim(s.listenbrainz_token@).len() > 0 && t@ == s.listenbrainz_token@,
            Err(e) => trim(s.listenbrainz_token@).len() == 0 && e@ == "ListenBrainz user token is not configured"@,
        },
{
    if trimmed_token(s).len() == 0 {
        Err(lit("ListenBrainz user token is not configured"))
    } else {
        Ok(s.listenbrainz_token.clone())
    }
}


/// When sending is paused or ListenBrainz is off, nothing goes out: no
/// scrobble is queued, no "playing now" is sent and no rating feedback is
/// sent. A radio stream is never scrobbled nor
/// announced. Otherwise a track is queued exactly when its known length,
/// in whole seconds, reaches the minimum (always, when its length is not
/// known).
pub proof fn paused_or_off_sends_nothing(
    s: ScrobblerSettings,
    is_radio: bool,
    length_nanosec: Option<i64>,
    recording_mbid: Option<Seq<char>>,
)
    ensures
        s.scrobble_paused || !s.listenbrainz_enabled ==> {
            &&& !queues_scrobble(settings_v(s), is_radio, length_nanosec)
            &&& !sends_now_playing(settings_v(s), is_radio)
            &&& !sends_feedback(settings_v(s), recording_mbid)
        },
        is_radio ==> !queues_scrobble(settings_v(s), is_radio, length_nanosec) && !sends_now_playing(
            settings_v(s),
            is_radio,
        ),
        s.listenbrainz_enabled && !s.scrobble_paused && !is_radio && length_nanosec is None ==> queues_scrobble(
            settings_v(s),
            is_radio,
            length_nanosec,
        ),
        forall|ns: i64|
            s.listenbrainz_enabled && !s.scrobble_paused && !is_radio && length_nanosec == Some(ns) && ns >= 0
                ==> (#[trigger] queues_scrobble(settings_v(s), is_radio, Some(ns)) <==> ns / 1_000_000_000
                >= s.min_duration_secs),
        !s.scrobble_now_playing ==> !sends_now_playing(settings_v(s), is_radio),
        trim(s.listenbrainz_token@).len() == 0 ==> !sends_now_playing(settings_v(s), is_radio) && !sends_feedback(
            settings_v(s),
            recording_mbid,
        ),
{
    assert forall|ns: i64|
        s.listenbrainz_enabled && !s.scrobble_paused && !is_radio && length_nanosec == Some(ns) && ns >= 0 implies (
        #[trigger] queues_scrobble(settings_v(s), is_radio, Some(ns)) <==> ns / 1_000_000_000 >= s.min_duration_secs) by {
        assert((ns as u64) as int == ns);
    }
}

} // verus!
