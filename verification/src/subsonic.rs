//! The Subsonic API: sign-in parameters (salted token, hex password or API
//! key), the `subsonic://` track URIs kept in the library, and the text
//! shown for the API's error codes.
use vstd::prelude::*;
use vstd::utf8::{decode_utf8, encode_scalar, encode_utf8, valid_utf8};
use crate::parsers::{decimal, int_text, push_int};
use crate::text::{chars_of, chars_eq, find_char, is_digit, parse_i64_spec, push_chars, push_str, string_of, trim, trim_chars};
use md5::Digest;

verus! {

/// The Subsonic REST API version spoken.
pub const API_VERSION: &'static str = "1.16.1";

/// The client name sent as `c=`.
pub const CLIENT_NAME: &'static str = "Luminous";

/// The OpenSubsonic extension a server lists when it accepts API keys.
pub const API_KEY_EXTENSION: &'static str = "apiKeyAuthentication";

/// The scheme of library paths for remote tracks.
pub const URI_SCHEME: &'static str = "subsonic://";

// ---------------------------------------------------------------------------
// Hex
// ---------------------------------------------------------------------------

/// Lowercase hex digit for `d < 16`.
pub open spec fn hex_digit(d: nat) -> char {
    if d < 10 {
        crate::parsers::digit_char(d)
    } else if d == 10 {
        'a'
    } else if d == 11 {
        'b'
    } else if d == 12 {
        'c'
    } else if d == 13 {
        'd'
    } else if d == 14 {
        'e'
    } else {
        'f'
    }
}

/// Bytes as two lowercase hex digits each (`{:02x}`).
pub open spec fn hex_lower(b: Seq<u8>) -> Seq<char>
    decreases b.len(),
{
    if b.len() == 0 {
        Seq::empty()
    } else {
        hex_lower(b.drop_last()) + seq![hex_digit((b.last() / 16) as nat), hex_digit((b.last() % 16) as nat)]
    }
}

fn hex_char(d: u8) -> (c: char)
    requires
        d < 16,
    ensures
        c == hex_digit(d as nat),
{
    if d < 10 {
        crate::parsers::digit_char_of(d as u64)
    } else if d == 10 {
        'a'
    } else if d == 11 {
        'b'
    } else if d == 12 {
        'c'
    } else if d == 13 {
        'd'
    } else if d == 14 {
        'e'
    } else {
        'f'
    }
}

/// See `hex_lower`.
pub fn hex_of(b: &[u8]) -> (r: Vec<char>)
    ensures
        r@ == hex_lower(b@),
{
    let mut out: Vec<char> = Vec::new();
    let mut i: usize = 0;
    while i < b.len()
        invariant
            i <= b@.len(),
            out@ == hex_lower(b@.take(i as int)),
        decreases b@.len() - i,
    {
        assert(b@.take(i + 1).drop_last() =~= b@.take(i as int));
        assert(b@.take(i + 1).last() == b@[i as int]);
        let x = b[i];
        out.push(hex_char(x / 16));
        out.push(hex_char(x % 16));
        i += 1;
    }
    assert(b@.take(i as int) =~= b@);
    out
}

// ---------------------------------------------------------------------------
// Authentication
// ---------------------------------------------------------------------------

/// The MD5 digest of `data`.
pub uninterp spec fn md5_of(data: Seq<u8>) -> Seq<u8>;

/// `Md5::digest` (the `md-5` crate): the 16-byte MD5 digest of `data`. The
/// contract names the digest as a function of `data` and states its length.
#[verifier::external_body]
fn md5_digest(data: &[u8]) -> (r: Vec<u8>)
    ensures
        r@ == md5_of(data@),
        r@.len() == 16,
{
    md5::Md5::digest(data).to_vec()
}

/// The salted token: lowercase hex of `md5(password + salt)` over UTF-8.
pub open spec fn token_of(password: Seq<char>, salt: Seq<char>) -> Seq<char> {
    hex_lower(md5_of(encode_utf8(password + salt)))
}

/// Salted token for `password`: lowercase hex `md5(password + salt)`.
pub fn auth_token(password: &str, salt: &str) -> (r: String)
    ensures
        r@ == token_of(password@, salt@),
{
    let mut joined = chars_of(password);
    push_str(&mut joined, salt);
    let s = string_of(joined.as_slice());
    let bytes = s.as_str().as_bytes_vec();
    let digest = md5_digest(bytes.as_slice());
    string_of(hex_of(digest.as_slice()).as_slice())
}

/// `c` is a lowercase hex digit.
pub open spec fn is_lower_hex(c: char) -> bool {
    ('0' <= c && c <= '9') || ('a' <= c && c <= 'f')
}

/// `uuid::Uuid::new_v4().simple().to_string()`: a random version-4 UUID
/// written as 32 lowercase hex digits. Only that shape is stated; the value
/// is random.
#[verifier::external_body]
fn new_salt() -> (r: String)
    ensures
        r@.len() == 32,
        forall|i: int| 0 <= i < 32 ==> is_lower_hex(#[trigger] r@[i]),
{
    uuid::Uuid::new_v4().simple().to_string()
}

/// How requests to a server are authenticated.
#[derive(Clone, Copy, Debug, PartialEq, Eq, Structural)]
pub enum AuthMode {
    /// Salted token, `t = md5(password + salt)`.
    Token,
    /// Legacy `p=enc:<hex(password)>`.
    Password,
    /// OpenSubsonic `apiKey=<key>`, no username.
    ApiKey,
}

/// The stored name of a mode.
pub open spec fn mode_name(m: AuthMode) -> Seq<char> {
    match m {
        AuthMode::Token => "token"@,
        AuthMode::Password => "password"@,
        AuthMode::ApiKey => "apiKey"@,
    }
}

/// The mode stored under `v`; anything unknown is token sign-in.
pub open spec fn mode_named(v: Seq<char>) -> AuthMode {
    if v == "password"@ {
        AuthMode::Password
    } else if v == "apiKey"@ {
        AuthMode::ApiKey
    } else {
        AuthMode::Token
    }
}

impl AuthMode {
    pub fn as_str(self) -> (s: &'static str)
        ensures
            s@ == mode_name(self),
    {
        match self {
            AuthMode::Token => "token",
            AuthMode::Password => "password",
            AuthMode::ApiKey => "apiKey",
        }
    }

    /// Parses a stored mode; anything unknown falls back to `Token`.
    pub fn from_db(value: &str) -> (m: AuthMode)
        ensures
            m == mode_named(value@),
    {
        let v = chars_of(value);
        if chars_eq(v.as_slice(), chars_of("password").as_slice()) {
            AuthMode::Password
        } else if chars_eq(v.as_slice(), chars_of("apiKey").as_slice()) {
            AuthMode::ApiKey
        } else {
            AuthMode::Token
        }
    }

    /// The default mode: token sign-in.
    pub fn default_mode() -> (m: AuthMode)
        ensures
            m == AuthMode::Token,
    {
        AuthMode::Token
    }
}

/// Reading back a stored mode gives the mode.
pub proof fn auth_mode_round_trip(m: AuthMode)
    ensures
        mode_named(mode_name(m)) == m,
{
    reveal_strlit("token");
    reveal_strlit("password");
    reveal_strlit("apiKey");
    assert("token"@.len() != "password"@.len());
    assert("token"@ != "apiKey"@) by {
        assert("token"@[0] != "apiKey"@[0]);
    }
    assert("apiKey"@.len() != "password"@.len());
}

/// A server's credentials: `secret` is the password, or the API key.
#[derive(Clone, PartialEq, Eq)]
pub struct Auth {
    pub mode: AuthMode,
    pub username: String,
    pub secret: String,
}

/// One query parameter as text.
pub open spec fn param_views(p: Seq<(&'static str, String)>) -> Seq<(Seq<char>, Seq<char>)> {
    p.map_values(|x: (&'static str, String)| (x.0@, x.1@))
}

/// `v`, `c`, `f`.
pub open spec fn client_param_views() -> Seq<(Seq<char>, Seq<char>)> {
    seq![("v"@, "1.16.1"@), ("c"@, "Luminous"@), ("f"@, "json"@)]
}

/// The parameters every request carries besides the credentials.
pub fn client_params() -> (r: [(&'static str, String); 3])
    ensures
        param_views(r@) == client_param_views(),
{
    let r = [
        ("v", string_of(chars_of(API_VERSION).as_slice())),
        ("c", string_of(chars_of(CLIENT_NAME).as_slice())),
        ("f", string_of(chars_of("json").as_slice())),
    ];
    assert(param_views(r@) =~= client_param_views());
    r
}

impl Auth {
    pub fn new(mode: AuthMode, username: &str, secret: &str) -> (a: Auth)
        ensures
            a.mode == mode,
            a.username@ == username@,
            a.secret@ == secret@,
    {
        Auth {
            mode,
            username: string_of(chars_of(username).as_slice()),
            secret: string_of(chars_of(secret).as_slice()),
        }
    }

    /// Token sign-in with `username` / `password`.
    pub fn token(username: &str, password: &str) -> (a: Auth)
        ensures
            a.mode == AuthMode::Token,
            a.username@ == username@,
            a.secret@ == password@,
    {
        Self::new(AuthMode::Token, username, password)
    }

    /// What the credentials may be shown as: the secret is never included.
    pub fn debug_text(&self) -> (s: String)
        ensures
            s@ == "Auth { mode: "@ + mode_label(self.mode) + ", username: \""@ + self.username@
                + "\", secret: \"<redacted>\" }"@,
    {
        let mut out: Vec<char> = Vec::new();
        push_str(&mut out, "Auth { mode: ");
        let label = match self.mode {
            AuthMode::Token => "Token",
            AuthMode::Password => "Password",
            AuthMode::ApiKey => "ApiKey",
        };
        push_str(&mut out, label);
        push_str(&mut out, ", username: \"");
        push_str(&mut out, self.username.as_str());
        push_str(&mut out, "\", secret: \"<redacted>\" }");
        string_of(out.as_slice())
    }

    /// The query parameters of a request: the credentials of the mode
    /// (a fresh random salt each call in token mode), then `v`, `c`, `f`.
    pub fn params(&self) -> (r: Vec<(&'static str, String)>)
        ensures
            match self.mode {
                AuthMode::Token => exists|salt: Seq<char>|
                    #![trigger token_of(self.secret@, salt)]
                    salt.len() == 32 && param_views(r@) == seq![
                        ("u"@, self.username@),
                        ("t"@, token_of(self.secret@, salt)),
                        ("s"@, salt),
                    ] + client_param_views(),
                AuthMode::Password => param_views(r@) == seq![
                    ("u"@, self.username@),
                    ("p"@, "enc:"@ + hex_lower(encode_utf8(self.secret@))),
                ] + client_param_views(),
                AuthMode::ApiKey => param_views(r@) == seq![("apiKey"@, self.secret@)]
                    + client_param_views(),
            },
    {
        let mut params: Vec<(&'static str, String)> = Vec::new();
        let ghost mut salt_v: Seq<char> = Seq::empty();
        match self.mode {
            AuthMode::Token => {
                let salt = new_salt();
                proof {
                    salt_v = salt@;
                }
                params.push(("u", self.username.clone()));
                params.push(("t", auth_token(self.secret.as_str(), salt.as_str())));
                params.push(("s", salt));
            },
            AuthMode::Password => {
                let bytes = self.secret.as_str().as_bytes_vec();
                let mut p: Vec<char> = Vec::new();
                push_str(&mut p, "enc:");
                let h = hex_of(bytes.as_slice());
                push_chars(&mut p, h.as_slice());
                params.push(("u", self.username.clone()));
                params.push(("p", string_of(p.as_slice())));
            },
            AuthMode::ApiKey => {
                params.push(("apiKey", self.secret.clone()));
            },
        }
        let ghost head = param_views(params@);
        let cp = client_params();
        let mut k: usize = 0;
        while k < 3
            invariant
                k <= 3,
                param_views(cp@) == client_param_views(),
                param_views(params@) == head + client_param_views().take(k as int),
            decreases 3 - k,
        {
            let ghost before = param_views(params@);
            params.push((cp[k].0, cp[k].1.clone()));
            assert(param_views(params@) =~= before.push(client_param_views()[k as int]));
            assert(client_param_views().take(k + 1) =~= client_param_views().take(k as int).push(
                client_param_views()[k as int],
            ));
            k += 1;
        }
        assert(client_param_views().take(3) =~= client_param_views());
        proof {
            assert(param_views(params@) =~= head + client_param_views());
            if self.mode == AuthMode::Token {
                assert(head =~= seq![
                    ("u"@, self.username@),
                    ("t"@, token_of(self.secret@, salt_v)),
                    ("s"@, salt_v),
                ]);
            }
        }
        params
    }
}

/// The name `Debug` gives a mode.
pub open spec fn mode_label(m: AuthMode) -> Seq<char> {
    match m {
        AuthMode::Token => "Token"@,
        AuthMode::Password => "Password"@,
        AuthMode::ApiKey => "ApiKey"@,
    }
}

} // verus!

verus! {

// ---------------------------------------------------------------------------
// Errors
// ---------------------------------------------------------------------------

/// The `error` object of a failed response.
#[derive(Debug, Clone, PartialEq, Eq)]
pub struct ApiError {
    pub code: i64,
    pub message: String,
}

/// A failed response, kept structured.
#[derive(Debug, Clone, PartialEq, Eq)]
pub struct SubsonicApiError(pub ApiError);

/// The text shown for an API error: a sentence per known code, else the
/// server's own (trimmed) message, else the code.
pub open spec fn api_error_text(code: i64, message: Seq<char>) -> Seq<char> {
    let msg = trim(message);
    if code == 10 {
        "The server rejected the request (missing parameter: "@ + msg + ")"@
    } else if code == 20 {
        "The server needs a newer Subsonic client version than Luminous supports"@
    } else if code == 30 {
        "The server's Subsonic API version is too old for Luminous"@
    } else if code == 40 {
        "Wrong username or password"@
    } else if code == 41 {
        "The server can't check a token sign-in (common with LDAP logins) — try the Password sign-in method"@
    } else if code == 42 {
        "The server doesn't support this sign-in method"@
    } else if code == 43 {
        "The server received more than one kind of sign-in details"@
    } else if code == 44 {
        "The server rejected the API key"@
    } else if code == 50 {
        "This account isn't allowed to do that on the server"@
    } else if code == 60 {
        "The server's trial period has ended"@
    } else if code == 70 {
        "Not found on the server"@
    } else if msg.len() > 0 {
        "Server error: "@ + msg
    } else {
        "Server error (code "@ + int_text(code as int) + ")"@
    }
}

fn lit(s: &str) -> (r: String)
    ensures
        r@ == s@,
{
    string_of(chars_of(s).as_slice())
}

/// User-facing text for a Subsonic API error code.
pub fn describe_api_error(err: &ApiError) -> (r: String)
    ensures
        r@ == api_error_text(err.code, err.message@),
{
    let msg = trim_chars(chars_of(err.message.as_str()).as_slice());
    match err.code {
        10 => {
            let mut out: Vec<char> = Vec::new();
            push_str(&mut out, "The server rejected the request (missing parameter: ");
            push_chars(&mut out, msg.as_slice());
            push_str(&mut out, ")");
            string_of(out.as_slice())
        },
        20 => lit("The server needs a newer Subsonic client version than Luminous supports"),
        30 => lit("The server's Subsonic API version is too old for Luminous"),
        40 => lit("Wrong username or password"),
        41 => lit(
            "The server can't check a token sign-in (common with LDAP logins) — try the Password sign-in method",
        ),
        42 => lit("The server doesn't support this sign-in method"),
        43 => lit("The server received more than one kind of sign-in details"),
        44 => lit("The server rejected the API key"),
        50 => lit("This account isn't allowed to do that on the server"),
        60 => lit("The server's trial period has ended"),
        70 => lit("Not found on the server"),
        code => {
            let mut out: Vec<char> = Vec::new();
            if msg.len() > 0 {
                push_str(&mut out, "Server error: ");
                push_chars(&mut out, msg.as_slice());
            } else {
                push_str(&mut out, "Server error (code ");
                push_int(&mut out, code);
                push_str(&mut out, ")");
            }
            string_of(out.as_slice())
        },
    }
}

impl SubsonicApiError {
    /// The text the error displays: see `describe_api_error`.
    pub fn to_text(&self) -> (r: String)
        ensures
            r@ == api_error_text(self.0.code, self.0.message@),
    {
        describe_api_error(&self.0)
    }
}

/// What a response envelope says about success: its `status` (empty when
/// missing or not text) and its `error` object, when that reads as one.
pub struct EnvelopeStatus {
    pub status: String,
    pub error: Option<ApiError>,
}

/// The error a response envelope stands for: none when its status is
/// `ok`; else its `error` object, or code 0 with a message naming the
/// unexpected status.
pub fn envelope_error(env: &EnvelopeStatus) -> (r: Option<ApiError>)
    ensures
        env.status@ == "ok"@ ==> r is None,
        env.status@ != "ok"@ ==> (r matches Some(e) && match env.error {
            Some(x) => e.code == x.code && e.message@ == x.message@,
            None => e.code == 0 && e.message@ == "unexpected status '"@ + env.status@ + "'"@,
        }),
{
    if chars_eq(chars_of(env.status.as_str()).as_slice(), chars_of("ok").as_slice()) {
        return None;
    }
    match &env.error {
        Some(x) => Some(ApiError { code: x.code, message: x.message.clone() }),
        None => {
            let mut out: Vec<char> = Vec::new();
            push_str(&mut out, "unexpected status '");
            push_str(&mut out, env.status.as_str());
            push_str(&mut out, "'");
            Some(ApiError { code: 0, message: string_of(out.as_slice()) })
        },
    }
}

/// The message for a response envelope that reports a failure, `None` for
/// a successful one.
pub fn describe_envelope(env: &EnvelopeStatus) -> (r: Option<String>)
    ensures
        env.status@ == "ok"@ ==> r is None,
        env.status@ != "ok"@ ==> (r matches Some(t) && t@ == match env.error {
            Some(x) => api_error_text(x.code, x.message@),
            None => api_error_text(0, "unexpected status '"@ + env.status@ + "'"@),
        }),
{
    match envelope_error(env) {
        Some(e) => Some(describe_api_error(&e)),
        None => None,
    }
}

// ---------------------------------------------------------------------------
// Server facts
// ---------------------------------------------------------------------------

/// Server identification carried by every response envelope.
#[derive(Debug, Clone, PartialEq, Eq)]
pub struct ServerInfo {
    pub version: String,
    pub server_type: Option<String>,
    pub server_version: Option<String>,
    pub open_subsonic: bool,
}

/// An OpenSubsonic extension a server advertises.
#[derive(Debug, Clone, PartialEq, Eq)]
pub struct OpenSubsonicExtension {
    pub name: String,
    pub versions: Vec<i64>,
}

/// What probing a server learns.
#[derive(Debug, Clone, PartialEq, Eq)]
pub struct ServerProbe {
    pub info: ServerInfo,
    pub extensions: Vec<OpenSubsonicExtension>,
}

impl ServerProbe {
    /// The names of the advertised extensions, in order.
    pub fn extension_names(&self) -> (r: Vec<String>)
        ensures
            r@.map_values(|s: String| s@) == self.extensions@.map_values(
                |e: OpenSubsonicExtension| e.name@,
            ),
    {
        let mut out: Vec<String> = Vec::new();
        let mut i: usize = 0;
        while i < self.extensions.len()
            invariant
                i <= self.extensions@.len(),
                out@.map_values(|s: String| s@) == self.extensions@.take(i as int).map_values(
                    |e: OpenSubsonicExtension| e.name@,
                ),
            decreases self.extensions@.len() - i,
        {
            let ghost before = out@.map_values(|s: String| s@);
            let nm = self.extensions[i].name.clone();
            assert(nm@ == self.extensions@[i as int].name@);
            out.push(nm);
            assert(out@.map_values(|s: String| s@) =~= before.push(self.extensions@[i as int].name@));
            assert(out@.map_values(|s: String| s@) =~= self.extensions@.take(i + 1).map_values(
                |e: OpenSubsonicExtension| e.name@,
            ));
            i += 1;
        }
        assert(self.extensions@.take(i as int) =~= self.extensions@);
        out
    }

    /// The server accepts API-key sign-in.
    pub fn supports_api_key(&self) -> (b: bool)
        ensures
            b == exists|i: int|
                0 <= i < self.extensions@.len() && (#[trigger] self.extensions@[i]).name@
                    == "apiKeyAuthentication"@,
    {
        let key = chars_of(API_KEY_EXTENSION);
        let mut i: usize = 0;
        while i < self.extensions.len()
            invariant
                i <= self.extensions@.len(),
                key@ == "apiKeyAuthentication"@,
                forall|k: int| 0 <= k < i ==> (#[trigger] self.extensions@[k]).name@ != key@,
            decreases self.extensions@.len() - i,
        {
            if chars_eq(chars_of(self.extensions[i].name.as_str()).as_slice(), key.as_slice()) {
                return true;
            }
            i += 1;
        }
        false
    }
}

/// What a star / unstar call targets.
#[derive(Debug, Clone, PartialEq, Eq)]
pub enum StarTarget {
    Song(String),
    Album(String),
}

// ---------------------------------------------------------------------------
// Track URIs
// ---------------------------------------------------------------------------

/// A byte left as is in a track id: ASCII letters and digits, `-`, `_`, `.`.
pub open spec fn id_byte_kept(b: u8) -> bool {
    (48 <= b <= 57) || (65 <= b <= 90) || (97 <= b <= 122) || b == 45 || b == 95 || b == 46
}

/// Uppercase hex digit for `d < 16`.
pub open spec fn hex_upper_digit(d: nat) -> char {
    if d < 10 {
        crate::parsers::digit_char(d)
    } else if d == 10 {
        'A'
    } else if d == 11 {
        'B'
    } else if d == 12 {
        'C'
    } else if d == 13 {
        'D'
    } else if d == 14 {
        'E'
    } else {
        'F'
    }
}

/// Percent-encoding of UTF-8 bytes: a kept byte stands for itself, any
/// other becomes `%` and two uppercase hex digits (`utf8_percent_encode`
/// with the set that keeps letters, digits, `-`, `_`, `.`).
pub open spec fn id_escaped(b: Seq<u8>) -> Seq<char>
    decreases b.len(),
{
    if b.len() == 0 {
        Seq::empty()
    } else {
        id_escaped(b.drop_last()) + if id_byte_kept(b.last()) {
            seq![b.last() as char]
        } else {
            seq!['%', hex_upper_digit((b.last() / 16) as nat), hex_upper_digit((b.last() % 16) as nat)]
        }
    }
}

fn hex_upper_char(d: u8) -> (c: char)
    requires
        d < 16,
    ensures
        c == hex_upper_digit(d as nat),
{
    if d < 10 {
        crate::parsers::digit_char_of(d as u64)
    } else if d == 10 {
        'A'
    } else if d == 11 {
        'B'
    } else if d == 12 {
        'C'
    } else if d == 13 {
        'D'
    } else if d == 14 {
        'E'
    } else {
        'F'
    }
}

/// See `id_escaped`.
fn escape_id(b: &[u8]) -> (r: Vec<char>)
    ensures
        r@ == id_escaped(b@),
{
    let mut out: Vec<char> = Vec::new();
    let mut i: usize = 0;
    while i < b.len()
        invariant
            i <= b@.len(),
            out@ == id_escaped(b@.take(i as int)),
        decreases b@.len() - i,
    {
        assert(b@.take(i + 1).drop_last() =~= b@.take(i as int));
        assert(b@.take(i + 1).last() == b@[i as int]);
        let x = b[i];
        let ghost before = out@;
        if (48 <= x && x <= 57) || (65 <= x && x <= 90) || (97 <= x && x <= 122) || x == 45 || x == 95
            || x == 46 {
            out.push(x as char);
        } else {
            out.push('%');
            out.push(hex_upper_char(x / 16));
            out.push(hex_upper_char(x % 16));
        }
        assert(out@ =~= id_escaped(b@.take(i + 1)));
        i += 1;
    }
    assert(b@.take(i as int) =~= b@);
    out
}

/// The library path of a remote track.
pub open spec fn track_uri_text(server_id: i64, track_id: Seq<char>) -> Seq<char> {
    "subsonic://"@ + int_text(server_id as int) + "/"@ + id_escaped(encode_utf8(track_id))
}

/// Builds the library path for a remote track: `subsonic://{server}/{id}`,
/// the id percent-encoded.
pub fn track_uri(server_id: i64, track_id: &str) -> (r: String)
    ensures
        r@ == track_uri_text(server_id, track_id@),
{
    let mut out: Vec<char> = Vec::new();
    push_str(&mut out, URI_SCHEME);
    push_int(&mut out, server_id);
    push_str(&mut out, "/");
    let e = escape_id(track_id.as_bytes_vec().as_slice());
    push_chars(&mut out, e.as_slice());
    string_of(out.as_slice())
}

/// The value of hex digit byte `c`, either case.
pub open spec fn hex_value(c: u8) -> Option<nat> {
    if 48 <= c <= 57 {
        Some((c - 48) as nat)
    } else if 97 <= c <= 102 {
        Some((c - 87) as nat)
    } else if 65 <= c <= 70 {
        Some((c - 55) as nat)
    } else {
        None
    }
}

/// Percent-decoding of bytes: `%` followed by two hex digits becomes the
/// byte they spell; every other byte stands for itself.
pub open spec fn percent_decoded(b: Seq<u8>) -> Seq<u8>
    decreases b.len(),
{
    if b.len() == 0 {
        Seq::empty()
    } else if b[0] == 37 && b.len() >= 3 && hex_value(b[1]) is Some && hex_value(b[2]) is Some {
        seq![(hex_value(b[1]).unwrap() * 16 + hex_value(b[2]).unwrap()) as u8] + percent_decoded(b.skip(3))
    } else {
        seq![b[0]] + percent_decoded(b.drop_first())
    }
}

/// Percent-decoding the UTF-8 bytes of `s`, then reading them as strict
/// UTF-8: `None` when they are not valid UTF-8.
pub open spec fn id_decoded(s: Seq<char>) -> Option<Seq<char>> {
    let b = percent_decoded(encode_utf8(s));
    if valid_utf8(b) {
        Some(decode_utf8(b))
    } else {
        None
    }
}

/// `percent_encoding::percent_decode_str(s).decode_utf8()`: the contract
/// states what the crate's source does, `percent_decoded` on the text's
/// UTF-8 bytes, then strict UTF-8 decoding.
#[verifier::external_body]
fn decode_track_id(s: &str) -> (r: Option<String>)
    ensures
        opt_text(r) == id_decoded(s@),
{
    match percent_encoding::percent_decode_str(s).decode_utf8() {
        Ok(c) => Some(c.into_owned()),
        Err(_) => None,
    }
}

pub open spec fn opt_text(o: Option<String>) -> Option<Seq<char>> {
    match o {
        Some(s) => Some(s@),
        None => None,
    }
}

/// What `parse_track_uri` reads from a path.
pub open spec fn parsed_track_uri(path: Seq<char>) -> Option<(i64, Seq<char>)> {
    if !crate::text::has_prefix(path, "subsonic://"@) {
        None
    } else {
        match crate::text::split_once_char(path.skip(11), '/') {
            None => None,
            Some((server, track)) => match crate::text::parse_i64_spec(server) {
                None => None,
                Some(id) => match id_decoded(track) {
                    Some(t) => if t.len() == 0 {
                        None
                    } else {
                        Some((id, t))
                    },
                    None => None,
                },
            },
        }
    }
}

/// Parses a `subsonic://{server}/{id}` path back into its parts.
pub fn parse_track_uri(path: &str) -> (r: Option<(i64, String)>)
    ensures
        match r {
            Some((id, t)) => parsed_track_uri(path@) == Some((id, t@)),
            None => parsed_track_uri(path@) is None,
        },
{
    proof {
        reveal_strlit("subsonic://");
    }
    let p = chars_of(path);
    let rest = match crate::text::strip_prefix_chars(p.as_slice(), chars_of(URI_SCHEME).as_slice()) {
        Some(r) => r,
        None => {
            return None;
        },
    };
    assert(rest@ =~= path@.skip(11));
    let (server, track) = match crate::text::split_once_at_char(rest.as_slice(), '/') {
        Some(x) => x,
        None => {
            return None;
        },
    };
    let id = match crate::text::parse_i64(server.as_slice()) {
        Some(i) => i,
        None => {
            return None;
        },
    };
    let ts = string_of(track.as_slice());
    let t = match decode_track_id(ts.as_str()) {
        Some(t) => t,
        None => {
            return None;
        },
    };
    let empty = String::new();
    if t == empty {
        assert(t@.len() == 0);
        return None;
    }
    proof {
        if t@.len() == 0 {
            assert(t@ =~= empty@);
        }
    }
    Some((id, t))
}

/// What `id_escaped` makes of one byte.
pub open spec fn escaped_byte(x: u8) -> Seq<char> {
    if id_byte_kept(x) {
        seq![x as char]
    } else {
        seq!['%', hex_upper_digit((x / 16) as nat), hex_upper_digit((x % 16) as nat)]
    }
}

proof fn lemma_escaped_front(b: Seq<u8>)
    requires
        b.len() > 0,
    ensures
        id_escaped(b) == escaped_byte(b[0]) + id_escaped(b.drop_first()),
    decreases b.len(),
{
    if b.len() == 1 {
        assert(b.drop_last() =~= Seq::<u8>::empty());
        assert(b.drop_first() =~= Seq::<u8>::empty());
        assert(id_escaped(b) =~= escaped_byte(b[0]) + id_escaped(b.drop_first()));
    } else {
        let m = b.drop_last();
        lemma_escaped_front(m);
        assert(m.drop_first() =~= b.drop_first().drop_last());
        assert(b.drop_first().last() == b.last());
        assert(id_escaped(b) =~= escaped_byte(b[0]) + id_escaped(b.drop_first()));
    }
}

proof fn lemma_utf8_concat(x: Seq<char>, y: Seq<char>)
    ensures
        encode_utf8(x + y) == encode_utf8(x) + encode_utf8(y),
    decreases x.len(),
{
    if x.len() == 0 {
        assert(x + y =~= y);
        assert(encode_utf8(x) + encode_utf8(y) =~= encode_utf8(y));
    } else {
        lemma_utf8_concat(x.drop_first(), y);
        assert((x + y).drop_first() =~= x.drop_first() + y);
        assert((x + y)[0] == x[0]);
        assert(encode_utf8(x + y) =~= encode_utf8(x) + encode_utf8(y));
    }
}

proof fn lemma_ascii_char(c: char)
    requires
        (c as u32) < 128,
    ensures
        encode_utf8(seq![c]) == seq![(c as u32) as u8],
{
    let v = c as u32;
    assert(v & 0x7F == v) by (bit_vector)
        requires
            v < 128,
    ;
    let s = seq![c];
    assert(s.drop_first() =~= Seq::<char>::empty());
    assert(encode_utf8(s.drop_first()) =~= Seq::<u8>::empty());
    assert(s[0] == c);
    assert(encode_scalar(v) =~= seq![(v & 0x7F) as u8]);
    assert(encode_utf8(s) == encode_scalar(s[0] as u32) + encode_utf8(s.drop_first()));
    assert(encode_utf8(s) =~= seq![(c as u32) as u8]);
}

proof fn lemma_hex_digit(d: nat)
    requires
        d < 16,
    ensures
        (hex_upper_digit(d) as u32) < 128,
        hex_value((hex_upper_digit(d) as u32) as u8) == Some(d),
{
}

proof fn lemma_piece_decodes(x: u8, rest: Seq<u8>)
    ensures
        percent_decoded(encode_utf8(escaped_byte(x)) + rest) == seq![x] + percent_decoded(rest),
{
    if id_byte_kept(x) {
        lemma_ascii_char(x as char);
        let b = encode_utf8(escaped_byte(x)) + rest;
        assert(b[0] == x);
        assert(b.drop_first() =~= rest);
    } else {
        let hi = hex_upper_digit((x / 16) as nat);
        let lo = hex_upper_digit((x % 16) as nat);
        lemma_hex_digit((x / 16) as nat);
        lemma_hex_digit((x % 16) as nat);
        lemma_ascii_char('%');
        lemma_ascii_char(hi);
        lemma_ascii_char(lo);
        assert(escaped_byte(x) =~= seq!['%'] + (seq![hi] + seq![lo]));
        lemma_utf8_concat(seq!['%'], seq![hi] + seq![lo]);
        lemma_utf8_concat(seq![hi], seq![lo]);
        let e = encode_utf8(escaped_byte(x));
        assert(e =~= seq![37u8, (hi as u32) as u8, (lo as u32) as u8]);
        let b = e + rest;
        assert(b[0] == 37 && b[1] == (hi as u32) as u8 && b[2] == (lo as u32) as u8);
        assert((x / 16) * 16 + x % 16 == x);
        assert(b.skip(3) =~= rest);
    }
}

proof fn lemma_escaped_decodes(b: Seq<u8>)
    ensures
        percent_decoded(encode_utf8(id_escaped(b))) == b,
    decreases b.len(),
{
    if b.len() == 0 {
        assert(id_escaped(b) =~= Seq::<char>::empty());
        assert(encode_utf8(id_escaped(b)) =~= Seq::<u8>::empty());
    } else {
        lemma_escaped_front(b);
        lemma_utf8_concat(escaped_byte(b[0]), id_escaped(b.drop_first()));
        lemma_escaped_decodes(b.drop_first());
        lemma_piece_decodes(b[0], encode_utf8(id_escaped(b.drop_first())));
        assert(b =~= seq![b[0]] + b.drop_first());
    }
}

proof fn lemma_int_text_parses(v: i64)
    ensures
        parse_i64_spec(int_text(v as int)) == Some(v),
        forall|i: int| 0 <= i < int_text(v as int).len() ==> #[trigger] int_text(v as int)[i] != '/',
{
    if v < 0 {
        let m = (-(v as int)) as nat;
        crate::scrobbler::lemma_decimal_parses(m);
        let s = int_text(v as int);
        assert(s == seq!['-'] + decimal(m));
        assert(s.drop_first() =~= decimal(m));
        assert forall|i: int| 0 <= i < s.len() implies #[trigger] s[i] != '/' by {
            if i > 0 {
                assert(s[i] == decimal(m)[i - 1]);
                assert(is_digit(decimal(m)[i - 1]));
            }
        }
    } else {
        crate::scrobbler::lemma_decimal_parses(v as nat);
        let s = int_text(v as int);
        assert(is_digit(s[0]));
        assert forall|i: int| 0 <= i < s.len() implies #[trigger] s[i] != '/' by {
            assert(is_digit(s[i]));
        }
    }
}

/// Only `subsonic://` paths with a decimal server id, a `/` and a
/// non-empty track id are read: any other path gives nothing.
pub proof fn parse_track_uri_refuses_other_paths(path: Seq<char>)
    ensures
        !crate::text::has_prefix(path, "subsonic://"@) ==> parsed_track_uri(path) is None,
        crate::text::has_prefix(path, "subsonic://"@) && !path.skip(11).contains('/') ==> parsed_track_uri(path)
            is None,
        crate::text::has_prefix(path, "subsonic://"@) && path.len() > 11 && path.last() == '/'
            && crate::text::index_of(path.skip(11), '/') == Some((path.len() - 12) as nat) ==> parsed_track_uri(
            path,
        ) is None,
{
    let rest = path.skip(11);
    crate::text::lemma_index_of_bounds(rest, '/');
    if crate::text::has_prefix(path, "subsonic://"@) && !rest.contains('/') {
        if let Some(i) = crate::text::index_of(rest, '/') {
            assert(rest.contains(rest[i as int]));
        }
    }
    if crate::text::has_prefix(path, "subsonic://"@) && path.len() > 11 && path.last() == '/'
        && crate::text::index_of(rest, '/') == Some((path.len() - 12) as nat) {
        let t = rest.skip(path.len() - 11);
        assert(t =~= Seq::<char>::empty());
        assert(encode_utf8(t) =~= Seq::<u8>::empty());
        assert(percent_decoded(Seq::<u8>::empty()) == Seq::<u8>::empty());
        if valid_utf8(Seq::<u8>::empty()) {
            assert(decode_utf8(Seq::<u8>::empty()) =~= Seq::<char>::empty());
        }
    }
}

/// A remote track's library path reads back as the server and the track
/// id it was built from, whatever the id holds (when it is not empty).
pub proof fn track_uri_round_trip(server_id: i64, track_id: Seq<char>)
    requires
        track_id.len() > 0,
    ensures
        parsed_track_uri(track_uri_text(server_id, track_id)) == Some((server_id, track_id)),
{
    reveal_strlit("subsonic://");
    reveal_strlit("/");
    let head = "subsonic://"@;
    let num = int_text(server_id as int);
    let esc = id_escaped(encode_utf8(track_id));
    let path = track_uri_text(server_id, track_id);
    assert(path == head + num + "/"@ + esc);
    assert(path.subrange(0, 11) =~= head);
    let rest = path.skip(11);
    assert(rest =~= num + seq!['/'] + esc);
    lemma_int_text_parses(server_id);
    assert forall|k: int| 0 <= k < num.len() implies #[trigger] rest[k] != '/' by {
        assert(rest[k] == num[k]);
    }
    crate::text::lemma_index_of(rest, '/', num.len() as int);
    assert(rest.take(num.len() as int) =~= num);
    assert(rest.skip(num.len() as int + 1) =~= esc);
    lemma_escaped_decodes(encode_utf8(track_id));
    vstd::utf8::encode_utf8_valid_utf8(track_id);
    vstd::utf8::encode_utf8_decode_utf8(track_id);
}

} // verus!

verus! {

// ---------------------------------------------------------------------------
// Server URLs
// ---------------------------------------------------------------------------

/// Whether `text` parses as a URL.
pub uninterp spec fn url_parses(text: Seq<char>) -> bool;

/// `url::Url::parse(text).is_ok()`: whether the URL parser accepts `text`.
/// The contract names the answer as a function of `text`.
#[verifier::external_body]
fn parses_as_url(text: &str) -> (b: bool)
    ensures
        b == url_parses(text@),
{
    url::Url::parse(text).is_ok()
}

/// The text of URL `url` with the query pairs `pairs` appended (form
/// encoded), when `url` parses.
pub uninterp spec fn url_with_pairs(url: Seq<char>, pairs: Seq<(Seq<char>, Seq<char>)>) -> Option<Seq<char>>;

/// A list of text pairs as text.
pub open spec fn pair_views(p: Seq<(String, String)>) -> Seq<(Seq<char>, Seq<char>)> {
    p.map_values(|x: (String, String)| (x.0@, x.1@))
}

/// `url::Url::parse_with_params(url, pairs)`, written out with
/// `to_string`: the parsed URL with each pair appended to its query in the
/// form encoding. The contract names the text as a function of the
/// arguments, and says that there is one exactly when the parse succeeds
/// (`parse_with_params` parses as `Url::parse` does, then appends).
#[verifier::external_body]
fn url_text_with_pairs(url: &str, pairs: &Vec<(String, String)>) -> (r: Option<String>)
    ensures
        r is Some <==> url_parses(url@),
        match r {
            Some(s) => url_with_pairs(url@, pair_views(pairs@)) == Some(s@),
            None => url_with_pairs(url@, pair_views(pairs@)) is None,
        },
{
    url::Url::parse_with_params(url, pairs.iter().map(|(k, v)| (k.as_str(), v.as_str()))).ok().map(|u| u.to_string())
}

/// `s` without its trailing `/`s.
pub open spec fn trim_end_slashes(s: Seq<char>) -> Seq<char>
    decreases s.len(),
{
    if s.len() > 0 && s.last() == '/' {
        trim_end_slashes(s.drop_last())
    } else {
        s
    }
}

/// A user-entered server URL's root: trimmed, trailing `/`s dropped, then
/// a trailing `/rest` dropped.
pub open spec fn server_root(s: Seq<char>) -> Seq<char> {
    let t = trim_end_slashes(trim(s));
    if t.len() >= 5 && t.skip(t.len() - 5) == "/rest"@ {
        t.take(t.len() - 5)
    } else {
        t
    }
}

/// The refusal of a server URL that does not parse.
pub open spec fn bad_server_text() -> Seq<char> {
    "Enter a full server URL, e.g. https://music.example.com"@
}

/// The refusal of an endpoint URL that does not parse.
pub open spec fn bad_endpoint_text() -> Seq<char> {
    "invalid Subsonic endpoint URL"@
}

/// A user-entered server URL normalized to its root (see `server_root`);
/// refused when the root does not parse as a URL.
pub fn normalize_base_url(base_url: &str) -> (r: Result<String, String>)
    ensures
        url_parses(server_root(base_url@)) ==> (r matches Ok(s) && s@ == server_root(base_url@)),
        !url_parses(server_root(base_url@)) ==> (r matches Err(e) && e@ == bad_server_text()),
{
    let t = trim_chars(chars_of(base_url).as_slice());
    let mut n = t.len();
    assert(t@.take(n as int) =~= t@);
    while n > 0 && t[n - 1] == '/'
        invariant
            n <= t@.len(),
            trim_end_slashes(t@.take(n as int)) == trim_end_slashes(t@),
        decreases n,
    {
        assert(t@.take(n as int).drop_last() =~= t@.take(n - 1));
        n -= 1;
    }
    let ghost tv = trim_end_slashes(trim(base_url@));
    assert(t@.take(n as int) =~= tv) by {
        assert(!(n > 0 && t@.take(n as int).last() == '/'));
    }
    let rest = chars_of("/rest");
    proof {
        reveal_strlit("/rest");
    }
    assert(rest@.len() == 5);
    let mut end = n;
    let cut = n >= 5 && crate::text::matches_at(t.as_slice(), n - 5, rest.as_slice());
    proof {
        if n >= 5 {
            let w = t@.subrange(n - 5, n as int);
            assert(t@.take(n as int).skip(n - 5) =~= w);
            assert(t@.subrange(n - 5, t@.len() as int).subrange(0, 5) =~= w);
            assert(cut == (w == "/rest"@));
        }
    }
    if cut {
        end = n - 5;
        assert(tv.take(tv.len() - 5) =~= t@.take(end as int));
    }
    let root = string_of(crate::text::copy_range(t.as_slice(), 0, end).as_slice());
    assert(t@.subrange(0, end as int) =~= t@.take(end as int));
    assert(root@ =~= server_root(base_url@));
    if parses_as_url(root.as_str()) {
        Ok(root)
    } else {
        Err(lit("Enter a full server URL, e.g. https://music.example.com"))
    }
}

/// The credentials' query parameters as `Auth::params` promises them.
pub open spec fn auth_pairs(a: Auth, p: Seq<(Seq<char>, Seq<char>)>) -> bool {
    match a.mode {
        AuthMode::Token => exists|salt: Seq<char>|
            #![trigger token_of(a.secret@, salt)]
            salt.len() == 32 && p == seq![("u"@, a.username@), ("t"@, token_of(a.secret@, salt)), ("s"@, salt)]
                + client_param_views(),
        AuthMode::Password => p == seq![("u"@, a.username@), ("p"@, "enc:"@ + hex_lower(encode_utf8(a.secret@)))]
            + client_param_views(),
        AuthMode::ApiKey => p == seq![("apiKey"@, a.secret@)] + client_param_views(),
    }
}

/// The endpoint URL of `endpoint` under server root `base`.
pub open spec fn endpoint_text(base: Seq<char>, endpoint: Seq<char>) -> Seq<char> {
    base + "/rest/"@ + endpoint + ".view"@
}

/// The signed URL of `endpoint` with `extra` parameters: the credentials'
/// parameters `cred`, then `extra`, appended to the endpoint URL.
pub open spec fn signed(base: Seq<char>, endpoint: Seq<char>, cred: Seq<(Seq<char>, Seq<char>)>, extra: Seq<(Seq<char>, Seq<char>)>, r: Result<String, String>) -> bool {
    match url_with_pairs(endpoint_text(base, endpoint), cred + extra) {
        Some(u) => r matches Ok(s) && s@ == u,
        None => r matches Err(e) && e@ == bad_endpoint_text(),
    }
}

/// The signed URL of `endpoint` (e.g. `stream`) under server root
/// `base_url`, with the credentials' parameters (a fresh salt each call)
/// then `params`.
pub fn build_signed_url(base_url: &str, auth: &Auth, endpoint: &str, params: &Vec<(String, String)>) -> (r: Result<String, String>)
    ensures
        exists|cred: Seq<(Seq<char>, Seq<char>)>| auth_pairs(*auth, cred) && signed(base_url@, endpoint@, cred, pair_views(params@), r),
{
    let mut text: Vec<char> = Vec::new();
    push_str(&mut text, base_url);
    push_str(&mut text, "/rest/");
    push_str(&mut text, endpoint);
    push_str(&mut text, ".view");
    let url = string_of(text.as_slice());
    assert(url@ =~= endpoint_text(base_url@, endpoint@));
    let cred = auth.params();
    let ghost cv = param_views(cred@);
    let mut pairs: Vec<(String, String)> = Vec::new();
    let mut k: usize = 0;
    while k < cred.len()
        invariant
            k <= cred@.len(),
            pair_views(pairs@) == param_views(cred@).take(k as int),
        decreases cred@.len() - k,
    {
        let ghost before = pairs@;
        let key = string_of(chars_of(cred[k].0).as_slice());
        let val = cred[k].1.clone();
        assert(key@ == cred@[k as int].0@ && val@ == cred@[k as int].1@);
        pairs.push((key, val));
        assert(pairs@ == before.push((key, val)));
        assert(pair_views(pairs@) =~= pair_views(before).push((cred@[k as int].0@, cred@[k as int].1@)));
        assert(param_views(cred@).take(k + 1) =~= param_views(cred@).take(k as int).push(
            (cred@[k as int].0@, cred@[k as int].1@),
        ));
        k += 1;
    }
    let mut k: usize = 0;
    while k < params.len()
        invariant
            k <= params@.len(),
            pair_views(pairs@) == cv + pair_views(params@).take(k as int),
            cv == param_views(cred@),
        decreases params@.len() - k,
    {
        let ghost before = pairs@;
        let key = params[k].0.clone();
        let val = params[k].1.clone();
        pairs.push((key, val));
        assert(pairs@ == before.push((key, val)));
        assert(pair_views(pairs@) =~= pair_views(before).push((params@[k as int].0@, params@[k as int].1@)));
        assert(pair_views(params@).take(k + 1) =~= pair_views(params@).take(k as int).push(
            (params@[k as int].0@, params@[k as int].1@),
        ));
        k += 1;
    }
    assert(param_views(cred@).take(cred@.len() as int) =~= cv);
    assert(pair_views(params@).take(params@.len() as int) =~= pair_views(params@));
    assert(auth_pairs(*auth, cv));
    match url_text_with_pairs(url.as_str(), &pairs) {
        Some(s) => Ok(s),
        None => Err(lit("invalid Subsonic endpoint URL")),
    }
}

/// The signed `stream.view` URL of `track_id`, asking for the original
/// file (`format=raw`); refused when the server URL does not parse (see
/// `normalize_base_url`).
pub fn stream_url(base_url: &str, auth: &Auth, track_id: &str) -> (r: Result<String, String>)
    ensures
        !url_parses(server_root(base_url@)) ==> (r matches Err(e) && e@ == bad_server_text()),
        url_parses(server_root(base_url@)) ==> exists|cred: Seq<(Seq<char>, Seq<char>)>|
            auth_pairs(*auth, cred) && signed(
                server_root(base_url@),
                "stream"@,
                cred,
                seq![("id"@, track_id@), ("format"@, "raw"@)],
                r,
            ),
{
    let base = match normalize_base_url(base_url) {
        Ok(b) => b,
        Err(e) => {
            return Err(e);
        },
    };
    let mut params: Vec<(String, String)> = Vec::new();
    params.push((lit("id"), lit(track_id)));
    params.push((lit("format"), lit("raw")));
    assert(pair_views(params@) =~= seq![("id"@, track_id@), ("format"@, "raw"@)]);
    build_signed_url(base.as_str(), auth, "stream", &params)
}

/// A Subsonic server: its normalized root URL and the credentials.
pub struct SubsonicClient {
    pub base_url: String,
    pub auth: Auth,
}

impl SubsonicClient {
    /// A client for the server at `base_url` (see `normalize_base_url`).
    pub fn new(base_url: &str, auth: Auth) -> (r: Result<SubsonicClient, String>)
        ensures
            url_parses(server_root(base_url@)) ==> (r matches Ok(c) && c.base_url@ == server_root(base_url@)
                && c.auth == auth),
            !url_parses(server_root(base_url@)) ==> (r matches Err(e) && e@ == bad_server_text()),
    {
        match normalize_base_url(base_url) {
            Ok(b) => Ok(SubsonicClient { base_url: b, auth }),
            Err(e) => Err(e),
        }
    }

    /// The signed URL of `endpoint` with `params` (see `build_signed_url`).
    pub fn signed_url(&self, endpoint: &str, params: &Vec<(String, String)>) -> (r: Result<String, String>)
        ensures
            exists|cred: Seq<(Seq<char>, Seq<char>)>| auth_pairs(self.auth, cred) && signed(self.base_url@, endpoint@, cred, pair_views(params@), r),
    {
        build_signed_url(self.base_url.as_str(), &self.auth, endpoint, params)
    }
}

} // verus!

verus! {

/// A saved server: its id, URL and credentials.
pub struct SavedServer {
    pub id: i64,
    pub url: String,
    pub auth: Auth,
}

/// The first saved server with id `id`.
pub open spec fn server_index(servers: Seq<SavedServer>, id: i64) -> Option<int>
    decreases servers.len(),
{
    if servers.len() == 0 {
        None
    } else if servers[0].id == id {
        Some(0)
    } else {
        match server_index(servers.drop_first(), id) {
            Some(i) => Some(i + 1),
            None => None,
        }
    }
}

proof fn lemma_server_index(servers: Seq<SavedServer>, id: i64, i: int)
    requires
        0 <= i <= servers.len(),
        forall|k: int| 0 <= k < i ==> (#[trigger] servers[k]).id != id,
    ensures
        i < servers.len() && servers[i].id == id ==> server_index(servers, id) == Some(i),
        i == servers.len() ==> server_index(servers, id) is None,
    decreases i,
{
    if i > 0 {
        let t = servers.drop_first();
        assert forall|k: int| 0 <= k < i - 1 implies (#[trigger] t[k]).id != id by {
            assert(t[k] == servers[k + 1]);
        }
        assert(servers[0].id != id);
        lemma_server_index(t, id, i - 1);
    }
}

/// The refusal of a path that is no track URI.
pub open spec fn invalid_path_text(path: Seq<char>) -> Seq<char> {
    "Invalid Subsonic track path '"@ + path + "'"@
}

/// The refusal of a track whose server is gone.
pub open spec fn removed_server_text(path: Seq<char>) -> Seq<char> {
    "The Subsonic server for '"@ + path + "' has been removed"@
}

/// A stored `subsonic://{server}/{track}` path signed as a stream URL with
/// that saved server's URL and credentials (see `stream_url`); refused when
/// the path is no track URI or its server is not among `servers`.
pub fn resolve_stream_url(servers: &Vec<SavedServer>, path: &str) -> (r: Result<String, String>)
    ensures
        parsed_track_uri(path@) is None ==> (r matches Err(e) && e@ == invalid_path_text(path@)),
        parsed_track_uri(path@) is Some && server_index(servers@, parsed_track_uri(path@).unwrap().0) is None ==> (r matches Err(e)
            && e@ == removed_server_text(path@)),
        parsed_track_uri(path@) is Some && server_index(servers@, parsed_track_uri(path@).unwrap().0) is Some ==> {
            let tid = parsed_track_uri(path@).unwrap().1;
            let s = servers@[server_index(servers@, parsed_track_uri(path@).unwrap().0).unwrap()];
            &&& !url_parses(server_root(s.url@)) ==> (r matches Err(e) && e@ == bad_server_text())
            &&& url_parses(server_root(s.url@)) ==> exists|cred: Seq<(Seq<char>, Seq<char>)>|
                auth_pairs(s.auth, cred) && signed(
                    server_root(s.url@),
                    "stream"@,
                    cred,
                    seq![("id"@, tid), ("format"@, "raw"@)],
                    r,
                )
        },
{
    let (sid, tid) = match parse_track_uri(path) {
        Some(x) => x,
        None => {
            let mut out: Vec<char> = Vec::new();
            push_str(&mut out, "Invalid Subsonic track path '");
            push_str(&mut out, path);
            push_str(&mut out, "'");
            return Err(string_of(out.as_slice()));
        },
    };
    let mut i: usize = 0;
    while i < servers.len()
        invariant
            i <= servers@.len(),
            parsed_track_uri(path@) == Some((sid, tid@)),
            forall|k: int| 0 <= k < i ==> (#[trigger] servers@[k]).id != sid,
        decreases servers@.len() - i,
    {
        if servers[i].id == sid {
            proof {
                lemma_server_index(servers@, sid, i as int);
            }
            return stream_url(servers[i].url.as_str(), &servers[i].auth, tid.as_str());
        }
        i += 1;
    }
    proof {
        lemma_server_index(servers@, sid, i as int);
    }
    let mut out: Vec<char> = Vec::new();
    push_str(&mut out, "The Subsonic server for '");
    push_str(&mut out, path);
    push_str(&mut out, "' has been removed");
    Err(string_of(out.as_slice()))
}

} // verus!
