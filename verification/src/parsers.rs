//! Reading and writing playlist files: M3U/M3U8, PLS and XSPF.
//!
//! Every parser is a function of the text alone, stated over character
//! sequences: a fold over the lines for M3U and PLS, a scan over the
//! `<track>` blocks for XSPF. Paths are handled as `/`-separated strings.
use vstd::prelude::*;
use vstd::utf8::{decode_utf8, encode_utf8, valid_utf8};
use crate::text::{
    all_digits, chars_eq, chars_of, copy_range, digit_value, digits_value, find_chars, find_seq,
    has_prefix, is_digit, matches_at, push_chars, push_str, string_of, trim, trim_chars,
};

verus! {

// ---------------------------------------------------------------------------
// Decimal numbers
// ---------------------------------------------------------------------------

/// The character of decimal digit `d`.
pub open spec fn digit_char(d: nat) -> char {
    if d == 0 {
        '0'
    } else if d == 1 {
        '1'
    } else if d == 2 {
        '2'
    } else if d == 3 {
        '3'
    } else if d == 4 {
        '4'
    } else if d == 5 {
        '5'
    } else if d == 6 {
        '6'
    } else if d == 7 {
        '7'
    } else if d == 8 {
        '8'
    } else {
        '9'
    }
}

/// `v` in decimal, without leading zeros.
pub open spec fn decimal(v: nat) -> Seq<char>
    decreases v,
{
    if v < 10 {
        seq![digit_char(v)]
    } else {
        decimal(v / 10).push(digit_char(v % 10))
    }
}

/// `v` as `{}` formats it.
pub open spec fn int_text(v: int) -> Seq<char> {
    if v < 0 {
        seq!['-'] + decimal((-v) as nat)
    } else {
        decimal(v as nat)
    }
}

pub fn digit_char_of(d: u64) -> (c: char)
    requires
        d < 10,
    ensures
        c == digit_char(d as nat),
{
    if d == 0 {
        '0'
    } else if d == 1 {
        '1'
    } else if d == 2 {
        '2'
    } else if d == 3 {
        '3'
    } else if d == 4 {
        '4'
    } else if d == 5 {
        '5'
    } else if d == 6 {
        '6'
    } else if d == 7 {
        '7'
    } else if d == 8 {
        '8'
    } else {
        '9'
    }
}

/// Appends `v` in decimal.
fn push_decimal(out: &mut Vec<char>, v: u64)
    ensures
        final(out)@ == old(out)@ + decimal(v as nat),
    decreases v,
{
    if v >= 10 {
        push_decimal(out, v / 10);
    }
    out.push(digit_char_of(v % 10));
    proof {
        if v >= 10 {
            assert(old(out)@ + decimal(v as nat) =~= old(out)@ + decimal((v / 10) as nat) + seq![
                digit_char((v % 10) as nat),
            ]);
        }
    }
}

/// Appends `v` as `{}` formats it.
pub fn push_int(out: &mut Vec<char>, v: i64)
    ensures
        final(out)@ == old(out)@ + int_text(v as int),
{
    if v < 0 {
        out.push('-');
        let wide: i128 = v as i128;
        let mag: u64 = (0 - wide) as u64;
        push_decimal(out, mag);
        assert(old(out)@ + int_text(v as int) =~= old(out)@.push('-') + decimal(mag as nat));
    } else {
        push_decimal(out, v as u64);
    }
}

/// The integer part and the fraction digits of an unsigned decimal
/// literal: digits, optionally a `.` and more digits, at least one digit
/// in all.
pub open spec fn decimal_parts(b: Seq<char>) -> Option<(Seq<char>, Seq<char>)> {
    let (i, f) = match crate::text::index_of(b, '.') {
        Some(d) => (b.take(d as int), b.skip((d + 1) as int)),
        None => (b, Seq::<char>::empty()),
    };
    if all_digits(i) && all_digits(f) && i.len() + f.len() > 0 {
        Some((i, f))
    } else {
        None
    }
}

/// A playlist duration: the decimal literal `s` (an optional sign, digits
/// with an optional fraction) when its value is above zero, rounded half
/// away from zero and capped at `i64::MAX`; `None` otherwise. The rounding
/// is done on the decimal digits themselves, not on a binary float, and
/// only plain decimal literals are read: exponent forms (`1e2`), `inf` and
/// `nan` give `None`.
pub open spec fn positive_rounded(s: Seq<char>) -> Option<i64> {
    let neg = s.len() > 0 && s[0] == '-';
    let b = if s.len() > 0 && (s[0] == '-' || s[0] == '+') {
        s.drop_first()
    } else {
        s
    };
    match decimal_parts(b) {
        None => None,
        Some((i, f)) => if neg || (digits_value(i) == 0 && digits_value(f) == 0) {
            None
        } else {
            let r = digits_value(i) + if f.len() > 0 && digit_value(f[0]) >= 5 {
                1nat
            } else {
                0nat
            };
            Some(
                if r > i64::MAX {
                    i64::MAX
                } else {
                    r as i64
                },
            )
        },
    }
}

/// The value of the digits `s[from..to]`, capped at `i64::MAX`.
fn capped_digits(s: &[char], from: usize, to: usize) -> (r: u64)
    requires
        from <= to <= s@.len(),
        all_digits(s@.subrange(from as int, to as int)),
    ensures
        r == (if digits_value(s@.subrange(from as int, to as int)) > i64::MAX {
            i64::MAX as nat
        } else {
            digits_value(s@.subrange(from as int, to as int))
        }),
{
    let ghost d = s@.subrange(from as int, to as int);
    let cap: u64 = i64::MAX as u64;
    let mut acc: u64 = 0;
    let mut i: usize = from;
    while i < to
        invariant
            from <= i <= to <= s@.len(),
            d == s@.subrange(from as int, to as int),
            all_digits(d),
            acc == (if digits_value(d.take(i - from)) > cap {
                cap as nat
            } else {
                digits_value(d.take(i - from))
            }),
            cap == i64::MAX,
        decreases to - i,
    {
        let ghost k = i - from;
        assert(d[k] == s@[i as int]);
        assert(is_digit(d[k]));
        let v: u64 = ((s[i] as u32) - 48) as u64;
        assert(d.take(k + 1).drop_last() =~= d.take(k));
        assert(d.take(k + 1).last() == d[k]);
        assert(digits_value(d.take(k + 1)) == digits_value(d.take(k)) * 10 + v);
        if acc >= cap || acc > (cap - v) / 10 {
            proof {
                if digits_value(d.take(k)) > cap {
                    assert(digits_value(d.take(k)) * 10 + v > cap) by (nonlinear_arith)
                        requires
                            digits_value(d.take(k)) > cap,
                    ;
                } else {
                    assert(acc * 10 + v > cap) by (nonlinear_arith)
                        requires
                            acc >= cap || acc > (cap - v) / 10,
                            v <= 9,
                            cap >= 9,
                    ;
                }
            }
            acc = cap;
        } else {
            assert(acc * 10 + v <= cap) by (nonlinear_arith)
                requires
                    acc <= (cap - v) / 10,
                    v <= 9,
                    cap >= 9,
            ;
            acc = acc * 10 + v;
        }
        i += 1;
    }
    assert(d.take(i - from) =~= d);
    acc
}

/// Every character of `v` is a decimal digit.
fn all_digit_chars(v: &[char]) -> (r: bool)
    ensures
        r == all_digits(v@),
{
    let mut i: usize = 0;
    while i < v.len()
        invariant
            i <= v@.len(),
            forall|j: int| 0 <= j < i ==> is_digit(#[trigger] v@[j]),
        decreases v@.len() - i,
    {
        let cu = v[i] as u32;
        if cu < 48 || cu > 57 {
            return false;
        }
        i += 1;
    }
    true
}

/// Every character of the digits `v` is `0`.
fn all_zero_chars(v: &[char]) -> (r: bool)
    requires
        all_digits(v@),
    ensures
        r == (forall|j: int| 0 <= j < v@.len() ==> digit_value(v@[j]) == 0),
{
    let mut i: usize = 0;
    while i < v.len()
        invariant
            i <= v@.len(),
            all_digits(v@),
            forall|j: int| 0 <= j < i ==> digit_value(v@[j]) == 0,
        decreases v@.len() - i,
    {
        assert(is_digit(v@[i as int]));
        if (v[i] as u32) != 48 {
            return false;
        }
        i += 1;
    }
    true
}

/// See `positive_rounded`.
pub fn parse_positive_rounded(s: &[char]) -> (r: Option<i64>)
    ensures
        r == positive_rounded(s@),
{
    let n = s.len();
    let neg = n > 0 && s[0] == '-';
    let start: usize = if n > 0 && (s[0] == '-' || s[0] == '+') {
        1
    } else {
        0
    };
    let b = copy_range(s, start, n);
    assert(b@ =~= (if s@.len() > 0 && (s@[0] == '-' || s@[0] == '+') {
        s@.drop_first()
    } else {
        s@
    }));
    let m = b.len();
    let (bi, bf) = match crate::text::find_char(b.as_slice(), '.') {
        Some(d) => {
            proof {
                crate::text::lemma_index_of_bounds(b@, '.');
            }
            (copy_range(b.as_slice(), 0, d), copy_range(b.as_slice(), d + 1, m))
        },
        None => (copy_range(b.as_slice(), 0, m), Vec::new()),
    };
    proof {
        match crate::text::index_of(b@, '.') {
            Some(d) => {
                assert(bi@ =~= b@.take(d as int));
                assert(bf@ =~= b@.skip((d + 1) as int));
            },
            None => {
                assert(bi@ =~= b@);
                assert(bf@ =~= Seq::<char>::empty());
            },
        }
    }
    if !all_digit_chars(bi.as_slice()) || !all_digit_chars(bf.as_slice()) || bi.len() + bf.len()
        == 0 {
        return None;
    }
    proof {
        lemma_zero_digits(bi@);
        lemma_zero_digits(bf@);
    }
    if neg || (all_zero_chars(bi.as_slice()) && all_zero_chars(bf.as_slice())) {
        return None;
    }
    let whole = capped_digits(bi.as_slice(), 0, bi.len());
    assert(bi@.subrange(0, bi@.len() as int) =~= bi@);
    let up = bf.len() > 0 && (bf[0] as u32) >= 53;
    let cap: u64 = i64::MAX as u64;
    let r: u64 = if up {
        if whole >= cap {
            cap
        } else {
            whole + 1
        }
    } else {
        whole
    };
    Some(r as i64)
}

/// All-digit `s` spells zero exactly when every digit is `0`.
proof fn lemma_zero_digits(s: Seq<char>)
    requires
        all_digits(s),
    ensures
        (digits_value(s) == 0) <==> (forall|j: int| 0 <= j < s.len() ==> digit_value(s[j]) == 0),
    decreases s.len(),
{
    if s.len() > 0 {
        let t = s.drop_last();
        assert(all_digits(t)) by {
            assert forall|j: int| 0 <= j < t.len() implies is_digit(#[trigger] t[j]) by {
                assert(t[j] == s[j]);
            }
        }
        lemma_zero_digits(t);
        assert(is_digit(s[s.len() - 1]));
        if digits_value(s) == 0 {
            assert forall|j: int| 0 <= j < s.len() implies digit_value(s[j]) == 0 by {
                if j < t.len() {
                    assert(t[j] == s[j]);
                }
            }
        }
        if forall|j: int| 0 <= j < s.len() ==> digit_value(s[j]) == 0 {
            assert forall|j: int| 0 <= j < t.len() implies digit_value(t[j]) == 0 by {
                assert(t[j] == s[j]);
            }
        }
    }
}

} // verus!

verus! {

// ---------------------------------------------------------------------------
// Replacing, XML entities, XML tags
// ---------------------------------------------------------------------------

/// `s` with every occurrence of `p` replaced by `r`, scanning left to
/// right without overlaps (`str::replace`, for a non-empty `p`).
pub open spec fn replace_all(s: Seq<char>, p: Seq<char>, r: Seq<char>) -> Seq<char>
    decreases s.len(),
{
    if p.len() == 0 || s.len() == 0 {
        s
    } else if has_prefix(s, p) {
        r + replace_all(s.skip(p.len() as int), p, r)
    } else {
        seq![s[0]] + replace_all(s.drop_first(), p, r)
    }
}

/// See `replace_all`.
pub fn replace_chars(s: &[char], p: &[char], r: &[char]) -> (out: Vec<char>)
    requires
        p@.len() > 0,
    ensures
        out@ == replace_all(s@, p@, r@),
{
    let n = s.len();
    let mut out: Vec<char> = Vec::new();
    let mut i: usize = 0;
    assert(s@.skip(0) =~= s@);
    assert(out@ + replace_all(s@, p@, r@) =~= replace_all(s@, p@, r@));
    while i < n
        invariant
            i <= n == s@.len(),
            p@.len() > 0,
            out@ + replace_all(s@.skip(i as int), p@, r@) == replace_all(s@, p@, r@),
        decreases n - i,
    {
        let ghost t = s@.skip(i as int);
        if matches_at(s, i, p) {
            assert(has_prefix(t, p@)) by {
                assert(t.subrange(0, p@.len() as int) =~= s@.subrange(i as int, i + p@.len()));
            }
            assert(t.skip(p@.len() as int) =~= s@.skip(i + p@.len()));
            let ghost out0 = out@;
            push_chars(&mut out, r);
            assert(out@ + replace_all(s@.skip(i + p@.len()), p@, r@) =~= out0 + replace_all(t, p@, r@));
            i = i + p.len();
        } else {
            assert(!has_prefix(t, p@)) by {
                if has_prefix(t, p@) {
                    assert(t.subrange(0, p@.len() as int) =~= s@.subrange(i as int, i + p@.len()));
                }
            }
            assert(t.drop_first() =~= s@.skip(i + 1));
            assert(t[0] == s@[i as int]);
            let ghost out0 = out@;
            out.push(s[i]);
            assert(out@ + replace_all(s@.skip(i + 1), p@, r@) =~= out0 + replace_all(t, p@, r@));
            i = i + 1;
        }
    }
    assert(s@.skip(n as int) =~= Seq::<char>::empty());
    assert(out@ + Seq::<char>::empty() =~= out@);
    out
}

} // verus!

verus! {

/// `s` with `&`, `<`, `>`, `"` and `'` written as XML entities.
pub open spec fn escaped(s: Seq<char>) -> Seq<char> {
    replace_all(
        replace_all(
            replace_all(replace_all(replace_all(s, "&"@, "&amp;"@), "<"@, "&lt;"@), ">"@, "&gt;"@),
            "\""@,
            "&quot;"@,
        ),
        "'"@,
        "&apos;"@,
    )
}

/// `s` with the five basic XML entities decoded, `&amp;` first.
pub open spec fn unescaped(s: Seq<char>) -> Seq<char> {
    replace_all(
        replace_all(
            replace_all(replace_all(replace_all(s, "&amp;"@, "&"@), "&lt;"@, "<"@), "&gt;"@, ">"@),
            "&quot;"@,
            "\""@,
        ),
        "&apos;"@,
        "'"@,
    )
}

/// One replacement pass with string literals.
fn replace_lit(s: &[char], p: &str, r: &str) -> (out: Vec<char>)
    requires
        p@.len() > 0,
    ensures
        out@ == replace_all(s@, p@, r@),
{
    let pv = chars_of(p);
    let rv = chars_of(r);
    replace_chars(s, pv.as_slice(), rv.as_slice())
}

pub fn escape_xml_chars(s: &[char]) -> (out: Vec<char>)
    ensures
        out@ == escaped(s@),
{
    proof {
        reveal_strlit("&");
        reveal_strlit("<");
        reveal_strlit(">");
        reveal_strlit("\"");
        reveal_strlit("'");
    }
    let a = replace_lit(s, "&", "&amp;");
    let b = replace_lit(a.as_slice(), "<", "&lt;");
    let c = replace_lit(b.as_slice(), ">", "&gt;");
    let d = replace_lit(c.as_slice(), "\"", "&quot;");
    replace_lit(d.as_slice(), "'", "&apos;")
}

pub fn unescape_xml_chars(s: &[char]) -> (out: Vec<char>)
    ensures
        out@ == unescaped(s@),
{
    proof {
        reveal_strlit("&amp;");
        reveal_strlit("&lt;");
        reveal_strlit("&gt;");
        reveal_strlit("&quot;");
        reveal_strlit("&apos;");
    }
    let a = replace_lit(s, "&amp;", "&");
    let b = replace_lit(a.as_slice(), "&lt;", "<");
    let c = replace_lit(b.as_slice(), "&gt;", ">");
    let d = replace_lit(c.as_slice(), "&quot;", "\"");
    replace_lit(d.as_slice(), "&apos;", "'")
}

/// Writes the basic XML entities for `&`, `<`, `>`, `"` and `'`.
pub fn escape_xml(s: &str) -> (out: String)
    ensures
        out@ == escaped(s@),
{
    let v = chars_of(s);
    string_of(escape_xml_chars(v.as_slice()).as_slice())
}

/// Decodes the basic XML entities (`&amp;` first, then `&lt;`, `&gt;`,
/// `&quot;`, `&apos;`).
pub fn unescape_xml(s: &str) -> (out: String)
    ensures
        out@ == unescaped(s@),
{
    let v = chars_of(s);
    string_of(unescape_xml_chars(v.as_slice()).as_slice())
}

/// The trimmed text between the first `<tag>` and the first `</tag>`
/// after it.
pub open spec fn xml_tag(xml: Seq<char>, tag: Seq<char>) -> Option<Seq<char>> {
    let open = seq!['<'] + tag + seq!['>'];
    let close = seq!['<', '/'] + tag + seq!['>'];
    match find_seq(xml, open) {
        None => None,
        Some(st) => {
            let cs = st + open.len();
            match find_seq(xml.skip(cs as int), close) {
                None => None,
                Some(e) => Some(trim(xml.subrange(cs as int, (cs + e) as int))),
            }
        },
    }
}

/// See `xml_tag`.
pub fn xml_tag_chars(xml: &[char], tag: &[char]) -> (r: Option<Vec<char>>)
    ensures
        match r {
            Some(v) => xml_tag(xml@, tag@) == Some(v@),
            None => xml_tag(xml@, tag@) is None,
        },
{
    let mut open: Vec<char> = Vec::new();
    open.push('<');
    push_chars(&mut open, tag);
    open.push('>');
    let mut close: Vec<char> = Vec::new();
    close.push('<');
    close.push('/');
    push_chars(&mut close, tag);
    close.push('>');
    assert(open@ =~= seq!['<'] + tag@ + seq!['>']);
    assert(close@ =~= seq!['<', '/'] + tag@ + seq!['>']);
    let st = match find_chars(xml, open.as_slice()) {
        Some(i) => i,
        None => {
            return None;
        },
    };
    proof {
        crate::text::lemma_find_seq_bounds(xml@, open@);
        assert(find_seq(xml@, open@) == Some(st as nat));
        assert(st + open@.len() <= xml@.len());
    }
    let xl = xml.len();
    let cs = st + open.len();
    let rest = copy_range(xml, cs, xml.len());
    assert(rest@ =~= xml@.skip(cs as int));
    let e = match find_chars(rest.as_slice(), close.as_slice()) {
        Some(e) => e,
        None => {
            return None;
        },
    };
    proof {
        crate::text::lemma_find_seq_bounds(rest@, close@);
    }
    let inner = copy_range(xml, cs, cs + e);
    Some(trim_chars(inner.as_slice()))
}

/// The trimmed text of the first `<tag>..</tag>` element of `xml`.
pub fn extract_xml_tag(xml: &str, tag: &str) -> (r: Option<String>)
    ensures
        match r {
            Some(v) => xml_tag(xml@, tag@) == Some(v@),
            None => xml_tag(xml@, tag@) is None,
        },
{
    let x = chars_of(xml);
    let t = chars_of(tag);
    match xml_tag_chars(x.as_slice(), t.as_slice()) {
        Some(v) => Some(string_of(v.as_slice())),
        None => None,
    }
}

// ---------------------------------------------------------------------------
// Tracks and formats
// ---------------------------------------------------------------------------

/// One entry read from a playlist file.
#[derive(Debug, Clone, PartialEq, Eq, Default)]
pub struct ParsedTrack {
    pub path_or_url: String,
    pub title: Option<String>,
    pub artist: Option<String>,
    pub album: Option<String>,
    pub duration_sec: Option<i64>,
}

/// What a `ParsedTrack` holds, as character sequences.
pub struct TrackView {
    pub path: Seq<char>,
    pub title: Option<Seq<char>>,
    pub artist: Option<Seq<char>>,
    pub album: Option<Seq<char>>,
    pub duration: Option<i64>,
}

pub open spec fn opt_view(o: Option<String>) -> Option<Seq<char>> {
    match o {
        Some(s) => Some(s@),
        None => None,
    }
}

impl View for ParsedTrack {
    type V = TrackView;

    open spec fn view(&self) -> TrackView {
        TrackView {
            path: self.path_or_url@,
            title: opt_view(self.title),
            artist: opt_view(self.artist),
            album: opt_view(self.album),
            duration: self.duration_sec,
        }
    }
}

/// The views of a list of tracks.
pub open spec fn track_views(v: Seq<ParsedTrack>) -> Seq<TrackView> {
    v.map_values(|t: ParsedTrack| t@)
}

fn opt_string(o: &Option<Vec<char>>) -> (r: Option<String>)
    ensures
        opt_view(r) == (match o {
            Some(v) => Some(v@),
            None => None::<Seq<char>>,
        }),
{
    match o {
        Some(v) => Some(string_of(v.as_slice())),
        None => None,
    }
}

/// The file formats.
#[derive(Debug, Clone, Copy, PartialEq, Eq, Structural)]
pub enum PlaylistFormat {
    M3u,
    M3u8,
    Pls,
    Xspf,
}

/// A playlist read from a file.
pub struct ParsedPlaylist {
    pub title: Option<String>,
    pub tracks: Vec<ParsedTrack>,
}

// ---------------------------------------------------------------------------
// M3U
// ---------------------------------------------------------------------------

/// What the M3U reader carries from line to line: the tracks so far and
/// the `#EXTINF` details waiting for the next path.
pub struct M3uScan {
    pub tracks: Seq<TrackView>,
    pub title: Option<Seq<char>>,
    pub artist: Option<Seq<char>>,
    pub duration: Option<i64>,
}

/// One line of M3U: blank lines and comments are skipped; `#EXTINF:d,name`
/// records the duration (when above zero) and the name, split into artist
/// and title at the first ` - `; any other line is a path, which takes the
/// waiting details.
pub open spec fn m3u_step(st: M3uScan, line: Seq<char>) -> M3uScan {
    let t = trim(line);
    if t.len() == 0 {
        st
    } else if has_prefix(t, "#EXTINF:"@) {
        match crate::text::split_once_char(t.skip(8), ',') {
            None => st,
            Some((d, rest)) => {
                let duration = match positive_rounded(trim(d)) {
                    Some(v) => Some(v),
                    None => st.duration,
                };
                let name = trim(rest);
                match crate::text::split_once_seq(name, " - "@) {
                    Some((a, ti)) => M3uScan {
                        tracks: st.tracks,
                        title: Some(trim(ti)),
                        artist: Some(trim(a)),
                        duration,
                    },
                    None => M3uScan {
                        tracks: st.tracks,
                        title: if name.len() > 0 {
                            Some(name)
                        } else {
                            st.title
                        },
                        artist: st.artist,
                        duration,
                    },
                }
            },
        }
    } else if t[0] == '#' {
        st
    } else {
        M3uScan {
            tracks: st.tracks.push(
                TrackView {
                    path: t,
                    title: st.title,
                    artist: st.artist,
                    album: None,
                    duration: st.duration,
                },
            ),
            title: None,
            artist: None,
            duration: None,
        }
    }
}

/// The M3U reader after the lines `ls`.
pub open spec fn m3u_scan(ls: Seq<Seq<char>>) -> M3uScan
    decreases ls.len(),
{
    if ls.len() == 0 {
        M3uScan { tracks: Seq::empty(), title: None, artist: None, duration: None }
    } else {
        m3u_step(m3u_scan(ls.drop_last()), ls.last())
    }
}

/// The path lines of M3U text: each line trimmed, kept when something is
/// left and it does not start with `#`.
pub open spec fn m3u_path_lines(ls: Seq<Seq<char>>) -> Seq<Seq<char>>
    decreases ls.len(),
{
    if ls.len() == 0 {
        Seq::empty()
    } else {
        let r = m3u_path_lines(ls.drop_last());
        let t = trim(ls.last());
        if t.len() > 0 && t[0] != '#' {
            r.push(t)
        } else {
            r
        }
    }
}

/// Every M3U path line gives exactly one track, in order, whose path is
/// the trimmed line, whether or not `#EXTINF` details came before it;
/// blank lines and comments give none.
pub proof fn m3u_reads_every_path_line(ls: Seq<Seq<char>>)
    ensures
        m3u_scan(ls).tracks.map_values(|t: TrackView| t.path) == m3u_path_lines(ls),
    decreases ls.len(),
{
    reveal_strlit("#EXTINF:");
    if ls.len() > 0 {
        let init = ls.drop_last();
        m3u_reads_every_path_line(init);
        let st = m3u_scan(init);
        let l = ls.last();
        let t = trim(l);
        let st2 = m3u_step(st, l);
        assert(m3u_scan(ls) == st2);
        if t.len() > 0 && has_prefix(t, "#EXTINF:"@) {
            assert(t[0] == "#EXTINF:"@[0]);
            assert(st2.tracks == st.tracks);
        } else if t.len() > 0 && t[0] != '#' {
            assert(st2.tracks.map_values(|x: TrackView| x.path) =~= st.tracks.map_values(|x: TrackView| x.path).push(
                t,
            ));
        }
    } else {
        assert(m3u_scan(ls).tracks.map_values(|t: TrackView| t.path) =~= Seq::<Seq<char>>::empty());
    }
}

/// No M3U line is an `#EXTINF` line.
pub open spec fn no_extinf_lines(ls: Seq<Seq<char>>) -> bool {
    forall|j: int| 0 <= j < ls.len() ==> !has_prefix(trim(#[trigger] ls[j]), "#EXTINF:"@)
}

/// M3U gives no track an album; and a plain list of paths, with no
/// `#EXTINF` line, gives every track just its path: no title, no artist
/// and no duration.
pub proof fn m3u_details_come_from_extinf(ls: Seq<Seq<char>>)
    ensures
        forall|i: int| 0 <= i < m3u_scan(ls).tracks.len() ==> (#[trigger] m3u_scan(ls).tracks[i]).album is None,
        no_extinf_lines(ls) ==> forall|i: int|
            0 <= i < m3u_scan(ls).tracks.len() ==> {
                &&& (#[trigger] m3u_scan(ls).tracks[i]).title is None
                &&& m3u_scan(ls).tracks[i].artist is None
                &&& m3u_scan(ls).tracks[i].duration is None
            },
        no_extinf_lines(ls) ==> m3u_scan(ls).title is None && m3u_scan(ls).artist is None && m3u_scan(
            ls,
        ).duration is None,
    decreases ls.len(),
{
    if ls.len() > 0 {
        let init = ls.drop_last();
        if no_extinf_lines(ls) {
            assert forall|j: int| 0 <= j < init.len() implies !has_prefix(trim(#[trigger] init[j]), "#EXTINF:"@) by {
                assert(init[j] == ls[j]);
            }
            assert(!has_prefix(trim(ls[ls.len() - 1]), "#EXTINF:"@));
        }
        m3u_details_come_from_extinf(init);
        let st = m3u_scan(init);
        assert(m3u_scan(ls) == m3u_step(st, ls.last()));
    }
}

proof fn lemma_trim_unchanged(s: Seq<char>)
    requires
        s.len() > 0,
        !crate::text::is_ws(s[0]),
        !crate::text::is_ws(s.last()),
    ensures
        trim(s) == s,
{
    assert(crate::text::trim_start(s) == s);
}

proof fn lemma_index_of_after(d: Seq<char>, c: char, rest: Seq<char>)
    requires
        forall|k: int| 0 <= k < d.len() ==> d[k] != c,
    ensures
        crate::text::index_of(d + seq![c] + rest, c) == Some(d.len()),
    decreases d.len(),
{
    if d.len() > 0 {
        lemma_index_of_after(d.drop_first(), c, rest);
        assert((d + seq![c] + rest).drop_first() =~= d.drop_first() + seq![c] + rest);
    }
}

proof fn lemma_find_seq_extend(x: Seq<char>, y: Seq<char>, p: Seq<char>)
    requires
        find_seq(x, p) matches Some(i) && i + p.len() <= x.len(),
    ensures
        find_seq(x + y, p) == find_seq(x, p),
    decreases x.len(),
{
    let s = x + y;
    if p.len() <= x.len() {
        assert(s.subrange(0, p.len() as int) =~= x.subrange(0, p.len() as int));
    }
    if !has_prefix(x, p) {
        assert(!has_prefix(s, p));
        assert(s.drop_first() =~= x.drop_first() + y);
        lemma_find_seq_extend(x.drop_first(), y, p);
    }
}

/// `#EXTINF:<d>,<artist> - <title>` names the track of the next path line:
/// the text before the first ` - ` is its artist, the text after it its
/// title, and the `#EXTINF` line adds no track of its own.
pub proof fn m3u_extinf_names_next_track(
    ls: Seq<Seq<char>>,
    d: Seq<char>,
    a: Seq<char>,
    ti: Seq<char>,
    p: Seq<char>,
)
    requires
        forall|k: int| 0 <= k < d.len() ==> d[k] != ',',
        a.len() > 0,
        !crate::text::is_ws(a[0]),
        find_seq(a + " - "@, " - "@) == Some(a.len()),
        ti.len() > 0,
        !crate::text::is_ws(ti.last()),
        trim(p).len() > 0,
        trim(p)[0] != '#',
    ensures
        ({
            let st = m3u_scan(ls + seq!["#EXTINF:"@ + d + ","@ + a + " - "@ + ti, p]);
            &&& st.tracks.len() == m3u_scan(ls).tracks.len() + 1
            &&& st.tracks.last().path == trim(p)
            &&& st.tracks.last().artist == Some(trim(a))
            &&& st.tracks.last().title == Some(trim(ti))
        }),
{
    reveal_strlit("#EXTINF:");
    reveal_strlit(",");
    reveal_strlit(" - ");
    let line = "#EXTINF:"@ + d + ","@ + a + " - "@ + ti;
    let rest = a + " - "@ + ti;
    let ls1 = ls.push(line);
    let ls2 = ls + seq![line, p];
    assert(ls2.drop_last() =~= ls1);
    assert(ls1.drop_last() =~= ls);
    let st0 = m3u_scan(ls);
    let st1 = m3u_scan(ls1);
    assert(st1 == m3u_step(st0, line));
    lemma_trim_unchanged(line);
    assert(has_prefix(line, "#EXTINF:"@)) by {
        assert(line.subrange(0, 8) =~= "#EXTINF:"@);
    }
    assert(line.skip(8) =~= d + seq![','] + rest);
    lemma_index_of_after(d, ',', rest);
    assert(crate::text::split_once_char(line.skip(8), ',') == Some((d, rest))) by {
        assert((d + seq![','] + rest).take(d.len() as int) =~= d);
        assert((d + seq![','] + rest).skip((d.len() + 1) as int) =~= rest);
    }
    assert(rest[0] == a[0]);
    assert(rest.last() == ti.last());
    lemma_trim_unchanged(rest);
    lemma_find_seq_extend(a + " - "@, ti, " - "@);
    assert(a + " - "@ + ti =~= rest);
    assert(crate::text::split_once_seq(rest, " - "@) == Some((a, ti))) by {
        assert(rest.take(a.len() as int) =~= a);
        assert(rest.skip((a.len() + 3) as int) =~= ti);
    }
    assert(st1.title == Some(trim(ti)) && st1.artist == Some(trim(a)) && st1.tracks == st0.tracks);
    assert(m3u_scan(ls2) == m3u_step(st1, p));
    assert(!has_prefix(trim(p), "#EXTINF:"@)) by {
        if has_prefix(trim(p), "#EXTINF:"@) {
            assert(trim(p).subrange(0, 8)[0] == '#');
        }
    }
}

/// A path line adds one track, which takes the `#EXTINF` details waiting
/// for it; none are left waiting for the path line after it.
pub proof fn m3u_path_line_takes_the_details(ls: Seq<Seq<char>>, p: Seq<char>)
    requires
        trim(p).len() > 0,
        trim(p)[0] != '#',
    ensures
        ({
            let before = m3u_scan(ls);
            let after = m3u_scan(ls.push(p));
            &&& after.tracks.len() == before.tracks.len() + 1
            &&& after.tracks.last().path == trim(p)
            &&& after.tracks.last().title == before.title
            &&& after.tracks.last().artist == before.artist
            &&& after.tracks.last().duration == before.duration
            &&& after.title is None && after.artist is None && after.duration is None
        }),
{
    reveal_strlit("#EXTINF:");
    assert(ls.push(p).drop_last() =~= ls);
    assert(!has_prefix(trim(p), "#EXTINF:"@)) by {
        if has_prefix(trim(p), "#EXTINF:"@) {
            assert(trim(p).subrange(0, 8)[0] == '#');
        }
    }
}

/// Reads M3U / M3U8 text.
pub fn parse_m3u(content: &str) -> (r: Vec<ParsedTrack>)
    ensures
        track_views(r@) == m3u_scan(crate::text::lines(content@)).tracks,
        r@.len() == m3u_path_lines(crate::text::lines(content@)).len(),
        forall|i: int| 0 <= i < r@.len() ==> (#[trigger] r@[i]).path_or_url@ == m3u_path_lines(
            crate::text::lines(content@),
        )[i],
        forall|i: int| 0 <= i < r@.len() ==> (#[trigger] r@[i]).album is None,
        no_extinf_lines(crate::text::lines(content@)) ==> forall|i: int|
            0 <= i < r@.len() ==> {
                &&& (#[trigger] r@[i]).title is None
                &&& r@[i].artist is None
                &&& r@[i].duration_sec is None
            },
{
    proof {
        reveal_strlit("#EXTINF:");
    }
    let text = chars_of(content);
    let ls = crate::text::lines_of(text.as_slice());
    let ghost lv = crate::text::views(ls@);
    let extinf = chars_of("#EXTINF:");
    let sep = chars_of(" - ");
    let mut tracks: Vec<ParsedTrack> = Vec::new();
    let mut title: Option<Vec<char>> = None;
    let mut artist: Option<Vec<char>> = None;
    let mut duration: Option<i64> = None;
    let mut i: usize = 0;
    while i < ls.len()
        invariant
            i <= ls@.len(),
            lv == crate::text::views(ls@),
            lv == crate::text::lines(content@),
            extinf@ == "#EXTINF:"@,
            "#EXTINF:"@.len() == 8,
            sep@ == " - "@,
            ({
                let st = m3u_scan(lv.take(i as int));
                &&& track_views(tracks@) == st.tracks
                &&& (match title {
                    Some(v) => Some(v@),
                    None => None::<Seq<char>>,
                }) == st.title
                &&& (match artist {
                    Some(v) => Some(v@),
                    None => None::<Seq<char>>,
                }) == st.artist
                &&& duration == st.duration
            }),
        decreases ls@.len() - i,
    {
        assert(lv.take(i + 1).drop_last() =~= lv.take(i as int));
        assert(lv.take(i + 1).last() == ls@[i as int]@);
        let t = trim_chars(ls[i].as_slice());
        if t.len() == 0 {
        } else if let Some(meta) = crate::text::strip_prefix_chars(t.as_slice(), extinf.as_slice()) {
            assert(meta@ =~= t@.skip(8));
            match crate::text::split_once_at_char(meta.as_slice(), ',') {
                None => {},
                Some((d, rest)) => {
                    let dt = trim_chars(d.as_slice());
                    match parse_positive_rounded(dt.as_slice()) {
                        Some(v) => {
                            duration = Some(v);
                        },
                        None => {},
                    }
                    let name = trim_chars(rest.as_slice());
                    match crate::text::split_once_at_chars(name.as_slice(), sep.as_slice()) {
                        Some((a, ti)) => {
                            artist = Some(trim_chars(a.as_slice()));
                            title = Some(trim_chars(ti.as_slice()));
                        },
                        None => {
                            if name.len() > 0 {
                                title = Some(name);
                            }
                        },
                    }
                },
            }
        } else if t[0] == '#' {
        } else {
            let tr = ParsedTrack {
                path_or_url: string_of(t.as_slice()),
                title: opt_string(&title),
                artist: opt_string(&artist),
                album: None,
                duration_sec: duration,
            };
            let ghost before = tracks@;
            tracks.push(tr);
            assert(track_views(tracks@) =~= track_views(before).push(tr@));
            title = None;
            artist = None;
            duration = None;
        }
        i += 1;
    }
    assert(lv.take(i as int) =~= lv);
    proof {
        let ps = m3u_path_lines(crate::text::lines(content@));
        m3u_reads_every_path_line(crate::text::lines(content@));
        let tv = track_views(tracks@);
        assert(tv.map_values(|t: TrackView| t.path) == ps);
        assert forall|i: int| 0 <= i < tracks@.len() implies (#[trigger] tracks@[i]).path_or_url@ == ps[i] by {
            assert(tv[i] == tracks@[i]@);
            assert(tv.map_values(|t: TrackView| t.path)[i] == tv[i].path);
        }
        m3u_details_come_from_extinf(crate::text::lines(content@));
        assert forall|i: int| 0 <= i < tracks@.len() implies (#[trigger] tracks@[i]).album is None by {
            assert(tv[i] == tracks@[i]@);
        }
        if no_extinf_lines(crate::text::lines(content@)) {
            assert forall|i: int| 0 <= i < tracks@.len() implies {
                &&& (#[trigger] tracks@[i]).title is None
                &&& tracks@[i].artist is None
                &&& tracks@[i].duration_sec is None
            } by {
                assert(tv[i] == tracks@[i]@);
            }
        }
    }
    tracks
}

} // verus!

verus! {

// ---------------------------------------------------------------------------
// PLS
// ---------------------------------------------------------------------------

/// Which part of entry `N` a `FileN=` / `TitleN=` / `LengthN=` line sets.
#[derive(Clone, Copy, PartialEq, Eq, Structural)]
pub enum PlsField {
    File,
    Title,
    Length(i64),
}

/// An entry nothing has been set on yet.
pub open spec fn blank_track() -> TrackView {
    TrackView { path: Seq::empty(), title: None, artist: None, album: None, duration: None }
}

/// Sets `field` of `t` from the value `val`: a title is split into artist
/// and title at the first ` - `, and an empty one sets nothing.
pub open spec fn pls_apply(t: TrackView, field: PlsField, val: Seq<char>) -> TrackView {
    match field {
        PlsField::File => TrackView { path: val, ..t },
        PlsField::Title => match crate::text::split_once_seq(val, " - "@) {
            Some((a, ti)) => TrackView { artist: Some(trim(a)), title: Some(trim(ti)), ..t },
            None => if val.len() > 0 {
                TrackView { title: Some(val), ..t }
            } else {
                t
            },
        },
        PlsField::Length(n) => TrackView { duration: Some(n), ..t },
    }
}

/// The entries, kept by index in increasing order, after setting `field`
/// of entry `k` (created blank when missing).
pub open spec fn upsert(s: Seq<(usize, TrackView)>, k: usize, field: PlsField, val: Seq<char>) -> Seq<
    (usize, TrackView),
>
    decreases s.len(),
{
    if s.len() == 0 {
        seq![(k, pls_apply(blank_track(), field, val))]
    } else if s[0].0 == k {
        seq![(k, pls_apply(s[0].1, field, val))] + s.drop_first()
    } else if s[0].0 > k {
        seq![(k, pls_apply(blank_track(), field, val))] + s
    } else {
        seq![s[0]] + upsert(s.drop_first(), k, field, val)
    }
}

/// One line of PLS: blank lines, comments (`;`, `#`) and sections (`[`)
/// are skipped; `key=value` with a key of `file`, `title` or `length`
/// (any case) followed by an index sets that entry; a length must be an
/// integer above zero.
pub open spec fn pls_step(st: Seq<(usize, TrackView)>, line: Seq<char>) -> Seq<(usize, TrackView)> {
    let t = trim(line);
    if t.len() == 0 || t[0] == ';' || t[0] == '#' || t[0] == '[' {
        st
    } else {
        match crate::text::split_once_char(t, '=') {
            None => st,
            Some((key, v)) => {
                let kl = crate::text::ascii_lower_seq(trim(key));
                let val = trim(v);
                if has_prefix(kl, "file"@) {
                    match crate::text::parse_usize_spec(kl.skip(4)) {
                        Some(idx) => upsert(st, idx, PlsField::File, val),
                        None => st,
                    }
                } else if has_prefix(kl, "title"@) {
                    match crate::text::parse_usize_spec(kl.skip(5)) {
                        Some(idx) => upsert(st, idx, PlsField::Title, val),
                        None => st,
                    }
                } else if has_prefix(kl, "length"@) {
                    match crate::text::parse_usize_spec(kl.skip(6)) {
                        Some(idx) => match crate::text::parse_i64_spec(val) {
                            Some(n) => if n > 0 {
                                upsert(st, idx, PlsField::Length(n), val)
                            } else {
                                st
                            },
                            None => st,
                        },
                        None => st,
                    }
                } else {
                    st
                }
            },
        }
    }
}

/// The PLS entries after the lines `ls`.
pub open spec fn pls_scan(ls: Seq<Seq<char>>) -> Seq<(usize, TrackView)>
    decreases ls.len(),
{
    if ls.len() == 0 {
        Seq::empty()
    } else {
        pls_step(pls_scan(ls.drop_last()), ls.last())
    }
}

/// The tracks of the entries that have a path, in entry order.
pub open spec fn with_paths(s: Seq<(usize, TrackView)>) -> Seq<TrackView>
    decreases s.len(),
{
    if s.len() == 0 {
        Seq::empty()
    } else {
        let rest = with_paths(s.drop_last());
        if s.last().1.path.len() > 0 {
            rest.push(s.last().1)
        } else {
            rest
        }
    }
}

/// The entry indices increase strictly.
pub open spec fn keys_increasing(s: Seq<(usize, TrackView)>) -> bool {
    forall|a: int, b: int| 0 <= a < b < s.len() ==> #[trigger] s[a].0 < #[trigger] s[b].0
}

/// `upsert` splices at the first entry whose index is not below `k`.
proof fn lemma_upsert_at(s: Seq<(usize, TrackView)>, k: usize, field: PlsField, val: Seq<char>, p: int)
    requires
        0 <= p <= s.len(),
        forall|i: int| 0 <= i < p ==> (#[trigger] s[i]).0 < k,
        p < s.len() ==> s[p].0 >= k,
    ensures
        upsert(s, k, field, val) == (if p < s.len() && s[p].0 == k {
            s.take(p) + seq![(k, pls_apply(s[p].1, field, val))] + s.skip(p + 1)
        } else {
            s.take(p) + seq![(k, pls_apply(blank_track(), field, val))] + s.skip(p)
        }),
    decreases p,
{
    if p == 0 {
        assert(s.take(0) =~= Seq::<(usize, TrackView)>::empty());
        assert(s.skip(0) =~= s);
        if s.len() > 0 {
            assert(s.skip(1) =~= s.drop_first());
        }
    } else {
        let t = s.drop_first();
        assert forall|i: int| 0 <= i < p - 1 implies (#[trigger] t[i]).0 < k by {
            assert(t[i] == s[i + 1]);
        }
        assert(s[0].0 < k);
        lemma_upsert_at(t, k, field, val, p - 1);
        if p < s.len() && s[p].0 == k {
            assert(seq![s[0]] + (t.take(p - 1) + seq![(k, pls_apply(t[p - 1].1, field, val))] + t.skip(p))
                =~= s.take(p) + seq![(k, pls_apply(s[p].1, field, val))] + s.skip(p + 1));
        } else {
            assert(seq![s[0]] + (t.take(p - 1) + seq![(k, pls_apply(blank_track(), field, val))] + t.skip(
                p - 1,
            )) =~= s.take(p) + seq![(k, pls_apply(blank_track(), field, val))] + s.skip(p));
        }
    }
}

/// `upsert` keeps the indices increasing.
proof fn lemma_upsert_sorted(s: Seq<(usize, TrackView)>, k: usize, field: PlsField, val: Seq<char>)
    requires
        keys_increasing(s),
    ensures
        keys_increasing(upsert(s, k, field, val)),
    decreases s.len(),
{
    if s.len() > 0 && s[0].0 < k {
        let t = s.drop_first();
        assert(keys_increasing(t)) by {
            assert forall|a: int, b: int| 0 <= a < b < t.len() implies #[trigger] t[a].0 < #[trigger] t[b].0 by {
                assert(t[a] == s[a + 1] && t[b] == s[b + 1]);
            }
        }
        lemma_upsert_sorted(t, k, field, val);
        let u = upsert(t, k, field, val);
        lemma_upsert_keys(t, k, field, val);
        let w = seq![s[0]] + u;
        assert forall|a: int, b: int| 0 <= a < b < w.len() implies #[trigger] w[a].0 < #[trigger] w[b].0 by {
            if a == 0 {
                assert(w[b] == u[b - 1]);
                let kb = u[b - 1].0;
                if kb != k {
                    assert(t.map_values(|e: (usize, TrackView)| e.0).contains(kb));
                    let j = choose|j: int| 0 <= j < t.len() && t[j].0 == kb;
                    assert(s[j + 1].0 == kb);
                }
            } else {
                assert(w[a] == u[a - 1] && w[b] == u[b - 1]);
            }
        }
    } else if s.len() > 0 && s[0].0 == k {
        let w = upsert(s, k, field, val);
        assert forall|a: int, b: int| 0 <= a < b < w.len() implies #[trigger] w[a].0 < #[trigger] w[b].0 by {
            assert(w[a].0 == s[a].0 && w[b].0 == s[b].0);
        }
    } else if s.len() > 0 {
        let w = upsert(s, k, field, val);
        assert forall|a: int, b: int| 0 <= a < b < w.len() implies #[trigger] w[a].0 < #[trigger] w[b].0 by {
            if a > 0 {
                assert(w[a] == s[a - 1]);
            }
            assert(w[b] == s[b - 1]);
            if a == 0 && b > 1 {
                assert(s[0].0 < s[b - 1].0);
            }
        }
    }
}

/// Every index in `upsert(s, k, ..)` is `k` or an index of `s`.
proof fn lemma_upsert_keys(s: Seq<(usize, TrackView)>, k: usize, field: PlsField, val: Seq<char>)
    ensures
        forall|i: int|
            0 <= i < upsert(s, k, field, val).len() ==> #[trigger] upsert(s, k, field, val)[i].0 == k
                || s.map_values(|e: (usize, TrackView)| e.0).contains(upsert(s, k, field, val)[i].0),
    decreases s.len(),
{
    let u = upsert(s, k, field, val);
    let ks = s.map_values(|e: (usize, TrackView)| e.0);
    if s.len() > 0 && s[0].0 < k {
        let t = s.drop_first();
        lemma_upsert_keys(t, k, field, val);
        let ut = upsert(t, k, field, val);
        assert forall|i: int| 0 <= i < u.len() implies #[trigger] u[i].0 == k || ks.contains(u[i].0) by {
            if i == 0 {
                assert(ks[0] == s[0].0);
            } else {
                assert(u[i] == ut[i - 1]);
                if ut[i - 1].0 != k {
                    let tks = t.map_values(|e: (usize, TrackView)| e.0);
                    assert(tks.contains(ut[i - 1].0));
                    let j = choose|j: int| 0 <= j < tks.len() && tks[j] == ut[i - 1].0;
                    assert(ks[j + 1] == tks[j]);
                }
            }
        }
    } else if s.len() > 0 && s[0].0 == k {
        assert forall|i: int| 0 <= i < u.len() implies #[trigger] u[i].0 == k || ks.contains(u[i].0) by {
            if i > 0 {
                assert(ks[i] == s[i].0);
            }
        }
    } else if s.len() > 0 {
        assert forall|i: int| 0 <= i < u.len() implies #[trigger] u[i].0 == k || ks.contains(u[i].0) by {
            if i > 0 {
                assert(ks[i - 1] == s[i - 1].0);
            }
        }
    }
}

} // verus!

verus! {

/// The views of the PLS entries.
pub open spec fn entry_views(s: Seq<(usize, ParsedTrack)>) -> Seq<(usize, TrackView)> {
    s.map_values(|e: (usize, ParsedTrack)| (e.0, e.1@))
}

/// The entries that PLS lines build always list their indices in
/// increasing order, so the tracks come out ordered by index.
pub proof fn pls_entries_sorted(ls: Seq<Seq<char>>)
    ensures
        keys_increasing(pls_scan(ls)),
    decreases ls.len(),
{
    if ls.len() > 0 {
        pls_entries_sorted(ls.drop_last());
        let st = pls_scan(ls.drop_last());
        let t = trim(ls.last());
        if !(t.len() == 0 || t[0] == ';' || t[0] == '#' || t[0] == '[') {
            if let Some((key, v)) = crate::text::split_once_char(t, '=') {
                let kl = crate::text::ascii_lower_seq(trim(key));
                let val = trim(v);
                if let Some(idx) = crate::text::parse_usize_spec(kl.skip(4)) {
                    lemma_upsert_sorted(st, idx, PlsField::File, val);
                }
                if let Some(idx) = crate::text::parse_usize_spec(kl.skip(5)) {
                    lemma_upsert_sorted(st, idx, PlsField::Title, val);
                }
                if let Some(idx) = crate::text::parse_usize_spec(kl.skip(6)) {
                    if let Some(n) = crate::text::parse_i64_spec(val) {
                        lemma_upsert_sorted(st, idx, PlsField::Length(n), val);
                    }
                }
            }
        }
    }
}

/// A field-for-field copy of a track.
pub fn copy_track(t: &ParsedTrack) -> (r: ParsedTrack)
    ensures
        r@ == t@,
{
    ParsedTrack {
        path_or_url: t.path_or_url.clone(),
        title: match &t.title {
            Some(s) => Some(s.clone()),
            None => None,
        },
        artist: match &t.artist {
            Some(s) => Some(s.clone()),
            None => None,
        },
        album: match &t.album {
            Some(s) => Some(s.clone()),
            None => None,
        },
        duration_sec: t.duration_sec,
    }
}

fn apply_field(t: &mut ParsedTrack, field: PlsField, val: &[char], sep: &[char])
    requires
        sep@ == " - "@,
    ensures
        final(t)@ == pls_apply(old(t)@, field, val@),
{
    match field {
        PlsField::File => {
            t.path_or_url = string_of(val);
        },
        PlsField::Title => {
            match crate::text::split_once_at_chars(val, sep) {
                Some((a, ti)) => {
                    t.artist = Some(string_of(trim_chars(a.as_slice()).as_slice()));
                    t.title = Some(string_of(trim_chars(ti.as_slice()).as_slice()));
                },
                None => {
                    if val.len() > 0 {
                        t.title = Some(string_of(val));
                    }
                },
            }
        },
        PlsField::Length(n) => {
            t.duration_sec = Some(n);
        },
    }
}

fn upsert_entry(
    entries: &mut Vec<(usize, ParsedTrack)>,
    k: usize,
    field: PlsField,
    val: &[char],
    sep: &[char],
)
    requires
        sep@ == " - "@,
    ensures
        entry_views(final(entries)@) == upsert(entry_views(old(entries)@), k, field, val@),
{
    let ghost ev = entry_views(entries@);
    let mut p: usize = 0;
    while p < entries.len() && entries[p].0 < k
        invariant
            p <= entries@.len(),
            ev == entry_views(entries@),
            forall|i: int| 0 <= i < p ==> (#[trigger] ev[i]).0 < k,
        decreases entries@.len() - p,
    {
        p += 1;
    }
    proof {
        lemma_upsert_at(ev, k, field, val@, p as int);
    }
    if p < entries.len() && entries[p].0 == k {
        let (k0, mut t) = entries.remove(p);
        apply_field(&mut t, field, val, sep);
        entries.insert(p, (k0, t));
        assert(entry_views(entries@) =~= ev.take(p as int) + seq![(k, pls_apply(ev[p as int].1, field, val@))]
            + ev.skip(p + 1));
    } else {
        let mut t = ParsedTrack {
            path_or_url: String::new(),
            title: None,
            artist: None,
            album: None,
            duration_sec: None,
        };
        assert(t@ == blank_track());
        apply_field(&mut t, field, val, sep);
        entries.insert(p, (k, t));
        assert(entry_views(entries@) =~= ev.take(p as int) + seq![(k, pls_apply(blank_track(), field, val@))]
            + ev.skip(p as int));
    }
}

/// Reads PLS (INI-style) text: the entries that have a path, by index.
pub fn parse_pls(content: &str) -> (r: Vec<ParsedTrack>)
    ensures
        track_views(r@) == with_paths(pls_scan(crate::text::lines(content@))),
{
    proof {
        reveal_strlit("file");
        reveal_strlit("title");
        reveal_strlit("length");
    }
    let text = chars_of(content);
    let ls = crate::text::lines_of(text.as_slice());
    let ghost lv = crate::text::views(ls@);
    let sep = chars_of(" - ");
    let file_key = chars_of("file");
    let title_key = chars_of("title");
    let length_key = chars_of("length");
    let mut entries: Vec<(usize, ParsedTrack)> = Vec::new();
    let mut i: usize = 0;
    while i < ls.len()
        invariant
            i <= ls@.len(),
            lv == crate::text::views(ls@),
            sep@ == " - "@,
            file_key@ == "file"@,
            title_key@ == "title"@,
            length_key@ == "length"@,
            "file"@.len() == 4,
            "title"@.len() == 5,
            "length"@.len() == 6,
            entry_views(entries@) == pls_scan(lv.take(i as int)),
        decreases ls@.len() - i,
    {
        assert(lv.take(i + 1).drop_last() =~= lv.take(i as int));
        assert(lv.take(i + 1).last() == ls@[i as int]@);
        let t = trim_chars(ls[i].as_slice());
        if t.len() == 0 || t[0] == ';' || t[0] == '#' || t[0] == '[' {
        } else {
            match crate::text::split_once_at_char(t.as_slice(), '=') {
                None => {},
                Some((key, v)) => {
                    let kl = crate::text::ascii_lowercase_chars(trim_chars(key.as_slice()).as_slice());
                    let val = trim_chars(v.as_slice());
                    if let Some(suffix) = crate::text::strip_prefix_chars(kl.as_slice(), file_key.as_slice()) {
                        assert(suffix@ =~= kl@.skip(4));
                        match crate::text::parse_usize(suffix.as_slice()) {
                            Some(idx) => {
                                upsert_entry(&mut entries, idx, PlsField::File, val.as_slice(), sep.as_slice());
                            },
                            None => {},
                        }
                    } else if let Some(suffix) = crate::text::strip_prefix_chars(
                        kl.as_slice(),
                        title_key.as_slice(),
                    ) {
                        assert(suffix@ =~= kl@.skip(5));
                        match crate::text::parse_usize(suffix.as_slice()) {
                            Some(idx) => {
                                upsert_entry(&mut entries, idx, PlsField::Title, val.as_slice(), sep.as_slice());
                            },
                            None => {},
                        }
                    } else if let Some(suffix) = crate::text::strip_prefix_chars(
                        kl.as_slice(),
                        length_key.as_slice(),
                    ) {
                        assert(suffix@ =~= kl@.skip(6));
                        match crate::text::parse_usize(suffix.as_slice()) {
                            Some(idx) => {
                                match crate::text::parse_i64(val.as_slice()) {
                                    Some(n) => {
                                        if n > 0 {
                                            upsert_entry(
                                                &mut entries,
                                                idx,
                                                PlsField::Length(n),
                                                val.as_slice(),
                                                sep.as_slice(),
                                            );
                                        }
                                    },
                                    None => {},
                                }
                            },
                            None => {},
                        }
                    }
                },
            }
        }
        i += 1;
    }
    assert(lv.take(i as int) =~= lv);
    let ghost ev = entry_views(entries@);
    let mut out: Vec<ParsedTrack> = Vec::new();
    let mut j: usize = 0;
    while j < entries.len()
        invariant
            j <= entries@.len(),
            ev == entry_views(entries@),
            track_views(out@) == with_paths(ev.take(j as int)),
        decreases entries@.len() - j,
    {
        assert(ev.take(j + 1).drop_last() =~= ev.take(j as int));
        assert(ev.take(j + 1).last() == ev[j as int]);
        let empty = String::new();
        let has_path = !(entries[j].1.path_or_url == empty);
        proof {
            if !has_path {
                assert(ev[j as int].1.path.len() == 0);
            } else {
                assert(ev[j as int].1.path =~= entries@[j as int].1.path_or_url@);
                if ev[j as int].1.path.len() == 0 {
                    assert(entries@[j as int].1.path_or_url@ =~= empty@);
                }
            }
        }
        if has_path {
            let ghost before = out@;
            out.push(copy_track(&entries[j].1));
            assert(track_views(out@) =~= track_views(before).push(entries@[j as int].1@));
        }
        j += 1;
    }
    assert(ev.take(j as int) =~= ev);
    out
}

} // verus!

verus! {

// ---------------------------------------------------------------------------
// Paths (`/`-separated)
// ---------------------------------------------------------------------------

/// The components of a path after its first piece: empty pieces and `.`
/// go, except a `.` that begins a relative path.
pub open spec fn comp_body(parts: Seq<Seq<char>>, first_rel: bool) -> Seq<Seq<char>>
    decreases parts.len(),
{
    if parts.len() == 0 {
        Seq::empty()
    } else {
        let x = parts[0];
        let rest = comp_body(parts.drop_first(), false);
        if x.len() == 0 {
            rest
        } else if x == seq!['.'] {
            if first_rel {
                seq![x] + rest
            } else {
                rest
            }
        } else {
            seq![x] + rest
        }
    }
}

/// A path's components as `Path::components` yields them, each written
/// as text: `/` for the root, `.` and `..`, or a name.
pub open spec fn path_comps(p: Seq<char>) -> Seq<Seq<char>> {
    let root = p.len() > 0 && p[0] == '/';
    (if root {
        seq![seq!['/']]
    } else {
        Seq::<Seq<char>>::empty()
    }) + comp_body(crate::text::split_char(p, '/'), !root)
}

/// The path has a root.
pub open spec fn comps_absolute(c: Seq<Seq<char>>) -> bool {
    c.len() > 0 && c[0] == seq!['/']
}

/// Components joined with `/` (a path built from them; no root among them).
pub open spec fn joined(cs: Seq<Seq<char>>) -> Seq<char>
    decreases cs.len(),
{
    if cs.len() == 0 {
        Seq::empty()
    } else if cs.len() == 1 {
        cs[0]
    } else {
        joined(cs.drop_last()) + seq!['/'] + cs.last()
    }
}

/// `n` parent-directory components.
pub open spec fn parents(n: nat) -> Seq<Seq<char>> {
    Seq::new(n, |i: int| seq!['.', '.'])
}

/// The walk of `diff_paths` over the remaining components `a` of the path
/// and `b` of the base, with `acc` built so far.
pub open spec fn diff_walk(a: Seq<Seq<char>>, b: Seq<Seq<char>>, acc: Seq<Seq<char>>) -> Seq<Seq<char>>
    decreases a.len() + b.len(),
{
    if a.len() == 0 && b.len() == 0 {
        acc
    } else if b.len() == 0 {
        acc + a
    } else if a.len() == 0 {
        diff_walk(a, b.drop_first(), acc.push(seq!['.', '.']))
    } else if acc.len() == 0 && a[0] == b[0] {
        diff_walk(a.drop_first(), b.drop_first(), acc)
    } else {
        acc + parents(b.len()) + a
    }
}

/// The path to `path` relative to `base`: `Err` when only the base is
/// absolute; `path` itself when only it is.
pub open spec fn relative_path(path: Seq<char>, base: Seq<Seq<char>>) -> Result<Seq<char>, ()> {
    let a = path_comps(path);
    if comps_absolute(a) != comps_absolute(base) {
        if comps_absolute(a) {
            Ok(path)
        } else {
            Err(())
        }
    } else {
        Ok(joined(diff_walk(a, base, Seq::empty())))
    }
}

/// The position of the last `c` in `s`.
pub open spec fn last_index(s: Seq<char>, c: char) -> Option<nat>
    decreases s.len(),
{
    if s.len() == 0 {
        None
    } else if s.last() == c {
        Some((s.len() - 1) as nat)
    } else {
        last_index(s.drop_last(), c)
    }
}

/// A file name's stem: up to its last `.`, unless that dot starts it.
pub open spec fn name_stem(n: Seq<char>) -> Seq<char> {
    match last_index(n, '.') {
        Some(d) => if d == 0 {
            n
        } else {
            n.take(d as int)
        },
        None => n,
    }
}

/// A file name's extension: after its last `.`, unless that dot starts it.
pub open spec fn name_extension(n: Seq<char>) -> Option<Seq<char>> {
    match last_index(n, '.') {
        Some(d) => if d == 0 {
            None
        } else {
            Some(n.skip((d + 1) as int))
        },
        None => None,
    }
}

/// The path's file name: its last component when that is a name.
pub open spec fn file_name(p: Seq<char>) -> Option<Seq<char>> {
    let c = path_comps(p);
    if c.len() > 0 && c.last() != seq!['/'] && c.last() != seq!['.'] && c.last() != seq!['.', '.'] {
        Some(c.last())
    } else {
        None
    }
}

/// The components of the path's parent; `None` for the root or an empty
/// path.
pub open spec fn parent_comps(p: Seq<char>) -> Option<Seq<Seq<char>>> {
    let c = path_comps(p);
    if c.len() == 0 || c.last() == seq!['/'] {
        None
    } else {
        Some(c.drop_last())
    }
}

/// The components of `s`.
pub fn components_of(s: &[char]) -> (r: Vec<Vec<char>>)
    ensures
        crate::text::views(r@) == path_comps(s@),
{
    let parts = crate::text::split_on(s, '/');
    let ghost pv = crate::text::views(parts@);
    let root = s.len() > 0 && s[0] == '/';
    let mut out: Vec<Vec<char>> = Vec::new();
    if root {
        let mut r: Vec<char> = Vec::new();
        r.push('/');
        out.push(r);
    }
    let ghost head = crate::text::views(out@);
    assert(head =~= (if root {
        seq![seq!['/']]
    } else {
        Seq::<Seq<char>>::empty()
    }));
    let mut i: usize = 0;
    assert(pv.skip(0) =~= pv);
    while i < parts.len()
        invariant
            i <= parts@.len(),
            pv == crate::text::views(parts@),
            pv == crate::text::split_char(s@, '/'),
            head + comp_body(pv, !root) == crate::text::views(out@) + comp_body(
                pv.skip(i as int),
                i == 0 && !root,
            ),
        decreases parts@.len() - i,
    {
        let ghost rest = pv.skip(i as int);
        assert(rest.drop_first() =~= pv.skip(i + 1));
        assert(rest[0] == parts@[i as int]@);
        let x = &parts[i];
        let ghost before = crate::text::views(out@);
        let is_dot = x.len() == 1 && x[0] == '.';
        proof {
            if is_dot {
                assert(x@ =~= seq!['.']);
            } else if x@.len() == 1 {
                assert(x@ != seq!['.']) by {
                    assert(x@[0] != '.');
                }
            }
        }
        if x.len() == 0 {
        } else if is_dot {
            if i == 0 && !root {
                out.push(copy_range(x.as_slice(), 0, x.len()));
                assert(x@.subrange(0, x@.len() as int) =~= x@);
                assert(crate::text::views(out@) =~= before.push(x@));
                assert(before + (seq![x@] + comp_body(pv.skip(i + 1), false)) =~= before.push(x@) + comp_body(
                    pv.skip(i + 1),
                    false,
                ));
            }
        } else {
            out.push(copy_range(x.as_slice(), 0, x.len()));
            assert(x@.subrange(0, x@.len() as int) =~= x@);
            assert(crate::text::views(out@) =~= before.push(x@));
            assert(before + (seq![x@] + comp_body(pv.skip(i + 1), false)) =~= before.push(x@) + comp_body(
                pv.skip(i + 1),
                false,
            ));
        }
        i += 1;
    }
    assert(pv.skip(i as int) =~= Seq::<Seq<char>>::empty());
    assert(crate::text::views(out@) + Seq::<Seq<char>>::empty() =~= crate::text::views(out@));
    out
}

/// `cs` joined with `/`.
fn join_comps(cs: &Vec<Vec<char>>) -> (r: Vec<char>)
    ensures
        r@ == joined(crate::text::views(cs@)),
{
    let ghost cv = crate::text::views(cs@);
    let mut out: Vec<char> = Vec::new();
    let mut i: usize = 0;
    while i < cs.len()
        invariant
            i <= cs@.len(),
            cv == crate::text::views(cs@),
            out@ == joined(cv.take(i as int)),
        decreases cs@.len() - i,
    {
        assert(cv.take(i + 1).drop_last() =~= cv.take(i as int));
        assert(cv.take(i + 1).last() == cs@[i as int]@);
        if i > 0 {
            out.push('/');
        } else {
            assert(out@ =~= Seq::<char>::empty());
        }
        push_chars(&mut out, cs[i].as_slice());
        proof {
            if i == 0 {
                assert(out@ =~= cv.take(1)[0]);
            }
        }
        i += 1;
    }
    assert(cv.take(i as int) =~= cv);
    out
}

fn comp_eq(a: &Vec<char>, b: &Vec<char>) -> (r: bool)
    ensures
        r == (a@ == b@),
{
    chars_eq(a.as_slice(), b.as_slice())
}

fn is_root_comp(cs: &Vec<Vec<char>>) -> (r: bool)
    ensures
        r == comps_absolute(crate::text::views(cs@)),
{
    if cs.len() == 0 {
        return false;
    }
    let b = cs[0].len() == 1 && cs[0][0] == '/';
    proof {
        if b {
            assert(cs@[0]@ =~= seq!['/']);
        } else if cs@[0]@ == seq!['/'] {
            assert(cs@[0]@.len() == 1);
        }
    }
    b
}

/// See `diff_walk`.
fn diff_comps(a: &Vec<Vec<char>>, b: &Vec<Vec<char>>) -> (r: Vec<Vec<char>>)
    ensures
        crate::text::views(r@) == diff_walk(
            crate::text::views(a@),
            crate::text::views(b@),
            Seq::empty(),
        ),
{
    let ghost av = crate::text::views(a@);
    let ghost bv = crate::text::views(b@);
    let mut acc: Vec<Vec<char>> = Vec::new();
    let mut i: usize = 0;
    let mut j: usize = 0;
    assert(av.skip(0) =~= av);
    assert(bv.skip(0) =~= bv);
    assert(crate::text::views(acc@) =~= Seq::<Seq<char>>::empty());
    loop
        invariant
            i <= a@.len(),
            j <= b@.len(),
            av == crate::text::views(a@),
            bv == crate::text::views(b@),
            diff_walk(av, bv, Seq::empty()) == diff_walk(
                av.skip(i as int),
                bv.skip(j as int),
                crate::text::views(acc@),
            ),
        decreases a@.len() - i + b@.len() - j,
    {
        let ghost ra = av.skip(i as int);
        let ghost rb = bv.skip(j as int);
        let ghost accv = crate::text::views(acc@);
        if i == a.len() && j == b.len() {
            return acc;
        } else if j == b.len() {
            while i < a.len()
                invariant
                    i <= a@.len(),
                    av == crate::text::views(a@),
                    crate::text::views(acc@) + av.skip(i as int) == accv + ra,
                decreases a@.len() - i,
            {
                let ghost before = crate::text::views(acc@);
                acc.push(copy_range(a[i].as_slice(), 0, a[i].len()));
                assert(a@[i as int]@.subrange(0, a@[i as int]@.len() as int) =~= a@[i as int]@);
                assert(crate::text::views(acc@) =~= before.push(av[i as int]));
                assert(av.skip(i as int) =~= seq![av[i as int]] + av.skip(i + 1));
                assert(before + av.skip(i as int) =~= crate::text::views(acc@) + av.skip(i + 1));
                i += 1;
            }
            assert(av.skip(i as int) =~= Seq::<Seq<char>>::empty());
            assert(crate::text::views(acc@) =~= crate::text::views(acc@) + Seq::<Seq<char>>::empty());
            return acc;
        } else if i == a.len() {
            let mut up: Vec<char> = Vec::new();
            up.push('.');
            up.push('.');
            assert(up@ =~= seq!['.', '.']);
            let ghost before = crate::text::views(acc@);
            acc.push(up);
            assert(crate::text::views(acc@) =~= before.push(seq!['.', '.']));
            assert(rb.drop_first() =~= bv.skip(j + 1));
            j += 1;
        } else if acc.len() == 0 && comp_eq(&a[i], &b[j]) {
            assert(ra.drop_first() =~= av.skip(i + 1));
            assert(rb.drop_first() =~= bv.skip(j + 1));
            assert(ra[0] == av[i as int] && rb[0] == bv[j as int]);
            i += 1;
            j += 1;
        } else {
            proof {
                assert(ra[0] == av[i as int] && rb[0] == bv[j as int]);
            }
            let ghost nb = rb.len();
            while j < b.len()
                invariant
                    j <= b@.len(),
                    bv == crate::text::views(b@),
                    crate::text::views(acc@) == accv + parents((nb - (b@.len() - j)) as nat),
                    nb == bv.skip(j as int).len() + (nb - (b@.len() - j)),
                    nb >= b@.len() - j,
                decreases b@.len() - j,
            {
                let mut up: Vec<char> = Vec::new();
                up.push('.');
                up.push('.');
                assert(up@ =~= seq!['.', '.']);
                let ghost before = crate::text::views(acc@);
                acc.push(up);
                let ghost k = (nb - (b@.len() - j)) as nat;
                assert(parents(k + 1) =~= parents(k).push(seq!['.', '.']));
                assert(crate::text::views(acc@) =~= before.push(seq!['.', '.']));
                assert(crate::text::views(acc@) =~= accv + parents((nb - (b@.len() - j) + 1) as nat));
                j += 1;
            }
            let ghost mid = crate::text::views(acc@);
            assert(mid =~= accv + parents(nb as nat));
            while i < a.len()
                invariant
                    i <= a@.len(),
                    av == crate::text::views(a@),
                    crate::text::views(acc@) + av.skip(i as int) == mid + ra,
                decreases a@.len() - i,
            {
                let ghost before = crate::text::views(acc@);
                acc.push(copy_range(a[i].as_slice(), 0, a[i].len()));
                assert(a@[i as int]@.subrange(0, a@[i as int]@.len() as int) =~= a@[i as int]@);
                assert(crate::text::views(acc@) =~= before.push(av[i as int]));
                assert(av.skip(i as int) =~= seq![av[i as int]] + av.skip(i + 1));
                assert(before + av.skip(i as int) =~= crate::text::views(acc@) + av.skip(i + 1));
                i += 1;
            }
            assert(av.skip(i as int) =~= Seq::<Seq<char>>::empty());
            assert(crate::text::views(acc@) =~= crate::text::views(acc@) + Seq::<Seq<char>>::empty());
            return acc;
        }
    }
}

} // verus!

verus! {

/// See `relative_path`, with the base given by its components.
fn relative_to(path: &[char], base: &Vec<Vec<char>>) -> (r: Result<Vec<char>, ()>)
    ensures
        match r {
            Ok(v) => relative_path(path@, crate::text::views(base@)) == Ok::<Seq<char>, ()>(v@),
            Err(_) => relative_path(path@, crate::text::views(base@)) is Err,
        },
{
    let a = components_of(path);
    let pa = is_root_comp(&a);
    let pb = is_root_comp(base);
    if pa != pb {
        if pa {
            let v = copy_range(path, 0, path.len());
            assert(path@.subrange(0, path@.len() as int) =~= path@);
            return Ok(v);
        } else {
            return Err(());
        }
    }
    let d = diff_comps(&a, base);
    Ok(join_comps(&d))
}

/// The path to `path` from the directory `base`, both `/`-separated: see
/// `relative_path`.
pub fn diff_paths(path: &str, base: &str) -> (r: Result<String, ()>)
    ensures
        match r {
            Ok(v) => relative_path(path@, path_comps(base@)) == Ok::<Seq<char>, ()>(v@),
            Err(_) => relative_path(path@, path_comps(base@)) is Err,
        },
{
    let p = chars_of(path);
    let b = components_of(chars_of(base).as_slice());
    match relative_to(p.as_slice(), &b) {
        Ok(v) => Ok(string_of(v.as_slice())),
        Err(e) => Err(e),
    }
}

/// The position of the last `c` in `s`.
fn last_index_of(s: &[char], c: char) -> (r: Option<usize>)
    ensures
        match r {
            Some(i) => last_index(s@, c) == Some(i as nat),
            None => last_index(s@, c) is None,
        },
{
    let mut i: usize = s.len();
    assert(s@.take(i as int) =~= s@);
    while i > 0
        invariant
            i <= s@.len(),
            last_index(s@, c) == last_index(s@.take(i as int), c),
        decreases i,
    {
        let ghost t = s@.take(i as int);
        assert(t.drop_last() =~= s@.take(i - 1));
        assert(t.last() == s@[i - 1]);
        if s[i - 1] == c {
            return Some(i - 1);
        }
        i -= 1;
    }
    None
}

/// The file name of `p` (see `file_name`).
pub(crate) fn file_name_of(p: &[char]) -> (r: Option<Vec<char>>)
    ensures
        match r {
            Some(v) => file_name(p@) == Some(v@),
            None => file_name(p@) is None,
        },
{
    let cs = components_of(p);
    let ghost cv = crate::text::views(cs@);
    if cs.len() == 0 {
        return None;
    }
    let last = &cs[cs.len() - 1];
    assert(cv.last() == last@);
    let mut root: Vec<char> = Vec::new();
    root.push('/');
    let mut dot: Vec<char> = Vec::new();
    dot.push('.');
    let mut dots: Vec<char> = Vec::new();
    dots.push('.');
    dots.push('.');
    assert(root@ =~= seq!['/']);
    assert(dot@ =~= seq!['.']);
    assert(dots@ =~= seq!['.', '.']);
    if comp_eq(last, &root) || comp_eq(last, &dot) || comp_eq(last, &dots) {
        return None;
    }
    Some(copy_range(last.as_slice(), 0, last.len()))
}

/// The stem of file name `n`.
pub(crate) fn stem_of(n: &[char]) -> (r: Vec<char>)
    ensures
        r@ == name_stem(n@),
{
    match last_index_of(n, '.') {
        Some(d) => {
            if d == 0 {
                copy_range(n, 0, n.len())
            } else {
                proof {
                    lemma_last_index_bound(n@, '.');
                }
                copy_range(n, 0, d)
            }
        },
        None => copy_range(n, 0, n.len()),
    }
}

proof fn lemma_last_index_bound(s: Seq<char>, c: char)
    ensures
        last_index(s, c) matches Some(i) ==> i < s.len(),
    decreases s.len(),
{
    if s.len() > 0 && s.last() != c {
        lemma_last_index_bound(s.drop_last(), c);
    }
}

/// The extension of file name `n`.
fn extension_of(n: &[char]) -> (r: Option<Vec<char>>)
    ensures
        match r {
            Some(v) => name_extension(n@) == Some(v@),
            None => name_extension(n@) is None,
        },
{
    match last_index_of(n, '.') {
        Some(d) => {
            if d == 0 {
                None
            } else {
                proof {
                    lemma_last_index_bound(n@, '.');
                }
                let nl = n.len();
                Some(copy_range(n, d + 1, nl))
            }
        },
        None => None,
    }
}

/// The format a file name's extension names, in any case.
pub open spec fn format_of(p: Seq<char>) -> Option<PlaylistFormat> {
    match file_name(p) {
        None => None,
        Some(n) => match name_extension(n) {
            None => None,
            Some(e) => {
                let l = crate::text::ascii_lower_seq(e);
                if l == "m3u"@ {
                    Some(PlaylistFormat::M3u)
                } else if l == "m3u8"@ {
                    Some(PlaylistFormat::M3u8)
                } else if l == "pls"@ {
                    Some(PlaylistFormat::Pls)
                } else if l == "xspf"@ {
                    Some(PlaylistFormat::Xspf)
                } else {
                    None
                }
            },
        },
    }
}

impl PlaylistFormat {
    /// The format of a playlist file, from its extension.
    pub fn from_path(path: &str) -> (r: Option<PlaylistFormat>)
        ensures
            r == format_of(path@),
    {
        let p = chars_of(path);
        let name = match file_name_of(p.as_slice()) {
            Some(n) => n,
            None => {
                return None;
            },
        };
        let e = match extension_of(name.as_slice()) {
            Some(e) => e,
            None => {
                return None;
            },
        };
        let l = crate::text::ascii_lowercase_chars(e.as_slice());
        if chars_eq(l.as_slice(), chars_of("m3u").as_slice()) {
            Some(PlaylistFormat::M3u)
        } else if chars_eq(l.as_slice(), chars_of("m3u8").as_slice()) {
            Some(PlaylistFormat::M3u8)
        } else if chars_eq(l.as_slice(), chars_of("pls").as_slice()) {
            Some(PlaylistFormat::Pls)
        } else if chars_eq(l.as_slice(), chars_of("xspf").as_slice()) {
            Some(PlaylistFormat::Xspf)
        } else {
            None
        }
    }
}

// ---------------------------------------------------------------------------
// XSPF
// ---------------------------------------------------------------------------

/// Percent-decoding as `percent_encoding` does it, then lossy UTF-8.
pub uninterp spec fn lossy_decoded(s: Seq<char>) -> Seq<char>;

/// `percent_encoding::percent_decode_str(s).decode_utf8_lossy()`: every
/// `%` followed by two hex digits becomes that byte and the bytes are read
/// as UTF-8, malformed sequences becoming U+FFFD. The contract names the
/// result as a function of `s`; where the decoded bytes
/// (`subsonic::percent_decoded`) are valid UTF-8 it states the result
/// exactly, and that text without `%` comes back unchanged. The
/// replacement of malformed sequences is left unsaid.
#[verifier::external_body]
fn percent_decode_lossy(s: &str) -> (r: String)
    ensures
        r@ == lossy_decoded(s@),
        valid_utf8(crate::subsonic::percent_decoded(encode_utf8(s@))) ==> r@ == decode_utf8(
            crate::subsonic::percent_decoded(encode_utf8(s@)),
        ),
        !s@.contains('%') ==> r@ == s@,
{
    percent_encoding::percent_decode_str(s).decode_utf8_lossy().to_string()
}

/// `<track>`.
pub open spec fn track_open() -> Seq<char> {
    seq!['<', 't', 'r', 'a', 'c', 'k', '>']
}

/// `</track>`.
pub open spec fn track_close() -> Seq<char> {
    seq!['<', '/', 't', 'r', 'a', 'c', 'k', '>']
}

/// A location: a `file://` URI becomes the path it percent-encodes.
pub open spec fn xspf_location(loc: Seq<char>) -> Seq<char> {
    if has_prefix(loc, "file://"@) {
        lossy_decoded(loc.skip(7))
    } else {
        loc
    }
}

/// `ms / 1000`, rounding toward zero as Rust's `/` does.
pub open spec fn ms_to_sec(ms: i64) -> i64 {
    if ms >= 0 {
        (ms / 1000) as i64
    } else {
        (-((-ms) / 1000)) as i64
    }
}

/// The unescaped text of a tag.
pub open spec fn tag_text(block: Seq<char>, tag: Seq<char>) -> Option<Seq<char>> {
    match xml_tag(block, tag) {
        Some(t) => Some(unescaped(t)),
        None => None,
    }
}

/// The track a `<track>` block describes; `None` without a location.
pub open spec fn xspf_track(block: Seq<char>) -> Option<TrackView> {
    match tag_text(block, "location"@) {
        None => None,
        Some(loc) => Some(
            TrackView {
                path: xspf_location(loc),
                title: tag_text(block, "title"@),
                artist: tag_text(block, "creator"@),
                album: tag_text(block, "album"@),
                duration: match xml_tag(block, "duration"@) {
                    Some(d) => match crate::text::parse_i64_spec(trim(d)) {
                        Some(ms) => Some(ms_to_sec(ms)),
                        None => None,
                    },
                    None => None,
                },
            },
        ),
    }
}

/// The tracks of the `<track>..</track>` blocks of `rest`, in order,
/// until one is left open.
pub open spec fn xspf_tracks(rest: Seq<char>) -> Seq<TrackView>
    decreases rest.len(),
{
    match find_seq(rest, track_open()) {
        None => Seq::empty(),
        Some(i) => {
            let r2 = rest.skip((i + 7) as int);
            match find_seq(r2, track_close()) {
                None => Seq::empty(),
                Some(e) => {
                    proof {
                        crate::text::lemma_find_seq_bounds(rest, track_open());
                        crate::text::lemma_find_seq_bounds(r2, track_close());
                    }
                    let after = r2.skip((e + 8) as int);
                    (match xspf_track(r2.take(e as int)) {
                        Some(t) => seq![t],
                        None => Seq::empty(),
                    }) + xspf_tracks(after)
                },
            }
        },
    }
}

/// The playlist title: the `<title>` before `<trackList>`, unescaped.
pub open spec fn xspf_title(content: Seq<char>) -> Option<Seq<char>> {
    match find_seq(content, "<trackList>"@) {
        None => None,
        Some(i) => tag_text(content.take(i as int), "title"@),
    }
}

fn tag_text_of(block: &[char], tag: &str) -> (r: Option<Vec<char>>)
    ensures
        match r {
            Some(v) => tag_text(block@, tag@) == Some(v@),
            None => tag_text(block@, tag@) is None,
        },
{
    let t = chars_of(tag);
    match xml_tag_chars(block, t.as_slice()) {
        Some(v) => Some(unescape_xml_chars(v.as_slice())),
        None => None,
    }
}

fn xspf_track_of(block: &[char]) -> (r: Option<ParsedTrack>)
    ensures
        match r {
            Some(t) => xspf_track(block@) == Some(t@),
            None => xspf_track(block@) is None,
        },
{
    proof {
        reveal_strlit("file://");
    }
    let loc = match tag_text_of(block, "location") {
        Some(l) => l,
        None => {
            return None;
        },
    };
    let path = match crate::text::strip_prefix_chars(loc.as_slice(), chars_of("file://").as_slice()) {
        Some(rest) => {
            assert(rest@ =~= loc@.skip(7));
            let rs = string_of(rest.as_slice());
            percent_decode_lossy(rs.as_str())
        },
        None => string_of(loc.as_slice()),
    };
    let title = tag_text_of(block, "title");
    let creator = tag_text_of(block, "creator");
    let album = tag_text_of(block, "album");
    let dur = match xml_tag_chars(block, chars_of("duration").as_slice()) {
        Some(d) => match crate::text::parse_i64(trim_chars(d.as_slice()).as_slice()) {
            Some(ms) => {
                let wide: i128 = ms as i128;
                let secs: i128 = if wide >= 0 {
                    wide / 1000
                } else {
                    0 - ((0 - wide) / 1000)
                };
                Some(secs as i64)
            },
            None => None,
        },
        None => None,
    };
    Some(
        ParsedTrack {
            path_or_url: path,
            title: opt_string(&title),
            artist: opt_string(&creator),
            album: opt_string(&album),
            duration_sec: dur,
        },
    )
}

/// Reads XSPF text: the title before the track list, and the tracks of
/// the `<track>` blocks that have a location. It never fails.
pub fn parse_xspf(content: &str) -> (r: Result<ParsedPlaylist, String>)
    ensures
        r matches Ok(pl) && opt_view(pl.title) == xspf_title(content@) && track_views(pl.tracks@)
            == xspf_tracks(content@),
{
    proof {
        reveal_strlit("<track>");
        reveal_strlit("</track>");
    }
    let text = chars_of(content);
    let n = text.len();
    let title = match find_chars(text.as_slice(), chars_of("<trackList>").as_slice()) {
        Some(i) => {
            proof {
                crate::text::lemma_find_seq_bounds(text@, "<trackList>"@);
            }
            let head = copy_range(text.as_slice(), 0, i);
            assert(head@ =~= text@.take(i as int));
            tag_text_of(head.as_slice(), "title")
        },
        None => None,
    };
    let open = chars_of("<track>");
    let close = chars_of("</track>");
    assert(open@ =~= track_open());
    assert(close@ =~= track_close());
    let mut tracks: Vec<ParsedTrack> = Vec::new();
    let mut pos: usize = 0;
    assert(text@.skip(0) =~= text@);
    loop
        invariant
            pos <= n == text@.len(),
            open@ == track_open(),
            close@ == track_close(),
            track_views(tracks@) + xspf_tracks(text@.skip(pos as int)) == xspf_tracks(content@),
            text@ == content@,
        ensures
            track_views(tracks@) == xspf_tracks(content@),
        decreases n - pos,
    {
        let ghost rest = text@.skip(pos as int);
        let i = match crate::text::find_chars_from(text.as_slice(), open.as_slice(), pos) {
            Some(i) => i,
            None => {
                assert(xspf_tracks(rest) =~= Seq::<TrackView>::empty());
                assert(track_views(tracks@) + Seq::<TrackView>::empty() =~= track_views(tracks@));
                break;
            },
        };
        proof {
            crate::text::lemma_find_seq_bounds(rest, track_open());
        }
        let start = i + 7;
        let ghost r2 = rest.skip((i - pos) + 7);
        assert(r2 =~= text@.skip(start as int));
        let e = match crate::text::find_chars_from(text.as_slice(), close.as_slice(), start) {
            Some(e) => e,
            None => {
                assert(find_seq(rest, track_open()) == Some((i - pos) as nat));
                assert(xspf_tracks(rest) =~= Seq::<TrackView>::empty());
                assert(track_views(tracks@) + Seq::<TrackView>::empty() =~= track_views(tracks@));
                break;
            },
        };
        proof {
            crate::text::lemma_find_seq_bounds(r2, track_close());
        }
        let block = copy_range(text.as_slice(), start, e);
        assert(block@ =~= r2.take((e - start) as int));
        let ghost after = r2.skip((e - start) + 8);
        assert(after =~= text@.skip(e + 8));
        let ghost before = track_views(tracks@);
        match xspf_track_of(block.as_slice()) {
            Some(t) => {
                tracks.push(t);
                assert(track_views(tracks@) =~= before + seq![t@]);
            },
            None => {},
        }
        assert(track_views(tracks@) + xspf_tracks(after) =~= before + xspf_tracks(rest));
        pos = e + 8;
    }
    assert(track_views(tracks@) == xspf_tracks(content@));
    let pl = ParsedPlaylist { title: opt_string(&title), tracks };
    assert(opt_view(pl.title) == xspf_title(content@));
    Ok(pl)
}

} // verus!

verus! {

// ---------------------------------------------------------------------------
// Export
// ---------------------------------------------------------------------------

/// A track to write out.
pub struct ExportTrack {
    pub path: String,
    pub title: Option<String>,
    pub artist: Option<String>,
    pub album: Option<String>,
    pub duration_sec: Option<i64>,
}

impl View for ExportTrack {
    type V = TrackView;

    open spec fn view(&self) -> TrackView {
        TrackView {
            path: self.path@,
            title: opt_view(self.title),
            artist: opt_view(self.artist),
            album: opt_view(self.album),
            duration: self.duration_sec,
        }
    }
}

pub open spec fn export_views(v: Seq<ExportTrack>) -> Seq<TrackView> {
    v.map_values(|t: ExportTrack| t@)
}

pub open spec fn comp_views(o: Option<Vec<Vec<char>>>) -> Option<Seq<Seq<char>>> {
    match o {
        Some(v) => Some(crate::text::views(v@)),
        None => None,
    }
}

/// How a track's path is written: relative to the playlist's directory
/// (with `\` turned into `/`) when asked and possible, else as given.
pub open spec fn export_path_text(p: Seq<char>, relative: bool, base: Option<Seq<Seq<char>>>) -> Seq<char> {
    if relative {
        match base {
            Some(b) => match relative_path(p, b) {
                Ok(r) => replace_all(r, "\\"@, "/"@),
                Err(_) => p,
            },
            None => p,
        }
    } else {
        p
    }
}

/// The name an M3U entry shows.
pub open spec fn m3u_display(t: TrackView) -> Seq<char> {
    match (t.artist, t.title) {
        (Some(a), Some(ti)) => a + " - "@ + ti,
        (None, Some(ti)) => ti,
        (Some(a), None) => a,
        (None, None) => match file_name(t.path) {
            Some(n) => name_stem(n),
            None => Seq::empty(),
        },
    }
}

pub open spec fn m3u_entry(t: TrackView, relative: bool, base: Option<Seq<Seq<char>>>) -> Seq<char> {
    "#EXTINF:"@ + int_text(
        match t.duration {
            Some(d) => d as int,
            None => -1,
        },
    ) + ","@ + m3u_display(t) + "\n"@ + export_path_text(t.path, relative, base) + "\n"@
}

pub open spec fn pls_title_part(i: nat, t: TrackView) -> Seq<char> {
    match t.title {
        Some(ti) => match t.artist {
            Some(a) => "Title"@ + decimal(i) + "="@ + a + " - "@ + ti + "\n"@,
            None => "Title"@ + decimal(i) + "="@ + ti + "\n"@,
        },
        None => Seq::empty(),
    }
}

pub open spec fn pls_length_part(i: nat, t: TrackView) -> Seq<char> {
    match t.duration {
        Some(d) => "Length"@ + decimal(i) + "="@ + int_text(d as int) + "\n"@,
        None => "Length"@ + decimal(i) + "=-1\n"@,
    }
}

pub open spec fn pls_entry(i: nat, t: TrackView, relative: bool, base: Option<Seq<Seq<char>>>) -> Seq<char> {
    "File"@ + decimal(i) + "="@ + export_path_text(t.path, relative, base) + "\n"@ + pls_title_part(i, t)
        + pls_length_part(i, t) + "\n"@
}

/// An optional element: `open`, the escaped text and `close`, or nothing.
pub open spec fn opt_tag(open: Seq<char>, x: Option<Seq<char>>, close: Seq<char>) -> Seq<char> {
    match x {
        Some(v) => open + escaped(v) + close,
        None => Seq::empty(),
    }
}

pub open spec fn xspf_duration_part(t: TrackView) -> Seq<char> {
    match t.duration {
        Some(d) => "      <duration>"@ + int_text(d * 1000) + "</duration>\n"@,
        None => Seq::empty(),
    }
}

pub open spec fn xspf_entry(t: TrackView, relative: bool, base: Option<Seq<Seq<char>>>) -> Seq<char> {
    "    <track>\n"@ + "      <location>"@ + escaped(export_path_text(t.path, relative, base))
        + "</location>\n"@ + opt_tag("      <title>"@, t.title, "</title>\n"@) + opt_tag(
        "      <creator>"@,
        t.artist,
        "</creator>\n"@,
    ) + opt_tag("      <album>"@, t.album, "</album>\n"@) + xspf_duration_part(t) + "    </track>\n"@
}

/// The entries of `ts` one after another; PLS numbers them from 1.
pub open spec fn entries_text(
    ts: Seq<TrackView>,
    format: PlaylistFormat,
    relative: bool,
    base: Option<Seq<Seq<char>>>,
) -> Seq<char>
    decreases ts.len(),
{
    if ts.len() == 0 {
        Seq::empty()
    } else {
        entries_text(ts.drop_last(), format, relative, base) + match format {
            PlaylistFormat::Pls => pls_entry(ts.len(), ts.last(), relative, base),
            PlaylistFormat::Xspf => xspf_entry(ts.last(), relative, base),
            _ => m3u_entry(ts.last(), relative, base),
        }
    }
}

/// A whole exported playlist.
pub open spec fn export_text(
    name: Seq<char>,
    ts: Seq<TrackView>,
    format: PlaylistFormat,
    export_path: Seq<char>,
    relative: bool,
) -> Seq<char> {
    let base = parent_comps(export_path);
    let body = entries_text(ts, format, relative, base);
    match format {
        PlaylistFormat::Pls => "[playlist]\n"@ + "NumberOfEntries="@ + decimal(ts.len()) + "\n\n"@ + body,
        PlaylistFormat::Xspf => "<?xml version=\"1.0\" encoding=\"UTF-8\"?>\n"@
            + "<playlist version=\"1\" xmlns=\"http://xspf.org/ns/0/\">\n"@ + "  <title>"@ + escaped(name)
            + "</title>\n"@ + "  <trackList>\n"@ + body + "  </trackList>\n"@ + "</playlist>\n"@,
        _ => "#EXTM3U\n"@ + body,
    }
}

fn export_path_chars(p: &[char], relative: bool, base: &Option<Vec<Vec<char>>>) -> (r: Vec<char>)
    ensures
        r@ == export_path_text(p@, relative, comp_views(*base)),
{
    if relative {
        match base {
            Some(b) => match relative_to(p, b) {
                Ok(rel) => {
                    proof {
                        reveal_strlit("\\");
                    }
                    return replace_lit(rel.as_slice(), "\\", "/");
                },
                Err(_) => {},
            },
            None => {},
        }
    }
    copy_range(p, 0, p.len())
}

fn push_opt_string(out: &mut Vec<char>, s: &String)
    ensures
        final(out)@ == old(out)@ + s@,
{
    push_str(out, s.as_str());
}

#[verifier::rlimit(40)]
fn push_m3u_entry(out: &mut Vec<char>, t: &ExportTrack, relative: bool, base: &Option<Vec<Vec<char>>>)
    ensures
        final(out)@ == old(out)@ + m3u_entry(t@, relative, comp_views(*base)),
{
    push_str(out, "#EXTINF:");
    let d: i64 = match t.duration_sec {
        Some(d) => d,
        None => -1,
    };
    push_int(out, d);
    push_str(out, ",");
    match (&t.artist, &t.title) {
        (Some(a), Some(ti)) => {
            push_opt_string(out, a);
            push_str(out, " - ");
            push_opt_string(out, ti);
        },
        (None, Some(ti)) => {
            push_opt_string(out, ti);
        },
        (Some(a), None) => {
            push_opt_string(out, a);
        },
        (None, None) => {
            let p = chars_of(t.path.as_str());
            match file_name_of(p.as_slice()) {
                Some(n) => {
                    let st = stem_of(n.as_slice());
                    push_chars(out, st.as_slice());
                },
                None => {},
            }
        },
    }
    push_str(out, "\n");
    let p = chars_of(t.path.as_str());
    let fp = export_path_chars(p.as_slice(), relative, base);
    push_chars(out, fp.as_slice());
    push_str(out, "\n");
    assert(final(out)@ =~= old(out)@ + m3u_entry(t@, relative, comp_views(*base)));
}

fn push_pls_title(out: &mut Vec<char>, i: usize, t: &ExportTrack)
    ensures
        final(out)@ == old(out)@ + pls_title_part(i as nat, t@),
{
    match &t.title {
        Some(ti) => {
            push_str(out, "Title");
            push_decimal(out, i as u64);
            push_str(out, "=");
            match &t.artist {
                Some(a) => {
                    push_opt_string(out, a);
                    push_str(out, " - ");
                    push_opt_string(out, ti);
                },
                None => {
                    push_opt_string(out, ti);
                },
            }
            push_str(out, "\n");
        },
        None => {},
    }
    assert(final(out)@ =~= old(out)@ + pls_title_part(i as nat, t@));
}

fn push_pls_length(out: &mut Vec<char>, i: usize, t: &ExportTrack)
    ensures
        final(out)@ == old(out)@ + pls_length_part(i as nat, t@),
{
    match t.duration_sec {
        Some(d) => {
            push_str(out, "Length");
            push_decimal(out, i as u64);
            push_str(out, "=");
            push_int(out, d);
            push_str(out, "\n");
        },
        None => {
            push_str(out, "Length");
            push_decimal(out, i as u64);
            push_str(out, "=-1\n");
        },
    }
    assert(final(out)@ =~= old(out)@ + pls_length_part(i as nat, t@));
}

fn push_pls_entry(out: &mut Vec<char>, i: usize, t: &ExportTrack, relative: bool, base: &Option<Vec<Vec<char>>>)
    ensures
        final(out)@ == old(out)@ + pls_entry(i as nat, t@, relative, comp_views(*base)),
{
    push_str(out, "File");
    push_decimal(out, i as u64);
    push_str(out, "=");
    let p = chars_of(t.path.as_str());
    let fp = export_path_chars(p.as_slice(), relative, base);
    push_chars(out, fp.as_slice());
    push_str(out, "\n");
    push_pls_title(out, i, t);
    push_pls_length(out, i, t);
    push_str(out, "\n");
    assert(final(out)@ =~= old(out)@ + pls_entry(i as nat, t@, relative, comp_views(*base)));
}

fn push_tag(out: &mut Vec<char>, open: &str, text: &Option<String>, close: &str)
    ensures
        final(out)@ == old(out)@ + opt_tag(open@, opt_view(*text), close@),
{
    match text {
        Some(x) => {
            push_str(out, open);
            let e = escape_xml_chars(chars_of(x.as_str()).as_slice());
            push_chars(out, e.as_slice());
            push_str(out, close);
        },
        None => {},
    }
    assert(final(out)@ =~= old(out)@ + opt_tag(open@, opt_view(*text), close@));
}

fn push_xspf_duration(out: &mut Vec<char>, t: &ExportTrack)
    requires
        t.duration_sec matches Some(d) ==> i64::MIN <= d * 1000 <= i64::MAX,
    ensures
        final(out)@ == old(out)@ + xspf_duration_part(t@),
{
    match t.duration_sec {
        Some(d) => {
            push_str(out, "      <duration>");
            push_int(out, d * 1000);
            push_str(out, "</duration>\n");
        },
        None => {},
    }
    assert(final(out)@ =~= old(out)@ + xspf_duration_part(t@));
}

fn push_xspf_entry(out: &mut Vec<char>, t: &ExportTrack, relative: bool, base: &Option<Vec<Vec<char>>>)
    requires
        t.duration_sec matches Some(d) ==> i64::MIN <= d * 1000 <= i64::MAX,
    ensures
        final(out)@ == old(out)@ + xspf_entry(t@, relative, comp_views(*base)),
{
    push_str(out, "    <track>\n");
    push_str(out, "      <location>");
    let p = chars_of(t.path.as_str());
    let fp = export_path_chars(p.as_slice(), relative, base);
    let e = escape_xml_chars(fp.as_slice());
    push_chars(out, e.as_slice());
    push_str(out, "</location>\n");
    push_tag(out, "      <title>", &t.title, "</title>\n");
    push_tag(out, "      <creator>", &t.artist, "</creator>\n");
    push_tag(out, "      <album>", &t.album, "</album>\n");
    push_xspf_duration(out, t);
    push_str(out, "    </track>\n");
    assert(final(out)@ =~= old(out)@ + xspf_entry(t@, relative, comp_views(*base)));
}

/// Writes a playlist in `format`, track paths relative to the directory of
/// `export_path` when `relative` asks for it (and the two can be related).
/// It never fails.
pub fn export_playlist(
    playlist_name: &str,
    tracks: &[ExportTrack],
    format: PlaylistFormat,
    export_path: &str,
    relative: bool,
) -> (r: Result<String, String>)
    requires
        format == PlaylistFormat::Xspf ==> forall|i: int|
            0 <= i < tracks@.len() ==> ((#[trigger] tracks@[i]).duration_sec matches Some(d) ==> i64::MIN
                <= d * 1000 <= i64::MAX),
    ensures
        r matches Ok(s) && s@ == export_text(
            playlist_name@,
            export_views(tracks@),
            format,
            export_path@,
            relative,
        ),
{
    let ep = components_of(chars_of(export_path).as_slice());
    let base: Option<Vec<Vec<char>>> = if ep.len() == 0 || is_root_only_last(&ep) {
        None
    } else {
        let mut b: Vec<Vec<char>> = Vec::new();
        let mut k: usize = 0;
        let last = ep.len() - 1;
        while k < last
            invariant
                k <= last,
                last + 1 == ep@.len(),
                crate::text::views(b@) == crate::text::views(ep@).take(k as int),
            decreases last - k,
        {
            let ghost b0 = crate::text::views(b@);
            b.push(copy_range(ep[k].as_slice(), 0, ep[k].len()));
            assert(ep@[k as int]@.subrange(0, ep@[k as int]@.len() as int) =~= ep@[k as int]@);
            assert(crate::text::views(b@) =~= b0.push(ep@[k as int]@));
            assert(crate::text::views(b@) =~= crate::text::views(ep@).take(k + 1));
            k += 1;
        }
        Some(b)
    };
    let ghost bv = comp_views(base);
    assert(bv == parent_comps(export_path@)) by {
        let c = crate::text::views(ep@);
        if c.len() > 0 && c.last() != seq!['/'] {
            assert(c.take(c.len() - 1) =~= c.drop_last());
        }
    }
    let ghost tv = export_views(tracks@);
    let mut out: Vec<char> = Vec::new();
    match format {
        PlaylistFormat::Pls => {
            push_str(&mut out, "[playlist]\n");
            push_str(&mut out, "NumberOfEntries=");
            push_decimal(&mut out, tracks.len() as u64);
            push_str(&mut out, "\n\n");
        },
        PlaylistFormat::Xspf => {
            push_str(&mut out, "<?xml version=\"1.0\" encoding=\"UTF-8\"?>\n");
            push_str(&mut out, "<playlist version=\"1\" xmlns=\"http://xspf.org/ns/0/\">\n");
            push_str(&mut out, "  <title>");
            let e = escape_xml_chars(chars_of(playlist_name).as_slice());
            push_chars(&mut out, e.as_slice());
            push_str(&mut out, "</title>\n");
            push_str(&mut out, "  <trackList>\n");
        },
        _ => {
            push_str(&mut out, "#EXTM3U\n");
        },
    }
    let ghost head = out@;
    let mut i: usize = 0;
    assert(tv.take(0) =~= Seq::<TrackView>::empty());
    assert(out@ =~= head + entries_text(tv.take(0), format, relative, bv));
    while i < tracks.len()
        invariant
            i <= tracks@.len(),
            tv == export_views(tracks@),
            bv == comp_views(base),
            format == PlaylistFormat::Xspf ==> forall|j: int|
                0 <= j < tracks@.len() ==> ((#[trigger] tracks@[j]).duration_sec matches Some(d) ==> i64::MIN
                    <= d * 1000 <= i64::MAX),
            out@ == head + entries_text(tv.take(i as int), format, relative, bv),
        decreases tracks@.len() - i,
    {
        assert(tv.take(i + 1).drop_last() =~= tv.take(i as int));
        assert(tv.take(i + 1).last() == tracks@[i as int]@);
        let ghost before = out@;
        match format {
            PlaylistFormat::Pls => push_pls_entry(&mut out, i + 1, &tracks[i], relative, &base),
            PlaylistFormat::Xspf => push_xspf_entry(&mut out, &tracks[i], relative, &base),
            _ => push_m3u_entry(&mut out, &tracks[i], relative, &base),
        }
        assert(out@ =~= head + entries_text(tv.take(i + 1), format, relative, bv));
        i += 1;
    }
    assert(tv.take(i as int) =~= tv);
    match format {
        PlaylistFormat::Xspf => {
            push_str(&mut out, "  </trackList>\n");
            push_str(&mut out, "</playlist>\n");
        },
        _ => {},
    }
    let s = string_of(out.as_slice());
    assert(s@ =~= export_text(playlist_name@, tv, format, export_path@, relative));
    Ok(s)
}

/// The last component is the root.
fn is_root_only_last(cs: &Vec<Vec<char>>) -> (r: bool)
    requires
        cs@.len() > 0,
    ensures
        r == (crate::text::views(cs@).last() == seq!['/']),
{
    let last = &cs[cs.len() - 1];
    let b = last.len() == 1 && last[0] == '/';
    proof {
        assert(crate::text::views(cs@).last() == last@);
        if b {
            assert(last@ =~= seq!['/']);
        } else if last@ == seq!['/'] {
            assert(last@.len() == 1);
        }
    }
    b
}


// ---------------------------------------------------------------------------
// Reading an M3U export back
// ---------------------------------------------------------------------------

/// Text fit for one line: not empty, not starting or ending with
/// whitespace, no newline in it.
pub open spec fn one_line(s: Seq<char>) -> bool {
    &&& s.len() > 0
    &&& !crate::text::is_ws(s[0])
    &&& !crate::text::is_ws(s.last())
    &&& forall|k: int| 0 <= k < s.len() ==> #[trigger] s[k] != '\n'
}

/// An artist that the ` - ` of an `#EXTINF` name cannot cut early: no
/// ` - ` in it and no ` -` at its end.
pub open spec fn no_name_split(a: Seq<char>) -> bool {
    forall|k: int|
        0 <= k && k + 1 < a.len() && #[trigger] a[k] == ' ' && a[k + 1] == '-' ==> k + 2 < a.len() && a[k + 2]
            != ' '
}

/// A track that an M3U export writes in full: a one-line path not starting
/// with `#`, and a one-line artist and title.
pub open spec fn m3u_writable(t: TrackView) -> bool {
    &&& one_line(t.path)
    &&& t.path[0] != '#'
    &&& t.artist matches Some(a) && one_line(a) && no_name_split(a)
    &&& t.title matches Some(ti) && one_line(ti)
}

/// What reading the export gives back of a track: its path, artist and
/// title, no album, and its duration when above zero.
pub open spec fn m3u_read_back(t: TrackView) -> TrackView {
    TrackView {
        path: t.path,
        title: t.title,
        artist: t.artist,
        album: None,
        duration: match t.duration {
            Some(d) => if d > 0 {
                Some(d)
            } else {
                None
            },
            None => None,
        },
    }
}

/// Lines joined by newlines (no newline after the last).
pub open spec fn line_join(ls: Seq<Seq<char>>) -> Seq<char>
    decreases ls.len(),
{
    if ls.len() == 0 {
        Seq::empty()
    } else if ls.len() == 1 {
        ls[0]
    } else {
        line_join(ls.drop_last()) + seq!['\n'] + ls.last()
    }
}

pub open spec fn m3u_duration_of(t: TrackView) -> int {
    match t.duration {
        Some(d) => d as int,
        None => -1,
    }
}

pub open spec fn extinf_line(t: TrackView) -> Seq<char> {
    "#EXTINF:"@ + int_text(m3u_duration_of(t)) + ","@ + m3u_display(t)
}

/// The lines of an M3U export (paths as given).
pub open spec fn m3u_lines(ts: Seq<TrackView>) -> Seq<Seq<char>>
    decreases ts.len(),
{
    if ts.len() == 0 {
        seq!["#EXTM3U"@]
    } else {
        m3u_lines(ts.drop_last()) + seq![extinf_line(ts.last()), ts.last().path]
    }
}

proof fn lemma_m3u_text(ts: Seq<TrackView>, format: PlaylistFormat, base: Option<Seq<Seq<char>>>)
    requires
        format == PlaylistFormat::M3u || format == PlaylistFormat::M3u8,
    ensures
        m3u_lines(ts).len() > 0,
        "#EXTM3U\n"@ + entries_text(ts, format, false, base) == line_join(m3u_lines(ts)) + "\n"@,
    decreases ts.len(),
{
    reveal_strlit("#EXTM3U\n");
    reveal_strlit("#EXTM3U");
    reveal_strlit("\n");
    if ts.len() == 0 {
        assert(entries_text(ts, format, false, base) == Seq::<char>::empty());
        assert("#EXTM3U\n"@ + Seq::<char>::empty() =~= "#EXTM3U"@ + "\n"@);
    } else {
        let init = ts.drop_last();
        let t = ts.last();
        lemma_m3u_text(init, format, base);
        let ls = m3u_lines(init);
        let e = extinf_line(t);
        let both = ls + seq![e, t.path];
        assert(both.drop_last() =~= ls.push(e));
        assert(ls.push(e).drop_last() =~= ls);
        assert(line_join(ls.push(e)) == line_join(ls) + seq!['\n'] + e);
        assert(line_join(both) == line_join(ls.push(e)) + seq!['\n'] + t.path);
        assert(m3u_entry(t, false, base) =~= e + "\n"@ + t.path + "\n"@);
        assert(entries_text(ts, format, false, base) == entries_text(init, format, false, base) + m3u_entry(
            t,
            false,
            base,
        ));
        let x = "#EXTM3U\n"@ + entries_text(init, format, false, base);
        assert("#EXTM3U\n"@ + entries_text(ts, format, false, base) =~= x + m3u_entry(t, false, base));
        assert("\n"@ =~= seq!['\n']);
        assert(line_join(both) + "\n"@ =~= line_join(ls) + "\n"@ + e + "\n"@ + t.path + "\n"@);
        assert("#EXTM3U\n"@ + entries_text(ts, format, false, base) =~= line_join(both) + "\n"@);
    }
}

proof fn lemma_split_lines(ls: Seq<Seq<char>>)
    requires
        ls.len() > 0,
        forall|i: int, k: int| 0 <= i < ls.len() && 0 <= k < ls[i].len() ==> #[trigger] ls[i][k] != '\n',
    ensures
        crate::text::split_char(line_join(ls), '\n') == ls,
    decreases ls.len(),
{
    let last = ls.last();
    assert forall|k: int| 0 <= k < last.len() implies #[trigger] last[k] != '\n' by {
        assert(ls[ls.len() - 1][k] != '\n');
    }
    crate::text::lemma_split_last(last, '\n');
    if ls.len() > 1 {
        let init = ls.drop_last();
        assert forall|i: int, k: int| 0 <= i < init.len() && 0 <= k < init[i].len() implies #[trigger] init[i][k]
            != '\n' by {
            assert(init[i] == ls[i]);
        }
        lemma_split_lines(init);
        crate::text::lemma_split_concat(line_join(init), last, '\n');
        assert(init + seq![last] =~= ls);
    } else {
        assert(seq![ls[0]] =~= ls);
    }
}

proof fn lemma_lines_of_join(ls: Seq<Seq<char>>)
    requires
        ls.len() > 0,
        forall|i: int| 0 <= i < ls.len() ==> one_line(#[trigger] ls[i]),
    ensures
        crate::text::lines(line_join(ls) + "\n"@) == ls,
{
    reveal_strlit("\n");
    assert forall|i: int, k: int| 0 <= i < ls.len() && 0 <= k < ls[i].len() implies #[trigger] ls[i][k] != '\n' by {
        assert(one_line(ls[i]));
    }
    lemma_split_lines(ls);
    let text = line_join(ls) + "\n"@;
    assert(text =~= line_join(ls) + seq!['\n'] + Seq::<char>::empty());
    crate::text::lemma_split_concat(line_join(ls), Seq::<char>::empty(), '\n');
    crate::text::lemma_split_last(Seq::<char>::empty(), '\n');
    let parts = crate::text::split_char(text, '\n');
    assert(parts =~= ls + seq![Seq::<char>::empty()]);
    assert(parts.drop_last() =~= ls);
    assert forall|i: int| 0 <= i < ls.len() implies crate::text::strip_cr(#[trigger] ls[i]) == ls[i] by {
        assert(one_line(ls[i]));
        assert(ls[i].last() != '\r');
    }
    assert(crate::text::lines(text) =~= ls);
}

proof fn lemma_duration_reads_back(t: TrackView)
    ensures
        positive_rounded(trim(int_text(m3u_duration_of(t)))) == m3u_read_back(t).duration,
{
    let d = m3u_duration_of(t);
    let s = int_text(d);
    if d < 0 {
        crate::scrobbler::lemma_decimal_parses((-d) as nat);
        assert(s == seq!['-'] + decimal((-d) as nat));
        assert(!crate::text::is_ws(s[0]));
        assert(is_digit(s.last()));
        crate::text::lemma_trim_ends(s);
    } else {
        crate::scrobbler::lemma_decimal_parses(d as nat);
        assert(is_digit(s[0]) && is_digit(s.last()));
        crate::text::lemma_trim_ends(s);
        crate::text::lemma_index_of(s, '.', s.len() as int);
        assert(decimal_parts(s) == Some((s, Seq::<char>::empty())));
    }
}

proof fn lemma_name_reads_back(a: Seq<char>, ti: Seq<char>)
    requires
        one_line(a),
        no_name_split(a),
        one_line(ti),
    ensures
        trim(a + " - "@ + ti) == a + " - "@ + ti,
        crate::text::split_once_seq(a + " - "@ + ti, " - "@) == Some((a, ti)),
{
    reveal_strlit(" - ");
    let s = a + " - "@ + ti;
    assert(s[0] == a[0]);
    assert(s.last() == ti.last());
    crate::text::lemma_trim_ends(s);
    let p = " - "@;
    assert forall|k: int| 0 <= k < a.len() implies !has_prefix(#[trigger] s.subrange(k, s.len() as int), p) by {
        let x = s.subrange(k, s.len() as int);
        if has_prefix(x, p) {
            assert(p.len() == 3 && p[0] == ' ' && p[1] == '-' && p[2] == ' ');
            assert(x.subrange(0, 3) == p);
            assert(x.subrange(0, 3)[0] == x[0] && x.subrange(0, 3)[1] == x[1] && x.subrange(0, 3)[2] == x[2]);
            assert(s[k] == ' ' && s[k + 1] == '-' && s[k + 2] == ' ');
            assert(a[k] == ' ');
            if k + 1 == a.len() {
                assert(a.last() == ' ');
                assert(crate::text::is_ws(' '));
            } else {
                assert(a[k + 1] == '-');
                if k + 2 < a.len() {
                    assert(a[k + 2] == ' ');
                }
            }
        }
    }
    assert(s.subrange(a.len() as int, s.len() as int).subrange(0, 3) =~= p);
    crate::text::lemma_find_seq(s, p, a.len() as int);
    assert(s.take(a.len() as int) =~= a);
    assert(s.skip(a.len() as int + 3) =~= ti);
}

proof fn lemma_extinf_step(st0: M3uScan, t: TrackView)
    requires
        m3u_writable(t),
    ensures
        m3u_step(st0, extinf_line(t)).tracks == st0.tracks,
        m3u_step(st0, extinf_line(t)).title == t.title,
        m3u_step(st0, extinf_line(t)).artist == t.artist,
        m3u_step(st0, extinf_line(t)).duration == (match m3u_read_back(t).duration {
            Some(v) => Some(v),
            None => st0.duration,
        }),
{
    reveal_strlit("#EXTINF:");
    reveal_strlit(",");
    let e = extinf_line(t);
    let a = t.artist.unwrap();
    let ti = t.title.unwrap();
    lemma_name_reads_back(a, ti);
    lemma_duration_reads_back(t);
    let d = m3u_duration_of(t);
    let num = int_text(d);
    assert(m3u_display(t) == a + " - "@ + ti);
    assert(e[0] == '#');
    assert(e.last() == ti.last());
    crate::text::lemma_trim_ends(e);
    assert(e.subrange(0, 8) =~= "#EXTINF:"@);
    let rest = e.skip(8);
    assert(rest =~= num + seq![','] + m3u_display(t));
    if d < 0 {
        crate::scrobbler::lemma_decimal_parses((-d) as nat);
    } else {
        crate::scrobbler::lemma_decimal_parses(d as nat);
    }
    assert forall|k: int| 0 <= k < num.len() implies #[trigger] rest[k] != ',' by {
        assert(rest[k] == num[k]);
        if d < 0 && k > 0 {
            assert(num[k] == decimal((-d) as nat)[k - 1]);
            assert(is_digit(decimal((-d) as nat)[k - 1]));
        } else if d >= 0 {
            assert(is_digit(num[k]));
        }
    }
    crate::text::lemma_index_of(rest, ',', num.len() as int);
    assert(rest.take(num.len() as int) =~= num);
    assert(rest.skip(num.len() as int + 1) =~= m3u_display(t));
}

proof fn lemma_m3u_scan(ts: Seq<TrackView>)
    requires
        forall|i: int| 0 <= i < ts.len() ==> m3u_writable(#[trigger] ts[i]),
    ensures
        m3u_scan(m3u_lines(ts)) == (M3uScan {
            tracks: ts.map_values(|t: TrackView| m3u_read_back(t)),
            title: None,
            artist: None,
            duration: None,
        }),
    decreases ts.len(),
{
    reveal_strlit("#EXTM3U");
    reveal_strlit("#EXTINF:");
    reveal_strlit(",");
    if ts.len() == 0 {
        let h = "#EXTM3U"@;
        assert(seq![h].drop_last() =~= Seq::<Seq<char>>::empty());
        crate::text::lemma_trim_ends(h);
        assert(!has_prefix(h, "#EXTINF:"@));
        assert(h[0] == '#' && h.len() > 0);
        assert(m3u_lines(ts) == seq![h]);
        assert(seq![h].last() == h);
        let e0 = M3uScan { tracks: Seq::empty(), title: None, artist: None, duration: None };
        assert(m3u_scan(Seq::<Seq<char>>::empty()) == e0);
        assert(m3u_scan(seq![h]) == m3u_step(m3u_scan(seq![h].drop_last()), h));
        assert(m3u_step(e0, h) == e0);
        assert(ts.map_values(|t: TrackView| m3u_read_back(t)) =~= Seq::<TrackView>::empty());
    } else {
        let init = ts.drop_last();
        let t = ts.last();
        assert forall|i: int| 0 <= i < init.len() implies m3u_writable(#[trigger] init[i]) by {
            assert(init[i] == ts[i]);
        }
        lemma_m3u_scan(init);
        assert(m3u_writable(ts[ts.len() - 1]));
        let ls = m3u_lines(init);
        let e = extinf_line(t);
        let both = ls + seq![e, t.path];
        assert(both.drop_last() =~= ls.push(e));
        assert(ls.push(e).drop_last() =~= ls);
        let st0 = m3u_scan(ls);
        lemma_extinf_step(st0, t);
        let st1 = m3u_step(st0, e);
        crate::text::lemma_trim_ends(t.path);
        assert(!has_prefix(t.path, "#EXTINF:"@));
        let st2 = m3u_step(st1, t.path);
        assert(st2.tracks == st0.tracks.push(m3u_read_back(t)));
        assert(ts.map_values(|x: TrackView| m3u_read_back(x)) =~= init.map_values(|x: TrackView| m3u_read_back(x)).push(
            m3u_read_back(t),
        ));
        assert(both.last() == t.path);
        assert(m3u_scan(ls.push(e)) == m3u_step(m3u_scan(ls), e));
        assert(m3u_scan(both) == m3u_step(m3u_scan(ls.push(e)), t.path));
        assert(m3u_lines(ts) == both);
        assert(st2.title is None && st2.artist is None && st2.duration is None);
        assert(m3u_scan(both) == st2);
    }
}

/// Reading an M3U export back gives each track's path, artist and title,
/// and its duration when above zero, for tracks whose path, artist and
/// title each fit on one line (an artist that ` - ` cannot cut early, a
/// path not starting with `#`), paths written as given.
pub proof fn m3u_export_reads_back(name: Seq<char>, ts: Seq<TrackView>, format: PlaylistFormat, export_path: Seq<char>)
    requires
        format == PlaylistFormat::M3u || format == PlaylistFormat::M3u8,
        forall|i: int| 0 <= i < ts.len() ==> m3u_writable(#[trigger] ts[i]),
    ensures
        m3u_scan(crate::text::lines(export_text(name, ts, format, export_path, false))).tracks == ts.map_values(
            |t: TrackView| m3u_read_back(t),
        ),
{
    let base = parent_comps(export_path);
    lemma_m3u_text(ts, format, base);
    let ls = m3u_lines(ts);
    lemma_m3u_lines_one_line(ts);
    lemma_lines_of_join(ls);
    lemma_m3u_scan(ts);
}

proof fn lemma_m3u_lines_one_line(ts: Seq<TrackView>)
    requires
        forall|i: int| 0 <= i < ts.len() ==> m3u_writable(#[trigger] ts[i]),
    ensures
        forall|i: int| 0 <= i < m3u_lines(ts).len() ==> one_line(#[trigger] m3u_lines(ts)[i]),
    decreases ts.len(),
{
    reveal_strlit("#EXTM3U");
    reveal_strlit("#EXTINF:");
    reveal_strlit(",");
    reveal_strlit(" - ");
    if ts.len() == 0 {
        let h = "#EXTM3U"@;
        assert(one_line(h));
    } else {
        let init = ts.drop_last();
        let t = ts.last();
        assert forall|i: int| 0 <= i < init.len() implies m3u_writable(#[trigger] init[i]) by {
            assert(init[i] == ts[i]);
        }
        lemma_m3u_lines_one_line(init);
        assert(m3u_writable(ts[ts.len() - 1]));
        let a = t.artist.unwrap();
        let ti = t.title.unwrap();
        let e = extinf_line(t);
        let d = m3u_duration_of(t);
        let num = int_text(d);
        if d < 0 {
            crate::scrobbler::lemma_decimal_parses((-d) as nat);
        } else {
            crate::scrobbler::lemma_decimal_parses(d as nat);
        }
        assert(m3u_display(t) == a + " - "@ + ti);
        assert(e =~= "#EXTINF:"@ + num + ","@ + a + " - "@ + ti);
        assert forall|k: int| 0 <= k < e.len() implies #[trigger] e[k] != '\n' by {
            let n1 = 8 + num.len();
            let n2 = n1 + 1 + a.len();
            if 8 <= k < n1 {
                assert(e[k] == num[k - 8]);
                if d < 0 && k > 8 {
                    assert(num[k - 8] == decimal((-d) as nat)[k - 9]);
                    assert(is_digit(decimal((-d) as nat)[k - 9]));
                } else if d >= 0 {
                    assert(is_digit(num[k - 8]));
                }
            } else if n1 + 1 <= k < n2 {
                assert(e[k] == a[k - n1 - 1]);
            } else if n2 + 3 <= k {
                assert(e[k] == ti[k - n2 - 3]);
            }
        }
        assert(one_line(e));
        let ls = m3u_lines(init);
        let both = ls + seq![e, t.path];
        assert forall|i: int| 0 <= i < both.len() implies one_line(#[trigger] both[i]) by {
            if i < ls.len() {
                assert(both[i] == ls[i]);
            }
        }
    }
}

} // verus!

verus! {

// ---------------------------------------------------------------------------
// What a reader finds in a written XSPF track block
// ---------------------------------------------------------------------------

/// `a` holds no `c`.
spec fn lacks(a: Seq<char>, c: char) -> bool {
    forall|k: int| 0 <= k < a.len() ==> #[trigger] a[k] != c
}

/// No occurrence of `p` (at least three characters long) can start inside
/// `a`, whatever follows `a`: from each position, one of the first three
/// characters of `p` differs within `a`.
spec fn blocks(a: Seq<char>, p: Seq<char>) -> bool {
    forall|k: int|
        0 <= k < a.len() ==> #[trigger] a[k] != p[0] || (k + 1 < a.len() && a[k + 1] != p[1]) || (k + 2
            < a.len() && a[k + 2] != p[2])
}

proof fn lemma_lacks_blocks(a: Seq<char>, p: Seq<char>)
    requires
        lacks(a, p[0]),
    ensures
        blocks(a, p),
{
}

proof fn lemma_blocks_concat(a: Seq<char>, b: Seq<char>, p: Seq<char>)
    requires
        blocks(a, p),
        blocks(b, p),
    ensures
        blocks(a + b, p),
{
    let s = a + b;
    assert forall|k: int| 0 <= k < s.len() implies #[trigger] s[k] != p[0] || (k + 1 < s.len() && s[k + 1]
        != p[1]) || (k + 2 < s.len() && s[k + 2] != p[2]) by {
        if k < a.len() {
            assert(s[k] == a[k]);
        } else {
            assert(s[k] == b[k - a.len()]);
        }
    }
}

/// Text that `p` cannot start in shifts every later find by its length.
proof fn lemma_find_after_blocked(a: Seq<char>, b: Seq<char>, p: Seq<char>)
    requires
        blocks(a, p),
        p.len() >= 3,
    ensures
        find_seq(a + b, p) == (match find_seq(b, p) {
            Some(i) => Some(i + a.len()),
            None => None::<nat>,
        }),
    decreases a.len(),
{
    let s = a + b;
    if a.len() == 0 {
        assert(s =~= b);
    } else {
        assert(a[0] != p[0] || (1 < a.len() && a[1] != p[1]) || (2 < a.len() && a[2] != p[2]));
        if has_prefix(s, p) {
            assert(s.subrange(0, p.len() as int)[0] == p[0]);
            assert(s.subrange(0, p.len() as int)[1] == p[1]);
            assert(s.subrange(0, p.len() as int)[2] == p[2]);
            assert(false);
        }
        let a1 = a.drop_first();
        assert forall|k: int| 0 <= k < a1.len() implies #[trigger] a1[k] != p[0] || (k + 1 < a1.len() && a1[k
            + 1] != p[1]) || (k + 2 < a1.len() && a1[k + 2] != p[2]) by {
            assert(a[k + 1] != p[0] || (k + 2 < a.len() && a[k + 2] != p[1]) || (k + 3 < a.len() && a[k + 3]
                != p[2]));
        }
        assert(s.drop_first() =~= a1 + b);
        lemma_find_after_blocked(a1, b, p);
    }
}

proof fn lemma_replace_keeps_lacks(s: Seq<char>, p: Seq<char>, r: Seq<char>, c: char)
    requires
        lacks(s, c),
        lacks(r, c),
    ensures
        lacks(replace_all(s, p, r), c),
    decreases s.len(),
{
    if p.len() == 0 || s.len() == 0 {
    } else if has_prefix(s, p) {
        lemma_replace_keeps_lacks(s.skip(p.len() as int), p, r, c);
        let x = replace_all(s.skip(p.len() as int), p, r);
        assert forall|k: int| 0 <= k < (r + x).len() implies #[trigger] (r + x)[k] != c by {
            if k >= r.len() {
                assert((r + x)[k] == x[k - r.len()]);
            }
        }
    } else {
        lemma_replace_keeps_lacks(s.drop_first(), p, r, c);
        let x = replace_all(s.drop_first(), p, r);
        assert forall|k: int| 0 <= k < (seq![s[0]] + x).len() implies #[trigger] (seq![s[0]] + x)[k] != c by {
            if k >= 1 {
                assert((seq![s[0]] + x)[k] == x[k - 1]);
            }
        }
    }
}

proof fn lemma_replace_removes(s: Seq<char>, c: char, r: Seq<char>)
    requires
        lacks(r, c),
    ensures
        lacks(replace_all(s, seq![c], r), c),
    decreases s.len(),
{
    let p = seq![c];
    if s.len() == 0 {
    } else if has_prefix(s, p) {
        lemma_replace_removes(s.skip(1), c, r);
        let x = replace_all(s.skip(1), p, r);
        assert forall|k: int| 0 <= k < (r + x).len() implies #[trigger] (r + x)[k] != c by {
            if k >= r.len() {
                assert((r + x)[k] == x[k - r.len()]);
            }
        }
    } else {
        assert(s[0] != c) by {
            if s[0] == c {
                assert(s.subrange(0, 1) =~= p);
            }
        }
        lemma_replace_removes(s.drop_first(), c, r);
        let x = replace_all(s.drop_first(), p, r);
        assert forall|k: int| 0 <= k < (seq![s[0]] + x).len() implies #[trigger] (seq![s[0]] + x)[k] != c by {
            if k >= 1 {
                assert((seq![s[0]] + x)[k] == x[k - 1]);
            }
        }
    }
}

/// Escaped text holds no `<`.
proof fn lemma_escaped_lacks_lt(s: Seq<char>)
    ensures
        lacks(escaped(s), '<'),
{
    reveal_strlit("&");
    reveal_strlit("<");
    reveal_strlit(">");
    reveal_strlit("\"");
    reveal_strlit("'");
    reveal_strlit("&amp;");
    reveal_strlit("&lt;");
    reveal_strlit("&gt;");
    reveal_strlit("&quot;");
    reveal_strlit("&apos;");
    let a = replace_all(s, "&"@, "&amp;"@);
    assert("<"@ =~= seq!['<']);
    lemma_replace_removes(a, '<', "&lt;"@);
    let b = replace_all(a, "<"@, "&lt;"@);
    lemma_replace_keeps_lacks(b, ">"@, "&gt;"@, '<');
    let c = replace_all(b, ">"@, "&gt;"@);
    lemma_replace_keeps_lacks(c, "\""@, "&quot;"@, '<');
    let d = replace_all(c, "\""@, "&quot;"@);
    lemma_replace_keeps_lacks(d, "'"@, "&apos;"@, '<');
}

proof fn lemma_decimal_lacks_lt(v: nat)
    ensures
        lacks(decimal(v), '<'),
    decreases v,
{
    if v >= 10 {
        lemma_decimal_lacks_lt(v / 10);
    }
}

proof fn lemma_int_text_lacks_lt(v: int)
    ensures
        lacks(int_text(v), '<'),
{
    if v < 0 {
        lemma_decimal_lacks_lt((-v) as nat);
        let d = decimal((-v) as nat);
        assert forall|k: int| 0 <= k < (seq!['-'] + d).len() implies #[trigger] (seq!['-'] + d)[k] != '<' by {
            if k >= 1 {
                assert((seq!['-'] + d)[k] == d[k - 1]);
            }
        }
    } else {
        lemma_decimal_lacks_lt(v as nat);
    }
}


spec fn open_of(tag: Seq<char>) -> Seq<char> {
    seq!['<'] + tag + seq!['>']
}

spec fn close_of(tag: Seq<char>) -> Seq<char> {
    seq!['<', '/'] + tag + seq!['>']
}

/// `<tag>`, text without `<`, `</tag>`: a reader finds that text when
/// nothing before it can start `<tag>`.
proof fn lemma_xml_tag_at(pre: Seq<char>, tag: Seq<char>, body: Seq<char>, post: Seq<char>)
    requires
        tag.len() >= 1,
        blocks(pre, open_of(tag)),
        lacks(body, '<'),
    ensures
        xml_tag(pre + open_of(tag) + body + close_of(tag) + post, tag) == Some(trim(body)),
{
    let open = open_of(tag);
    let close = close_of(tag);
    let xml = pre + open + body + close + post;
    let rest = open + body + close + post;
    assert(xml =~= pre + rest);
    assert(rest.subrange(0, open.len() as int) =~= open);
    assert(find_seq(rest, open) == Some(0nat));
    lemma_find_after_blocked(pre, rest, open);
    let cs = pre.len() + open.len();
    let tail = close + post;
    assert(xml.skip(cs as int) =~= body + tail);
    assert(tail.subrange(0, close.len() as int) =~= close);
    assert(find_seq(tail, close) == Some(0nat));
    assert(close[0] == '<');
    lemma_lacks_blocks(body, close);
    lemma_find_after_blocked(body, tail, close);
    assert(xml.subrange(cs as int, (cs + body.len()) as int) =~= body);
}

proof fn lemma_xml_tag_absent(xml: Seq<char>, tag: Seq<char>)
    requires
        tag.len() >= 1,
        blocks(xml, open_of(tag)),
    ensures
        xml_tag(xml, tag) is None,
{
    let e = Seq::<char>::empty();
    assert(xml + e =~= xml);
    assert(!has_prefix(e, open_of(tag)));
    assert(find_seq(e, open_of(tag)) is None);
    lemma_find_after_blocked(xml, e, open_of(tag));
}

/// What a reader of `<tag>..</tag>` finds for an optional field written
/// with `opt_tag`: the trimmed escaped text, or nothing.
pub open spec fn element_text(x: Option<Seq<char>>) -> Option<Seq<char>> {
    match x {
        Some(v) => Some(trim(escaped(v))),
        None => None,
    }
}

proof fn lemma_opt_element(pre: Seq<char>, tag: Seq<char>, x: Option<Seq<char>>, post: Seq<char>)
    requires
        tag.len() >= 1,
        blocks(pre, open_of(tag)),
        blocks(post, open_of(tag)),
    ensures
        xml_tag(pre + opt_tag("      "@ + open_of(tag), x, close_of(tag) + "\n"@) + post, tag)
            == element_text(x),
{
    reveal_strlit("      ");
    reveal_strlit("\n");
    let p = open_of(tag);
    assert(p[0] == '<');
    lemma_lacks_blocks("      "@, p);
    lemma_lacks_blocks("\n"@, p);
    let xml = pre + opt_tag("      "@ + open_of(tag), x, close_of(tag) + "\n"@) + post;
    match x {
        Some(v) => {
            lemma_escaped_lacks_lt(v);
            lemma_blocks_concat(pre, "      "@, p);
            assert(xml =~= (pre + "      "@) + open_of(tag) + escaped(v) + close_of(tag) + ("\n"@ + post));
            lemma_xml_tag_at(pre + "      "@, tag, escaped(v), "\n"@ + post);
        },
        None => {
            assert(xml =~= pre + post);
            lemma_blocks_concat(pre, post, p);
            lemma_xml_tag_absent(pre + post, tag);
        },
    }
}

proof fn lemma_opt_tag_blocks(open: Seq<char>, x: Option<Seq<char>>, close: Seq<char>, p: Seq<char>)
    requires
        p[0] == '<',
        blocks(open, p),
        blocks(close, p),
    ensures
        blocks(opt_tag(open, x, close), p),
{
    if let Some(v) = x {
        lemma_escaped_lacks_lt(v);
        lemma_lacks_blocks(escaped(v), p);
        lemma_blocks_concat(open, escaped(v), p);
        lemma_blocks_concat(open + escaped(v), close, p);
    } else {
        assert(opt_tag(open, x, close) =~= Seq::<char>::empty());
    }
}

proof fn lemma_duration_blocks(t: TrackView, p: Seq<char>)
    requires
        p[0] == '<',
        blocks("      <duration>"@, p),
        blocks("</duration>\n"@, p),
    ensures
        blocks(xspf_duration_part(t), p),
{
    if let Some(d) = t.duration {
        lemma_int_text_lacks_lt(d * 1000);
        lemma_lacks_blocks(int_text(d * 1000), p);
        lemma_blocks_concat("      <duration>"@, int_text(d * 1000), p);
        lemma_blocks_concat("      <duration>"@ + int_text(d * 1000), "</duration>\n"@, p);
    } else {
        assert(xspf_duration_part(t) =~= Seq::<char>::empty());
    }
}



/// The head of a track block, up to and including its location element.
spec fn xspf_head(t: TrackView, relative: bool, base: Option<Seq<Seq<char>>>) -> Seq<char> {
    "    <track>\n"@ + "      <location>"@ + escaped(export_path_text(t.path, relative, base))
        + "</location>\n"@
}

proof fn lemma_xspf_head_blocks(t: TrackView, relative: bool, base: Option<Seq<Seq<char>>>, p: Seq<char>)
    requires
        p[0] == '<',
        blocks("    <track>\n"@, p),
        blocks("      <location>"@, p),
        blocks("</location>\n"@, p),
    ensures
        blocks(xspf_head(t, relative, base), p),
{
    let l = escaped(export_path_text(t.path, relative, base));
    lemma_escaped_lacks_lt(export_path_text(t.path, relative, base));
    lemma_lacks_blocks(l, p);
    lemma_blocks_concat("    <track>\n"@, "      <location>"@, p);
    lemma_blocks_concat("    <track>\n"@ + "      <location>"@, l, p);
    lemma_blocks_concat("    <track>\n"@ + "      <location>"@ + l, "</location>\n"@, p);
}

proof fn lemma_xspf_title(t: TrackView, relative: bool, base: Option<Seq<Seq<char>>>)
    ensures
        xml_tag(xspf_entry(t, relative, base), "title"@) == element_text(t.title),
{
    reveal_strlit("title");
    reveal_strlit("creator");
    reveal_strlit("album");
    reveal_strlit("location");
    reveal_strlit("      ");
    reveal_strlit("\n");
    reveal_strlit("    <track>\n");
    reveal_strlit("      <location>");
    reveal_strlit("</location>\n");
    reveal_strlit("      <title>");
    reveal_strlit("</title>\n");
    reveal_strlit("      <creator>");
    reveal_strlit("</creator>\n");
    reveal_strlit("      <album>");
    reveal_strlit("</album>\n");
    reveal_strlit("      <duration>");
    reveal_strlit("</duration>\n");
    reveal_strlit("    </track>\n");
    let p = open_of("title"@);
    assert(p[0] == '<' && p[1] == 't' && p[2] == 'i');
    assert(blocks("    <track>\n"@, p));
    assert(blocks("      <location>"@, p));
    assert(blocks("</location>\n"@, p));
    assert(blocks("      <creator>"@, p));
    assert(blocks("</creator>\n"@, p));
    assert(blocks("      <album>"@, p));
    assert(blocks("</album>\n"@, p));
    assert(blocks("      <duration>"@, p));
    assert(blocks("</duration>\n"@, p));
    assert(blocks("    </track>\n"@, p));
    let head = xspf_head(t, relative, base);
    let cr = opt_tag("      <creator>"@, t.artist, "</creator>\n"@);
    let al = opt_tag("      <album>"@, t.album, "</album>\n"@);
    let du = xspf_duration_part(t);
    let en = "    </track>\n"@;
    lemma_xspf_head_blocks(t, relative, base, p);
    lemma_opt_tag_blocks("      <creator>"@, t.artist, "</creator>\n"@, p);
    lemma_opt_tag_blocks("      <album>"@, t.album, "</album>\n"@, p);
    lemma_duration_blocks(t, p);
    lemma_blocks_concat(cr, al, p);
    lemma_blocks_concat(cr + al, du, p);
    lemma_blocks_concat(cr + al + du, en, p);
    assert("      <title>"@ =~= "      "@ + open_of("title"@));
    assert("</title>\n"@ =~= close_of("title"@) + "\n"@);
    let el = opt_tag("      "@ + open_of("title"@), t.title, close_of("title"@) + "\n"@);
    assert(xspf_entry(t, relative, base) =~= head + el + (cr + al + du + en));
    lemma_opt_element(head, "title"@, t.title, cr + al + du + en);
}


proof fn lemma_xspf_creator(t: TrackView, relative: bool, base: Option<Seq<Seq<char>>>)
    ensures
        xml_tag(xspf_entry(t, relative, base), "creator"@) == element_text(t.artist),
{
    reveal_strlit("title");
    reveal_strlit("creator");
    reveal_strlit("album");
    reveal_strlit("location");
    reveal_strlit("      ");
    reveal_strlit("\n");
    reveal_strlit("    <track>\n");
    reveal_strlit("      <location>");
    reveal_strlit("</location>\n");
    reveal_strlit("      <title>");
    reveal_strlit("</title>\n");
    reveal_strlit("      <creator>");
    reveal_strlit("</creator>\n");
    reveal_strlit("      <album>");
    reveal_strlit("</album>\n");
    reveal_strlit("      <duration>");
    reveal_strlit("</duration>\n");
    reveal_strlit("    </track>\n");
    let p = open_of("creator"@);
    assert(p[0] == '<' && p[1] == 'c' && p[2] == 'r');
    assert(blocks("    <track>\n"@, p));
    assert(blocks("      <location>"@, p));
    assert(blocks("</location>\n"@, p));
    assert(blocks("      <title>"@, p));
    assert(blocks("</title>\n"@, p));
    assert(blocks("      <album>"@, p));
    assert(blocks("</album>\n"@, p));
    assert(blocks("      <duration>"@, p));
    assert(blocks("</duration>\n"@, p));
    assert(blocks("    </track>\n"@, p));
    let head = xspf_head(t, relative, base);
    let ti = opt_tag("      <title>"@, t.title, "</title>\n"@);
    let al = opt_tag("      <album>"@, t.album, "</album>\n"@);
    let du = xspf_duration_part(t);
    let en = "    </track>\n"@;
    lemma_xspf_head_blocks(t, relative, base, p);
    lemma_opt_tag_blocks("      <title>"@, t.title, "</title>\n"@, p);
    lemma_opt_tag_blocks("      <album>"@, t.album, "</album>\n"@, p);
    lemma_duration_blocks(t, p);
    lemma_blocks_concat(head, ti, p);
    lemma_blocks_concat(al, du, p);
    lemma_blocks_concat(al + du, en, p);
    assert("      <creator>"@ =~= "      "@ + open_of("creator"@));
    assert("</creator>\n"@ =~= close_of("creator"@) + "\n"@);
    let el = opt_tag("      "@ + open_of("creator"@), t.artist, close_of("creator"@) + "\n"@);
    assert(xspf_entry(t, relative, base) =~= (head + ti) + el + (al + du + en));
    lemma_opt_element(head + ti, "creator"@, t.artist, al + du + en);
}

proof fn lemma_xspf_album(t: TrackView, relative: bool, base: Option<Seq<Seq<char>>>)
    ensures
        xml_tag(xspf_entry(t, relative, base), "album"@) == element_text(t.album),
{
    reveal_strlit("title");
    reveal_strlit("creator");
    reveal_strlit("album");
    reveal_strlit("location");
    reveal_strlit("      ");
    reveal_strlit("\n");
    reveal_strlit("    <track>\n");
    reveal_strlit("      <location>");
    reveal_strlit("</location>\n");
    reveal_strlit("      <title>");
    reveal_strlit("</title>\n");
    reveal_strlit("      <creator>");
    reveal_strlit("</creator>\n");
    reveal_strlit("      <album>");
    reveal_strlit("</album>\n");
    reveal_strlit("      <duration>");
    reveal_strlit("</duration>\n");
    reveal_strlit("    </track>\n");
    let p = open_of("album"@);
    assert(p[0] == '<' && p[1] == 'a' && p[2] == 'l');
    assert(blocks("    <track>\n"@, p));
    assert(blocks("      <location>"@, p));
    assert(blocks("</location>\n"@, p));
    assert(blocks("      <title>"@, p));
    assert(blocks("</title>\n"@, p));
    assert(blocks("      <creator>"@, p));
    assert(blocks("</creator>\n"@, p));
    assert(blocks("      <duration>"@, p));
    assert(blocks("</duration>\n"@, p));
    assert(blocks("    </track>\n"@, p));
    let head = xspf_head(t, relative, base);
    let ti = opt_tag("      <title>"@, t.title, "</title>\n"@);
    let cr = opt_tag("      <creator>"@, t.artist, "</creator>\n"@);
    let du = xspf_duration_part(t);
    let en = "    </track>\n"@;
    lemma_xspf_head_blocks(t, relative, base, p);
    lemma_opt_tag_blocks("      <title>"@, t.title, "</title>\n"@, p);
    lemma_opt_tag_blocks("      <creator>"@, t.artist, "</creator>\n"@, p);
    lemma_duration_blocks(t, p);
    lemma_blocks_concat(head, ti, p);
    lemma_blocks_concat(head + ti, cr, p);
    lemma_blocks_concat(du, en, p);
    assert("      <album>"@ =~= "      "@ + open_of("album"@));
    assert("</album>\n"@ =~= close_of("album"@) + "\n"@);
    let el = opt_tag("      "@ + open_of("album"@), t.album, close_of("album"@) + "\n"@);
    assert(xspf_entry(t, relative, base) =~= (head + ti + cr) + el + (du + en));
    lemma_opt_element(head + ti + cr, "album"@, t.album, du + en);
}

proof fn lemma_xspf_location(t: TrackView, relative: bool, base: Option<Seq<Seq<char>>>)
    ensures
        xml_tag(xspf_entry(t, relative, base), "location"@) == Some(
            trim(escaped(export_path_text(t.path, relative, base))),
        ),
{
    reveal_strlit("title");
    reveal_strlit("creator");
    reveal_strlit("album");
    reveal_strlit("location");
    reveal_strlit("      ");
    reveal_strlit("\n");
    reveal_strlit("    <track>\n");
    reveal_strlit("      <location>");
    reveal_strlit("</location>\n");
    reveal_strlit("      <title>");
    reveal_strlit("</title>\n");
    reveal_strlit("      <creator>");
    reveal_strlit("</creator>\n");
    reveal_strlit("      <album>");
    reveal_strlit("</album>\n");
    reveal_strlit("      <duration>");
    reveal_strlit("</duration>\n");
    reveal_strlit("    </track>\n");
    let p = open_of("location"@);
    assert(p[0] == '<' && p[1] == 'l' && p[2] == 'o');
    assert(blocks("    <track>\n"@, p));
    lemma_lacks_blocks("      "@, p);
    lemma_blocks_concat("    <track>\n"@, "      "@, p);
    let l = escaped(export_path_text(t.path, relative, base));
    lemma_escaped_lacks_lt(export_path_text(t.path, relative, base));
    let rest = opt_tag("      <title>"@, t.title, "</title>\n"@) + opt_tag(
        "      <creator>"@,
        t.artist,
        "</creator>\n"@,
    ) + opt_tag("      <album>"@, t.album, "</album>\n"@) + xspf_duration_part(t) + "    </track>\n"@;
    assert("      <location>"@ =~= "      "@ + open_of("location"@));
    assert("</location>\n"@ =~= close_of("location"@) + "\n"@);
    assert(xspf_entry(t, relative, base) =~= ("    <track>\n"@ + "      "@) + open_of("location"@) + l
        + close_of("location"@) + ("\n"@ + rest));
    lemma_xml_tag_at("    <track>\n"@ + "      "@, "location"@, l, "\n"@ + rest);
}

proof fn lemma_decimal_no_ws(v: nat)
    ensures
        decimal(v).len() > 0,
        forall|k: int| 0 <= k < decimal(v).len() ==> !crate::text::is_ws(#[trigger] decimal(v)[k]),
    decreases v,
{
    if v >= 10 {
        lemma_decimal_no_ws(v / 10);
    }
}

/// A number as written is its own trimmed text.
proof fn lemma_int_text_trimmed(v: int)
    ensures
        trim(int_text(v)) == int_text(v),
{
    if v < 0 {
        lemma_decimal_no_ws((-v) as nat);
        let d = decimal((-v) as nat);
        assert((seq!['-'] + d).last() == d.last());
        assert((seq!['-'] + d)[0] == '-');
        lemma_trim_unchanged(seq!['-'] + d);
    } else {
        lemma_decimal_no_ws(v as nat);
        let d = decimal(v as nat);
        assert(!crate::text::is_ws(d[0]));
        assert(!crate::text::is_ws(d[d.len() - 1]));
        lemma_trim_unchanged(d);
    }
}

proof fn lemma_xspf_duration(t: TrackView, relative: bool, base: Option<Seq<Seq<char>>>)
    ensures
        xml_tag(xspf_entry(t, relative, base), "duration"@) == (match t.duration {
            Some(d) => Some(int_text(d * 1000)),
            None => None::<Seq<char>>,
        }),
{
    reveal_strlit("title");
    reveal_strlit("creator");
    reveal_strlit("album");
    reveal_strlit("location");
    reveal_strlit("      ");
    reveal_strlit("\n");
    reveal_strlit("    <track>\n");
    reveal_strlit("      <location>");
    reveal_strlit("</location>\n");
    reveal_strlit("      <title>");
    reveal_strlit("</title>\n");
    reveal_strlit("      <creator>");
    reveal_strlit("</creator>\n");
    reveal_strlit("      <album>");
    reveal_strlit("</album>\n");
    reveal_strlit("      <duration>");
    reveal_strlit("</duration>\n");
    reveal_strlit("    </track>\n");
    reveal_strlit("duration");
    let p = open_of("duration"@);
    assert(p[0] == '<' && p[1] == 'd' && p[2] == 'u');
    assert(blocks("    <track>\n"@, p));
    assert(blocks("      <location>"@, p));
    assert(blocks("</location>\n"@, p));
    assert(blocks("      <title>"@, p));
    assert(blocks("</title>\n"@, p));
    assert(blocks("      <creator>"@, p));
    assert(blocks("</creator>\n"@, p));
    assert(blocks("      <album>"@, p));
    assert(blocks("</album>\n"@, p));
    assert(blocks("    </track>\n"@, p));
    let head = xspf_head(t, relative, base);
    let ti = opt_tag("      <title>"@, t.title, "</title>\n"@);
    let cr = opt_tag("      <creator>"@, t.artist, "</creator>\n"@);
    let al = opt_tag("      <album>"@, t.album, "</album>\n"@);
    let en = "    </track>\n"@;
    lemma_xspf_head_blocks(t, relative, base, p);
    lemma_opt_tag_blocks("      <title>"@, t.title, "</title>\n"@, p);
    lemma_opt_tag_blocks("      <creator>"@, t.artist, "</creator>\n"@, p);
    lemma_opt_tag_blocks("      <album>"@, t.album, "</album>\n"@, p);
    lemma_blocks_concat(head, ti, p);
    lemma_blocks_concat(head + ti, cr, p);
    lemma_blocks_concat(head + ti + cr, al, p);
    let pre = head + ti + cr + al;
    match t.duration {
        Some(d) => {
            let n = int_text(d * 1000);
            lemma_int_text_lacks_lt(d * 1000);
            lemma_int_text_trimmed(d * 1000);
            lemma_lacks_blocks("      "@, p);
            lemma_blocks_concat(pre, "      "@, p);
            assert("      <duration>"@ =~= "      "@ + open_of("duration"@));
            assert("</duration>\n"@ =~= close_of("duration"@) + "\n"@);
            assert(xspf_entry(t, relative, base) =~= (pre + "      "@) + open_of("duration"@) + n + close_of(
                "duration"@,
            ) + ("\n"@ + en));
            lemma_xml_tag_at(pre + "      "@, "duration"@, n, "\n"@ + en);
        },
        None => {
            assert(xspf_entry(t, relative, base) =~= pre + en);
            lemma_blocks_concat(pre, en, p);
            lemma_xml_tag_absent(pre + en, "duration"@);
        },
    }
}

/// A written XSPF track block holds what a reader looks for: its
/// `<location>` element is the escaped path as written, its `<title>` the
/// escaped title, its `<creator>` the escaped artist and its `<album>` the
/// escaped album, each element absent where the track has no such field,
/// and its `<duration>` the length in milliseconds, when known.
pub proof fn xspf_entry_elements(t: TrackView, relative: bool, base: Option<Seq<Seq<char>>>)
    ensures
        xml_tag(xspf_entry(t, relative, base), "location"@) == Some(
            trim(escaped(export_path_text(t.path, relative, base))),
        ),
        xml_tag(xspf_entry(t, relative, base), "title"@) == element_text(t.title),
        xml_tag(xspf_entry(t, relative, base), "creator"@) == element_text(t.artist),
        xml_tag(xspf_entry(t, relative, base), "album"@) == element_text(t.album),
        xml_tag(xspf_entry(t, relative, base), "duration"@) == (match t.duration {
            Some(d) => Some(int_text(d * 1000)),
            None => None::<Seq<char>>,
        }),
{
    lemma_xspf_location(t, relative, base);
    lemma_xspf_title(t, relative, base);
    lemma_xspf_creator(t, relative, base);
    lemma_xspf_album(t, relative, base);
    lemma_xspf_duration(t, relative, base);
}

} // verus!
