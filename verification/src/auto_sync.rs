//! Decisions behind the automatic playlists: which part of the day a local
//! hour falls in, and how a genre or tag name is written as a title.
use vstd::prelude::*;
use crate::text::{
    chars_eq, chars_of, copy_range, eq_ignore_ascii_case, eq_ignore_ascii_case_chars, has_prefix, push_chars,
    split_once_at_char, split_once_char, string_of, strip_prefix_chars,
};
use crate::parsers::{decimal, push_int};
use crate::tag_views::{child_v, hierarchy_v, tag_group_v, TagGroup, TagGroupChild};

verus! {

/// The daypart of a local hour: bucket id and playlist name.
pub open spec fn daypart(hour: u32) -> (Seq<char>, Seq<char>) {
    if 5 <= hour <= 11 {
        ("morning"@, "Morning Mix"@)
    } else if 12 <= hour <= 16 {
        ("afternoon"@, "Afternoon Mix"@)
    } else if 17 <= hour <= 20 {
        ("evening"@, "Evening Mix"@)
    } else {
        ("latenight"@, "Late Night Mix"@)
    }
}

/// The daypart bucket and playlist name for a local hour, on the same
/// boundaries as the home screen's greeting.
pub fn daypart_bucket_for_hour(hour: u32) -> (r: (&'static str, &'static str))
    ensures
        (r.0@, r.1@) == daypart(hour),
{
    if 5 <= hour && hour <= 11 {
        ("morning", "Morning Mix")
    } else if 12 <= hour && hour <= 16 {
        ("afternoon", "Afternoon Mix")
    } else if 17 <= hour && hour <= 20 {
        ("evening", "Evening Mix")
    } else {
        ("latenight", "Late Night Mix")
    }
}

/// Whether `char::is_alphanumeric` holds.
pub uninterp spec fn alphanumeric(c: char) -> bool;

/// `char::is_alphanumeric`: Unicode's Alphabetic or Numeric property. The
/// contract names the answer and states that ASCII letters and digits have
/// it while ASCII punctuation and whitespace do not.
#[verifier::external_body]
fn is_alphanumeric(c: char) -> (b: bool)
    ensures
        b == alphanumeric(c),
        ('a' <= c <= 'z' || 'A' <= c <= 'Z' || '0' <= c <= '9') ==> b,
        (c as u32) < 128 && !('a' <= c <= 'z' || 'A' <= c <= 'Z' || '0' <= c <= '9') ==> !b,
{
    c.is_alphanumeric()
}

/// What `char::to_uppercase` yields for `c`.
pub uninterp spec fn upper_of(c: char) -> Seq<char>;

/// `char::to_uppercase`: the Unicode uppercase mapping of `c` (one or more
/// characters), named as a function of `c`; an ASCII character maps as
/// `to_ascii_uppercase` does (`a`..`z` to `A`..`Z`, the rest unchanged).
#[verifier::external_body]
fn char_upper(c: char) -> (r: Vec<char>)
    ensures
        r@ == upper_of(c),
        'a' <= c <= 'z' ==> r@ == seq![((c as u32) - 32) as char],
        (c as u32) < 128 && !('a' <= c <= 'z') ==> r@ == seq![c],
{
    c.to_uppercase().collect()
}

/// What `char::to_lowercase` yields for `c`.
pub uninterp spec fn lower_of(c: char) -> Seq<char>;

/// `char::to_lowercase`: the Unicode lowercase mapping of `c` (one or more
/// characters), named as a function of `c`; an ASCII character maps as
/// `to_ascii_lowercase` does (`A`..`Z` to `a`..`z`, the rest unchanged).
#[verifier::external_body]
fn char_lower(c: char) -> (r: Vec<char>)
    ensures
        r@ == lower_of(c),
        (c as u32) < 128 ==> r@ == seq![crate::text::ascii_lower(c)],
{
    c.to_lowercase().collect()
}

/// Title case of `s`, scanning with `cap` telling whether the next
/// alphanumeric character starts a word: it is uppercased, the rest of the
/// word lowercased; other characters stay and end the word.
pub open spec fn title_case_from(s: Seq<char>, cap: bool) -> Seq<char>
    decreases s.len(),
{
    if s.len() == 0 {
        Seq::empty()
    } else {
        let c = s[0];
        if alphanumeric(c) {
            (if cap {
                upper_of(c)
            } else {
                lower_of(c)
            }) + title_case_from(s.drop_first(), false)
        } else {
            seq![c] + title_case_from(s.drop_first(), true)
        }
    }
}

/// An ASCII letter or digit.
pub open spec fn ascii_alnum(c: char) -> bool {
    'a' <= c <= 'z' || 'A' <= c <= 'Z' || '0' <= c <= '9'
}

pub open spec fn ascii_upper(c: char) -> char {
    if 'a' <= c <= 'z' {
        ((c as u32) - 32) as char
    } else {
        c
    }
}

/// `title_case_from` on ASCII text: each run of letters and digits starts
/// with an uppercase letter and goes on in lowercase.
pub open spec fn ascii_title_from(s: Seq<char>, cap: bool) -> Seq<char>
    decreases s.len(),
{
    if s.len() == 0 {
        Seq::empty()
    } else {
        let c = s[0];
        if ascii_alnum(c) {
            seq![if cap { ascii_upper(c) } else { crate::text::ascii_lower(c) }] + ascii_title_from(
                s.drop_first(),
                false,
            )
        } else {
            seq![c] + ascii_title_from(s.drop_first(), true)
        }
    }
}

/// `s` in title case: see `title_case_from`; on ASCII text, see
/// `ascii_title_from`.
pub fn to_title_case(s: &str) -> (r: String)
    ensures
        r@ == title_case_from(s@, true),
        (forall|i: int| 0 <= i < s@.len() ==> (#[trigger] s@[i] as u32) < 128) ==> r@ == ascii_title_from(s@, true),
{
    let v = chars_of(s);
    let mut out: Vec<char> = Vec::new();
    let mut cap = true;
    let mut i: usize = 0;
    assert(v@.skip(0) =~= v@);
    assert(out@ + title_case_from(v@, true) =~= title_case_from(v@, true));
    let ghost ascii = forall|i: int| 0 <= i < s@.len() ==> (#[trigger] s@[i] as u32) < 128;
    assert(out@ + ascii_title_from(v@, true) =~= ascii_title_from(v@, true));
    while i < v.len()
        invariant
            i <= v@.len(),
            v@ == s@,
            out@ + title_case_from(v@.skip(i as int), cap) == title_case_from(s@, true),
            ascii == (forall|i: int| 0 <= i < s@.len() ==> (#[trigger] s@[i] as u32) < 128),
            ascii ==> out@ + ascii_title_from(v@.skip(i as int), cap) == ascii_title_from(s@, true),
        decreases v@.len() - i,
    {
        let ghost rest = v@.skip(i as int);
        assert(rest.drop_first() =~= v@.skip(i + 1));
        assert(rest[0] == v@[i as int]);
        let c = v[i];
        let ghost before = out@;
        if is_alphanumeric(c) {
            let m = if cap {
                char_upper(c)
            } else {
                char_lower(c)
            };
            let ghost was_cap = cap;
            push_chars(&mut out, m.as_slice());
            cap = false;
            assert(out@ + title_case_from(v@.skip(i + 1), false) =~= before + (m@ + title_case_from(
                rest.drop_first(),
                false,
            )));
            proof {
                if ascii {
                    assert((s@[i as int] as u32) < 128);
                    assert(ascii_alnum(c));
                    assert(m@ == seq![if was_cap { ascii_upper(c) } else { crate::text::ascii_lower(c) }]);
                    assert(out@ + ascii_title_from(v@.skip(i + 1), false) =~= before + (m@ + ascii_title_from(
                        rest.drop_first(),
                        false,
                    )));
                }
            }
        } else {
            out.push(c);
            cap = true;
            assert(out@ + title_case_from(v@.skip(i + 1), true) =~= before + (seq![c] + title_case_from(
                rest.drop_first(),
                true,
            )));
            proof {
                if ascii {
                    assert((s@[i as int] as u32) < 128);
                    assert(!ascii_alnum(c));
                    assert(out@ + ascii_title_from(v@.skip(i + 1), true) =~= before + (seq![c] + ascii_title_from(
                        rest.drop_first(),
                        true,
                    )));
                }
            }
        }
        i += 1;
    }
    assert(v@.skip(i as int) =~= Seq::<char>::empty());
    assert(out@ + Seq::<char>::empty() =~= out@);
    assert(ascii_title_from(Seq::<char>::empty(), cap) =~= Seq::<char>::empty());
    string_of(out.as_slice())
}

// ---------------------------------------------------------------------------
// Planning the automatic playlists
// ---------------------------------------------------------------------------

/// How many matching songs a category value needs before its automatic
/// playlist is made.
pub const MIN_LIBRARY_SONGS_FOR_AUTO_PLAYLIST: i64 = 25;

/// How old (in seconds) an automatic playlist's contents may get before
/// they are made again.
pub const STALE_AFTER_SECS: i64 = 86400;

/// An automatic playlist as stored: its id, its spec and when its
/// contents were last made.
#[derive(Debug)]
pub struct AutoRow {
    pub id: i64,
    pub spec: String,
    pub updated: i64,
}

/// A value of the category that should have a playlist: its key (what the
/// spec carries), the playlist's name, and how many library songs match
/// it (counting may stop at the minimum).
#[derive(Debug)]
pub struct AutoWanted {
    pub key: String,
    pub name: String,
    pub matching: i64,
}

/// What to do to the stored automatic playlists.
#[derive(Debug)]
pub enum AutoAction {
    /// Delete the playlist and its rows.
    Delete { id: i64 },
    /// Make the playlist's contents again from the songs matching `key`
    /// (and, where the category renames, set its name to `name`).
    Refresh { id: i64, key: String, name: String },
    /// Make a new playlist named `name` with spec `spec`, filled with the
    /// songs matching `key`.
    Create { key: String, name: String, spec: String },
}

pub struct RowV {
    pub id: i64,
    pub spec: Seq<char>,
    pub updated: i64,
}

pub struct WantedV {
    pub key: Seq<char>,
    pub name: Seq<char>,
    pub matching: i64,
}

pub enum ActionV {
    Delete { id: i64 },
    Refresh { id: i64, key: Seq<char>, name: Seq<char> },
    Create { key: Seq<char>, name: Seq<char>, spec: Seq<char> },
}

pub open spec fn row_v(r: AutoRow) -> RowV {
    RowV { id: r.id, spec: r.spec@, updated: r.updated }
}

pub open spec fn rows_v(s: Seq<AutoRow>) -> Seq<RowV> {
    s.map_values(|r: AutoRow| row_v(r))
}

pub open spec fn wanted_v(w: AutoWanted) -> WantedV {
    WantedV { key: w.key@, name: w.name@, matching: w.matching }
}

pub open spec fn wanteds_v(s: Seq<AutoWanted>) -> Seq<WantedV> {
    s.map_values(|w: AutoWanted| wanted_v(w))
}

pub open spec fn action_v(a: AutoAction) -> ActionV {
    match a {
        AutoAction::Delete { id } => ActionV::Delete { id },
        AutoAction::Refresh { id, key, name } => ActionV::Refresh { id, key: key@, name: name@ },
        AutoAction::Create { key, name, spec } => ActionV::Create { key: key@, name: name@, spec: spec@ },
    }
}

pub open spec fn actions_v(s: Seq<AutoAction>) -> Seq<ActionV> {
    s.map_values(|a: AutoAction| action_v(a))
}

/// A stored spec of the category: it starts with `prefix`, ASCII case
/// aside (how the store's `LIKE 'prefix%'` matches).
pub open spec fn in_category(spec: Seq<char>, prefix: Seq<char>) -> bool {
    prefix.len() <= spec.len() && eq_ignore_ascii_case(spec.take(prefix.len() as int), prefix)
}

/// The key a stored spec carries: the spec after `prefix`, or the whole
/// spec when it does not start with exactly `prefix`.
pub open spec fn spec_key(spec: Seq<char>, prefix: Seq<char>) -> Seq<char> {
    if has_prefix(spec, prefix) {
        spec.skip(prefix.len() as int)
    } else {
        spec
    }
}

/// Key `k` is still wanted: equal to a wanted key (ASCII case aside when
/// `nocase`).
pub open spec fn still_wanted(ws: Seq<WantedV>, k: Seq<char>, nocase: bool) -> bool {
    exists|i: int|
        0 <= i < ws.len() && (if nocase {
            eq_ignore_ascii_case((#[trigger] ws[i]).key, k)
        } else {
            ws[i].key == k
        })
}

/// A stored playlist of the category whose key is no longer wanted.
pub open spec fn pruned(r: RowV, prefix: Seq<char>, ws: Seq<WantedV>, nocase: bool) -> bool {
    in_category(r.spec, prefix) && !still_wanted(ws, spec_key(r.spec, prefix), nocase)
}

/// The deletions of stale playlists, in storage order.
pub open spec fn prune_actions(rows: Seq<RowV>, prefix: Seq<char>, ws: Seq<WantedV>, nocase: bool) -> Seq<ActionV>
    decreases rows.len(),
{
    if rows.len() == 0 {
        Seq::empty()
    } else {
        let r = prune_actions(rows.drop_last(), prefix, ws, nocase);
        if pruned(rows.last(), prefix, ws, nocase) {
            r.push(ActionV::Delete { id: rows.last().id })
        } else {
            r
        }
    }
}

/// The first stored playlist, among those not pruned, whose spec is
/// exactly `spec`.
pub open spec fn row_for(rows: Seq<RowV>, spec: Seq<char>, prefix: Seq<char>, ws: Seq<WantedV>, nocase: bool) -> Option<RowV>
    decreases rows.len(),
{
    if rows.len() == 0 {
        None
    } else {
        match row_for(rows.drop_last(), spec, prefix, ws, nocase) {
            Some(r) => Some(r),
            None => if rows.last().spec == spec && !pruned(rows.last(), prefix, ws, nocase) {
                Some(rows.last())
            } else {
                None
            },
        }
    }
}

/// What happens for wanted value `w` given its stored playlist: none and
/// too few songs, nothing; stored but no songs left, deleted; stored and
/// made within the last day, nothing; otherwise made again (or made).
pub open spec fn wanted_action(row: Option<RowV>, w: WantedV, prefix: Seq<char>, now: i64) -> Option<ActionV> {
    match row {
        None => if w.matching < MIN_LIBRARY_SONGS_FOR_AUTO_PLAYLIST {
            None
        } else {
            Some(ActionV::Create { key: w.key, name: w.name, spec: prefix + w.key })
        },
        Some(r) => if w.matching == 0 {
            Some(ActionV::Delete { id: r.id })
        } else if now - r.updated > STALE_AFTER_SECS {
            Some(ActionV::Refresh { id: r.id, key: w.key, name: w.name })
        } else {
            None
        },
    }
}

pub open spec fn wanted_actions(rows: Seq<RowV>, ws: Seq<WantedV>, all: Seq<WantedV>, prefix: Seq<char>, nocase: bool, now: i64) -> Seq<ActionV>
    decreases ws.len(),
{
    if ws.len() == 0 {
        Seq::empty()
    } else {
        let r = wanted_actions(rows, ws.drop_last(), all, prefix, nocase, now);
        let w = ws.last();
        match wanted_action(row_for(rows, prefix + w.key, prefix, all, nocase), w, prefix, now) {
            Some(a) => r.push(a),
            None => r,
        }
    }
}

/// The plan for one category of automatic playlists: first delete the
/// stored ones whose value is no longer wanted, then, value by value, make
/// or remake what is missing or stale (see `wanted_action`).
pub open spec fn auto_plan(rows: Seq<RowV>, prefix: Seq<char>, ws: Seq<WantedV>, nocase: bool, now: i64) -> Seq<ActionV> {
    prune_actions(rows, prefix, ws, nocase) + wanted_actions(rows, ws, ws, prefix, nocase, now)
}

fn key_wanted(ws: &[AutoWanted], k: &[char], nocase: bool) -> (b: bool)
    ensures
        b == still_wanted(wanteds_v(ws@), k@, nocase),
{
    let ghost wv = wanteds_v(ws@);
    let mut i: usize = 0;
    while i < ws.len()
        invariant
            i <= ws@.len(),
            wv == wanteds_v(ws@),
            forall|q: int|
                0 <= q < i ==> !(if nocase {
                    eq_ignore_ascii_case((#[trigger] wv[q]).key, k@)
                } else {
                    wv[q].key == k@
                }),
        decreases ws@.len() - i,
    {
        assert(wv[i as int] == wanted_v(ws@[i as int]));
        let key = chars_of(ws[i].key.as_str());
        let hit = if nocase {
            eq_ignore_ascii_case_chars(key.as_slice(), k)
        } else {
            chars_eq(key.as_slice(), k)
        };
        if hit {
            return true;
        }
        i += 1;
    }
    false
}

fn is_pruned(r: &AutoRow, prefix: &[char], ws: &[AutoWanted], nocase: bool) -> (b: bool)
    ensures
        b == pruned(row_v(*r), prefix@, wanteds_v(ws@), nocase),
{
    let spec = chars_of(r.spec.as_str());
    if prefix.len() > spec.len() {
        return false;
    }
    let head = copy_range(spec.as_slice(), 0, prefix.len());
    assert(head@ =~= spec@.take(prefix@.len() as int));
    if !eq_ignore_ascii_case_chars(head.as_slice(), prefix) {
        return false;
    }
    let key = match strip_prefix_chars(spec.as_slice(), prefix) {
        Some(k) => k,
        None => spec,
    };
    assert(key@ == spec_key(r.spec@, prefix@));
    !key_wanted(ws, key.as_slice(), nocase)
}

/// The plan for one category of automatic playlists (see `auto_plan`):
/// `rows` are the stored automatic playlists, `prefix` the category's spec
/// prefix, `wanted` its values in order, and `nocase` whether a stored key
/// still counts as wanted up to ASCII case.
pub fn plan_auto_playlists(rows: &[AutoRow], prefix: &str, wanted: &[AutoWanted], nocase: bool, now: i64) -> (r: Vec<
    AutoAction,
>)
    ensures
        actions_v(r@) == auto_plan(rows_v(rows@), prefix@, wanteds_v(wanted@), nocase, now),
{
    let ghost rv = rows_v(rows@);
    let ghost wv = wanteds_v(wanted@);
    let p = chars_of(prefix);
    let mut out: Vec<AutoAction> = Vec::new();
    let mut i: usize = 0;
    while i < rows.len()
        invariant
            i <= rows@.len(),
            rv == rows_v(rows@),
            wv == wanteds_v(wanted@),
            p@ == prefix@,
            actions_v(out@) == prune_actions(rv.take(i as int), prefix@, wv, nocase),
        decreases rows@.len() - i,
    {
        assert(rv.take(i + 1).drop_last() =~= rv.take(i as int));
        assert(rv.take(i + 1).last() == row_v(rows@[i as int]));
        if is_pruned(&rows[i], p.as_slice(), wanted, nocase) {
            let ghost o = actions_v(out@);
            out.push(AutoAction::Delete { id: rows[i].id });
            assert(actions_v(out@) =~= o.push(ActionV::Delete { id: rows@[i as int].id }));
        }
        i += 1;
    }
    assert(rv.take(i as int) =~= rv);
    let ghost pruning = actions_v(out@);
    let mut j: usize = 0;
    while j < wanted.len()
        invariant
            j <= wanted@.len(),
            rv == rows_v(rows@),
            wv == wanteds_v(wanted@),
            p@ == prefix@,
            pruning == prune_actions(rv, prefix@, wv, nocase),
            actions_v(out@) == pruning + wanted_actions(rv, wv.take(j as int), wv, prefix@, nocase, now),
        decreases wanted@.len() - j,
    {
        assert(wv.take(j + 1).drop_last() =~= wv.take(j as int));
        assert(wv.take(j + 1).last() == wanted_v(wanted@[j as int]));
        let w = &wanted[j];
        let mut spec = p.clone();
        push_chars(&mut spec, chars_of(w.key.as_str()).as_slice());
        assert(spec@ == prefix@ + w.key@);
        let mut found: Option<usize> = None;
        let mut k: usize = 0;
        while k < rows.len()
            invariant
                k <= rows@.len(),
                rv == rows_v(rows@),
                wv == wanteds_v(wanted@),
                p@ == prefix@,
                found matches Some(f) ==> f < k && row_for(rv.take(k as int), spec@, prefix@, wv, nocase) == Some(rv[f as int]),
                found is None ==> row_for(rv.take(k as int), spec@, prefix@, wv, nocase) is None,
            decreases rows@.len() - k,
        {
            assert(rv.take(k + 1).drop_last() =~= rv.take(k as int));
            assert(rv.take(k + 1).last() == row_v(rows@[k as int]));
            if found.is_none() {
                let s = chars_of(rows[k].spec.as_str());
                if chars_eq(s.as_slice(), spec.as_slice()) && !is_pruned(&rows[k], p.as_slice(), wanted, nocase) {
                    found = Some(k);
                }
            }
            k += 1;
        }
        assert(rv.take(k as int) =~= rv);
        let ghost before = actions_v(out@);
        let ghost wa = wanted_action(row_for(rv, prefix@ + wv[j as int].key, prefix@, wv, nocase), wv[j as int], prefix@, now);
        match found {
            None => {
                if w.matching >= MIN_LIBRARY_SONGS_FOR_AUTO_PLAYLIST {
                    out.push(AutoAction::Create { key: w.key.clone(), name: w.name.clone(), spec: string_of(spec.as_slice()) });
                    assert(actions_v(out@) =~= before.push(wa.unwrap()));
                } else {
                    assert(wa is None);
                }
            },
            Some(f) => {
                let r = &rows[f];
                assert(rv[f as int] == row_v(*r));
                if w.matching == 0 {
                    out.push(AutoAction::Delete { id: r.id });
                    assert(actions_v(out@) =~= before.push(wa.unwrap()));
                } else if (now as i128) - (r.updated as i128) > STALE_AFTER_SECS as i128 {
                    out.push(AutoAction::Refresh { id: r.id, key: w.key.clone(), name: w.name.clone() });
                    assert(actions_v(out@) =~= before.push(wa.unwrap()));
                } else {
                    assert(wa is None);
                }
            },
        }
        assert(pruning + wanted_actions(rv, wv.take(j + 1), wv, prefix@, nocase, now) =~= actions_v(out@));
        j += 1;
    }
    assert(wv.take(j as int) =~= wv);
    out
}

/// The single always-present playlist (missing metadata): made when there
/// is none, made again once a day old; `None` when it is fresh.
pub open spec fn standing_action(row: Option<RowV>, now: i64) -> Option<ActionV> {
    match row {
        None => Some(ActionV::Create { key: Seq::empty(), name: "Missing Metadata"@, spec: "missingmeta"@ }),
        Some(r) => if now - r.updated > STALE_AFTER_SECS {
            Some(ActionV::Refresh { id: r.id, key: Seq::empty(), name: "Missing Metadata"@ })
        } else {
            None
        },
    }
}

/// What to do to the missing-metadata playlist (see `standing_action`).
pub fn missing_metadata_action(row: Option<&AutoRow>, now: i64) -> (r: Option<AutoAction>)
    ensures
        match r {
            Some(a) => standing_action(match row {
                Some(x) => Some(row_v(*x)),
                None => None,
            }, now) == Some(action_v(a)),
            None => standing_action(match row {
                Some(x) => Some(row_v(*x)),
                None => None,
            }, now) is None,
        },
{
    match row {
        None => Some(AutoAction::Create { key: String::new(), name: lit("Missing Metadata"), spec: lit("missingmeta") }),
        Some(x) => if (now as i128) - (x.updated as i128) > STALE_AFTER_SECS as i128 {
            Some(AutoAction::Refresh { id: x.id, key: String::new(), name: lit("Missing Metadata") })
        } else {
            None
        },
    }
}

fn lit(s: &str) -> (r: String)
    ensures
        r@ == s@,
{
    string_of(chars_of(s).as_slice())
}

/// The spec of a BPM bucket from `min` to `max` beats per minute (open
/// above when `max` is `None`): "bpmrange:" then the bounds.
pub open spec fn bpm_spec(min: u32, max: Option<u32>) -> Seq<char> {
    "bpmrange:"@ + decimal(min as nat) + "-"@ + match max {
        Some(m) => decimal(m as nat),
        None => Seq::empty(),
    }
}

/// The spec of a BPM bucket (see `bpm_spec`).
pub fn format_bpm_range_spec(min: u32, max: Option<u32>) -> (r: String)
    ensures
        r@ == bpm_spec(min, max),
{
    let mut out = chars_of("bpmrange:");
    push_int(&mut out, min as i64);
    out.push('-');
    match max {
        Some(m) => {
            push_int(&mut out, m as i64);
        },
        None => {},
    }
    proof {
        reveal_strlit("-");
        assert(crate::parsers::int_text(min as int) == decimal(min as nat));
        if let Some(m) = max {
            assert(crate::parsers::int_text(m as int) == decimal(m as nat));
        }
    }
    assert(out@ =~= bpm_spec(min, max));
    string_of(out.as_slice())
}

// ---------------------------------------------------------------------------
// The daypart mix
// ---------------------------------------------------------------------------

/// The daypart mix's stored spec still stands for `bucket` on `date`: after
/// "daypart:" it reads `bucket`, a colon, then `date` (up to the next colon
/// or the end).
pub open spec fn daypart_current(spec: Seq<char>, bucket: Seq<char>, date: Seq<char>) -> bool {
    let rest = if has_prefix(spec, "daypart:"@) {
        spec.skip(8)
    } else {
        Seq::empty()
    };
    let first = match split_once_char(rest, ':') {
        Some(p) => p.0,
        None => rest,
    };
    let second = match split_once_char(rest, ':') {
        Some(p) => match split_once_char(p.1, ':') {
            Some(q) => q.0,
            None => p.1,
        },
        None => Seq::empty(),
    };
    first == bucket && second == date
}

/// Whether the daypart mix's stored spec still stands for `bucket` on
/// `date` (see `daypart_current`).
pub fn daypart_is_current(spec: &str, bucket: &str, date: &str) -> (b: bool)
    ensures
        b == daypart_current(spec@, bucket@, date@),
{
    let s = chars_of(spec);
    let pre = chars_of("daypart:");
    proof {
        reveal_strlit("daypart:");
    }
    let rest = match strip_prefix_chars(s.as_slice(), pre.as_slice()) {
        Some(r) => r,
        None => Vec::new(),
    };
    assert(rest@ =~= (if has_prefix(spec@, "daypart:"@) {
        spec@.skip(8)
    } else {
        Seq::empty()
    }));
    let (first, second) = match split_once_at_char(rest.as_slice(), ':') {
        Some((a, b)) => {
            let second = match split_once_at_char(b.as_slice(), ':') {
                Some((c, _)) => c,
                None => b,
            };
            (a, second)
        },
        None => (rest, Vec::new()),
    };
    let bk = chars_of(bucket);
    let dt = chars_of(date);
    chars_eq(first.as_slice(), bk.as_slice()) && chars_eq(second.as_slice(), dt.as_slice())
}

/// The daypart mix's spec: "daypart:", the bucket, the date and the
/// resolved genre name, joined by colons.
pub open spec fn daypart_spec(bucket: Seq<char>, date: Seq<char>, name: Seq<char>) -> Seq<char> {
    "daypart:"@ + bucket + ":"@ + date + ":"@ + name
}

pub fn format_daypart_spec(bucket: &str, date: &str, name: &str) -> (r: String)
    ensures
        r@ == daypart_spec(bucket@, date@, name@),
{
    let mut out = chars_of("daypart:");
    push_chars(&mut out, chars_of(bucket).as_slice());
    out.push(':');
    push_chars(&mut out, chars_of(date).as_slice());
    out.push(':');
    push_chars(&mut out, chars_of(name).as_slice());
    proof {
        reveal_strlit(":");
    }
    assert(out@ =~= daypart_spec(bucket@, date@, name@));
    string_of(out.as_slice())
}

/// A genre the daypart mix may pick: a card with its count, or a chip
/// with its count and its card's name and count.
pub struct DaypartCandidate {
    pub name: String,
    pub song_count: i64,
    pub parent: Option<(String, i64)>,
}

/// The candidates of a hierarchy: each card, followed by its chips.
pub open spec fn candidates_of(h: Seq<(Seq<char>, i32, int, Seq<(Seq<char>, int)>)>) -> Seq<(Seq<char>, int, Option<(Seq<char>, int)>)>
    decreases h.len(),
{
    if h.len() == 0 {
        Seq::empty()
    } else {
        let g = h.last();
        candidates_of(h.drop_last()).push((g.0, g.2, None)) + g.3.map_values(
            |c: (Seq<char>, int)| (c.0, c.1, Some((g.0, g.2))),
        )
    }
}

pub open spec fn candidate_v(c: DaypartCandidate) -> (Seq<char>, int, Option<(Seq<char>, int)>) {
    (c.name@, c.song_count as int, match c.parent {
        Some(p) => Some((p.0@, p.1 as int)),
        None => None,
    })
}

pub open spec fn candidates_v(s: Seq<DaypartCandidate>) -> Seq<(Seq<char>, int, Option<(Seq<char>, int)>)> {
    s.map_values(|c: DaypartCandidate| candidate_v(c))
}

/// The candidates of a hierarchy (see `candidates_of`).
pub fn daypart_candidates(h: &[TagGroup]) -> (r: Vec<DaypartCandidate>)
    ensures
        candidates_v(r@) == candidates_of(hierarchy_v(h@)),
{
    let ghost hv = hierarchy_v(h@);
    let mut out: Vec<DaypartCandidate> = Vec::new();
    let mut i: usize = 0;
    while i < h.len()
        invariant
            i <= h@.len(),
            hv == hierarchy_v(h@),
            candidates_v(out@) == candidates_of(hv.take(i as int)),
        decreases h@.len() - i,
    {
        assert(hv.take(i + 1).drop_last() =~= hv.take(i as int));
        assert(hv.take(i + 1).last() == tag_group_v(h@[i as int]));
        let g = &h[i];
        let ghost gv = tag_group_v(*g);
        let ghost o = candidates_v(out@);
        out.push(DaypartCandidate { name: g.name.clone(), song_count: g.song_count, parent: None });
        assert(candidates_v(out@) =~= o.push((gv.0, gv.2, None)));
        let ghost base = candidates_v(out@);
        let ghost kids = gv.3;
        assert(kids == g.children@.map_values(|c: TagGroupChild| child_v(c)));
        let mut k: usize = 0;
        while k < g.children.len()
            invariant
                k <= g.children@.len(),
                kids == g.children@.map_values(|c: TagGroupChild| child_v(c)),
                gv == tag_group_v(*g),
                candidates_v(out@) == base + kids.take(k as int).map_values(
                    |c: (Seq<char>, int)| (c.0, c.1, Some((gv.0, gv.2))),
                ),
            decreases g.children@.len() - k,
        {
            let c = &g.children[k];
            assert(kids[k as int] == child_v(*c));
            let ghost before = candidates_v(out@);
            out.push(DaypartCandidate { name: c.name.clone(), song_count: c.song_count, parent: Some((g.name.clone(), g.song_count)) });
            assert(candidates_v(out@) =~= before.push((c.name@, c.song_count as int, Some((gv.0, gv.2)))));
            assert(kids.take(k + 1).map_values(|c: (Seq<char>, int)| (c.0, c.1, Some((gv.0, gv.2)))) =~= kids.take(
                k as int,
            ).map_values(|c: (Seq<char>, int)| (c.0, c.1, Some((gv.0, gv.2)))).push((kids[k as int].0, kids[k as int].1, Some((gv.0, gv.2)))));
            k += 1;
        }
        assert(kids.take(k as int) =~= kids);
        i += 1;
    }
    assert(hv.take(i as int) =~= hv);
    out
}

/// The genre a picked candidate stands for: a card as it is; a chip with
/// too few songs stands for its card. `None` when what it stands for still
/// has too few songs.
pub open spec fn resolved_grouping(c: (Seq<char>, int, Option<(Seq<char>, int)>)) -> Option<Seq<char>> {
    let (name, count) = match c.2 {
        Some(p) => if c.1 >= MIN_LIBRARY_SONGS_FOR_AUTO_PLAYLIST {
            (c.0, c.1)
        } else {
            (p.0, p.1)
        },
        None => (c.0, c.1),
    };
    if count < MIN_LIBRARY_SONGS_FOR_AUTO_PLAYLIST {
        None
    } else {
        Some(name)
    }
}

/// The genre candidate `c` stands for (see `resolved_grouping`).
pub fn resolve_grouping(c: &DaypartCandidate) -> (r: Option<String>)
    ensures
        opt_text(r) == resolved_grouping(candidate_v(*c)),
{
    let (name, count) = match &c.parent {
        Some(p) => if c.song_count >= MIN_LIBRARY_SONGS_FOR_AUTO_PLAYLIST {
            (&c.name, c.song_count)
        } else {
            (&p.0, p.1)
        },
        None => (&c.name, c.song_count),
    };
    if count < MIN_LIBRARY_SONGS_FOR_AUTO_PLAYLIST {
        None
    } else {
        Some(name.clone())
    }
}

pub open spec fn opt_text(o: Option<String>) -> Option<Seq<char>> {
    match o {
        Some(s) => Some(s@),
        None => None,
    }
}

/// `rand::rng().random_range(..n)`, the uniform pick behind
/// `IndexedRandom::choose`: some index below `n`.
#[verifier::external_body]
fn random_below(n: usize) -> (r: usize)
    requires
        n > 0,
    ensures
        r < n,
{
    rand::Rng::random_range(&mut rand::rng(), ..n)
}

/// The daypart mix's genre: a candidate of the hierarchy picked at random,
/// resolved (see `resolved_grouping`); `None` when the hierarchy is empty
/// or the pick resolves to too few songs. Whichever candidate is picked,
/// the result is its resolution, so it is some genre whenever every
/// candidate resolves to one.
pub fn pick_daypart_grouping(h: &[TagGroup]) -> (r: Option<String>)
    ensures
        candidates_of(hierarchy_v(h@)).len() == 0 ==> r is None,
        candidates_of(hierarchy_v(h@)).len() > 0 ==> exists|i: int|
            0 <= i < candidates_of(hierarchy_v(h@)).len() && resolved_grouping(
                #[trigger] candidates_of(hierarchy_v(h@))[i],
            ) == opt_text(r),
{
    let cs = daypart_candidates(h);
    if cs.len() == 0 {
        return None;
    }
    let i = random_below(cs.len());
    assert(candidates_v(cs@)[i as int] == candidate_v(cs@[i as int]));
    resolve_grouping(&cs[i])
}

/// The daypart mix, once its spec is out of date: its existing row is
/// rewritten in place whatever the count; a new one is made only with
/// enough songs.
pub fn daypart_writes(existing: bool, matching: usize) -> (b: bool)
    ensures
        b == (existing || matching >= MIN_LIBRARY_SONGS_FOR_AUTO_PLAYLIST),
{
    existing || matching >= 25
}

} // verus!
