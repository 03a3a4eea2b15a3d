//! Syncing a Subsonic server's library: paging through its listings,
//! mapping its tracks' names, and deciding what each track does to the
//! local library.
use vstd::prelude::*;
use crate::parsers::{file_name, file_name_of, name_stem, stem_of};
use crate::tags::{join_multi_value, joined_values};
use crate::text::{chars_eq, chars_of, string_of, trim, trim_chars};

verus! {

/// Items per listing page (the most Navidrome serves).
pub const PAGE_SIZE: usize = 500;

// ---------------------------------------------------------------------------
// Paging
// ---------------------------------------------------------------------------

/// Position `i` of a page brings an item not seen before: its id is not
/// among `seen` nor earlier on the page.
pub open spec fn fresh_at(seen: Seq<Seq<char>>, ids: Seq<Seq<char>>, i: int) -> bool {
    !seen.contains(ids[i]) && forall|j: int| 0 <= j < i ==> ids[j] != ids[i]
}

/// The positions of the first `n` of a page that bring new items, in order.
pub open spec fn fresh_positions(seen: Seq<Seq<char>>, ids: Seq<Seq<char>>, n: int) -> Seq<int>
    decreases n,
{
    if n <= 0 {
        Seq::empty()
    } else {
        let r = fresh_positions(seen, ids, n - 1);
        if fresh_at(seen, ids, n - 1) {
            r.push(n - 1)
        } else {
            r
        }
    }
}

proof fn lemma_fresh_covers(s0: Seq<Seq<char>>, iv: Seq<Seq<char>>, i: int, x: Seq<char>)
    requires
        0 <= i <= iv.len(),
        !s0.contains(x),
        exists|j: int| 0 <= j < i && iv[j] == x,
    ensures
        exists|p: int| 0 <= p < fresh_positions(s0, iv, i).len() && iv[fresh_positions(s0, iv, i)[p]] == x,
    decreases i,
{
    let prev = fresh_positions(s0, iv, i - 1);
    if exists|j: int| 0 <= j < i - 1 && iv[j] == x {
        lemma_fresh_covers(s0, iv, i - 1, x);
        let p = choose|p: int| 0 <= p < prev.len() && iv[prev[p]] == x;
        assert(fresh_positions(s0, iv, i)[p] == prev[p]);
    } else {
        assert(iv[i - 1] == x);
        assert(fresh_at(s0, iv, i - 1));
        assert(fresh_positions(s0, iv, i)[prev.len() as int] == i - 1);
    }
}

/// Where paging through a listing stands: the ids seen so far and the
/// offset of the next page.
pub struct Paging {
    pub seen: Vec<String>,
    pub offset: usize,
}

pub open spec fn ids_v(s: Seq<String>) -> Seq<Seq<char>> {
    s.map_values(|x: String| x@)
}

fn listed(v: &Vec<String>, upto: usize, id: &[char]) -> (b: bool)
    requires
        upto <= v@.len(),
    ensures
        b == ids_v(v@).take(upto as int).contains(id@),
{
    let ghost iv = ids_v(v@).take(upto as int);
    let mut i: usize = 0;
    while i < upto
        invariant
            i <= upto <= v@.len(),
            iv == ids_v(v@).take(upto as int),
            forall|q: int| 0 <= q < i ==> iv[q] != id@,
        decreases upto - i,
    {
        assert(iv[i as int] == v@[i as int]@);
        if chars_eq(chars_of(v[i].as_str()).as_slice(), id) {
            return true;
        }
        i += 1;
    }
    false
}

impl Paging {
    /// Paging from the start, nothing seen.
    pub fn new() -> (p: Paging)
        ensures
            p.seen@.len() == 0,
            p.offset == 0,
    {
        Paging { seen: Vec::new(), offset: 0 }
    }

    /// Takes a fetched page, given by its items' ids in order: returns the
    /// positions of the items not seen before (a repeat within the page
    /// counts once, first), notes their ids, and returns the offset of the
    /// next page to fetch, or `None` when paging stops: on a short page, or
    /// a page that brought nothing new (a server that ignores the offset
    /// repeats its first page).
    pub fn take_page(&mut self, ids: &[String]) -> (r: (Vec<usize>, Option<usize>))
        ensures
            r.0@.map_values(|i: usize| i as int) == fresh_positions(ids_v(old(self).seen@), ids_v(ids@), ids@.len() as int),
            ids_v(final(self).seen@) == ids_v(old(self).seen@) + r.0@.map_values(|i: usize| ids@[i as int]@),
            match r.1 {
                Some(o) => ids@.len() >= PAGE_SIZE && r.0@.len() > 0 && o == old(self).offset + ids@.len()
                    && final(self).offset == o,
                None => ids@.len() < PAGE_SIZE || r.0@.len() == 0 || old(self).offset + ids@.len() > usize::MAX,
            },
    {
        let ghost s0 = ids_v(self.seen@);
        let ghost iv = ids_v(ids@);
        let n0 = self.seen.len();
        let mut fresh: Vec<usize> = Vec::new();
        let mut i: usize = 0;
        while i < ids.len()
            invariant
                i <= ids@.len(),
                n0 == s0.len(),
                iv == ids_v(ids@),
                s0 == ids_v(old(self).seen@),
                self.offset == old(self).offset,
                fresh@.map_values(|i: usize| i as int) == fresh_positions(s0, iv, i as int),
                forall|q: int| 0 <= q < fresh@.len() ==> fresh@[q] < i,
                ids_v(self.seen@) == s0 + fresh@.map_values(|k: usize| ids@[k as int]@),
            decreases ids@.len() - i,
        {
            let id = chars_of(ids[i].as_str());
            assert(iv[i as int] == ids@[i as int]@);
            let seen_before = listed(&self.seen, self.seen.len(), id.as_slice());
            proof {
                let sv = ids_v(self.seen@);
                assert(sv.take(sv.len() as int) =~= sv);
                let fp = fresh_positions(s0, iv, i as int);
                let fv = fresh@.map_values(|k: usize| ids@[k as int]@);
                assert(fv.len() == fp.len());
                assert forall|q: int| 0 <= q < fv.len() implies #[trigger] fv[q] == iv[fp[q]] by {
                    assert(fresh@.map_values(|i: usize| i as int)[q] == fresh@[q] as int);
                    assert(iv[fresh@[q] as int] == ids@[fresh@[q] as int]@);
                }
                if fresh_at(s0, iv, i as int) {
                    if sv.contains(iv[i as int]) {
                        let q = choose|q: int| 0 <= q < sv.len() && sv[q] == iv[i as int];
                        if q < s0.len() {
                            assert(sv[q] == s0[q]);
                        } else {
                            assert(sv[q] == fv[q - s0.len()]);
                            assert(fresh@[q - s0.len()] < i);
                            assert(fp[q - s0.len()] == fresh@[q - s0.len()] as int);
                        }
                    }
                } else if s0.contains(iv[i as int]) {
                    let q = choose|q: int| 0 <= q < s0.len() && s0[q] == iv[i as int];
                    assert(sv[q] == s0[q]);
                } else {
                    lemma_fresh_covers(s0, iv, i as int, iv[i as int]);
                    let p = choose|p: int| 0 <= p < fp.len() && iv[fp[p]] == iv[i as int];
                    assert(sv[s0.len() + p] == fv[p]);
                }
            }
            let is_fresh = !seen_before;
            assert(is_fresh == fresh_at(s0, iv, i as int));
            if is_fresh {
                let ghost f0 = fresh@;
                let ghost sv0 = ids_v(self.seen@);
                fresh.push(i);
                self.seen.push(ids[i].clone());
                assert(ids_v(self.seen@) =~= sv0.push(ids@[i as int]@));
                assert(fresh@.map_values(|i: usize| i as int) =~= f0.map_values(|i: usize| i as int).push(i as int));
                assert(fresh@.map_values(|k: usize| ids@[k as int]@) =~= f0.map_values(|k: usize| ids@[k as int]@).push(
                    ids@[i as int]@,
                ));
            }
            i += 1;
        }
        let n = ids.len();
        if n < PAGE_SIZE || fresh.len() == 0 {
            return (fresh, None);
        }
        match self.offset.checked_add(n) {
            Some(o) => {
                self.offset = o;
                (fresh, Some(o))
            },
            None => (fresh, None),
        }
    }
}

// ---------------------------------------------------------------------------
// Mapping a server track's names
// ---------------------------------------------------------------------------

/// An `{ id, name }` entry of a track's artists.
#[derive(Debug, Clone, PartialEq, Eq)]
pub struct ArtistRef {
    pub id: String,
    pub name: String,
}

/// A `{ name }` entry of a track's genres.
#[derive(Debug, Clone, PartialEq, Eq)]
pub struct ItemGenre {
    pub name: String,
}

/// An artist as the server lists it.
#[derive(Debug, Clone, PartialEq, Eq)]
pub struct ArtistId3 {
    pub id: String,
    pub name: String,
    pub cover_art: Option<String>,
    pub album_count: i64,
    pub starred: Option<String>,
    pub music_brainz_id: Option<String>,
}

pub open spec fn opt_s(o: Option<String>) -> Option<Seq<char>> {
    match o {
        Some(s) => Some(s@),
        None => None,
    }
}

/// The trimmed text of `f` when it is not blank.
pub open spec fn nonblank(f: Option<Seq<char>>) -> Option<Seq<char>> {
    match f {
        Some(x) => if trim(x).len() > 0 {
            Some(trim(x))
        } else {
            None
        },
        None => None,
    }
}

/// A list of names as one multi-value field: the trimmed, non-blank names
/// joined with "; ", or the fallback (trimmed, when not blank) when there
/// are none.
pub open spec fn names_field(names: Seq<Seq<char>>, fallback: Option<Seq<char>>) -> Option<Seq<char>> {
    let kept = crate::tags::nonempty_trimmed(names);
    if kept.len() == 0 {
        nonblank(fallback)
    } else {
        Some(joined_values(kept))
    }
}

/// The trimmed, non-blank names of `names` (see `nonempty_trimmed`).
fn kept_names(names: &Vec<String>) -> (r: Vec<String>)
    ensures
        r@.map_values(|s: String| s@) == crate::tags::nonempty_trimmed(names@.map_values(|s: String| s@)),
{
    let ghost nv = names@.map_values(|s: String| s@);
    let mut out: Vec<String> = Vec::new();
    let mut i: usize = 0;
    while i < names.len()
        invariant
            i <= names@.len(),
            nv == names@.map_values(|s: String| s@),
            out@.map_values(|s: String| s@) == crate::tags::nonempty_trimmed(nv.take(i as int)),
        decreases names@.len() - i,
    {
        assert(nv.take(i + 1).drop_last() =~= nv.take(i as int));
        assert(nv.take(i + 1).last() == names@[i as int]@);
        let t = trim_chars(chars_of(names[i].as_str()).as_slice());
        if t.len() > 0 {
            let ghost o = out@.map_values(|s: String| s@);
            out.push(string_of(t.as_slice()));
            assert(out@.map_values(|s: String| s@) =~= o.push(t@));
        }
        i += 1;
    }
    assert(nv.take(i as int) =~= nv);
    out
}

fn names_field_exec(names: &Vec<String>, fallback: Option<&str>) -> (r: Option<String>)
    ensures
        opt_s(r) == names_field(names@.map_values(|s: String| s@), match fallback {
            Some(f) => Some(f@),
            None => None,
        }),
{
    let kept = kept_names(names);
    if kept.len() == 0 {
        match fallback {
            Some(f) => {
                let t = trim_chars(chars_of(f).as_slice());
                if t.len() > 0 {
                    Some(string_of(t.as_slice()))
                } else {
                    None
                }
            },
            None => None,
        }
    } else {
        Some(join_multi_value(kept.as_slice()))
    }
}

/// A track's artists as one field (see `names_field`), from its artist
/// entries, falling back to the single artist text.
pub fn artist_names(refs: &[ArtistRef], fallback: Option<&str>) -> (r: Option<String>)
    ensures
        opt_s(r) == names_field(refs@.map_values(|a: ArtistRef| a.name@), match fallback {
            Some(f) => Some(f@),
            None => None,
        }),
{
    let mut names: Vec<String> = Vec::new();
    let mut i: usize = 0;
    while i < refs.len()
        invariant
            i <= refs@.len(),
            names@.map_values(|s: String| s@) == refs@.take(i as int).map_values(|a: ArtistRef| a.name@),
        decreases refs@.len() - i,
    {
        let ghost n0 = names@.map_values(|s: String| s@);
        names.push(refs[i].name.clone());
        assert(names@.map_values(|s: String| s@) =~= n0.push(refs@[i as int].name@));
        assert(refs@.take(i + 1).map_values(|a: ArtistRef| a.name@) =~= refs@.take(i as int).map_values(
            |a: ArtistRef| a.name@,
        ).push(refs@[i as int].name@));
        i += 1;
    }
    assert(refs@.take(i as int) =~= refs@);
    names_field_exec(&names, fallback)
}

/// A track's genre: its genre text when it has one, else its genre entries
/// (trimmed, non-blank) joined with "; ", else none.
pub fn genre_of(genre: &Option<String>, genres: &[ItemGenre]) -> (r: Option<String>)
    ensures
        opt_s(r) == match opt_s(*genre) {
            Some(g) => Some(g),
            None => names_field(genres@.map_values(|g: ItemGenre| g.name@), None),
        },
{
    match genre {
        Some(g) => Some(g.clone()),
        None => {
            let mut names: Vec<String> = Vec::new();
            let mut i: usize = 0;
            while i < genres.len()
                invariant
                    i <= genres@.len(),
                    names@.map_values(|s: String| s@) == genres@.take(i as int).map_values(|g: ItemGenre| g.name@),
                decreases genres@.len() - i,
            {
                let ghost n0 = names@.map_values(|s: String| s@);
                names.push(genres[i].name.clone());
                assert(names@.map_values(|s: String| s@) =~= n0.push(genres@[i as int].name@));
                assert(genres@.take(i + 1).map_values(|g: ItemGenre| g.name@) =~= genres@.take(i as int).map_values(
                    |g: ItemGenre| g.name@,
                ).push(genres@[i as int].name@));
                i += 1;
            }
            assert(genres@.take(i as int) =~= genres@);
            names_field_exec(&names, None)
        },
    }
}

/// A track's title: its title, or, when that is blank, the stem of its
/// path's file name.
pub fn title_of(title: &str, path: Option<&str>) -> (r: Option<String>)
    ensures
        opt_s(r) == if trim(title@).len() > 0 {
            Some(title@)
        } else {
            match path {
                Some(p) => match file_name(p@) {
                    Some(n) => Some(name_stem(n)),
                    None => None,
                },
                None => None,
            }
        },
{
    if trim_chars(chars_of(title).as_slice()).len() > 0 {
        return Some(string_of(chars_of(title).as_slice()));
    }
    match path {
        Some(p) => match file_name_of(chars_of(p).as_slice()) {
            Some(n) => Some(string_of(stem_of(n.as_slice()).as_slice())),
            None => None,
        },
        None => None,
    }
}

// ---------------------------------------------------------------------------
// Applying a track
// ---------------------------------------------------------------------------

/// The library's song at a track's address, as found before the sync.
#[derive(Debug)]
pub struct ExistingSong {
    pub id: i64,
    pub unavailable: bool,
    pub art_automatic: Option<String>,
}

/// How a written track counts in the sync's totals.
#[derive(Debug, Clone, Copy, PartialEq, Eq, Structural)]
pub enum TrackOutcome {
    Added,
    Updated,
    Unchanged,
}

/// What syncing a track does to its song.
#[derive(Debug)]
pub enum TrackWrite {
    /// Leave the song as it is.
    Keep { id: i64 },
    /// Write the song (insert or update) with artwork `art`.
    Write { art: Option<String>, outcome: TrackOutcome },
}

/// The track's metadata differs from what the last sync recorded: no
/// fingerprint was recorded, or another one.
pub fn fingerprint_changed(cached: Option<&str>, fingerprint: &str) -> (b: bool)
    ensures
        b == match cached {
            Some(c) => c@ != fingerprint@,
            None => true,
        },
{
    match cached {
        Some(c) => !chars_eq(chars_of(c).as_slice(), chars_of(fingerprint).as_slice()),
        None => true,
    }
}

/// A found song needs the album's artwork: the album has some and the song
/// none yet.
pub open spec fn needs_art(existing: Option<ExistingSong>, album_art: Option<Seq<char>>) -> bool {
    &&& album_art is Some
    &&& existing matches Some(e) && e.art_automatic is None
}

/// What syncing a track does: an unchanged, available song that needs no
/// artwork is kept; otherwise the song is written with the album's
/// artwork (or the artwork it had), counting as added when it is new, as
/// updated when its metadata changed or it was unavailable, and as
/// neither when only its artwork is filled in.
pub fn track_write(existing: Option<&ExistingSong>, metadata_changed: bool, album_art: Option<&str>) -> (w: TrackWrite)
    ensures
        ({
            let ex = match existing {
                Some(e) => Some(*e),
                None => None,
            };
            let art = match album_art {
                Some(a) => Some(a@),
                None => None,
            };
            match w {
                TrackWrite::Keep { id } => (ex matches Some(e) && !metadata_changed && !e.unavailable && !needs_art(ex, art)
                    && id == e.id),
                TrackWrite::Write { art: written, outcome } => {
                    &&& !(ex matches Some(e) && !metadata_changed && !e.unavailable && !needs_art(ex, art))
                    &&& opt_s(written) == match art {
                        Some(a) => Some(a),
                        None => match ex {
                            Some(e) => opt_s(e.art_automatic),
                            None => None,
                        },
                    }
                    &&& outcome == match ex {
                        None => TrackOutcome::Added,
                        Some(e) => if metadata_changed || e.unavailable {
                            TrackOutcome::Updated
                        } else {
                            TrackOutcome::Unchanged
                        },
                    }
                },
            }
        }),
{
    let needs = album_art.is_some() && match existing {
        Some(e) => e.art_automatic.is_none(),
        None => false,
    };
    match existing {
        Some(e) => {
            if !metadata_changed && !e.unavailable && !needs {
                return TrackWrite::Keep { id: e.id };
            }
        },
        None => {},
    }
    let art = match album_art {
        Some(a) => Some(string_of(chars_of(a).as_slice())),
        None => match existing {
            Some(e) => match &e.art_automatic {
                Some(x) => Some(x.clone()),
                None => None,
            },
            None => None,
        },
    };
    let outcome = match existing {
        None => TrackOutcome::Added,
        Some(e) => if metadata_changed || e.unavailable {
            TrackOutcome::Updated
        } else {
            TrackOutcome::Unchanged
        },
    };
    TrackWrite::Write { art, outcome }
}

fn id_in(ids: &[i64], id: i64) -> (b: bool)
    ensures
        b == ids@.contains(id),
{
    let mut i: usize = 0;
    while i < ids.len()
        invariant
            i <= ids@.len(),
            forall|k: int| 0 <= k < i ==> ids@[k] != id,
        decreases ids@.len() - i,
    {
        if ids[i] == id {
            return true;
        }
        i += 1;
    }
    false
}

/// The songs of the server no longer listed: those of `candidates` (its
/// available songs) not among `seen`, in order.
pub fn stale_songs(candidates: &[i64], seen: &[i64]) -> (r: Vec<i64>)
    ensures
        r@ == candidates@.filter(|id: i64| !seen@.contains(id)),
{
    let ghost pred = |id: i64| !seen@.contains(id);
    let mut out: Vec<i64> = Vec::new();
    let mut i: usize = 0;
    while i < candidates.len()
        invariant
            i <= candidates@.len(),
            pred == (|id: i64| !seen@.contains(id)),
            out@ == candidates@.take(i as int).filter(pred),
        decreases candidates@.len() - i,
    {
        proof {
            let t = candidates@.take(i + 1);
            assert(t =~= candidates@.take(i as int).push(candidates@[i as int]));
            candidates@.take(i as int).lemma_filter_push(candidates@[i as int], pred);
        }
        let id = candidates[i];
        let found = id_in(seen, id);
        if !found {
            out.push(id);
        }
        i += 1;
    }
    assert(candidates@.take(i as int) =~= candidates@);
    out
}

/// What a sync did to the library.
#[derive(Debug)]
pub struct SubsonicSyncStats {
    pub added: usize,
    pub updated: usize,
    pub removed: usize,
}

impl SubsonicSyncStats {
    /// Nothing done yet.
    pub fn new() -> (s: SubsonicSyncStats)
        ensures
            s.added == 0 && s.updated == 0 && s.removed == 0,
    {
        SubsonicSyncStats { added: 0, updated: 0, removed: 0 }
    }

    /// Counts a written track.
    pub fn record(&mut self, outcome: TrackOutcome)
        requires
            old(self).added < usize::MAX,
            old(self).updated < usize::MAX,
        ensures
            final(self).added == old(self).added + if outcome == TrackOutcome::Added { 1int } else { 0int },
            final(self).updated == old(self).updated + if outcome == TrackOutcome::Updated { 1int } else { 0int },
            final(self).removed == old(self).removed,
    {
        match outcome {
            TrackOutcome::Added => {
                self.added = self.added + 1;
            },
            TrackOutcome::Updated => {
                self.updated = self.updated + 1;
            },
            TrackOutcome::Unchanged => {},
        }
    }
}

/// The first server of `servers` (id, whether it reports plays) with id
/// `id`.
pub open spec fn server_reports(servers: Seq<(i64, bool)>, id: i64) -> Option<bool>
    decreases servers.len(),
{
    if servers.len() == 0 {
        None
    } else {
        match server_reports(servers.drop_last(), id) {
            Some(b) => Some(b),
            None => if servers.last().0 == id {
                Some(servers.last().1)
            } else {
                None
            },
        }
    }
}

/// Where to report a track as playing now: its server and remote id, when
/// `path` is a Subsonic track address on a saved server that reports
/// plays; `None` otherwise.
pub fn report_now_playing(path: &str, servers: &[(i64, bool)]) -> (r: Option<(i64, String)>)
    ensures
        match crate::subsonic::parsed_track_uri(path@) {
            Some((sid, tid)) => match r {
                Some((a, b)) => a == sid && b@ == tid && server_reports(servers@, sid) == Some(true),
                None => server_reports(servers@, sid) != Some(true),
            },
            None => r is None,
        },
{
    let (sid, tid) = match crate::subsonic::parse_track_uri(path) {
        Some(p) => p,
        None => {
            return None;
        },
    };
    let mut found: Option<bool> = None;
    let mut i: usize = 0;
    while i < servers.len()
        invariant
            i <= servers@.len(),
            found == server_reports(servers@.take(i as int), sid),
        decreases servers@.len() - i,
    {
        assert(servers@.take(i + 1).drop_last() =~= servers@.take(i as int));
        assert(servers@.take(i + 1).last() == servers@[i as int]);
        if found.is_none() && servers[i].0 == sid {
            found = Some(servers[i].1);
        }
        i += 1;
    }
    assert(servers@.take(i as int) =~= servers@);
    match found {
        Some(true) => Some((sid, tid)),
        _ => None,
    }
}


/// A queued play is dropped after this many failed attempts.
pub const MAX_QUEUE_ATTEMPTS: i64 = 20;

/// How submitting a queued play went.
#[derive(Debug, Clone, Copy, PartialEq, Eq, Structural)]
pub enum PlayOutcome {
    /// The server took it.
    Accepted,
    /// The server answered with an API error of this code.
    ApiError { code: i64 },
    /// The request did not get through.
    Failed,
}

/// What to do with a queued play after submitting it.
#[derive(Debug, Clone, Copy, PartialEq, Eq, Structural)]
pub enum QueueAction {
    /// Delete it (sent), and go on with the next one.
    Sent,
    /// Delete it (it can never succeed, or it failed too often), and go on.
    Dropped,
    /// Count one more attempt and stop: the rest wait for the next report.
    Retry,
}

/// The API errors after which a play can never succeed: a missing
/// parameter (10) or an unknown track (70).
pub open spec fn permanent_error(code: i64) -> bool {
    code == 10 || code == 70
}

/// See `queued_play_action`.
pub open spec fn queue_action(attempts: i64, outcome: PlayOutcome) -> QueueAction {
    match outcome {
        PlayOutcome::Accepted => QueueAction::Sent,
        _ => if (outcome matches PlayOutcome::ApiError { code } && permanent_error(code)) || attempts + 1
            >= MAX_QUEUE_ATTEMPTS {
            QueueAction::Dropped
        } else {
            QueueAction::Retry
        },
    }
}

/// The queue of plays a server has not taken yet is sent oldest first
/// after every successful report. For one play with `attempts` failures
/// so far whose submission came back `outcome`: sent ones are deleted;
/// a permanent API error or the last allowed attempt drops it; any other
/// failure counts the attempt and stops the drain.
pub fn queued_play_action(attempts: i64, outcome: PlayOutcome) -> (a: QueueAction)
    ensures
        a == queue_action(attempts, outcome),
{
    match outcome {
        PlayOutcome::Accepted => QueueAction::Sent,
        PlayOutcome::ApiError { code } if code == 10 || code == 70 => QueueAction::Dropped,
        _ => if attempts >= MAX_QUEUE_ATTEMPTS - 1 {
            QueueAction::Dropped
        } else {
            QueueAction::Retry
        },
    }
}

} // verus!
