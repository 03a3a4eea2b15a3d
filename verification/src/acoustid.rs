//! What an AcoustID match suggests for a track's tags.
use vstd::prelude::*;
use crate::scrobbler::{parse_u32, parse_u32_spec};
use crate::text::{chars_of, split_once_char, split_once_at_char};

verus! {

/// A release date as AcoustID gives it: a bare year, or a date text.
#[derive(Debug)]
pub enum AcoustIdDate {
    Year(u32),
    Full(String),
}

/// A release of a matched recording.
#[derive(Debug)]
pub struct AcoustIdRelease {
    pub title: Option<String>,
    pub date: Option<AcoustIdDate>,
}

/// A matched recording: its title, artist names, release-group titles and
/// releases, each list when AcoustID sent one.
#[derive(Debug)]
pub struct AcoustIdRecording {
    pub title: Option<String>,
    pub artists: Option<Vec<String>>,
    pub release_groups: Option<Vec<Option<String>>>,
    pub releases: Option<Vec<AcoustIdRelease>>,
}

/// Tags suggested for a track; a `None` field means no value came back,
/// not that the field should be cleared.
#[derive(Debug)]
pub struct SuggestedTags {
    pub title: Option<String>,
    pub artist: Option<String>,
    pub album: Option<String>,
    pub year: Option<u32>,
}

pub open spec fn ov(o: Option<String>) -> Option<Seq<char>> {
    match o {
        Some(s) => Some(s@),
        None => None,
    }
}

/// The year a date gives: the bare year, or the part of the date text
/// before its first '-' read as a number.
pub open spec fn year_of(d: AcoustIdDate) -> Option<u32> {
    match d {
        AcoustIdDate::Year(y) => Some(y),
        AcoustIdDate::Full(s) => parse_u32_spec(
            match split_once_char(s@, '-') {
                Some(p) => p.0,
                None => s@,
            },
        ),
    }
}

/// The first year the releases give, in order.
pub open spec fn first_year(rs: Seq<AcoustIdRelease>) -> Option<u32>
    decreases rs.len(),
{
    if rs.len() == 0 {
        None
    } else {
        match first_year(rs.drop_last()) {
            Some(y) => Some(y),
            None => match rs.last().date {
                Some(d) => year_of(d),
                None => None,
            },
        }
    }
}

fn year_of_exec(d: &AcoustIdDate) -> (r: Option<u32>)
    ensures
        r == year_of(*d),
{
    match d {
        AcoustIdDate::Year(y) => Some(*y),
        AcoustIdDate::Full(s) => {
            let c = chars_of(s.as_str());
            let head = match split_once_at_char(c.as_slice(), '-') {
                Some((a, _)) => a,
                None => c,
            };
            parse_u32(head.as_slice())
        },
    }
}

fn copy(o: &Option<String>) -> (r: Option<String>)
    ensures
        ov(r) == ov(*o),
{
    match o {
        Some(s) => Some(s.clone()),
        None => None,
    }
}

/// What a matched recording suggests: its title; its first artist; the
/// title of its first release group, else of its first release; and the
/// first year its releases give.
pub fn suggested_tags(rec: &AcoustIdRecording) -> (t: SuggestedTags)
    ensures
        ov(t.title) == ov(rec.title),
        ov(t.artist) == match rec.artists {
            Some(a) => if a@.len() > 0 {
                Some(a@[0]@)
            } else {
                None
            },
            None => None,
        },
        ov(t.album) == match (match rec.release_groups {
            Some(g) => if g@.len() > 0 {
                ov(g@[0])
            } else {
                None
            },
            None => None,
        }) {
            Some(x) => Some(x),
            None => match rec.releases {
                Some(r) => if r@.len() > 0 {
                    ov(r@[0].title)
                } else {
                    None
                },
                None => None,
            },
        },
        t.year == match rec.releases {
            Some(r) => first_year(r@),
            None => None,
        },
{
    let artist = match &rec.artists {
        Some(a) => if a.len() > 0 {
            Some(a[0].clone())
        } else {
            None
        },
        None => None,
    };
    let from_group = match &rec.release_groups {
        Some(g) => if g.len() > 0 {
            copy(&g[0])
        } else {
            None
        },
        None => None,
    };
    let album = match from_group {
        Some(x) => Some(x),
        None => match &rec.releases {
            Some(r) => if r.len() > 0 {
                copy(&r[0].title)
            } else {
                None
            },
            None => None,
        },
    };
    let year = match &rec.releases {
        Some(r) => {
            let mut found: Option<u32> = None;
            let mut i: usize = 0;
            while i < r.len()
                invariant
                    i <= r@.len(),
                    found == first_year(r@.take(i as int)),
                decreases r@.len() - i,
            {
                assert(r@.take(i + 1).drop_last() =~= r@.take(i as int));
                assert(r@.take(i + 1).last() == r@[i as int]);
                if found.is_none() {
                    found = match &r[i].date {
                        Some(d) => year_of_exec(d),
                        None => None,
                    };
                }
                i += 1;
            }
            assert(r@.take(i as int) =~= r@);
            found
        },
        None => None,
    };
    SuggestedTags { title: copy(&rec.title), artist, album, year }
}


/// The error text when no AcoustID key is configured; the front end
/// matches on it to ask for a key.
pub const NO_API_KEY: &'static str = "NO_API_KEY";

/// The AcoustID key to query with: the one given, else the one from the
/// environment; an error when the key chosen so is missing or blank (a
/// blank given key does not fall back to the environment).
pub open spec fn chosen_key(given: Option<Seq<char>>, env: Option<Seq<char>>) -> Result<Seq<char>, Seq<char>> {
    let k = match given {
        Some(g) => Some(g),
        None => env,
    };
    match k {
        Some(v) => if crate::text::trim(v).len() > 0 {
            Ok(v)
        } else {
            Err("NO_API_KEY"@)
        },
        None => Err("NO_API_KEY"@),
    }
}

/// See `chosen_key`.
pub fn acoustid_key(given: Option<String>, env: Option<String>) -> (r: Result<String, String>)
    ensures
        match (r, chosen_key(crate::parsers::opt_view(given), crate::parsers::opt_view(env))) {
            (Ok(a), Ok(b)) => a@ == b,
            (Err(a), Err(b)) => a@ == b,
            _ => false,
        },
{
    let k = match given {
        Some(g) => Some(g),
        None => env,
    };
    match k {
        Some(v) => {
            let t = crate::text::trim_chars(chars_of(v.as_str()).as_slice());
            if t.len() > 0 {
                Ok(v)
            } else {
                Err(NO_API_KEY.to_owned())
            }
        },
        None => Err(NO_API_KEY.to_owned()),
    }
}

} // verus!
