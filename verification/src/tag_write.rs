//! What writing a song's tags sets: the edit the user asked for, turned
//! into the fields to write, each multi-value field as its separate values.
use vstd::prelude::*;
use crate::tags::{multi_values, parse_multi_value, string_views};
use crate::text::{chars_of, string_of, trim, trim_chars};

verus! {

/// The tag fields the user edits (all but the BPM, which is a float and is
/// handled around the library).
#[derive(Debug)]
pub struct TagEdit {
    pub title: String,
    pub titlesort: Option<String>,
    pub artist: String,
    pub artistsort: Option<String>,
    pub album: String,
    pub albumsort: Option<String>,
    pub album_artist: String,
    pub album_artist_sort: Option<String>,
    pub composer: String,
    pub composersort: Option<String>,
    pub genre: String,
    pub track: Option<u32>,
    pub disc: Option<u32>,
    pub year: Option<u32>,
    pub grouping: String,
    pub initial_key: String,
    pub compilation: bool,
}

/// What is written. A sort field that is `None` is removed; `track`,
/// `disc` and `year` that are `None` are removed too. Every other field is
/// written as it stands, the multi-value ones as one item per value.
#[derive(Debug)]
pub struct TagPlan {
    pub title: String,
    pub album: String,
    pub title_sort: Option<String>,
    pub artist_sort: Option<String>,
    pub album_sort: Option<String>,
    pub album_artist_sort: Option<String>,
    pub composer_sort: Option<String>,
    pub artists: Vec<String>,
    pub genres: Vec<String>,
    pub album_artists: Vec<String>,
    pub composers: Vec<String>,
    pub grouping: String,
    pub initial_key: String,
    pub compilation: String,
    pub track: Option<u32>,
    pub disc: Option<u32>,
    pub year: Option<u16>,
}

pub open spec fn opt_view(o: Option<String>) -> Option<Seq<char>> {
    match o {
        Some(s) => Some(s@),
        None => None,
    }
}

/// A sort field as written: trimmed, and removed when that leaves nothing.
pub open spec fn sort_value(o: Option<Seq<char>>) -> Option<Seq<char>> {
    match o {
        Some(v) => if trim(v).len() > 0 {
            Some(trim(v))
        } else {
            None
        },
        None => None,
    }
}

/// See `sort_value`.
fn sort_field(o: &Option<String>) -> (r: Option<String>)
    ensures
        opt_view(r) == sort_value(opt_view(*o)),
{
    match o {
        Some(v) => {
            let t = trim_chars(chars_of(v.as_str()).as_slice());
            if t.len() > 0 {
                Some(string_of(t.as_slice()))
            } else {
                None
            }
        },
        None => None,
    }
}

/// The fields to write for `edit`: title, album, grouping and initial key
/// as given; each sort field trimmed (removed when empty); artist, genre,
/// album artist and composer split into their `;`-separated values; the
/// compilation flag as `"1"` or `"0"`; track, disc and year as given (the
/// year cut to 16 bits, as the tag's timestamp holds it).
pub fn tag_edit_plan(edit: &TagEdit) -> (p: TagPlan)
    ensures
        p.title@ == edit.title@,
        p.album@ == edit.album@,
        opt_view(p.title_sort) == sort_value(opt_view(edit.titlesort)),
        opt_view(p.artist_sort) == sort_value(opt_view(edit.artistsort)),
        opt_view(p.album_sort) == sort_value(opt_view(edit.albumsort)),
        opt_view(p.album_artist_sort) == sort_value(opt_view(edit.album_artist_sort)),
        opt_view(p.composer_sort) == sort_value(opt_view(edit.composersort)),
        string_views(p.artists@) == multi_values(edit.artist@),
        string_views(p.genres@) == multi_values(edit.genre@),
        string_views(p.album_artists@) == multi_values(edit.album_artist@),
        string_views(p.composers@) == multi_values(edit.composer@),
        p.grouping@ == edit.grouping@,
        p.initial_key@ == edit.initial_key@,
        p.compilation@ == (if edit.compilation {
            seq!['1']
        } else {
            seq!['0']
        }),
        p.track == edit.track,
        p.disc == edit.disc,
        p.year == (match edit.year {
            Some(y) => Some(y as u16),
            None => None,
        }),
{
    let mut flag: Vec<char> = Vec::new();
    flag.push(if edit.compilation {
        '1'
    } else {
        '0'
    });
    TagPlan {
        title: string_of(chars_of(edit.title.as_str()).as_slice()),
        album: string_of(chars_of(edit.album.as_str()).as_slice()),
        title_sort: sort_field(&edit.titlesort),
        artist_sort: sort_field(&edit.artistsort),
        album_sort: sort_field(&edit.albumsort),
        album_artist_sort: sort_field(&edit.album_artist_sort),
        composer_sort: sort_field(&edit.composersort),
        artists: parse_multi_value(edit.artist.as_str()),
        genres: parse_multi_value(edit.genre.as_str()),
        album_artists: parse_multi_value(edit.album_artist.as_str()),
        composers: parse_multi_value(edit.composer.as_str()),
        grouping: string_of(chars_of(edit.grouping.as_str()).as_slice()),
        initial_key: string_of(chars_of(edit.initial_key.as_str()).as_slice()),
        compilation: string_of(flag.as_slice()),
        track: edit.track,
        disc: edit.disc,
        year: match edit.year {
            Some(y) => Some(#[verifier::truncate] (y as u16)),
            None => None,
        },
    }
}

} // verus!
