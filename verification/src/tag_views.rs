//! What the Genres views show: every tag with its song count, the emergent
//! graph of main genres and their sub-genres, and the curated hierarchy of
//! cards and chips with counts.
use vstd::prelude::*;
use crate::ordering::{entries_v, lemma_ordered_members, order_entries, ordered, Entry};
use crate::tags::{TagAssignmentRow, TagGroupRow, TagManager};
use crate::tag_tree::{
    assign_v, assigns_v, chars_v, group_v, groups_v, keys_of, keys_v, lemma_keys, lemma_occurrences_bound,
    lemma_total_prefix, lists_v, occurrences, total_values, usage_exec, usage_of, usage_v, AssignV, GroupV,
};
use crate::text::{ascii_lower_seq, ascii_lowercase_chars, chars_eq, chars_of, lowercase, to_lowercase};

verus! {

/// A tag in use, with how many times songs carry it.
#[derive(Debug, Clone, PartialEq, Eq)]
pub struct Tag {
    pub name: String,
    pub song_count: i64,
}

/// A sub-genre of a main genre in the emergent graph, with its count.
#[derive(Debug, Clone, PartialEq, Eq)]
pub struct TagCount {
    pub name: String,
    pub song_count: i64,
}

/// A main genre of the emergent graph: how many songs have it first, and
/// the values that follow it on those songs.
#[derive(Debug, Clone, PartialEq, Eq)]
pub struct GenreGroup {
    pub main_tag: String,
    pub song_count: i64,
    pub children: Vec<TagCount>,
}

/// A chip of the curated hierarchy, with its count.
#[derive(Debug, Clone, PartialEq, Eq)]
pub struct TagGroupChild {
    pub name: String,
    pub song_count: i64,
}

/// A card of the curated hierarchy, with its count and its chips.
#[derive(Debug, Clone, PartialEq, Eq)]
pub struct TagGroup {
    pub name: String,
    pub color_index: i32,
    pub song_count: i64,
    pub children: Vec<TagGroupChild>,
}

// ---------------------------------------------------------------------------
// Counting
// ---------------------------------------------------------------------------

/// How many values with key `k` the lists hold, at any position.
pub open spec fn tag_count(lists: Seq<Seq<Seq<char>>>, k: Seq<char>) -> nat
    decreases lists.len(),
{
    if lists.len() == 0 {
        0
    } else {
        tag_count(lists.drop_last(), k) + occurrences(lists.last(), k)
    }
}

proof fn lemma_tag_count_bound(lists: Seq<Seq<Seq<char>>>, k: Seq<char>)
    ensures
        tag_count(lists, k) <= total_values(lists),
    decreases lists.len(),
{
    if lists.len() > 0 {
        lemma_tag_count_bound(lists.drop_last(), k);
        lemma_occurrences_bound(lists.last(), k);
    }
}

/// The sort entries of the values in use: by key, first seen first.
pub open spec fn tally_entries(u: Seq<(Seq<char>, Seq<char>)>) -> Seq<Entry> {
    Seq::new(u.len(), |i: int| (0int, u[i].0, i))
}

pub open spec fn tally_item(lists: Seq<Seq<Seq<char>>>, u: Seq<(Seq<char>, Seq<char>)>, e: Entry) -> (
    Seq<char>,
    Seq<char>,
    int,
) {
    (u[e.2].0, u[e.2].1, tag_count(lists, u[e.2].0) as int)
}

/// Every value in use once per key (as first seen), with its count, ordered
/// by key: (key, value, count).
pub open spec fn tally(lists: Seq<Seq<Seq<char>>>) -> Seq<(Seq<char>, Seq<char>, int)> {
    let u = usage_of(lists);
    ordered(tally_entries(u)).map_values(|e: Entry| tally_item(lists, u, e))
}

pub open spec fn tally_v(r: Seq<(Vec<char>, String, i64)>) -> Seq<(Seq<char>, Seq<char>, int)> {
    r.map_values(|x: (Vec<char>, String, i64)| (x.0@, x.1@, x.2 as int))
}

/// How many of `row` have key `c`.
fn occurrences_exec(row: &Vec<Vec<char>>, c: &Vec<char>, Ghost(l): Ghost<Seq<Seq<char>>>) -> (n: usize)
    requires
        row@.map_values(|v: Vec<char>| v@) == l.map_values(|v: Seq<char>| lowercase(v)),
    ensures
        n == occurrences(l, c@),
{
    assert(row@.map_values(|v: Vec<char>| v@).len() == row@.len());
    assert(l.map_values(|v: Seq<char>| lowercase(v)).len() == l.len());
    let mut n: usize = 0;
    let mut j: usize = 0;
    while j < row.len()
        invariant
            j <= row@.len(),
            row@.len() == l.len(),
            row@.map_values(|v: Vec<char>| v@) == l.map_values(|v: Seq<char>| lowercase(v)),
            n == occurrences(l.take(j as int), c@),
            n <= j,
        decreases row@.len() - j,
    {
        assert(l.take(j + 1).drop_last() =~= l.take(j as int));
        assert(l.take(j + 1).last() == l[j as int]);
        assert(row@.map_values(|v: Vec<char>| v@)[j as int] == l.map_values(|v: Seq<char>| lowercase(v))[j as int]);
        if chars_eq(row[j].as_slice(), c.as_slice()) {
            n += 1;
        }
        j += 1;
    }
    assert(l.take(j as int) =~= l);
    n
}

/// How many values with key `c` the lists hold (see `tag_count`).
fn tag_count_exec(keys: &Vec<Vec<Vec<char>>>, c: &Vec<char>, Ghost(lv): Ghost<Seq<Seq<Seq<char>>>>) -> (n: usize)
    requires
        chars_v(keys@) == keys_v(lv),
        total_values(lv) < usize::MAX,
    ensures
        n == tag_count(lv, c@),
{
    proof {
        lemma_keys(keys@, lv);
    }
    let mut n: usize = 0;
    let mut i: usize = 0;
    while i < keys.len()
        invariant
            i <= keys@.len(),
            keys@.len() == lv.len(),
            chars_v(keys@) == keys_v(lv),
            total_values(lv) < usize::MAX,
            n == tag_count(lv.take(i as int), c@),
        decreases keys@.len() - i,
    {
        let ghost t = lv.take(i + 1);
        assert(t.drop_last() =~= lv.take(i as int));
        assert(t.last() == lv[i as int]);
        proof {
            lemma_keys(keys@, lv);
            lemma_tag_count_bound(t, c@);
            lemma_total_prefix(lv, i + 1);
        }
        let m = occurrences_exec(&keys[i], c, Ghost(lv[i as int]));
        n = n + m;
        i += 1;
    }
    assert(lv.take(i as int) =~= lv);
    n
}

/// Every value in use with its count, ordered by key (see `tally`).
fn tally_exec(lists: &[Vec<String>]) -> (r: Vec<(Vec<char>, String, i64)>)
    requires
        total_values(lists_v(lists@)) <= i64::MAX,
        total_values(lists_v(lists@)) < usize::MAX,
    ensures
        tally_v(r@) == tally(lists_v(lists@)),
{
    let ghost lv = lists_v(lists@);
    let keys = keys_of(lists);
    let u = usage_exec(lists, &keys);
    let ghost uv = usage_v(u@);
    assert(uv.len() == u@.len());
    let mut es: Vec<(i64, Vec<char>, usize)> = Vec::new();
    let mut i: usize = 0;
    while i < u.len()
        invariant
            i <= u@.len(),
            uv == usage_v(u@),
            uv.len() == u@.len(),
            es@.len() == i,
            forall|q: int| 0 <= q < i ==> (#[trigger] entries_v(es@)[q]) == (0int, uv[q].0, q),
        decreases u@.len() - i,
    {
        let ghost e0 = entries_v(es@);
        es.push((0, u[i].0.clone(), i));
        assert(entries_v(es@) =~= e0.push((0int, u@[i as int].0@, i as int)));
        assert(uv[i as int].0 == u@[i as int].0@);
        i += 1;
    }
    let ghost te = tally_entries(uv);
    assert(entries_v(es@) =~= te);
    let sorted = order_entries(es);
    let ghost os = ordered(te);
    proof {
        lemma_ordered_members(te);
    }
    let mut out: Vec<(Vec<char>, String, i64)> = Vec::new();
    let mut k: usize = 0;
    assert(entries_v(sorted@).len() == sorted@.len());
    while k < sorted.len()
        invariant
            k <= sorted@.len(),
            entries_v(sorted@) == os,
            os == ordered(te),
            os.len() == te.len(),
            te == tally_entries(uv),
            forall|q: int| 0 <= q < te.len() ==> te.contains(#[trigger] os[q]),
            uv == usage_v(u@),
            uv.len() == u@.len(),
            uv == usage_of(lv),
            chars_v(keys@) == keys_v(lv),
            total_values(lv) <= i64::MAX,
            total_values(lv) < usize::MAX,
            out@.len() == k,
            forall|q: int| 0 <= q < k ==> (#[trigger] tally_v(out@)[q]) == tally_item(lv, uv, os[q]),
        decreases sorted@.len() - k,
    {
        assert(os[k as int] == (sorted@[k as int].0 as int, sorted@[k as int].1@, sorted@[k as int].2 as int));
        assert(te.contains(os[k as int]));
        let ghost w = choose|w: int| 0 <= w < te.len() && te[w] == os[k as int];
        assert(te[w] == (0int, uv[w].0, w));
        let j = sorted[k].2;
        assert(j as int == w);
        assert(uv[j as int] == (u@[j as int].0@, u@[j as int].1@));
        proof {
            lemma_tag_count_bound(lv, u@[j as int].0@);
        }
        let n = tag_count_exec(&keys, &u[j].0, Ghost(lv));
        let ghost o0 = tally_v(out@);
        out.push((u[j].0.clone(), u[j].1.clone(), n as i64));
        assert(tally_v(out@) =~= o0.push((u@[j as int].0@, u@[j as int].1@, n as int)));
        k += 1;
    }
    assert(tally_v(out@) =~= os.map_values(|e: Entry| tally_item(lv, uv, e)));
    out
}

// ---------------------------------------------------------------------------
// The emergent genre graph
// ---------------------------------------------------------------------------

/// Each song's main genre, as a one-value list.
pub open spec fn heads(lists: Seq<Seq<Seq<char>>>) -> Seq<Seq<Seq<char>>>
    decreases lists.len(),
{
    if lists.len() == 0 {
        Seq::empty()
    } else {
        let r = heads(lists.drop_last());
        if lists.last().len() > 0 {
            r.push(seq![lists.last()[0]])
        } else {
            r
        }
    }
}

/// The values after the main genre, on each song whose main genre has key
/// `r`.
pub open spec fn tails_under(lists: Seq<Seq<Seq<char>>>, r: Seq<char>) -> Seq<Seq<Seq<char>>>
    decreases lists.len(),
{
    if lists.len() == 0 {
        Seq::empty()
    } else {
        let t = tails_under(lists.drop_last(), r);
        let l = lists.last();
        if l.len() > 0 && lowercase(l[0]) == r {
            t.push(l.drop_first())
        } else {
            t
        }
    }
}

/// The graph: each main genre (as first seen) with how many songs have it
/// first, and each value following it with its count, both ordered by key.
pub open spec fn genre_graph(lists: Seq<Seq<Seq<char>>>) -> Seq<(Seq<char>, int, Seq<(Seq<char>, int)>)> {
    tally(heads(lists)).map_values(
        |e: (Seq<char>, Seq<char>, int)|
            (e.1, e.2, tally(tails_under(lists, e.0)).map_values(|c: (Seq<char>, Seq<char>, int)| (c.1, c.2))),
    )
}

pub open spec fn tag_v(t: Tag) -> (Seq<char>, int) {
    (t.name@, t.song_count as int)
}

pub open spec fn tag_count_v(t: TagCount) -> (Seq<char>, int) {
    (t.name@, t.song_count as int)
}

pub open spec fn genre_group_v(g: GenreGroup) -> (Seq<char>, int, Seq<(Seq<char>, int)>) {
    (g.main_tag@, g.song_count as int, g.children@.map_values(|c: TagCount| tag_count_v(c)))
}

pub open spec fn graph_v(s: Seq<GenreGroup>) -> Seq<(Seq<char>, int, Seq<(Seq<char>, int)>)> {
    s.map_values(|g: GenreGroup| genre_group_v(g))
}

proof fn lemma_heads_total(lists: Seq<Seq<Seq<char>>>)
    ensures
        total_values(heads(lists)) <= total_values(lists),
    decreases lists.len(),
{
    if lists.len() > 0 {
        lemma_heads_total(lists.drop_last());
        let r = heads(lists.drop_last());
        if lists.last().len() > 0 {
            assert(r.push(seq![lists.last()[0]]).drop_last() =~= r);
        }
    }
}

proof fn lemma_tails_total(lists: Seq<Seq<Seq<char>>>, k: Seq<char>)
    ensures
        total_values(tails_under(lists, k)) <= total_values(lists),
    decreases lists.len(),
{
    if lists.len() > 0 {
        lemma_tails_total(lists.drop_last(), k);
        let t = tails_under(lists.drop_last(), k);
        let l = lists.last();
        if l.len() > 0 && lowercase(l[0]) == k {
            assert(t.push(l.drop_first()).drop_last() =~= t);
        }
    }
}

/// Each song's main genre (see `heads`).
fn heads_exec(lists: &[Vec<String>]) -> (r: Vec<Vec<String>>)
    ensures
        lists_v(r@) == heads(lists_v(lists@)),
{
    let ghost lv = lists_v(lists@);
    let mut out: Vec<Vec<String>> = Vec::new();
    let mut i: usize = 0;
    while i < lists.len()
        invariant
            i <= lists@.len(),
            lv == lists_v(lists@),
            lists_v(out@) == heads(lv.take(i as int)),
        decreases lists@.len() - i,
    {
        assert(lv.take(i + 1).drop_last() =~= lv.take(i as int));
        assert(lv.take(i + 1).last() == lv[i as int]);
        assert(lv[i as int] == lists@[i as int]@.map_values(|s: String| s@));
        if lists[i].len() > 0 {
            let ghost o = lists_v(out@);
            let one = vec![lists[i][0].clone()];
            assert(one@.map_values(|s: String| s@) =~= seq![lv[i as int][0]]);
            out.push(one);
            assert(lists_v(out@) =~= o.push(seq![lv[i as int][0]]));
        }
        i += 1;
    }
    assert(lv.take(i as int) =~= lv);
    out
}

/// The values after the main genre on songs whose main genre has key `r`
/// (see `tails_under`).
fn tails_under_exec(lists: &[Vec<String>], keys: &Vec<Vec<Vec<char>>>, r: &Vec<char>) -> (t: Vec<Vec<String>>)
    requires
        chars_v(keys@) == keys_v(lists_v(lists@)),
    ensures
        lists_v(t@) == tails_under(lists_v(lists@), r@),
{
    let ghost lv = lists_v(lists@);
    proof {
        lemma_keys(keys@, lv);
    }
    let mut out: Vec<Vec<String>> = Vec::new();
    let mut i: usize = 0;
    while i < lists.len()
        invariant
            i <= lists@.len(),
            lv == lists_v(lists@),
            keys@.len() == lv.len(),
            chars_v(keys@) == keys_v(lv),
            lists_v(out@) == tails_under(lv.take(i as int), r@),
        decreases lists@.len() - i,
    {
        assert(lv.take(i + 1).drop_last() =~= lv.take(i as int));
        assert(lv.take(i + 1).last() == lv[i as int]);
        let ghost l = lv[i as int];
        assert(l == lists@[i as int]@.map_values(|s: String| s@));
        proof {
            lemma_keys(keys@, lv);
        }
        if lists[i].len() > 0 && chars_eq(keys[i][0].as_slice(), r.as_slice()) {
            let mut row: Vec<String> = Vec::new();
            let mut j: usize = 1;
            while j < lists[i].len()
                invariant
                    i < lists@.len(),
                    1 <= j <= lists@[i as int]@.len(),
                    l == lists@[i as int]@.map_values(|s: String| s@),
                    row@.map_values(|s: String| s@) == l.subrange(1, j as int),
                decreases lists@[i as int]@.len() - j,
            {
                let ghost r0 = row@.map_values(|s: String| s@);
                row.push(lists[i][j].clone());
                assert(row@.map_values(|s: String| s@) =~= r0.push(l[j as int]));
                assert(l.subrange(1, j + 1) =~= l.subrange(1, j as int).push(l[j as int]));
                j += 1;
            }
            assert(l.subrange(1, j as int) =~= l.drop_first());
            let ghost o = lists_v(out@);
            out.push(row);
            assert(lists_v(out@) =~= o.push(l.drop_first()));
        } else {
            proof {
                if l.len() > 0 {
                    assert(keys@[i as int]@[0]@ == lowercase(l[0]));
                }
            }
        }
        i += 1;
    }
    assert(lv.take(i as int) =~= lv);
    out
}

impl TagManager {
    /// Every distinct genre value in use (as first seen), with how many
    /// times songs carry it at any position, ordered by lowercase name.
    pub fn list_all_tags(lists: &[Vec<String>]) -> (r: Vec<Tag>)
        requires
            total_values(lists_v(lists@)) <= i64::MAX,
            total_values(lists_v(lists@)) < usize::MAX,
        ensures
            r@.map_values(|t: Tag| tag_v(t)) == tally(lists_v(lists@)).map_values(
                |e: (Seq<char>, Seq<char>, int)| (e.1, e.2),
            ),
    {
        let t = tally_exec(lists);
        let ghost tv = tally_v(t@);
        let mut out: Vec<Tag> = Vec::new();
        let mut i: usize = 0;
        while i < t.len()
            invariant
                i <= t@.len(),
                tv == tally_v(t@),
                out@.map_values(|x: Tag| tag_v(x)) == tv.take(i as int).map_values(
                    |e: (Seq<char>, Seq<char>, int)| (e.1, e.2),
                ),
            decreases t@.len() - i,
        {
            let ghost o = out@.map_values(|x: Tag| tag_v(x));
            out.push(Tag { name: t[i].1.clone(), song_count: t[i].2 });
            assert(out@.map_values(|x: Tag| tag_v(x)) =~= o.push((t@[i as int].1@, t@[i as int].2 as int)));
            assert(tv.take(i + 1).map_values(|e: (Seq<char>, Seq<char>, int)| (e.1, e.2)) =~= tv.take(
                i as int,
            ).map_values(|e: (Seq<char>, Seq<char>, int)| (e.1, e.2)).push((tv[i as int].1, tv[i as int].2)));
            i += 1;
        }
        assert(tv.take(i as int) =~= tv);
        out
    }

    /// The emergent hierarchy: one group per value that comes first on
    /// some song (as first seen), with how many songs have it first, and
    /// the values seen after it on those songs with their counts; groups
    /// and children ordered by lowercase name.
    pub fn get_genre_graph(lists: &[Vec<String>]) -> (r: Vec<GenreGroup>)
        requires
            total_values(lists_v(lists@)) <= i64::MAX,
            total_values(lists_v(lists@)) < usize::MAX,
        ensures
            graph_v(r@) == genre_graph(lists_v(lists@)),
    {
        let ghost lv = lists_v(lists@);
        let keys = keys_of(lists);
        let hs = heads_exec(lists);
        proof {
            lemma_heads_total(lv);
        }
        let roots = tally_exec(&hs);
        let ghost rv = tally_v(roots@);
        let mut out: Vec<GenreGroup> = Vec::new();
        let mut i: usize = 0;
        while i < roots.len()
            invariant
                i <= roots@.len(),
                rv == tally_v(roots@),
                rv == tally(heads(lv)),
                lv == lists_v(lists@),
                chars_v(keys@) == keys_v(lv),
                total_values(lv) <= i64::MAX,
                total_values(lv) < usize::MAX,
                out@.len() == i,
                forall|q: int| 0 <= q < i ==> (#[trigger] graph_v(out@)[q]) == (
                    rv[q].1,
                    rv[q].2,
                    tally(tails_under(lv, rv[q].0)).map_values(|c: (Seq<char>, Seq<char>, int)| (c.1, c.2)),
                ),
            decreases roots@.len() - i,
        {
            assert(rv[i as int] == (roots@[i as int].0@, roots@[i as int].1@, roots@[i as int].2 as int));
            let ts = tails_under_exec(lists, &keys, &roots[i].0);
            proof {
                lemma_tails_total(lv, roots@[i as int].0@);
            }
            let kids = tally_exec(&ts);
            let ghost kv = tally_v(kids@);
            let mut children: Vec<TagCount> = Vec::new();
            let mut j: usize = 0;
            while j < kids.len()
                invariant
                    j <= kids@.len(),
                    kv == tally_v(kids@),
                    children@.map_values(|c: TagCount| tag_count_v(c)) == kv.take(j as int).map_values(
                        |c: (Seq<char>, Seq<char>, int)| (c.1, c.2),
                    ),
                decreases kids@.len() - j,
            {
                let ghost c0 = children@.map_values(|c: TagCount| tag_count_v(c));
                children.push(TagCount { name: kids[j].1.clone(), song_count: kids[j].2 });
                assert(children@.map_values(|c: TagCount| tag_count_v(c)) =~= c0.push(
                    (kids@[j as int].1@, kids@[j as int].2 as int),
                ));
                assert(kv.take(j + 1).map_values(|c: (Seq<char>, Seq<char>, int)| (c.1, c.2)) =~= kv.take(
                    j as int,
                ).map_values(|c: (Seq<char>, Seq<char>, int)| (c.1, c.2)).push((kv[j as int].1, kv[j as int].2)));
                j += 1;
            }
            assert(kv.take(j as int) =~= kv);
            let ghost o = graph_v(out@);
            let g = GenreGroup { main_tag: roots[i].1.clone(), song_count: roots[i].2, children };
            let ghost gv = genre_group_v(g);
            out.push(g);
            assert(graph_v(out@) =~= o.push(gv));
            i += 1;
        }
        assert(graph_v(out@) =~= genre_graph(lv));
        out
    }

    /// Every tag with its count and the emergent graph, read from one pass
    /// over the songs, with the count of songs that have no genre at all.
    pub fn get_tags_overview(lists: &[Vec<String>], no_genre_count: i64) -> (r: (Vec<Tag>, Vec<GenreGroup>, i64))
        requires
            total_values(lists_v(lists@)) <= i64::MAX,
            total_values(lists_v(lists@)) < usize::MAX,
        ensures
            r.0@.map_values(|t: Tag| tag_v(t)) == tally(lists_v(lists@)).map_values(
                |e: (Seq<char>, Seq<char>, int)| (e.1, e.2),
            ),
            graph_v(r.1@) == genre_graph(lists_v(lists@)),
            r.2 == no_genre_count,
    {
        (Self::list_all_tags(lists), Self::get_genre_graph(lists), no_genre_count)
    }
}

// ---------------------------------------------------------------------------
// The curated hierarchy
// ---------------------------------------------------------------------------

/// The cards' sort entries: by sort order, then name, ASCII case aside.
pub open spec fn group_entries(gs: Seq<GroupV>) -> Seq<Entry> {
    Seq::new(gs.len(), |i: int| (gs[i].sort_order as int, ascii_lower_seq(gs[i].name), i))
}

/// The chips' sort entries: by sort order, then name, ASCII case aside.
pub open spec fn chip_entries(a: Seq<AssignV>) -> Seq<Entry> {
    Seq::new(a.len(), |i: int| (a[i].sort_order as int, ascii_lower_seq(a[i].tag_name), i))
}

/// The chips under card `id`, in storage order.
pub open spec fn chips_of(a: Seq<AssignV>, id: i64) -> Seq<AssignV>
    decreases a.len(),
{
    if a.len() == 0 {
        Seq::empty()
    } else {
        let r = chips_of(a.drop_last(), id);
        if a.last().group_id == id {
            r.push(a.last())
        } else {
            r
        }
    }
}

pub open spec fn chip_item(cs: Seq<AssignV>, lists: Seq<Seq<Seq<char>>>, e: Entry) -> (Seq<char>, int) {
    (cs[e.2].tag_name, tag_count(lists, lowercase(cs[e.2].tag_name)) as int)
}

/// A card's chips in display order, each with its count.
pub open spec fn card_children(cs: Seq<AssignV>, lists: Seq<Seq<Seq<char>>>) -> Seq<(Seq<char>, int)> {
    ordered(chip_entries(cs)).map_values(|e: Entry| chip_item(cs, lists, e))
}

pub open spec fn card_item(gs: Seq<GroupV>, a: Seq<AssignV>, lists: Seq<Seq<Seq<char>>>, e: Entry) -> (
    Seq<char>,
    i32,
    int,
    Seq<(Seq<char>, int)>,
) {
    let g = gs[e.2];
    (g.name, g.color_index, tag_count(lists, lowercase(g.name)) as int, card_children(chips_of(a, g.id), lists))
}

/// The hierarchy as shown: the cards in display order, each with its
/// colour, its count and its chips.
pub open spec fn hierarchy(gs: Seq<GroupV>, a: Seq<AssignV>, lists: Seq<Seq<Seq<char>>>) -> Seq<
    (Seq<char>, i32, int, Seq<(Seq<char>, int)>),
> {
    ordered(group_entries(gs)).map_values(|e: Entry| card_item(gs, a, lists, e))
}

pub open spec fn child_v(c: TagGroupChild) -> (Seq<char>, int) {
    (c.name@, c.song_count as int)
}

pub open spec fn children_v(s: Seq<TagGroupChild>) -> Seq<(Seq<char>, int)> {
    s.map_values(|c: TagGroupChild| child_v(c))
}

pub open spec fn tag_group_v(g: TagGroup) -> (Seq<char>, i32, int, Seq<(Seq<char>, int)>) {
    (g.name@, g.color_index, g.song_count as int, g.children@.map_values(|c: TagGroupChild| child_v(c)))
}

pub open spec fn hierarchy_v(s: Seq<TagGroup>) -> Seq<(Seq<char>, i32, int, Seq<(Seq<char>, int)>)> {
    s.map_values(|g: TagGroup| tag_group_v(g))
}

pub(crate) fn key_of(s: &String) -> (k: Vec<char>)
    ensures
        k@ == lowercase(s@),
{
    chars_of(to_lowercase(s.as_str()).as_str())
}

/// The chips under card `id` (see `chips_of`).
pub(crate) fn chips_of_exec(a: &Vec<TagAssignmentRow>, id: i64) -> (r: Vec<TagAssignmentRow>)
    ensures
        assigns_v(r@) == chips_of(assigns_v(a@), id),
{
    let ghost av = assigns_v(a@);
    let mut out: Vec<TagAssignmentRow> = Vec::new();
    let mut i: usize = 0;
    while i < a.len()
        invariant
            i <= a@.len(),
            av == assigns_v(a@),
            assigns_v(out@) == chips_of(av.take(i as int), id),
        decreases a@.len() - i,
    {
        assert(av.take(i + 1).drop_last() =~= av.take(i as int));
        assert(av.take(i + 1).last() == assign_v(a@[i as int]));
        if a[i].group_id == id {
            let ghost o = assigns_v(out@);
            let row = TagAssignmentRow { tag_name: a[i].tag_name.clone(), group_id: a[i].group_id, sort_order: a[i].sort_order };
            let ghost rv = assign_v(row);
            out.push(row);
            assert(rv == assign_v(a@[i as int]));
            assert(assigns_v(out@) =~= o.push(rv));
        }
        i += 1;
    }
    assert(av.take(i as int) =~= av);
    out
}

/// A card's chips in display order with their counts (see `card_children`).
fn children_exec(cs: &Vec<TagAssignmentRow>, keys: &Vec<Vec<Vec<char>>>, Ghost(lv): Ghost<Seq<Seq<Seq<char>>>>) -> (r: Vec<
    TagGroupChild,
>)
    requires
        chars_v(keys@) == keys_v(lv),
        total_values(lv) <= i64::MAX,
        total_values(lv) < usize::MAX,
    ensures
        children_v(r@) == card_children(assigns_v(cs@), lv),
{
    let ghost cv = assigns_v(cs@);
    let mut es: Vec<(i64, Vec<char>, usize)> = Vec::new();
    let mut i: usize = 0;
    while i < cs.len()
        invariant
            i <= cs@.len(),
            cv == assigns_v(cs@),
            es@.len() == i,
            forall|q: int| 0 <= q < i ==> (#[trigger] entries_v(es@)[q]) == (
                cv[q].sort_order as int,
                ascii_lower_seq(cv[q].tag_name),
                q,
            ),
        decreases cs@.len() - i,
    {
        let ghost e0 = entries_v(es@);
        let name = chars_of(cs[i].tag_name.as_str());
        let low = ascii_lowercase_chars(name.as_slice());
        es.push((cs[i].sort_order as i64, low, i));
        assert(cv[i as int] == assign_v(cs@[i as int]));
        assert(entries_v(es@) =~= e0.push(
            (cv[i as int].sort_order as int, ascii_lower_seq(cv[i as int].tag_name), i as int),
        ));
        i += 1;
    }
    let ghost ce = chip_entries(cv);
    assert(entries_v(es@) =~= ce);
    let sorted = order_entries(es);
    let ghost os = ordered(ce);
    proof {
        lemma_ordered_members(ce);
    }
    assert(entries_v(sorted@).len() == sorted@.len());
    let mut out: Vec<TagGroupChild> = Vec::new();
    let mut k: usize = 0;
    while k < sorted.len()
        invariant
            k <= sorted@.len(),
            entries_v(sorted@) == os,
            os == ordered(ce),
            os.len() == ce.len(),
            ce == chip_entries(cv),
            cv == assigns_v(cs@),
            forall|q: int| 0 <= q < ce.len() ==> ce.contains(#[trigger] os[q]),
            chars_v(keys@) == keys_v(lv),
            total_values(lv) <= i64::MAX,
            total_values(lv) < usize::MAX,
            out@.len() == k,
            forall|q: int| 0 <= q < k ==> (#[trigger] children_v(out@)[q]) == chip_item(
                cv,
                lv,
                os[q],
            ),
        decreases sorted@.len() - k,
    {
        assert(os[k as int] == (sorted@[k as int].0 as int, sorted@[k as int].1@, sorted@[k as int].2 as int));
        assert(ce.contains(os[k as int]));
        let ghost w = choose|w: int| 0 <= w < ce.len() && ce[w] == os[k as int];
        let j = sorted[k].2;
        assert(j as int == w);
        assert(cv[j as int] == assign_v(cs@[j as int]));
        let key = key_of(&cs[j].tag_name);
        proof {
            lemma_tag_count_bound(lv, key@);
        }
        let n = tag_count_exec(keys, &key, Ghost(lv));
        let ghost o0 = children_v(out@);
        out.push(TagGroupChild { name: cs[j].tag_name.clone(), song_count: n as i64 });
        assert(children_v(out@) =~= o0.push((cs@[j as int].tag_name@, n as int)));
        k += 1;
    }
    assert(children_v(out@) =~= os.map_values(|e: Entry| chip_item(cv, lv, e)));
    out
}

impl TagManager {
    /// The curated hierarchy: the cards by sort order then name (ASCII
    /// case aside; equal ones in storage order), each with its colour, how
    /// many times songs carry its name, and its chips ordered the same way
    /// with their counts.
    pub fn get_tag_hierarchy(&self, lists: &[Vec<String>]) -> (r: Vec<TagGroup>)
        requires
            total_values(lists_v(lists@)) <= i64::MAX,
            total_values(lists_v(lists@)) < usize::MAX,
        ensures
            hierarchy_v(r@) == hierarchy(groups_v(self.groups@), assigns_v(self.assignments@), lists_v(lists@)),
    {
        let ghost lv = lists_v(lists@);
        let ghost gv = groups_v(self.groups@);
        let ghost av = assigns_v(self.assignments@);
        let keys = keys_of(lists);
        let mut es: Vec<(i64, Vec<char>, usize)> = Vec::new();
        let mut i: usize = 0;
        while i < self.groups.len()
            invariant
                i <= self.groups@.len(),
                gv == groups_v(self.groups@),
                es@.len() == i,
                forall|q: int| 0 <= q < i ==> (#[trigger] entries_v(es@)[q]) == (
                    gv[q].sort_order as int,
                    ascii_lower_seq(gv[q].name),
                    q,
                ),
            decreases self.groups@.len() - i,
        {
            let ghost e0 = entries_v(es@);
            let name = chars_of(self.groups[i].name.as_str());
            let low = ascii_lowercase_chars(name.as_slice());
            es.push((self.groups[i].sort_order as i64, low, i));
            assert(gv[i as int] == group_v(self.groups@[i as int]));
            assert(entries_v(es@) =~= e0.push((gv[i as int].sort_order as int, ascii_lower_seq(gv[i as int].name), i as int)));
            i += 1;
        }
        let ghost ge = group_entries(gv);
        assert(entries_v(es@) =~= ge);
        let sorted = order_entries(es);
        let ghost os = ordered(ge);
        proof {
            lemma_ordered_members(ge);
        }
        assert(entries_v(sorted@).len() == sorted@.len());
        let mut out: Vec<TagGroup> = Vec::new();
        let mut k: usize = 0;
        while k < sorted.len()
            invariant
                k <= sorted@.len(),
                entries_v(sorted@) == os,
                os == ordered(ge),
                os.len() == ge.len(),
                ge == group_entries(gv),
                gv == groups_v(self.groups@),
                av == assigns_v(self.assignments@),
                forall|q: int| 0 <= q < ge.len() ==> ge.contains(#[trigger] os[q]),
                chars_v(keys@) == keys_v(lv),
                lv == lists_v(lists@),
                total_values(lv) <= i64::MAX,
                total_values(lv) < usize::MAX,
                out@.len() == k,
                forall|q: int| 0 <= q < k ==> (#[trigger] hierarchy_v(out@)[q]) == card_item(gv, av, lv, os[q]),
            decreases sorted@.len() - k,
        {
            assert(os[k as int] == (sorted@[k as int].0 as int, sorted@[k as int].1@, sorted@[k as int].2 as int));
            assert(ge.contains(os[k as int]));
            let ghost w = choose|w: int| 0 <= w < ge.len() && ge[w] == os[k as int];
            let j = sorted[k].2;
            assert(j as int == w);
            let g = &self.groups[j];
            assert(gv[j as int] == group_v(*g));
            let cs = chips_of_exec(&self.assignments, g.id);
            let children = children_exec(&cs, &keys, Ghost(lv));
            let key = key_of(&g.name);
            proof {
                lemma_tag_count_bound(lv, key@);
            }
            let n = tag_count_exec(&keys, &key, Ghost(lv));
            let ghost o0 = hierarchy_v(out@);
            let card = TagGroup { name: g.name.clone(), color_index: g.color_index, song_count: n as i64, children };
            let ghost cv = tag_group_v(card);
            out.push(card);
            assert(cv == card_item(gv, av, lv, os[k as int]));
            assert(hierarchy_v(out@) =~= o0.push(cv));
            k += 1;
        }
        assert(hierarchy_v(out@) =~= hierarchy(gv, av, lv));
        out
    }
}

} // verus!
