//! The curated genre hierarchy: top-level cards (groups) and the sub-genre
//! chips (assignments) under them, kept in line with the genres the
//! library's songs carry.
use vstd::prelude::*;
use crate::tags::{TagAssignmentRow, TagGroupRow, TagManager};
use crate::text::{chars_eq, chars_of, eq_ignore_ascii_case, eq_ignore_ascii_case_chars, lowercase, to_lowercase};

verus! {

// ---------------------------------------------------------------------------
// Views
// ---------------------------------------------------------------------------

/// A card as values.
pub struct GroupV {
    pub id: i64,
    pub name: Seq<char>,
    pub color_index: i32,
    pub sort_order: i32,
}

/// A chip as values.
pub struct AssignV {
    pub tag_name: Seq<char>,
    pub group_id: i64,
    pub sort_order: i32,
}

pub open spec fn group_v(g: TagGroupRow) -> GroupV {
    GroupV { id: g.id, name: g.name@, color_index: g.color_index, sort_order: g.sort_order }
}

pub open spec fn assign_v(a: TagAssignmentRow) -> AssignV {
    AssignV { tag_name: a.tag_name@, group_id: a.group_id, sort_order: a.sort_order }
}

pub open spec fn groups_v(g: Seq<TagGroupRow>) -> Seq<GroupV> {
    g.map_values(|x: TagGroupRow| group_v(x))
}

pub open spec fn assigns_v(a: Seq<TagAssignmentRow>) -> Seq<AssignV> {
    a.map_values(|x: TagAssignmentRow| assign_v(x))
}

/// The song genre lists as values.
pub open spec fn lists_v(lists: Seq<Vec<String>>) -> Seq<Seq<Seq<char>>> {
    lists.map_values(|l: Vec<String>| l@.map_values(|s: String| s@))
}

// ---------------------------------------------------------------------------
// What the library uses
// ---------------------------------------------------------------------------

/// Some entry of `u` has key `k`.
pub open spec fn has_key(u: Seq<(Seq<char>, Seq<char>)>, k: Seq<char>) -> bool {
    exists|i: int| 0 <= i < u.len() && (#[trigger] u[i]).0 == k
}

/// `u` with value `v` noted under its lowercase key, unless that key is
/// noted already.
pub open spec fn add_value(u: Seq<(Seq<char>, Seq<char>)>, v: Seq<char>) -> Seq<(Seq<char>, Seq<char>)> {
    if has_key(u, lowercase(v)) {
        u
    } else {
        u.push((lowercase(v), v))
    }
}

pub open spec fn add_values(u: Seq<(Seq<char>, Seq<char>)>, vs: Seq<Seq<char>>) -> Seq<(Seq<char>, Seq<char>)>
    decreases vs.len(),
{
    if vs.len() == 0 {
        u
    } else {
        add_value(add_values(u, vs.drop_last()), vs.last())
    }
}

/// Every genre value in use, once per lowercase key, as (key, the value as
/// first seen), in the order first seen.
pub open spec fn usage_of(lists: Seq<Seq<Seq<char>>>) -> Seq<(Seq<char>, Seq<char>)>
    decreases lists.len(),
{
    if lists.len() == 0 {
        Seq::empty()
    } else {
        add_values(usage_of(lists.drop_last()), lists.last())
    }
}

/// Key `k` is in use.
pub open spec fn in_use(lists: Seq<Seq<Seq<char>>>, k: Seq<char>) -> bool {
    has_key(usage_of(lists), k)
}

/// Key `k` is some song's main (first) genre.
pub open spec fn is_root_key(lists: Seq<Seq<Seq<char>>>, k: Seq<char>) -> bool {
    exists|i: int| 0 <= i < lists.len() && (#[trigger] lists[i]).len() > 0 && lowercase(lists[i][0]) == k
}

/// How many values of `vs` have key `c`.
pub open spec fn occurrences(vs: Seq<Seq<char>>, c: Seq<char>) -> nat
    decreases vs.len(),
{
    if vs.len() == 0 {
        0
    } else {
        occurrences(vs.drop_last(), c) + if lowercase(vs.last()) == c {
            1nat
        } else {
            0nat
        }
    }
}

/// How often key `c` follows main genre `r` on a song.
pub open spec fn child_count(lists: Seq<Seq<Seq<char>>>, c: Seq<char>, r: Seq<char>) -> nat
    decreases lists.len(),
{
    if lists.len() == 0 {
        0
    } else {
        let l = lists.last();
        child_count(lists.drop_last(), c, r) + if l.len() > 0 && lowercase(l[0]) == r {
            occurrences(l.drop_first(), c)
        } else {
            0nat
        }
    }
}

/// The main genres key `c` follows on some song, each once, in the order
/// first seen.
pub open spec fn roots_for(lists: Seq<Seq<Seq<char>>>, c: Seq<char>) -> Seq<Seq<char>>
    decreases lists.len(),
{
    if lists.len() == 0 {
        Seq::empty()
    } else {
        let r = roots_for(lists.drop_last(), c);
        let l = lists.last();
        if l.len() > 0 && occurrences(l.drop_first(), c) > 0 && !r.contains(lowercase(l[0])) {
            r.push(lowercase(l[0]))
        } else {
            r
        }
    }
}

/// Of the main genres `rs`, the first that key `c` follows most often.
pub open spec fn best_of(rs: Seq<Seq<char>>, lists: Seq<Seq<Seq<char>>>, c: Seq<char>) -> Option<Seq<char>>
    decreases rs.len(),
{
    if rs.len() == 0 {
        None
    } else {
        match best_of(rs.drop_last(), lists, c) {
            None => Some(rs.last()),
            Some(x) => if child_count(lists, c, rs.last()) > child_count(lists, c, x) {
                Some(rs.last())
            } else {
                Some(x)
            },
        }
    }
}

/// The main genre key `c` follows most often (the first of those seen,
/// on a tie); none when it never follows one.
pub open spec fn best_root(lists: Seq<Seq<Seq<char>>>, c: Seq<char>) -> Option<Seq<char>> {
    best_of(roots_for(lists, c), lists, c)
}

// ---------------------------------------------------------------------------
// Computing it
// ---------------------------------------------------------------------------

/// The lowercase keys of the values, list by list.
pub open spec fn keys_v(lists: Seq<Seq<Seq<char>>>) -> Seq<Seq<Seq<char>>> {
    lists.map_values(|l: Seq<Seq<char>>| l.map_values(|v: Seq<char>| lowercase(v)))
}

pub open spec fn chars_v(k: Seq<Vec<Vec<char>>>) -> Seq<Seq<Seq<char>>> {
    k.map_values(|l: Vec<Vec<char>>| l@.map_values(|v: Vec<char>| v@))
}

pub(crate) fn keys_of(lists: &[Vec<String>]) -> (k: Vec<Vec<Vec<char>>>)
    ensures
        chars_v(k@) == keys_v(lists_v(lists@)),
{
    let ghost lv = lists_v(lists@);
    let mut out: Vec<Vec<Vec<char>>> = Vec::new();
    let mut i: usize = 0;
    while i < lists.len()
        invariant
            i <= lists@.len(),
            lv == lists_v(lists@),
            chars_v(out@) == keys_v(lv).take(i as int),
        decreases lists@.len() - i,
    {
        let l = &lists[i];
        let ghost lview = lv[i as int];
        assert(lview == l@.map_values(|s: String| s@));
        let mut row: Vec<Vec<char>> = Vec::new();
        let mut j: usize = 0;
        while j < l.len()
            invariant
                j <= l@.len(),
                lview == l@.map_values(|s: String| s@),
                row@.map_values(|v: Vec<char>| v@) == lview.map_values(|v: Seq<char>| lowercase(v)).take(j as int),
            decreases l@.len() - j,
        {
            let ghost r0 = row@;
            let c = chars_of(to_lowercase(l[j].as_str()).as_str());
            row.push(c);
            assert(row@.map_values(|v: Vec<char>| v@) =~= r0.map_values(|v: Vec<char>| v@).push(c@));
            assert(lview.map_values(|v: Seq<char>| lowercase(v)).take(j + 1) =~= lview.map_values(
                |v: Seq<char>| lowercase(v),
            ).take(j as int).push(lowercase(lview[j as int])));
            j += 1;
        }
        assert(lview.map_values(|v: Seq<char>| lowercase(v)).take(j as int) =~= lview.map_values(
            |v: Seq<char>| lowercase(v),
        ));
        let ghost o0 = out@;
        out.push(row);
        assert(chars_v(out@) =~= chars_v(o0).push(lview.map_values(|v: Seq<char>| lowercase(v))));
        assert(keys_v(lv).take(i + 1) =~= keys_v(lv).take(i as int).push(keys_v(lv)[i as int]));
        i += 1;
    }
    assert(keys_v(lv).take(i as int) =~= keys_v(lv));
    out
}

/// What the key lists say, entry by entry.
pub(crate) proof fn lemma_keys(k: Seq<Vec<Vec<char>>>, lv: Seq<Seq<Seq<char>>>)
    requires
        chars_v(k) == keys_v(lv),
    ensures
        k.len() == lv.len(),
        forall|i: int| 0 <= i < k.len() ==> (#[trigger] k[i])@.len() == lv[i].len(),
        forall|i: int, j: int|
            0 <= i < k.len() && 0 <= j < lv[i].len() ==> (#[trigger] k[i]@[j])@ == lowercase(lv[i][j]),
        forall|i: int| 0 <= i < k.len() ==> (#[trigger] k[i])@.map_values(|v: Vec<char>| v@) == lv[i].map_values(
            |v: Seq<char>| lowercase(v),
        ),
{
    let a = k.map_values(|l: Vec<Vec<char>>| l@.map_values(|v: Vec<char>| v@));
    let b = lv.map_values(|l: Seq<Seq<char>>| l.map_values(|v: Seq<char>| lowercase(v)));
    assert(a == chars_v(k));
    assert(b == keys_v(lv));
    assert(a.len() == k.len());
    assert(b.len() == lv.len());
    assert forall|i: int| 0 <= i < k.len() implies (#[trigger] k[i])@.map_values(|v: Vec<char>| v@) == lv[i].map_values(
        |v: Seq<char>| lowercase(v),
    ) by {
        assert(a[i] == k[i]@.map_values(|v: Vec<char>| v@));
        assert(b[i] == lv[i].map_values(|v: Seq<char>| lowercase(v)));
    }
    assert forall|i: int| 0 <= i < k.len() implies (#[trigger] k[i])@.len() == lv[i].len() by {
        assert(a[i] == b[i]);
        assert(k[i]@.map_values(|v: Vec<char>| v@).len() == k[i]@.len());
        assert(lv[i].map_values(|v: Seq<char>| lowercase(v)).len() == lv[i].len());
    }
    assert forall|i: int, j: int| 0 <= i < k.len() && 0 <= j < lv[i].len() implies (#[trigger] k[i]@[j])@ == lowercase(lv[i][j]) by {
        assert(a[i] == b[i]);
        assert(k[i]@.len() == lv[i].len());
        assert(k[i]@.map_values(|v: Vec<char>| v@)[j] == k[i]@[j]@);
        assert(lv[i].map_values(|v: Seq<char>| lowercase(v))[j] == lowercase(lv[i][j]));
    }
}

/// How many values the lists hold in all.
pub open spec fn total_values(lists: Seq<Seq<Seq<char>>>) -> nat
    decreases lists.len(),
{
    if lists.len() == 0 {
        0
    } else {
        total_values(lists.drop_last()) + lists.last().len()
    }
}

pub(crate) proof fn lemma_occurrences_bound(vs: Seq<Seq<char>>, c: Seq<char>)
    ensures
        occurrences(vs, c) <= vs.len(),
    decreases vs.len(),
{
    if vs.len() > 0 {
        lemma_occurrences_bound(vs.drop_last(), c);
    }
}

proof fn lemma_child_count_bound(lists: Seq<Seq<Seq<char>>>, c: Seq<char>, r: Seq<char>)
    ensures
        child_count(lists, c, r) <= total_values(lists),
    decreases lists.len(),
{
    if lists.len() > 0 {
        lemma_child_count_bound(lists.drop_last(), c, r);
        let l = lists.last();
        if l.len() > 0 {
            lemma_occurrences_bound(l.drop_first(), c);
        }
    }
}

pub open spec fn usage_v(u: Seq<(Vec<char>, String)>) -> Seq<(Seq<char>, Seq<char>)> {
    u.map_values(|e: (Vec<char>, String)| (e.0@, e.1@))
}

/// Whether key `k` is noted in `u`.
pub(crate) fn usage_has(u: &Vec<(Vec<char>, String)>, k: &Vec<char>) -> (b: bool)
    ensures
        b == has_key(usage_v(u@), k@),
{
    let mut i: usize = 0;
    while i < u.len()
        invariant
            i <= u@.len(),
            forall|q: int| 0 <= q < i ==> u@[q].0@ != k@,
        decreases u@.len() - i,
    {
        if chars_eq(u[i].0.as_slice(), k.as_slice()) {
            assert(usage_v(u@)[i as int].0 == k@);
            return true;
        }
        i += 1;
    }
    proof {
        if has_key(usage_v(u@), k@) {
            let q = choose|q: int| 0 <= q < usage_v(u@).len() && (#[trigger] usage_v(u@)[q]).0 == k@;
            assert(u@[q].0@ == k@);
        }
    }
    false
}

/// Every value in use (see `usage_of`).
pub(crate) fn usage_exec(lists: &[Vec<String>], keys: &Vec<Vec<Vec<char>>>) -> (u: Vec<(Vec<char>, String)>)
    requires
        chars_v(keys@) == keys_v(lists_v(lists@)),
    ensures
        usage_v(u@) == usage_of(lists_v(lists@)),
{
    let ghost lv = lists_v(lists@);
    let mut u: Vec<(Vec<char>, String)> = Vec::new();
    let mut i: usize = 0;
    while i < lists.len()
        invariant
            i <= lists@.len(),
            lv == lists_v(lists@),
            chars_v(keys@) == keys_v(lv),
            usage_v(u@) == usage_of(lv.take(i as int)),
        decreases lists@.len() - i,
    {
        assert(lv.take(i + 1).drop_last() =~= lv.take(i as int));
        assert(lv.take(i + 1).last() == lv[i as int]);
        proof {
            lemma_keys(keys@, lv);
        }
        let ghost base = usage_v(u@);
        let ghost row = lv[i as int];
        let mut j: usize = 0;
        assert(row.take(0) =~= Seq::<Seq<char>>::empty());
        while j < lists[i].len()
            invariant
                i < lists@.len(),
                j <= lists@[i as int]@.len(),
                lv == lists_v(lists@),
                chars_v(keys@) == keys_v(lv),
                row == lv[i as int],
                row.len() == lists@[i as int]@.len(),
                usage_v(u@) == add_values(base, row.take(j as int)),
            decreases lists@[i as int]@.len() - j,
        {
            assert(row.take(j + 1).drop_last() =~= row.take(j as int));
            assert(row.take(j + 1).last() == row[j as int]);
            assert(row[j as int] == lists@[i as int]@[j as int]@);
            proof {
                lemma_keys(keys@, lv);
            }
            let k = &keys[i][j];
            assert(k@ == lowercase(row[j as int]));
            if !usage_has(&u, k) {
                let ghost u0 = usage_v(u@);
                u.push((k.clone(), lists[i][j].clone()));
                assert(usage_v(u@) =~= u0.push((lowercase(row[j as int]), row[j as int])));
            }
            j += 1;
        }
        assert(row.take(j as int) =~= row);
        i += 1;
    }
    assert(lv.take(i as int) =~= lv);
    u
}

/// Whether key `k` is some song's main genre.
pub(crate) fn is_root_exec(keys: &Vec<Vec<Vec<char>>>, k: &Vec<char>, Ghost(lv): Ghost<Seq<Seq<Seq<char>>>>) -> (b: bool)
    requires
        chars_v(keys@) == keys_v(lv),
    ensures
        b == is_root_key(lv, k@),
{
    proof {
        lemma_keys(keys@, lv);
    }
    let mut i: usize = 0;
    while i < keys.len()
        invariant
            i <= keys@.len(),
            chars_v(keys@) == keys_v(lv),
            keys@.len() == lv.len(),
            forall|q: int| 0 <= q < i ==> !((#[trigger] lv[q]).len() > 0 && lowercase(lv[q][0]) == k@),
        decreases keys@.len() - i,
    {
        proof {
            lemma_keys(keys@, lv);
        }
        if keys[i].len() > 0 && chars_eq(keys[i][0].as_slice(), k.as_slice()) {
            assert(keys@[i as int]@[0]@ == lowercase(lv[i as int][0]));
            assert(lv[i as int].len() > 0 && lowercase(lv[i as int][0]) == k@);
            return true;
        }
        proof {
            if lv[i as int].len() > 0 {
                assert(keys@[i as int]@[0]@ == lowercase(lv[i as int][0]));
            }
        }
        i += 1;
    }
    false
}

/// How many of `row[1..]` have key `c`.
fn tail_occurrences(row: &Vec<Vec<char>>, c: &Vec<char>, Ghost(l): Ghost<Seq<Seq<char>>>) -> (n: usize)
    requires
        row@.map_values(|v: Vec<char>| v@) == l.map_values(|v: Seq<char>| lowercase(v)),
        l.len() > 0,
    ensures
        n == occurrences(l.drop_first(), c@),
{
    let ghost t = l.drop_first();
    assert(row@.map_values(|v: Vec<char>| v@).len() == row@.len());
    assert(l.map_values(|v: Seq<char>| lowercase(v)).len() == l.len());
    let mut n: usize = 0;
    let mut j: usize = 1;
    assert(t.take(0) =~= Seq::<Seq<char>>::empty());
    while j < row.len()
        invariant
            1 <= j <= row@.len(),
            row@.len() == l.len(),
            t == l.drop_first(),
            row@.map_values(|v: Vec<char>| v@) == l.map_values(|v: Seq<char>| lowercase(v)),
            n == occurrences(t.take(j - 1), c@),
            n <= j - 1,
        decreases row@.len() - j,
    {
        assert(t.take(j as int).drop_last() =~= t.take(j - 1));
        assert(t.take(j as int).last() == l[j as int]);
        assert(row@.map_values(|v: Vec<char>| v@)[j as int] == l.map_values(|v: Seq<char>| lowercase(v))[j as int]);
        if chars_eq(row[j].as_slice(), c.as_slice()) {
            n += 1;
        }
        j += 1;
    }
    assert(t.take(j - 1) =~= t);
    n
}

/// How often key `c` follows main genre `r` (see `child_count`).
fn child_count_exec(keys: &Vec<Vec<Vec<char>>>, c: &Vec<char>, r: &Vec<char>, Ghost(lv): Ghost<Seq<Seq<Seq<char>>>>) -> (n: usize)
    requires
        chars_v(keys@) == keys_v(lv),
        total_values(lv) < usize::MAX,
    ensures
        n == child_count(lv, c@, r@),
{
    proof {
        lemma_keys(keys@, lv);
    }
    let mut n: usize = 0;
    let mut i: usize = 0;
    while i < keys.len()
        invariant
            i <= keys@.len(),
            keys@.len() == lv.len(),
            chars_v(keys@) == keys_v(lv),
            total_values(lv) < usize::MAX,
            n == child_count(lv.take(i as int), c@, r@),
        decreases keys@.len() - i,
    {
        let ghost t = lv.take(i + 1);
        assert(t.drop_last() =~= lv.take(i as int));
        assert(t.last() == lv[i as int]);
        proof {
            lemma_keys(keys@, lv);
        }
        proof {
            lemma_child_count_bound(t, c@, r@);
            lemma_total_prefix(lv, i + 1);
        }
        if keys[i].len() > 0 && chars_eq(keys[i][0].as_slice(), r.as_slice()) {
            let m = tail_occurrences(&keys[i], c, Ghost(lv[i as int]));
            n = n + m;
        }
        i += 1;
    }
    assert(lv.take(i as int) =~= lv);
    n
}

pub(crate) proof fn lemma_total_prefix(lv: Seq<Seq<Seq<char>>>, k: int)
    requires
        0 <= k <= lv.len(),
    ensures
        total_values(lv.take(k)) <= total_values(lv),
    decreases lv.len() - k,
{
    if k < lv.len() {
        lemma_total_prefix(lv, k + 1);
        assert(lv.take(k + 1).drop_last() =~= lv.take(k));
    } else {
        assert(lv.take(k) =~= lv);
    }
}

/// The main genres key `c` follows, first seen first (see `roots_for`).
fn roots_for_exec(keys: &Vec<Vec<Vec<char>>>, c: &Vec<char>, Ghost(lv): Ghost<Seq<Seq<Seq<char>>>>) -> (rs: Vec<Vec<char>>)
    requires
        chars_v(keys@) == keys_v(lv),
    ensures
        rs@.map_values(|v: Vec<char>| v@) == roots_for(lv, c@),
{
    proof {
        lemma_keys(keys@, lv);
    }
    let mut rs: Vec<Vec<char>> = Vec::new();
    let mut i: usize = 0;
    while i < keys.len()
        invariant
            i <= keys@.len(),
            keys@.len() == lv.len(),
            chars_v(keys@) == keys_v(lv),
            rs@.map_values(|v: Vec<char>| v@) == roots_for(lv.take(i as int), c@),
        decreases keys@.len() - i,
    {
        let ghost t = lv.take(i + 1);
        assert(t.drop_last() =~= lv.take(i as int));
        assert(t.last() == lv[i as int]);
        proof {
            lemma_keys(keys@, lv);
        }
        if keys[i].len() > 0 {
            let m = tail_occurrences(&keys[i], c, Ghost(lv[i as int]));
            let root = &keys[i][0];
            assert(root@ == lowercase(lv[i as int][0]));
            if m > 0 && !contains_key(&rs, root) {
                let ghost r0 = rs@.map_values(|v: Vec<char>| v@);
                rs.push(root.clone());
                assert(rs@.map_values(|v: Vec<char>| v@) =~= r0.push(root@));
            }
        }
        i += 1;
    }
    assert(lv.take(i as int) =~= lv);
    rs
}

/// Whether `k` is among `ks`.
pub(crate) fn contains_key(ks: &Vec<Vec<char>>, k: &Vec<char>) -> (b: bool)
    ensures
        b == ks@.map_values(|v: Vec<char>| v@).contains(k@),
{
    let mut i: usize = 0;
    while i < ks.len()
        invariant
            i <= ks@.len(),
            forall|q: int| 0 <= q < i ==> ks@[q]@ != k@,
        decreases ks@.len() - i,
    {
        if chars_eq(ks[i].as_slice(), k.as_slice()) {
            assert(ks@.map_values(|v: Vec<char>| v@)[i as int] == k@);
            return true;
        }
        i += 1;
    }
    proof {
        let v = ks@.map_values(|v: Vec<char>| v@);
        if v.contains(k@) {
            let q = choose|q: int| 0 <= q < v.len() && v[q] == k@;
            assert(ks@[q]@ == k@);
        }
    }
    false
}

/// The main genre key `c` follows most often (see `best_root`).
pub(crate) fn best_root_exec(keys: &Vec<Vec<Vec<char>>>, c: &Vec<char>, Ghost(lv): Ghost<Seq<Seq<Seq<char>>>>) -> (r: Option<Vec<char>>)
    requires
        chars_v(keys@) == keys_v(lv),
        total_values(lv) < usize::MAX,
    ensures
        match r {
            Some(x) => best_root(lv, c@) == Some(x@),
            None => best_root(lv, c@) is None,
        },
{
    let rs = roots_for_exec(keys, c, Ghost(lv));
    let ghost rv = rs@.map_values(|v: Vec<char>| v@);
    let mut best: Option<Vec<char>> = None;
    let mut best_n: usize = 0;
    let mut i: usize = 0;
    while i < rs.len()
        invariant
            i <= rs@.len(),
            rv == rs@.map_values(|v: Vec<char>| v@),
            chars_v(keys@) == keys_v(lv),
            total_values(lv) < usize::MAX,
            match best {
                Some(x) => best_of(rv.take(i as int), lv, c@) == Some(x@) && best_n == child_count(lv, c@, x@),
                None => best_of(rv.take(i as int), lv, c@) is None && i == 0,
            },
        decreases rs@.len() - i,
    {
        assert(rv.take(i + 1).drop_last() =~= rv.take(i as int));
        assert(rv.take(i + 1).last() == rs@[i as int]@);
        let n = child_count_exec(keys, c, &rs[i], Ghost(lv));
        match best {
            None => {
                best = Some(rs[i].clone());
                best_n = n;
            },
            Some(_) => {
                if n > best_n {
                    best = Some(rs[i].clone());
                    best_n = n;
                }
            },
        }
        i += 1;
    }
    assert(rv.take(i as int) =~= rv);
    best
}

// ---------------------------------------------------------------------------
// Reconciling: the model
// ---------------------------------------------------------------------------

/// Key to id, as an association list (the first entry for a key counts).
pub open spec fn map_index(m: Seq<(Seq<char>, i64)>, k: Seq<char>) -> Option<int>
    decreases m.len(),
{
    if m.len() == 0 {
        None
    } else if m[0].0 == k {
        Some(0)
    } else {
        match map_index(m.drop_first(), k) {
            Some(i) => Some(i + 1),
            None => None,
        }
    }
}

pub open spec fn map_get(m: Seq<(Seq<char>, i64)>, k: Seq<char>) -> Option<i64> {
    match map_index(m, k) {
        Some(i) => Some(m[i].1),
        None => None,
    }
}

pub open spec fn map_put(m: Seq<(Seq<char>, i64)>, k: Seq<char>, v: i64) -> Seq<(Seq<char>, i64)> {
    match map_index(m, k) {
        Some(i) => m.update(i, (k, v)),
        None => m.push((k, v)),
    }
}

/// The entries whose key is in use.
pub open spec fn map_in_use(m: Seq<(Seq<char>, i64)>, lists: Seq<Seq<Seq<char>>>) -> Seq<(Seq<char>, i64)>
    decreases m.len(),
{
    if m.len() == 0 {
        Seq::empty()
    } else {
        let r = map_in_use(m.drop_last(), lists);
        if in_use(lists, m.last().0) {
            r.push(m.last())
        } else {
            r
        }
    }
}

pub open spec fn set_add(s: Seq<Seq<char>>, k: Seq<char>) -> Seq<Seq<char>> {
    if s.contains(k) {
        s
    } else {
        s.push(k)
    }
}

pub open spec fn set_del(s: Seq<Seq<char>>, k: Seq<char>) -> Seq<Seq<char>>
    decreases s.len(),
{
    if s.len() == 0 {
        Seq::empty()
    } else {
        let r = set_del(s.drop_last(), k);
        if s.last() == k {
            r
        } else {
            r.push(s.last())
        }
    }
}

/// The keys that are in use.
pub open spec fn set_in_use(s: Seq<Seq<char>>, lists: Seq<Seq<Seq<char>>>) -> Seq<Seq<char>>
    decreases s.len(),
{
    if s.len() == 0 {
        Seq::empty()
    } else {
        let r = set_in_use(s.drop_last(), lists);
        if in_use(lists, s.last()) {
            r.push(s.last())
        } else {
            r
        }
    }
}

/// The cards by lowercase name (the last card wins a shared key).
pub open spec fn group_keys(gs: Seq<GroupV>) -> Seq<(Seq<char>, i64)>
    decreases gs.len(),
{
    if gs.len() == 0 {
        Seq::empty()
    } else {
        map_put(group_keys(gs.drop_last()), lowercase(gs.last().name), gs.last().id)
    }
}

/// The chips' lowercase names.
pub open spec fn assign_keys(a: Seq<AssignV>) -> Seq<Seq<char>>
    decreases a.len(),
{
    if a.len() == 0 {
        Seq::empty()
    } else {
        set_add(assign_keys(a.drop_last()), lowercase(a.last().tag_name))
    }
}

/// A chip whose name is also a card's (ASCII case aside).
pub open spec fn collides(a: AssignV, gs: Seq<GroupV>) -> bool {
    exists|j: int| 0 <= j < gs.len() && eq_ignore_ascii_case(a.tag_name, (#[trigger] gs[j]).name)
}

pub open spec fn non_colliding(a: Seq<AssignV>, gs: Seq<GroupV>) -> Seq<AssignV>
    decreases a.len(),
{
    if a.len() == 0 {
        Seq::empty()
    } else {
        let r = non_colliding(a.drop_last(), gs);
        if collides(a.last(), gs) {
            r
        } else {
            r.push(a.last())
        }
    }
}

/// The chip keys left once the colliding chips' keys are dropped.
pub open spec fn keys_without_colliding(ks: Seq<Seq<char>>, a: Seq<AssignV>, gs: Seq<GroupV>) -> Seq<Seq<char>>
    decreases a.len(),
{
    if a.len() == 0 {
        ks
    } else {
        let r = keys_without_colliding(ks, a.drop_last(), gs);
        if collides(a.last(), gs) {
            set_del(r, lowercase(a.last().tag_name))
        } else {
            r
        }
    }
}

/// A card matched (ASCII case aside) by an unused key of `eg`.
pub open spec fn group_gone(g: GroupV, eg: Seq<(Seq<char>, i64)>, lists: Seq<Seq<Seq<char>>>) -> bool {
    exists|i: int| 0 <= i < eg.len() && !in_use(lists, (#[trigger] eg[i]).0) && eq_ignore_ascii_case(g.name, eg[i].0)
}

pub open spec fn groups_kept(gs: Seq<GroupV>, eg: Seq<(Seq<char>, i64)>, lists: Seq<Seq<Seq<char>>>) -> Seq<GroupV>
    decreases gs.len(),
{
    if gs.len() == 0 {
        Seq::empty()
    } else {
        let r = groups_kept(gs.drop_last(), eg, lists);
        if group_gone(gs.last(), eg, lists) {
            r
        } else {
            r.push(gs.last())
        }
    }
}

/// Card `id` is among the cards that go.
pub open spec fn id_gone(id: i64, gs: Seq<GroupV>, eg: Seq<(Seq<char>, i64)>, lists: Seq<Seq<Seq<char>>>) -> bool {
    exists|j: int| 0 <= j < gs.len() && (#[trigger] gs[j]).id == id && group_gone(gs[j], eg, lists)
}

/// The chips left once the cards that go take their chips with them.
pub open spec fn assigns_of_kept(a: Seq<AssignV>, gs: Seq<GroupV>, eg: Seq<(Seq<char>, i64)>, lists: Seq<Seq<Seq<char>>>) -> Seq<AssignV>
    decreases a.len(),
{
    if a.len() == 0 {
        Seq::empty()
    } else {
        let r = assigns_of_kept(a.drop_last(), gs, eg, lists);
        if id_gone(a.last().group_id, gs, eg, lists) {
            r
        } else {
            r.push(a.last())
        }
    }
}

/// A chip matched (ASCII case aside) by an unused chip key.
pub open spec fn assign_gone(a: AssignV, ea: Seq<Seq<char>>, lists: Seq<Seq<Seq<char>>>) -> bool {
    exists|i: int| 0 <= i < ea.len() && !in_use(lists, #[trigger] ea[i]) && eq_ignore_ascii_case(a.tag_name, ea[i])
}

pub open spec fn assigns_kept(a: Seq<AssignV>, ea: Seq<Seq<char>>, lists: Seq<Seq<Seq<char>>>) -> Seq<AssignV>
    decreases a.len(),
{
    if a.len() == 0 {
        Seq::empty()
    } else {
        let r = assigns_kept(a.drop_last(), ea, lists);
        if assign_gone(a.last(), ea, lists) {
            r
        } else {
            r.push(a.last())
        }
    }
}

/// One past the largest card sort order, or 0.
pub open spec fn next_group_sort(gs: Seq<GroupV>) -> int
    decreases gs.len(),
{
    if gs.len() == 0 {
        0
    } else {
        let r = next_group_sort(gs.drop_last());
        if gs.last().sort_order + 1 > r {
            gs.last().sort_order + 1
        } else {
            r
        }
    }
}

/// One past the largest chip sort order, or 0.
pub open spec fn next_assign_sort(a: Seq<AssignV>) -> int
    decreases a.len(),
{
    if a.len() == 0 {
        0
    } else {
        let r = next_assign_sort(a.drop_last());
        if a.last().sort_order + 1 > r {
            a.last().sort_order + 1
        } else {
            r
        }
    }
}

/// The first card named `name`, ASCII case aside.
pub open spec fn nocase_index(gs: Seq<GroupV>, name: Seq<char>) -> Option<int>
    decreases gs.len(),
{
    if gs.len() == 0 {
        None
    } else if eq_ignore_ascii_case(gs[0].name, name) {
        Some(0)
    } else {
        match nocase_index(gs.drop_first(), name) {
            Some(i) => Some(i + 1),
            None => None,
        }
    }
}

/// Some chip is named `name`, ASCII case aside.
pub open spec fn chip_named(a: Seq<AssignV>, name: Seq<char>) -> bool {
    exists|j: int| 0 <= j < a.len() && eq_ignore_ascii_case((#[trigger] a[j]).tag_name, name)
}

/// The working state of a reconcile pass.
pub struct RState {
    pub groups: Seq<GroupV>,
    pub assigns: Seq<AssignV>,
    pub next_id: int,
    pub eg: Seq<(Seq<char>, i64)>,
    pub ea: Seq<Seq<char>>,
    pub ngs: int,
    pub gc: int,
    pub nas: int,
    pub changed: bool,
}

/// Making a card named `name`, unless one is named so already (ASCII case
/// aside): the new or existing card's id. The sort and count counters move
/// on either way.
pub open spec fn create(st: RState, name: Seq<char>) -> (RState, i64) {
    let st2 = RState { ngs: st.ngs + 1, gc: st.gc + 1, ..st };
    match nocase_index(st.groups, name) {
        Some(j) => (st2, st.groups[j].id),
        None => (
            RState {
                groups: st.groups.push(
                    GroupV { id: st.next_id as i64, name, color_index: (st.gc % 10) as i32, sort_order: st.ngs as i32 },
                ),
                next_id: st.next_id + 1,
                ..st2
            },
            st.next_id as i64,
        ),
    }
}

/// A card for main genre `e` when it has neither a card nor a chip.
pub open spec fn step_roots(st: RState, e: (Seq<char>, Seq<char>), lists: Seq<Seq<Seq<char>>>) -> RState {
    if is_root_key(lists, e.0) && map_get(st.eg, e.0) is None && !st.ea.contains(e.0) {
        let (s2, id) = create(st, e.1);
        RState { eg: map_put(s2.eg, e.0, id), changed: true, ..s2 }
    } else {
        st
    }
}

pub open spec fn fold_roots(st: RState, u: Seq<(Seq<char>, Seq<char>)>, lists: Seq<Seq<Seq<char>>>) -> RState
    decreases u.len(),
{
    if u.len() == 0 {
        st
    } else {
        step_roots(fold_roots(st, u.drop_last(), lists), u.last(), lists)
    }
}

/// For sub-genre `e` with neither a card nor a chip: a chip under the card
/// of the main genre it follows most often; when that main genre has no
/// card (it was made a chip itself), a card of its own and no chip, so
/// that no genre is ever both a card and a chip.
pub open spec fn step_children(st: RState, e: (Seq<char>, Seq<char>), lists: Seq<Seq<Seq<char>>>) -> RState {
    if st.ea.contains(e.0) || map_get(st.eg, e.0) is Some {
        st
    } else {
        match best_root(lists, e.0) {
            None => st,
            Some(rk) => match map_get(st.eg, rk) {
                None => {
                    let (s2, gid) = create(st, e.1);
                    RState { eg: map_put(s2.eg, e.0, gid), changed: true, ..s2 }
                },
                Some(gid) => {
                    let assigns = if chip_named(st.assigns, e.1) {
                        st.assigns
                    } else {
                        st.assigns.push(AssignV { tag_name: e.1, group_id: gid, sort_order: st.nas as i32 })
                    };
                    RState {
                        assigns,
                        eg: map_put(st.eg, e.0, gid),
                        ea: set_add(st.ea, e.0),
                        nas: st.nas + 1,
                        changed: true,
                        ..st
                    }
                },
            },
        }
    }
}

pub open spec fn fold_children(st: RState, u: Seq<(Seq<char>, Seq<char>)>, lists: Seq<Seq<Seq<char>>>) -> RState
    decreases u.len(),
{
    if u.len() == 0 {
        st
    } else {
        step_children(fold_children(st, u.drop_last(), lists), u.last(), lists)
    }
}

/// The state once unused and colliding entries are purged.
pub open spec fn purged(gs: Seq<GroupV>, a: Seq<AssignV>, next_id: int, lists: Seq<Seq<Seq<char>>>) -> RState {
    let eg0 = group_keys(gs);
    let a1 = non_colliding(a, gs);
    let ea1 = keys_without_colliding(assign_keys(a), a, gs);
    let g2 = groups_kept(gs, eg0, lists);
    let a2 = assigns_of_kept(a1, gs, eg0, lists);
    let eg2 = map_in_use(eg0, lists);
    let a3 = assigns_kept(a2, ea1, lists);
    let ea3 = set_in_use(ea1, lists);
    RState {
        groups: g2,
        assigns: a3,
        next_id,
        eg: eg2,
        ea: ea3,
        ngs: next_group_sort(g2),
        gc: g2.len() as int,
        nas: next_assign_sort(a3),
        changed: a1.len() < a.len() || eg2.len() < eg0.len() || ea3.len() < ea1.len(),
    }
}

/// A whole reconcile pass over cards `gs`, chips `a` and the songs' genre
/// lists.
pub open spec fn reconciled(gs: Seq<GroupV>, a: Seq<AssignV>, next_id: int, lists: Seq<Seq<Seq<char>>>) -> RState {
    let u = usage_of(lists);
    fold_children(fold_roots(purged(gs, a, next_id, lists), u, lists), u, lists)
}

// ---------------------------------------------------------------------------
// Reconciling: what it keeps
// ---------------------------------------------------------------------------

proof fn lemma_fold_roots_keeps(st: RState, u: Seq<(Seq<char>, Seq<char>)>, lists: Seq<Seq<Seq<char>>>)
    ensures
        st.groups.is_prefix_of(fold_roots(st, u, lists).groups),
        fold_roots(st, u, lists).assigns == st.assigns,
        !fold_roots(st, u, lists).changed ==> fold_roots(st, u, lists) == st,
    decreases u.len(),
{
    if u.len() > 0 {
        lemma_fold_roots_keeps(st, u.drop_last(), lists);
        let p = fold_roots(st, u.drop_last(), lists);
        let e = u.last();
        if is_root_key(lists, e.0) && map_get(p.eg, e.0) is None && !p.ea.contains(e.0) {
            let (s2, id) = create(p, e.1);
            assert(p.groups.is_prefix_of(s2.groups));
        }
    }
}

proof fn lemma_fold_children_keeps(st: RState, u: Seq<(Seq<char>, Seq<char>)>, lists: Seq<Seq<Seq<char>>>)
    ensures
        st.groups.is_prefix_of(fold_children(st, u, lists).groups),
        st.assigns.is_prefix_of(fold_children(st, u, lists).assigns),
        !fold_children(st, u, lists).changed ==> fold_children(st, u, lists) == st,
    decreases u.len(),
{
    if u.len() > 0 {
        lemma_fold_children_keeps(st, u.drop_last(), lists);
        let p = fold_children(st, u.drop_last(), lists);
        let e = u.last();
        if !(p.ea.contains(e.0) || map_get(p.eg, e.0) is Some) {
            if let Some(rk) = best_root(lists, e.0) {
                if map_get(p.eg, rk) is None {
                    let (s2, gid) = create(p, e.1);
                    assert(p.groups.is_prefix_of(s2.groups));
                    assert(p.assigns.is_prefix_of(s2.assigns));
                }
            }
        }
    }
}

/// Reconciling never moves or rewrites a card or chip that the purge of
/// unused and colliding entries left: they stay as they were, in their
/// order, ahead of any card or chip the pass makes.
pub proof fn reconcile_keeps_curated_rows(gs: Seq<GroupV>, a: Seq<AssignV>, next_id: int, lists: Seq<Seq<Seq<char>>>)
    ensures
        purged(gs, a, next_id, lists).groups.is_prefix_of(reconciled(gs, a, next_id, lists).groups),
        purged(gs, a, next_id, lists).assigns.is_prefix_of(reconciled(gs, a, next_id, lists).assigns),
{
    let u = usage_of(lists);
    let p = purged(gs, a, next_id, lists);
    lemma_fold_roots_keeps(p, u, lists);
    let r = fold_roots(p, u, lists);
    lemma_fold_children_keeps(r, u, lists);
}

proof fn lemma_non_colliding_len(a: Seq<AssignV>, gs: Seq<GroupV>)
    ensures
        non_colliding(a, gs).len() <= a.len(),
        non_colliding(a, gs).len() == a.len() ==> non_colliding(a, gs) == a,
    decreases a.len(),
{
    if a.len() > 0 {
        lemma_non_colliding_len(a.drop_last(), gs);
        if non_colliding(a, gs).len() == a.len() {
            assert(a.drop_last().push(a.last()) =~= a);
        }
    }
}

proof fn lemma_map_in_use_len(m: Seq<(Seq<char>, i64)>, lists: Seq<Seq<Seq<char>>>)
    ensures
        map_in_use(m, lists).len() <= m.len(),
        map_in_use(m, lists).len() == m.len() ==> forall|i: int| 0 <= i < m.len() ==> in_use(lists, (#[trigger] m[i]).0),
    decreases m.len(),
{
    if m.len() > 0 {
        lemma_map_in_use_len(m.drop_last(), lists);
        if map_in_use(m, lists).len() == m.len() {
            assert forall|i: int| 0 <= i < m.len() implies in_use(lists, (#[trigger] m[i]).0) by {
                if i < m.len() - 1 {
                    assert(m.drop_last()[i] == m[i]);
                }
            }
        }
    }
}

proof fn lemma_set_in_use_len(s: Seq<Seq<char>>, lists: Seq<Seq<Seq<char>>>)
    ensures
        set_in_use(s, lists).len() <= s.len(),
        set_in_use(s, lists).len() == s.len() ==> forall|i: int| 0 <= i < s.len() ==> in_use(lists, #[trigger] s[i]),
    decreases s.len(),
{
    if s.len() > 0 {
        lemma_set_in_use_len(s.drop_last(), lists);
        if set_in_use(s, lists).len() == s.len() {
            assert forall|i: int| 0 <= i < s.len() implies in_use(lists, #[trigger] s[i]) by {
                if i < s.len() - 1 {
                    assert(s.drop_last()[i] == s[i]);
                }
            }
        }
    }
}

proof fn lemma_groups_kept_all(gs: Seq<GroupV>, eg: Seq<(Seq<char>, i64)>, lists: Seq<Seq<Seq<char>>>)
    requires
        forall|i: int| 0 <= i < eg.len() ==> in_use(lists, (#[trigger] eg[i]).0),
    ensures
        groups_kept(gs, eg, lists) == gs,
        forall|g: GroupV| !group_gone(g, eg, lists),
    decreases gs.len(),
{
    if gs.len() > 0 {
        lemma_groups_kept_all(gs.drop_last(), eg, lists);
        assert(gs.drop_last().push(gs.last()) =~= gs);
    }
}

proof fn lemma_assigns_of_kept_all(a: Seq<AssignV>, gs: Seq<GroupV>, eg: Seq<(Seq<char>, i64)>, lists: Seq<Seq<Seq<char>>>)
    requires
        forall|g: GroupV| !group_gone(g, eg, lists),
    ensures
        assigns_of_kept(a, gs, eg, lists) == a,
    decreases a.len(),
{
    if a.len() > 0 {
        lemma_assigns_of_kept_all(a.drop_last(), gs, eg, lists);
        assert(!id_gone(a.last().group_id, gs, eg, lists));
        assert(a.drop_last().push(a.last()) =~= a);
    }
}

proof fn lemma_assigns_kept_all(a: Seq<AssignV>, ea: Seq<Seq<char>>, lists: Seq<Seq<Seq<char>>>)
    requires
        forall|i: int| 0 <= i < ea.len() ==> in_use(lists, #[trigger] ea[i]),
    ensures
        assigns_kept(a, ea, lists) == a,
    decreases a.len(),
{
    if a.len() > 0 {
        lemma_assigns_kept_all(a.drop_last(), ea, lists);
        assert(!assign_gone(a.last(), ea, lists));
        assert(a.drop_last().push(a.last()) =~= a);
    }
}

/// A reconcile pass that reports no change leaves the cards, the chips and
/// the next card id exactly as they were.
pub proof fn reconcile_reports_every_change(gs: Seq<GroupV>, a: Seq<AssignV>, next_id: int, lists: Seq<Seq<Seq<char>>>)
    requires
        !reconciled(gs, a, next_id, lists).changed,
    ensures
        reconciled(gs, a, next_id, lists).groups == gs,
        reconciled(gs, a, next_id, lists).assigns == a,
        reconciled(gs, a, next_id, lists).next_id == next_id,
{
    let u = usage_of(lists);
    let p = purged(gs, a, next_id, lists);
    lemma_fold_roots_keeps(p, u, lists);
    let r = fold_roots(p, u, lists);
    lemma_fold_children_keeps(r, u, lists);
    let eg0 = group_keys(gs);
    let a1 = non_colliding(a, gs);
    let ea1 = keys_without_colliding(assign_keys(a), a, gs);
    lemma_non_colliding_len(a, gs);
    lemma_map_in_use_len(eg0, lists);
    lemma_set_in_use_len(ea1, lists);
    lemma_groups_kept_all(gs, eg0, lists);
    lemma_assigns_of_kept_all(a1, gs, eg0, lists);
    lemma_assigns_kept_all(a1, ea1, lists);
}

} // verus!
