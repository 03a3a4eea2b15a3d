//! Reconciling the curated genre hierarchy with the genres in use: the
//! executable pass, proved step by step against the model in `tag_tree`.
use vstd::prelude::*;
use crate::tags::{TagAssignmentRow, TagGroupRow, TagManager};
use crate::tag_tree::{
    assign_gone, assign_keys, assign_v, assigns_kept, assigns_of_kept, assigns_v, best_root, best_root_exec,
    chip_named, collides, contains_key, create, fold_children, fold_roots, group_gone, group_keys, group_v,
    groups_kept, groups_v, id_gone, in_use, is_root_exec, is_root_key, keys_of, keys_v, chars_v,
    keys_without_colliding, lists_v, map_get, map_in_use, map_index, map_put, next_assign_sort, next_group_sort,
    nocase_index, non_colliding, purged, reconciled, set_add, set_del, set_in_use, step_children, step_roots,
    total_values, usage_exec, usage_has, usage_of, usage_v, AssignV, GroupV, RState,
};
use crate::text::{chars_eq, chars_of, eq_ignore_ascii_case, eq_ignore_ascii_case_chars, lowercase, string_of, to_lowercase};

verus! {

/// Keys to ids, as values.
pub open spec fn eg_v(m: Seq<(Vec<char>, i64)>) -> Seq<(Seq<char>, i64)> {
    m.map_values(|e: (Vec<char>, i64)| (e.0@, e.1))
}

/// Keys as values.
pub open spec fn ks_v(s: Seq<Vec<char>>) -> Seq<Seq<char>> {
    s.map_values(|v: Vec<char>| v@)
}

/// Where `map_index` points: the first entry with the key.
proof fn lemma_map_index(m: Seq<(Seq<char>, i64)>, k: Seq<char>)
    ensures
        match map_index(m, k) {
            Some(i) => 0 <= i < m.len() && m[i].0 == k && forall|j: int| 0 <= j < i ==> (#[trigger] m[j]).0 != k,
            None => forall|j: int| 0 <= j < m.len() ==> (#[trigger] m[j]).0 != k,
        },
    decreases m.len(),
{
    if m.len() > 0 && m[0].0 != k {
        let t = m.drop_first();
        lemma_map_index(t, k);
        assert forall|j: int| 1 <= j < m.len() implies m[j] == #[trigger] t[j - 1] by {}
        match map_index(t, k) {
            Some(i) => {
                assert forall|j: int| 0 <= j < i + 1 implies (#[trigger] m[j]).0 != k by {
                    if j > 0 {
                        assert(m[j] == t[j - 1]);
                    }
                }
            },
            None => {
                assert forall|j: int| 0 <= j < m.len() implies (#[trigger] m[j]).0 != k by {
                    if j > 0 {
                        assert(m[j] == t[j - 1]);
                    }
                }
            },
        }
    }
}

/// Where `nocase_index` points: the first card with the name, ASCII case
/// aside.
pub(crate) proof fn lemma_nocase_index(gs: Seq<GroupV>, name: Seq<char>)
    ensures
        match nocase_index(gs, name) {
            Some(i) => 0 <= i < gs.len() && eq_ignore_ascii_case(gs[i].name, name) && forall|j: int|
                0 <= j < i ==> !eq_ignore_ascii_case((#[trigger] gs[j]).name, name),
            None => forall|j: int| 0 <= j < gs.len() ==> !eq_ignore_ascii_case((#[trigger] gs[j]).name, name),
        },
    decreases gs.len(),
{
    if gs.len() > 0 && !eq_ignore_ascii_case(gs[0].name, name) {
        let t = gs.drop_first();
        lemma_nocase_index(t, name);
        assert forall|j: int| 1 <= j < gs.len() implies gs[j] == #[trigger] t[j - 1] by {}
        match nocase_index(t, name) {
            Some(i) => {
                assert forall|j: int| 0 <= j < i + 1 implies !eq_ignore_ascii_case((#[trigger] gs[j]).name, name) by {
                    if j > 0 {
                        assert(gs[j] == t[j - 1]);
                    }
                }
            },
            None => {
                assert forall|j: int| 0 <= j < gs.len() implies !eq_ignore_ascii_case((#[trigger] gs[j]).name, name) by {
                    if j > 0 {
                        assert(gs[j] == t[j - 1]);
                    }
                }
            },
        }
    }
}

/// The position of key `k` in `m` (see `map_index`).
fn find_key(m: &Vec<(Vec<char>, i64)>, k: &Vec<char>) -> (r: Option<usize>)
    ensures
        match r {
            Some(i) => i < m@.len() && map_index(eg_v(m@), k@) == Some(i as int),
            None => map_index(eg_v(m@), k@) is None,
        },
{
    let ghost mv = eg_v(m@);
    proof {
        lemma_map_index(mv, k@);
    }
    let mut i: usize = 0;
    while i < m.len()
        invariant
            i <= m@.len(),
            mv == eg_v(m@),
            mv.len() == m@.len(),
            forall|j: int| 0 <= j < i ==> (#[trigger] mv[j]).0 != k@,
        decreases m@.len() - i,
    {
        assert(mv[i as int] == (m@[i as int].0@, m@[i as int].1));
        if chars_eq(m[i].0.as_slice(), k.as_slice()) {
            proof {
                lemma_map_index(mv, k@);
                match map_index(mv, k@) {
                    Some(q) => {
                        if q < i {
                            assert(mv[q].0 != k@);
                        }
                        if q > i {
                            assert(mv[i as int].0 != k@);
                        }
                    },
                    None => {
                        assert(mv[i as int].0 != k@);
                    },
                }
            }
            return Some(i);
        }
        i += 1;
    }
    proof {
        if let Some(q) = map_index(mv, k@) {
            assert(mv[q].0 != k@);
        }
    }
    None
}

/// The id under key `k` (see `map_get`).
fn get_key(m: &Vec<(Vec<char>, i64)>, k: &Vec<char>) -> (r: Option<i64>)
    ensures
        r == map_get(eg_v(m@), k@),
{
    match find_key(m, k) {
        Some(i) => {
            assert(eg_v(m@)[i as int] == (m@[i as int].0@, m@[i as int].1));
            Some(m[i].1)
        },
        None => None,
    }
}

/// `m` with key `k` set to `v` (see `map_put`).
fn put_key(m: &mut Vec<(Vec<char>, i64)>, k: Vec<char>, v: i64)
    ensures
        eg_v(final(m)@) == map_put(eg_v(old(m)@), k@, v),
{
    let ghost kv = k@;
    match find_key(m, &k) {
        Some(i) => {
            m.set(i, (k, v));
            assert(eg_v(m@) =~= eg_v(old(m)@).update(i as int, (kv, v)));
        },
        None => {
            m.push((k, v));
            assert(eg_v(m@) =~= eg_v(old(m)@).push((kv, v)));
        },
    }
}

/// The lowercase key of a name.
fn key_of(s: &String) -> (k: Vec<char>)
    ensures
        k@ == lowercase(s@),
{
    chars_of(to_lowercase(s.as_str()).as_str())
}

pub(crate) fn copy_group(g: &TagGroupRow) -> (r: TagGroupRow)
    ensures
        group_v(r) == group_v(*g),
{
    TagGroupRow { id: g.id, name: g.name.clone(), color_index: g.color_index, sort_order: g.sort_order }
}

pub(crate) fn copy_assign(a: &TagAssignmentRow) -> (r: TagAssignmentRow)
    ensures
        assign_v(r) == assign_v(*a),
{
    TagAssignmentRow { tag_name: a.tag_name.clone(), group_id: a.group_id, sort_order: a.sort_order }
}

/// The cards by key (see `group_keys`).
fn group_keys_exec(gs: &Vec<TagGroupRow>) -> (r: Vec<(Vec<char>, i64)>)
    ensures
        eg_v(r@) == group_keys(groups_v(gs@)),
{
    let ghost gv = groups_v(gs@);
    let mut out: Vec<(Vec<char>, i64)> = Vec::new();
    let mut i: usize = 0;
    while i < gs.len()
        invariant
            i <= gs@.len(),
            gv == groups_v(gs@),
            eg_v(out@) == group_keys(gv.take(i as int)),
        decreases gs@.len() - i,
    {
        assert(gv.take(i + 1).drop_last() =~= gv.take(i as int));
        assert(gv.take(i + 1).last() == group_v(gs@[i as int]));
        let k = key_of(&gs[i].name);
        put_key(&mut out, k, gs[i].id);
        i += 1;
    }
    assert(gv.take(i as int) =~= gv);
    out
}

/// The chips' keys (see `assign_keys`).
fn assign_keys_exec(a: &Vec<TagAssignmentRow>) -> (r: Vec<Vec<char>>)
    ensures
        ks_v(r@) == assign_keys(assigns_v(a@)),
{
    let ghost av = assigns_v(a@);
    let mut out: Vec<Vec<char>> = Vec::new();
    let mut i: usize = 0;
    while i < a.len()
        invariant
            i <= a@.len(),
            av == assigns_v(a@),
            ks_v(out@) == assign_keys(av.take(i as int)),
        decreases a@.len() - i,
    {
        assert(av.take(i + 1).drop_last() =~= av.take(i as int));
        assert(av.take(i + 1).last() == assign_v(a@[i as int]));
        let k = key_of(&a[i].tag_name);
        if !contains_key(&out, &k) {
            let ghost o = ks_v(out@);
            let ghost kv = k@;
            out.push(k);
            assert(ks_v(out@) =~= o.push(kv));
        }
        i += 1;
    }
    assert(av.take(i as int) =~= av);
    out
}

/// Whether chip `a` is named like some card (see `collides`).
fn collides_exec(a: &TagAssignmentRow, gs: &Vec<TagGroupRow>) -> (b: bool)
    ensures
        b == collides(assign_v(*a), groups_v(gs@)),
{
    let ghost gv = groups_v(gs@);
    let name = chars_of(a.tag_name.as_str());
    let mut j: usize = 0;
    while j < gs.len()
        invariant
            j <= gs@.len(),
            gv == groups_v(gs@),
            name@ == a.tag_name@,
            forall|q: int| 0 <= q < j ==> !eq_ignore_ascii_case(a.tag_name@, (#[trigger] gv[q]).name),
        decreases gs@.len() - j,
    {
        assert(gv[j as int] == group_v(gs@[j as int]));
        let g = chars_of(gs[j].name.as_str());
        if eq_ignore_ascii_case_chars(name.as_slice(), g.as_slice()) {
            return true;
        }
        j += 1;
    }
    false
}

/// The chips that collide with no card (see `non_colliding`).
fn non_colliding_exec(a: &Vec<TagAssignmentRow>, gs: &Vec<TagGroupRow>) -> (r: Vec<TagAssignmentRow>)
    ensures
        assigns_v(r@) == non_colliding(assigns_v(a@), groups_v(gs@)),
{
    let ghost av = assigns_v(a@);
    let mut out: Vec<TagAssignmentRow> = Vec::new();
    let mut i: usize = 0;
    while i < a.len()
        invariant
            i <= a@.len(),
            av == assigns_v(a@),
            assigns_v(out@) == non_colliding(av.take(i as int), groups_v(gs@)),
        decreases a@.len() - i,
    {
        assert(av.take(i + 1).drop_last() =~= av.take(i as int));
        assert(av.take(i + 1).last() == assign_v(a@[i as int]));
        if !collides_exec(&a[i], gs) {
            let ghost o = assigns_v(out@);
            out.push(copy_assign(&a[i]));
            assert(assigns_v(out@) =~= o.push(assign_v(a@[i as int])));
        }
        i += 1;
    }
    assert(av.take(i as int) =~= av);
    out
}

/// `s` without key `k` (see `set_del`).
fn del_key(s: &Vec<Vec<char>>, k: &Vec<char>) -> (r: Vec<Vec<char>>)
    ensures
        ks_v(r@) == set_del(ks_v(s@), k@),
{
    let ghost sv = ks_v(s@);
    let mut out: Vec<Vec<char>> = Vec::new();
    let mut i: usize = 0;
    while i < s.len()
        invariant
            i <= s@.len(),
            sv == ks_v(s@),
            ks_v(out@) == set_del(sv.take(i as int), k@),
        decreases s@.len() - i,
    {
        assert(sv.take(i + 1).drop_last() =~= sv.take(i as int));
        assert(sv.take(i + 1).last() == s@[i as int]@);
        if !chars_eq(s[i].as_slice(), k.as_slice()) {
            let ghost o = ks_v(out@);
            out.push(s[i].clone());
            assert(ks_v(out@) =~= o.push(s@[i as int]@));
        }
        i += 1;
    }
    assert(sv.take(i as int) =~= sv);
    out
}

/// The chip keys once colliding chips' keys go (see
/// `keys_without_colliding`).
fn keys_without_colliding_exec(ks: Vec<Vec<char>>, a: &Vec<TagAssignmentRow>, gs: &Vec<TagGroupRow>) -> (r: Vec<Vec<char>>)
    ensures
        ks_v(r@) == keys_without_colliding(ks_v(ks@), assigns_v(a@), groups_v(gs@)),
{
    let ghost av = assigns_v(a@);
    let ghost k0 = ks_v(ks@);
    let mut out = ks;
    let mut i: usize = 0;
    assert(av.take(0).len() == 0);
    while i < a.len()
        invariant
            i <= a@.len(),
            av == assigns_v(a@),
            ks_v(out@) == keys_without_colliding(k0, av.take(i as int), groups_v(gs@)),
        decreases a@.len() - i,
    {
        assert(av.take(i + 1).drop_last() =~= av.take(i as int));
        assert(av.take(i + 1).last() == assign_v(a@[i as int]));
        if collides_exec(&a[i], gs) {
            let k = key_of(&a[i].tag_name);
            out = del_key(&out, &k);
        }
        i += 1;
    }
    assert(av.take(i as int) =~= av);
    out
}

/// Whether card `g` goes (see `group_gone`).
fn group_gone_exec(
    g: &TagGroupRow,
    eg: &Vec<(Vec<char>, i64)>,
    u: &Vec<(Vec<char>, String)>,
    Ghost(lv): Ghost<Seq<Seq<Seq<char>>>>,
) -> (b: bool)
    requires
        usage_v(u@) == usage_of(lv),
    ensures
        b == group_gone(group_v(*g), eg_v(eg@), lv),
{
    let ghost ev = eg_v(eg@);
    let name = chars_of(g.name.as_str());
    let mut i: usize = 0;
    while i < eg.len()
        invariant
            i <= eg@.len(),
            ev == eg_v(eg@),
            usage_v(u@) == usage_of(lv),
            name@ == g.name@,
            forall|q: int| 0 <= q < i ==> !(!in_use(lv, (#[trigger] ev[q]).0) && eq_ignore_ascii_case(g.name@, ev[q].0)),
        decreases eg@.len() - i,
    {
        assert(ev[i as int] == (eg@[i as int].0@, eg@[i as int].1));
        let used = usage_has(u, &eg[i].0);
        if !used && eq_ignore_ascii_case_chars(name.as_slice(), eg[i].0.as_slice()) {
            return true;
        }
        i += 1;
    }
    false
}

/// The cards that stay (see `groups_kept`).
fn groups_kept_exec(
    gs: &Vec<TagGroupRow>,
    eg: &Vec<(Vec<char>, i64)>,
    u: &Vec<(Vec<char>, String)>,
    Ghost(lv): Ghost<Seq<Seq<Seq<char>>>>,
) -> (r: Vec<TagGroupRow>)
    requires
        usage_v(u@) == usage_of(lv),
    ensures
        groups_v(r@) == groups_kept(groups_v(gs@), eg_v(eg@), lv),
{
    let ghost gv = groups_v(gs@);
    let mut out: Vec<TagGroupRow> = Vec::new();
    let mut i: usize = 0;
    while i < gs.len()
        invariant
            i <= gs@.len(),
            gv == groups_v(gs@),
            usage_v(u@) == usage_of(lv),
            groups_v(out@) == groups_kept(gv.take(i as int), eg_v(eg@), lv),
        decreases gs@.len() - i,
    {
        assert(gv.take(i + 1).drop_last() =~= gv.take(i as int));
        assert(gv.take(i + 1).last() == group_v(gs@[i as int]));
        if !group_gone_exec(&gs[i], eg, u, Ghost(lv)) {
            let ghost o = groups_v(out@);
            out.push(copy_group(&gs[i]));
            assert(groups_v(out@) =~= o.push(group_v(gs@[i as int])));
        }
        i += 1;
    }
    assert(gv.take(i as int) =~= gv);
    out
}

/// Whether card `id` goes (see `id_gone`).
fn id_gone_exec(
    id: i64,
    gs: &Vec<TagGroupRow>,
    eg: &Vec<(Vec<char>, i64)>,
    u: &Vec<(Vec<char>, String)>,
    Ghost(lv): Ghost<Seq<Seq<Seq<char>>>>,
) -> (b: bool)
    requires
        usage_v(u@) == usage_of(lv),
    ensures
        b == id_gone(id, groups_v(gs@), eg_v(eg@), lv),
{
    let ghost gv = groups_v(gs@);
    let mut j: usize = 0;
    while j < gs.len()
        invariant
            j <= gs@.len(),
            gv == groups_v(gs@),
            usage_v(u@) == usage_of(lv),
            forall|q: int| 0 <= q < j ==> !((#[trigger] gv[q]).id == id && group_gone(gv[q], eg_v(eg@), lv)),
        decreases gs@.len() - j,
    {
        assert(gv[j as int] == group_v(gs@[j as int]));
        if gs[j].id == id && group_gone_exec(&gs[j], eg, u, Ghost(lv)) {
            return true;
        }
        j += 1;
    }
    false
}

/// The chips whose card stays (see `assigns_of_kept`).
fn assigns_of_kept_exec(
    a: &Vec<TagAssignmentRow>,
    gs: &Vec<TagGroupRow>,
    eg: &Vec<(Vec<char>, i64)>,
    u: &Vec<(Vec<char>, String)>,
    Ghost(lv): Ghost<Seq<Seq<Seq<char>>>>,
) -> (r: Vec<TagAssignmentRow>)
    requires
        usage_v(u@) == usage_of(lv),
    ensures
        assigns_v(r@) == assigns_of_kept(assigns_v(a@), groups_v(gs@), eg_v(eg@), lv),
{
    let ghost av = assigns_v(a@);
    let mut out: Vec<TagAssignmentRow> = Vec::new();
    let mut i: usize = 0;
    while i < a.len()
        invariant
            i <= a@.len(),
            av == assigns_v(a@),
            usage_v(u@) == usage_of(lv),
            assigns_v(out@) == assigns_of_kept(av.take(i as int), groups_v(gs@), eg_v(eg@), lv),
        decreases a@.len() - i,
    {
        assert(av.take(i + 1).drop_last() =~= av.take(i as int));
        assert(av.take(i + 1).last() == assign_v(a@[i as int]));
        if !id_gone_exec(a[i].group_id, gs, eg, u, Ghost(lv)) {
            let ghost o = assigns_v(out@);
            out.push(copy_assign(&a[i]));
            assert(assigns_v(out@) =~= o.push(assign_v(a@[i as int])));
        }
        i += 1;
    }
    assert(av.take(i as int) =~= av);
    out
}

/// The card keys in use (see `map_in_use`).
fn map_in_use_exec(
    eg: &Vec<(Vec<char>, i64)>,
    u: &Vec<(Vec<char>, String)>,
    Ghost(lv): Ghost<Seq<Seq<Seq<char>>>>,
) -> (r: Vec<(Vec<char>, i64)>)
    requires
        usage_v(u@) == usage_of(lv),
    ensures
        eg_v(r@) == map_in_use(eg_v(eg@), lv),
{
    let ghost ev = eg_v(eg@);
    let mut out: Vec<(Vec<char>, i64)> = Vec::new();
    let mut i: usize = 0;
    while i < eg.len()
        invariant
            i <= eg@.len(),
            ev == eg_v(eg@),
            usage_v(u@) == usage_of(lv),
            eg_v(out@) == map_in_use(ev.take(i as int), lv),
        decreases eg@.len() - i,
    {
        assert(ev.take(i + 1).drop_last() =~= ev.take(i as int));
        assert(ev.take(i + 1).last() == (eg@[i as int].0@, eg@[i as int].1));
        if usage_has(u, &eg[i].0) {
            let ghost o = eg_v(out@);
            out.push((eg[i].0.clone(), eg[i].1));
            assert(eg_v(out@) =~= o.push((eg@[i as int].0@, eg@[i as int].1)));
        }
        i += 1;
    }
    assert(ev.take(i as int) =~= ev);
    out
}

/// Whether chip `a` goes (see `assign_gone`).
fn assign_gone_exec(
    a: &TagAssignmentRow,
    ea: &Vec<Vec<char>>,
    u: &Vec<(Vec<char>, String)>,
    Ghost(lv): Ghost<Seq<Seq<Seq<char>>>>,
) -> (b: bool)
    requires
        usage_v(u@) == usage_of(lv),
    ensures
        b == assign_gone(assign_v(*a), ks_v(ea@), lv),
{
    let ghost kv = ks_v(ea@);
    let name = chars_of(a.tag_name.as_str());
    let mut i: usize = 0;
    while i < ea.len()
        invariant
            i <= ea@.len(),
            kv == ks_v(ea@),
            usage_v(u@) == usage_of(lv),
            name@ == a.tag_name@,
            forall|q: int| 0 <= q < i ==> !(!in_use(lv, #[trigger] kv[q]) && eq_ignore_ascii_case(a.tag_name@, kv[q])),
        decreases ea@.len() - i,
    {
        assert(kv[i as int] == ea@[i as int]@);
        let used = usage_has(u, &ea[i]);
        if !used && eq_ignore_ascii_case_chars(name.as_slice(), ea[i].as_slice()) {
            return true;
        }
        i += 1;
    }
    false
}

/// The chips whose key stays in use (see `assigns_kept`).
fn assigns_kept_exec(
    a: &Vec<TagAssignmentRow>,
    ea: &Vec<Vec<char>>,
    u: &Vec<(Vec<char>, String)>,
    Ghost(lv): Ghost<Seq<Seq<Seq<char>>>>,
) -> (r: Vec<TagAssignmentRow>)
    requires
        usage_v(u@) == usage_of(lv),
    ensures
        assigns_v(r@) == assigns_kept(assigns_v(a@), ks_v(ea@), lv),
{
    let ghost av = assigns_v(a@);
    let mut out: Vec<TagAssignmentRow> = Vec::new();
    let mut i: usize = 0;
    while i < a.len()
        invariant
            i <= a@.len(),
            av == assigns_v(a@),
            usage_v(u@) == usage_of(lv),
            assigns_v(out@) == assigns_kept(av.take(i as int), ks_v(ea@), lv),
        decreases a@.len() - i,
    {
        assert(av.take(i + 1).drop_last() =~= av.take(i as int));
        assert(av.take(i + 1).last() == assign_v(a@[i as int]));
        if !assign_gone_exec(&a[i], ea, u, Ghost(lv)) {
            let ghost o = assigns_v(out@);
            out.push(copy_assign(&a[i]));
            assert(assigns_v(out@) =~= o.push(assign_v(a@[i as int])));
        }
        i += 1;
    }
    assert(av.take(i as int) =~= av);
    out
}

/// The chip keys in use (see `set_in_use`).
fn set_in_use_exec(
    ea: &Vec<Vec<char>>,
    u: &Vec<(Vec<char>, String)>,
    Ghost(lv): Ghost<Seq<Seq<Seq<char>>>>,
) -> (r: Vec<Vec<char>>)
    requires
        usage_v(u@) == usage_of(lv),
    ensures
        ks_v(r@) == set_in_use(ks_v(ea@), lv),
{
    let ghost kv = ks_v(ea@);
    let mut out: Vec<Vec<char>> = Vec::new();
    let mut i: usize = 0;
    while i < ea.len()
        invariant
            i <= ea@.len(),
            kv == ks_v(ea@),
            usage_v(u@) == usage_of(lv),
            ks_v(out@) == set_in_use(kv.take(i as int), lv),
        decreases ea@.len() - i,
    {
        assert(kv.take(i + 1).drop_last() =~= kv.take(i as int));
        assert(kv.take(i + 1).last() == ea@[i as int]@);
        if usage_has(u, &ea[i]) {
            let ghost o = ks_v(out@);
            out.push(ea[i].clone());
            assert(ks_v(out@) =~= o.push(ea@[i as int]@));
        }
        i += 1;
    }
    assert(kv.take(i as int) =~= kv);
    out
}

/// One past the largest card sort order (see `next_group_sort`).
pub(crate) fn next_group_sort_exec(gs: &Vec<TagGroupRow>) -> (r: i64)
    ensures
        r == next_group_sort(groups_v(gs@)),
        0 <= r <= i32::MAX + 1,
{
    let ghost gv = groups_v(gs@);
    let mut r: i64 = 0;
    let mut i: usize = 0;
    while i < gs.len()
        invariant
            i <= gs@.len(),
            gv == groups_v(gs@),
            r == next_group_sort(gv.take(i as int)),
            0 <= r <= i32::MAX + 1,
        decreases gs@.len() - i,
    {
        assert(gv.take(i + 1).drop_last() =~= gv.take(i as int));
        assert(gv.take(i + 1).last() == group_v(gs@[i as int]));
        let s = gs[i].sort_order as i64 + 1;
        if s > r {
            r = s;
        }
        i += 1;
    }
    assert(gv.take(i as int) =~= gv);
    r
}

/// One past the largest chip sort order (see `next_assign_sort`).
pub(crate) fn next_assign_sort_exec(a: &Vec<TagAssignmentRow>) -> (r: i64)
    ensures
        r == next_assign_sort(assigns_v(a@)),
        0 <= r <= i32::MAX + 1,
{
    let ghost av = assigns_v(a@);
    let mut r: i64 = 0;
    let mut i: usize = 0;
    while i < a.len()
        invariant
            i <= a@.len(),
            av == assigns_v(a@),
            r == next_assign_sort(av.take(i as int)),
            0 <= r <= i32::MAX + 1,
        decreases a@.len() - i,
    {
        assert(av.take(i + 1).drop_last() =~= av.take(i as int));
        assert(av.take(i + 1).last() == assign_v(a@[i as int]));
        let s = a[i].sort_order as i64 + 1;
        if s > r {
            r = s;
        }
        i += 1;
    }
    assert(av.take(i as int) =~= av);
    r
}

/// The working state of a pass.
struct Work {
    groups: Vec<TagGroupRow>,
    assigns: Vec<TagAssignmentRow>,
    next_id: i64,
    eg: Vec<(Vec<char>, i64)>,
    ea: Vec<Vec<char>>,
    ngs: i64,
    gc: usize,
    nas: i64,
    changed: bool,
}

spec fn work_v(w: &Work) -> RState {
    RState {
        groups: groups_v(w.groups@),
        assigns: assigns_v(w.assigns@),
        next_id: w.next_id as int,
        eg: eg_v(w.eg@),
        ea: ks_v(w.ea@),
        ngs: w.ngs as int,
        gc: w.gc as int,
        nas: w.nas as int,
        changed: w.changed,
    }
}

/// The state once unused and colliding entries are purged (see `purged`).
fn purge(
    gs: &Vec<TagGroupRow>,
    a: &Vec<TagAssignmentRow>,
    next_id: i64,
    u: &Vec<(Vec<char>, String)>,
    Ghost(lv): Ghost<Seq<Seq<Seq<char>>>>,
) -> (w: Work)
    requires
        usage_v(u@) == usage_of(lv),
    ensures
        work_v(&w) == purged(groups_v(gs@), assigns_v(a@), next_id as int, lv),
        0 <= w.ngs <= i32::MAX + 1,
        0 <= w.nas <= i32::MAX + 1,
{
    let eg0 = group_keys_exec(gs);
    let a1 = non_colliding_exec(a, gs);
    let ea0 = assign_keys_exec(a);
    let ea1 = keys_without_colliding_exec(ea0, a, gs);
    let g2 = groups_kept_exec(gs, &eg0, u, Ghost(lv));
    let a2 = assigns_of_kept_exec(&a1, gs, &eg0, u, Ghost(lv));
    let eg2 = map_in_use_exec(&eg0, u, Ghost(lv));
    let a3 = assigns_kept_exec(&a2, &ea1, u, Ghost(lv));
    let ea3 = set_in_use_exec(&ea1, u, Ghost(lv));
    let ngs = next_group_sort_exec(&g2);
    let nas = next_assign_sort_exec(&a3);
    let changed = a1.len() < a.len() || eg2.len() < eg0.len() || ea3.len() < ea1.len();
    let gc = g2.len();
    assert(groups_v(g2@).len() == g2@.len());
    assert(assigns_v(a1@).len() == a1@.len());
    assert(assigns_v(a@).len() == a@.len());
    assert(eg_v(eg2@).len() == eg2@.len());
    assert(eg_v(eg0@).len() == eg0@.len());
    assert(ks_v(ea3@).len() == ea3@.len());
    assert(ks_v(ea1@).len() == ea1@.len());
    Work { groups: g2, assigns: a3, next_id, eg: eg2, ea: ea3, ngs, gc, nas, changed }
}

/// The first card named `name`, ASCII case aside (see `nocase_index`).
pub(crate) fn nocase_find(gs: &Vec<TagGroupRow>, name: &String) -> (r: Option<usize>)
    ensures
        match r {
            Some(j) => j < gs@.len() && nocase_index(groups_v(gs@), name@) == Some(j as int),
            None => nocase_index(groups_v(gs@), name@) is None,
        },
{
    let ghost gv = groups_v(gs@);
    let n = chars_of(name.as_str());
    let mut j: usize = 0;
    while j < gs.len()
        invariant
            j <= gs@.len(),
            gv == groups_v(gs@),
            n@ == name@,
            forall|q: int| 0 <= q < j ==> !eq_ignore_ascii_case((#[trigger] gv[q]).name, name@),
        decreases gs@.len() - j,
    {
        assert(gv[j as int] == group_v(gs@[j as int]));
        let g = chars_of(gs[j].name.as_str());
        if eq_ignore_ascii_case_chars(g.as_slice(), n.as_slice()) {
            proof {
                lemma_nocase_index(gv, name@);
                match nocase_index(gv, name@) {
                    Some(q) => {
                        if q < j {
                            assert(!eq_ignore_ascii_case(gv[q].name, name@));
                        }
                        if q > j {
                            assert(!eq_ignore_ascii_case(gv[j as int].name, name@));
                        }
                    },
                    None => {
                        assert(!eq_ignore_ascii_case(gv[j as int].name, name@));
                    },
                }
            }
            return Some(j);
        }
        j += 1;
    }
    proof {
        lemma_nocase_index(gv, name@);
        if let Some(q) = nocase_index(gv, name@) {
            assert(!eq_ignore_ascii_case(gv[q].name, name@));
        }
    }
    None
}

/// Whether some chip is named `name`, ASCII case aside (see `chip_named`).
fn chip_named_exec(a: &Vec<TagAssignmentRow>, name: &String) -> (b: bool)
    ensures
        b == chip_named(assigns_v(a@), name@),
{
    let ghost av = assigns_v(a@);
    let n = chars_of(name.as_str());
    let mut j: usize = 0;
    while j < a.len()
        invariant
            j <= a@.len(),
            av == assigns_v(a@),
            n@ == name@,
            forall|q: int| 0 <= q < j ==> !eq_ignore_ascii_case((#[trigger] av[q]).tag_name, name@),
        decreases a@.len() - j,
    {
        assert(av[j as int] == assign_v(a@[j as int]));
        let t = chars_of(a[j].tag_name.as_str());
        if eq_ignore_ascii_case_chars(t.as_slice(), n.as_slice()) {
            return true;
        }
        j += 1;
    }
    false
}

/// Makes a card named `name` unless one is named so already (see `create`).
fn create_exec(w: &mut Work, name: &String) -> (id: i64)
    requires
        old(w).next_id < i64::MAX,
        0 <= old(w).ngs < i32::MAX,
        old(w).gc < i32::MAX,
    ensures
        (work_v(final(w)), id) == create(work_v(old(w)), name@),
        old(w).next_id <= final(w).next_id <= old(w).next_id + 1,
        final(w).ngs == old(w).ngs + 1,
        final(w).gc == old(w).gc + 1,
        final(w).nas == old(w).nas,
{
    let ghost st = work_v(w);
    let found = nocase_find(&w.groups, name);
    let ngs = w.ngs;
    let gc = w.gc;
    w.ngs = ngs + 1;
    w.gc = gc + 1;
    match found {
        Some(j) => {
            assert(groups_v(w.groups@)[j as int] == group_v(w.groups@[j as int]));
            w.groups[j].id
        },
        None => {
            let id = w.next_id;
            let row = TagGroupRow { id, name: name.clone(), color_index: (gc % 10) as i32, sort_order: ngs as i32 };
            let ghost g0 = groups_v(w.groups@);
            let ghost rv = group_v(row);
            w.groups.push(row);
            assert(groups_v(w.groups@) =~= g0.push(rv));
            w.next_id = id + 1;
            id
        },
    }
}

/// A card for main genre `name` (key `key`) when it has neither a card nor
/// a chip (see `step_roots`).
fn step_roots_exec(
    w: &mut Work,
    key: &Vec<char>,
    name: &String,
    keys: &Vec<Vec<Vec<char>>>,
    Ghost(lv): Ghost<Seq<Seq<Seq<char>>>>,
)
    requires
        chars_v(keys@) == keys_v(lv),
        old(w).next_id < i64::MAX,
        0 <= old(w).ngs < i32::MAX,
        old(w).gc < i32::MAX,
    ensures
        work_v(final(w)) == step_roots(work_v(old(w)), (key@, name@), lv),
        old(w).next_id <= final(w).next_id <= old(w).next_id + 1,
        old(w).ngs <= final(w).ngs <= old(w).ngs + 1,
        final(w).gc <= old(w).gc + 1,
        final(w).nas == old(w).nas,
{
    let root = is_root_exec(keys, key, Ghost(lv));
    if root && get_key(&w.eg, key).is_none() && !contains_key(&w.ea, key) {
        let id = create_exec(w, name);
        put_key(&mut w.eg, key.clone(), id);
        w.changed = true;
    }
}

/// A chip for sub-genre `name` (key `key`) when it has neither a card nor
/// a chip, or a card of its own when its main genre has none (see
/// `step_children`).
fn step_children_exec(
    w: &mut Work,
    key: &Vec<char>,
    name: &String,
    keys: &Vec<Vec<Vec<char>>>,
    Ghost(lv): Ghost<Seq<Seq<Seq<char>>>>,
)
    requires
        chars_v(keys@) == keys_v(lv),
        total_values(lv) < usize::MAX,
        old(w).next_id < i64::MAX,
        0 <= old(w).ngs < i32::MAX,
        old(w).gc < i32::MAX,
        0 <= old(w).nas < i32::MAX,
    ensures
        work_v(final(w)) == step_children(work_v(old(w)), (key@, name@), lv),
        old(w).next_id <= final(w).next_id <= old(w).next_id + 1,
        old(w).ngs <= final(w).ngs <= old(w).ngs + 1,
        final(w).gc <= old(w).gc + 1,
        old(w).nas <= final(w).nas <= old(w).nas + 1,
{
    if contains_key(&w.ea, key) || get_key(&w.eg, key).is_some() {
        return;
    }
    match best_root_exec(keys, key, Ghost(lv)) {
        None => {},
        Some(rk) => {
            let gid = match get_key(&w.eg, &rk) {
                Some(id) => id,
                None => {
                    let id = create_exec(w, name);
                    put_key(&mut w.eg, key.clone(), id);
                    w.changed = true;
                    return;
                },
            };
            if !chip_named_exec(&w.assigns, name) {
                let row = TagAssignmentRow { tag_name: name.clone(), group_id: gid, sort_order: w.nas as i32 };
                let ghost a0 = assigns_v(w.assigns@);
                let ghost rv = assign_v(row);
                w.assigns.push(row);
                assert(assigns_v(w.assigns@) =~= a0.push(rv));
            }
            put_key(&mut w.eg, key.clone(), gid);
            if !contains_key(&w.ea, key) {
                let ghost e0 = ks_v(w.ea@);
                w.ea.push(key.clone());
                assert(ks_v(w.ea@) =~= e0.push(key@));
            }
            w.nas = w.nas + 1;
            w.changed = true;
        },
    }
}

/// The counters have room for `n` more main genres and `n` more
/// sub-genres: a card each, and a chip each.
pub open spec fn fits(st: RState, n: int) -> bool {
    &&& st.next_id + 2 * n <= i64::MAX
    &&& st.ngs + 2 * n <= i32::MAX
    &&& st.gc + 2 * n <= i32::MAX
    &&& st.nas + n <= i32::MAX
}

fn fits_exec(w: &Work, n: usize) -> (b: bool)
    requires
        0 <= w.ngs,
        0 <= w.nas,
    ensures
        b == fits(work_v(w), n as int),
{
    let n2 = 2 * (n as i128);
    (w.next_id as i128) + n2 <= i64::MAX as i128 && (w.ngs as i128) + n2 <= i32::MAX as i128 && (w.gc as i128) + n2
        <= i32::MAX as i128 && (w.nas as i128) + (n as i128) <= i32::MAX as i128
}

impl TagManager {
    /// Brings the cards and chips in line with the genre lists of the
    /// library's songs. First, chips named like a card go, then cards and
    /// chips whose name no song uses any more (a card's chips go with it).
    /// Then every main genre (some song's first value) with neither a card
    /// nor a chip gets a card, and every other genre in use with neither
    /// gets a chip under the card of the main genre it follows most often;
    /// when that main genre has no card (it was made a chip), the genre
    /// gets a card of its own and no chip, so no genre is made both a card
    /// and a chip. Existing cards and chips are never moved. `Ok` tells whether anything
    /// changed; `Err` (nothing changed) when the ids, sort orders or card
    /// count could run past their range.
    pub fn reconcile_hierarchy(&mut self, lists: &[Vec<String>]) -> (r: Result<bool, String>)
        requires
            total_values(lists_v(lists@)) < usize::MAX,
        ensures
            ({
                let lv = lists_v(lists@);
                let g = groups_v(old(self).groups@);
                let a = assigns_v(old(self).assignments@);
                let st = purged(g, a, old(self).next_group_id as int, lv);
                let f = reconciled(g, a, old(self).next_group_id as int, lv);
                match r {
                    Ok(changed) => {
                        &&& fits(st, usage_of(lv).len() as int)
                        &&& groups_v(final(self).groups@) == f.groups
                        &&& assigns_v(final(self).assignments@) == f.assigns
                        &&& final(self).next_group_id == f.next_id
                        &&& changed == f.changed
                    },
                    Err(_) => !fits(st, usage_of(lv).len() as int) && *final(self) == *old(self),
                }
            }),
    {
        let ghost lv = lists_v(lists@);
        let keys = keys_of(lists);
        let u = usage_exec(lists, &keys);
        let ghost uv = usage_v(u@);
        assert(uv.len() == u@.len());
        let mut w = purge(&self.groups, &self.assignments, self.next_group_id, &u, Ghost(lv));
        let ghost st0 = work_v(&w);
        let n = u.len();
        if !fits_exec(&w, n) {
            return Err(string_of(chars_of("the tag hierarchy's ids or sort orders would overflow").as_slice()));
        }
        let mut i: usize = 0;
        assert(uv.take(0) =~= Seq::<(Seq<char>, Seq<char>)>::empty());
        while i < u.len()
            invariant
                i <= u@.len(),
                n == u@.len(),
                uv == usage_v(u@),
                uv.len() == u@.len(),
                chars_v(keys@) == keys_v(lv),
                work_v(&w) == fold_roots(st0, uv.take(i as int), lv),
                fits(st0, n as int),
                0 <= st0.ngs,
                st0.next_id <= w.next_id <= st0.next_id + i,
                st0.ngs <= w.ngs <= st0.ngs + i,
                w.gc <= st0.gc + i,
                w.nas == st0.nas,
            decreases u@.len() - i,
        {
            assert(uv.take(i + 1).drop_last() =~= uv.take(i as int));
            assert(uv.take(i + 1).last() == (u@[i as int].0@, u@[i as int].1@));
            step_roots_exec(&mut w, &u[i].0, &u[i].1, &keys, Ghost(lv));
            i += 1;
        }
        assert(uv.take(i as int) =~= uv);
        let ghost st1 = work_v(&w);
        let mut i: usize = 0;
        assert(uv.take(0) =~= Seq::<(Seq<char>, Seq<char>)>::empty());
        while i < u.len()
            invariant
                i <= u@.len(),
                n == u@.len(),
                uv == usage_v(u@),
                uv.len() == u@.len(),
                chars_v(keys@) == keys_v(lv),
                total_values(lv) < usize::MAX,
                work_v(&w) == fold_children(st1, uv.take(i as int), lv),
                fits(st0, n as int),
                0 <= st0.ngs,
                0 <= st0.nas,
                st0.next_id <= w.next_id <= st0.next_id + n + i,
                st0.ngs <= w.ngs <= st0.ngs + n + i,
                w.gc <= st0.gc + n + i,
                st0.nas <= w.nas <= st0.nas + i,
            decreases u@.len() - i,
        {
            assert(uv.take(i + 1).drop_last() =~= uv.take(i as int));
            assert(uv.take(i + 1).last() == (u@[i as int].0@, u@[i as int].1@));
            step_children_exec(&mut w, &u[i].0, &u[i].1, &keys, Ghost(lv));
            i += 1;
        }
        assert(uv.take(i as int) =~= uv);
        self.groups = w.groups;
        self.assignments = w.assigns;
        self.next_group_id = w.next_id;
        Ok(w.changed)
    }
}

} // verus!
