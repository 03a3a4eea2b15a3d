//! Curating the genre hierarchy by hand: colouring a card, moving a chip,
//! turning a card into a chip and back, reordering chips, and carrying a
//! merge or a deletion of tags into the hierarchy.
use vstd::prelude::*;
use crate::ordering::{entries_v, lemma_ordered_members, order_entries, ordered, Entry};
use crate::tags::{TagAssignmentRow, TagGroupRow, TagManager};
use crate::tag_tree::{assign_v, assigns_v, chip_named, group_v, groups_v, next_assign_sort, next_group_sort, nocase_index, AssignV, GroupV};
use crate::tag_reconcile::{copy_assign, copy_group, lemma_nocase_index, next_assign_sort_exec, next_group_sort_exec, nocase_find};
use crate::tag_views::{chip_entries, chips_of, chips_of_exec};
use crate::text::{ascii_lower_seq, ascii_lowercase_chars, chars_of, eq_ignore_ascii_case, eq_ignore_ascii_case_chars, string_of};

verus! {

// ---------------------------------------------------------------------------
// The model
// ---------------------------------------------------------------------------

/// The cards not named `name` (ASCII case aside).
pub open spec fn cards_not_named(gs: Seq<GroupV>, name: Seq<char>) -> Seq<GroupV>
    decreases gs.len(),
{
    if gs.len() == 0 {
        Seq::empty()
    } else {
        let r = cards_not_named(gs.drop_last(), name);
        if eq_ignore_ascii_case(gs.last().name, name) {
            r
        } else {
            r.push(gs.last())
        }
    }
}

/// Some card with id `id` is named `name` (ASCII case aside).
pub open spec fn id_named(gs: Seq<GroupV>, id: i64, name: Seq<char>) -> bool {
    exists|j: int| 0 <= j < gs.len() && (#[trigger] gs[j]).id == id && eq_ignore_ascii_case(gs[j].name, name)
}

/// The chips whose card is not named `name`: deleting a card takes its
/// chips with it.
pub open spec fn chips_not_under(a: Seq<AssignV>, gs: Seq<GroupV>, name: Seq<char>) -> Seq<AssignV>
    decreases a.len(),
{
    if a.len() == 0 {
        Seq::empty()
    } else {
        let r = chips_not_under(a.drop_last(), gs, name);
        if id_named(gs, a.last().group_id, name) {
            r
        } else {
            r.push(a.last())
        }
    }
}

/// The chips not named `name` (ASCII case aside).
pub open spec fn chips_not_named(a: Seq<AssignV>, name: Seq<char>) -> Seq<AssignV>
    decreases a.len(),
{
    if a.len() == 0 {
        Seq::empty()
    } else {
        let r = chips_not_named(a.drop_last(), name);
        if eq_ignore_ascii_case(a.last().tag_name, name) {
            r
        } else {
            r.push(a.last())
        }
    }
}

/// The cards whose id is not `id`.
pub open spec fn cards_without_id(gs: Seq<GroupV>, id: i64) -> Seq<GroupV>
    decreases gs.len(),
{
    if gs.len() == 0 {
        Seq::empty()
    } else {
        let r = cards_without_id(gs.drop_last(), id);
        if gs.last().id == id {
            r
        } else {
            r.push(gs.last())
        }
    }
}

/// Chip `name` under card `gid` at position `sort`: the chip of that name
/// (ASCII case aside) moves there keeping its spelling, or a new chip is
/// added.
pub open spec fn upsert_chip(a: Seq<AssignV>, name: Seq<char>, gid: i64, sort: i32) -> Seq<AssignV> {
    if chip_named(a, name) {
        a.map_values(
            |c: AssignV|
                if eq_ignore_ascii_case(c.tag_name, name) {
                    AssignV { tag_name: c.tag_name, group_id: gid, sort_order: sort }
                } else {
                    c
                },
        )
    } else {
        a.push(AssignV { tag_name: name, group_id: gid, sort_order: sort })
    }
}

/// Chip `tag` put last under the card named `group`: `None` when there is
/// no such card or the card's chips leave no room for another sort order.
pub open spec fn filed_under(gs: Seq<GroupV>, a: Seq<AssignV>, tag: Seq<char>, group: Seq<char>) -> Option<Seq<AssignV>> {
    match nocase_index(gs, group) {
        None => None,
        Some(j) => {
            let id = gs[j].id;
            let s = next_assign_sort(chips_of(a, id));
            if s > i32::MAX {
                None
            } else {
                Some(upsert_chip(a, tag, id, s as i32))
            }
        },
    }
}

/// The chips once `tag` is moved under card `group` (see `filed_under`);
/// naming a tag's own card leaves everything as it is.
pub open spec fn reparented(gs: Seq<GroupV>, a: Seq<AssignV>, tag: Seq<char>, group: Seq<char>) -> Option<Seq<AssignV>> {
    if eq_ignore_ascii_case(tag, group) {
        Some(a)
    } else {
        filed_under(gs, a, tag, group)
    }
}

/// Demoting card `tag` to a chip under card `group`: its card goes (with
/// its chips), then the chip is filed; the flag tells whether that
/// succeeded. Naming the tag's own card changes nothing.
pub open spec fn demoted(gs: Seq<GroupV>, a: Seq<AssignV>, tag: Seq<char>, group: Seq<char>) -> (Seq<GroupV>, Seq<AssignV>, bool) {
    if eq_ignore_ascii_case(tag, group) {
        (gs, a, true)
    } else {
        let g2 = cards_not_named(gs, tag);
        let a2 = chips_not_under(a, gs, tag);
        match filed_under(g2, a2, tag, group) {
            Some(a3) => (g2, a3, true),
            None => (g2, a2, false),
        }
    }
}

/// Promoting `tag` to a card: its chip goes, and a card is added at the
/// end (palette index from the card count) unless one is named so; the
/// flag tells whether that succeeded (the sort order, card count or next
/// id may have no room).
pub open spec fn promoted(gs: Seq<GroupV>, a: Seq<AssignV>, next_id: int, tag: Seq<char>) -> (
    Seq<GroupV>,
    Seq<AssignV>,
    int,
    bool,
) {
    let a2 = chips_not_named(a, tag);
    let s = next_group_sort(gs);
    if s > i32::MAX || gs.len() > i32::MAX {
        (gs, a2, next_id, false)
    } else if nocase_index(gs, tag) is Some {
        (gs, a2, next_id, true)
    } else if next_id >= i64::MAX {
        (gs, a2, next_id, false)
    } else {
        (
            gs.push(GroupV { id: next_id as i64, name: tag, color_index: (gs.len() % 10) as i32, sort_order: s as i32 }),
            a2,
            next_id + 1,
            true,
        )
    }
}

/// The last position of `names` holding `name` (ASCII case aside).
pub open spec fn last_match(names: Seq<Seq<char>>, name: Seq<char>) -> Option<int>
    decreases names.len(),
{
    if names.len() == 0 {
        None
    } else if eq_ignore_ascii_case(names.last(), name) {
        Some(names.len() - 1)
    } else {
        last_match(names.drop_last(), name)
    }
}

/// The first position of `names` holding `name` (ASCII case aside).
pub open spec fn first_match(names: Seq<Seq<char>>, name: Seq<char>) -> Option<int>
    decreases names.len(),
{
    if names.len() == 0 {
        None
    } else {
        match first_match(names.drop_last(), name) {
            Some(i) => Some(i),
            None => if eq_ignore_ascii_case(names.last(), name) {
                Some(names.len() - 1)
            } else {
                None
            },
        }
    }
}

/// The first chip named `name` (ASCII case aside).
pub open spec fn chip_index(a: Seq<AssignV>, name: Seq<char>) -> Option<int> {
    first_match(a.map_values(|c: AssignV| c.tag_name), name)
}

/// The names of chips `cs` in display order.
pub open spec fn sibling_names(cs: Seq<AssignV>) -> Seq<Seq<char>> {
    ordered(chip_entries(cs)).map_values(|e: Entry| cs[e.2].tag_name)
}

/// `names` with the entry at `pos` moved to `new_index`, clamped to the
/// list.
pub open spec fn moved_name(names: Seq<Seq<char>>, pos: int, new_index: i32) -> Seq<Seq<char>> {
    let rest = names.remove(pos);
    let t = if new_index < 0 {
        0
    } else if new_index > rest.len() {
        rest.len() as int
    } else {
        new_index as int
    };
    rest.insert(t, names[pos])
}

/// Each chip named like an entry of `names` takes that entry's position
/// (the last one, on repeats) as its sort order.
pub open spec fn renumbered(a: Seq<AssignV>, names: Seq<Seq<char>>) -> Seq<AssignV> {
    a.map_values(
        |c: AssignV|
            match last_match(names, c.tag_name) {
                Some(k) => AssignV { tag_name: c.tag_name, group_id: c.group_id, sort_order: k as i32 },
                None => c,
            },
    )
}

/// Moving chip `tag` to position `new_index` among its card's chips:
/// `None` when no chip is named so.
pub open spec fn reordered(a: Seq<AssignV>, tag: Seq<char>, new_index: i32) -> Option<Seq<AssignV>> {
    match chip_index(a, tag) {
        None => None,
        Some(i) => {
            let names = sibling_names(chips_of(a, a[i].group_id));
            match first_match(names, tag) {
                None => Some(a),
                Some(p) => Some(renumbered(a, moved_name(names, p, new_index))),
            }
        },
    }
}

/// The hierarchy once tag `from` is merged into `into`: `from`'s card
/// takes the name `into` when `into` has no card, and otherwise hands its
/// chips to `into`'s card and goes; then any chip named `from` goes.
pub open spec fn merged_hierarchy(gs: Seq<GroupV>, a: Seq<AssignV>, from: Seq<char>, into: Seq<char>) -> (Seq<GroupV>, Seq<AssignV>) {
    let (g1, a1) = match nocase_index(gs, from) {
        None => (gs, a),
        Some(fi) => {
            let fid = gs[fi].id;
            match nocase_index(gs, into) {
                None => (
                    gs.map_values(
                        |g: GroupV|
                            if g.id == fid {
                                GroupV { id: g.id, name: into, color_index: g.color_index, sort_order: g.sort_order }
                            } else {
                                g
                            },
                    ),
                    a,
                ),
                Some(ii) => {
                    let iid = gs[ii].id;
                    if iid == fid {
                        (gs, a)
                    } else {
                        (
                            cards_without_id(gs, fid),
                            a.map_values(
                                |c: AssignV|
                                    if c.group_id == fid {
                                        AssignV { tag_name: c.tag_name, group_id: iid, sort_order: c.sort_order }
                                    } else {
                                        c
                                    },
                            ),
                        )
                    }
                },
            }
        },
    };
    (g1, chips_not_named(a1, from))
}

/// The hierarchy once tags `names` are deleted: for each name in turn, its
/// cards go (with their chips), then its chips.
pub open spec fn deleted_hierarchy(gs: Seq<GroupV>, a: Seq<AssignV>, names: Seq<Seq<char>>) -> (Seq<GroupV>, Seq<AssignV>)
    decreases names.len(),
{
    if names.len() == 0 {
        (gs, a)
    } else {
        let (g, b) = deleted_hierarchy(gs, a, names.drop_last());
        let n = names.last();
        (cards_not_named(g, n), chips_not_named(chips_not_under(b, g, n), n))
    }
}

/// `c` taken to its Euclidean remainder by the palette size.
pub open spec fn palette_index(c: i32) -> i32 {
    ((c as int) % 10) as i32
}

// ---------------------------------------------------------------------------
// Computing it
// ---------------------------------------------------------------------------

fn own(s: &str) -> (r: String)
    ensures
        r@ == s@,
{
    string_of(chars_of(s).as_slice())
}

fn named(name: &String, n: &str) -> (b: bool)
    ensures
        b == eq_ignore_ascii_case(name@, n@),
{
    let a = chars_of(name.as_str());
    let c = chars_of(n);
    eq_ignore_ascii_case_chars(a.as_slice(), c.as_slice())
}

fn cards_not_named_exec(gs: &Vec<TagGroupRow>, name: &str) -> (r: Vec<TagGroupRow>)
    ensures
        groups_v(r@) == cards_not_named(groups_v(gs@), name@),
{
    let ghost gv = groups_v(gs@);
    let mut out: Vec<TagGroupRow> = Vec::new();
    let mut i: usize = 0;
    while i < gs.len()
        invariant
            i <= gs@.len(),
            gv == groups_v(gs@),
            groups_v(out@) == cards_not_named(gv.take(i as int), name@),
        decreases gs@.len() - i,
    {
        assert(gv.take(i + 1).drop_last() =~= gv.take(i as int));
        assert(gv.take(i + 1).last() == group_v(gs@[i as int]));
        if !named(&gs[i].name, name) {
            let ghost o = groups_v(out@);
            out.push(copy_group(&gs[i]));
            assert(groups_v(out@) =~= o.push(group_v(gs@[i as int])));
        }
        i += 1;
    }
    assert(gv.take(i as int) =~= gv);
    out
}

pub(crate) fn id_named_exec(gs: &Vec<TagGroupRow>, id: i64, name: &str) -> (b: bool)
    ensures
        b == id_named(groups_v(gs@), id, name@),
{
    let ghost gv = groups_v(gs@);
    let mut j: usize = 0;
    while j < gs.len()
        invariant
            j <= gs@.len(),
            gv == groups_v(gs@),
            forall|q: int| 0 <= q < j ==> !((#[trigger] gv[q]).id == id && eq_ignore_ascii_case(gv[q].name, name@)),
        decreases gs@.len() - j,
    {
        assert(gv[j as int] == group_v(gs@[j as int]));
        if gs[j].id == id && named(&gs[j].name, name) {
            return true;
        }
        j += 1;
    }
    false
}

fn chips_not_under_exec(a: &Vec<TagAssignmentRow>, gs: &Vec<TagGroupRow>, name: &str) -> (r: Vec<TagAssignmentRow>)
    ensures
        assigns_v(r@) == chips_not_under(assigns_v(a@), groups_v(gs@), name@),
{
    let ghost av = assigns_v(a@);
    let mut out: Vec<TagAssignmentRow> = Vec::new();
    let mut i: usize = 0;
    while i < a.len()
        invariant
            i <= a@.len(),
            av == assigns_v(a@),
            assigns_v(out@) == chips_not_under(av.take(i as int), groups_v(gs@), name@),
        decreases a@.len() - i,
    {
        assert(av.take(i + 1).drop_last() =~= av.take(i as int));
        assert(av.take(i + 1).last() == assign_v(a@[i as int]));
        if !id_named_exec(gs, a[i].group_id, name) {
            let ghost o = assigns_v(out@);
            out.push(copy_assign(&a[i]));
            assert(assigns_v(out@) =~= o.push(assign_v(a@[i as int])));
        }
        i += 1;
    }
    assert(av.take(i as int) =~= av);
    out
}

fn chips_not_named_exec(a: &Vec<TagAssignmentRow>, name: &str) -> (r: Vec<TagAssignmentRow>)
    ensures
        assigns_v(r@) == chips_not_named(assigns_v(a@), name@),
{
    let ghost av = assigns_v(a@);
    let mut out: Vec<TagAssignmentRow> = Vec::new();
    let mut i: usize = 0;
    while i < a.len()
        invariant
            i <= a@.len(),
            av == assigns_v(a@),
            assigns_v(out@) == chips_not_named(av.take(i as int), name@),
        decreases a@.len() - i,
    {
        assert(av.take(i + 1).drop_last() =~= av.take(i as int));
        assert(av.take(i + 1).last() == assign_v(a@[i as int]));
        if !named(&a[i].tag_name, name) {
            let ghost o = assigns_v(out@);
            out.push(copy_assign(&a[i]));
            assert(assigns_v(out@) =~= o.push(assign_v(a@[i as int])));
        }
        i += 1;
    }
    assert(av.take(i as int) =~= av);
    out
}

fn chip_named_exec(a: &Vec<TagAssignmentRow>, name: &str) -> (b: bool)
    ensures
        b == chip_named(assigns_v(a@), name@),
{
    let ghost av = assigns_v(a@);
    let mut j: usize = 0;
    while j < a.len()
        invariant
            j <= a@.len(),
            av == assigns_v(a@),
            forall|q: int| 0 <= q < j ==> !eq_ignore_ascii_case((#[trigger] av[q]).tag_name, name@),
        decreases a@.len() - j,
    {
        assert(av[j as int] == assign_v(a@[j as int]));
        if named(&a[j].tag_name, name) {
            return true;
        }
        j += 1;
    }
    false
}

/// Files chip `name` under card `gid` at `sort` (see `upsert_chip`).
fn upsert_chip_exec(a: &mut Vec<TagAssignmentRow>, name: &str, gid: i64, sort: i32)
    ensures
        assigns_v(final(a)@) == upsert_chip(assigns_v(old(a)@), name@, gid, sort),
{
    let ghost av = assigns_v(a@);
    if chip_named_exec(a, name) {
        let ghost target = av.map_values(
            |c: AssignV|
                if eq_ignore_ascii_case(c.tag_name, name@) {
                    AssignV { tag_name: c.tag_name, group_id: gid, sort_order: sort }
                } else {
                    c
                },
        );
        let mut i: usize = 0;
        while i < a.len()
            invariant
                i <= a@.len(),
                a@.len() == av.len(),
                target.len() == av.len(),
                target == av.map_values(
                    |c: AssignV|
                        if eq_ignore_ascii_case(c.tag_name, name@) {
                            AssignV { tag_name: c.tag_name, group_id: gid, sort_order: sort }
                        } else {
                            c
                        },
                ),
                forall|q: int| 0 <= q < i ==> (#[trigger] assigns_v(a@)[q]) == target[q],
                forall|q: int| i <= q < a@.len() ==> (#[trigger] assigns_v(a@)[q]) == av[q],
            decreases a@.len() - i,
        {
            assert(assigns_v(a@)[i as int] == assign_v(a@[i as int]));
            if named(&a[i].tag_name, name) {
                let ghost before = assigns_v(a@);
                let row = TagAssignmentRow { tag_name: a[i].tag_name.clone(), group_id: gid, sort_order: sort };
                let ghost rv = assign_v(row);
                a.set(i, row);
                assert(assigns_v(a@) =~= before.update(i as int, rv));
            }
            i += 1;
        }
        assert(assigns_v(a@) =~= target);
    } else {
        let ghost before = assigns_v(a@);
        a.push(TagAssignmentRow { tag_name: own(name), group_id: gid, sort_order: sort });
        assert(assigns_v(a@) =~= before.push(AssignV { tag_name: name@, group_id: gid, sort_order: sort }));
    }
}

/// Files chip `tag` last under card `group` (see `filed_under`); `false`,
/// with the chips untouched, where that gives `None`.
fn file_under(gs: &Vec<TagGroupRow>, a: &mut Vec<TagAssignmentRow>, tag: &str, group: &str) -> (ok: bool)
    ensures
        ok == filed_under(groups_v(gs@), assigns_v(old(a)@), tag@, group@) is Some,
        ok ==> Some(assigns_v(final(a)@)) == filed_under(groups_v(gs@), assigns_v(old(a)@), tag@, group@),
        !ok ==> *final(a) == *old(a),
{
    let gname = own(group);
    match nocase_find(gs, &gname) {
        None => false,
        Some(j) => {
            let id = gs[j].id;
            assert(groups_v(gs@)[j as int] == group_v(gs@[j as int]));
            let cs = chips_of_exec(a, id);
            let s = next_assign_sort_exec(&cs);
            if s > i32::MAX as i64 {
                false
            } else {
                upsert_chip_exec(a, tag, id, s as i32);
                true
            }
        },
    }
}

/// The chips in display order: their sort entries, ordered.
fn sibling_order(cs: &Vec<TagAssignmentRow>) -> (r: Vec<(i64, Vec<char>, usize)>)
    ensures
        entries_v(r@) == ordered(chip_entries(assigns_v(cs@))),
{
    let ghost cv = assigns_v(cs@);
    let mut es: Vec<(i64, Vec<char>, usize)> = Vec::new();
    let mut i: usize = 0;
    while i < cs.len()
        invariant
            i <= cs@.len(),
            cv == assigns_v(cs@),
            es@.len() == i,
            forall|q: int| 0 <= q < i ==> (#[trigger] entries_v(es@)[q]) == (
                cv[q].sort_order as int,
                ascii_lower_seq(cv[q].tag_name),
                q,
            ),
        decreases cs@.len() - i,
    {
        let ghost e0 = entries_v(es@);
        let n = chars_of(cs[i].tag_name.as_str());
        let low = ascii_lowercase_chars(n.as_slice());
        es.push((cs[i].sort_order as i64, low, i));
        assert(cv[i as int] == assign_v(cs@[i as int]));
        assert(entries_v(es@) =~= e0.push((cv[i as int].sort_order as int, ascii_lower_seq(cv[i as int].tag_name), i as int)));
        i += 1;
    }
    assert(entries_v(es@) =~= chip_entries(cv));
    order_entries(es)
}

/// The names of chips `cs` in display order (see `sibling_names`).
fn sibling_names_exec(cs: &Vec<TagAssignmentRow>) -> (r: Vec<String>)
    ensures
        r@.map_values(|s: String| s@) == sibling_names(assigns_v(cs@)),
{
    let ghost cv = assigns_v(cs@);
    let ghost ce = chip_entries(cv);
    let sorted = sibling_order(cs);
    let ghost os = ordered(ce);
    proof {
        lemma_ordered_members(ce);
    }
    assert(entries_v(sorted@).len() == sorted@.len());
    let mut out: Vec<String> = Vec::new();
    let mut k: usize = 0;
    while k < sorted.len()
        invariant
            k <= sorted@.len(),
            entries_v(sorted@) == os,
            os == ordered(ce),
            os.len() == ce.len(),
            ce == chip_entries(cv),
            cv == assigns_v(cs@),
            forall|q: int| 0 <= q < ce.len() ==> ce.contains(#[trigger] os[q]),
            out@.map_values(|s: String| s@) == os.take(k as int).map_values(|e: Entry| cv[e.2].tag_name),
        decreases sorted@.len() - k,
    {
        assert(os[k as int] == (sorted@[k as int].0 as int, sorted@[k as int].1@, sorted@[k as int].2 as int));
        assert(ce.contains(os[k as int]));
        let ghost w = choose|w: int| 0 <= w < ce.len() && ce[w] == os[k as int];
        let j = sorted[k].2;
        assert(j as int == w);
        assert(cv[j as int] == assign_v(cs@[j as int]));
        let ghost o0 = out@.map_values(|s: String| s@);
        out.push(cs[j].tag_name.clone());
        assert(out@.map_values(|s: String| s@) =~= o0.push(cv[j as int].tag_name));
        assert(os.take(k + 1).map_values(|e: Entry| cv[e.2].tag_name) =~= os.take(k as int).map_values(
            |e: Entry| cv[e.2].tag_name,
        ).push(cv[os[k as int].2].tag_name));
        k += 1;
    }
    assert(os.take(k as int) =~= os);
    out
}

/// The first position of `names` holding `name` (see `first_match`).
fn first_match_exec(names: &Vec<String>, name: &str) -> (r: Option<usize>)
    ensures
        match r {
            Some(i) => i < names@.len() && first_match(names@.map_values(|s: String| s@), name@) == Some(i as int),
            None => first_match(names@.map_values(|s: String| s@), name@) is None,
        },
{
    let ghost nv = names@.map_values(|s: String| s@);
    let mut i: usize = 0;
    while i < names.len()
        invariant
            i <= names@.len(),
            nv == names@.map_values(|s: String| s@),
            first_match(nv.take(i as int), name@) is None,
        decreases names@.len() - i,
    {
        assert(nv.take(i + 1).drop_last() =~= nv.take(i as int));
        assert(nv.take(i + 1).last() == names@[i as int]@);
        if named(&names[i], name) {
            proof {
                lemma_first_match_prefix(nv, name@, i + 1);
            }
            return Some(i);
        }
        i += 1;
    }
    assert(nv.take(i as int) =~= nv);
    None
}

proof fn lemma_first_match_prefix(s: Seq<Seq<char>>, name: Seq<char>, k: int)
    requires
        0 <= k <= s.len(),
        first_match(s.take(k), name) is Some,
    ensures
        first_match(s, name) == first_match(s.take(k), name),
    decreases s.len() - k,
{
    if k < s.len() {
        assert(s.take(k + 1).drop_last() =~= s.take(k));
        lemma_first_match_prefix(s, name, k + 1);
    } else {
        assert(s.take(k) =~= s);
    }
}

/// The last position of `names` holding `name` (see `last_match`).
fn last_match_exec(names: &Vec<String>, name: &String) -> (r: Option<usize>)
    ensures
        match r {
            Some(k) => last_match(names@.map_values(|s: String| s@), name@) == Some(k as int),
            None => last_match(names@.map_values(|s: String| s@), name@) is None,
        },
{
    let ghost nv = names@.map_values(|s: String| s@);
    let n = chars_of(name.as_str());
    let mut k: usize = names.len();
    assert(nv.take(k as int) =~= nv);
    while k > 0
        invariant
            k <= names@.len(),
            nv == names@.map_values(|s: String| s@),
            n@ == name@,
            last_match(nv, name@) == last_match(nv.take(k as int), name@),
        decreases k,
    {
        let ghost t = nv.take(k as int);
        assert(t.last() == names@[k - 1]@);
        assert(t.drop_last() =~= nv.take(k - 1));
        let c = chars_of(names[k - 1].as_str());
        if eq_ignore_ascii_case_chars(c.as_slice(), n.as_slice()) {
            return Some(k - 1);
        }
        k -= 1;
    }
    None
}

/// Each chip named like an entry of `names` takes that entry's position as
/// its sort order (see `renumbered`).
fn renumber(a: &mut Vec<TagAssignmentRow>, names: &Vec<String>)
    ensures
        assigns_v(final(a)@) == renumbered(assigns_v(old(a)@), names@.map_values(|s: String| s@)),
{
    let ghost av = assigns_v(a@);
    let ghost nv = names@.map_values(|s: String| s@);
    let ghost target = renumbered(av, nv);
    let mut i: usize = 0;
    while i < a.len()
        invariant
            i <= a@.len(),
            a@.len() == av.len(),
            nv == names@.map_values(|s: String| s@),
            target == renumbered(av, nv),
            target.len() == av.len(),
            forall|q: int| 0 <= q < i ==> (#[trigger] assigns_v(a@)[q]) == target[q],
            forall|q: int| i <= q < a@.len() ==> (#[trigger] assigns_v(a@)[q]) == av[q],
        decreases a@.len() - i,
    {
        assert(assigns_v(a@)[i as int] == assign_v(a@[i as int]));
        match last_match_exec(names, &a[i].tag_name) {
            Some(k) => {
                let ghost before = assigns_v(a@);
                let row = TagAssignmentRow { tag_name: a[i].tag_name.clone(), group_id: a[i].group_id, sort_order: k as i32 };
                let ghost rv = assign_v(row);
                a.set(i, row);
                assert(assigns_v(a@) =~= before.update(i as int, rv));
            },
            None => {},
        }
        i += 1;
    }
    assert(assigns_v(a@) =~= target);
}

impl TagManager {
    /// Sets the colour of the cards named `name` (ASCII case aside) to
    /// `color_index` taken into the palette (its Euclidean remainder by
    /// the palette size).
    pub fn set_group_color(&mut self, name: &str, color_index: i32)
        ensures
            groups_v(final(self).groups@) == groups_v(old(self).groups@).map_values(
                |g: GroupV|
                    if eq_ignore_ascii_case(g.name, name@) {
                        GroupV { id: g.id, name: g.name, color_index: palette_index(color_index), sort_order: g.sort_order }
                    } else {
                        g
                    },
            ),
            final(self).assignments == old(self).assignments,
            final(self).next_group_id == old(self).next_group_id,
    {
        let m = color_index % 10;
        let c = if m < 0 {
            m + 10
        } else {
            m
        };
        assert(c == palette_index(color_index));
        let ghost gv = groups_v(self.groups@);
        let ghost target = gv.map_values(
            |g: GroupV|
                if eq_ignore_ascii_case(g.name, name@) {
                    GroupV { id: g.id, name: g.name, color_index: palette_index(color_index), sort_order: g.sort_order }
                } else {
                    g
                },
        );
        let mut i: usize = 0;
        while i < self.groups.len()
            invariant
                i <= self.groups@.len(),
                self.groups@.len() == gv.len(),
                c == palette_index(color_index),
                target.len() == gv.len(),
                target == gv.map_values(
                    |g: GroupV|
                        if eq_ignore_ascii_case(g.name, name@) {
                            GroupV { id: g.id, name: g.name, color_index: palette_index(color_index), sort_order: g.sort_order }
                        } else {
                            g
                        },
                ),
                forall|q: int| 0 <= q < i ==> (#[trigger] groups_v(self.groups@)[q]) == target[q],
                forall|q: int| i <= q < self.groups@.len() ==> (#[trigger] groups_v(self.groups@)[q]) == gv[q],
                self.assignments == old(self).assignments,
                self.next_group_id == old(self).next_group_id,
            decreases self.groups@.len() - i,
        {
            assert(groups_v(self.groups@)[i as int] == group_v(self.groups@[i as int]));
            if named(&self.groups[i].name, name) {
                let ghost before = groups_v(self.groups@);
                let g = &self.groups[i];
                let row = TagGroupRow { id: g.id, name: g.name.clone(), color_index: c, sort_order: g.sort_order };
                let ghost rv = group_v(row);
                self.groups.set(i, row);
                assert(groups_v(self.groups@) =~= before.update(i as int, rv));
            }
            i += 1;
        }
        assert(groups_v(self.groups@) =~= target);
    }

    /// Moves chip `tag_name` to the end of card `new_group_name`'s chips,
    /// adding the chip when there is none; naming the tag's own card
    /// (ASCII case aside) does nothing. `Err`, with nothing changed, when
    /// there is no such card or its chips leave no room for another sort
    /// order.
    pub fn reparent_tag(&mut self, tag_name: &str, new_group_name: &str) -> (r: Result<(), String>)
        ensures
            final(self).groups == old(self).groups,
            final(self).next_group_id == old(self).next_group_id,
            match reparented(groups_v(old(self).groups@), assigns_v(old(self).assignments@), tag_name@, new_group_name@) {
                Some(a) => r is Ok && assigns_v(final(self).assignments@) == a,
                None => r is Err && final(self).assignments == old(self).assignments,
            },
    {
        let t = chars_of(tag_name);
        let g = chars_of(new_group_name);
        if eq_ignore_ascii_case_chars(t.as_slice(), g.as_slice()) {
            return Ok(());
        }
        if file_under(&self.groups, &mut self.assignments, tag_name, new_group_name) {
            Ok(())
        } else {
            Err(own("no card with that name has room for the tag"))
        }
    }

    /// Turns card `tag_name` into a chip at the end of card
    /// `new_group_name`: its own card goes, taking its chips with it, then
    /// the chip is filed; naming the tag's own card does nothing. `Err`
    /// when the chip cannot be filed (no such card, or no room for another
    /// sort order); the card is gone by then.
    pub fn demote_group_to_child(&mut self, tag_name: &str, new_group_name: &str) -> (r: Result<(), String>)
        ensures
            final(self).next_group_id == old(self).next_group_id,
            ({
                let d = demoted(groups_v(old(self).groups@), assigns_v(old(self).assignments@), tag_name@, new_group_name@);
                &&& groups_v(final(self).groups@) == d.0
                &&& assigns_v(final(self).assignments@) == d.1
                &&& (r is Ok <==> d.2)
            }),
    {
        let t = chars_of(tag_name);
        let g = chars_of(new_group_name);
        if eq_ignore_ascii_case_chars(t.as_slice(), g.as_slice()) {
            return Ok(());
        }
        let g2 = cards_not_named_exec(&self.groups, tag_name);
        let a2 = chips_not_under_exec(&self.assignments, &self.groups, tag_name);
        self.groups = g2;
        self.assignments = a2;
        if file_under(&self.groups, &mut self.assignments, tag_name, new_group_name) {
            Ok(())
        } else {
            Err(own("no card with that name has room for the tag"))
        }
    }

    /// Turns chip `tag_name` into a card: its chip goes, and a card is added
    /// last unless one is named so (see `promoted`). `Err` when the card's
    /// sort order, the card count or the next id has no room; the chip is
    /// gone by then.
    pub fn promote_tag(&mut self, tag_name: &str) -> (r: Result<(), String>)
        ensures
            ({
                let p = promoted(
                    groups_v(old(self).groups@),
                    assigns_v(old(self).assignments@),
                    old(self).next_group_id as int,
                    tag_name@,
                );
                &&& groups_v(final(self).groups@) == p.0
                &&& assigns_v(final(self).assignments@) == p.1
                &&& final(self).next_group_id == p.2
                &&& (r is Ok <==> p.3)
            }),
    {
        let a2 = chips_not_named_exec(&self.assignments, tag_name);
        self.assignments = a2;
        let s = next_group_sort_exec(&self.groups);
        let n = self.groups.len();
        assert(groups_v(self.groups@).len() == n);
        if s > i32::MAX as i64 || n > i32::MAX as usize {
            return Err(own("no room for another card"));
        }
        let name = own(tag_name);
        if nocase_find(&self.groups, &name).is_some() {
            return Ok(());
        }
        if self.next_group_id == i64::MAX {
            return Err(own("no room for another card"));
        }
        let ghost g0 = groups_v(self.groups@);
        let row = TagGroupRow { id: self.next_group_id, name, color_index: (n % 10) as i32, sort_order: s as i32 };
        let ghost rv = group_v(row);
        self.groups.push(row);
        assert(groups_v(self.groups@) =~= g0.push(rv));
        self.next_group_id = self.next_group_id + 1;
        Ok(())
    }

    /// Moves chip `tag_name` to position `new_index` (clamped to the list)
    /// among its card's chips in display order, then numbers those chips
    /// from 0 in that order. `Err`, with nothing changed, when no chip is
    /// named so.
    pub fn reorder_tag_in_group(&mut self, tag_name: &str, new_index: i32) -> (r: Result<(), String>)
        ensures
            final(self).groups == old(self).groups,
            final(self).next_group_id == old(self).next_group_id,
            match reordered(assigns_v(old(self).assignments@), tag_name@, new_index) {
                Some(a) => r is Ok && assigns_v(final(self).assignments@) == a,
                None => r is Err && final(self).assignments == old(self).assignments,
            },
    {
        let ghost av = assigns_v(self.assignments@);
        let mut names_all: Vec<String> = Vec::new();
        let mut i: usize = 0;
        while i < self.assignments.len()
            invariant
                i <= self.assignments@.len(),
                av == assigns_v(self.assignments@),
                names_all@.map_values(|s: String| s@) == av.take(i as int).map_values(|c: AssignV| c.tag_name),
            decreases self.assignments@.len() - i,
        {
            let ghost n0 = names_all@.map_values(|s: String| s@);
            names_all.push(self.assignments[i].tag_name.clone());
            assert(names_all@.map_values(|s: String| s@) =~= n0.push(self.assignments@[i as int].tag_name@));
            assert(av.take(i + 1).map_values(|c: AssignV| c.tag_name) =~= av.take(i as int).map_values(
                |c: AssignV| c.tag_name,
            ).push(av[i as int].tag_name));
            i += 1;
        }
        assert(av.take(i as int) =~= av);
        let found = first_match_exec(&names_all, tag_name);
        let ci = match found {
            None => {
                return Err(own("no chip with that name"));
            },
            Some(ci) => ci,
        };
        assert(av[ci as int] == assign_v(self.assignments@[ci as int]));
        let gid = self.assignments[ci].group_id;
        let sibs = chips_of_exec(&self.assignments, gid);
        let mut names = sibling_names_exec(&sibs);
        let ghost nv = names@.map_values(|s: String| s@);
        match first_match_exec(&names, tag_name) {
            None => Ok(()),
            Some(pos) => {
                let moved = names.remove(pos);
                let len = names.len();
                let t: usize = if new_index < 0 {
                    0
                } else if new_index as usize > len {
                    len
                } else {
                    new_index as usize
                };
                names.insert(t, moved);
                assert(names@.map_values(|s: String| s@) =~= moved_name(nv, pos as int, new_index));
                renumber(&mut self.assignments, &names);
                Ok(())
            },
        }
    }

    /// Carries a merge of tag `from` into `into` into the hierarchy (see
    /// `merged_hierarchy`).
    pub fn apply_merge_hierarchy(&mut self, from: &str, into: &str)
        ensures
            ({
                let m = merged_hierarchy(groups_v(old(self).groups@), assigns_v(old(self).assignments@), from@, into@);
                &&& groups_v(final(self).groups@) == m.0
                &&& assigns_v(final(self).assignments@) == m.1
            }),
            final(self).next_group_id == old(self).next_group_id,
    {
        let ghost gv = groups_v(self.groups@);
        let ghost av = assigns_v(self.assignments@);
        let f = own(from);
        let t = own(into);
        match nocase_find(&self.groups, &f) {
            None => {},
            Some(fi) => {
                assert(gv[fi as int] == group_v(self.groups@[fi as int]));
                let fid = self.groups[fi].id;
                match nocase_find(&self.groups, &t) {
                    None => {
                        let ghost target = gv.map_values(
                            |g: GroupV|
                                if g.id == fid {
                                    GroupV { id: g.id, name: into@, color_index: g.color_index, sort_order: g.sort_order }
                                } else {
                                    g
                                },
                        );
                        let mut i: usize = 0;
                        while i < self.groups.len()
                            invariant
                                i <= self.groups@.len(),
                                self.groups@.len() == gv.len(),
                                target.len() == gv.len(),
                                t@ == into@,
                                target == gv.map_values(
                                    |g: GroupV|
                                        if g.id == fid {
                                            GroupV { id: g.id, name: into@, color_index: g.color_index, sort_order: g.sort_order }
                                        } else {
                                            g
                                        },
                                ),
                                forall|q: int| 0 <= q < i ==> (#[trigger] groups_v(self.groups@)[q]) == target[q],
                                forall|q: int| i <= q < self.groups@.len() ==> (#[trigger] groups_v(self.groups@)[q]) == gv[q],
                                assigns_v(self.assignments@) == av,
                                self.next_group_id == old(self).next_group_id,
                            decreases self.groups@.len() - i,
                        {
                            assert(groups_v(self.groups@)[i as int] == group_v(self.groups@[i as int]));
                            if self.groups[i].id == fid {
                                let ghost before = groups_v(self.groups@);
                                let g = &self.groups[i];
                                let row = TagGroupRow { id: g.id, name: t.clone(), color_index: g.color_index, sort_order: g.sort_order };
                                let ghost rv = group_v(row);
                                self.groups.set(i, row);
                                assert(groups_v(self.groups@) =~= before.update(i as int, rv));
                            }
                            i += 1;
                        }
                        assert(groups_v(self.groups@) =~= target);
                    },
                    Some(ii) => {
                        assert(gv[ii as int] == group_v(self.groups@[ii as int]));
                        let iid = self.groups[ii].id;
                        if iid != fid {
                            let ghost target = av.map_values(
                                |c: AssignV|
                                    if c.group_id == fid {
                                        AssignV { tag_name: c.tag_name, group_id: iid, sort_order: c.sort_order }
                                    } else {
                                        c
                                    },
                            );
                            let mut i: usize = 0;
                            while i < self.assignments.len()
                                invariant
                                    i <= self.assignments@.len(),
                                    self.assignments@.len() == av.len(),
                                    target.len() == av.len(),
                                    target == av.map_values(
                                        |c: AssignV|
                                            if c.group_id == fid {
                                                AssignV { tag_name: c.tag_name, group_id: iid, sort_order: c.sort_order }
                                            } else {
                                                c
                                            },
                                    ),
                                    forall|q: int| 0 <= q < i ==> (#[trigger] assigns_v(self.assignments@)[q]) == target[q],
                                    forall|q: int|
                                        i <= q < self.assignments@.len() ==> (#[trigger] assigns_v(self.assignments@)[q]) == av[q],
                                    groups_v(self.groups@) == gv,
                                    self.next_group_id == old(self).next_group_id,
                                decreases self.assignments@.len() - i,
                            {
                                assert(assigns_v(self.assignments@)[i as int] == assign_v(self.assignments@[i as int]));
                                if self.assignments[i].group_id == fid {
                                    let ghost before = assigns_v(self.assignments@);
                                    let c = &self.assignments[i];
                                    let row = TagAssignmentRow { tag_name: c.tag_name.clone(), group_id: iid, sort_order: c.sort_order };
                                    let ghost rv = assign_v(row);
                                    self.assignments.set(i, row);
                                    assert(assigns_v(self.assignments@) =~= before.update(i as int, rv));
                                }
                                i += 1;
                            }
                            assert(assigns_v(self.assignments@) =~= target);
                            let ghost g0 = groups_v(self.groups@);
                            let mut kept: Vec<TagGroupRow> = Vec::new();
                            let mut i: usize = 0;
                            while i < self.groups.len()
                                invariant
                                    i <= self.groups@.len(),
                                    g0 == groups_v(self.groups@),
                                    groups_v(kept@) == cards_without_id(g0.take(i as int), fid),
                                decreases self.groups@.len() - i,
                            {
                                assert(g0.take(i + 1).drop_last() =~= g0.take(i as int));
                                assert(g0.take(i + 1).last() == group_v(self.groups@[i as int]));
                                if self.groups[i].id != fid {
                                    let ghost o = groups_v(kept@);
                                    kept.push(copy_group(&self.groups[i]));
                                    assert(groups_v(kept@) =~= o.push(group_v(self.groups@[i as int])));
                                }
                                i += 1;
                            }
                            assert(g0.take(i as int) =~= g0);
                            self.groups = kept;
                        }
                    },
                }
            },
        }
        let a3 = chips_not_named_exec(&self.assignments, from);
        self.assignments = a3;
    }

    /// Carries the deletion of tags `names` into the hierarchy (see
    /// `deleted_hierarchy`).
    pub fn apply_delete_hierarchy(&mut self, names: &[String])
        ensures
            ({
                let d = deleted_hierarchy(
                    groups_v(old(self).groups@),
                    assigns_v(old(self).assignments@),
                    names@.map_values(|s: String| s@),
                );
                &&& groups_v(final(self).groups@) == d.0
                &&& assigns_v(final(self).assignments@) == d.1
            }),
            final(self).next_group_id == old(self).next_group_id,
    {
        let ghost nv = names@.map_values(|s: String| s@);
        let ghost g0 = groups_v(self.groups@);
        let ghost a0 = assigns_v(self.assignments@);
        let mut i: usize = 0;
        while i < names.len()
            invariant
                i <= names@.len(),
                nv == names@.map_values(|s: String| s@),
                (groups_v(self.groups@), assigns_v(self.assignments@)) == deleted_hierarchy(g0, a0, nv.take(i as int)),
                self.next_group_id == old(self).next_group_id,
            decreases names@.len() - i,
        {
            assert(nv.take(i + 1).drop_last() =~= nv.take(i as int));
            assert(nv.take(i + 1).last() == names@[i as int]@);
            let n = names[i].as_str();
            let g2 = cards_not_named_exec(&self.groups, n);
            let b2 = chips_not_under_exec(&self.assignments, &self.groups, n);
            let b3 = chips_not_named_exec(&b2, n);
            self.groups = g2;
            self.assignments = b3;
            i += 1;
        }
        assert(nv.take(i as int) =~= nv);
    }
}

} // verus!
