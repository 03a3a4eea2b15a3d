//! Which songs a tag, or a curated card, stands for.
use vstd::prelude::*;
use crate::tags::{genre_has_any, has_any_target, take_limit, TagManager};
use crate::tag_tree::{assign_v, assigns_v, groups_v, AssignV, GroupV};
use crate::tag_edit::id_named;
use crate::text::{chars_of, eq_ignore_ascii_case, eq_ignore_ascii_case_chars, lowercase, to_lowercase, views};

verus! {

/// How many results a caller's limit allows: all for a negative limit,
/// else the limit taken as a `usize`.
pub open spec fn limit_count(limit: i64) -> int {
    if limit < 0 {
        usize::MAX as int
    } else {
        (limit as usize) as int
    }
}

/// The ids of the rows whose genre field holds a value with the lowercase
/// form of one of `targets`, in order, at most `n` of them.
pub open spec fn matching_ids(rows: Seq<(i64, Seq<char>)>, targets: Seq<Seq<char>>, n: int) -> Seq<i64>
    decreases rows.len(),
{
    if rows.len() == 0 {
        Seq::empty()
    } else {
        let r = matching_ids(rows.drop_last(), targets, n);
        if has_any_target(rows.last().1, targets) && r.len() < n {
            r.push(rows.last().0)
        } else {
            r
        }
    }
}

pub open spec fn rows_v(rows: Seq<(i64, String)>) -> Seq<(i64, Seq<char>)> {
    rows.map_values(|r: (i64, String)| (r.0, r.1@))
}

/// The chips under a card named `name` (ASCII case aside), in order.
pub open spec fn chips_under(a: Seq<AssignV>, gs: Seq<GroupV>, name: Seq<char>) -> Seq<AssignV>
    decreases a.len(),
{
    if a.len() == 0 {
        Seq::empty()
    } else {
        let r = chips_under(a.drop_last(), gs, name);
        if id_named(gs, a.last().group_id, name) {
            r.push(a.last())
        } else {
            r
        }
    }
}

/// What a card stands for: its chips' names and its own, lowercase.
pub open spec fn card_targets(a: Seq<AssignV>, gs: Seq<GroupV>, name: Seq<char>) -> Seq<Seq<char>> {
    chips_under(a, gs, name).map_values(|c: AssignV| lowercase(c.tag_name)).push(lowercase(name))
}

/// Some card is named `name` (ASCII case aside).
pub open spec fn is_card(gs: Seq<GroupV>, name: Seq<char>) -> bool {
    exists|j: int| 0 <= j < gs.len() && eq_ignore_ascii_case((#[trigger] gs[j]).name, name)
}

fn matching_exec(rows: &[(i64, String)], targets: &Vec<Vec<char>>, limit: i64) -> (r: Vec<i64>)
    ensures
        r@ == matching_ids(rows_v(rows@), views(targets@), limit_count(limit)),
{
    let n = take_limit(limit);
    let ghost rv = rows_v(rows@);
    let mut out: Vec<i64> = Vec::new();
    let mut i: usize = 0;
    while i < rows.len()
        invariant
            i <= rows@.len(),
            rv == rows_v(rows@),
            n as int == limit_count(limit),
            out@ == matching_ids(rv.take(i as int), views(targets@), n as int),
            out@.len() <= n,
        decreases rows@.len() - i,
    {
        assert(rv.take(i + 1).drop_last() =~= rv.take(i as int));
        assert(rv.take(i + 1).last() == (rows@[i as int].0, rows@[i as int].1@));
        if out.len() < n && genre_has_any(rows[i].1.as_str(), targets) {
            out.push(rows[i].0);
        }
        i += 1;
    }
    assert(rv.take(i as int) =~= rv);
    out
}

impl TagManager {
    /// The songs (of `rows`, id and genre field, in the order given) whose
    /// genre holds `tag_name` as a whole value, compared by lowercase form,
    /// at most `limit` of them (all for a negative limit).
    pub fn get_songs_by_tag(rows: &[(i64, String)], tag_name: &str, limit: i64) -> (r: Vec<i64>)
        ensures
            r@ == matching_ids(rows_v(rows@), seq![lowercase(tag_name@)], limit_count(limit)),
    {
        let mut targets: Vec<Vec<char>> = Vec::new();
        targets.push(chars_of(to_lowercase(tag_name).as_str()));
        assert(views(targets@) =~= seq![lowercase(tag_name@)]);
        matching_exec(rows, &targets, limit)
    }

    /// The songs of a curated card: those whose genre holds the card's
    /// name or the name of a chip under a card so named (see
    /// `card_targets`), at most `limit` of them. A name with no card just
    /// has no chips.
    pub fn get_songs_by_curated_group(&self, rows: &[(i64, String)], group_name: &str, limit: i64) -> (r: Vec<i64>)
        ensures
            r@ == matching_ids(
                rows_v(rows@),
                card_targets(assigns_v(self.assignments@), groups_v(self.groups@), group_name@),
                limit_count(limit),
            ),
    {
        let ghost av = assigns_v(self.assignments@);
        let ghost gv = groups_v(self.groups@);
        let mut targets: Vec<Vec<char>> = Vec::new();
        let mut i: usize = 0;
        while i < self.assignments.len()
            invariant
                i <= self.assignments@.len(),
                av == assigns_v(self.assignments@),
                gv == groups_v(self.groups@),
                views(targets@) == chips_under(av.take(i as int), gv, group_name@).map_values(
                    |c: AssignV| lowercase(c.tag_name),
                ),
            decreases self.assignments@.len() - i,
        {
            assert(av.take(i + 1).drop_last() =~= av.take(i as int));
            assert(av.take(i + 1).last() == assign_v(self.assignments@[i as int]));
            if crate::tag_edit::id_named_exec(&self.groups, self.assignments[i].group_id, group_name) {
                let ghost t0 = views(targets@);
                let ghost prev = chips_under(av.take(i as int), gv, group_name@);
                targets.push(chars_of(to_lowercase(self.assignments[i].tag_name.as_str()).as_str()));
                assert(views(targets@) =~= t0.push(lowercase(av[i as int].tag_name)));
                assert(prev.push(av[i as int]).map_values(|c: AssignV| lowercase(c.tag_name)) =~= prev.map_values(
                    |c: AssignV| lowercase(c.tag_name),
                ).push(lowercase(av[i as int].tag_name)));
            }
            i += 1;
        }
        assert(av.take(i as int) =~= av);
        let ghost t1 = views(targets@);
        targets.push(chars_of(to_lowercase(group_name).as_str()));
        assert(views(targets@) =~= t1.push(lowercase(group_name@)));
        matching_exec(rows, &targets, limit)
    }

    /// The songs a curated name stands for: a card's (see
    /// `get_songs_by_curated_group`) when some card is so named, else the
    /// tag's own (see `get_songs_by_tag`).
    pub fn get_songs_by_curated_tag(&self, rows: &[(i64, String)], name: &str, limit: i64) -> (r: Vec<i64>)
        ensures
            r@ == if is_card(groups_v(self.groups@), name@) {
                matching_ids(rows_v(rows@), card_targets(assigns_v(self.assignments@), groups_v(self.groups@), name@), limit_count(limit))
            } else {
                matching_ids(rows_v(rows@), seq![lowercase(name@)], limit_count(limit))
            },
    {
        let ghost gv = groups_v(self.groups@);
        let n = chars_of(name);
        let mut is_group = false;
        let mut j: usize = 0;
        while j < self.groups.len()
            invariant
                j <= self.groups@.len(),
                gv == groups_v(self.groups@),
                n@ == name@,
                is_group == exists|q: int| 0 <= q < j && eq_ignore_ascii_case((#[trigger] gv[q]).name, name@),
            decreases self.groups@.len() - j,
        {
            assert(gv[j as int] == crate::tag_tree::group_v(self.groups@[j as int]));
            let g = chars_of(self.groups[j].name.as_str());
            if eq_ignore_ascii_case_chars(g.as_slice(), n.as_slice()) {
                is_group = true;
            }
            j += 1;
        }
        if is_group {
            self.get_songs_by_curated_group(rows, name, limit)
        } else {
            Self::get_songs_by_tag(rows, name, limit)
        }
    }
}

} // verus!
