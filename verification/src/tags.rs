//! Genre tags. A song's genre column holds several values separated by
//! `;`; merging and deleting tags rewrites that text, and the library-wide
//! searches match whole values, case-insensitively.
use vstd::prelude::*;
use crate::text::{
    chars_eq, chars_of, eq_ignore_ascii_case, eq_ignore_ascii_case_chars, lowercase, push_chars,
    split_char, split_on, string_of, to_lowercase, trim, trim_chars, views,
};

verus! {

// ---------------------------------------------------------------------------
// Multi-value text
// ---------------------------------------------------------------------------

/// The trimmed, non-empty pieces of `parts`, in order.
pub open spec fn nonempty_trimmed(parts: Seq<Seq<char>>) -> Seq<Seq<char>>
    decreases parts.len(),
{
    if parts.len() == 0 {
        Seq::empty()
    } else {
        let rest = nonempty_trimmed(parts.drop_last());
        let t = trim(parts.last());
        if t.len() > 0 {
            rest.push(t)
        } else {
            rest
        }
    }
}

/// The values of a multi-value field: the `;`-separated pieces, trimmed,
/// empty ones dropped.
pub open spec fn multi_values(s: Seq<char>) -> Seq<Seq<char>> {
    nonempty_trimmed(split_char(s, ';'))
}

/// Values written back as one field, separated by `; `.
pub open spec fn joined_values(vs: Seq<Seq<char>>) -> Seq<char>
    decreases vs.len(),
{
    if vs.len() == 0 {
        Seq::empty()
    } else if vs.len() == 1 {
        vs[0]
    } else {
        joined_values(vs.drop_last()) + seq![';', ' '] + vs.last()
    }
}

/// The views of a list of strings.
pub open spec fn string_views(v: Seq<String>) -> Seq<Seq<char>> {
    v.map_values(|s: String| s@)
}

/// The values of a multi-value field (see `multi_values`).
pub fn parse_multi_value(raw: &str) -> (r: Vec<String>)
    ensures
        string_views(r@) == multi_values(raw@),
{
    let parts = split_on(chars_of(raw).as_slice(), ';');
    let ghost pv = views(parts@);
    let mut out: Vec<String> = Vec::new();
    let mut i: usize = 0;
    while i < parts.len()
        invariant
            i <= parts@.len(),
            pv == views(parts@),
            string_views(out@) == nonempty_trimmed(pv.take(i as int)),
        decreases parts@.len() - i,
    {
        assert(pv.take(i + 1).drop_last() =~= pv.take(i as int));
        assert(pv.take(i + 1).last() == parts@[i as int]@);
        let t = trim_chars(parts[i].as_slice());
        if t.len() > 0 {
            let ghost before = string_views(out@);
            out.push(string_of(t.as_slice()));
            assert(string_views(out@) =~= before.push(t@));
        }
        i += 1;
    }
    assert(pv.take(i as int) =~= pv);
    out
}

/// Values joined with `; `.
pub fn join_multi_value(values: &[String]) -> (r: String)
    ensures
        r@ == joined_values(values@.map_values(|s: String| s@)),
{
    let ghost vv = values@.map_values(|s: String| s@);
    let mut out: Vec<char> = Vec::new();
    let mut i: usize = 0;
    while i < values.len()
        invariant
            i <= values@.len(),
            vv == values@.map_values(|s: String| s@),
            out@ == joined_values(vv.take(i as int)),
        decreases values@.len() - i,
    {
        assert(vv.take(i + 1).drop_last() =~= vv.take(i as int));
        assert(vv.take(i + 1).last() == values@[i as int]@);
        if i > 0 {
            out.push(';');
            out.push(' ');
        }
        let c = chars_of(values[i].as_str());
        push_chars(&mut out, c.as_slice());
        proof {
            if i == 0 {
                assert(out@ =~= vv.take(1)[0]);
            } else {
                assert(out@ =~= joined_values(vv.take(i as int)) + seq![';', ' '] + values@[i as int]@);
            }
        }
        i += 1;
    }
    assert(vv.take(i as int) =~= vv);
    string_of(out.as_slice())
}

// ---------------------------------------------------------------------------
// Rewriting genres
// ---------------------------------------------------------------------------

/// `s` with every value equal to `from` (ignoring ASCII case) replaced by
/// `into`.
pub open spec fn replace_values(s: Seq<Seq<char>>, from: Seq<char>, into: Seq<char>) -> Seq<Seq<char>> {
    s.map_values(|v: Seq<char>| if eq_ignore_ascii_case(v, from) { into } else { v })
}

/// `s` without the values equal to `into` (ignoring ASCII case) after the
/// first one (or after the start, when `seen`).
pub open spec fn drop_repeats(s: Seq<Seq<char>>, into: Seq<char>, seen: bool) -> Seq<Seq<char>>
    decreases s.len(),
{
    if s.len() == 0 {
        Seq::empty()
    } else {
        let v = s[0];
        let is_into = eq_ignore_ascii_case(v, into);
        if is_into && seen {
            drop_repeats(s.drop_first(), into, true)
        } else {
            seq![v] + drop_repeats(s.drop_first(), into, seen || is_into)
        }
    }
}

/// The genre field after merging tag `from` into `into`.
pub open spec fn merged_genre(genre: Seq<char>, from: Seq<char>, into: Seq<char>) -> Seq<char> {
    joined_values(drop_repeats(replace_values(multi_values(genre), lowercase(from), into), into, false))
}

/// The values of `s` whose lowercase form is none of `targets`.
pub open spec fn without_targets(s: Seq<Seq<char>>, targets: Seq<Seq<char>>) -> Seq<Seq<char>>
    decreases s.len(),
{
    if s.len() == 0 {
        Seq::empty()
    } else {
        let rest = without_targets(s.drop_last(), targets);
        if targets.contains(lowercase(s.last())) {
            rest
        } else {
            rest.push(s.last())
        }
    }
}

/// The genre field after deleting the tags `names`.
pub open spec fn deleted_genre(genre: Seq<char>, names: Seq<Seq<char>>) -> Seq<char> {
    joined_values(without_targets(multi_values(genre), names.map_values(|n: Seq<char>| lowercase(n))))
}

/// A value as a multi-value field holds it: not empty, trimmed, no `;`.
pub open spec fn clean_value(v: Seq<char>) -> bool {
    &&& v.len() > 0
    &&& trim(v) == v
    &&& forall|k: int| 0 <= k < v.len() ==> #[trigger] v[k] != ';'
}

proof fn lemma_trimmed_clean(parts: Seq<Seq<char>>)
    requires
        forall|p: int, k: int| 0 <= p < parts.len() && 0 <= k < parts[p].len() ==> #[trigger] parts[p][k] != ';',
    ensures
        forall|i: int| 0 <= i < nonempty_trimmed(parts).len() ==> clean_value(#[trigger] nonempty_trimmed(parts)[i]),
    decreases parts.len(),
{
    if parts.len() > 0 {
        let init = parts.drop_last();
        assert forall|p: int, k: int| 0 <= p < init.len() && 0 <= k < init[p].len() implies #[trigger] init[p][k]
            != ';' by {
            assert(init[p] == parts[p]);
        }
        lemma_trimmed_clean(init);
        let l = parts.last();
        assert forall|k: int| 0 <= k < l.len() implies #[trigger] l[k] != ';' by {
            assert(parts[parts.len() - 1][k] != ';');
        }
        crate::text::lemma_trim_without(l, ';');
        crate::text::lemma_trim_idem(l);
        let r = nonempty_trimmed(init);
        let t = trim(l);
        let n = nonempty_trimmed(parts);
        if t.len() > 0 {
            assert(n == r.push(t));
            assert forall|i: int| 0 <= i < n.len() implies clean_value(#[trigger] n[i]) by {
                if i < r.len() {
                    assert(n[i] == r[i]);
                } else {
                    assert(n[i] == t);
                }
            }
        } else {
            assert(n == r);
        }
    }
}

/// Every value of a multi-value field is clean.
proof fn lemma_values_clean(s: Seq<char>)
    ensures
        forall|i: int| 0 <= i < multi_values(s).len() ==> clean_value(#[trigger] multi_values(s)[i]),
{
    crate::text::lemma_split_pieces(s, ';');
    lemma_trimmed_clean(split_char(s, ';'));
}

/// Clean values joined and read back are the same values.
pub proof fn lemma_values_round_trip(vs: Seq<Seq<char>>)
    requires
        forall|i: int| 0 <= i < vs.len() ==> clean_value(#[trigger] vs[i]),
    ensures
        multi_values(joined_values(vs)) == vs,
    decreases vs.len(),
{
    if vs.len() == 0 {
        let e = Seq::<char>::empty();
        assert(joined_values(vs) == e);
        crate::text::lemma_split_last(e, ';');
        assert(trim(e) =~= e);
        let q = seq![e];
        assert(q.drop_last() =~= Seq::<Seq<char>>::empty());
        assert(q.last() == e);
        assert(nonempty_trimmed(q.drop_last()) == Seq::<Seq<char>>::empty());
        assert(nonempty_trimmed(q) == nonempty_trimmed(q.drop_last()));
        assert(nonempty_trimmed(q) =~= vs);
    } else if vs.len() == 1 {
        let v = vs[0];
        assert(clean_value(vs[0]));
        crate::text::lemma_split_last(v, ';');
        let q = seq![v];
        assert(q.drop_last() =~= Seq::<Seq<char>>::empty());
        assert(q.last() == v);
        assert(nonempty_trimmed(q.drop_last()) == Seq::<Seq<char>>::empty());
        assert(nonempty_trimmed(q) == nonempty_trimmed(q.drop_last()).push(v));
        assert(nonempty_trimmed(q) =~= vs);
    } else {
        let init = vs.drop_last();
        let last = vs.last();
        assert(clean_value(vs[vs.len() - 1]));
        assert forall|i: int| 0 <= i < init.len() implies clean_value(#[trigger] init[i]) by {
            assert(init[i] == vs[i]);
        }
        lemma_values_round_trip(init);
        let j = joined_values(init);
        let tail = seq![' '] + last;
        assert(joined_values(vs) =~= j + seq![';'] + tail);
        crate::text::lemma_split_concat(j, tail, ';');
        assert forall|k: int| 0 <= k < tail.len() implies #[trigger] tail[k] != ';' by {
            if k > 0 {
                assert(tail[k] == last[k - 1]);
            }
        }
        crate::text::lemma_split_last(tail, ';');
        let parts = split_char(j, ';') + seq![tail];
        assert(parts.drop_last() =~= split_char(j, ';'));
        assert(parts.last() == tail);
        crate::text::lemma_trim_space(last);
        assert(nonempty_trimmed(parts) =~= vs);
    }
}

proof fn lemma_without_targets_clean(vs: Seq<Seq<char>>, targets: Seq<Seq<char>>)
    requires
        forall|i: int| 0 <= i < vs.len() ==> clean_value(#[trigger] vs[i]),
    ensures
        forall|i: int| 0 <= i < without_targets(vs, targets).len() ==> clean_value(
            #[trigger] without_targets(vs, targets)[i],
        ),
        forall|i: int| 0 <= i < without_targets(vs, targets).len() ==> !targets.contains(
            lowercase(#[trigger] without_targets(vs, targets)[i]),
        ),
    decreases vs.len(),
{
    if vs.len() > 0 {
        let init = vs.drop_last();
        assert forall|i: int| 0 <= i < init.len() implies clean_value(#[trigger] init[i]) by {
            assert(init[i] == vs[i]);
        }
        lemma_without_targets_clean(init, targets);
        assert(clean_value(vs[vs.len() - 1]));
        let r = without_targets(init, targets);
        let w = without_targets(vs, targets);
        if targets.contains(lowercase(vs.last())) {
            assert(w == r);
        } else {
            assert(w == r.push(vs.last()));
            assert forall|i: int| 0 <= i < w.len() implies clean_value(#[trigger] w[i]) && !targets.contains(
                lowercase(w[i]),
            ) by {
                if i < r.len() {
                    assert(w[i] == r[i]);
                }
            }
        }
    }
}

proof fn lemma_without_targets_idem(vs: Seq<Seq<char>>, targets: Seq<Seq<char>>)
    requires
        forall|i: int| 0 <= i < vs.len() ==> !targets.contains(lowercase(#[trigger] vs[i])),
    ensures
        without_targets(vs, targets) == vs,
    decreases vs.len(),
{
    if vs.len() > 0 {
        let init = vs.drop_last();
        assert forall|i: int| 0 <= i < init.len() implies !targets.contains(lowercase(#[trigger] init[i])) by {
            assert(init[i] == vs[i]);
        }
        lemma_without_targets_idem(init, targets);
        assert(!targets.contains(lowercase(vs[vs.len() - 1])));
        assert(init.push(vs.last()) =~= vs);
    }
}

/// Deleting tags from a genre field keeps the other values in their
/// order, and deleting the same tags again changes nothing.
pub proof fn delete_genre_keeps_order_and_settles(genre: Seq<char>, names: Seq<Seq<char>>)
    ensures
        multi_values(deleted_genre(genre, names)) == without_targets(
            multi_values(genre),
            names.map_values(|n: Seq<char>| lowercase(n)),
        ),
        deleted_genre(deleted_genre(genre, names), names) == deleted_genre(genre, names),
{
    let ts = names.map_values(|n: Seq<char>| lowercase(n));
    let w = without_targets(multi_values(genre), ts);
    lemma_values_clean(genre);
    lemma_without_targets_clean(multi_values(genre), ts);
    lemma_values_round_trip(w);
    lemma_without_targets_idem(w, ts);
}

/// A value after merging: clean, and the merged-away tag only in the
/// form of its target.
pub open spec fn merged_value(v: Seq<char>, from_key: Seq<char>, into: Seq<char>) -> bool {
    &&& clean_value(v)
    &&& eq_ignore_ascii_case(v, from_key) ==> v == into
}

proof fn lemma_drop_repeats_keeps(x: Seq<Seq<char>>, from_key: Seq<char>, into: Seq<char>, seen: bool)
    requires
        forall|i: int| 0 <= i < x.len() ==> merged_value(#[trigger] x[i], from_key, into),
    ensures
        forall|i: int| 0 <= i < drop_repeats(x, into, seen).len() ==> merged_value(
            #[trigger] drop_repeats(x, into, seen)[i],
            from_key,
            into,
        ),
        seen ==> forall|i: int| 0 <= i < drop_repeats(x, into, seen).len() ==> !eq_ignore_ascii_case(
            #[trigger] drop_repeats(x, into, seen)[i],
            into,
        ),
        forall|i: int, j: int|
            0 <= i < j < drop_repeats(x, into, seen).len() ==> !(eq_ignore_ascii_case(
                #[trigger] drop_repeats(x, into, seen)[i],
                into,
            ) && eq_ignore_ascii_case(#[trigger] drop_repeats(x, into, seen)[j], into)),
        drop_repeats(drop_repeats(x, into, seen), into, seen) == drop_repeats(x, into, seen),
    decreases x.len(),
{
    if x.len() > 0 {
        let v = x[0];
        let rest = x.drop_first();
        let is_into = eq_ignore_ascii_case(v, into);
        assert forall|i: int| 0 <= i < rest.len() implies merged_value(#[trigger] rest[i], from_key, into) by {
            assert(rest[i] == x[i + 1]);
        }
        assert(merged_value(x[0], from_key, into));
        let d = drop_repeats(x, into, seen);
        if is_into && seen {
            lemma_drop_repeats_keeps(rest, from_key, into, true);
        } else {
            let s2 = seen || is_into;
            lemma_drop_repeats_keeps(rest, from_key, into, s2);
            let t = drop_repeats(rest, into, s2);
            assert(d == seq![v] + t);
            assert forall|i: int| 0 <= i < d.len() implies merged_value(#[trigger] d[i], from_key, into) by {
                if i > 0 {
                    assert(d[i] == t[i - 1]);
                }
            }
            assert forall|i: int, j: int| 0 <= i < j < d.len() implies !(eq_ignore_ascii_case(
                #[trigger] d[i],
                into,
            ) && eq_ignore_ascii_case(#[trigger] d[j], into)) by {
                assert(d[j] == t[j - 1]);
                if i > 0 {
                    assert(d[i] == t[i - 1]);
                }
            }
            if seen {
                assert forall|i: int| 0 <= i < d.len() implies !eq_ignore_ascii_case(#[trigger] d[i], into) by {
                    if i > 0 {
                        assert(d[i] == t[i - 1]);
                    }
                }
            }
            assert(d.drop_first() =~= t);
            assert(d[0] == v);
        }
    }
}

/// The values of `s` like neither `a` nor `b` (ASCII case aside), in order.
pub open spec fn unlike(s: Seq<Seq<char>>, a: Seq<char>, b: Seq<char>) -> Seq<Seq<char>>
    decreases s.len(),
{
    if s.len() == 0 {
        Seq::empty()
    } else if eq_ignore_ascii_case(s[0], a) || eq_ignore_ascii_case(s[0], b) {
        unlike(s.drop_first(), a, b)
    } else {
        seq![s[0]] + unlike(s.drop_first(), a, b)
    }
}

/// Some value of `s` is like `a` (ASCII case aside).
pub open spec fn has_like(s: Seq<Seq<char>>, a: Seq<char>) -> bool {
    exists|i: int| 0 <= i < s.len() && eq_ignore_ascii_case(#[trigger] s[i], a)
}

proof fn lemma_drop_repeats_others(x: Seq<Seq<char>>, into: Seq<char>, seen: bool)
    ensures
        unlike(drop_repeats(x, into, seen), into, into) == unlike(x, into, into),
        !seen ==> (has_like(drop_repeats(x, into, seen), into) <==> has_like(x, into)),
    decreases x.len(),
{
    if x.len() > 0 {
        let v = x[0];
        let rest = x.drop_first();
        let is_into = eq_ignore_ascii_case(v, into);
        lemma_drop_repeats_others(rest, into, true);
        lemma_drop_repeats_others(rest, into, seen || is_into);
        let d = drop_repeats(x, into, seen);
        if !(is_into && seen) {
            let t = drop_repeats(rest, into, seen || is_into);
            assert(d == seq![v] + t);
            assert(d.drop_first() =~= t);
            assert(d[0] == v);
            if !seen {
                if has_like(x, into) && !is_into {
                    let i = choose|i: int| 0 <= i < x.len() && eq_ignore_ascii_case(#[trigger] x[i], into);
                    assert(rest[i - 1] == x[i]);
                    assert(has_like(rest, into));
                    let j = choose|j: int| 0 <= j < t.len() && eq_ignore_ascii_case(#[trigger] t[j], into);
                    assert(d[j + 1] == t[j]);
                }
                if has_like(d, into) && !is_into {
                    let j = choose|j: int| 0 <= j < d.len() && eq_ignore_ascii_case(#[trigger] d[j], into);
                    assert(t[j - 1] == d[j]);
                    let i = choose|i: int| 0 <= i < rest.len() && eq_ignore_ascii_case(#[trigger] rest[i], into);
                    assert(x[i + 1] == rest[i]);
                }
                if is_into {
                    assert(eq_ignore_ascii_case(d[0], into));
                    assert(eq_ignore_ascii_case(x[0], into));
                }
            }
        }
    }
}

proof fn lemma_replace_others(g: Seq<Seq<char>>, fk: Seq<char>, into: Seq<char>)
    ensures
        unlike(replace_values(g, fk, into), into, into) == unlike(g, fk, into),
        has_like(replace_values(g, fk, into), into) <==> (has_like(g, fk) || has_like(g, into)),
    decreases g.len(),
{
    if g.len() > 0 {
        let r = replace_values(g, fk, into);
        let rest = g.drop_first();
        lemma_replace_others(rest, fk, into);
        assert(r.drop_first() =~= replace_values(rest, fk, into));
        let rr = replace_values(rest, fk, into);
        if has_like(r, into) {
            let i = choose|i: int| 0 <= i < r.len() && eq_ignore_ascii_case(#[trigger] r[i], into);
            if eq_ignore_ascii_case(g[i], fk) {
                assert(has_like(g, fk));
            } else {
                assert(has_like(g, into));
            }
        }
        if has_like(g, fk) {
            let i = choose|i: int| 0 <= i < g.len() && eq_ignore_ascii_case(#[trigger] g[i], fk);
            assert(r[i] == into);
            assert(eq_ignore_ascii_case(r[i], into));
        }
        if has_like(g, into) {
            let i = choose|i: int| 0 <= i < g.len() && eq_ignore_ascii_case(#[trigger] g[i], into);
            if eq_ignore_ascii_case(g[i], fk) {
                assert(r[i] == into);
            }
            assert(eq_ignore_ascii_case(r[i], into));
        }
    }
}

/// Merging `from` into `into`: the target is there exactly when `from` or
/// `into` was (ASCII case aside; `from` is matched through its lowercase
/// key), nothing is left like `from` unless `into` is like it, and the
/// other values are the old ones, in their order.
pub proof fn merge_genre_replaces_only_the_merged_tag(genre: Seq<char>, from: Seq<char>, into: Seq<char>)
    requires
        clean_value(into),
    ensures
        has_like(multi_values(merged_genre(genre, from, into)), into) <==> (has_like(multi_values(genre), lowercase(from))
            || has_like(multi_values(genre), into)),
        !eq_ignore_ascii_case(into, lowercase(from)) ==> !has_like(multi_values(merged_genre(genre, from, into)), lowercase(from)),
        unlike(multi_values(merged_genre(genre, from, into)), into, into) == unlike(multi_values(genre), lowercase(from), into),
{
    merge_genre_keeps_order_and_settles(genre, from, into);
    let fk = lowercase(from);
    let vs = multi_values(genre);
    let r = replace_values(vs, fk, into);
    lemma_replace_others(vs, fk, into);
    lemma_drop_repeats_others(r, into, false);
    lemma_values_clean(genre);
    assert forall|i: int| 0 <= i < r.len() implies merged_value(#[trigger] r[i], fk, into) by {
        assert(clean_value(vs[i]));
    }
    lemma_drop_repeats_keeps(r, fk, into, false);
    let d = drop_repeats(r, into, false);
    if !eq_ignore_ascii_case(into, fk) && has_like(d, fk) {
        let i = choose|i: int| 0 <= i < d.len() && eq_ignore_ascii_case(#[trigger] d[i], fk);
        assert(merged_value(d[i], fk, into));
    }
}

/// Merging a tag into another keeps every other value in its place, with
/// the target once at the first place either stood; merging again changes
/// nothing. (The target is a clean value: not empty, trimmed, no `;`.)
pub proof fn merge_genre_keeps_order_and_settles(genre: Seq<char>, from: Seq<char>, into: Seq<char>)
    requires
        clean_value(into),
    ensures
        multi_values(merged_genre(genre, from, into)) == drop_repeats(
            replace_values(multi_values(genre), lowercase(from), into),
            into,
            false,
        ),
        forall|i: int, j: int|
            0 <= i < j < multi_values(merged_genre(genre, from, into)).len() ==> !(eq_ignore_ascii_case(
                #[trigger] multi_values(merged_genre(genre, from, into))[i],
                into,
            ) && eq_ignore_ascii_case(#[trigger] multi_values(merged_genre(genre, from, into))[j], into)),
        merged_genre(merged_genre(genre, from, into), from, into) == merged_genre(genre, from, into),
{
    let fk = lowercase(from);
    let vs = multi_values(genre);
    lemma_values_clean(genre);
    let r = replace_values(vs, fk, into);
    assert forall|i: int| 0 <= i < r.len() implies merged_value(#[trigger] r[i], fk, into) by {
        assert(clean_value(vs[i]));
    }
    lemma_drop_repeats_keeps(r, fk, into, false);
    let d = drop_repeats(r, into, false);
    assert forall|i: int| 0 <= i < d.len() implies clean_value(#[trigger] d[i]) by {
        assert(merged_value(d[i], fk, into));
    }
    lemma_values_round_trip(d);
    assert(replace_values(d, fk, into) =~= d) by {
        assert forall|i: int| 0 <= i < d.len() implies #[trigger] replace_values(d, fk, into)[i] == d[i] by {
            assert(merged_value(d[i], fk, into));
        }
    }
}

/// A top-level genre card of the curated hierarchy.
#[derive(Debug)]
pub struct TagGroupRow {
    pub id: i64,
    pub name: String,
    pub color_index: i32,
    pub sort_order: i32,
}

/// A sub-genre chip curated under the card with id `group_id`.
#[derive(Debug)]
pub struct TagAssignmentRow {
    pub tag_name: String,
    pub group_id: i64,
    pub sort_order: i32,
}

/// Genre tags: the curated hierarchy of cards and chips, in the order they
/// were stored, and the operations on genre text.
pub struct TagManager {
    pub groups: Vec<TagGroupRow>,
    pub assignments: Vec<TagAssignmentRow>,
    pub next_group_id: i64,
}

impl TagManager {
    /// An empty hierarchy.
    pub fn new() -> (t: TagManager)
        ensures
            t.groups@.len() == 0,
            t.assignments@.len() == 0,
            t.next_group_id == 1,
    {
        TagManager { groups: Vec::new(), assignments: Vec::new(), next_group_id: 1 }
    }
}

/// `needle` is among `hay` (exact character match).
fn contains_chars(hay: &Vec<Vec<char>>, needle: &[char]) -> (r: bool)
    ensures
        r == views(hay@).contains(needle@),
{
    let mut i: usize = 0;
    while i < hay.len()
        invariant
            i <= hay@.len(),
            forall|k: int| 0 <= k < i ==> hay@[k]@ != needle@,
        decreases hay@.len() - i,
    {
        if chars_eq(hay[i].as_slice(), needle) {
            assert(views(hay@)[i as int] == needle@);
            return true;
        }
        i += 1;
    }
    proof {
        if views(hay@).contains(needle@) {
            let k = choose|k: int| 0 <= k < views(hay@).len() && views(hay@)[k] == needle@;
            assert(hay@[k]@ == needle@);
        }
    }
    false
}

/// The lowercase forms of `names`.
fn lowercase_all(names: &[String]) -> (r: Vec<Vec<char>>)
    ensures
        views(r@) == names@.map_values(|s: String| s@).map_values(|n: Seq<char>| lowercase(n)),
{
    let ghost target = names@.map_values(|s: String| s@).map_values(|n: Seq<char>| lowercase(n));
    let mut out: Vec<Vec<char>> = Vec::new();
    let mut i: usize = 0;
    while i < names.len()
        invariant
            i <= names@.len(),
            target == names@.map_values(|s: String| s@).map_values(|n: Seq<char>| lowercase(n)),
            views(out@) == target.take(i as int),
        decreases names@.len() - i,
    {
        let l = to_lowercase(names[i].as_str());
        assert(l@ == lowercase(names@[i as int]@));
        assert(target[i as int] == l@);
        let ghost before = views(out@);
        out.push(chars_of(l.as_str()));
        assert(views(out@) =~= before.push(l@));
        assert(views(out@) =~= target.take(i + 1));
        i += 1;
    }
    assert(target.take(i as int) =~= target);
    out
}

impl TagManager {
    /// Replaces `from` with `into` at the same position in a genre field,
    /// keeping only the first value equal to `into` (ASCII case aside).
    pub fn rewrite_genre_for_merge(genre: &str, from: &str, into: &str) -> (r: String)
        ensures
            r@ == merged_genre(genre@, from@, into@),
    {
        let from_lower = chars_of(to_lowercase(from).as_str());
        let into_c = chars_of(into);
        let values = parse_multi_value(genre);
        let ghost vs = string_views(values@);
        let ghost replaced = replace_values(vs, from_lower@, into@);
        // Replace, then drop the repeats of `into`.
        let mut out: Vec<String> = Vec::new();
        let mut seen_into = false;
        let mut i: usize = 0;
        assert(replaced.skip(0) =~= replaced);
        assert(string_views(out@) + drop_repeats(replaced, into@, false) =~= drop_repeats(
            replaced,
            into@,
            false,
        ));
        while i < values.len()
            invariant
                i <= values@.len(),
                vs == string_views(values@),
                replaced == replace_values(vs, from_lower@, into@),
                into_c@ == into@,
                string_views(out@) + drop_repeats(replaced.skip(i as int), into@, seen_into) == drop_repeats(
                    replaced,
                    into@,
                    false,
                ),
            decreases values@.len() - i,
        {
            let ghost rest = replaced.skip(i as int);
            assert(rest.drop_first() =~= replaced.skip(i + 1));
            let vc = chars_of(values[i].as_str());
            let v: Vec<char> = if eq_ignore_ascii_case_chars(vc.as_slice(), from_lower.as_slice()) {
                copy_chars(into_c.as_slice())
            } else {
                vc
            };
            assert(v@ == rest[0]);
            let is_into = eq_ignore_ascii_case_chars(v.as_slice(), into_c.as_slice());
            if is_into && seen_into {
            } else {
                let ghost before = string_views(out@);
                out.push(string_of(v.as_slice()));
                assert(string_views(out@) =~= before.push(v@));
                assert(before + (seq![v@] + drop_repeats(rest.drop_first(), into@, seen_into || is_into))
                    =~= string_views(out@) + drop_repeats(rest.drop_first(), into@, seen_into || is_into));
                if is_into {
                    seen_into = true;
                }
            }
            i += 1;
        }
        assert(replaced.skip(i as int) =~= Seq::<Seq<char>>::empty());
        assert(string_views(out@) =~= string_views(out@) + Seq::<Seq<char>>::empty());
        join_multi_value(out.as_slice())
    }

    /// Removes every value whose lowercase form is that of one of `names`.
    pub fn rewrite_genre_for_delete(genre: &str, names: &[String]) -> (r: String)
        ensures
            r@ == deleted_genre(genre@, names@.map_values(|s: String| s@)),
    {
        let targets = lowercase_all(names);
        let values = parse_multi_value(genre);
        let ghost vs = string_views(values@);
        let ghost tv = views(targets@);
        let mut kept: Vec<String> = Vec::new();
        let mut i: usize = 0;
        while i < values.len()
            invariant
                i <= values@.len(),
                vs == string_views(values@),
                tv == views(targets@),
                string_views(kept@) == without_targets(vs.take(i as int), tv),
            decreases values@.len() - i,
        {
            assert(vs.take(i + 1).drop_last() =~= vs.take(i as int));
            assert(vs.take(i + 1).last() == values@[i as int]@);
            let l = chars_of(to_lowercase(values[i].as_str()).as_str());
            if !contains_chars(&targets, l.as_slice()) {
                let ghost before = string_views(kept@);
                kept.push(values[i].clone());
                assert(string_views(kept@) =~= before.push(values@[i as int]@));
            }
            i += 1;
        }
        assert(vs.take(i as int) =~= vs);
        join_multi_value(kept.as_slice())
    }
}

fn copy_chars(s: &[char]) -> (r: Vec<char>)
    ensures
        r@ == s@,
{
    let r = crate::text::copy_range(s, 0, s.len());
    assert(s@.subrange(0, s@.len() as int) =~= s@);
    r
}

/// A caller's result limit as a count: a negative limit means none.
pub fn take_limit(limit: i64) -> (r: usize)
    ensures
        limit < 0 ==> r == usize::MAX,
        limit >= 0 ==> r == limit as usize,
{
    if limit < 0 {
        usize::MAX
    } else {
        #[verifier::truncate]
        (limit as usize)
    }
}

} // verus!

verus! {

/// Some value of the genre field has the lowercase form of one of `targets`.
pub open spec fn has_any_target(genre: Seq<char>, targets: Seq<Seq<char>>) -> bool {
    exists|i: int|
        0 <= i < multi_values(genre).len() && targets.contains(
            lowercase(#[trigger] multi_values(genre)[i]),
        )
}

/// See `has_any_target`.
pub(crate) fn genre_has_any(genre: &str, targets: &Vec<Vec<char>>) -> (r: bool)
    ensures
        r == has_any_target(genre@, views(targets@)),
{
    let values = parse_multi_value(genre);
    let ghost vs = string_views(values@);
    let mut i: usize = 0;
    while i < values.len()
        invariant
            i <= values@.len(),
            vs == string_views(values@),
            vs == multi_values(genre@),
            forall|k: int| 0 <= k < i ==> !views(targets@).contains(lowercase(#[trigger] vs[k])),
        decreases values@.len() - i,
    {
        let l = chars_of(to_lowercase(values[i].as_str()).as_str());
        assert(l@ == lowercase(vs[i as int]));
        if contains_chars(targets, l.as_slice()) {
            return true;
        }
        i += 1;
    }
    false
}

impl TagManager {
    /// The songs (id, path, genre) whose genre field holds one of `names`,
    /// compared case-insensitively, in the order given.
    pub fn songs_containing_any(rows: &[(i64, String, String)], names: &[String]) -> (r: Vec<
        (i64, String, String),
    >)
        ensures
            r@.map_values(|x: (i64, String, String)| (x.0, x.1@, x.2@)) == rows@.map_values(
                |x: (i64, String, String)| (x.0, x.1@, x.2@),
            ).filter(
                |x: (i64, Seq<char>, Seq<char>)|
                    has_any_target(
                        x.2,
                        names@.map_values(|s: String| s@).map_values(|n: Seq<char>| lowercase(n)),
                    ),
            ),
    {
        let targets = lowercase_all(names);
        let ghost tv = views(targets@);
        let ghost rv = rows@.map_values(|x: (i64, String, String)| (x.0, x.1@, x.2@));
        let ghost pred = |x: (i64, Seq<char>, Seq<char>)| has_any_target(x.2, tv);
        let mut out: Vec<(i64, String, String)> = Vec::new();
        let mut i: usize = 0;
        while i < rows.len()
            invariant
                i <= rows@.len(),
                tv == views(targets@),
                rv == rows@.map_values(|x: (i64, String, String)| (x.0, x.1@, x.2@)),
                pred == (|x: (i64, Seq<char>, Seq<char>)| has_any_target(x.2, tv)),
                out@.map_values(|x: (i64, String, String)| (x.0, x.1@, x.2@)) == rv.take(i as int).filter(
                    pred,
                ),
            decreases rows@.len() - i,
        {
            let ghost before = out@.map_values(|x: (i64, String, String)| (x.0, x.1@, x.2@));
            assert(rv.take(i + 1).drop_last() =~= rv.take(i as int));
            assert(rv.take(i + 1).last() == rv[i as int]);
            proof {
                rv.take(i + 1).filter_lemma(pred);
                assert(rv.take(i + 1).filter(pred) == rv.take(i as int).filter(pred) + (if pred(
                    rv[i as int],
                ) {
                    seq![rv[i as int]]
                } else {
                    Seq::empty()
                })) by {
                    assert(rv.take(i + 1) =~= rv.take(i as int).push(rv[i as int]));
                    rv.take(i as int).lemma_filter_push(rv[i as int], pred);
                }
            }
            if genre_has_any(rows[i].2.as_str(), &targets) {
                out.push((rows[i].0, rows[i].1.clone(), rows[i].2.clone()));
                assert(out@.map_values(|x: (i64, String, String)| (x.0, x.1@, x.2@)) =~= before.push(
                    rv[i as int],
                ));
            }
            i += 1;
        }
        assert(rv.take(i as int) =~= rv);
        out
    }
}

} // verus!
