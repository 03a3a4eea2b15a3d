//! Ordering entries by a rank and a text, the way the genre views list
//! them: by rank, then by text compared character by character, entries
//! that compare equal keeping the order they came in.
use vstd::prelude::*;

verus! {

/// `a` comes no later than `b` in code-point order.
pub open spec fn text_le(a: Seq<char>, b: Seq<char>) -> bool
    decreases a.len(),
{
    if a.len() == 0 {
        true
    } else if b.len() == 0 {
        false
    } else if (a[0] as u32) < (b[0] as u32) {
        true
    } else if (b[0] as u32) < (a[0] as u32) {
        false
    } else {
        text_le(a.drop_first(), b.drop_first())
    }
}

/// A sort entry: rank, text, and where the entry came from.
pub type Entry = (int, Seq<char>, int);

pub open spec fn entry_le(a: Entry, b: Entry) -> bool {
    a.0 < b.0 || (a.0 == b.0 && text_le(a.1, b.1))
}

/// `t` with `x` placed after the trailing entries that do not come after
/// it.
pub open spec fn insert_ordered(t: Seq<Entry>, x: Entry) -> Seq<Entry>
    decreases t.len(),
{
    if t.len() == 0 {
        seq![x]
    } else if entry_le(t.last(), x) {
        t.push(x)
    } else {
        insert_ordered(t.drop_last(), x).push(t.last())
    }
}

/// The entries in order: by rank, then text; equal entries keep their
/// order.
pub open spec fn ordered(s: Seq<Entry>) -> Seq<Entry>
    decreases s.len(),
{
    if s.len() == 0 {
        Seq::empty()
    } else {
        insert_ordered(ordered(s.drop_last()), s.last())
    }
}

pub open spec fn entries_v(v: Seq<(i64, Vec<char>, usize)>) -> Seq<Entry> {
    v.map_values(|e: (i64, Vec<char>, usize)| (e.0 as int, e.1@, e.2 as int))
}

proof fn lemma_text_le_skip(a: Seq<char>, b: Seq<char>, i: int)
    requires
        0 <= i <= a.len(),
        i <= b.len(),
        forall|k: int| 0 <= k < i ==> (a[k] as u32) == (b[k] as u32),
    ensures
        text_le(a, b) == text_le(a.skip(i), b.skip(i)),
    decreases i,
{
    if i > 0 {
        assert((a[0] as u32) == (b[0] as u32));
        assert forall|k: int| 0 <= k < i - 1 implies (a.drop_first()[k] as u32) == (b.drop_first()[k] as u32) by {
            assert(a.drop_first()[k] == a[k + 1]);
            assert(b.drop_first()[k] == b[k + 1]);
        }
        lemma_text_le_skip(a.drop_first(), b.drop_first(), i - 1);
        assert(a.drop_first().skip(i - 1) =~= a.skip(i));
        assert(b.drop_first().skip(i - 1) =~= b.skip(i));
    } else {
        assert(a.skip(0) =~= a);
        assert(b.skip(0) =~= b);
    }
}

/// Whether `a` comes no later than `b` in code-point order.
pub fn text_le_exec(a: &[char], b: &[char]) -> (r: bool)
    ensures
        r == text_le(a@, b@),
{
    let mut i: usize = 0;
    while i < a.len() && i < b.len()
        invariant
            i <= a@.len(),
            i <= b@.len(),
            forall|k: int| 0 <= k < i ==> (a@[k] as u32) == (b@[k] as u32),
        decreases a@.len() - i,
    {
        let x = a[i] as u32;
        let y = b[i] as u32;
        if x != y {
            proof {
                lemma_text_le_skip(a@, b@, i as int);
                assert(a@.skip(i as int)[0] == a@[i as int]);
                assert(b@.skip(i as int)[0] == b@[i as int]);
            }
            return x < y;
        }
        i += 1;
    }
    proof {
        lemma_text_le_skip(a@, b@, i as int);
    }
    i == a.len()
}

fn entry_le_exec(a: &(i64, Vec<char>, usize), b: &(i64, Vec<char>, usize)) -> (r: bool)
    ensures
        r == entry_le((a.0 as int, a.1@, a.2 as int), (b.0 as int, b.1@, b.2 as int)),
{
    a.0 < b.0 || (a.0 == b.0 && text_le_exec(a.1.as_slice(), b.1.as_slice()))
}

proof fn lemma_insert_at(t: Seq<Entry>, x: Entry, p: int)
    requires
        0 <= p <= t.len(),
        forall|q: int| p <= q < t.len() ==> !entry_le(#[trigger] t[q], x),
        p == 0 || entry_le(t[p - 1], x),
    ensures
        insert_ordered(t, x) == t.take(p).push(x) + t.skip(p),
    decreases t.len(),
{
    if t.len() == 0 {
        assert(t.take(p).push(x) + t.skip(p) =~= seq![x]);
    } else if p == t.len() {
        assert(t.take(p).push(x) + t.skip(p) =~= t.push(x));
    } else {
        assert(!entry_le(t[t.len() - 1], x));
        let d = t.drop_last();
        assert forall|q: int| p <= q < d.len() implies !entry_le(#[trigger] d[q], x) by {
            assert(d[q] == t[q]);
        }
        if p > 0 {
            assert(d[p - 1] == t[p - 1]);
        }
        lemma_insert_at(d, x, p);
        assert(d.take(p).push(x) + d.skip(p) + seq![t.last()] =~= t.take(p).push(x) + t.skip(p));
    }
}

/// The entries in order (see `ordered`).
pub fn order_entries(v: Vec<(i64, Vec<char>, usize)>) -> (r: Vec<(i64, Vec<char>, usize)>)
    ensures
        entries_v(r@) == ordered(entries_v(v@)),
{
    let ghost vv = entries_v(v@);
    let mut out: Vec<(i64, Vec<char>, usize)> = Vec::new();
    let mut i: usize = 0;
    while i < v.len()
        invariant
            i <= v@.len(),
            vv == entries_v(v@),
            entries_v(out@) == ordered(vv.take(i as int)),
        decreases v@.len() - i,
    {
        assert(vv.take(i + 1).drop_last() =~= vv.take(i as int));
        assert(vv.take(i + 1).last() == vv[i as int]);
        let x = (v[i].0, v[i].1.clone(), v[i].2);
        let ghost xv = (x.0 as int, x.1@, x.2 as int);
        assert(xv == vv[i as int]);
        let ghost ov = entries_v(out@);
        let mut p: usize = out.len();
        while p > 0 && !entry_le_exec(&out[p - 1], &x)
            invariant
                p <= out@.len(),
                ov == entries_v(out@),
                xv == (x.0 as int, x.1@, x.2 as int),
                forall|q: int| p <= q < ov.len() ==> !entry_le(#[trigger] ov[q], xv),
            decreases p,
        {
            assert(ov[p - 1] == (out@[p - 1].0 as int, out@[p - 1].1@, out@[p - 1].2 as int));
            p -= 1;
        }
        proof {
            if p > 0 {
                assert(ov[p - 1] == (out@[p - 1].0 as int, out@[p - 1].1@, out@[p - 1].2 as int));
            }
            lemma_insert_at(ov, xv, p as int);
        }
        out.insert(p, x);
        assert(entries_v(out@) =~= ov.take(p as int).push(xv) + ov.skip(p as int));
        i += 1;
    }
    assert(vv.take(i as int) =~= vv);
    out
}

proof fn lemma_insert_members(t: Seq<Entry>, x: Entry)
    ensures
        insert_ordered(t, x).len() == t.len() + 1,
        forall|k: int| 0 <= k < t.len() + 1 ==> (#[trigger] insert_ordered(t, x)[k] == x || t.contains(insert_ordered(t, x)[k])),
    decreases t.len(),
{
    if t.len() > 0 && !entry_le(t.last(), x) {
        let d = t.drop_last();
        lemma_insert_members(d, x);
        assert forall|k: int| 0 <= k < t.len() + 1 implies (#[trigger] insert_ordered(t, x)[k] == x || t.contains(insert_ordered(t, x)[k])) by {
            if k < t.len() {
                assert(insert_ordered(t, x)[k] == insert_ordered(d, x)[k]);
                if insert_ordered(d, x)[k] != x {
                    let j = choose|j: int| 0 <= j < d.len() && d[j] == insert_ordered(d, x)[k];
                    assert(t[j] == d[j]);
                }
            } else {
                assert(t[t.len() - 1] == t.last());
            }
        }
    } else if t.len() > 0 {
        assert forall|k: int| 0 <= k < t.len() + 1 implies (#[trigger] insert_ordered(t, x)[k] == x || t.contains(insert_ordered(t, x)[k])) by {
            if k < t.len() {
                assert(t[k] == insert_ordered(t, x)[k]);
            }
        }
    }
}

/// Ordering keeps the number of entries, and every entry it gives is one
/// it was given.
pub proof fn lemma_ordered_members(s: Seq<Entry>)
    ensures
        ordered(s).len() == s.len(),
        forall|k: int| 0 <= k < s.len() ==> s.contains(#[trigger] ordered(s)[k]),
    decreases s.len(),
{
    if s.len() > 0 {
        let d = s.drop_last();
        lemma_ordered_members(d);
        lemma_insert_members(ordered(d), s.last());
        assert forall|k: int| 0 <= k < s.len() implies s.contains(#[trigger] ordered(s)[k]) by {
            let y = ordered(s)[k];
            if y == s.last() {
                assert(s[s.len() - 1] == y);
            } else {
                let j = choose|j: int| 0 <= j < ordered(d).len() && ordered(d)[j] == y;
                assert(d.contains(ordered(d)[j]));
                let i = choose|i: int| 0 <= i < d.len() && d[i] == ordered(d)[j];
                assert(s[i] == d[i]);
            }
        }
    }
}

proof fn lemma_text_le_total(a: Seq<char>, b: Seq<char>)
    ensures
        text_le(a, b) || text_le(b, a),
    decreases a.len(),
{
    if a.len() > 0 && b.len() > 0 && (a[0] as u32) == (b[0] as u32) {
        lemma_text_le_total(a.drop_first(), b.drop_first());
    }
}

proof fn lemma_text_le_trans(a: Seq<char>, b: Seq<char>, c: Seq<char>)
    requires
        text_le(a, b),
        text_le(b, c),
    ensures
        text_le(a, c),
    decreases a.len(),
{
    if a.len() > 0 && b.len() > 0 && c.len() > 0 && (a[0] as u32) == (b[0] as u32) && (b[0] as u32) == (c[0] as u32) {
        lemma_text_le_trans(a.drop_first(), b.drop_first(), c.drop_first());
    }
}

proof fn lemma_entry_le_total(a: Entry, b: Entry)
    ensures
        entry_le(a, b) || entry_le(b, a),
{
    lemma_text_le_total(a.1, b.1);
}

proof fn lemma_entry_le_trans(a: Entry, b: Entry, c: Entry)
    requires
        entry_le(a, b),
        entry_le(b, c),
    ensures
        entry_le(a, c),
{
    if a.0 == b.0 && b.0 == c.0 {
        lemma_text_le_trans(a.1, b.1, c.1);
    }
}

/// `s` is in order: no entry comes after one that follows it.
pub open spec fn in_order(s: Seq<Entry>) -> bool {
    forall|i: int, j: int| 0 <= i < j < s.len() ==> entry_le(s[i], s[j])
}

proof fn lemma_insert_in_order(t: Seq<Entry>, x: Entry)
    requires
        in_order(t),
    ensures
        in_order(insert_ordered(t, x)),
        insert_ordered(t, x).to_multiset() == t.to_multiset().insert(x),
    decreases t.len(),
{
    broadcast use vstd::seq_lib::group_to_multiset_ensures;
    if t.len() == 0 {
        assert(seq![x] =~= Seq::<Entry>::empty().push(x));
    } else if entry_le(t.last(), x) {
        let r = t.push(x);
        assert forall|i: int, j: int| 0 <= i < j < r.len() implies entry_le(r[i], r[j]) by {
            if j == t.len() {
                if i < t.len() - 1 {
                    lemma_entry_le_trans(t[i], t.last(), x);
                }
            }
        }
    } else {
        let d = t.drop_last();
        assert forall|i: int, j: int| 0 <= i < j < d.len() implies entry_le(d[i], d[j]) by {
            assert(d[i] == t[i] && d[j] == t[j]);
        }
        lemma_insert_in_order(d, x);
        let m = insert_ordered(d, x);
        let r = m.push(t.last());
        lemma_entry_le_total(t.last(), x);
        lemma_insert_members(d, x);
        assert forall|i: int, j: int| 0 <= i < j < r.len() implies entry_le(r[i], r[j]) by {
            if j == m.len() {
                // every entry of m is x or an entry of d, none after t.last()
                if m[i] == x {
                } else {
                    let k = choose|k: int| 0 <= k < d.len() && d[k] == m[i];
                    assert(t[k] == d[k]);
                    assert(entry_le(t[k], t[t.len() - 1]));
                }
            }
        }
        assert(t =~= d.push(t.last()));
    }
}

/// Ordering gives back the same entries, each as often, and in order.
pub proof fn ordered_is_sorted_permutation(s: Seq<Entry>)
    ensures
        in_order(ordered(s)),
        ordered(s).to_multiset() == s.to_multiset(),
    decreases s.len(),
{
    broadcast use vstd::seq_lib::group_to_multiset_ensures;
    if s.len() > 0 {
        ordered_is_sorted_permutation(s.drop_last());
        lemma_insert_in_order(ordered(s.drop_last()), s.last());
        assert(s =~= s.drop_last().push(s.last()));
    }
}

} // verus!
