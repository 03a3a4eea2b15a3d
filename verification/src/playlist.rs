//! Playlists: the reserved Queue name, and an editing store whose every
//! edit can be undone and redone.
use vstd::prelude::*;
use crate::text::{chars_eq, chars_of, lowercase, to_lowercase, trim, trim_chars};
use crate::playback::moved_index;

verus! {

/// A name reserved for the built-in Queue playlist, in every supported
/// language: after trimming and lowercasing, `queue` or `file d'attente`.
pub open spec fn reserved_name(name: Seq<char>) -> bool {
    let t = lowercase(trim(name));
    t == "queue"@ || t == "file d'attente"@
}

/// Whether `name` (case and surrounding whitespace aside) is reserved for
/// the built-in Queue playlist.
pub fn is_reserved_playlist_name(name: &str) -> (b: bool)
    ensures
        b == reserved_name(name@),
{
    let t = crate::text::string_of(trim_chars(chars_of(name).as_slice()).as_slice());
    let l = chars_of(to_lowercase(t.as_str()).as_str());
    chars_eq(l.as_slice(), chars_of("queue").as_slice()) || chars_eq(
        l.as_slice(),
        chars_of("file d'attente").as_slice(),
    )
}

} // verus!

verus! {

// ---------------------------------------------------------------------------
// Entries and the edits made to them
// ---------------------------------------------------------------------------

/// One row of a playlist.
#[derive(Debug)]
pub struct PlaylistEntry {
    pub uuid: String,
    pub song_id: Option<i64>,
    pub item_type: i32,
    pub url: Option<String>,
    pub stream_url: Option<String>,
    pub additional_metadata: Option<String>,
}

fn copy_opt(o: &Option<String>) -> (r: Option<String>)
    ensures
        r == *o,
{
    match o {
        Some(s) => Some(s.clone()),
        None => None,
    }
}

impl PlaylistEntry {
    /// A field-for-field copy.
    pub fn duplicate(&self) -> (r: PlaylistEntry)
        ensures
            r == *self,
    {
        PlaylistEntry {
            uuid: self.uuid.clone(),
            song_id: self.song_id,
            item_type: self.item_type,
            url: copy_opt(&self.url),
            stream_url: copy_opt(&self.stream_url),
            additional_metadata: copy_opt(&self.additional_metadata),
        }
    }
}

/// A removed row and the position it had.
#[derive(Debug)]
pub struct ClearedItem {
    pub uuid: String,
    pub position: i32,
    pub song_id: Option<i64>,
    pub item_type: i32,
    pub url: Option<String>,
    pub stream_url: Option<String>,
    pub additional_metadata: Option<String>,
}

/// The row a cleared item stands for.
pub open spec fn entry_of(c: ClearedItem) -> PlaylistEntry {
    PlaylistEntry {
        uuid: c.uuid,
        song_id: c.song_id,
        item_type: c.item_type,
        url: c.url,
        stream_url: c.stream_url,
        additional_metadata: c.additional_metadata,
    }
}

fn cleared(e: &PlaylistEntry, position: i32) -> (c: ClearedItem)
    ensures
        entry_of(c) == *e,
        c.position == position,
{
    ClearedItem {
        uuid: e.uuid.clone(),
        position,
        song_id: e.song_id,
        item_type: e.item_type,
        url: copy_opt(&e.url),
        stream_url: copy_opt(&e.stream_url),
        additional_metadata: copy_opt(&e.additional_metadata),
    }
}

fn uncleared(c: &ClearedItem) -> (e: PlaylistEntry)
    ensures
        e == entry_of(*c),
{
    PlaylistEntry {
        uuid: c.uuid.clone(),
        song_id: c.song_id,
        item_type: c.item_type,
        url: copy_opt(&c.url),
        stream_url: copy_opt(&c.stream_url),
        additional_metadata: copy_opt(&c.additional_metadata),
    }
}

/// `s` without the rows at the positions in `ps`.
pub open spec fn keep_except(s: Seq<PlaylistEntry>, ps: Set<int>) -> Seq<PlaylistEntry>
    decreases s.len(),
{
    if s.len() == 0 {
        Seq::empty()
    } else {
        let rest = keep_except(s.drop_last(), ps);
        if ps.contains(s.len() - 1) {
            rest
        } else {
            rest.push(s.last())
        }
    }
}

/// The positions of a list of cleared items.
pub open spec fn positions_of(items: Seq<ClearedItem>) -> Set<int> {
    Set::new(|p: int| exists|j: int| 0 <= j < items.len() && items[j].position as int == p)
}

/// `items` are rows of `s`, in increasing position order.
pub open spec fn cleared_from(s: Seq<PlaylistEntry>, items: Seq<ClearedItem>) -> bool {
    &&& forall|j: int| 0 <= j < items.len() ==> 0 <= #[trigger] items[j].position < s.len()
    &&& forall|j: int| 0 <= j < items.len() ==> entry_of(#[trigger] items[j]) == s[items[j].position as int]
    &&& forall|a: int, b: int| 0 <= a < b < items.len() ==> #[trigger] items[a].position < #[trigger] items[b].position
}

/// Putting removed rows back: each, in increasing position order, is
/// inserted at its old position.
pub open spec fn reinsert(s: Seq<PlaylistEntry>, items: Seq<ClearedItem>) -> Seq<PlaylistEntry>
    decreases items.len(),
{
    if items.len() == 0 {
        s
    } else {
        let c = items.last();
        let t = reinsert(s, items.drop_last());
        let p = if c.position < 0 {
            0
        } else if c.position > t.len() {
            t.len() as int
        } else {
            c.position as int
        };
        t.insert(p, entry_of(c))
    }
}

} // verus!

verus! {

/// The positions of `items[k..]`.
pub open spec fn positions_from(items: Seq<ClearedItem>, k: int) -> Set<int> {
    Set::new(|p: int| exists|j: int| k <= j < items.len() && items[j].position as int == p)
}

/// Removing only positions past the end removes nothing.
proof fn lemma_keep_all(s: Seq<PlaylistEntry>, ps: Set<int>)
    requires
        forall|q: int| ps.contains(q) ==> q >= s.len() || q < 0,
    ensures
        keep_except(s, ps) == s,
    decreases s.len(),
{
    if s.len() > 0 {
        lemma_keep_all(s.drop_last(), ps);
        assert(s.drop_last().push(s.last()) =~= s);
    }
}

/// Putting back the lowest removed row: with every other removed position
/// above `p`, inserting `s[p]` at `p` undoes removing it.
proof fn lemma_put_back(s: Seq<PlaylistEntry>, p: int, rest: Set<int>)
    requires
        0 <= p < s.len(),
        forall|q: int| rest.contains(q) ==> q > p,
    ensures
        keep_except(s, rest.insert(p)).len() >= p,
        keep_except(s, rest.insert(p)).insert(p, s[p]) == keep_except(s, rest),
    decreases s.len(),
{
    let ps = rest.insert(p);
    let t = s.drop_last();
    let last = s.len() - 1;
    if last == p {
        assert forall|q: int| ps.contains(q) implies q >= t.len() || q < 0 by {}
        lemma_keep_all(t, ps);
        assert forall|q: int| rest.contains(q) implies q >= t.len() || q < 0 by {}
        lemma_keep_all(t, rest);
        assert(t.insert(p, s[p]) =~= s.drop_last().push(s.last()));
        assert(s.drop_last().push(s.last()) =~= s);
    } else {
        lemma_put_back(t, p, rest);
        let a = keep_except(t, ps);
        assert(t[p] == s[p]);
        if rest.contains(last) {
            assert(ps.contains(last));
        } else {
            assert(!ps.contains(last));
            assert(a.push(s.last()).insert(p, s[p]) =~= a.insert(p, s[p]).push(s.last()));
        }
    }
}

/// Putting back the first `k` removed rows leaves only the others removed.
proof fn lemma_reinsert_prefix(s: Seq<PlaylistEntry>, items: Seq<ClearedItem>, k: int)
    requires
        cleared_from(s, items),
        0 <= k <= items.len(),
    ensures
        reinsert(keep_except(s, positions_from(items, 0)), items.take(k)) == keep_except(
            s,
            positions_from(items, k),
        ),
    decreases k,
{
    let base = keep_except(s, positions_from(items, 0));
    if k == 0 {
        assert(items.take(0) =~= Seq::<ClearedItem>::empty());
    } else {
        let j = k - 1;
        lemma_reinsert_prefix(s, items, j);
        let c = items[j];
        let p = c.position as int;
        let rest = positions_from(items, k);
        assert(positions_from(items, j) =~= rest.insert(p));
        assert forall|q: int| rest.contains(q) implies q > p by {
            let i = choose|i: int| k <= i < items.len() && items[i].position as int == q;
            assert(items[j].position < items[i].position);
        }
        lemma_put_back(s, p, rest);
        assert(items.take(k).drop_last() =~= items.take(j));
        assert(items.take(k).last() == c);
        assert(entry_of(c) == s[p]);
    }
}

/// Undoing a removal: putting the removed rows back, in increasing
/// position order, at their old positions gives the rows before removal.
pub proof fn lemma_reinsert_restores(s: Seq<PlaylistEntry>, items: Seq<ClearedItem>)
    requires
        cleared_from(s, items),
    ensures
        reinsert(keep_except(s, positions_of(items)), items) == s,
{
    assert(positions_of(items) =~= positions_from(items, 0));
    let n = items.len() as int;
    lemma_reinsert_prefix(s, items, n);
    assert(items.take(n) =~= items);
    assert forall|q: int| positions_from(items, n).contains(q) implies q >= s.len() || q < 0 by {}
    lemma_keep_all(s, positions_from(items, n));
}

} // verus!

verus! {

/// `s` with the row at `from` moved to `to`.
pub open spec fn moved<T>(s: Seq<T>, from: int, to: int) -> Seq<T> {
    s.remove(from).insert(to, s[from])
}

/// Where each row lands after a move, and moving back undoes it.
pub proof fn lemma_move_back<T>(s: Seq<T>, from: int, to: int)
    requires
        0 <= from < s.len(),
        0 <= to < s.len(),
    ensures
        moved(s, from, to).len() == s.len(),
        forall|i: int| 0 <= i < s.len() ==> #[trigger] moved(s, from, to)[moved_index(from, to, i)] == s[i],
        moved(moved(s, from, to), to, from) == s,
{
    let t = moved(s, from, to);
    assert forall|i: int| 0 <= i < s.len() implies #[trigger] t[moved_index(from, to, i)] == s[i] by {
        let r = s.remove(from);
        if i == from {
        } else if i < from {
            assert(r[i] == s[i]);
        } else {
            assert(r[i - 1] == s[i]);
        }
    }
    crate::playback::lemma_moved_bijection(from, to, s.len() as int);
    let u = moved(t, to, from);
    assert forall|i: int| 0 <= i < s.len() implies #[trigger] u[i] == s[i] by {
        let j = moved_index(from, to, i);
        assert(0 <= j < s.len());
        assert(t[j] == s[i]);
        let r = t.remove(to);
        if j == to {
        } else if j < to {
            assert(r[j] == t[j]);
        } else {
            assert(r[j - 1] == t[j]);
        }
        assert(moved_index(to, from, j) == i);
        assert(u[moved_index(to, from, j)] == t[j]) by {
            if j == to {
            } else if j < to {
                assert(r[j] == t[j]);
            } else {
                assert(r[j - 1] == t[j]);
            }
        }
    }
    assert(u =~= s);
}

/// Moves the row at `from` to `to`.
fn move_row(s: &mut Vec<PlaylistEntry>, from: usize, to: usize)
    requires
        from < old(s)@.len(),
        to < old(s)@.len(),
    ensures
        final(s)@ == moved(old(s)@, from as int, to as int),
{
    let e = s.remove(from);
    s.insert(to, e);
}

/// Two removal sets that agree below `s.len()` remove the same rows.
proof fn lemma_keep_same(s: Seq<PlaylistEntry>, p: Set<int>, q: Set<int>)
    requires
        forall|i: int| 0 <= i < s.len() ==> (p.contains(i) <==> q.contains(i)),
    ensures
        keep_except(s, p) == keep_except(s, q),
    decreases s.len(),
{
    if s.len() > 0 {
        lemma_keep_same(s.drop_last(), p, q);
    }
}

/// Whether `u` is among `uuids`.
fn listed(uuids: &[String], u: &String) -> (b: bool)
    ensures
        b == uuids@.map_values(|x: String| x@).contains(u@),
{
    let mut i: usize = 0;
    while i < uuids.len()
        invariant
            i <= uuids@.len(),
            forall|k: int| 0 <= k < i ==> uuids@[k]@ != u@,
        decreases uuids@.len() - i,
    {
        if uuids[i] == *u {
            assert(uuids@.map_values(|x: String| x@)[i as int] == u@);
            return true;
        }
        i += 1;
    }
    proof {
        let v = uuids@.map_values(|x: String| x@);
        if v.contains(u@) {
            let k = choose|k: int| 0 <= k < v.len() && v[k] == u@;
            assert(uuids@[k]@ == u@);
        }
    }
    false
}

/// The positions of the rows of `s` whose uuid is listed.
pub open spec fn listed_positions(s: Seq<PlaylistEntry>, uuids: Seq<Seq<char>>) -> Set<int> {
    Set::new(|p: int| 0 <= p < s.len() && uuids.contains(s[p].uuid@))
}

/// Removes the rows whose uuid is listed; returns them with their old
/// positions, in position order.
fn remove_rows(s: &mut Vec<PlaylistEntry>, uuids: &[String]) -> (items: Vec<ClearedItem>)
    requires
        old(s)@.len() < i32::MAX,
    ensures
        cleared_from(old(s)@, items@),
        positions_of(items@) == listed_positions(old(s)@, uuids@.map_values(|x: String| x@)),
        final(s)@ == keep_except(old(s)@, positions_of(items@)),
{
    let ghost s0 = s@;
    let ghost uv = uuids@.map_values(|x: String| x@);
    let n = s.len();
    let mut kept: Vec<PlaylistEntry> = Vec::new();
    let mut items: Vec<ClearedItem> = Vec::new();
    let mut i: usize = 0;
    while i < n
        invariant
            n == s0.len() == s@.len(),
            s@ == s0,
            n < i32::MAX,
            uv == uuids@.map_values(|x: String| x@),
            i <= n,
            forall|j: int| 0 <= j < items@.len() ==> 0 <= #[trigger] items@[j].position < i,
            forall|j: int| 0 <= j < items@.len() ==> entry_of(#[trigger] items@[j]) == s0[items@[j].position as int],
            forall|a: int, b: int| 0 <= a < b < items@.len() ==> #[trigger] items@[a].position < #[trigger] items@[b].position,
            forall|p: int| 0 <= p < i ==> (positions_of(items@).contains(p) <==> uv.contains(s0[p].uuid@)),
            forall|p: int| positions_of(items@).contains(p) ==> 0 <= p < i,
            kept@ == keep_except(s0.take(i as int), positions_of(items@)),
        decreases n - i,
    {
        let ghost it0 = items@;
        let ghost p0 = positions_of(it0);
        assert(s0.take(i + 1).drop_last() =~= s0.take(i as int));
        assert(s0.take(i + 1).last() == s0[i as int]);
        if listed(uuids, &s[i].uuid) {
            let c = cleared(&s[i], i as i32);
            items.push(c);
            let ghost p1 = positions_of(items@);
            assert(p1 =~= p0.insert(i as int)) by {
                assert forall|p: int| p1.contains(p) <==> p0.insert(i as int).contains(p) by {
                    if p1.contains(p) {
                        let j = choose|j: int| 0 <= j < items@.len() && items@[j].position as int == p;
                        if j < it0.len() {
                            assert(items@[j] == it0[j]);
                        }
                    }
                    if p0.contains(p) {
                        let j = choose|j: int| 0 <= j < it0.len() && it0[j].position as int == p;
                        assert(items@[j] == it0[j]);
                    }
                    if p == i {
                        assert(items@[it0.len() as int].position == i);
                    }
                }
            }
            proof {
                lemma_keep_same(s0.take(i as int), p0, p1);
            }
        } else {
            let ghost p1 = positions_of(items@);
            proof {
                lemma_keep_same(s0.take(i as int), p0, p1);
            }
            kept.push(s[i].duplicate());
        }
        i += 1;
    }
    assert(s0.take(n as int) =~= s0);
    proof {
        assert(positions_of(items@) =~= listed_positions(s0, uv));
    }
    *s = kept;
    items
}

/// Puts removed rows back (see `reinsert`).
fn reinsert_rows(s: &mut Vec<PlaylistEntry>, items: &Vec<ClearedItem>)
    ensures
        final(s)@ == reinsert(old(s)@, items@),
{
    let mut k: usize = 0;
    assert(items@.take(0) =~= Seq::<ClearedItem>::empty());
    while k < items.len()
        invariant
            k <= items@.len(),
            s@ == reinsert(old(s)@, items@.take(k as int)),
        decreases items@.len() - k,
    {
        assert(items@.take(k + 1).drop_last() =~= items@.take(k as int));
        assert(items@.take(k + 1).last() == items@[k as int]);
        let c = &items[k];
        let len = s.len();
        let p: usize = if c.position < 0 {
            0
        } else if (c.position as usize) > len {
            len
        } else {
            c.position as usize
        };
        s.insert(p, uncleared(c));
        k += 1;
    }
    assert(items@.take(k as int) =~= items@);
}

} // verus!

verus! {

// ---------------------------------------------------------------------------
// Recorded edits, and what undoing and redoing them does
// ---------------------------------------------------------------------------

/// An edit of a playlist's rows, as recorded for undo and redo.
#[derive(Debug)]
pub enum PlaylistOp {
    /// Songs appended: their positions and song ids.
    Insert { playlist_id: i64, items: Vec<(i32, i64)> },
    /// Rows removed, with their old positions, in position order.
    Remove { playlist_id: i64, items: Vec<ClearedItem> },
    /// Every row removed, in position order.
    Clear { playlist_id: i64, items: Vec<ClearedItem> },
    /// One row moved.
    Move { playlist_id: i64, from: i32, to: i32 },
    /// Several rows moved: (uuid, old position, new position) of each row
    /// whose position changed.
    BatchMove { playlist_id: i64, moves: Vec<(String, i32, i32)> },
}

impl PlaylistOp {
    pub open spec fn playlist(&self) -> i64 {
        match self {
            PlaylistOp::Insert { playlist_id, .. } => *playlist_id,
            PlaylistOp::Remove { playlist_id, .. } => *playlist_id,
            PlaylistOp::Clear { playlist_id, .. } => *playlist_id,
            PlaylistOp::Move { playlist_id, .. } => *playlist_id,
            PlaylistOp::BatchMove { playlist_id, .. } => *playlist_id,
        }
    }
}

/// The uuids of a list of cleared items.
pub open spec fn cleared_uuids(items: Seq<ClearedItem>) -> Seq<Seq<char>> {
    items.map_values(|c: ClearedItem| c.uuid@)
}

/// Some move starts at position `i`.
pub open spec fn moved_from(moves: Seq<(String, i32, i32)>, i: int) -> bool {
    exists|j: int| 0 <= j < moves.len() && moves[j].1 as int == i
}

/// Some move ends at position `i`.
pub open spec fn moved_to(moves: Seq<(String, i32, i32)>, i: int) -> bool {
    exists|j: int| 0 <= j < moves.len() && moves[j].2 as int == i
}

/// `op` records an edit that turned rows `s` into rows `s2`.
pub open spec fn made(s: Seq<PlaylistEntry>, s2: Seq<PlaylistEntry>, op: PlaylistOp) -> bool {
    match op {
        PlaylistOp::Insert { items, .. } => {
            &&& s2.len() == s.len() + items@.len()
            &&& s2.take(s.len() as int) == s
            &&& forall|i: int|
                0 <= i < items@.len() ==> #[trigger] items@[i].0 == s.len() + i && s2[s.len() + i].song_id
                    == Some(items@[i].1)
        },
        PlaylistOp::Remove { items, .. } => {
            &&& cleared_from(s, items@)
            &&& positions_of(items@) == listed_positions(s, cleared_uuids(items@))
            &&& s2 == keep_except(s, positions_of(items@))
        },
        PlaylistOp::Clear { items, .. } => {
            &&& items@.len() == s.len()
            &&& forall|i: int|
                0 <= i < s.len() ==> (#[trigger] items@[i]).position == i && entry_of(items@[i]) == s[i]
            &&& s2.len() == 0
        },
        PlaylistOp::Move { from, to, .. } => {
            &&& 0 <= from < s.len()
            &&& 0 <= to < s.len()
            &&& s2 == moved(s, from as int, to as int)
        },
        PlaylistOp::BatchMove { moves, .. } => {
            let m = moves@;
            &&& s2.len() == s.len()
            &&& forall|j: int|
                0 <= j < m.len() ==> 0 <= (#[trigger] m[j]).1 < s.len() && 0 <= m[j].2 < s.len() && s2[m[j].2 as int]
                    == s[m[j].1 as int]
            &&& forall|a: int, b: int| 0 <= a < b < m.len() ==> #[trigger] m[a].1 != #[trigger] m[b].1
            &&& forall|a: int, b: int| 0 <= a < b < m.len() ==> #[trigger] m[a].2 != #[trigger] m[b].2
            &&& forall|i: int| 0 <= i < s.len() ==> (moved_from(m, i) <==> moved_to(m, i))
            &&& forall|i: int| 0 <= i < s.len() && !moved_from(m, i) ==> s2[i] == s[i]
        },
    }
}

/// Where a move writes: its `to` position, or its `from` position going back.
pub open spec fn move_dst(mv: (String, i32, i32), back: bool) -> int {
    if back {
        mv.1 as int
    } else {
        mv.2 as int
    }
}

/// Where a move reads from: the other end.
pub open spec fn move_src(mv: (String, i32, i32), back: bool) -> int {
    if back {
        mv.2 as int
    } else {
        mv.1 as int
    }
}

/// Moves applied to `s`: for each, in order, the row at its `from` position
/// gets the row that `src` holds at its `to` position (or the reverse).
pub open spec fn apply_moves(s: Seq<PlaylistEntry>, src: Seq<PlaylistEntry>, m: Seq<(String, i32, i32)>, back: bool) -> Seq<PlaylistEntry>
    decreases m.len(),
{
    if m.len() == 0 {
        s
    } else {
        let r = apply_moves(s, src, m.drop_last(), back);
        let dst = move_dst(m.last(), back);
        let from = move_src(m.last(), back);
        if 0 <= dst < r.len() && 0 <= from < src.len() {
            r.update(dst, src[from])
        } else {
            r
        }
    }
}

/// The positions an insertion recorded.
pub open spec fn inserted_positions(items: Seq<(i32, i64)>) -> Set<int> {
    Set::new(|p: int| exists|j: int| 0 <= j < items.len() && items[j].0 as int == p)
}

/// The rows after undoing `op` on rows `s2`.
pub open spec fn undone(s2: Seq<PlaylistEntry>, op: PlaylistOp) -> Seq<PlaylistEntry> {
    match op {
        PlaylistOp::Insert { items, .. } => keep_except(s2, inserted_positions(items@)),
        PlaylistOp::Remove { items, .. } => reinsert(s2, items@),
        PlaylistOp::Clear { items, .. } => items@.map_values(|c: ClearedItem| entry_of(c)),
        PlaylistOp::Move { from, to, .. } => if 0 <= to < s2.len() {
            moved(s2, to as int, clamp_pos(from, s2.len() as int))
        } else {
            s2
        },
        PlaylistOp::BatchMove { moves, .. } => apply_moves(s2, s2, moves@, true),
    }
}

/// After the moves `m.take(k)`, each position holds what the moves put
/// there, the others are untouched.
proof fn lemma_apply_moves(s: Seq<PlaylistEntry>, src: Seq<PlaylistEntry>, m: Seq<(String, i32, i32)>, back: bool, k: int)
    requires
        0 <= k <= m.len(),
        s.len() == src.len(),
        forall|j: int| 0 <= j < m.len() ==> 0 <= (#[trigger] m[j]).1 < s.len() && 0 <= m[j].2 < s.len(),
        back ==> forall|a: int, b: int| 0 <= a < b < m.len() ==> #[trigger] m[a].1 != #[trigger] m[b].1,
        !back ==> forall|a: int, b: int| 0 <= a < b < m.len() ==> #[trigger] m[a].2 != #[trigger] m[b].2,
    ensures
        apply_moves(s, src, m.take(k), back).len() == s.len(),
        forall|j: int|
            0 <= j < k ==> apply_moves(s, src, m.take(k), back)[move_dst(#[trigger] m[j], back)]
                == src[move_src(m[j], back)],
        forall|i: int|
            0 <= i < s.len() && (forall|j: int| 0 <= j < k ==> move_dst(#[trigger] m[j], back) != i)
                ==> #[trigger] apply_moves(s, src, m.take(k), back)[i] == s[i],
    decreases k,
{
    if k > 0 {
        lemma_apply_moves(s, src, m, back, k - 1);
        assert(m.take(k).drop_last() =~= m.take(k - 1));
        assert(m.take(k).last() == m[k - 1]);
    } else {
        assert(m.take(0) =~= Seq::<(String, i32, i32)>::empty());
    }
}

/// Undoing a recorded edit gives back the rows before it.
pub proof fn undo_restores(s: Seq<PlaylistEntry>, s2: Seq<PlaylistEntry>, op: PlaylistOp)
    requires
        made(s, s2, op),
    ensures
        undone(s2, op) == s,
{
    match op {
        PlaylistOp::Insert { items, .. } => {
            let n = s.len() as int;
            let ps = inserted_positions(items@);
            assert forall|i: int| 0 <= i < s2.len() implies (ps.contains(i) <==> i >= n) by {
                if i >= n {
                    assert(items@[i - n].0 == i);
                }
                if ps.contains(i) {
                    let j = choose|j: int| 0 <= j < items@.len() && items@[j].0 as int == i;
                    assert(items@[j].0 == n + j);
                }
            }
            lemma_keep_prefix(s2, ps, n);
        },
        PlaylistOp::Remove { items, .. } => {
            lemma_reinsert_restores(s, items@);
        },
        PlaylistOp::Clear { items, .. } => {
            assert(items@.map_values(|c: ClearedItem| entry_of(c)) =~= s);
        },
        PlaylistOp::Move { from, to, .. } => {
            assert(clamp_pos(from, s2.len() as int) == from);
            lemma_move_back(s, from as int, to as int);
        },
        PlaylistOp::BatchMove { moves, .. } => {
            let m = moves@;
            lemma_apply_moves(s2, s2, m, true, m.len() as int);
            assert(m.take(m.len() as int) =~= m);
            let r = apply_moves(s2, s2, m, true);
            assert forall|i: int| 0 <= i < s.len() implies r[i] == s[i] by {
                if moved_from(m, i) {
                    let j = choose|j: int| 0 <= j < m.len() && m[j].1 as int == i;
                    assert(r[m[j].1 as int] == s2[m[j].2 as int]);
                } else {
                    assert forall|j: int| 0 <= j < m.len() implies m[j].1 as int != i by {}
                }
            }
            assert(r =~= s);
        },
    }
}

/// Removing a set that holds exactly the positions from `n` on keeps the
/// first `n` rows.
proof fn lemma_keep_prefix(s: Seq<PlaylistEntry>, ps: Set<int>, n: int)
    requires
        0 <= n <= s.len(),
        forall|i: int| 0 <= i < s.len() ==> (ps.contains(i) <==> i >= n),
    ensures
        keep_except(s, ps) == s.take(n),
    decreases s.len(),
{
    if s.len() > n {
        lemma_keep_prefix(s.drop_last(), ps, n);
        assert(s.drop_last().take(n) =~= s.take(n));
    } else {
        assert forall|q: int| ps.contains(q) implies q >= s.len() || q < 0 by {}
        lemma_keep_all(s, ps);
        assert(s.take(n) =~= s);
    }
}

} // verus!

verus! {

/// The rows after redoing `op` on rows `s` (an insertion gets fresh uuids,
/// so it has no single outcome and is stated by `made` instead).
pub open spec fn redone(s: Seq<PlaylistEntry>, op: PlaylistOp) -> Seq<PlaylistEntry> {
    match op {
        PlaylistOp::Insert { .. } => s,
        PlaylistOp::Remove { items, .. } => keep_except(s, listed_positions(s, cleared_uuids(items@))),
        PlaylistOp::Clear { .. } => Seq::empty(),
        PlaylistOp::Move { from, to, .. } => if 0 <= from < s.len() {
            moved(s, from as int, clamp_pos(to, s.len() as int))
        } else {
            s
        },
        PlaylistOp::BatchMove { moves, .. } => apply_moves(s, s, moves@, false),
    }
}

/// Redoing a recorded edit on the rows it started from makes it again.
pub proof fn redo_reapplies(s: Seq<PlaylistEntry>, s2: Seq<PlaylistEntry>, op: PlaylistOp)
    requires
        made(s, s2, op),
        !(op is Insert),
    ensures
        redone(s, op) == s2,
{
    match op {
        PlaylistOp::BatchMove { moves, .. } => {
            let m = moves@;
            lemma_apply_moves(s, s, m, false, m.len() as int);
            assert(m.take(m.len() as int) =~= m);
            let r = apply_moves(s, s, m, false);
            assert forall|i: int| 0 <= i < s.len() implies r[i] == s2[i] by {
                if moved_to(m, i) {
                    let j = choose|j: int| 0 <= j < m.len() && m[j].2 as int == i;
                    assert(r[m[j].2 as int] == s[m[j].1 as int]);
                } else {
                    assert forall|j: int| 0 <= j < m.len() implies move_dst(m[j], false) != i by {}
                }
            }
            assert(r =~= s2);
        },
        PlaylistOp::Clear { .. } => {
            assert(s2 =~= Seq::<PlaylistEntry>::empty());
        },
        PlaylistOp::Move { from, to, .. } => {
            assert(clamp_pos(to, s.len() as int) == to);
        },
        _ => {},
    }
}

/// Undoing `op` on `s`: see `undone`.
fn undo_rows(s: &mut Vec<PlaylistEntry>, op: &PlaylistOp)
    ensures
        final(s)@ == undone(old(s)@, *op),
{
    match op {
        PlaylistOp::Insert { items, .. } => {
            let ghost s0 = s@;
            let ghost ps = inserted_positions(items@);
            let n = s.len();
            let mut kept: Vec<PlaylistEntry> = Vec::new();
            let mut i: usize = 0;
            while i < n
                invariant
                    n == s0.len() == s@.len(),
                    s@ == s0,
                    ps == inserted_positions(items@),
                    i <= n,
                    kept@ == keep_except(s0.take(i as int), ps),
                decreases n - i,
            {
                assert(s0.take(i + 1).drop_last() =~= s0.take(i as int));
                assert(s0.take(i + 1).last() == s0[i as int]);
                let mut hit = false;
                let mut j: usize = 0;
                while j < items.len()
                    invariant
                        j <= items@.len(),
                        hit == exists|k: int| 0 <= k < j && items@[k].0 as int == i as int,
                    decreases items@.len() - j,
                {
                    if items[j].0 >= 0 && (items[j].0 as usize) == i {
                        hit = true;
                    }
                    j += 1;
                }
                if !hit {
                    kept.push(s[i].duplicate());
                }
                i += 1;
            }
            assert(s0.take(n as int) =~= s0);
            *s = kept;
        },
        PlaylistOp::Remove { items, .. } => {
            reinsert_rows(s, items);
        },
        PlaylistOp::Clear { items, .. } => {
            let mut out: Vec<PlaylistEntry> = Vec::new();
            let mut k: usize = 0;
            while k < items.len()
                invariant
                    k <= items@.len(),
                    out@ == items@.take(k as int).map_values(|c: ClearedItem| entry_of(c)),
                decreases items@.len() - k,
            {
                out.push(uncleared(&items[k]));
                assert(out@ =~= items@.take(k + 1).map_values(|c: ClearedItem| entry_of(c)));
                k += 1;
            }
            assert(items@.take(k as int) =~= items@);
            *s = out;
        },
        PlaylistOp::Move { from, to, .. } => {
            let f = *from;
            let t = *to;
            if t >= 0 && (t as usize) < s.len() {
                let n = s.len();
                let g: usize = if f < 0 {
                    0
                } else if (f as usize) >= n {
                    n - 1
                } else {
                    f as usize
                };
                move_row(s, t as usize, g);
            }
        },
        PlaylistOp::BatchMove { moves, .. } => {
            let src: Vec<PlaylistEntry> = copy_rows(s);
            apply_moves_rows(s, &src, moves, true);
        },
    }
}

fn copy_rows(s: &Vec<PlaylistEntry>) -> (r: Vec<PlaylistEntry>)
    ensures
        r@ == s@,
{
    let mut r: Vec<PlaylistEntry> = Vec::new();
    let mut i: usize = 0;
    while i < s.len()
        invariant
            i <= s@.len(),
            r@ == s@.take(i as int),
        decreases s@.len() - i,
    {
        r.push(s[i].duplicate());
        assert(r@ =~= s@.take(i + 1));
        i += 1;
    }
    assert(s@.take(i as int) =~= s@);
    r
}

fn apply_moves_rows(s: &mut Vec<PlaylistEntry>, src: &Vec<PlaylistEntry>, moves: &Vec<(String, i32, i32)>, back: bool)
    ensures
        final(s)@ == apply_moves(old(s)@, src@, moves@, back),
{
    let mut k: usize = 0;
    assert(moves@.take(0) =~= Seq::<(String, i32, i32)>::empty());
    while k < moves.len()
        invariant
            k <= moves@.len(),
            s@ == apply_moves(old(s)@, src@, moves@.take(k as int), back),
        decreases moves@.len() - k,
    {
        assert(moves@.take(k + 1).drop_last() =~= moves@.take(k as int));
        assert(moves@.take(k + 1).last() == moves@[k as int]);
        let (dst, from) = if back {
            (moves[k].1, moves[k].2)
        } else {
            (moves[k].2, moves[k].1)
        };
        if dst >= 0 && from >= 0 && (dst as usize) < s.len() && (from as usize) < src.len() {
            s.set(dst as usize, src[from as usize].duplicate());
        }
        k += 1;
    }
    assert(moves@.take(k as int) =~= moves@);
}

} // verus!

verus! {

// ---------------------------------------------------------------------------
// The store
// ---------------------------------------------------------------------------

/// How a playlist fills itself: whether it is dynamic, the spec of the
/// songs it holds, and the population mode that orders them.
#[derive(Debug)]
pub struct DynamicConfig {
    pub enabled: bool,
    pub spec: Option<String>,
    pub population_mode: String,
}

impl DynamicConfig {
    /// A plain playlist: not dynamic, no spec, mode `all`.
    pub fn plain() -> (c: DynamicConfig)
        ensures
            !c.enabled,
            c.spec is None,
            c.population_mode@ == "all"@,
    {
        DynamicConfig { enabled: false, spec: None, population_mode: "all".to_owned() }
    }

    fn duplicate(&self) -> (c: DynamicConfig)
        ensures
            c == *self,
    {
        DynamicConfig { enabled: self.enabled, spec: copy_opt(&self.spec), population_mode: self.population_mode.clone() }
    }
}

/// A playlist and its rows, in position order.
#[derive(Debug)]
pub struct Playlist {
    pub id: i64,
    pub name: String,
    pub dynamic: DynamicConfig,
    pub entries: Vec<PlaylistEntry>,
}

/// What a playlist listing shows.
#[derive(Debug)]
pub struct PlaylistInfo {
    pub id: i64,
    pub name: String,
    pub track_count: usize,
    pub is_queue: bool,
    pub dynamic: DynamicConfig,
}

/// `k` is the first playlist with the Queue's name.
pub open spec fn first_queue_at(pls: Seq<Playlist>, k: int) -> bool {
    &&& 0 <= k < pls.len()
    &&& queue_name(pls[k].name@)
    &&& forall|j: int| 0 <= j < k ==> !queue_name(#[trigger] pls[j].name@)
}

/// The built-in Queue playlist's name, case and surrounding whitespace aside.
pub open spec fn queue_name(name: Seq<char>) -> bool {
    crate::text::eq_ignore_ascii_case(trim(name), "queue"@)
}

/// The position of the first playlist with id `id`.
pub open spec fn index_of_id(pls: Seq<Playlist>, id: i64) -> Option<int>
    decreases pls.len(),
{
    if pls.len() == 0 {
        None
    } else if pls[0].id == id {
        Some(0)
    } else {
        match index_of_id(pls.drop_first(), id) {
            Some(i) => Some(i + 1),
            None => None,
        }
    }
}

proof fn lemma_index_of_id(pls: Seq<Playlist>, id: i64)
    ensures
        index_of_id(pls, id) matches Some(i) ==> 0 <= i < pls.len() && pls[i].id == id && forall|k: int|
            0 <= k < i ==> (#[trigger] pls[k]).id != id,
        index_of_id(pls, id) is None ==> forall|k: int| 0 <= k < pls.len() ==> (#[trigger] pls[k]).id != id,
    decreases pls.len(),
{
    if pls.len() > 0 && pls[0].id != id {
        lemma_index_of_id(pls.drop_first(), id);
        assert forall|k: int| 1 <= k < pls.len() implies pls[k] == pls.drop_first()[k - 1] by {}
    }
}

/// The playlists' ids increase in list order, so no two are equal.
pub open spec fn ids_increasing(pls: Seq<Playlist>) -> bool {
    forall|a: int, b: int| 0 <= a < b < pls.len() ==> (#[trigger] pls[a]).id < (#[trigger] pls[b]).id
}

/// With increasing ids, each playlist is the one found by its id.
proof fn lemma_found_by_id(pls: Seq<Playlist>, k: int)
    requires
        ids_increasing(pls),
        0 <= k < pls.len(),
    ensures
        index_of_id(pls, pls[k].id) == Some(k),
        rows_of(pls, pls[k].id) == Some(pls[k].entries@),
{
    lemma_first_id(pls, pls[k].id, k);
}

/// The rows of the first playlist with id `id`.
pub open spec fn rows_of(pls: Seq<Playlist>, id: i64) -> Option<Seq<PlaylistEntry>> {
    match index_of_id(pls, id) {
        Some(i) => Some(pls[i].entries@),
        None => None,
    }
}

/// Appending a playlist with another id leaves the rows of id `x` alone.
proof fn lemma_rows_push(pls: Seq<Playlist>, p: Playlist, x: i64)
    requires
        p.id != x,
    ensures
        rows_of(pls.push(p), x) == rows_of(pls, x),
    decreases pls.len(),
{
    let q = pls.push(p);
    if pls.len() > 0 && pls[0].id != x {
        let t = pls.drop_first();
        assert(q.drop_first() =~= t.push(p));
        lemma_rows_push(t, p, x);
        lemma_index_of_id(t, x);
        lemma_index_of_id(t.push(p), x);
        match index_of_id(t, x) {
            Some(i) => {
                assert(t.push(p)[i] == t[i]);
                assert(index_of_id(t.push(p), x) == Some(i));
                assert(q[i + 1] == t[i] && pls[i + 1] == t[i]);
                assert(index_of_id(q, x) == Some(i + 1));
                assert(index_of_id(pls, x) == Some(i + 1));
            },
            None => {
                assert(index_of_id(t.push(p), x) is None);
            },
        }
    } else if pls.len() == 0 {
        assert(q.drop_first() =~= Seq::<Playlist>::empty());
        assert(index_of_id(q.drop_first(), x) is None);
        assert(index_of_id(q, x) is None);
    } else {
        assert(q[0] == pls[0]);
        assert(index_of_id(q, x) == Some(0int));
    }
}

/// Two lists of playlists with the same ids in the same places find every
/// id in the same place.
proof fn lemma_same_ids(a: Seq<Playlist>, b: Seq<Playlist>, id: i64)
    requires
        a.len() == b.len(),
        forall|k: int| 0 <= k < a.len() ==> (#[trigger] a[k]).id == b[k].id,
    ensures
        index_of_id(a, id) == index_of_id(b, id),
    decreases a.len(),
{
    if a.len() > 0 {
        assert(a[0].id == b[0].id);
        let (ta, tb) = (a.drop_first(), b.drop_first());
        assert forall|k: int| 0 <= k < ta.len() implies (#[trigger] ta[k]).id == tb[k].id by {
            assert(ta[k] == a[k + 1]);
            assert(tb[k] == b[k + 1]);
        }
        lemma_same_ids(ta, tb, id);
    }
}

/// Changing only the rows of the playlist at `i`, the first with id `id`,
/// changes the rows of `id` and no other.
proof fn lemma_rows_edited(a: Seq<Playlist>, b: Seq<Playlist>, i: int, id: i64)
    requires
        a.len() == b.len(),
        forall|k: int| 0 <= k < a.len() ==> (#[trigger] a[k]).id == b[k].id,
        forall|k: int| 0 <= k < a.len() && k != i ==> #[trigger] a[k] == b[k],
        index_of_id(a, id) == Some(i),
    ensures
        rows_of(b, id) == Some(b[i].entries@),
        forall|x: i64| x != id ==> #[trigger] rows_of(b, x) == rows_of(a, x),
{
    lemma_same_ids(a, b, id);
    lemma_index_of_id(a, id);
    assert forall|x: i64| x != id implies #[trigger] rows_of(b, x) == rows_of(a, x) by {
        lemma_same_ids(a, b, x);
        lemma_index_of_id(a, x);
    }
}

/// Playlist CRUD and row edits, each row edit recorded so it can be undone
/// and redone.
pub struct PlaylistManager {
    playlists: Vec<Playlist>,
    next_id: i64,
    undo_stack: Vec<PlaylistOp>,
    redo_stack: Vec<PlaylistOp>,
}

/// `uuid::Uuid::new_v4().to_string()`: a random version-4 UUID in its
/// hyphenated lowercase form (`Display` writes `LowerHex` of the
/// hyphenated UUID): 36 characters, `-` at 8, 13, 18 and 23, lowercase hex
/// digits elsewhere. The digits themselves are random.
#[verifier::external_body]
pub(crate) fn new_uuid() -> (r: String)
    ensures
        r@.len() == 36,
        forall|i: int|
            0 <= i < 36 ==> if i == 8 || i == 13 || i == 18 || i == 23 {
                #[trigger] r@[i] == '-'
            } else {
                ('0' <= r@[i] <= '9') || ('a' <= r@[i] <= 'f')
            },
{
    uuid::Uuid::new_v4().to_string()
}

impl PlaylistManager {
    pub closed spec fn all(&self) -> Seq<Playlist> {
        self.playlists@
    }

    /// The rows of playlist `id`.
    pub open spec fn rows(&self, id: i64) -> Option<Seq<PlaylistEntry>> {
        rows_of(self.all(), id)
    }

    pub closed spec fn undo_ops(&self) -> Seq<PlaylistOp> {
        self.undo_stack@
    }

    pub closed spec fn redo_ops(&self) -> Seq<PlaylistOp> {
        self.redo_stack@
    }

    pub closed spec fn next(&self) -> i64 {
        self.next_id
    }

    /// New ids are above all ids.
    pub open spec fn wf(&self) -> bool {
        &&& forall|k: int| 0 <= k < self.all().len() ==> (#[trigger] self.all()[k]).id < self.next()
        &&& ids_increasing(self.all())
        &&& self.next() >= 1
    }

    /// The other playlists keep their rows.
    pub open spec fn others_kept(&self, old: &Self, id: i64) -> bool {
        forall|x: i64| x != id ==> #[trigger] rows_of(self.all(), x) == rows_of(old.all(), x)
    }

    pub fn new() -> (m: PlaylistManager)
        ensures
            m.wf(),
            m.all().len() == 0,
            m.undo_ops().len() == 0,
            m.redo_ops().len() == 0,
    {
        PlaylistManager { playlists: Vec::new(), next_id: 1, undo_stack: Vec::new(), redo_stack: Vec::new() }
    }

    /// The position of playlist `id`.
    fn find(&self, id: i64) -> (r: Option<usize>)
        ensures
            match r {
                Some(i) => index_of_id(self.all(), id) == Some(i as int),
                None => index_of_id(self.all(), id) is None,
            },
    {
        let mut i: usize = 0;
        while i < self.playlists.len()
            invariant
                i <= self.playlists@.len(),
                forall|k: int| 0 <= k < i ==> (#[trigger] self.playlists@[k]).id != id,
            decreases self.playlists@.len() - i,
        {
            if self.playlists[i].id == id {
                proof {
                    lemma_first_id(self.playlists@, id, i as int);
                }
                return Some(i);
            }
            i += 1;
        }
        proof {
            lemma_first_id(self.playlists@, id, i as int);
        }
        None
    }

    /// The playlists in creation order.
    pub fn get_playlists(&self) -> (r: Vec<PlaylistInfo>)
        ensures
            r@.len() == self.all().len(),
            forall|k: int|
                0 <= k < r@.len() ==> (#[trigger] r@[k]).id == self.all()[k].id && r@[k].name@
                    == self.all()[k].name@ && r@[k].track_count == self.all()[k].entries@.len()
                    && r@[k].is_queue == queue_name(self.all()[k].name@),
    {
        let mut out: Vec<PlaylistInfo> = Vec::new();
        let mut i: usize = 0;
        while i < self.playlists.len()
            invariant
                i <= self.playlists@.len(),
                out@.len() == i,
                forall|k: int|
                    0 <= k < i ==> (#[trigger] out@[k]).id == self.playlists@[k].id && out@[k].name@
                        == self.playlists@[k].name@ && out@[k].track_count == self.playlists@[k].entries@.len()
                        && out@[k].is_queue == queue_name(self.playlists@[k].name@),
            decreases self.playlists@.len() - i,
        {
            out.push(self.info(i));
            i += 1;
        }
        out
    }

    fn info(&self, i: usize) -> (r: PlaylistInfo)
        requires
            i < self.all().len(),
        ensures
            r.id == self.all()[i as int].id,
            r.name@ == self.all()[i as int].name@,
            r.track_count == self.all()[i as int].entries@.len(),
            r.is_queue == queue_name(self.all()[i as int].name@),
            r.dynamic == self.all()[i as int].dynamic,
    {
        let p = &self.playlists[i];
        PlaylistInfo {
            id: p.id,
            name: p.name.clone(),
            track_count: p.entries.len(),
            is_queue: is_queue_name(&p.name),
            dynamic: p.dynamic.duplicate(),
        }
    }

    /// The rows of playlist `id`; none for an unknown id.
    pub fn get_playlist_tracks(&self, playlist_id: i64) -> (r: Vec<PlaylistEntry>)
        ensures
            r@ == (match self.rows(playlist_id) {
                Some(s) => s,
                None => Seq::empty(),
            }),
    {
        match self.find(playlist_id) {
            Some(i) => {
                proof {
                    lemma_index_of_id(self.playlists@, playlist_id);
                }
                copy_rows(&self.playlists[i].entries)
            },
            None => Vec::new(),
        }
    }
}

proof fn lemma_first_id(pls: Seq<Playlist>, id: i64, i: int)
    requires
        0 <= i <= pls.len(),
        forall|k: int| 0 <= k < i ==> (#[trigger] pls[k]).id != id,
    ensures
        i < pls.len() && pls[i].id == id ==> index_of_id(pls, id) == Some(i),
        i == pls.len() ==> index_of_id(pls, id) is None,
    decreases i,
{
    if i > 0 {
        let t = pls.drop_first();
        assert forall|k: int| 0 <= k < i - 1 implies (#[trigger] t[k]).id != id by {
            assert(t[k] == pls[k + 1]);
        }
        assert(pls[0].id != id);
        lemma_first_id(t, id, i - 1);
    }
}

/// Whether a playlist name is the Queue's.
fn is_queue_name(name: &String) -> (b: bool)
    ensures
        b == queue_name(name@),
{
    let t = trim_chars(chars_of(name.as_str()).as_slice());
    crate::text::eq_ignore_ascii_case_chars(t.as_slice(), chars_of("queue").as_slice())
}

} // verus!

verus! {

// ---------------------------------------------------------------------------
// Playlist CRUD
// ---------------------------------------------------------------------------

/// Why a playlist request was refused.
#[derive(Debug, PartialEq, Eq)]
pub enum PlaylistError {
    /// The name, trimmed, is reserved for the built-in Queue playlist.
    Reserved { name: String },
    /// Every playlist id has been handed out.
    NoIdLeft,
    /// The rows would not fit `i32` positions.
    TooManyRows,
    /// No playlist has the id.
    UnknownPlaylist,
    /// No row stands at the position.
    NoRowAt { position: i32 },
}

/// The text of a refusal of a reserved name.
pub open spec fn reserved_text(name: Seq<char>) -> Seq<char> {
    "\""@ + name + "\" is reserved for the app's built-in Queue playlist"@
}

/// The sentence shown for error `e`.
pub open spec fn error_text(e: PlaylistError) -> Seq<char> {
    match e {
        PlaylistError::Reserved { name } => reserved_text(name@),
        PlaylistError::NoIdLeft => "no playlist id is left"@,
        PlaylistError::TooManyRows => "the playlist would hold too many rows"@,
        PlaylistError::UnknownPlaylist => "no such playlist"@,
        PlaylistError::NoRowAt { .. } => "no row at that position"@,
    }
}

impl PlaylistError {
    /// A sentence for the user.
    pub fn message(&self) -> (m: String)
        ensures
            m@ == error_text(*self),
    {
        match self {
            PlaylistError::Reserved { name } => {
                let mut out: Vec<char> = Vec::new();
                crate::text::push_str(&mut out, "\"");
                crate::text::push_str(&mut out, name.as_str());
                crate::text::push_str(&mut out, "\" is reserved for the app's built-in Queue playlist");
                crate::text::string_of(out.as_slice())
            },
            PlaylistError::NoIdLeft => "no playlist id is left".to_owned(),
            PlaylistError::TooManyRows => "the playlist would hold too many rows".to_owned(),
            PlaylistError::UnknownPlaylist => "no such playlist".to_owned(),
            PlaylistError::NoRowAt { .. } => "no row at that position".to_owned(),
        }
    }
}

/// `info` describes playlist `p`.
pub open spec fn info_of(info: PlaylistInfo, p: Playlist) -> bool {
    &&& info.id == p.id
    &&& info.name@ == p.name@
    &&& info.track_count == p.entries@.len()
    &&& info.is_queue == queue_name(p.name@)
    &&& info.dynamic == p.dynamic
}

/// Some playlist is the Queue.
pub open spec fn has_queue(pls: Seq<Playlist>) -> bool {
    exists|k: int| 0 <= k < pls.len() && queue_name(#[trigger] pls[k].name@)
}

/// A new playlist named `name` would be refused: the name is reserved, and
/// either the Queue exists already or the name is not the Queue's own.
pub open spec fn create_refused(pls: Seq<Playlist>, name: Seq<char>) -> bool {
    reserved_name(name) && (has_queue(pls) || !queue_name(name))
}

/// `pls` without the playlists with id `id`.
pub open spec fn without_id(pls: Seq<Playlist>, id: i64) -> Seq<Playlist>
    decreases pls.len(),
{
    if pls.len() == 0 {
        Seq::empty()
    } else if pls[0].id == id {
        without_id(pls.drop_first(), id)
    } else {
        seq![pls[0]] + without_id(pls.drop_first(), id)
    }
}

proof fn lemma_without_id(pls: Seq<Playlist>, id: i64)
    ensures
        forall|k: int| 0 <= k < without_id(pls, id).len() ==> exists|j: int| 0 <= j < pls.len() && #[trigger] without_id(pls, id)[k] == pls[j],
        rows_of(without_id(pls, id), id) is None,
        forall|x: i64| x != id ==> #[trigger] rows_of(without_id(pls, id), x) == rows_of(pls, x),
    decreases pls.len(),
{
    if pls.len() > 0 {
        let t = pls.drop_first();
        lemma_without_id(t, id);
        let w = without_id(pls, id);
        assert forall|k: int| 0 <= k < w.len() implies exists|j: int| 0 <= j < pls.len() && #[trigger] w[k] == pls[j] by {
            if pls[0].id == id {
                let j = choose|j: int| 0 <= j < t.len() && without_id(t, id)[k] == t[j];
                assert(w[k] == pls[j + 1]);
            } else if k == 0 {
                assert(w[0] == pls[0]);
            } else {
                let j = choose|j: int| 0 <= j < t.len() && without_id(t, id)[k - 1] == t[j];
                assert(w[k] == pls[j + 1]);
            }
        }
        if pls[0].id != id {
            assert(w.drop_first() =~= without_id(t, id));
            assert(w[0] == pls[0]);
        }
        assert forall|x: i64| x != id implies #[trigger] rows_of(w, x) == rows_of(pls, x) by {
            if pls[0].id != x {
                lemma_rows_of_tail(pls, x);
                if pls[0].id != id {
                    lemma_rows_of_tail(w, x);
                }
            }
        }
        if pls[0].id != id {
            lemma_rows_of_tail(w, id);
        }
    }
}

/// Dropping playlists keeps the ids increasing.
proof fn lemma_without_id_increasing(pls: Seq<Playlist>, id: i64)
    requires
        ids_increasing(pls),
    ensures
        ids_increasing(without_id(pls, id)),
    decreases pls.len(),
{
    if pls.len() > 0 {
        let t = pls.drop_first();
        assert forall|a: int, b: int| 0 <= a < b < t.len() implies (#[trigger] t[a]).id < (#[trigger] t[b]).id by {
            assert(t[a] == pls[a + 1] && t[b] == pls[b + 1]);
        }
        lemma_without_id_increasing(t, id);
        lemma_without_id(t, id);
        if pls[0].id != id {
            let w = without_id(pls, id);
            let wt = without_id(t, id);
            assert(w.drop_first() =~= wt);
            assert forall|a: int, b: int| 0 <= a < b < w.len() implies (#[trigger] w[a]).id < (#[trigger] w[b]).id by {
                assert(w[b] == wt[b - 1]);
                let j = choose|j: int| 0 <= j < t.len() && wt[b - 1] == t[j];
                assert(t[j] == pls[j + 1]);
                if a > 0 {
                    assert(w[a] == wt[a - 1]);
                } else {
                    assert(w[0] == pls[0]);
                }
            }
        }
    }
}

/// Past a first playlist with another id, the rows of `x` are found in the
/// rest.
proof fn lemma_rows_of_tail(pls: Seq<Playlist>, x: i64)
    requires
        pls.len() > 0,
        pls[0].id != x,
    ensures
        rows_of(pls, x) == rows_of(pls.drop_first(), x),
{
    let t = pls.drop_first();
    match index_of_id(t, x) {
        Some(i) => {
            lemma_index_of_id(t, x);
            assert(pls[i + 1] == t[i]);
        },
        None => {},
    }
}

impl PlaylistManager {
    /// The playlists keep their order, ids, names and specs, and the next id
    /// is kept.
    pub open spec fn same_playlists(&self, old: &Self) -> bool {
        &&& self.all().len() == old.all().len()
        &&& forall|k: int|
            0 <= k < self.all().len() ==> (#[trigger] self.all()[k]).id == old.all()[k].id && self.all()[k].name@
                == old.all()[k].name@ && self.all()[k].dynamic == old.all()[k].dynamic
        &&& self.next() == old.next()
    }

    /// Only the rows of playlist `id` changed, and they are now `s2`.
    pub open spec fn edited(&self, old: &Self, id: i64, s2: Seq<PlaylistEntry>) -> bool {
        &&& self.same_playlists(old)
        &&& self.others_kept(old, id)
        &&& self.rows(id) == Some(s2)
    }

    /// The undo and redo stacks are kept.
    pub open spec fn same_history(&self, old: &Self) -> bool {
        self.undo_ops() == old.undo_ops() && self.redo_ops() == old.redo_ops()
    }

    /// `op` was pushed on the undo stack and the redo stack emptied.
    pub open spec fn recorded(&self, old: &Self, op: PlaylistOp) -> bool {
        self.undo_ops() == old.undo_ops().push(op) && self.redo_ops().len() == 0
    }

    /// Replaces the rows of the playlist at `i`, the first with id `id`.
    fn set_rows(&mut self, i: usize, Ghost(id): Ghost<i64>, rows: Vec<PlaylistEntry>)
        requires
            old(self).wf(),
            index_of_id(old(self).all(), id) == Some(i as int),
        ensures
            final(self).wf(),
            final(self).edited(old(self), id, rows@),
            final(self).same_history(old(self)),
            forall|k: int| 0 <= k < old(self).all().len() && k != i ==> #[trigger] final(self).all()[k] == old(self).all()[k],
    {
        proof {
            lemma_index_of_id(self.playlists@, id);
        }
        let ghost a = self.playlists@;
        let mut pl = self.playlists.remove(i);
        pl.entries = rows;
        self.playlists.insert(i, pl);
        proof {
            let b = self.playlists@;
            assert forall|k: int| 0 <= k < a.len() implies (#[trigger] a[k]).id == b[k].id by {}
            assert forall|k: int| 0 <= k < a.len() && k != i implies #[trigger] a[k] == b[k] by {}
            lemma_rows_edited(a, b, i as int, id);
        }
    }

    /// Creates a playlist named `name`. A name reserved for the Queue is
    /// refused, except `queue` itself while no Queue exists: that is how the
    /// Queue is made.
    pub fn create_playlist(&mut self, name: &str) -> (r: Result<PlaylistInfo, PlaylistError>)
        requires
            old(self).wf(),
        ensures
            final(self).wf(),
            create_refused(old(self).all(), name@) ==> (r matches Err(PlaylistError::Reserved { name: n }) && n@
                == trim(name@) && *final(self) == *old(self)),
            !create_refused(old(self).all(), name@) && old(self).next() == i64::MAX ==> (r matches Err(
                PlaylistError::NoIdLeft,
            ) && *final(self) == *old(self)),
            !create_refused(old(self).all(), name@) && old(self).next() < i64::MAX ==> {
                &&& r matches Ok(info)
                &&& info.id == old(self).next()
                &&& info_of(info, final(self).all().last())
                &&& final(self).all().len() == old(self).all().len() + 1
                &&& final(self).all().drop_last() == old(self).all()
                &&& final(self).all().last().id == old(self).next()
                &&& final(self).all().last().name@ == name@
                &&& final(self).all().last().entries@.len() == 0
                &&& !final(self).all().last().dynamic.enabled
                &&& final(self).all().last().dynamic.spec is None
                &&& final(self).all().last().dynamic.population_mode@ == "all"@
                &&& final(self).next() == old(self).next() + 1
                &&& final(self).same_history(old(self))
            },
    {
        if is_reserved_playlist_name(name) {
            let mut found = false;
            let mut k: usize = 0;
            while k < self.playlists.len()
                invariant
                    k <= self.playlists@.len(),
                    found == exists|j: int| 0 <= j < k && queue_name(#[trigger] self.playlists@[j].name@),
                decreases self.playlists@.len() - k,
            {
                if is_queue_name(&self.playlists[k].name) {
                    found = true;
                }
                k += 1;
            }
            let own = is_queue_name(&name.to_owned());
            if found || !own {
                let t = crate::text::string_of(trim_chars(chars_of(name).as_slice()).as_slice());
                return Err(PlaylistError::Reserved { name: t });
            }
        }
        if self.next_id == i64::MAX {
            return Err(PlaylistError::NoIdLeft);
        }
        let id = self.next_id;
        let ghost a = self.playlists@;
        self.playlists.push(Playlist { id, name: name.to_owned(), dynamic: DynamicConfig::plain(), entries: Vec::new() });
        self.next_id = id + 1;
        assert(self.playlists@.drop_last() =~= a);
        let n = self.playlists.len();
        Ok(self.info(n - 1))
    }

    /// Renames playlist `id`; a reserved name is refused.
    pub fn rename_playlist(&mut self, id: i64, name: &str) -> (r: Result<(), PlaylistError>)
        requires
            old(self).wf(),
        ensures
            final(self).wf(),
            reserved_name(name@) ==> (r matches Err(PlaylistError::Reserved { name: n }) && n@ == trim(name@)
                && *final(self) == *old(self)),
            !reserved_name(name@) ==> {
                &&& r is Ok
                &&& final(self).all().len() == old(self).all().len()
                &&& forall|k: int|
                    0 <= k < old(self).all().len() ==> {
                        &&& (#[trigger] final(self).all()[k]).id == old(self).all()[k].id
                        &&& final(self).all()[k].entries == old(self).all()[k].entries
                        &&& final(self).all()[k].dynamic == old(self).all()[k].dynamic
                        &&& final(self).all()[k].name@ == if old(self).all()[k].id == id {
                            name@
                        } else {
                            old(self).all()[k].name@
                        }
                    }
                &&& final(self).next() == old(self).next()
                &&& final(self).same_history(old(self))
            },
    {
        if is_reserved_playlist_name(name) {
            let t = crate::text::string_of(trim_chars(chars_of(name).as_slice()).as_slice());
            return Err(PlaylistError::Reserved { name: t });
        }
        let ghost a = self.playlists@;
        let n = self.playlists.len();
        let mut i: usize = 0;
        while i < n
            invariant
                n == a.len() == self.playlists@.len(),
                i <= n,
                self.next_id == old(self).next_id,
                self.undo_stack == old(self).undo_stack,
                self.redo_stack == old(self).redo_stack,
                a == old(self).playlists@,
                forall|k: int|
                    0 <= k < n ==> {
                        &&& (#[trigger] self.playlists@[k]).id == a[k].id
                        &&& self.playlists@[k].entries == a[k].entries
                        &&& self.playlists@[k].dynamic == a[k].dynamic
                        &&& self.playlists@[k].name@ == if k < i && a[k].id == id {
                            name@
                        } else {
                            a[k].name@
                        }
                    },
            decreases n - i,
        {
            if self.playlists[i].id == id {
                let mut pl = self.playlists.remove(i);
                pl.name = name.to_owned();
                self.playlists.insert(i, pl);
            }
            i += 1;
        }
        Ok(())
    }

    /// Deletes playlist `id` and its rows.
    pub fn delete_playlist(&mut self, id: i64) -> (r: Result<(), PlaylistError>)
        requires
            old(self).wf(),
        ensures
            final(self).wf(),
            r is Ok,
            final(self).all() == without_id(old(self).all(), id),
            final(self).rows(id) is None,
            final(self).others_kept(old(self), id),
            final(self).next() == old(self).next(),
            final(self).same_history(old(self)),
    {
        let ghost a = self.playlists@;
        let mut rest: Vec<Playlist> = Vec::new();
        std::mem::swap(&mut rest, &mut self.playlists);
        let mut kept: Vec<Playlist> = Vec::new();
        while rest.len() > 0
            invariant
                rest@ == a.take(rest@.len() as int),
                rest@.len() <= a.len(),
                kept@ == without_id(a.skip(rest@.len() as int), id),
            decreases rest@.len(),
        {
            let ghost i = rest@.len() as int;
            let pl = rest.pop().unwrap();
            assert(a.skip(i - 1).drop_first() =~= a.skip(i));
            assert(a.skip(i - 1)[0] == a[i - 1]);
            if pl.id != id {
                kept.insert(0, pl);
                assert(kept@ =~= seq![a[i - 1]] + without_id(a.skip(i), id));
            }
            assert(rest@ =~= a.take(i - 1));
        }
        assert(a.skip(0) =~= a);
        self.playlists = kept;
        proof {
            lemma_without_id(a, id);
            let w = self.playlists@;
            assert forall|k: int| 0 <= k < w.len() implies (#[trigger] w[k]).id < self.next_id by {
                let j = choose|j: int| 0 <= j < a.len() && w[k] == a[j];
                assert(a[j].id < old(self).next_id);
            }
            lemma_without_id_increasing(a, id);
        }
        Ok(())
    }

    /// The built-in Queue playlist, made on first use. What it returns is
    /// the first Queue of the playlists as they stand afterwards, so a
    /// second call returns the same one and changes nothing.
    pub fn queue(&mut self) -> (r: Result<PlaylistInfo, PlaylistError>)
        requires
            old(self).wf(),
        ensures
            final(self).wf(),
            r matches Ok(info) ==> exists|k: int| #[trigger] first_queue_at(final(self).all(), k) && info_of(
                info,
                final(self).all()[k],
            ),
            has_queue(old(self).all()) ==> {
                &&& *final(self) == *old(self)
                &&& r matches Ok(info)
                &&& exists|k: int|
                    0 <= k < old(self).all().len() && queue_name(#[trigger] old(self).all()[k].name@) && (forall|j: int|
                        0 <= j < k ==> !queue_name(#[trigger] old(self).all()[j].name@)) && info_of(info, old(self).all()[k])
            },
            !has_queue(old(self).all()) && old(self).next() == i64::MAX ==> (r matches Err(PlaylistError::NoIdLeft)
                && *final(self) == *old(self)),
            !has_queue(old(self).all()) && old(self).next() < i64::MAX ==> {
                &&& r matches Ok(info)
                &&& info.id == old(self).next()
                &&& info.is_queue
                &&& info_of(info, final(self).all().last())
                &&& final(self).all().len() == old(self).all().len() + 1
                &&& final(self).all().drop_last() == old(self).all()
                &&& final(self).all().last().name@ == "Queue"@
                &&& final(self).all().last().entries@.len() == 0
                &&& forall|k: int|
                    0 <= k < final(self).all().len() && queue_name(#[trigger] final(self).all()[k].name@) ==> k
                        == final(self).all().len() - 1
                &&& final(self).next() == old(self).next() + 1
                &&& final(self).same_history(old(self))
            },
    {
        let mut k: usize = 0;
        while k < self.playlists.len()
            invariant
                *self == *old(self),
                self.wf(),
                k <= self.playlists@.len(),
                forall|j: int| 0 <= j < k ==> !queue_name(#[trigger] self.playlists@[j].name@),
            decreases self.playlists@.len() - k,
        {
            if is_queue_name(&self.playlists[k].name) {
                proof {
                    assert(first_queue_at(self.all(), k as int));
                }
                return Ok(self.info(k));
            }
            k += 1;
        }
        proof {
            reveal_strlit("Queue");
            reveal_strlit("queue");
            reveal_strlit("file d'attente");
            assert(!has_queue(self.all()));
        }
        assert(queue_name("Queue"@)) by {
            reveal_strlit("Queue");
            reveal_strlit("queue");
            let q = "Queue"@;
            assert(!crate::text::is_ws(q[0]));
            assert(!crate::text::is_ws(q.last()));
            assert(crate::text::trim_start(q) == q);
            assert(trim(q) == q);
            assert(crate::text::ascii_lower('Q') == 'q');
            assert(crate::text::ascii_lower_seq(q) =~= "queue"@);
            assert(crate::text::ascii_lower_seq("queue"@) =~= "queue"@);
        }
        let r = self.create_playlist("Queue");
        proof {
            if r is Ok {
                let k = self.all().len() - 1;
                assert forall|j: int| 0 <= j < k implies !queue_name(#[trigger] self.all()[j].name@) by {
                    assert(self.all()[j] == old(self).all()[j]);
                    if queue_name(old(self).all()[j].name@) {
                        assert(has_queue(old(self).all()));
                    }
                }
                assert(first_queue_at(self.all(), k));
                assert forall|j: int|
                    0 <= j < self.all().len() && queue_name(#[trigger] self.all()[j].name@) implies j == k by {
                    if j < k {
                        assert(!queue_name(self.all()[j].name@));
                    }
                }
            }
        }
        r
    }
}

} // verus!

verus! {

// ---------------------------------------------------------------------------
// Row edits
// ---------------------------------------------------------------------------

/// The rows `s2` are `s` with one fresh row appended per song id: its song,
/// a new 36-character uuid, the song type and nothing else.
pub open spec fn appended_songs(s: Seq<PlaylistEntry>, s2: Seq<PlaylistEntry>, ids: Seq<i64>) -> bool {
    &&& s2.len() == s.len() + ids.len()
    &&& s2.take(s.len() as int) == s
    &&& forall|i: int|
        0 <= i < ids.len() ==> {
            let e = #[trigger] s2[s.len() + i];
            &&& e.song_id == Some(ids[i])
            &&& e.uuid@.len() == 36
            &&& e.item_type == 0
            &&& e.url is None
            &&& e.stream_url is None
            &&& e.additional_metadata is None
        }
}

/// A fresh row for song `song_id`.
fn fresh_entry(song_id: i64) -> (e: PlaylistEntry)
    ensures
        e.song_id == Some(song_id),
        e.uuid@.len() == 36,
        e.item_type == 0,
        e.url is None,
        e.stream_url is None,
        e.additional_metadata is None,
{
    PlaylistEntry {
        uuid: new_uuid(),
        song_id: Some(song_id),
        item_type: 0,
        url: None,
        stream_url: None,
        additional_metadata: None,
    }
}

/// Whether `n` rows can all be numbered by `i32` positions.
fn positions_fit(n: usize) -> (b: bool)
    ensures
        b == (n < i32::MAX),
{
    n < 2147483647
}

/// The removed rows' uuids list exactly the removed positions.
proof fn lemma_cleared_listed(s: Seq<PlaylistEntry>, items: Seq<ClearedItem>, uv: Seq<Seq<char>>)
    requires
        cleared_from(s, items),
        positions_of(items) == listed_positions(s, uv),
    ensures
        listed_positions(s, cleared_uuids(items)) == positions_of(items),
{
    let cu = cleared_uuids(items);
    assert forall|p: int| listed_positions(s, cu).contains(p) <==> positions_of(items).contains(p) by {
        if listed_positions(s, cu).contains(p) {
            let j = choose|j: int| 0 <= j < cu.len() && cu[j] == s[p].uuid@;
            let q = items[j].position as int;
            assert(entry_of(items[j]) == s[q]);
            assert(positions_of(items).contains(q));
            assert(uv.contains(s[q].uuid@));
            assert(listed_positions(s, uv).contains(p));
        }
        if positions_of(items).contains(p) {
            let j = choose|j: int| 0 <= j < items.len() && items[j].position as int == p;
            assert(entry_of(items[j]) == s[p]);
            assert(cu[j] == s[p].uuid@);
        }
    }
    assert(listed_positions(s, cu) =~= positions_of(items));
}

/// Where row position `to` lands in `len` rows: clamped into range.
pub open spec fn clamp_pos(to: i32, len: int) -> int {
    if to < 0 {
        0
    } else if to >= len {
        len - 1
    } else {
        to as int
    }
}

/// The position of the first row with uuid `u`.
pub open spec fn uuid_index(s: Seq<PlaylistEntry>, u: Seq<char>) -> Option<int>
    decreases s.len(),
{
    if s.len() == 0 {
        None
    } else if s[0].uuid@ == u {
        Some(0)
    } else {
        match uuid_index(s.drop_first(), u) {
            Some(i) => Some(i + 1),
            None => None,
        }
    }
}

proof fn lemma_uuid_index(s: Seq<PlaylistEntry>, u: Seq<char>, i: int)
    requires
        0 <= i <= s.len(),
        forall|k: int| 0 <= k < i ==> (#[trigger] s[k]).uuid@ != u,
    ensures
        i < s.len() && s[i].uuid@ == u ==> uuid_index(s, u) == Some(i),
        i == s.len() ==> uuid_index(s, u) is None,
    decreases i,
{
    if i > 0 {
        let t = s.drop_first();
        assert forall|k: int| 0 <= k < i - 1 implies (#[trigger] t[k]).uuid@ != u by {
            assert(t[k] == s[k + 1]);
        }
        assert(s[0].uuid@ != u);
        lemma_uuid_index(t, u, i - 1);
    }
}

/// The position of the first row with uuid `u`.
fn find_uuid(s: &Vec<PlaylistEntry>, u: &str) -> (r: Option<usize>)
    ensures
        match r {
            Some(i) => uuid_index(s@, u@) == Some(i as int),
            None => uuid_index(s@, u@) is None,
        },
{
    let want = chars_of(u);
    let mut i: usize = 0;
    while i < s.len()
        invariant
            i <= s@.len(),
            want@ == u@,
            forall|k: int| 0 <= k < i ==> (#[trigger] s@[k]).uuid@ != u@,
        decreases s@.len() - i,
    {
        if chars_eq(chars_of(s[i].uuid.as_str()).as_slice(), want.as_slice()) {
            proof {
                lemma_uuid_index(s@, u@, i as int);
            }
            return Some(i);
        }
        i += 1;
    }
    proof {
        lemma_uuid_index(s@, u@, i as int);
    }
    None
}

impl PlaylistManager {
    /// Appends one fresh row per song id to playlist `playlist_id` and
    /// records it. An unknown playlist takes no songs; an empty list is
    /// still recorded.
    #[verifier::rlimit(30)]
    pub fn add_songs_to_playlist(&mut self, playlist_id: i64, song_ids: &[i64]) -> (r: Result<(), PlaylistError>)
        requires
            old(self).wf(),
        ensures
            final(self).wf(),
            old(self).rows(playlist_id) is None && song_ids@.len() > 0 ==> (r matches Err(
                PlaylistError::UnknownPlaylist,
            ) && *final(self) == *old(self)),
            old(self).rows(playlist_id) is None && song_ids@.len() == 0 ==> {
                let op = final(self).undo_ops().last();
                &&& r is Ok
                &&& final(self).all() == old(self).all()
                &&& final(self).next() == old(self).next()
                &&& final(self).recorded(old(self), op)
                &&& op.playlist() == playlist_id
                &&& (op matches PlaylistOp::Insert { items, .. } && items@.len() == 0)
            },
            old(self).rows(playlist_id) matches Some(s) && s.len() + song_ids@.len() >= i32::MAX ==> (r matches Err(
                PlaylistError::TooManyRows,
            ) && *final(self) == *old(self)),
            old(self).rows(playlist_id) matches Some(s) && s.len() + song_ids@.len() < i32::MAX ==> {
                let s = old(self).rows(playlist_id).unwrap();
                let op = final(self).undo_ops().last();
                let s2 = final(self).rows(playlist_id).unwrap();
                &&& r is Ok
                &&& final(self).edited(old(self), playlist_id, s2)
                &&& appended_songs(s, s2, song_ids@)
                &&& op.playlist() == playlist_id
                &&& op is Insert
                &&& made(s, s2, op)
                &&& final(self).recorded(old(self), op)
            },
    {
        let i = match self.find(playlist_id) {
            Some(i) => i,
            None => {
                if song_ids.len() > 0 {
                    return Err(PlaylistError::UnknownPlaylist);
                }
                self.undo_stack.push(PlaylistOp::Insert { playlist_id, items: Vec::new() });
                self.redo_stack = Vec::new();
                return Ok(());
            },
        };
        proof {
            lemma_index_of_id(self.playlists@, playlist_id);
        }
        let n = self.playlists[i].entries.len();
        if !(positions_fit(n) && song_ids.len() < 2147483647 - n) {
            return Err(PlaylistError::TooManyRows);
        }
        let mut rows = copy_rows(&self.playlists[i].entries);
        let ghost s = rows@;
        let mut items: Vec<(i32, i64)> = Vec::new();
        let mut k: usize = 0;
        while k < song_ids.len()
            invariant
                k <= song_ids@.len(),
                n == s.len(),
                n + song_ids@.len() < i32::MAX,
                rows@.len() == n + k,
                rows@.take(n as int) == s,
                items@.len() == k,
                forall|j: int|
                    0 <= j < k ==> {
                        let e = #[trigger] rows@[n + j];
                        &&& e.song_id == Some(song_ids@[j])
                        &&& e.uuid@.len() == 36
                        &&& e.item_type == 0
                        &&& e.url is None
                        &&& e.stream_url is None
                        &&& e.additional_metadata is None
                    },
                forall|j: int| 0 <= j < k ==> #[trigger] items@[j].0 == n + j && items@[j].1 == song_ids@[j],
            decreases song_ids@.len() - k,
        {
            let ghost before = rows@;
            rows.push(fresh_entry(song_ids[k]));
            assert(rows@.take(n as int) =~= before.take(n as int));
            items.push(((n + k) as i32, song_ids[k]));
            k += 1;
        }
        let ghost s2 = rows@;
        proof {
            assert forall|j: int| 0 <= j < items@.len() implies #[trigger] items@[j].0 == s.len() + j
                && s2[s.len() + j].song_id == Some(items@[j].1) by {
                assert(s2[n + j].song_id == Some(song_ids@[j]));
            }
            assert(appended_songs(s, s2, song_ids@));
        }
        assert(s2.len() == s.len() + items@.len());
        assert(s2.take(s.len() as int) == s);
        let ghost iv = items@;
        let op = PlaylistOp::Insert { playlist_id, items };
        assert(op matches PlaylistOp::Insert { items: it, .. } && it@ == iv);
        assert(forall|i: int| 0 <= i < iv.len() ==> #[trigger] iv[i].0 == s.len() + i && s2[s.len() + i].song_id == Some(iv[i].1));
        assert(made(s, s2, op));
        self.set_rows(i, Ghost(playlist_id), rows);
        let ghost mid = *self;
        self.undo_stack.push(op);
        self.redo_stack = Vec::new();
        assert(self.all() == mid.all());
        assert(self.undo_ops().last() == op);
        Ok(())
    }
}

} // verus!

verus! {

/// What moving the row at `from` of playlist `id` to `to` does (see
/// `reorder_playlist_item`): `old` becomes `new` and `r` is returned.
pub open spec fn moved_one(
    old: PlaylistManager,
    new: PlaylistManager,
    r: Result<(), PlaylistError>,
    id: i64,
    from: i32,
    to: i32,
) -> bool {
    &&& from == to ==> (r is Ok && new == old)
    &&& from != to && !(old.rows(id) matches Some(s) && 0 <= from < s.len()) ==> (r == Err::<(), PlaylistError>(
        PlaylistError::NoRowAt { position: from },
    ) && new == old)
    &&& (old.rows(id) matches Some(s) && from != to && 0 <= from < s.len()) ==> {
        let s = old.rows(id).unwrap();
        let t = clamp_pos(to, s.len() as int);
        let s2 = moved(s, from as int, t);
        let op = new.undo_ops().last();
        &&& r is Ok
        &&& new.edited(&old, id, s2)
        &&& op == (PlaylistOp::Move { playlist_id: id, from, to: t as i32 })
        &&& made(s, s2, op)
        &&& new.recorded(&old, op)
    }
}

impl PlaylistManager {
    /// Removes the rows of playlist `playlist_id` whose uuid is listed, and
    /// records the removal with the removed rows and their positions. An
    /// unknown playlist loses nothing, and the empty removal is recorded.
    pub fn remove_from_playlist(&mut self, playlist_id: i64, uuids: &[String]) -> (r: Result<(), PlaylistError>)
        requires
            old(self).wf(),
        ensures
            final(self).wf(),
            old(self).rows(playlist_id) is None ==> {
                let op = final(self).undo_ops().last();
                &&& r is Ok
                &&& final(self).all() == old(self).all()
                &&& final(self).next() == old(self).next()
                &&& final(self).recorded(old(self), op)
                &&& op.playlist() == playlist_id
                &&& (op matches PlaylistOp::Remove { items, .. } && items@.len() == 0)
            },
            old(self).rows(playlist_id) matches Some(s) && s.len() >= i32::MAX ==> (r matches Err(
                PlaylistError::TooManyRows,
            ) && *final(self) == *old(self)),
            old(self).rows(playlist_id) matches Some(s) && s.len() < i32::MAX ==> {
                let s = old(self).rows(playlist_id).unwrap();
                let s2 = keep_except(s, listed_positions(s, uuids@.map_values(|x: String| x@)));
                let op = final(self).undo_ops().last();
                &&& r is Ok
                &&& final(self).edited(old(self), playlist_id, s2)
                &&& op.playlist() == playlist_id
                &&& op is Remove
                &&& made(s, s2, op)
                &&& final(self).recorded(old(self), op)
            },
    {
        let i = match self.find(playlist_id) {
            Some(i) => i,
            None => {
                self.undo_stack.push(PlaylistOp::Remove { playlist_id, items: Vec::new() });
                self.redo_stack = Vec::new();
                return Ok(());
            },
        };
        proof {
            lemma_index_of_id(self.playlists@, playlist_id);
        }
        if !positions_fit(self.playlists[i].entries.len()) {
            return Err(PlaylistError::TooManyRows);
        }
        let mut rows = copy_rows(&self.playlists[i].entries);
        let ghost s = rows@;
        let items = remove_rows(&mut rows, uuids);
        let ghost s2 = rows@;
        proof {
            lemma_cleared_listed(s, items@, uuids@.map_values(|x: String| x@));
        }
        let ghost iv = items@;
        let op = PlaylistOp::Remove { playlist_id, items };
        assert(op matches PlaylistOp::Remove { items: it, .. } && it@ == iv);
        assert(made(s, s2, op));
        self.set_rows(i, Ghost(playlist_id), rows);
        let ghost mid = *self;
        self.undo_stack.push(op);
        self.redo_stack = Vec::new();
        assert(self.all() == mid.all());
        assert(self.undo_ops().last() == op);
        Ok(())
    }

    /// Removes every row of playlist `playlist_id` and records it; an empty
    /// or unknown playlist is left alone and nothing is recorded.
    pub fn clear_playlist(&mut self, playlist_id: i64) -> (r: Result<(), PlaylistError>)
        requires
            old(self).wf(),
        ensures
            final(self).wf(),
            (old(self).rows(playlist_id) is None || old(self).rows(playlist_id) == Some(Seq::<PlaylistEntry>::empty()))
                ==> (r is Ok && *final(self) == *old(self)),
            old(self).rows(playlist_id) matches Some(s) && s.len() >= i32::MAX ==> (r matches Err(
                PlaylistError::TooManyRows,
            ) && *final(self) == *old(self)),
            old(self).rows(playlist_id) matches Some(s) && 0 < s.len() < i32::MAX ==> {
                let s = old(self).rows(playlist_id).unwrap();
                let op = final(self).undo_ops().last();
                &&& r is Ok
                &&& final(self).edited(old(self), playlist_id, Seq::empty())
                &&& op.playlist() == playlist_id
                &&& op is Clear
                &&& made(s, Seq::empty(), op)
                &&& final(self).recorded(old(self), op)
            },
    {
        let i = match self.find(playlist_id) {
            Some(i) => i,
            None => {
                return Ok(());
            },
        };
        proof {
            lemma_index_of_id(self.playlists@, playlist_id);
        }
        let n = self.playlists[i].entries.len();
        if n == 0 {
            assert(self.playlists@[i as int].entries@ =~= Seq::<PlaylistEntry>::empty());
            return Ok(());
        }
        if !positions_fit(n) {
            return Err(PlaylistError::TooManyRows);
        }
        let ghost s = self.playlists@[i as int].entries@;
        let mut items: Vec<ClearedItem> = Vec::new();
        let mut k: usize = 0;
        while k < n
            invariant
                n == s.len() < i32::MAX,
                i < self.playlists@.len(),
                s == self.playlists@[i as int].entries@,
                k <= n,
                items@.len() == k,
                forall|j: int| 0 <= j < k ==> (#[trigger] items@[j]).position == j && entry_of(items@[j]) == s[j],
            decreases n - k,
        {
            items.push(cleared(&self.playlists[i].entries[k], k as i32));
            k += 1;
        }
        let ghost iv = items@;
        let op = PlaylistOp::Clear { playlist_id, items };
        assert(op matches PlaylistOp::Clear { items: it, .. } && it@ == iv);
        assert(made(s, Seq::empty(), op));
        self.set_rows(i, Ghost(playlist_id), Vec::new());
        let ghost mid = *self;
        self.undo_stack.push(op);
        self.redo_stack = Vec::new();
        assert(self.all() == mid.all());
        assert(self.undo_ops().last() == op);
        Ok(())
    }

    /// Moves the row at position `from` of playlist `playlist_id` to
    /// position `to` (clamped into range), shifting the rows between, and
    /// records the move. Equal positions do nothing; no row at `from` is
    /// an error.
    pub fn reorder_playlist_item(&mut self, playlist_id: i64, from: i32, to: i32) -> (r: Result<(), PlaylistError>)
        requires
            old(self).wf(),
        ensures
            final(self).wf(),
            moved_one(*old(self), *final(self), r, playlist_id, from, to),
    {
        if from == to {
            return Ok(());
        }
        let i = match self.find(playlist_id) {
            Some(i) => i,
            None => {
                return Err(PlaylistError::NoRowAt { position: from });
            },
        };
        proof {
            lemma_index_of_id(self.playlists@, playlist_id);
        }
        let n = self.playlists[i].entries.len();
        if from < 0 || (from as usize) >= n {
            return Err(PlaylistError::NoRowAt { position: from });
        }
        let t: usize = if to < 0 {
            0
        } else if (to as usize) >= n {
            n - 1
        } else {
            to as usize
        };
        let mut rows = copy_rows(&self.playlists[i].entries);
        let ghost s = rows@;
        move_row(&mut rows, from as usize, t);
        let ghost s2 = rows@;
        let op = PlaylistOp::Move { playlist_id, from, to: t as i32 };
        assert(made(s, s2, op));
        self.set_rows(i, Ghost(playlist_id), rows);
        let ghost mid = *self;
        self.undo_stack.push(op);
        self.redo_stack = Vec::new();
        assert(self.all() == mid.all());
        assert(self.undo_ops().last() == op);
        Ok(())
    }

    /// Moves the first row with uuid `source_uuid` to where the first row
    /// with uuid `target_uuid` is, as `reorder_playlist_item` does. Equal
    /// uuids, or either not found, do nothing.
    pub fn reorder_playlist_item_by_uuid(&mut self, playlist_id: i64, source_uuid: &str, target_uuid: &str) -> (r: Result<(), PlaylistError>)
        requires
            old(self).wf(),
        ensures
            final(self).wf(),
            source_uuid@ == target_uuid@ || old(self).rows(playlist_id) is None ==> (r is Ok && *final(self) == *old(self)),
            old(self).rows(playlist_id) is Some && source_uuid@ != target_uuid@ ==> {
                let s = old(self).rows(playlist_id).unwrap();
                let f = uuid_index(s, source_uuid@);
                let t = uuid_index(s, target_uuid@);
                &&& (f is None || t is None) ==> (r is Ok && *final(self) == *old(self))
                &&& (f is Some && t is Some && s.len() >= i32::MAX) ==> (r matches Err(PlaylistError::TooManyRows)
                    && *final(self) == *old(self))
                &&& (f is Some && t is Some && s.len() < i32::MAX) ==> {
                    let s2 = moved(s, f.unwrap(), t.unwrap());
                    let op = final(self).undo_ops().last();
                    &&& r is Ok
                    &&& final(self).edited(old(self), playlist_id, s2)
                    &&& op == (PlaylistOp::Move { playlist_id, from: f.unwrap() as i32, to: t.unwrap() as i32 })
                    &&& made(s, s2, op)
                    &&& final(self).recorded(old(self), op)
                }
            },
    {
        if chars_eq(chars_of(source_uuid).as_slice(), chars_of(target_uuid).as_slice()) {
            return Ok(());
        }
        let i = match self.find(playlist_id) {
            Some(i) => i,
            None => {
                return Ok(());
            },
        };
        proof {
            lemma_index_of_id(self.playlists@, playlist_id);
        }
        let f = find_uuid(&self.playlists[i].entries, source_uuid);
        let t = find_uuid(&self.playlists[i].entries, target_uuid);
        match (f, t) {
            (Some(f), Some(t)) => {
                proof {
                    crate::playlist::lemma_uuid_index_bounds(self.playlists@[i as int].entries@, source_uuid@);
                    crate::playlist::lemma_uuid_index_bounds(self.playlists@[i as int].entries@, target_uuid@);
                }
                if !positions_fit(self.playlists[i].entries.len()) {
                    return Err(PlaylistError::TooManyRows);
                }
                self.reorder_playlist_item(playlist_id, f as i32, t as i32)
            },
            _ => Ok(()),
        }
    }
}

/// The first row with a uuid is in range and has it.
proof fn lemma_uuid_index_bounds(s: Seq<PlaylistEntry>, u: Seq<char>)
    ensures
        uuid_index(s, u) matches Some(i) ==> 0 <= i < s.len() && s[i].uuid@ == u,
    decreases s.len(),
{
    if s.len() > 0 && s[0].uuid@ != u {
        lemma_uuid_index_bounds(s.drop_first(), u);
    }
}

} // verus!

verus! {

// ---------------------------------------------------------------------------
// Undo and redo
// ---------------------------------------------------------------------------

/// Why undoing `op` on the rows `rows` of its playlist fails, if it does: a
/// removal or clearing cannot be put back into a missing playlist, and a
/// move back needs a row at its `to` position.
pub open spec fn undo_refusal(op: PlaylistOp, rows: Option<Seq<PlaylistEntry>>) -> Option<PlaylistError> {
    match op {
        PlaylistOp::Remove { items, .. } => if rows is None && items@.len() > 0 {
            Some(PlaylistError::UnknownPlaylist)
        } else {
            None
        },
        PlaylistOp::Clear { items, .. } => if rows is None && items@.len() > 0 {
            Some(PlaylistError::UnknownPlaylist)
        } else {
            None
        },
        PlaylistOp::Move { from, to, .. } => if from != to && !(rows matches Some(s) && 0 <= to < s.len()) {
            Some(PlaylistError::NoRowAt { position: to })
        } else {
            None
        },
        _ => None,
    }
}

/// Why redoing `op` on the rows `rows` of its playlist fails, if it does:
/// songs cannot be added to a missing playlist, and a move needs a row at
/// its `from` position.
pub open spec fn redo_refusal(op: PlaylistOp, rows: Option<Seq<PlaylistEntry>>) -> Option<PlaylistError> {
    match op {
        PlaylistOp::Insert { items, .. } => if rows is None && items@.len() > 0 {
            Some(PlaylistError::UnknownPlaylist)
        } else {
            None
        },
        PlaylistOp::Move { from, to, .. } => if from != to && !(rows matches Some(s) && 0 <= from < s.len()) {
            Some(PlaylistError::NoRowAt { position: from })
        } else {
            None
        },
        _ => None,
    }
}

/// The song ids an insertion recorded.
pub open spec fn inserted_songs(items: Seq<(i32, i64)>) -> Seq<i64> {
    items.map_values(|x: (i32, i64)| x.1)
}

impl PlaylistOp {
    /// The playlist the edit was made to.
    pub fn playlist_id(&self) -> (r: i64)
        ensures
            r == self.playlist(),
    {
        match self {
            PlaylistOp::Insert { playlist_id, .. } => *playlist_id,
            PlaylistOp::Remove { playlist_id, .. } => *playlist_id,
            PlaylistOp::Clear { playlist_id, .. } => *playlist_id,
            PlaylistOp::Move { playlist_id, .. } => *playlist_id,
            PlaylistOp::BatchMove { playlist_id, .. } => *playlist_id,
        }
    }

    /// See `undo_refusal`.
    fn undo_refused(&self, rows: Option<usize>) -> (r: Option<PlaylistError>)
        ensures
            rows is None ==> r == undo_refusal(*self, None::<Seq<PlaylistEntry>>),
            rows matches Some(n) ==> forall|s: Seq<PlaylistEntry>| s.len() == n ==> r == #[trigger] undo_refusal(*self, Some(s)),
    {
        match self {
            PlaylistOp::Remove { items, .. } => if rows.is_none() && items.len() > 0 {
                Some(PlaylistError::UnknownPlaylist)
            } else {
                None
            },
            PlaylistOp::Clear { items, .. } => if rows.is_none() && items.len() > 0 {
                Some(PlaylistError::UnknownPlaylist)
            } else {
                None
            },
            PlaylistOp::Move { from, to, .. } => {
                let ok = match rows {
                    Some(n) => *to >= 0 && (*to as usize) < n,
                    None => false,
                };
                if *from != *to && !ok {
                    Some(PlaylistError::NoRowAt { position: *to })
                } else {
                    None
                }
            },
            _ => None,
        }
    }

    /// See `redo_refusal`.
    fn redo_refused(&self, rows: Option<usize>) -> (r: Option<PlaylistError>)
        ensures
            rows is None ==> r == redo_refusal(*self, None::<Seq<PlaylistEntry>>),
            rows matches Some(n) ==> forall|s: Seq<PlaylistEntry>| s.len() == n ==> r == #[trigger] redo_refusal(*self, Some(s)),
    {
        match self {
            PlaylistOp::Insert { items, .. } => if rows.is_none() && items.len() > 0 {
                Some(PlaylistError::UnknownPlaylist)
            } else {
                None
            },
            PlaylistOp::Move { from, to, .. } => {
                let ok = match rows {
                    Some(n) => *from >= 0 && (*from as usize) < n,
                    None => false,
                };
                if *from != *to && !ok {
                    Some(PlaylistError::NoRowAt { position: *from })
                } else {
                    None
                }
            },
            _ => None,
        }
    }
}

/// Whether some cleared item has uuid `u`.
fn cleared_listed(items: &Vec<ClearedItem>, u: &String) -> (b: bool)
    ensures
        b == cleared_uuids(items@).contains(u@),
{
    let mut i: usize = 0;
    while i < items.len()
        invariant
            i <= items@.len(),
            forall|k: int| 0 <= k < i ==> items@[k].uuid@ != u@,
        decreases items@.len() - i,
    {
        if items[i].uuid == *u {
            assert(cleared_uuids(items@)[i as int] == u@);
            return true;
        }
        i += 1;
    }
    proof {
        let v = cleared_uuids(items@);
        if v.contains(u@) {
            let k = choose|k: int| 0 <= k < v.len() && v[k] == u@;
            assert(items@[k].uuid@ == u@);
        }
    }
    false
}

/// Redoing `op` on `s`: see `redone`; an insertion appends fresh rows.
fn redo_rows(s: &mut Vec<PlaylistEntry>, op: &PlaylistOp)
    ensures
        op is Insert ==> (op matches PlaylistOp::Insert { items, .. } && appended_songs(
            old(s)@,
            final(s)@,
            inserted_songs(items@),
        )),
        !(op is Insert) ==> final(s)@ == redone(old(s)@, *op),
{
    match op {
        PlaylistOp::Insert { items, .. } => {
            let ghost s0 = s@;
            let n = s.len();
            let mut k: usize = 0;
            while k < items.len()
                invariant
                    k <= items@.len(),
                    n == s0.len(),
                    s@.len() == n + k,
                    s@.take(n as int) == s0,
                    forall|j: int|
                        0 <= j < k ==> {
                            let e = #[trigger] s@[n + j];
                            &&& e.song_id == Some(items@[j].1)
                            &&& e.uuid@.len() == 36
                            &&& e.item_type == 0
                            &&& e.url is None
                            &&& e.stream_url is None
                            &&& e.additional_metadata is None
                        },
                decreases items@.len() - k,
            {
                let ghost before = s@;
                s.push(fresh_entry(items[k].1));
                assert(s@.take(n as int) =~= before.take(n as int));
                k += 1;
            }
            proof {
                let ids = inserted_songs(items@);
                assert forall|j: int| 0 <= j < ids.len() implies #[trigger] s@[n + j].song_id == Some(ids[j]) by {}
            }
        },
        PlaylistOp::Remove { items, .. } => {
            let ghost s0 = s@;
            let ghost ps = listed_positions(s0, cleared_uuids(items@));
            let n = s.len();
            let mut kept: Vec<PlaylistEntry> = Vec::new();
            let mut i: usize = 0;
            while i < n
                invariant
                    n == s0.len() == s@.len(),
                    s@ == s0,
                    ps == listed_positions(s0, cleared_uuids(items@)),
                    i <= n,
                    kept@ == keep_except(s0.take(i as int), ps),
                decreases n - i,
            {
                assert(s0.take(i + 1).drop_last() =~= s0.take(i as int));
                assert(s0.take(i + 1).last() == s0[i as int]);
                proof {
                    lemma_keep_same(s0.take(i as int), ps, ps);
                }
                if !cleared_listed(items, &s[i].uuid) {
                    kept.push(s[i].duplicate());
                }
                i += 1;
            }
            assert(s0.take(n as int) =~= s0);
            *s = kept;
        },
        PlaylistOp::Clear { .. } => {
            *s = Vec::new();
        },
        PlaylistOp::Move { from, to, .. } => {
            let f = *from;
            let t = *to;
            if f >= 0 && (f as usize) < s.len() {
                let n = s.len();
                let g: usize = if t < 0 {
                    0
                } else if (t as usize) >= n {
                    n - 1
                } else {
                    t as usize
                };
                move_row(s, f as usize, g);
            }
        },
        PlaylistOp::BatchMove { moves, .. } => {
            let src: Vec<PlaylistEntry> = copy_rows(s);
            apply_moves_rows(s, &src, moves, false);
        },
    }
}

/// What `undo` does: `old` becomes `new` and `r` is returned.
pub open spec fn undid(old: PlaylistManager, new: PlaylistManager, r: Result<bool, PlaylistError>) -> bool {
    &&& old.undo_ops().len() == 0 ==> (r == Ok::<bool, PlaylistError>(false) && new == old)
    &&& old.undo_ops().len() > 0 ==> {
        let op = old.undo_ops().last();
        let rows = old.rows(op.playlist());
        &&& new.undo_ops() == old.undo_ops().drop_last()
        &&& undo_refusal(op, rows) matches Some(e) ==> {
            &&& r == Err::<bool, PlaylistError>(e)
            &&& new.all() == old.all()
            &&& new.next() == old.next()
            &&& new.redo_ops() == old.redo_ops()
        }
        &&& undo_refusal(op, rows) is None ==> {
            &&& r == Ok::<bool, PlaylistError>(true)
            &&& new.redo_ops() == old.redo_ops().push(op)
            &&& rows is None ==> new.all() == old.all() && new.next() == old.next()
            &&& rows is Some ==> new.edited(&old, op.playlist(), undone(rows.unwrap(), op))
        }
    }
}

/// What `redo` does: `old` becomes `new` and `r` is returned.
pub open spec fn redid(old: PlaylistManager, new: PlaylistManager, r: Result<bool, PlaylistError>) -> bool {
    &&& old.redo_ops().len() == 0 ==> (r == Ok::<bool, PlaylistError>(false) && new == old)
    &&& old.redo_ops().len() > 0 ==> {
        let op = old.redo_ops().last();
        let rows = old.rows(op.playlist());
        &&& new.redo_ops() == old.redo_ops().drop_last()
        &&& redo_refusal(op, rows) matches Some(e) ==> {
            &&& r == Err::<bool, PlaylistError>(e)
            &&& new.all() == old.all()
            &&& new.next() == old.next()
            &&& new.undo_ops() == old.undo_ops()
        }
        &&& redo_refusal(op, rows) is None ==> {
            &&& r == Ok::<bool, PlaylistError>(true)
            &&& new.undo_ops() == old.undo_ops().push(op)
            &&& rows is None ==> new.all() == old.all() && new.next() == old.next()
            &&& rows is Some && !(op is Insert) ==> new.edited(&old, op.playlist(), redone(rows.unwrap(), op))
            &&& rows is Some && op is Insert ==> {
                &&& new.same_playlists(&old)
                &&& new.others_kept(&old, op.playlist())
                &&& new.rows(op.playlist()) matches Some(s2)
                &&& op matches PlaylistOp::Insert { items, .. }
                &&& appended_songs(rows.unwrap(), s2, inserted_songs(items@))
            }
        }
    }
}

impl PlaylistManager {
    /// Undoes the most recent recorded edit and moves it to the redo stack.
    /// With nothing to undo it returns `false`. A refused undo (see
    /// `undo_refusal`) drops the edit from the undo stack and changes no
    /// rows.
    pub fn undo(&mut self) -> (r: Result<bool, PlaylistError>)
        requires
            old(self).wf(),
        ensures
            final(self).wf(),
            undid(*old(self), *final(self), r),
    {
        if self.undo_stack.len() == 0 {
            return Ok(false);
        }
        let op = self.undo_stack.pop().unwrap();
        let pid = op.playlist_id();
        match self.find(pid) {
            None => {
                if let Some(e) = op.undo_refused(None) {
                    return Err(e);
                }
                self.redo_stack.push(op);
                Ok(true)
            },
            Some(i) => {
                proof {
                    lemma_index_of_id(self.playlists@, pid);
                }
                if let Some(e) = op.undo_refused(Some(self.playlists[i].entries.len())) {
                    return Err(e);
                }
                let mut rows = copy_rows(&self.playlists[i].entries);
                undo_rows(&mut rows, &op);
                self.set_rows(i, Ghost(pid), rows);
                let ghost mid = *self;
                self.redo_stack.push(op);
                assert(self.all() == mid.all());
                Ok(true)
            },
        }
    }

    /// Redoes the most recently undone edit and moves it back to the undo
    /// stack. With nothing to redo it returns `false`. A redone insertion
    /// appends fresh rows for the same songs. A refused redo (see
    /// `redo_refusal`) drops the edit from the redo stack and changes no
    /// rows.
    pub fn redo(&mut self) -> (r: Result<bool, PlaylistError>)
        requires
            old(self).wf(),
        ensures
            final(self).wf(),
            redid(*old(self), *final(self), r),
    {
        if self.redo_stack.len() == 0 {
            return Ok(false);
        }
        let op = self.redo_stack.pop().unwrap();
        let pid = op.playlist_id();
        match self.find(pid) {
            None => {
                if let Some(e) = op.redo_refused(None) {
                    return Err(e);
                }
                self.undo_stack.push(op);
                Ok(true)
            },
            Some(i) => {
                proof {
                    lemma_index_of_id(self.playlists@, pid);
                }
                if let Some(e) = op.redo_refused(Some(self.playlists[i].entries.len())) {
                    return Err(e);
                }
                let mut rows = copy_rows(&self.playlists[i].entries);
                redo_rows(&mut rows, &op);
                self.set_rows(i, Ghost(pid), rows);
                let ghost mid = *self;
                self.undo_stack.push(op);
                assert(self.all() == mid.all());
                Ok(true)
            },
        }
    }
}

} // verus!

verus! {

// ---------------------------------------------------------------------------
// Deduplicating and trimming
// ---------------------------------------------------------------------------

/// What makes two rows the same track: the library song of a row with a
/// song, else its url (streamed and imported rows), else its own uuid.
pub open spec fn row_key(e: PlaylistEntry) -> (int, i64, Seq<char>) {
    match e.song_id {
        Some(id) => (0, id, Seq::empty()),
        None => if e.url is Some {
            (1, 0, e.url.unwrap()@)
        } else {
            (2, 0, e.uuid@)
        },
    }
}

/// The row at `i` repeats the track of an earlier row.
pub open spec fn is_repeat(s: Seq<PlaylistEntry>, i: int) -> bool {
    exists|j: int| 0 <= j < i && row_key(#[trigger] s[j]) == row_key(s[i])
}

/// The uuids of the rows that repeat an earlier row's track, in order.
pub open spec fn repeat_uuids(s: Seq<PlaylistEntry>) -> Seq<Seq<char>>
    decreases s.len(),
{
    if s.len() == 0 {
        Seq::empty()
    } else {
        let r = repeat_uuids(s.drop_last());
        if is_repeat(s, s.len() - 1) {
            r.push(s.last().uuid@)
        } else {
            r
        }
    }
}

/// The uuids of the first `k` rows.
pub open spec fn leading_uuids(s: Seq<PlaylistEntry>, k: int) -> Seq<Seq<char>> {
    s.take(k).map_values(|e: PlaylistEntry| e.uuid@)
}

/// A row's track, as an exec value: kind, song id, text.
fn key_of(e: &PlaylistEntry) -> (k: (u8, i64, Vec<char>))
    ensures
        (k.0 as int, k.1, k.2@) == row_key(*e),
{
    match e.song_id {
        Some(id) => (0, id, Vec::new()),
        None => match &e.url {
            Some(u) => (1, 0, chars_of(u.as_str())),
            None => (2, 0, chars_of(e.uuid.as_str())),
        },
    }
}

/// The uuids of the repeating rows (see `repeat_uuids`).
fn repeats_of(s: &Vec<PlaylistEntry>) -> (r: Vec<String>)
    ensures
        r@.map_values(|x: String| x@) == repeat_uuids(s@),
{
    let n = s.len();
    let mut keys: Vec<(u8, i64, Vec<char>)> = Vec::new();
    let mut out: Vec<String> = Vec::new();
    let mut i: usize = 0;
    while i < n
        invariant
            n == s@.len(),
            i <= n,
            keys@.len() == i,
            forall|j: int| 0 <= j < i ==> ((#[trigger] keys@[j]).0 as int, keys@[j].1, keys@[j].2@) == row_key(s@[j]),
            out@.map_values(|x: String| x@) == repeat_uuids(s@.take(i as int)),
        decreases n - i,
    {
        let k = key_of(&s[i]);
        let mut seen = false;
        let mut j: usize = 0;
        while j < i
            invariant
                i < n,
                n == s@.len(),
                j <= i,
                keys@.len() == i,
                forall|q: int| 0 <= q < i ==> ((#[trigger] keys@[q]).0 as int, keys@[q].1, keys@[q].2@) == row_key(s@[q]),
                (k.0 as int, k.1, k.2@) == row_key(s@[i as int]),
                seen == exists|q: int| 0 <= q < j && row_key(#[trigger] s@[q]) == row_key(s@[i as int]),
            decreases i - j,
        {
            let same = keys[j].0 == k.0 && keys[j].1 == k.1 && chars_eq(keys[j].2.as_slice(), k.2.as_slice());
            proof {
                let a = keys@[j as int];
                assert(row_key(s@[j as int]) == (a.0 as int, a.1, a.2@));
                if row_key(s@[j as int]) == row_key(s@[i as int]) {
                    assert(a.0 == k.0 && a.1 == k.1);
                }
            }
            if same {
                seen = true;
            }
            j += 1;
        }
        let ghost t = s@.take(i + 1);
        assert(t.drop_last() =~= s@.take(i as int));
        assert(is_repeat(t, i as int) == seen) by {
            if seen {
                let q = choose|q: int| 0 <= q < i && row_key(#[trigger] s@[q]) == row_key(s@[i as int]);
                assert(t[q] == s@[q]);
            }
            if is_repeat(t, i as int) {
                let q = choose|q: int| 0 <= q < i && row_key(#[trigger] t[q]) == row_key(t[i as int]);
                assert(t[q] == s@[q]);
            }
        }
        if seen {
            out.push(s[i].uuid.clone());
        }
        keys.push(k);
        assert(out@.map_values(|x: String| x@) =~= repeat_uuids(t));
        i += 1;
    }
    assert(s@.take(n as int) =~= s@);
    out
}

impl PlaylistManager {
    /// Removes, as one recorded removal, every row of playlist
    /// `playlist_id` that repeats an earlier row's track (see `row_key`),
    /// keeping the first of each; returns the removed uuids. With no repeat
    /// nothing is removed or recorded.
    pub fn deduplicate_playlist(&mut self, playlist_id: i64) -> (r: Result<Vec<String>, PlaylistError>)
        requires
            old(self).wf(),
        ensures
            final(self).wf(),
            old(self).rows(playlist_id) is None ==> (r matches Ok(v) && v@.len() == 0 && *final(self) == *old(self)),
            old(self).rows(playlist_id) is Some ==> {
                let s = old(self).rows(playlist_id).unwrap();
                let d = repeat_uuids(s);
                let s2 = keep_except(s, listed_positions(s, d));
                let op = final(self).undo_ops().last();
                &&& d.len() == 0 ==> (r matches Ok(v) && v@.len() == 0 && *final(self) == *old(self))
                &&& d.len() > 0 && s.len() >= i32::MAX ==> (r matches Err(PlaylistError::TooManyRows)
                    && *final(self) == *old(self))
                &&& d.len() > 0 && s.len() < i32::MAX ==> {
                    &&& r matches Ok(v) && v@.map_values(|x: String| x@) == d
                    &&& final(self).edited(old(self), playlist_id, s2)
                    &&& op.playlist() == playlist_id
                    &&& op is Remove
                    &&& made(s, s2, op)
                    &&& final(self).recorded(old(self), op)
                }
            },
    {
        let i = match self.find(playlist_id) {
            Some(i) => i,
            None => {
                return Ok(Vec::new());
            },
        };
        proof {
            lemma_index_of_id(self.playlists@, playlist_id);
        }
        let d = repeats_of(&self.playlists[i].entries);
        if d.len() == 0 {
            return Ok(d);
        }
        match self.remove_from_playlist(playlist_id, d.as_slice()) {
            Ok(()) => Ok(d),
            Err(e) => Err(e),
        }
    }

    /// Removes, as one recorded removal, every row of playlist
    /// `playlist_id` ahead of the first row with uuid `uuid`; returns the
    /// removed uuids. An unknown uuid, or one on the first row, removes
    /// nothing and records nothing.
    pub fn trim_playlist_before_uuid(&mut self, playlist_id: i64, uuid: &str) -> (r: Result<Vec<String>, PlaylistError>)
        requires
            old(self).wf(),
        ensures
            final(self).wf(),
            old(self).rows(playlist_id) is None ==> (r matches Ok(v) && v@.len() == 0 && *final(self) == *old(self)),
            old(self).rows(playlist_id) is Some ==> {
                let s = old(self).rows(playlist_id).unwrap();
                let k = uuid_index(s, uuid@);
                let d = leading_uuids(s, k.unwrap());
                let s2 = keep_except(s, listed_positions(s, d));
                let op = final(self).undo_ops().last();
                &&& (k is None || k == Some(0int)) ==> (r matches Ok(v) && v@.len() == 0 && *final(self) == *old(self))
                &&& k is Some && k.unwrap() > 0 && s.len() >= i32::MAX ==> (r matches Err(PlaylistError::TooManyRows)
                    && *final(self) == *old(self))
                &&& k is Some && k.unwrap() > 0 && s.len() < i32::MAX ==> {
                    &&& r matches Ok(v) && v@.map_values(|x: String| x@) == d
                    &&& final(self).edited(old(self), playlist_id, s2)
                    &&& op.playlist() == playlist_id
                    &&& op is Remove
                    &&& made(s, s2, op)
                    &&& final(self).recorded(old(self), op)
                }
            },
    {
        let i = match self.find(playlist_id) {
            Some(i) => i,
            None => {
                return Ok(Vec::new());
            },
        };
        proof {
            lemma_index_of_id(self.playlists@, playlist_id);
        }
        let k = match find_uuid(&self.playlists[i].entries, uuid) {
            Some(k) => k,
            None => {
                return Ok(Vec::new());
            },
        };
        if k == 0 {
            return Ok(Vec::new());
        }
        proof {
            lemma_uuid_index_bounds(self.playlists@[i as int].entries@, uuid@);
        }
        let ghost s = self.playlists@[i as int].entries@;
        let mut d: Vec<String> = Vec::new();
        let mut j: usize = 0;
        while j < k
            invariant
                i < self.playlists@.len(),
                s == self.playlists@[i as int].entries@,
                k < s.len(),
                j <= k,
                d@.len() == j,
                d@.map_values(|x: String| x@) == leading_uuids(s, j as int),
            decreases k - j,
        {
            let ghost d0 = d@;
            let u = self.playlists[i].entries[j].uuid.clone();
            assert(u@ == s[j as int].uuid@);
            d.push(u);
            assert(d@ == d0.push(u));
            proof {
                let dv = d@.map_values(|x: String| x@);
                let d0v = d0.map_values(|x: String| x@);
                let lv = leading_uuids(s, j + 1);
                let l0 = leading_uuids(s, j as int);
                assert forall|q: int| 0 <= q < j + 1 implies #[trigger] dv[q] == lv[q] by {
                    if q < j {
                        assert(d@[q] == d0[q]);
                        assert(d0v[q] == l0[q]);
                    }
                }
                assert(dv =~= lv);
            }
            j += 1;
        }
        match self.remove_from_playlist(playlist_id, d.as_slice()) {
            Ok(()) => Ok(d),
            Err(e) => Err(e),
        }
    }
}

} // verus!

verus! {

// ---------------------------------------------------------------------------
// Replacing the Queue
// ---------------------------------------------------------------------------

/// The rows of the first Queue playlist; none when there is no Queue.
pub open spec fn queue_rows(pls: Seq<Playlist>) -> Seq<PlaylistEntry>
    decreases pls.len(),
{
    if pls.len() == 0 {
        Seq::empty()
    } else if queue_name(pls[0].name@) {
        pls[0].entries@
    } else {
        queue_rows(pls.drop_first())
    }
}

proof fn lemma_queue_rows(pls: Seq<Playlist>, k: int)
    requires
        0 <= k < pls.len(),
        queue_name(pls[k].name@),
        forall|j: int| 0 <= j < k ==> !queue_name(#[trigger] pls[j].name@),
    ensures
        queue_rows(pls) == pls[k].entries@,
    decreases k,
{
    if k > 0 {
        let t = pls.drop_first();
        assert(!queue_name(pls[0].name@));
        assert forall|j: int| 0 <= j < k - 1 implies !queue_name(#[trigger] t[j].name@) by {
            assert(t[j] == pls[j + 1]);
        }
        lemma_queue_rows(t, k - 1);
    }
}

proof fn lemma_no_queue_rows(pls: Seq<Playlist>)
    requires
        !has_queue(pls),
    ensures
        queue_rows(pls) == Seq::<PlaylistEntry>::empty(),
    decreases pls.len(),
{
    if pls.len() > 0 {
        let t = pls.drop_first();
        assert(!queue_name(pls[0].name@)) by {
            if queue_name(pls[0].name@) {
                assert(has_queue(pls));
            }
        }
        assert(!has_queue(t)) by {
            if has_queue(t) {
                let j = choose|j: int| 0 <= j < t.len() && queue_name(#[trigger] t[j].name@);
                assert(t[j] == pls[j + 1]);
                assert(has_queue(pls));
            }
        }
        lemma_no_queue_rows(t);
    }
}

/// Removing every position removes every row.
proof fn lemma_keep_none(s: Seq<PlaylistEntry>, ps: Set<int>)
    requires
        forall|i: int| 0 <= i < s.len() ==> ps.contains(i),
    ensures
        keep_except(s, ps) == Seq::<PlaylistEntry>::empty(),
    decreases s.len(),
{
    if s.len() > 0 {
        lemma_keep_none(s.drop_last(), ps);
    }
}

impl PlaylistManager {
    /// Replaces the Queue's rows (the Queue is made on first use) with one
    /// fresh row per song id, as a recorded removal of the old rows, when
    /// there were any, then a recorded insertion; returns the Queue's id
    /// and new rows.
    pub fn replace_queue(&mut self, song_ids: &[i64]) -> (r: Result<(i64, Vec<PlaylistEntry>), PlaylistError>)
        requires
            old(self).wf(),
        ensures
            final(self).wf(),
            !has_queue(old(self).all()) && old(self).next() == i64::MAX ==> (r matches Err(PlaylistError::NoIdLeft)
                && *final(self) == *old(self)),
            (has_queue(old(self).all()) || old(self).next() < i64::MAX) && queue_rows(old(self).all()).len()
                < i32::MAX && song_ids@.len() < i32::MAX ==> r is Ok,
            r is Ok ==> {
                let (qid, items) = r.unwrap();
                let s = queue_rows(old(self).all());
                let n = old(self).undo_ops().len();
                &&& final(self).rows(qid) == Some(items@)
                &&& final(self).others_kept(old(self), qid)
                &&& has_queue(old(self).all()) ==> exists|k: int|
                    0 <= k < old(self).all().len() && queue_name(#[trigger] old(self).all()[k].name@) && (forall|j: int|
                        0 <= j < k ==> !queue_name(#[trigger] old(self).all()[j].name@)) && old(self).all()[k].id == qid
                &&& appended_songs(Seq::empty(), items@, song_ids@)
                &&& exists|k: int|
                    0 <= k < final(self).all().len() && (#[trigger] final(self).all()[k]).id == qid && queue_name(
                        final(self).all()[k].name@,
                    )
                &&& final(self).undo_ops().last() is Insert
                &&& final(self).undo_ops().last().playlist() == qid
                &&& made(Seq::empty(), items@, final(self).undo_ops().last())
                &&& final(self).redo_ops().len() == 0
                &&& s.len() == 0 ==> final(self).undo_ops().drop_last() == old(self).undo_ops()
                &&& s.len() > 0 ==> {
                    &&& final(self).undo_ops().len() == n + 2
                    &&& final(self).undo_ops().take(n as int) == old(self).undo_ops()
                    &&& final(self).undo_ops()[n as int] is Remove
                    &&& final(self).undo_ops()[n as int].playlist() == qid
                    &&& made(s, Seq::empty(), final(self).undo_ops()[n as int])
                }
            },
    {
        let ghost s0 = queue_rows(self.all());
        let ghost n0 = self.undo_ops().len();
        let ghost u0 = self.undo_ops();
        let q = match self.queue() {
            Ok(q) => q,
            Err(e) => {
                return Err(e);
            },
        };
        let qid = q.id;
        proof {
            if has_queue(old(self).all()) {
                let k = choose|k: int|
                    0 <= k < old(self).all().len() && queue_name(#[trigger] old(self).all()[k].name@) && (forall|j: int|
                        0 <= j < k ==> !queue_name(#[trigger] old(self).all()[j].name@)) && info_of(q, old(self).all()[k]);
                lemma_queue_rows(old(self).all(), k);
                lemma_found_by_id(self.all(), k);
            } else {
                lemma_no_queue_rows(old(self).all());
                let k = self.all().len() - 1;
                lemma_found_by_id(self.all(), k);
                assert(self.all()[k].entries@ =~= Seq::<PlaylistEntry>::empty());
                assert(self.all() =~= old(self).all().push(self.all().last()));
                assert forall|x: i64| x != qid implies #[trigger] rows_of(self.all(), x) == rows_of(
                    old(self).all(),
                    x,
                ) by {
                    lemma_rows_push(old(self).all(), self.all().last(), x);
                }
            }
            assert(self.rows(qid) == Some(s0));
            assert(self.others_kept(old(self), qid));
        }
        let ghost m1 = *self;
        let ghost k0: int = choose|k: int|
            0 <= k < self.all().len() && (#[trigger] self.all()[k]).id == qid && queue_name(self.all()[k].name@);
        assert(0 <= k0 < self.all().len() && self.all()[k0].id == qid && queue_name(self.all()[k0].name@)) by {
            if has_queue(old(self).all()) {
                let k = choose|k: int|
                    0 <= k < old(self).all().len() && queue_name(#[trigger] old(self).all()[k].name@) && (forall|j: int|
                        0 <= j < k ==> !queue_name(#[trigger] old(self).all()[j].name@)) && info_of(q, old(self).all()[k]);
                assert(self.all()[k].id == qid && queue_name(self.all()[k].name@));
            } else {
                let k = self.all().len() - 1;
                assert(self.all()[k].id == qid && queue_name(self.all()[k].name@));
            }
        }
        let existing = self.get_playlist_tracks(qid);
        if existing.len() > 0 {
            let mut uuids: Vec<String> = Vec::new();
            let mut j: usize = 0;
            while j < existing.len()
                invariant
                    j <= existing@.len(),
                    uuids@.len() == j,
                    forall|q: int| 0 <= q < j ==> (#[trigger] uuids@[q])@ == existing@[q].uuid@,
                decreases existing@.len() - j,
            {
                uuids.push(existing[j].uuid.clone());
                j += 1;
            }
            proof {
                let uv = uuids@.map_values(|x: String| x@);
                let ps = listed_positions(s0, uv);
                assert forall|i: int| 0 <= i < s0.len() implies ps.contains(i) by {
                    assert(uv[i] == s0[i].uuid@);
                }
                lemma_keep_none(s0, ps);
            }
            match self.remove_from_playlist(qid, uuids.as_slice()) {
                Ok(()) => {},
                Err(e) => {
                    return Err(e);
                },
            }
        }
        let ghost u1 = self.undo_ops();
        assert(self.rows(qid) == Some(Seq::<PlaylistEntry>::empty()));
        match self.add_songs_to_playlist(qid, song_ids) {
            Ok(()) => {},
            Err(e) => {
                return Err(e);
            },
        }
        let items = self.get_playlist_tracks(qid);
        proof {
            assert forall|x: i64| x != qid implies #[trigger] rows_of(self.all(), x) == rows_of(
                old(self).all(),
                x,
            ) by {
                assert(rows_of(m1.all(), x) == rows_of(old(self).all(), x));
            }
            assert(self.undo_ops().drop_last() == u1);
            assert(self.rows(qid) == Some(items@));
            assert(appended_songs(Seq::empty(), items@, song_ids@));
            assert(self.undo_ops().last() is Insert);
            assert(made(Seq::empty(), items@, self.undo_ops().last()));
            assert(self.redo_ops().len() == 0);
            assert(self.all()[k0].id == qid && queue_name(self.all()[k0].name@));
            if s0.len() > 0 {
                assert(self.undo_ops().take(n0 as int) =~= u0);
                assert(self.undo_ops()[n0 as int] == u1.last());
                assert(made(s0, Seq::empty(), self.undo_ops()[n0 as int]));
            } else {
                assert(self.undo_ops().drop_last() == u0);
            }
        }
        Ok((qid, items))
    }
}

} // verus!

verus! {

// ---------------------------------------------------------------------------
// Moving several rows at once
// ---------------------------------------------------------------------------

/// The positions below `n` that are not in `ps`, in increasing order.
pub open spec fn idx_keep(n: nat, ps: Set<int>) -> Seq<int>
    decreases n,
{
    if n == 0 {
        Seq::empty()
    } else {
        let r = idx_keep((n - 1) as nat, ps);
        if ps.contains(n - 1) {
            r
        } else {
            r.push(n - 1)
        }
    }
}

/// The positions of `n` rows that `from` names.
pub open spec fn batch_sel(n: nat, from: Seq<i32>) -> Set<int> {
    Set::new(|p: int| 0 <= p < n && exists|j: int| 0 <= j < from.len() && from[j] as int == p)
}

/// Where the moved rows go in `n` rows: at `to`, or at the last row when
/// `to` is out of range.
pub open spec fn batch_target(n: nat, to: i32) -> int {
    if 0 <= to < n {
        to as int
    } else {
        n - 1
    }
}

/// How many staying rows come before the moved ones: those up to the
/// target when the first moved row is above it, else those before it.
pub open spec fn batch_insert_at(n: nat, from: Seq<i32>, to: i32) -> int {
    let sel = batch_sel(n, from);
    let t = batch_target(n, to);
    if idx_keep(n, sel.complement())[0] < t {
        idx_keep((t + 1) as nat, sel).len() as int
    } else {
        idx_keep(t as nat, sel).len() as int
    }
}

/// For each new position, the old position of the row that lands there:
/// the staying rows in order with the moved rows, in order, spliced in.
pub open spec fn batch_order(n: nat, from: Seq<i32>, to: i32) -> Seq<int> {
    let sel = batch_sel(n, from);
    let kept = idx_keep(n, sel);
    let picked = idx_keep(n, sel.complement());
    let ip = batch_insert_at(n, from, to);
    kept.take(ip) + picked + kept.skip(ip)
}

/// The rows `s` rearranged by `order`.
pub open spec fn rows_in_order(s: Seq<PlaylistEntry>, order: Seq<int>) -> Seq<PlaylistEntry> {
    order.map_values(|q: int| s[q])
}

/// Some position of `order` takes the row from `i`.
pub open spec fn lands(order: Seq<int>, i: int) -> bool {
    exists|q: int| 0 <= q < order.len() && order[q] == i
}

/// `order` leaves every position where it is.
pub open spec fn is_identity(order: Seq<int>) -> bool {
    forall|q: int| 0 <= q < order.len() ==> #[trigger] order[q] == q
}

proof fn lemma_idx_keep(n: nat, ps: Set<int>)
    ensures
        forall|a: int, b: int| 0 <= a < b < idx_keep(n, ps).len() ==> #[trigger] idx_keep(n, ps)[a] < #[trigger] idx_keep(n, ps)[b],
        forall|k: int| 0 <= k < idx_keep(n, ps).len() ==> 0 <= #[trigger] idx_keep(n, ps)[k] < n && !ps.contains(idx_keep(n, ps)[k]),
        forall|v: int| 0 <= v < n && !ps.contains(v) ==> exists|k: int| 0 <= k < idx_keep(n, ps).len() && #[trigger] idx_keep(n, ps)[k] == v,
        forall|m: nat| m <= n ==> #[trigger] idx_keep(m, ps).len() <= idx_keep(n, ps).len(),
    decreases n,
{
    if n > 0 {
        let m1 = (n - 1) as nat;
        lemma_idx_keep(m1, ps);
        let r = idx_keep(m1, ps);
        let q = idx_keep(n, ps);
        assert forall|v: int| 0 <= v < n && !ps.contains(v) implies exists|k: int| 0 <= k < q.len() && #[trigger] q[k] == v by {
            if v == n - 1 {
                assert(q[q.len() - 1] == v);
            } else {
                let k = choose|k: int| 0 <= k < r.len() && #[trigger] r[k] == v;
                assert(q[k] == v);
            }
        }
        assert forall|m: nat| m <= n implies #[trigger] idx_keep(m, ps).len() <= q.len() by {
            if m < n {
                assert(idx_keep(m, ps).len() <= r.len());
            }
        }
    }
}

/// `batch_order` is a permutation of the positions.
proof fn lemma_batch_perm(n: nat, from: Seq<i32>, to: i32)
    requires
        n > 0,
        idx_keep(n, batch_sel(n, from).complement()).len() > 0,
    ensures
        batch_order(n, from, to).len() == n,
        forall|q: int| 0 <= q < n ==> 0 <= #[trigger] batch_order(n, from, to)[q] < n,
        forall|a: int, b: int|
            0 <= a < n && 0 <= b < n && #[trigger] batch_order(n, from, to)[a] == #[trigger] batch_order(n, from, to)[b]
                ==> a == b,
        forall|i: int| 0 <= i < n ==> #[trigger] lands(batch_order(n, from, to), i),
{
    let sel = batch_sel(n, from);
    let nsel = sel.complement();
    let kept = idx_keep(n, sel);
    let picked = idx_keep(n, nsel);
    let t = batch_target(n, to);
    let ip = batch_insert_at(n, from, to);
    let order = batch_order(n, from, to);
    lemma_idx_keep(n, sel);
    lemma_idx_keep(n, nsel);
    lemma_idx_keep((t + 1) as nat, sel);
    lemma_idx_keep(t as nat, sel);
    assert(0 <= ip <= kept.len());
    let kl = kept.len() as int;
    let pl = picked.len() as int;
    // Every position is kept or picked, and not both.
    assert forall|i: int| 0 <= i < n implies (sel.contains(i) || nsel.contains(i)) by {}
    // Counting: kept and picked split the n positions.
    assert(kl + pl == n) by {
        lemma_split_count(n, sel);
    }
    assert(order.len() == n);
    // Where each new position comes from.
    assert forall|q: int| 0 <= q < n implies #[trigger] order[q] == if q < ip {
        kept[q]
    } else if q < ip + pl {
        picked[q - ip]
    } else {
        kept[q - pl]
    } by {}
    assert forall|q: int| 0 <= q < n implies 0 <= #[trigger] order[q] < n by {
        if q < ip {
            assert(0 <= kept[q] < n);
        } else if q < ip + pl {
            assert(0 <= picked[q - ip] < n);
        } else {
            assert(0 <= kept[q - pl] < n);
        }
    }
    assert forall|a: int, b: int| 0 <= a < n && 0 <= b < n && #[trigger] order[a] == #[trigger] order[b] implies a == b by {
        if a != b {
            let (x, y) = if a < b {
                (a, b)
            } else {
                (b, a)
            };
            let ia = if x < ip {
                x
            } else if x < ip + pl {
                -1
            } else {
                x - pl
            };
            let ib = if y < ip {
                y
            } else if y < ip + pl {
                -1
            } else {
                y - pl
            };
            if ia >= 0 && ib >= 0 {
                assert(kept[ia] < kept[ib]);
            } else if ia < 0 && ib < 0 {
                assert(picked[x - ip] < picked[y - ip]);
            } else if ia >= 0 {
                assert(!sel.contains(kept[ia]));
                assert(!nsel.contains(picked[y - ip]));
            } else {
                assert(!nsel.contains(picked[x - ip]));
                assert(!sel.contains(kept[ib]));
            }
        }
    }
    assert forall|i: int| 0 <= i < n implies #[trigger] lands(order, i) by {
        if sel.contains(i) {
            assert(!nsel.contains(i));
            let k = choose|k: int| 0 <= k < picked.len() && #[trigger] picked[k] == i;
            assert(order[ip + k] == i);
        } else {
            let k = choose|k: int| 0 <= k < kept.len() && #[trigger] kept[k] == i;
            if k < ip {
                assert(order[k] == i);
            } else {
                assert(order[k + pl] == i);
            }
        }
    }
}

/// The positions below `n` split into those in `ps` and those not.
proof fn lemma_split_count(n: nat, ps: Set<int>)
    ensures
        idx_keep(n, ps).len() + idx_keep(n, ps.complement()).len() == n,
    decreases n,
{
    if n > 0 {
        lemma_split_count((n - 1) as nat, ps);
    }
}

} // verus!

verus! {

/// The moves listing, in increasing new position, each position whose row
/// `order` brings from elsewhere record the rearrangement.
proof fn lemma_batch_made(s: Seq<PlaylistEntry>, order: Seq<int>, m: Seq<(String, i32, i32)>, id: i64, mv: Vec<(String, i32, i32)>)
    requires
        mv@ == m,
        order.len() == s.len(),
        forall|q: int| 0 <= q < s.len() ==> 0 <= #[trigger] order[q] < s.len(),
        forall|a: int, b: int| 0 <= a < s.len() && 0 <= b < s.len() && #[trigger] order[a] == #[trigger] order[b] ==> a == b,
        forall|i: int| 0 <= i < s.len() ==> #[trigger] lands(order, i),
        forall|j: int|
            0 <= j < m.len() ==> 0 <= (#[trigger] m[j]).2 < s.len() && m[j].1 as int == order[m[j].2 as int] && m[j].1
                != m[j].2,
        forall|a: int, b: int| 0 <= a < b < m.len() ==> #[trigger] m[a].2 < #[trigger] m[b].2,
        forall|q: int| 0 <= q < s.len() && #[trigger] order[q] != q ==> moved_to(m, q),
    ensures
        made(s, rows_in_order(s, order), PlaylistOp::BatchMove { playlist_id: id, moves: mv }),
{
    let s2 = rows_in_order(s, order);
    let n = s.len() as int;
    assert forall|a: int, b: int| 0 <= a < b < m.len() implies #[trigger] m[a].1 != #[trigger] m[b].1 by {
        assert(m[a].2 < m[b].2);
        if m[a].1 == m[b].1 {
            assert(order[m[a].2 as int] == order[m[b].2 as int]);
        }
    }
    assert forall|i: int| 0 <= i < n implies (moved_from(m, i) <==> moved_to(m, i)) by {
        if moved_to(m, i) {
            let j = choose|j: int| 0 <= j < m.len() && m[j].2 as int == i;
            assert(order[i] != i);
            assert(lands(order, i));
            let q = choose|q: int| 0 <= q < order.len() && order[q] == i;
            assert(q != i);
            assert(order[q] != q);
            let j2 = choose|j2: int| 0 <= j2 < m.len() && m[j2].2 as int == q;
            assert(m[j2].1 as int == i);
        }
        if moved_from(m, i) {
            let j = choose|j: int| 0 <= j < m.len() && m[j].1 as int == i;
            let q = m[j].2 as int;
            assert(order[q] == i);
            if order[i] == i {
                assert(order[q] == order[i]);
            }
        }
    }
    assert forall|i: int| 0 <= i < n && !moved_from(m, i) implies s2[i] == s[i] by {
        if order[i] != i {
            assert(moved_to(m, i));
        }
    }
}

} // verus!

verus! {

/// Positions as integers.
pub open spec fn as_ints(v: Seq<usize>) -> Seq<int> {
    v.map_values(|x: usize| x as int)
}

/// For each of `n` positions, whether `from` names it.
fn named_positions(n: usize, from: &[i32]) -> (mark: Vec<bool>)
    ensures
        mark@.len() == n,
        forall|q: int| 0 <= q < n ==> (#[trigger] mark@[q] <==> batch_sel(n as nat, from@).contains(q)),
{
    let mut mark: Vec<bool> = Vec::new();
    let mut p: usize = 0;
    while p < n
        invariant
            p <= n,
            mark@.len() == p,
            forall|q: int| 0 <= q < p ==> !(#[trigger] mark@[q]),
        decreases n - p,
    {
        mark.push(false);
        p += 1;
    }
    let mut k: usize = 0;
    while k < from.len()
        invariant
            k <= from@.len(),
            mark@.len() == n,
            forall|q: int| 0 <= q < n ==> (#[trigger] mark@[q] <==> exists|j: int| 0 <= j < k && from@[j] as int == q),
        decreases from@.len() - k,
    {
        let f = from[k];
        if f >= 0 && (f as usize) < n {
            mark.set(f as usize, true);
        }
        proof {
            assert forall|q: int| 0 <= q < n implies (#[trigger] mark@[q] <==> exists|j: int|
                0 <= j < k + 1 && from@[j] as int == q) by {
                if q == f {
                    assert(from@[k as int] as int == q);
                }
            }
        }
        k += 1;
    }
    mark
}

/// The staying positions (unmarked) and the moving ones (marked), in
/// order, and how many staying ones lie below `t` and up to `t`.
fn split_positions(mark: &Vec<bool>, t: usize, Ghost(sel): Ghost<Set<int>>) -> (r: (Vec<usize>, Vec<usize>, usize, usize))
    requires
        t < mark@.len(),
        forall|q: int| 0 <= q < mark@.len() ==> (#[trigger] mark@[q] <==> sel.contains(q)),
    ensures
        as_ints(r.0@) == idx_keep(mark@.len(), sel),
        as_ints(r.1@) == idx_keep(mark@.len(), sel.complement()),
        r.2 as int == idx_keep(t as nat, sel).len(),
        r.3 as int == idx_keep((t + 1) as nat, sel).len(),
{
    let n = mark.len();
    let ghost nsel = sel.complement();
    let mut kept: Vec<usize> = Vec::new();
    let mut picked: Vec<usize> = Vec::new();
    let mut lt: usize = 0;
    let mut le: usize = 0;
    let mut p: usize = 0;
    while p < n
        invariant
            p <= n == mark@.len(),
            t < n,
            forall|q: int| 0 <= q < n ==> (#[trigger] mark@[q] <==> sel.contains(q)),
            nsel == sel.complement(),
            as_ints(kept@) == idx_keep(p as nat, sel),
            as_ints(picked@) == idx_keep(p as nat, nsel),
            p > t ==> lt as int == idx_keep(t as nat, sel).len(),
            p > t ==> le as int == idx_keep((t + 1) as nat, sel).len(),
        decreases n - p,
    {
        if p == t {
            lt = kept.len();
        }
        if mark[p] {
            picked.push(p);
            assert(as_ints(picked@) =~= idx_keep((p + 1) as nat, nsel));
            assert(as_ints(kept@) =~= idx_keep((p + 1) as nat, sel));
        } else {
            kept.push(p);
            assert(as_ints(picked@) =~= idx_keep((p + 1) as nat, nsel));
            assert(as_ints(kept@) =~= idx_keep((p + 1) as nat, sel));
        }
        if p == t {
            le = kept.len();
        }
        p += 1;
    }
    (kept, picked, lt, le)
}

/// `kept[..ip]`, then `picked`, then `kept[ip..]`.
fn splice(kept: &Vec<usize>, picked: &Vec<usize>, ip: usize) -> (order: Vec<usize>)
    requires
        ip <= kept@.len(),
    ensures
        as_ints(order@) == as_ints(kept@).take(ip as int) + as_ints(picked@) + as_ints(kept@).skip(ip as int),
{
    let ghost pl = picked@.len() as int;
    let mut order: Vec<usize> = Vec::new();
    let mut j: usize = 0;
    while j < ip
        invariant
            j <= ip <= kept@.len(),
            order@.len() == j,
            forall|x: int| 0 <= x < j ==> #[trigger] order@[x] == kept@[x],
        decreases ip - j,
    {
        order.push(kept[j]);
        j += 1;
    }
    let mut j: usize = 0;
    while j < picked.len()
        invariant
            j <= picked@.len(),
            pl == picked@.len(),
            ip <= kept@.len(),
            order@.len() == ip + j,
            forall|x: int| 0 <= x < ip ==> #[trigger] order@[x] == kept@[x],
            forall|x: int| 0 <= x < j ==> #[trigger] order@[ip + x] == picked@[x],
        decreases picked@.len() - j,
    {
        order.push(picked[j]);
        j += 1;
    }
    let mut j: usize = ip;
    while j < kept.len()
        invariant
            ip <= j <= kept@.len(),
            pl == picked@.len(),
            order@.len() == pl + j,
            forall|x: int| 0 <= x < ip ==> #[trigger] order@[x] == kept@[x],
            forall|x: int| 0 <= x < pl ==> #[trigger] order@[ip + x] == picked@[x],
            forall|x: int| ip <= x < j ==> #[trigger] order@[pl + x] == kept@[x],
        decreases kept@.len() - j,
    {
        order.push(kept[j]);
        j += 1;
    }
    let ghost want = as_ints(kept@).take(ip as int) + as_ints(picked@) + as_ints(kept@).skip(ip as int);
    assert(as_ints(order@) =~= want) by {
        let kv = as_ints(kept@);
        let pv = as_ints(picked@);
        assert forall|x: int| 0 <= x < order@.len() implies #[trigger] as_ints(order@)[x] == want[x] by {
            if x < ip {
                assert(order@[x] == kept@[x]);
                assert(kv[x] == kept@[x] as int);
            } else if x < ip + pl {
                assert(order@[ip + (x - ip)] == picked@[x - ip]);
                assert(pv[x - ip] == picked@[x - ip] as int);
            } else {
                assert(order@[pl + (x - pl)] == kept@[x - pl]);
                assert(kv[x - pl] == kept@[x - pl] as int);
            }
        }
    }
    order
}

/// The rows `s` rearranged by `order`, and the moves: for each new
/// position, in order, whose row comes from elsewhere, the row's uuid, old
/// position and new position.
fn rearranged(s: &Vec<PlaylistEntry>, order: &Vec<usize>, Ghost(ord): Ghost<Seq<int>>) -> (r: (Vec<PlaylistEntry>, Vec<(String, i32, i32)>))
    requires
        s@.len() < i32::MAX,
        as_ints(order@) == ord,
        ord.len() == s@.len(),
        forall|x: int| 0 <= x < s@.len() ==> 0 <= #[trigger] ord[x] < s@.len(),
    ensures
        r.0@ == rows_in_order(s@, ord),
        forall|j: int|
            0 <= j < r.1@.len() ==> 0 <= (#[trigger] r.1@[j]).2 < s@.len() && r.1@[j].1 as int == ord[r.1@[j].2 as int]
                && r.1@[j].1 != r.1@[j].2,
        forall|a: int, b: int| 0 <= a < b < r.1@.len() ==> #[trigger] r.1@[a].2 < #[trigger] r.1@[b].2,
        forall|x: int| 0 <= x < s@.len() && #[trigger] ord[x] != x ==> moved_to(r.1@, x),
{
    let n = s.len();
    let mut rows: Vec<PlaylistEntry> = Vec::new();
    let mut moves: Vec<(String, i32, i32)> = Vec::new();
    let mut q: usize = 0;
    while q < n
        invariant
            q <= n == s@.len() < i32::MAX,
            order@.len() == n,
            as_ints(order@) == ord,
            forall|x: int| 0 <= x < n ==> 0 <= #[trigger] ord[x] < n,
            rows@ == rows_in_order(s@, ord).take(q as int),
            forall|j: int|
                0 <= j < moves@.len() ==> 0 <= (#[trigger] moves@[j]).2 < q && moves@[j].1 as int == ord[moves@[j].2 as int]
                    && moves@[j].1 != moves@[j].2,
            forall|a: int, b: int| 0 <= a < b < moves@.len() ==> #[trigger] moves@[a].2 < #[trigger] moves@[b].2,
            forall|x: int| 0 <= x < q && #[trigger] ord[x] != x ==> moved_to(moves@, x),
        decreases n - q,
    {
        let o = order[q];
        assert(o as int == ord[q as int]);
        rows.push(s[o].duplicate());
        assert(rows@ =~= rows_in_order(s@, ord).take(q + 1));
        if o != q {
            let ghost m0 = moves@;
            moves.push((s[o].uuid.clone(), o as i32, q as i32));
            proof {
                assert forall|x: int| 0 <= x < q + 1 && #[trigger] ord[x] != x implies moved_to(moves@, x) by {
                    if x < q {
                        let j = choose|j: int| 0 <= j < m0.len() && m0[j].2 as int == x;
                        assert(moves@[j] == m0[j]);
                    } else {
                        assert(moves@[m0.len() as int].2 as int == x);
                    }
                }
            }
        }
        q += 1;
    }
    assert(rows_in_order(s@, ord).take(n as int) =~= rows_in_order(s@, ord));
    (rows, moves)
}

/// The order of a batch move is a rearrangement of the positions.
proof fn lemma_batch_range(n: nat, from: Seq<i32>, to: i32)
    requires
        n > 0,
        idx_keep(n, batch_sel(n, from).complement()).len() > 0,
    ensures
        batch_order(n, from, to).len() == n,
        forall|x: int| 0 <= x < n ==> 0 <= #[trigger] batch_order(n, from, to)[x] < n,
{
    lemma_batch_perm(n, from, to);
}

/// The moves that `rearranged` lists record the batch move, and there are
/// none exactly when nothing moves.
proof fn lemma_batch_moves(s: Seq<PlaylistEntry>, from: Seq<i32>, to: i32, id: i64, mv: Vec<(String, i32, i32)>)
    requires
        s.len() > 0,
        idx_keep(s.len(), batch_sel(s.len(), from).complement()).len() > 0,
        forall|j: int|
            0 <= j < mv@.len() ==> 0 <= (#[trigger] mv@[j]).2 < s.len() && mv@[j].1 as int == batch_order(
                s.len(),
                from,
                to,
            )[mv@[j].2 as int] && mv@[j].1 != mv@[j].2,
        forall|a: int, b: int| 0 <= a < b < mv@.len() ==> #[trigger] mv@[a].2 < #[trigger] mv@[b].2,
        forall|x: int| 0 <= x < s.len() && #[trigger] batch_order(s.len(), from, to)[x] != x ==> moved_to(mv@, x),
    ensures
        mv@.len() == 0 <==> is_identity(batch_order(s.len(), from, to)),
        mv@.len() > 0 ==> made(s, rows_in_order(s, batch_order(s.len(), from, to)), PlaylistOp::BatchMove { playlist_id: id, moves: mv }),
{
    let ord = batch_order(s.len(), from, to);
    lemma_batch_perm(s.len(), from, to);
    if mv@.len() == 0 {
        assert forall|x: int| 0 <= x < ord.len() implies #[trigger] ord[x] == x by {
            if ord[x] != x {
                assert(moved_to(mv@, x));
            }
        }
    } else {
        let m = mv@[0];
        assert(ord[m.2 as int] != m.2);
        lemma_batch_made(s, ord, mv@, id, mv);
    }
}

impl PlaylistManager {
    /// Moves the rows at the positions `from_indices` (out-of-range ones
    /// ignored, repeats once) of playlist `playlist_id` to sit together, in
    /// their order, where `to_index` is (see `batch_order`), and records
    /// the new position of each row that moved. A single position is
    /// `reorder_playlist_item`; when nothing moves nothing is recorded.
    pub fn reorder_playlist_items_batch(&mut self, playlist_id: i64, from_indices: &[i32], to_index: i32) -> (r: Result<(), PlaylistError>)
        requires
            old(self).wf(),
        ensures
            final(self).wf(),
            from_indices@.len() == 0 ==> (r is Ok && *final(self) == *old(self)),
            from_indices@.len() == 1 ==> moved_one(*old(self), *final(self), r, playlist_id, from_indices@[0], to_index),
            from_indices@.len() >= 2 ==> batch_moved(*old(self), *final(self), r, playlist_id, from_indices@, to_index),
    {
        if from_indices.len() == 0 {
            return Ok(());
        }
        if from_indices.len() == 1 {
            return self.reorder_playlist_item(playlist_id, from_indices[0], to_index);
        }
        self.move_rows_together(playlist_id, from_indices, to_index)
    }

    /// See `reorder_playlist_items_batch`.
    fn move_rows_together(&mut self, playlist_id: i64, from_indices: &[i32], to_index: i32) -> (r: Result<(), PlaylistError>)
        requires
            old(self).wf(),
        ensures
            final(self).wf(),
            batch_moved(*old(self), *final(self), r, playlist_id, from_indices@, to_index),
    {
        let i = match self.find(playlist_id) {
            Some(i) => i,
            None => {
                return Ok(());
            },
        };
        proof {
            lemma_index_of_id(self.playlists@, playlist_id);
        }
        let n = self.playlists[i].entries.len();
        if n == 0 {
            return Ok(());
        }
        if !positions_fit(n) {
            return Err(PlaylistError::TooManyRows);
        }
        let ghost s = self.playlists@[i as int].entries@;
        let ghost sel = batch_sel(n as nat, from_indices@);
        let mark = named_positions(n, from_indices);
        let t: usize = if to_index >= 0 && (to_index as usize) < n {
            to_index as usize
        } else {
            n - 1
        };
        assert(t as int == batch_target(n as nat, to_index));
        let (kept, picked, lt, le) = split_positions(&mark, t, Ghost(sel));
        if picked.len() == 0 {
            return Ok(());
        }
        proof {
            lemma_idx_keep(n as nat, sel);
            lemma_idx_keep((t + 1) as nat, sel);
            lemma_idx_keep(t as nat, sel);
            assert(as_ints(picked@)[0] == picked@[0] as int);
        }
        let ip: usize = if picked[0] < t {
            le
        } else {
            lt
        };
        assert(ip as int == batch_insert_at(n as nat, from_indices@, to_index));
        let order = splice(&kept, &picked, ip);
        let ghost ord = batch_order(n as nat, from_indices@, to_index);
        proof {
            lemma_batch_range(n as nat, from_indices@, to_index);
        }
        let (rows, moves) = rearranged(&self.playlists[i].entries, &order, Ghost(ord));
        proof {
            lemma_batch_moves(s, from_indices@, to_index, playlist_id, moves);
        }
        if moves.len() == 0 {
            return Ok(());
        }
        let op = PlaylistOp::BatchMove { playlist_id, moves };
        self.set_rows(i, Ghost(playlist_id), rows);
        let ghost mid = *self;
        self.undo_stack.push(op);
        self.redo_stack = Vec::new();
        assert(self.all() == mid.all());
        assert(self.undo_ops().last() == op);
        Ok(())
    }
}

/// What moving the rows at `from` (two or more positions) of playlist `id`
/// to `to` does (see `reorder_playlist_items_batch`): `old` becomes `new`
/// and `r` is returned.
pub open spec fn batch_moved(
    old: PlaylistManager,
    new: PlaylistManager,
    r: Result<(), PlaylistError>,
    id: i64,
    from: Seq<i32>,
    to: i32,
) -> bool {
    let rows = old.rows(id);
    let s = rows.unwrap();
    let n = s.len();
    let picked = idx_keep(n, batch_sel(n, from).complement());
    let order = batch_order(n, from, to);
    let op = new.undo_ops().last();
    &&& (rows is None || n == 0) ==> (r is Ok && new == old)
    &&& (rows is Some && 0 < n && n >= i32::MAX) ==> (r == Err::<(), PlaylistError>(PlaylistError::TooManyRows)
        && new == old)
    &&& (rows is Some && 0 < n < i32::MAX && (picked.len() == 0 || is_identity(order))) ==> (r is Ok && new == old)
    &&& (rows is Some && 0 < n < i32::MAX && picked.len() > 0 && !is_identity(order)) ==> {
        &&& r is Ok
        &&& new.edited(&old, id, rows_in_order(s, order))
        &&& op is BatchMove
        &&& op.playlist() == id
        &&& made(s, rows_in_order(s, order), op)
        &&& new.recorded(&old, op)
    }
}

} // verus!

verus! {

// ---------------------------------------------------------------------------
// Laws of the edit history
// ---------------------------------------------------------------------------

/// An edit of playlist `id` from rows `s` to rows `s2`, recorded as `op`,
/// turned `m0` into `m1`.
pub open spec fn edit_recorded(m0: PlaylistManager, m1: PlaylistManager, id: i64, s: Seq<PlaylistEntry>, s2: Seq<PlaylistEntry>) -> bool {
    let op = m1.undo_ops().last();
    &&& m0.rows(id) == Some(s)
    &&& m1.edited(&m0, id, s2)
    &&& m1.recorded(&m0, op)
    &&& op.playlist() == id
    &&& made(s, s2, op)
}

/// Undoing an edit right after it succeeds and gives the playlist its rows
/// back, leaves every other playlist as it was, and makes the edit the one
/// to redo.
pub proof fn undo_after_edit(
    m0: PlaylistManager,
    m1: PlaylistManager,
    m2: PlaylistManager,
    r: Result<bool, PlaylistError>,
    id: i64,
    s: Seq<PlaylistEntry>,
    s2: Seq<PlaylistEntry>,
)
    requires
        edit_recorded(m0, m1, id, s, s2),
        undid(m1, m2, r),
    ensures
        r == Ok::<bool, PlaylistError>(true),
        m2.rows(id) == Some(s),
        m2.others_kept(&m0, id),
        m2.undo_ops() == m0.undo_ops(),
        m2.redo_ops() == seq![m1.undo_ops().last()],
{
    let op = m1.undo_ops().last();
    assert(m1.rows(op.playlist()) == Some(s2));
    undo_restores(s, s2, op);
    assert(m1.undo_ops().drop_last() =~= m0.undo_ops());
    assert(m2.redo_ops() =~= seq![op]);
}

/// Redoing an edit right after undoing it succeeds and makes it again: the
/// same rows, except that a redone insertion gets fresh uuids for the same
/// songs.
pub proof fn redo_after_undo(
    m0: PlaylistManager,
    m1: PlaylistManager,
    m2: PlaylistManager,
    m3: PlaylistManager,
    r2: Result<bool, PlaylistError>,
    r3: Result<bool, PlaylistError>,
    id: i64,
    s: Seq<PlaylistEntry>,
    s2: Seq<PlaylistEntry>,
)
    requires
        edit_recorded(m0, m1, id, s, s2),
        undid(m1, m2, r2),
        redid(m2, m3, r3),
    ensures
        r3 == Ok::<bool, PlaylistError>(true),
        m3.undo_ops() == m1.undo_ops(),
        m3.redo_ops().len() == 0,
        !(m1.undo_ops().last() is Insert) ==> m3.rows(id) == Some(s2),
        m1.undo_ops().last() matches PlaylistOp::Insert { items, .. } ==> (m3.rows(id) matches Some(s3)
            && appended_songs(s, s3, inserted_songs(items@))),
{
    let op = m1.undo_ops().last();
    undo_after_edit(m0, m1, m2, r2, id, s, s2);
    assert(m2.redo_ops().last() == op);
    assert(m2.rows(id) == Some(s));
    if !(op is Insert) {
        redo_reapplies(s, s2, op);
    }
    assert(m3.undo_ops() =~= m1.undo_ops());
}

} // verus!

verus! {

// ---------------------------------------------------------------------------
// Imported playlists
// ---------------------------------------------------------------------------

/// A track of an imported playlist file: the library song it matched, if
/// any, its resolved path, and the metadata kept for an unmatched track.
#[derive(Debug)]
pub struct ImportedTrack {
    pub song_id: Option<i64>,
    pub path: String,
    pub metadata: Option<String>,
}

/// An imported playlist's name: the file's own title, else the stem of its
/// file name, else `Imported Playlist`.
pub open spec fn imported_name(title: Option<Seq<char>>, path: Seq<char>) -> Seq<char> {
    match title {
        Some(t) => t,
        None => match crate::parsers::file_name(path) {
            Some(n) => crate::parsers::name_stem(n),
            None => "Imported Playlist"@,
        },
    }
}

/// The name to give a playlist imported from the file at `path` whose
/// title is `title` (see `imported_name`).
pub fn imported_playlist_name(title: Option<&str>, path: &str) -> (r: String)
    ensures
        r@ == imported_name(
            match title {
                Some(t) => Some(t@),
                None => None,
            },
            path@,
        ),
{
    match title {
        Some(t) => t.to_owned(),
        None => match crate::parsers::file_name_of(chars_of(path).as_slice()) {
            Some(n) => crate::text::string_of(crate::parsers::stem_of(n.as_slice()).as_slice()),
            None => "Imported Playlist".to_owned(),
        },
    }
}

/// The row an imported track becomes: its song, its path as url, a fresh
/// uuid, and its metadata only when it matched no song.
pub open spec fn imported_row(e: PlaylistEntry, t: ImportedTrack) -> bool {
    &&& e.song_id == t.song_id
    &&& e.url == Some(t.path)
    &&& e.additional_metadata == if t.song_id is Some {
        None
    } else {
        t.metadata
    }
    &&& e.item_type == 0
    &&& e.stream_url is None
    &&& e.uuid@.len() == 36
}

impl PlaylistManager {
    /// Creates playlist `name` (refused as `create_playlist` refuses) with
    /// one row per imported track, in order. The import is not recorded
    /// for undo. The returned description is the new playlist's before its
    /// rows were added.
    pub fn add_imported_playlist(&mut self, name: &str, tracks: &[ImportedTrack]) -> (r: Result<PlaylistInfo, PlaylistError>)
        requires
            old(self).wf(),
        ensures
            final(self).wf(),
            create_refused(old(self).all(), name@) ==> (r matches Err(PlaylistError::Reserved { name: n }) && n@
                == trim(name@) && *final(self) == *old(self)),
            !create_refused(old(self).all(), name@) && old(self).next() == i64::MAX ==> (r matches Err(
                PlaylistError::NoIdLeft,
            ) && *final(self) == *old(self)),
            !create_refused(old(self).all(), name@) && old(self).next() < i64::MAX ==> {
                let p = final(self).all().last();
                &&& r matches Ok(info)
                &&& info.id == old(self).next()
                &&& info.name@ == name@
                &&& info.track_count == 0
                &&& info.is_queue == queue_name(name@)
                &&& final(self).all().len() == old(self).all().len() + 1
                &&& final(self).all().drop_last() == old(self).all()
                &&& p.id == old(self).next()
                &&& p.name@ == name@
                &&& !p.dynamic.enabled
                &&& p.dynamic.spec is None
                &&& p.dynamic.population_mode@ == "all"@
                &&& p.entries@.len() == tracks@.len()
                &&& forall|k: int| 0 <= k < tracks@.len() ==> imported_row(#[trigger] p.entries@[k], tracks@[k])
                &&& final(self).next() == old(self).next() + 1
                &&& final(self).same_history(old(self))
            },
    {
        let info = match self.create_playlist(name) {
            Ok(info) => info,
            Err(e) => {
                return Err(e);
            },
        };
        let mut rows: Vec<PlaylistEntry> = Vec::new();
        let mut k: usize = 0;
        while k < tracks.len()
            invariant
                k <= tracks@.len(),
                rows@.len() == k,
                forall|j: int| 0 <= j < k ==> imported_row(#[trigger] rows@[j], tracks@[j]),
            decreases tracks@.len() - k,
        {
            let t = &tracks[k];
            let meta = if t.song_id.is_some() {
                None
            } else {
                copy_opt(&t.metadata)
            };
            rows.push(PlaylistEntry {
                uuid: new_uuid(),
                song_id: t.song_id,
                item_type: 0,
                url: Some(t.path.clone()),
                stream_url: None,
                additional_metadata: meta,
            });
            k += 1;
        }
        let n = self.playlists.len();
        proof {
            lemma_found_by_id(self.playlists@, n - 1);
        }
        let ghost before = self.all();
        self.set_rows(n - 1, Ghost(info.id), rows);
        proof {
            let a = self.all();
            assert(a.drop_last() =~= before.drop_last());
            lemma_found_by_id(a, n - 1);
        }
        Ok(info)
    }
}

} // verus!

verus! {

// ---------------------------------------------------------------------------
// Dynamic playlists
// ---------------------------------------------------------------------------

/// Nothing but whitespace.
pub open spec fn blank(spec: Seq<char>) -> bool {
    trim(spec).len() == 0
}

/// A dynamic playlist with a spec to fill itself from.
pub open spec fn populatable(c: DynamicConfig) -> bool {
    c.enabled && c.spec is Some && !blank(c.spec.unwrap()@)
}

/// Only playlist `id` changed: its config by `step`, its rows by `fill`
/// (given the new config); ids, names, the next id and the history stay.
pub open spec fn changed_one(
    new: PlaylistManager,
    old: PlaylistManager,
    id: i64,
    step: spec_fn(DynamicConfig, DynamicConfig) -> bool,
    fill: spec_fn(Seq<PlaylistEntry>, Seq<PlaylistEntry>, DynamicConfig) -> bool,
) -> bool {
    &&& new.all().len() == old.all().len()
    &&& forall|k: int|
        0 <= k < old.all().len() ==> {
            &&& (#[trigger] new.all()[k]).id == old.all()[k].id
            &&& new.all()[k].name == old.all()[k].name
            &&& if old.all()[k].id == id {
                step(old.all()[k].dynamic, new.all()[k].dynamic) && fill(
                    old.all()[k].entries@,
                    new.all()[k].entries@,
                    new.all()[k].dynamic,
                )
            } else {
                new.all()[k] == old.all()[k]
            }
        }
    &&& new.next() == old.next()
    &&& new.same_history(&old)
}

/// The rows are refilled with fresh rows for `ids` when the config makes
/// the playlist fill itself, else kept.
pub open spec fn refilled(s: Seq<PlaylistEntry>, s2: Seq<PlaylistEntry>, c: DynamicConfig, ids: Seq<i64>) -> bool {
    if populatable(c) {
        appended_songs(Seq::empty(), s2, ids)
    } else {
        s2 == s
    }
}

/// Fresh rows for the songs `ids`, in order.
fn fresh_rows(ids: &[i64]) -> (r: Vec<PlaylistEntry>)
    ensures
        appended_songs(Seq::empty(), r@, ids@),
{
    let mut r: Vec<PlaylistEntry> = Vec::new();
    let mut k: usize = 0;
    while k < ids.len()
        invariant
            k <= ids@.len(),
            r@.len() == k,
            forall|j: int|
                0 <= j < k ==> {
                    let e = #[trigger] r@[j];
                    &&& e.song_id == Some(ids@[j])
                    &&& e.uuid@.len() == 36
                    &&& e.item_type == 0
                    &&& e.url is None
                    &&& e.stream_url is None
                    &&& e.additional_metadata is None
                },
        decreases ids@.len() - k,
    {
        r.push(fresh_entry(ids[k]));
        k += 1;
    }
    proof {
        let s0 = Seq::<PlaylistEntry>::empty();
        assert forall|j: int| 0 <= j < ids@.len() implies #[trigger] r@[s0.len() + j].song_id == Some(ids@[j]) by {}
        assert(r@.take(0) =~= s0);
    }
    r
}

/// Whether `s` is blank.
fn is_blank(s: &str) -> (b: bool)
    ensures
        b == blank(s@),
{
    trim_chars(chars_of(s).as_slice()).len() == 0
}

impl DynamicConfig {
    fn fills(&self) -> (b: bool)
        ensures
            b == populatable(*self),
    {
        self.enabled && match &self.spec {
            Some(s) => !is_blank(s.as_str()),
            None => false,
        }
    }
}

impl PlaylistManager {
    /// Gives the playlist at `i` config `cfg`, and rows `rows` when some.
    fn overwrite(&mut self, i: usize, cfg: DynamicConfig, rows: Option<Vec<PlaylistEntry>>)
        requires
            old(self).wf(),
            i < old(self).all().len(),
        ensures
            final(self).wf(),
            final(self).all().len() == old(self).all().len(),
            forall|k: int| 0 <= k < old(self).all().len() && k != i ==> #[trigger] final(self).all()[k] == old(self).all()[k],
            final(self).all()[i as int].id == old(self).all()[i as int].id,
            final(self).all()[i as int].name == old(self).all()[i as int].name,
            final(self).all()[i as int].dynamic == cfg,
            final(self).all()[i as int].entries@ == match rows {
                Some(r) => r@,
                None => old(self).all()[i as int].entries@,
            },
            final(self).next() == old(self).next(),
            final(self).same_history(old(self)),
    {
        let mut pl = self.playlists.remove(i);
        pl.dynamic = cfg;
        match rows {
            Some(r) => {
                pl.entries = r;
            },
            None => {},
        }
        self.playlists.insert(i, pl);
        proof {
            let (a, b) = (old(self).playlists@, self.playlists@);
            assert forall|x: int, y: int| 0 <= x < y < b.len() implies (#[trigger] b[x]).id < (#[trigger] b[y]).id by {
                assert(a[x].id < a[y].id);
            }
            assert forall|k: int| 0 <= k < b.len() implies (#[trigger] b[k]).id < self.next_id by {
                assert(a[k].id < old(self).next_id);
            }
        }
    }

    /// With increasing ids, the playlist found for `id` is the only one
    /// with it.
    proof fn lemma_only_one(&self, id: i64, i: int)
        requires
            self.wf(),
            index_of_id(self.all(), id) == Some(i),
        ensures
            0 <= i < self.all().len(),
            forall|k: int| 0 <= k < self.all().len() ==> (#[trigger] self.all()[k].id == id <==> k == i),
    {
        lemma_index_of_id(self.all(), id);
        assert forall|k: int| 0 <= k < self.all().len() implies (#[trigger] self.all()[k].id == id <==> k == i) by {
            if k < i {
                assert(self.all()[k].id < self.all()[i].id);
            } else if k > i {
                assert(self.all()[i].id < self.all()[k].id);
            }
        }
    }

    /// Gives playlist `id` config `cfg`, refilled from `ids` when `refill`
    /// and the config fills itself.
    fn reconfigure(&mut self, id: i64, cfg: DynamicConfig, refill: bool, ids: &[i64])
        requires
            old(self).wf(),
        ensures
            final(self).wf(),
            changed_one(
                *final(self),
                *old(self),
                id,
                |o: DynamicConfig, n: DynamicConfig| n == cfg,
                |s: Seq<PlaylistEntry>, s2: Seq<PlaylistEntry>, c: DynamicConfig|
                    if refill {
                        refilled(s, s2, c, ids@)
                    } else {
                        s2 == s
                    },
            ),
    {
        match self.find(id) {
            None => {
                proof {
                    lemma_index_of_id(self.all(), id);
                }
            },
            Some(i) => {
                proof {
                    self.lemma_only_one(id, i as int);
                }
                let fill = refill && cfg.fills();
                let rows = if fill {
                    Some(fresh_rows(ids))
                } else {
                    None
                };
                self.overwrite(i, cfg, rows);
            },
        }
    }

    /// The config of playlist `id`, when there is one.
    fn config_of(&self, id: i64) -> (r: Option<DynamicConfig>)
        requires
            self.wf(),
        ensures
            match r {
                Some(c) => exists|k: int| 0 <= k < self.all().len() && (#[trigger] self.all()[k]).id == id && self.all()[k].dynamic == c,
                None => forall|k: int| 0 <= k < self.all().len() ==> (#[trigger] self.all()[k]).id != id,
            },
    {
        match self.find(id) {
            Some(i) => {
                proof {
                    self.lemma_only_one(id, i as int);
                }
                Some(self.playlists[i].dynamic.duplicate())
            },
            None => {
                proof {
                    lemma_index_of_id(self.all(), id);
                }
                None
            },
        }
    }

    /// Sets playlist `id`'s population mode.
    pub fn set_playlist_population_mode(&mut self, id: i64, mode: &str) -> (r: Result<(), PlaylistError>)
        requires
            old(self).wf(),
        ensures
            final(self).wf(),
            r is Ok,
            changed_one(
                *final(self),
                *old(self),
                id,
                |o: DynamicConfig, n: DynamicConfig| n.enabled == o.enabled && n.spec == o.spec && n.population_mode@ == mode@,
                |s: Seq<PlaylistEntry>, s2: Seq<PlaylistEntry>, c: DynamicConfig| s2 == s,
            ),
    {
        match self.config_of(id) {
            Some(c) => {
                let cfg = DynamicConfig { enabled: c.enabled, spec: c.spec, population_mode: mode.to_owned() };
                self.reconfigure(id, cfg, false, &[]);
            },
            None => {},
        }
        Ok(())
    }

    /// Refills dynamic playlist `playlist_id` with fresh rows for the
    /// matching songs `matching`; a playlist that does not fill itself is
    /// left alone. Not recorded for undo.
    pub fn populate_dynamic_playlist(&mut self, playlist_id: i64, matching: &[i64]) -> (r: Result<(), PlaylistError>)
        requires
            old(self).wf(),
        ensures
            final(self).wf(),
            r is Ok,
            changed_one(
                *final(self),
                *old(self),
                playlist_id,
                |o: DynamicConfig, n: DynamicConfig| n == o,
                |s: Seq<PlaylistEntry>, s2: Seq<PlaylistEntry>, c: DynamicConfig| refilled(s, s2, c, matching@),
            ),
    {
        match self.config_of(playlist_id) {
            Some(c) => {
                self.reconfigure(playlist_id, c, true, matching);
            },
            None => {},
        }
        Ok(())
    }

    /// Refills `playlist_id` (see `populate_dynamic_playlist`).
    pub fn refresh_auto_playlist(&mut self, playlist_id: i64, matching: &[i64]) -> (r: Result<(), PlaylistError>)
        requires
            old(self).wf(),
        ensures
            final(self).wf(),
            r is Ok,
            changed_one(
                *final(self),
                *old(self),
                playlist_id,
                |o: DynamicConfig, n: DynamicConfig| n == o,
                |s: Seq<PlaylistEntry>, s2: Seq<PlaylistEntry>, c: DynamicConfig| refilled(s, s2, c, matching@),
            ),
    {
        self.populate_dynamic_playlist(playlist_id, matching)
    }

    /// Sets playlist `id`'s spec, dynamic exactly when the spec is not
    /// blank, and then refills it with fresh rows for `matching`.
    pub fn set_playlist_dynamic_spec(&mut self, id: i64, spec: &str, matching: &[i64]) -> (r: Result<(), PlaylistError>)
        requires
            old(self).wf(),
        ensures
            final(self).wf(),
            r is Ok,
            changed_one(
                *final(self),
                *old(self),
                id,
                |o: DynamicConfig, n: DynamicConfig|
                    n.population_mode == o.population_mode && n.enabled == !blank(spec@) && (n.spec matches Some(x)
                        && x@ == spec@),
                |s: Seq<PlaylistEntry>, s2: Seq<PlaylistEntry>, c: DynamicConfig| refilled(s, s2, c, matching@),
            ),
    {
        match self.config_of(id) {
            Some(c) => {
                let cfg = DynamicConfig {
                    enabled: !is_blank(spec),
                    spec: Some(spec.to_owned()),
                    population_mode: c.population_mode,
                };
                self.reconfigure(id, cfg, true, matching);
            },
            None => {},
        }
        Ok(())
    }

    /// Sets playlist `id`'s population mode and spec together and refills
    /// it once (see `set_playlist_dynamic_spec`).
    pub fn set_playlist_dynamic_config(&mut self, id: i64, mode: &str, spec: &str, matching: &[i64]) -> (r: Result<(), PlaylistError>)
        requires
            old(self).wf(),
        ensures
            final(self).wf(),
            r is Ok,
            changed_one(
                *final(self),
                *old(self),
                id,
                |o: DynamicConfig, n: DynamicConfig|
                    n.population_mode@ == mode@ && n.enabled == !blank(spec@) && (n.spec matches Some(x) && x@ == spec@),
                |s: Seq<PlaylistEntry>, s2: Seq<PlaylistEntry>, c: DynamicConfig| refilled(s, s2, c, matching@),
            ),
    {
        match self.config_of(id) {
            Some(_) => {
                let cfg = DynamicConfig {
                    enabled: !is_blank(spec),
                    spec: Some(spec.to_owned()),
                    population_mode: mode.to_owned(),
                };
                self.reconfigure(id, cfg, true, matching);
            },
            None => {},
        }
        Ok(())
    }
}

} // verus!

verus! {

// ---------------------------------------------------------------------------
// Reconciling dynamic playlists with the library
// ---------------------------------------------------------------------------

/// What a reconcile pass changed in one dynamic playlist.
#[derive(Debug)]
pub struct DynamicPlaylistDelta {
    pub playlist_id: i64,
    /// The rows appended, with their uuids.
    pub added: Vec<PlaylistEntry>,
    pub removed_uuids: Vec<String>,
}

/// A row stays: it has no song, or its song still matches.
pub open spec fn row_stays(e: PlaylistEntry, m: Seq<i64>) -> bool {
    e.song_id matches Some(x) ==> m.contains(x)
}

/// The rows that stay, in order.
pub open spec fn staying_rows(s: Seq<PlaylistEntry>, m: Seq<i64>) -> Seq<PlaylistEntry>
    decreases s.len(),
{
    if s.len() == 0 {
        Seq::empty()
    } else {
        let r = staying_rows(s.drop_last(), m);
        if row_stays(s.last(), m) {
            r.push(s.last())
        } else {
            r
        }
    }
}

/// The uuids of the rows that go, in order.
pub open spec fn gone_uuids(s: Seq<PlaylistEntry>, m: Seq<i64>) -> Seq<Seq<char>>
    decreases s.len(),
{
    if s.len() == 0 {
        Seq::empty()
    } else {
        let r = gone_uuids(s.drop_last(), m);
        if row_stays(s.last(), m) {
            r
        } else {
            r.push(s.last().uuid@)
        }
    }
}

/// Some row holds song `x`.
pub open spec fn holds_song(s: Seq<PlaylistEntry>, x: i64) -> bool {
    exists|i: int| 0 <= i < s.len() && s[i].song_id == Some(x)
}

/// The matching songs no row holds yet, in order.
pub open spec fn new_songs(s: Seq<PlaylistEntry>, m: Seq<i64>) -> Seq<i64>
    decreases m.len(),
{
    if m.len() == 0 {
        Seq::empty()
    } else {
        let r = new_songs(s, m.drop_last());
        if holds_song(s, m.last()) {
            r
        } else {
            r.push(m.last())
        }
    }
}

/// Reconciling rows `s` with the matching songs `m` changes something.
pub open spec fn reconcile_changes(s: Seq<PlaylistEntry>, m: Seq<i64>) -> bool {
    gone_uuids(s, m).len() > 0 || new_songs(s, m).len() > 0
}

/// Rows `s2` are rows `s` reconciled with `m`: the rows that stay, in
/// their order, then one fresh row per new song; unchanged when nothing
/// changes.
pub open spec fn reconciled_rows(s: Seq<PlaylistEntry>, m: Seq<i64>, s2: Seq<PlaylistEntry>) -> bool {
    if reconcile_changes(s, m) {
        appended_songs(staying_rows(s, m), s2, new_songs(s, m))
    } else {
        s2 == s
    }
}

/// `d` reports reconciling rows `s` into `s2` with `m`.
pub open spec fn delta_reports(d: DynamicPlaylistDelta, s: Seq<PlaylistEntry>, m: Seq<i64>, s2: Seq<PlaylistEntry>) -> bool {
    &&& d.removed_uuids@.map_values(|x: String| x@) == gone_uuids(s, m)
    &&& d.added@ == s2.skip(staying_rows(s, m).len() as int)
}

fn has_id(m: &[i64], x: i64) -> (b: bool)
    ensures
        b == m@.contains(x),
{
    let mut i: usize = 0;
    while i < m.len()
        invariant
            i <= m@.len(),
            forall|k: int| 0 <= k < i ==> m@[k] != x,
        decreases m@.len() - i,
    {
        if m[i] == x {
            assert(m@[i as int] == x);
            return true;
        }
        i += 1;
    }
    false
}

fn holds_song_exec(s: &Vec<PlaylistEntry>, x: i64) -> (b: bool)
    ensures
        b == holds_song(s@, x),
{
    let mut i: usize = 0;
    while i < s.len()
        invariant
            i <= s@.len(),
            forall|k: int| 0 <= k < i ==> s@[k].song_id != Some(x),
        decreases s@.len() - i,
    {
        if s[i].song_id == Some(x) {
            return true;
        }
        i += 1;
    }
    false
}

/// Rows `s` reconciled with `m` (see `reconciled_rows`), the uuids that
/// went and the rows that were appended.
fn reconcile_rows(s: &Vec<PlaylistEntry>, m: &[i64]) -> (r: (Vec<PlaylistEntry>, Vec<String>, Vec<PlaylistEntry>))
    ensures
        r.1@.map_values(|x: String| x@) == gone_uuids(s@, m@),
        appended_songs(staying_rows(s@, m@), r.0@, new_songs(s@, m@)),
        r.2@ == r.0@.skip(staying_rows(s@, m@).len() as int),
{
    let n = s.len();
    let mut rows: Vec<PlaylistEntry> = Vec::new();
    let mut gone: Vec<String> = Vec::new();
    let mut i: usize = 0;
    while i < n
        invariant
            i <= n == s@.len(),
            rows@ == staying_rows(s@.take(i as int), m@),
            gone@.map_values(|x: String| x@) == gone_uuids(s@.take(i as int), m@),
        decreases n - i,
    {
        let ghost t = s@.take(i + 1);
        assert(t.drop_last() =~= s@.take(i as int));
        assert(t.last() == s@[i as int]);
        let stays = match s[i].song_id {
            Some(x) => has_id(m, x),
            None => true,
        };
        if stays {
            rows.push(s[i].duplicate());
        } else {
            let ghost g0 = gone@;
            gone.push(s[i].uuid.clone());
            assert(gone@.map_values(|x: String| x@) =~= g0.map_values(|x: String| x@).push(s@[i as int].uuid@));
        }
        i += 1;
    }
    assert(s@.take(n as int) =~= s@);
    let ghost base = rows@;
    let mut added: Vec<PlaylistEntry> = Vec::new();
    let mut j: usize = 0;
    while j < m.len()
        invariant
            j <= m@.len(),
            rows@.len() == base.len() + added@.len(),
            rows@.take(base.len() as int) == base,
            rows@.skip(base.len() as int) == added@,
            added@.len() == new_songs(s@, m@.take(j as int)).len(),
            forall|q: int|
                0 <= q < added@.len() ==> {
                    let e = #[trigger] added@[q];
                    &&& e.song_id == Some(new_songs(s@, m@.take(j as int))[q])
                    &&& e.uuid@.len() == 36
                    &&& e.item_type == 0
                    &&& e.url is None
                    &&& e.stream_url is None
                    &&& e.additional_metadata is None
                },
        decreases m@.len() - j,
    {
        let ghost mt = m@.take(j + 1);
        assert(mt.drop_last() =~= m@.take(j as int));
        assert(mt.last() == m@[j as int]);
        if !holds_song_exec(s, m[j]) {
            let e = fresh_entry(m[j]);
            let e2 = e.duplicate();
            let ghost r0 = rows@;
            rows.push(e);
            added.push(e2);
            assert(rows@.take(base.len() as int) =~= r0.take(base.len() as int));
            assert(rows@.skip(base.len() as int) =~= added@);
        }
        j += 1;
    }
    assert(m@.take(m@.len() as int) =~= m@);
    proof {
        let ns = new_songs(s@, m@);
        assert forall|q: int| 0 <= q < ns.len() implies #[trigger] rows@[base.len() + q].song_id == Some(ns[q]) by {
            assert(rows@[base.len() + q] == added@[q]);
        }
        assert forall|q: int| 0 <= q < ns.len() implies #[trigger] rows@[base.len() + q].uuid@.len() == 36 by {
            assert(rows@[base.len() + q] == added@[q]);
        }
        assert forall|q: int| 0 <= q < ns.len() implies {
            let e = #[trigger] rows@[base.len() + q];
            &&& e.item_type == 0
            &&& e.url is None
            &&& e.stream_url is None
            &&& e.additional_metadata is None
        } by {
            assert(rows@[base.len() + q] == added@[q]);
        }
    }
    (rows, gone, added)
}

impl PlaylistManager {
    /// Brings playlist `playlist_id`'s rows in line with the songs that now
    /// match its spec, `matching`: rows whose song no longer matches go,
    /// matching songs no row holds are appended as fresh rows, and the rows
    /// that stay keep their order and uuids. Reports what changed; nothing
    /// for an unknown playlist or when nothing changes. Not recorded for
    /// undo.
    pub fn reconcile_dynamic_playlist(&mut self, playlist_id: i64, matching: &[i64]) -> (r: Option<DynamicPlaylistDelta>)
        requires
            old(self).wf(),
        ensures
            final(self).wf(),
            final(self).same_playlists(old(self)),
            final(self).same_history(old(self)),
            final(self).others_kept(old(self), playlist_id),
            old(self).rows(playlist_id) is None ==> (r is None && final(self).rows(playlist_id) is None),
            old(self).rows(playlist_id) is Some ==> {
                let s = old(self).rows(playlist_id).unwrap();
                let s2 = final(self).rows(playlist_id).unwrap();
                &&& final(self).rows(playlist_id) is Some
                &&& reconciled_rows(s, matching@, s2)
                &&& (r is Some <==> reconcile_changes(s, matching@))
                &&& r matches Some(d) ==> d.playlist_id == playlist_id && delta_reports(d, s, matching@, s2)
            },
    {
        let i = match self.find(playlist_id) {
            Some(i) => i,
            None => {
                return None;
            },
        };
        proof {
            lemma_index_of_id(self.playlists@, playlist_id);
        }
        let (rows, gone, added) = reconcile_rows(&self.playlists[i].entries, matching);
        if gone.len() == 0 && added.len() == 0 {
            proof {
                let s = self.playlists@[i as int].entries@;
                lemma_staying_all(s, matching@);
                assert(rows@ =~= s);
            }
            return None;
        }
        self.set_rows(i, Ghost(playlist_id), rows);
        Some(DynamicPlaylistDelta { playlist_id, added, removed_uuids: gone })
    }
}

/// When no row goes, every row stays.
proof fn lemma_staying_stay(s: Seq<PlaylistEntry>, m: Seq<i64>)
    ensures
        forall|i: int| 0 <= i < staying_rows(s, m).len() ==> row_stays(#[trigger] staying_rows(s, m)[i], m),
        forall|j: int| 0 <= j < s.len() && row_stays(#[trigger] s[j], m) ==> staying_rows(s, m).contains(s[j]),
    decreases s.len(),
{
    if s.len() > 0 {
        let t = s.drop_last();
        lemma_staying_stay(t, m);
        let r = staying_rows(t, m);
        if row_stays(s.last(), m) {
            assert(staying_rows(s, m) == r.push(s.last()));
            assert forall|i: int| 0 <= i < staying_rows(s, m).len() implies row_stays(
                #[trigger] staying_rows(s, m)[i],
                m,
            ) by {
                if i < r.len() {
                    assert(staying_rows(s, m)[i] == r[i]);
                }
            }
            assert forall|j: int| 0 <= j < s.len() && row_stays(#[trigger] s[j], m) implies staying_rows(
                s,
                m,
            ).contains(s[j]) by {
                if j < t.len() {
                    assert(t[j] == s[j]);
                    let k = choose|k: int| 0 <= k < r.len() && r[k] == t[j];
                    assert(staying_rows(s, m)[k] == r[k]);
                } else {
                    assert(staying_rows(s, m)[r.len() as int] == s.last());
                }
            }
        } else {
            assert forall|j: int| 0 <= j < s.len() && row_stays(#[trigger] s[j], m) implies staying_rows(
                s,
                m,
            ).contains(s[j]) by {
                assert(j < t.len());
                assert(t[j] == s[j]);
            }
        }
    }
}

proof fn lemma_new_songs_props(s: Seq<PlaylistEntry>, m: Seq<i64>)
    ensures
        forall|i: int| 0 <= i < new_songs(s, m).len() ==> m.contains(#[trigger] new_songs(s, m)[i]),
        forall|j: int| 0 <= j < m.len() && !holds_song(s, #[trigger] m[j]) ==> new_songs(s, m).contains(m[j]),
    decreases m.len(),
{
    if m.len() > 0 {
        let t = m.drop_last();
        lemma_new_songs_props(s, t);
        let r = new_songs(s, t);
        let n = new_songs(s, m);
        assert forall|i: int| 0 <= i < n.len() implies m.contains(#[trigger] n[i]) by {
            if i < r.len() {
                assert(n[i] == r[i]);
                let k = choose|k: int| 0 <= k < t.len() && t[k] == r[i];
                assert(m[k] == t[k]);
            } else {
                assert(n[i] == m.last());
                assert(m[m.len() - 1] == m.last());
            }
        }
        assert forall|j: int| 0 <= j < m.len() && !holds_song(s, #[trigger] m[j]) implies n.contains(m[j]) by {
            if j < t.len() {
                assert(t[j] == m[j]);
                let k = choose|k: int| 0 <= k < r.len() && r[k] == t[j];
                if !holds_song(s, m.last()) {
                    assert(n[k] == r[k]);
                }
            } else {
                assert(n[n.len() - 1] == m.last());
            }
        }
    }
}

proof fn lemma_none_gone(s: Seq<PlaylistEntry>, m: Seq<i64>)
    requires
        forall|i: int| 0 <= i < s.len() ==> row_stays(#[trigger] s[i], m),
    ensures
        gone_uuids(s, m).len() == 0,
    decreases s.len(),
{
    if s.len() > 0 {
        let t = s.drop_last();
        assert forall|i: int| 0 <= i < t.len() implies row_stays(#[trigger] t[i], m) by {
            assert(t[i] == s[i]);
        }
        lemma_none_gone(t, m);
        assert(row_stays(s[s.len() - 1], m));
    }
}

proof fn lemma_none_new(s: Seq<PlaylistEntry>, m: Seq<i64>)
    requires
        forall|j: int| 0 <= j < m.len() ==> holds_song(s, #[trigger] m[j]),
    ensures
        new_songs(s, m).len() == 0,
    decreases m.len(),
{
    if m.len() > 0 {
        let t = m.drop_last();
        assert forall|j: int| 0 <= j < t.len() implies holds_song(s, #[trigger] t[j]) by {
            assert(t[j] == m[j]);
        }
        lemma_none_new(s, t);
        assert(holds_song(s, m[m.len() - 1]));
    }
}

/// Reconciling a dynamic playlist settles it: reconciling the result again
/// with the same matching songs changes nothing.
pub proof fn reconcile_settles(s: Seq<PlaylistEntry>, m: Seq<i64>, s2: Seq<PlaylistEntry>)
    requires
        reconciled_rows(s, m, s2),
    ensures
        !reconcile_changes(s2, m),
{
    if reconcile_changes(s, m) {
        let st = staying_rows(s, m);
        let ns = new_songs(s, m);
        lemma_staying_stay(s, m);
        lemma_new_songs_props(s, m);
        assert forall|i: int| 0 <= i < s2.len() implies row_stays(#[trigger] s2[i], m) by {
            if i < st.len() {
                assert(s2.take(st.len() as int)[i] == s2[i]);
                assert(st[i] == s2[i]);
            } else {
                let k = i - st.len();
                assert(s2[st.len() + k].song_id == Some(ns[k]));
                assert(m.contains(ns[k]));
            }
        }
        lemma_none_gone(s2, m);
        assert forall|j: int| 0 <= j < m.len() implies holds_song(s2, #[trigger] m[j]) by {
            let x = m[j];
            if holds_song(s, x) {
                let i = choose|i: int| 0 <= i < s.len() && s[i].song_id == Some(x);
                assert(row_stays(s[i], m));
                let k = choose|k: int| 0 <= k < st.len() && st[k] == s[i];
                assert(s2.take(st.len() as int)[k] == s2[k]);
                assert(s2[k].song_id == Some(x));
            } else {
                let k = choose|k: int| 0 <= k < ns.len() && ns[k] == x;
                assert(s2[st.len() + k].song_id == Some(ns[k]));
            }
        }
        lemma_none_new(s2, m);
    }
}

/// Reconciling a dynamic playlist keeps every row that still matches, in
/// its order, ahead of the rows it adds.
pub proof fn reconcile_keeps_surviving_rows(s: Seq<PlaylistEntry>, m: Seq<i64>, s2: Seq<PlaylistEntry>)
    requires
        reconciled_rows(s, m, s2),
    ensures
        staying_rows(s, m).len() <= s2.len(),
        s2.take(staying_rows(s, m).len() as int) == staying_rows(s, m),
{
    if !reconcile_changes(s, m) {
        lemma_staying_all(s, m);
        assert(s2.take(s2.len() as int) =~= s2);
    }
}

proof fn lemma_staying_all(s: Seq<PlaylistEntry>, m: Seq<i64>)
    requires
        gone_uuids(s, m).len() == 0,
    ensures
        staying_rows(s, m) == s,
    decreases s.len(),
{
    if s.len() > 0 {
        let t = s.drop_last();
        if !row_stays(s.last(), m) {
            assert(gone_uuids(s, m).len() == gone_uuids(t, m).len() + 1);
        }
        lemma_staying_all(t, m);
        assert(t.push(s.last()) =~= s);
    }
}

} // verus!

verus! {

/// Playlist `x` exists and fills itself from its spec.
pub open spec fn target_of(pls: Seq<Playlist>, x: i64) -> bool {
    match index_of_id(pls, x) {
        Some(i) => populatable(pls[i].dynamic),
        None => false,
    }
}

/// No earlier entry of `matches` is for the same playlist as entry `k`.
pub open spec fn first_at(matches: Seq<(i64, Vec<i64>)>, k: int) -> bool {
    forall|j: int| 0 <= j < k ==> (#[trigger] matches[j]).0 != matches[k].0
}

/// Entry `k` of `matches` is reconciled: the first for a playlist that
/// fills itself.
pub open spec fn reconciled_at(pls: Seq<Playlist>, matches: Seq<(i64, Vec<i64>)>, k: int) -> bool {
    0 <= k < matches.len() && first_at(matches, k) && target_of(pls, matches[k].0)
}

/// Delta `d` reports a change made by an entry of `matches` below `n`.
pub open spec fn reported_by(
    old: Seq<Playlist>,
    new: Seq<Playlist>,
    matches: Seq<(i64, Vec<i64>)>,
    n: int,
    d: DynamicPlaylistDelta,
) -> bool {
    exists|k: int|
        0 <= k < n && #[trigger] reconciled_at(old, matches, k) && matches[k].0 == d.playlist_id && reconcile_changes(
            rows_of(old, d.playlist_id).unwrap(),
            matches[k].1@,
        ) && delta_reports(d, rows_of(old, d.playlist_id).unwrap(), matches[k].1@, rows_of(new, d.playlist_id).unwrap())
}

/// Some delta is for playlist `x`.
pub open spec fn has_delta(ds: Seq<DynamicPlaylistDelta>, x: i64) -> bool {
    exists|j: int| 0 <= j < ds.len() && (#[trigger] ds[j]).playlist_id == x
}

/// Some entry of `matches` below `n` reconciles playlist `x`.
pub open spec fn touched(pls: Seq<Playlist>, matches: Seq<(i64, Vec<i64>)>, n: int, x: i64) -> bool {
    exists|k: int| 0 <= k < n && #[trigger] reconciled_at(pls, matches, k) && matches[k].0 == x
}

impl PlaylistManager {
    /// Whether playlist `x` fills itself from its spec.
    fn is_target(&self, x: i64) -> (b: bool)
        requires
            self.wf(),
        ensures
            b == target_of(self.all(), x),
    {
        match self.find(x) {
            Some(i) => {
                proof {
                    lemma_index_of_id(self.playlists@, x);
                }
                self.playlists[i].dynamic.fills()
            },
            None => false,
        }
    }

    /// Reconciles every playlist that fills itself with the songs that now
    /// match its spec, given in `matches` as (playlist id, matching songs);
    /// later entries for a playlist already reconciled, and entries for
    /// other playlists, are ignored. Returns one delta per playlist that
    /// changed.
    pub fn reconcile_dynamic_playlists(&mut self, matches: &[(i64, Vec<i64>)]) -> (r: Result<Vec<DynamicPlaylistDelta>, PlaylistError>)
        requires
            old(self).wf(),
        ensures
            final(self).wf(),
            final(self).same_playlists(old(self)),
            final(self).same_history(old(self)),
            r is Ok,
            forall|x: i64|
                !touched(old(self).all(), matches@, matches@.len() as int, x) ==> #[trigger] rows_of(final(self).all(), x)
                    == rows_of(old(self).all(), x),
            forall|k: int|
                #[trigger] reconciled_at(old(self).all(), matches@, k) ==> final(self).rows(matches@[k].0) is Some
                    && reconciled_rows(
                    old(self).rows(matches@[k].0).unwrap(),
                    matches@[k].1@,
                    final(self).rows(matches@[k].0).unwrap(),
                ),
            forall|j: int|
                0 <= j < r.unwrap()@.len() ==> reported_by(
                    old(self).all(),
                    final(self).all(),
                    matches@,
                    matches@.len() as int,
                    #[trigger] r.unwrap()@[j],
                ),
            forall|k: int|
                #[trigger] reconciled_at(old(self).all(), matches@, k) && reconcile_changes(
                    old(self).rows(matches@[k].0).unwrap(),
                    matches@[k].1@,
                ) ==> has_delta(r.unwrap()@, matches@[k].0),
            forall|a: int, b: int|
                0 <= a < b < r.unwrap()@.len() ==> (#[trigger] r.unwrap()@[a]).playlist_id != (#[trigger] r.unwrap()@[b]).playlist_id,
    {
        let ghost o = old(self).all();
        let ghost ms = matches@;
        let mut deltas: Vec<DynamicPlaylistDelta> = Vec::new();
        let mut i: usize = 0;
        while i < matches.len()
            invariant
                i <= ms.len(),
                ms == matches@,
                o == old(self).all(),
                self.wf(),
                self.same_playlists(old(self)),
                self.same_history(old(self)),
                forall|x: i64| !touched(o, ms, i as int, x) ==> #[trigger] rows_of(self.all(), x) == rows_of(o, x),
                forall|k: int|
                    0 <= k < i && #[trigger] reconciled_at(o, ms, k) ==> rows_of(self.all(), ms[k].0) is Some
                        && reconciled_rows(rows_of(o, ms[k].0).unwrap(), ms[k].1@, rows_of(self.all(), ms[k].0).unwrap()),
                forall|j: int| 0 <= j < deltas@.len() ==> reported_by(o, self.all(), ms, i as int, #[trigger] deltas@[j]),
                forall|k: int|
                    0 <= k < i && #[trigger] reconciled_at(o, ms, k) && reconcile_changes(rows_of(o, ms[k].0).unwrap(), ms[k].1@)
                        ==> has_delta(deltas@, ms[k].0),
                forall|a: int, b: int|
                    0 <= a < b < deltas@.len() ==> (#[trigger] deltas@[a]).playlist_id != (#[trigger] deltas@[b]).playlist_id,
            decreases ms.len() - i,
        {
            let x = matches[i].0;
            let mut seen = false;
            let mut j: usize = 0;
            while j < i
                invariant
                    j <= i < ms.len(),
                    ms == matches@,
                    x == ms[i as int].0,
                    seen == exists|q: int| 0 <= q < j && (#[trigger] ms[q]).0 == x,
                decreases i - j,
            {
                if matches[j].0 == x {
                    seen = true;
                }
                j += 1;
            }
            assert(first_at(ms, i as int) == !seen);
            let ghost before = *self;
            let ghost bd = deltas@;
            let go = !seen && self.is_target(x);
            proof {
                let oa = old(self).all();
                lemma_same_ids(self.all(), oa, x);
                assert(target_of(self.all(), x) == target_of(o, x)) by {
                    match index_of_id(o, x) {
                        Some(q) => {
                            lemma_index_of_id(o, x);
                        },
                        None => {},
                    }
                }
                assert(go == reconciled_at(o, ms, i as int));
            }
            if go {
                proof {
                    assert(!touched(o, ms, i as int, x));
                    assert(rows_of(self.all(), x) == rows_of(o, x));
                }
                let d = self.reconcile_dynamic_playlist(x, matches[i].1.as_slice());
                match d {
                    Some(d) => {
                        deltas.push(d);
                    },
                    None => {},
                }
            }
            proof {
                let cur = self.all();
                let b4 = before.all();
                assert forall|y: i64| !touched(o, ms, i + 1, y) implies #[trigger] rows_of(cur, y) == rows_of(o, y) by {
                    assert(!touched(o, ms, i as int, y));
                    if go {
                        assert(y != x);
                    }
                    assert(rows_of(b4, y) == rows_of(o, y));
                }
                assert forall|k: int| 0 <= k < i + 1 && #[trigger] reconciled_at(o, ms, k) implies rows_of(cur, ms[k].0) is Some
                    && reconciled_rows(rows_of(o, ms[k].0).unwrap(), ms[k].1@, rows_of(cur, ms[k].0).unwrap()) by {
                    if k < i {
                        if go {
                            assert(ms[k].0 != x);
                        }
                    }
                }
                assert forall|j2: int| 0 <= j2 < deltas@.len() implies reported_by(o, cur, ms, i + 1, #[trigger] deltas@[j2]) by {
                    let dj = deltas@[j2];
                    if j2 < bd.len() {
                        assert(dj == bd[j2]);
                        assert(reported_by(o, b4, ms, i as int, dj));
                        let k = choose|k: int|
                            0 <= k < i && #[trigger] reconciled_at(o, ms, k) && ms[k].0 == dj.playlist_id && reconcile_changes(
                                rows_of(o, dj.playlist_id).unwrap(),
                                ms[k].1@,
                            ) && delta_reports(dj, rows_of(o, dj.playlist_id).unwrap(), ms[k].1@, rows_of(b4, dj.playlist_id).unwrap());
                        if go {
                            assert(ms[k].0 != x);
                        }
                        assert(reconciled_at(o, ms, k));
                    } else {
                        assert(reconciled_at(o, ms, i as int));
                    }
                }
                assert forall|k: int| 0 <= k < i + 1 && #[trigger] reconciled_at(o, ms, k) && reconcile_changes(
                    rows_of(o, ms[k].0).unwrap(),
                    ms[k].1@,
                ) implies has_delta(deltas@, ms[k].0) by {
                    if k < i {
                        let j3 = choose|j3: int| 0 <= j3 < bd.len() && (#[trigger] bd[j3]).playlist_id == ms[k].0;
                        assert(deltas@[j3] == bd[j3]);
                    } else {
                        assert(deltas@[deltas@.len() - 1].playlist_id == x);
                    }
                }
                assert forall|a: int, b: int| 0 <= a < b < deltas@.len() implies (#[trigger] deltas@[a]).playlist_id != (#[trigger] deltas@[b]).playlist_id by {
                    if b >= bd.len() {
                        assert(reported_by(o, b4, ms, i as int, bd[a]));
                        let k = choose|k: int|
                            0 <= k < i && #[trigger] reconciled_at(o, ms, k) && ms[k].0 == bd[a].playlist_id && reconcile_changes(
                                rows_of(o, bd[a].playlist_id).unwrap(),
                                ms[k].1@,
                            ) && delta_reports(bd[a], rows_of(o, bd[a].playlist_id).unwrap(), ms[k].1@, rows_of(b4, bd[a].playlist_id).unwrap());
                        assert(ms[k].0 != x);
                    } else {
                        assert(deltas@[a] == bd[a] && deltas@[b] == bd[b]);
                    }
                }
            }
            i += 1;
        }
        Ok(deltas)
    }
}

} // verus!

verus! {

/// The playlists that fill themselves, as (id, spec, population mode), in
/// order.
pub open spec fn targets_of(pls: Seq<Playlist>) -> Seq<(i64, Seq<char>, Seq<char>)>
    decreases pls.len(),
{
    if pls.len() == 0 {
        Seq::empty()
    } else {
        let r = targets_of(pls.drop_last());
        let p = pls.last();
        if populatable(p.dynamic) {
            r.push((p.id, p.dynamic.spec.unwrap()@, p.dynamic.population_mode@))
        } else {
            r
        }
    }
}

/// The last entry of `matches` for playlist `x`.
pub open spec fn last_entry_for(matches: Seq<(i64, Vec<i64>)>, x: i64) -> Option<int>
    decreases matches.len(),
{
    if matches.len() == 0 {
        None
    } else if matches.last().0 == x {
        Some(matches.len() - 1)
    } else {
        last_entry_for(matches.drop_last(), x)
    }
}

proof fn lemma_last_entry_for(matches: Seq<(i64, Vec<i64>)>, x: i64)
    ensures
        last_entry_for(matches, x) matches Some(j) ==> 0 <= j < matches.len() && matches[j].0 == x,
    decreases matches.len(),
{
    if matches.len() > 0 && matches.last().0 != x {
        lemma_last_entry_for(matches.drop_last(), x);
    }
}

impl PlaylistManager {
    /// The playlists that fill themselves, as (id, spec, population mode).
    pub fn dynamic_targets(&self) -> (r: Vec<(i64, String, String)>)
        ensures
            r@.map_values(|t: (i64, String, String)| (t.0, t.1@, t.2@)) == targets_of(self.all()),
    {
        let mut out: Vec<(i64, String, String)> = Vec::new();
        let mut i: usize = 0;
        while i < self.playlists.len()
            invariant
                i <= self.playlists@.len(),
                out@.map_values(|t: (i64, String, String)| (t.0, t.1@, t.2@)) == targets_of(self.playlists@.take(i as int)),
            decreases self.playlists@.len() - i,
        {
            let ghost t = self.playlists@.take(i + 1);
            assert(t.drop_last() =~= self.playlists@.take(i as int));
            let p = &self.playlists[i];
            if p.dynamic.fills() {
                let spec = match &p.dynamic.spec {
                    Some(s) => s.clone(),
                    None => String::new(),
                };
                let ghost o0 = out@;
                out.push((p.id, spec, p.dynamic.population_mode.clone()));
                assert(out@.map_values(|t: (i64, String, String)| (t.0, t.1@, t.2@)) =~= o0.map_values(
                    |t: (i64, String, String)| (t.0, t.1@, t.2@),
                ).push((p.id, p.dynamic.spec.unwrap()@, p.dynamic.population_mode@)));
            }
            i += 1;
        }
        assert(self.playlists@.take(i as int) =~= self.playlists@);
        out
    }

    /// Refills every playlist named in `matches` (playlist id, matching
    /// songs) that fills itself, each from its last entry (see
    /// `populate_dynamic_playlist`).
    pub fn refresh_all_dynamic_playlists(&mut self, matches: &[(i64, Vec<i64>)]) -> (r: Result<(), PlaylistError>)
        requires
            old(self).wf(),
        ensures
            final(self).wf(),
            r is Ok,
            final(self).all().len() == old(self).all().len(),
            final(self).next() == old(self).next(),
            final(self).same_history(old(self)),
            forall|k: int|
                0 <= k < old(self).all().len() ==> {
                    let p = old(self).all()[k];
                    let q = #[trigger] final(self).all()[k];
                    &&& q.id == p.id
                    &&& q.name == p.name
                    &&& q.dynamic == p.dynamic
                    &&& match last_entry_for(matches@, p.id) {
                        Some(j) => refilled(p.entries@, q.entries@, p.dynamic, matches@[j].1@),
                        None => q.entries@ == p.entries@,
                    }
                },
    {
        let ghost o = old(self).all();
        let mut i: usize = 0;
        while i < matches.len()
            invariant
                i <= matches@.len(),
                o == old(self).all(),
                self.wf(),
                self.all().len() == o.len(),
                self.next() == old(self).next(),
                self.same_history(old(self)),
                forall|k: int|
                    0 <= k < o.len() ==> {
                        let p = o[k];
                        let q = #[trigger] self.all()[k];
                        &&& q.id == p.id
                        &&& q.name == p.name
                        &&& q.dynamic == p.dynamic
                        &&& match last_entry_for(matches@.take(i as int), p.id) {
                            Some(j) => refilled(p.entries@, q.entries@, p.dynamic, matches@[j].1@),
                            None => q.entries@ == p.entries@,
                        }
                    },
            decreases matches@.len() - i,
        {
            let ghost before = self.all();
            let x = matches[i].0;
            self.populate_dynamic_playlist(x, matches[i].1.as_slice());
            proof {
                let mt = matches@.take(i + 1);
                assert(mt.drop_last() =~= matches@.take(i as int));
                assert(mt.last() == matches@[i as int]);
                assert forall|k: int| 0 <= k < o.len() implies {
                    let p = o[k];
                    let q = #[trigger] self.all()[k];
                    &&& q.id == p.id
                    &&& q.name == p.name
                    &&& q.dynamic == p.dynamic
                    &&& match last_entry_for(mt, p.id) {
                        Some(j) => refilled(p.entries@, q.entries@, p.dynamic, matches@[j].1@),
                        None => q.entries@ == p.entries@,
                    }
                } by {
                    assert(before[k].id == o[k].id);
                    if o[k].id == x {
                        assert(last_entry_for(mt, o[k].id) == Some(i as int));
                        if !populatable(o[k].dynamic) {
                            lemma_last_entry_for(matches@.take(i as int), x);
                            match last_entry_for(matches@.take(i as int), o[k].id) {
                                Some(j) => {
                                    assert(before[k].entries@ == o[k].entries@);
                                },
                                None => {},
                            }
                        }
                    } else {
                        assert(self.all()[k] == before[k]);
                    }
                }
            }
            i += 1;
        }
        assert(matches@.take(i as int) =~= matches@);
        Ok(())
    }
}

} // verus!
