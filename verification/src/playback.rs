//! The playback queue behind the player: the loaded playlist's items, the
//! play order (a permutation of the items, the identity unless shuffling),
//! the current position, the Previous history and the ad-hoc "play next"
//! list, with every navigation decision (next, previous, what plays after
//! the current track, album and playlist repeat) and every edit (append,
//! remove, reorder) stated over that model and proved to keep it
//! well-formed.
use vstd::prelude::*;
use crate::text::{chars_of, chars_eq, trim_chars, to_lowercase, lowercase, trim};
use crate::playlist::new_uuid;
use rand::seq::SliceRandom;

verus! {

broadcast use vstd::seq_lib::group_to_multiset_ensures;

// ---------------------------------------------------------------------------
// Modes and items
// ---------------------------------------------------------------------------

/// Play-order mode.
#[derive(Clone, Copy, Debug, PartialEq, Eq, Structural)]
pub enum ShuffleMode {
    Off,
    All,
    InsideAlbum,
    Albums,
    Artists,
}

/// What happens at the end of a track or of the playlist.
#[derive(Clone, Copy, Debug, PartialEq, Eq, Structural)]
pub enum RepeatMode {
    Off,
    Track,
    Album,
    Playlist,
    Intro,
}

/// What the queue needs to know of one playlist item.
#[derive(Debug)]
pub struct PlayItem {
    /// The item's own identity within its playlist.
    pub uuid: String,
    /// The library song it plays; `None` for a row whose song is gone.
    pub song_id: Option<i64>,
    /// The song's file is known to be missing.
    pub unavailable: bool,
    pub album: Option<String>,
    pub artist: Option<String>,
    pub length_nanosec: Option<i64>,
}

impl PlayItem {
    /// A field-for-field copy.
    pub fn duplicate(&self) -> (r: PlayItem)
        ensures
            r == *self,
    {
        PlayItem {
            uuid: self.uuid.clone(),
            song_id: self.song_id,
            unavailable: self.unavailable,
            album: match &self.album {
                Some(a) => Some(a.clone()),
                None => None,
            },
            artist: match &self.artist {
                Some(a) => Some(a.clone()),
                None => None,
            },
            length_nanosec: self.length_nanosec,
        }
    }
}

/// An item can be played: it has a song and the song is not missing.
pub open spec fn playable(it: PlayItem) -> bool {
    it.song_id is Some && !it.unavailable
}

pub fn is_item_playable(it: &PlayItem) -> (b: bool)
    ensures
        b == playable(*it),
{
    it.song_id.is_some() && !it.unavailable
}

/// The grouping key for album shuffle and album repeat: the lowercased album
/// tag, or the item's own uuid when it has no (or a blank) album.
pub open spec fn album_key(it: PlayItem) -> Seq<char> {
    match it.album {
        Some(a) => if trim(a@).len() > 0 {
            lowercase(a@)
        } else {
            it.uuid@
        },
        None => it.uuid@,
    }
}

/// The grouping key for artist shuffle, built like `album_key`.
pub open spec fn artist_key(it: PlayItem) -> Seq<char> {
    match it.artist {
        Some(a) => if trim(a@).len() > 0 {
            lowercase(a@)
        } else {
            it.uuid@
        },
        None => it.uuid@,
    }
}

fn tag_key(tag: &Option<String>, uuid: &String) -> (k: String)
    ensures
        k@ == (match *tag {
            Some(a) => if trim(a@).len() > 0 {
                lowercase(a@)
            } else {
                uuid@
            },
            None => uuid@,
        }),
{
    match tag {
        Some(a) => {
            let c = chars_of(a.as_str());
            let t = trim_chars(c.as_slice());
            if t.len() > 0 {
                to_lowercase(a.as_str())
            } else {
                uuid.clone()
            }
        },
        None => uuid.clone(),
    }
}

pub fn album_key_of(it: &PlayItem) -> (k: String)
    ensures
        k@ == album_key(*it),
{
    tag_key(&it.album, &it.uuid)
}

pub fn artist_key_of(it: &PlayItem) -> (k: String)
    ensures
        k@ == artist_key(*it),
{
    tag_key(&it.artist, &it.uuid)
}

// ---------------------------------------------------------------------------
// Permutations
// ---------------------------------------------------------------------------

/// `o` lists each of `0..n` exactly once.
pub open spec fn is_perm(o: Seq<usize>, n: nat) -> bool {
    &&& o.len() == n
    &&& o.no_duplicates()
    &&& forall|r: usize| o.contains(r) <==> r < n
}

/// `o` is `0, 1, .., n-1`.
pub open spec fn is_identity(o: Seq<usize>, n: nat) -> bool {
    o.len() == n && forall|i: int| 0 <= i < n ==> o[i] == i
}

pub proof fn lemma_perm_elements(o: Seq<usize>, n: nat)
    requires
        is_perm(o, n),
    ensures
        forall|i: int| 0 <= i < o.len() ==> #[trigger] o[i] < n,
{
    assert forall|i: int| 0 <= i < o.len() implies #[trigger] o[i] < n by {
        assert(o.contains(o[i]));
    }
}

proof fn lemma_identity_is_perm(o: Seq<usize>, n: nat)
    requires
        is_identity(o, n),
    ensures
        is_perm(o, n),
{
    assert forall|r: usize| o.contains(r) <==> r < n by {
        if r < n {
            assert(o[r as int] == r);
        }
    }
}

/// `0, 1, .., n-1`.
pub fn identity_order(n: usize) -> (o: Vec<usize>)
    ensures
        is_identity(o@, n as nat),
        is_perm(o@, n as nat),
{
    let mut o: Vec<usize> = Vec::new();
    let mut i: usize = 0;
    while i < n
        invariant
            i <= n,
            o@.len() == i,
            forall|k: int| 0 <= k < i ==> o@[k] == k,
        decreases n - i,
    {
        o.push(i);
        i += 1;
    }
    proof {
        lemma_identity_is_perm(o@, n as nat);
    }
    o
}

/// `rand::rngs::ThreadRng`, the thread-local generator.
#[verifier::external_type_specification]
#[verifier::external_body]
pub struct ExThreadRng(rand::rngs::ThreadRng);

/// `rand::rng()`: a handle to the thread-local generator.
#[verifier::external_body]
fn thread_rng() -> rand::rngs::ThreadRng {
    rand::rng()
}

/// `SliceRandom::shuffle`: rearranges `v` in a random order. Whatever the
/// order, it holds the same elements as many times each.
#[verifier::external_body]
fn shuffle<T>(v: &mut Vec<T>, rng: &mut rand::rngs::ThreadRng)
    ensures
        final(v)@.to_multiset() == old(v)@.to_multiset(),
{
    v.as_mut_slice().shuffle(rng);
}

/// Two sequences with the same multiset hold the same elements, and one is
/// duplicate-free when the other is.
proof fn lemma_same_multiset(a: Seq<usize>, b: Seq<usize>)
    requires
        a.to_multiset() == b.to_multiset(),
    ensures
        a.len() == b.len(),
        forall|x: usize| a.contains(x) <==> b.contains(x),
        a.no_duplicates() ==> b.no_duplicates(),
{
    assert forall|x: usize| a.contains(x) <==> b.contains(x) by {
        assert(a.contains(x) <==> a.to_multiset().count(x) > 0);
        assert(b.contains(x) <==> b.to_multiset().count(x) > 0);
    }
    assert(a.len() == a.to_multiset().len());
    assert(b.len() == b.to_multiset().len());
    if a.no_duplicates() {
        a.lemma_multiset_has_no_duplicates();
        b.lemma_multiset_has_no_duplicates_conv();
    }
}

// ---------------------------------------------------------------------------
// Building a play order
// ---------------------------------------------------------------------------

/// How many entries of `s` are set.
pub open spec fn count_set(s: Seq<bool>) -> nat
    decreases s.len(),
{
    if s.len() == 0 {
        0
    } else {
        count_set(s.drop_last()) + if s.last() {
            1nat
        } else {
            0nat
        }
    }
}

proof fn lemma_count_set_flip(s: Seq<bool>, x: int)
    requires
        0 <= x < s.len(),
        !s[x],
    ensures
        count_set(s.update(x, true)) == count_set(s) + 1,
    decreases s.len(),
{
    let t = s.update(x, true);
    if x == s.len() - 1 {
        assert(t.drop_last() =~= s.drop_last());
    } else {
        lemma_count_set_flip(s.drop_last(), x);
        assert(t.drop_last() =~= s.drop_last().update(x, true));
    }
}

proof fn lemma_count_set_full(s: Seq<bool>)
    requires
        forall|i: int| 0 <= i < s.len() ==> s[i],
    ensures
        count_set(s) == s.len(),
    decreases s.len(),
{
    if s.len() > 0 {
        lemma_count_set_full(s.drop_last());
    }
}

proof fn lemma_count_set_none(n: nat)
    ensures
        count_set(Seq::new(n, |i: int| false)) == 0,
    decreases n,
{
    if n > 0 {
        assert(Seq::new(n, |i: int| false).drop_last() =~= Seq::new((n - 1) as nat, |i: int| false));
        lemma_count_set_none((n - 1) as nat);
    }
}

/// `out` lists, once each, exactly the indices marked in `seen`.
spec fn placed(out: Seq<usize>, seen: Seq<bool>) -> bool {
    &&& out.no_duplicates()
    &&& forall|x: usize| out.contains(x) <==> (x < seen.len() && seen[x as int])
    &&& out.len() == count_set(seen)
}

/// Appends `x` to `out` unless it is already there.
fn place(out: &mut Vec<usize>, seen: &mut Vec<bool>, x: usize)
    requires
        placed(old(out)@, old(seen)@),
        x < old(seen)@.len(),
    ensures
        placed(final(out)@, final(seen)@),
        final(seen)@ == old(seen)@.update(x as int, true),
        old(seen)@[x as int] ==> final(out)@ == old(out)@,
        !old(seen)@[x as int] ==> final(out)@ == old(out)@.push(x),
{
    if !seen[x] {
        proof {
            lemma_count_set_flip(seen@, x as int);
        }
        let ghost o = out@;
        let ghost s0 = seen@;
        out.push(x);
        seen.set(x, true);
        assert forall|y: usize| out@.contains(y) <==> (y < seen@.len() && seen@[y as int]) by {
            if y == x {
                assert(out@[out@.len() - 1] == x);
            } else if out@.contains(y) {
                let k = choose|k: int| 0 <= k < out@.len() && out@[k] == y;
                assert(o[k] == y);
                assert(o.contains(y));
            } else if y < seen@.len() && seen@[y as int] {
                assert(s0[y as int]);
                assert(o.contains(y));
                let k = choose|k: int| 0 <= k < o.len() && o[k] == y;
                assert(out@[k] == y);
            }
        }
        assert(out@.no_duplicates()) by {
            assert(!o.contains(x));
            assert forall|i: int, j: int| 0 <= i < out@.len() && 0 <= j < out@.len() && i != j
                implies out@[i] != out@[j] by {
                if i == o.len() {
                    assert(o.contains(out@[j]));
                } else if j == o.len() {
                    assert(o.contains(out@[i]));
                }
            }
        }
    }
}

/// Whether the group keys of the mode come from albums (else artists).
spec fn groups_by_album(mode: ShuffleMode) -> bool {
    mode == ShuffleMode::InsideAlbum || mode == ShuffleMode::Albums
}

/// The grouped shuffles: the current item, then the rest of its own group,
/// then every other group. `Albums`/`Artists` shuffle which group comes
/// next and keep each group's own order; `InsideAlbum` keeps the groups in
/// playlist order and shuffles the order inside each.
fn grouped_order(
    items: &Vec<PlayItem>,
    current_real: Option<usize>,
    by_album: bool,
    shuffle_groups: bool,
    shuffle_within: bool,
    rng: &mut rand::rngs::ThreadRng,
) -> (o: Vec<usize>)
    requires
        current_real matches Some(c) ==> c < items@.len(),
    ensures
        is_perm(o@, items@.len()),
        current_real matches Some(c) ==> o@[0] == c,
{
    let n = items.len();
    let mut keys: Vec<String> = Vec::new();
    let mut i: usize = 0;
    while i < n
        invariant
            i <= n == items@.len(),
            keys@.len() == i,
        decreases n - i,
    {
        let k = if by_album {
            album_key_of(&items[i])
        } else {
            artist_key_of(&items[i])
        };
        keys.push(k);
        i += 1;
    }
    // Groups in order of first appearance, the current item left out.
    let mut group_keys: Vec<String> = Vec::new();
    let mut groups: Vec<Vec<usize>> = Vec::new();
    i = 0;
    while i < n
        invariant
            i <= n == items@.len() == keys@.len(),
            group_keys@.len() == groups@.len(),
            forall|g: int, j: int|
                0 <= g < groups@.len() && 0 <= j < groups@[g]@.len() ==> #[trigger] groups@[g]@[j]
                    < n,
        decreases n - i,
    {
        if current_real != Some(i) {
            let mut g: usize = 0;
            let mut found = false;
            while g < group_keys.len() && !found
                invariant
                    g <= group_keys@.len(),
                    found ==> g < group_keys@.len(),
                    i < keys@.len(),
                decreases group_keys@.len() - g + (if found {
                    0int
                } else {
                    1int
                }),
            {
                if group_keys[g] == keys[i] {
                    found = true;
                } else {
                    g += 1;
                }
            }
            if found {
                let mut gv = groups[g].clone();
                gv.push(i);
                groups.set(g, gv);
            } else {
                group_keys.push(keys[i].clone());
                let mut gv: Vec<usize> = Vec::new();
                gv.push(i);
                groups.push(gv);
            }
        }
        i += 1;
    }
    let ng = groups.len();
    if shuffle_within {
        let mut k: usize = 0;
        while k < ng
            invariant
                k <= ng == groups@.len(),
                forall|g: int, j: int|
                    0 <= g < groups@.len() && 0 <= j < groups@[g]@.len() ==> #[trigger] groups@[g]@[j]
                        < n,
            decreases ng - k,
        {
            let mut gv = groups[k].clone();
            let ghost before = gv@;
            shuffle(&mut gv, rng);
            proof {
                lemma_same_multiset(before, gv@);
                assert forall|j: int| 0 <= j < gv@.len() implies #[trigger] gv@[j] < n by {
                    assert(gv@.contains(gv@[j]));
                    assert(before.contains(gv@[j]));
                }
            }
            groups.set(k, gv);
            k += 1;
        }
    }
    let mut group_order = identity_order(ng);
    if shuffle_groups {
        let ghost before = group_order@;
        shuffle(&mut group_order, rng);
        proof {
            lemma_same_multiset(before, group_order@);
            lemma_perm_elements(before, ng as nat);
            assert forall|j: int| 0 <= j < group_order@.len() implies #[trigger] group_order@[j]
                < ng by {
                assert(group_order@.contains(group_order@[j]));
                assert(before.contains(group_order@[j]));
            }
        }
    } else {
        proof {
            lemma_perm_elements(group_order@, ng as nat);
        }
    }
    // The current item first, then its own group, then the others.
    let mut out: Vec<usize> = Vec::new();
    let mut seen: Vec<bool> = Vec::new();
    i = 0;
    while i < n
        invariant
            i <= n,
            seen@.len() == i,
            forall|j: int| 0 <= j < i ==> !seen@[j],
        decreases n - i,
    {
        seen.push(false);
        i += 1;
    }
    proof {
        assert(seen@ =~= Seq::new(n as nat, |i: int| false));
        lemma_count_set_none(n as nat);
    }
    let mut current_group: Option<usize> = None;
    if let Some(c) = current_real {
        place(&mut out, &mut seen, c);
        let mut g: usize = 0;
        while g < group_keys.len()
            invariant
                g <= group_keys@.len(),
                c < keys@.len(),
            decreases group_keys@.len() - g,
        {
            if group_keys[g] == keys[c] {
                current_group = Some(g);
                break;
            }
            g += 1;
        }
    }
    assert(current_real matches Some(c) ==> out@.len() == 1 && out@[0] == c);
    if let Some(g) = current_group {
        if g < groups.len() {
            let mut j: usize = 0;
            while j < groups[g].len()
                invariant
                    g < groups@.len(),
                    j <= groups@[g as int]@.len(),
                    seen@.len() == n,
                    placed(out@, seen@),
                    forall|gg: int, jj: int|
                        0 <= gg < groups@.len() && 0 <= jj < groups@[gg]@.len()
                            ==> #[trigger] groups@[gg]@[jj] < n,
                    current_real matches Some(c) ==> out@.len() >= 1 && out@[0] == c,
                decreases groups@[g as int]@.len() - j,
            {
                let x = groups[g][j];
                assert(groups@[g as int]@[j as int] < n);
                place(&mut out, &mut seen, x);
                j += 1;
            }
        }
    }
    let mut k: usize = 0;
    while k < ng
        invariant
            k <= ng == groups@.len() == group_order@.len(),
            seen@.len() == n,
            placed(out@, seen@),
            forall|j: int| 0 <= j < group_order@.len() ==> #[trigger] group_order@[j] < ng,
            forall|gg: int, jj: int|
                0 <= gg < groups@.len() && 0 <= jj < groups@[gg]@.len() ==> #[trigger] groups@[gg]@[jj]
                    < n,
            current_real matches Some(c) ==> out@.len() >= 1 && out@[0] == c,
        decreases ng - k,
    {
        let g = group_order[k];
        if current_group != Some(g) {
            let mut j: usize = 0;
            while j < groups[g].len()
                invariant
                    g < groups@.len(),
                    j <= groups@[g as int]@.len(),
                    seen@.len() == n,
                    placed(out@, seen@),
                    forall|gg: int, jj: int|
                        0 <= gg < groups@.len() && 0 <= jj < groups@[gg]@.len()
                            ==> #[trigger] groups@[gg]@[jj] < n,
                    current_real matches Some(c) ==> out@.len() >= 1 && out@[0] == c,
                decreases groups@[g as int]@.len() - j,
            {
                let x = groups[g][j];
                place(&mut out, &mut seen, x);
                j += 1;
            }
        }
        k += 1;
    }
    // Any index no group placed is appended in playlist order.
    i = 0;
    while i < n
        invariant
            i <= n,
            seen@.len() == n,
            placed(out@, seen@),
            forall|j: int| 0 <= j < i ==> seen@[j],
            current_real matches Some(c) ==> out@.len() >= 1 && out@[0] == c,
        decreases n - i,
    {
        place(&mut out, &mut seen, i);
        i += 1;
    }
    proof {
        lemma_count_set_full(seen@);
    }
    out
}

/// A fresh play order for `mode`: the identity when shuffle is off,
/// otherwise a shuffled permutation that starts with the current item.
fn build_play_order(items: &Vec<PlayItem>, mode: ShuffleMode, current_real: Option<usize>) -> (o:
    Vec<usize>)
    requires
        current_real matches Some(c) ==> c < items@.len(),
    ensures
        is_perm(o@, items@.len()),
        mode == ShuffleMode::Off ==> is_identity(o@, items@.len()),
        mode != ShuffleMode::Off ==> (current_real matches Some(c) ==> o@[0] == c),
{
    let n = items.len();
    match mode {
        ShuffleMode::Off => identity_order(n),
        ShuffleMode::All => {
            let mut rest: Vec<usize> = Vec::new();
            let mut i: usize = 0;
            while i < n
                invariant
                    i <= n,
                    rest@.no_duplicates(),
                    forall|r: usize| rest@.contains(r) <==> (r < i && current_real != Some(r)),
                    rest@.len() == i - (if current_real matches Some(c) && c < i {
                        1int
                    } else {
                        0int
                    }),
                decreases n - i,
            {
                if current_real != Some(i) {
                    let ghost r0 = rest@;
                    rest.push(i);
                    assert forall|r: usize| rest@.contains(r) <==> (r < i + 1 && current_real
                        != Some(r)) by {
                        if r == i {
                            assert(rest@[rest@.len() - 1] == i);
                        } else if rest@.contains(r) {
                            let k = choose|k: int| 0 <= k < rest@.len() && rest@[k] == r;
                            assert(r0[k] == r);
                            assert(r0.contains(r));
                        } else if r < i && current_real != Some(r) {
                            assert(r0.contains(r));
                            let k = choose|k: int| 0 <= k < r0.len() && r0[k] == r;
                            assert(rest@[k] == r);
                        }
                    }
                    assert(rest@.no_duplicates()) by {
                        assert(!r0.contains(i));
                        assert forall|a: int, b: int|
                            0 <= a < rest@.len() && 0 <= b < rest@.len() && a != b implies rest@[a]
                            != rest@[b] by {
                            if a == r0.len() {
                                assert(r0.contains(rest@[b]));
                            } else if b == r0.len() {
                                assert(r0.contains(rest@[a]));
                            }
                        }
                    }
                }
                i += 1;
            }
            let ghost before = rest@;
            let mut rng = thread_rng();
            shuffle(&mut rest, &mut rng);
            proof {
                lemma_same_multiset(before, rest@);
            }
            match current_real {
                Some(c) => {
                    let mut o: Vec<usize> = Vec::new();
                    o.push(c);
                    let ghost rs = rest@;
                    o.append(&mut rest);
                    proof {
                        let rest = rs;
                        assert(o@ =~= seq![c] + rest);
                        assert forall|x: usize| o@.contains(x) <==> x < n by {
                            if o@.contains(x) {
                                let k = choose|k: int| 0 <= k < o@.len() && o@[k] == x;
                                if k > 0 {
                                    assert(rest[k - 1] == x);
                                    assert(rest.contains(x));
                                    assert(before.contains(x));
                                }
                            }
                            if x < n {
                                if x == c {
                                    assert(o@[0] == c);
                                } else {
                                    assert(before.contains(x));
                                    assert(rest.contains(x));
                                    let k = choose|k: int| 0 <= k < rest.len() && rest[k] == x;
                                    assert(o@[k + 1] == x);
                                }
                            }
                        }
                        assert(o@.no_duplicates()) by {
                            assert(!rest.contains(c));
                            assert forall|a: int, b: int|
                                0 <= a < o@.len() && 0 <= b < o@.len() && a != b implies o@[a]
                                != o@[b] by {
                                if a == 0 {
                                    assert(rest[b - 1] == o@[b]);
                                } else if b == 0 {
                                    assert(rest[a - 1] == o@[a]);
                                } else {
                                    assert(rest[a - 1] == o@[a]);
                                    assert(rest[b - 1] == o@[b]);
                                }
                            }
                        }
                    }
                    o
                },
                None => rest,
            }
        },
        ShuffleMode::InsideAlbum => {
            let mut rng = thread_rng();
            grouped_order(items, current_real, true, false, true, &mut rng)
        },
        ShuffleMode::Albums => {
            let mut rng = thread_rng();
            grouped_order(items, current_real, true, true, false, &mut rng)
        },
        ShuffleMode::Artists => {
            let mut rng = thread_rng();
            grouped_order(items, current_real, false, true, false, &mut rng)
        },
    }
}

// ---------------------------------------------------------------------------
// The queue
// ---------------------------------------------------------------------------

/// The playback queue. `order` maps virtual positions (the order tracks
/// play in) to item indices; `current` and `history` are virtual positions.
pub struct PlaybackQueue {
    items: Vec<PlayItem>,
    order: Vec<usize>,
    current: Option<usize>,
    history: Vec<usize>,
    up_next: Vec<PlayItem>,
    shuffle_mode: ShuffleMode,
    repeat_mode: RepeatMode,
    stop_after_current: bool,
    current_uuid: Option<String>,
    current_song_id: Option<i64>,
    current_length: Option<i64>,
    scrobble_point: Option<u64>,
    scrobbled: bool,
    consecutive_errors: u32,
}

/// Where `pos` (a virtual position in `old_order`) points, in item
/// indices: an empty `old_order` means positions already are item indices.
pub open spec fn to_real(old_order: Seq<usize>, n: nat, pos: int) -> Option<int> {
    let idx = if old_order.len() == 0 {
        pos
    } else if 0 <= pos < old_order.len() {
        old_order[pos] as int
    } else {
        pos
    };
    if 0 <= idx < n {
        Some(idx)
    } else {
        None
    }
}

/// The item indices a list of virtual positions points to, dropping any
/// that point nowhere.
pub open spec fn reals_of(old_order: Seq<usize>, n: nat, h: Seq<usize>) -> Seq<usize>
    decreases h.len(),
{
    if h.len() == 0 {
        Seq::empty()
    } else {
        let rest = reals_of(old_order, n, h.drop_last());
        match to_real(old_order, n, h.last() as int) {
            Some(r) => rest.push(r as usize),
            None => rest,
        }
    }
}

/// The item indices that virtual positions `h` designate under `order`.
pub open spec fn resolved(order: Seq<usize>, h: Seq<usize>) -> Seq<usize> {
    h.map_values(|v: usize| order[v as int])
}

impl PlaybackQueue {
    pub closed spec fn items(&self) -> Seq<PlayItem> {
        self.items@
    }

    pub closed spec fn order(&self) -> Seq<usize> {
        self.order@
    }

    pub closed spec fn current(&self) -> Option<usize> {
        self.current
    }

    pub closed spec fn history(&self) -> Seq<usize> {
        self.history@
    }

    pub closed spec fn up_next(&self) -> Seq<PlayItem> {
        self.up_next@
    }

    pub closed spec fn shuffle(&self) -> ShuffleMode {
        self.shuffle_mode
    }

    pub closed spec fn repeat(&self) -> RepeatMode {
        self.repeat_mode
    }

    pub closed spec fn stops_after_current(&self) -> bool {
        self.stop_after_current
    }

    pub closed spec fn playing_uuid(&self) -> Option<Seq<char>> {
        match self.current_uuid {
            Some(u) => Some(u@),
            None => None,
        }
    }

    pub closed spec fn playing_song(&self) -> Option<i64> {
        self.current_song_id
    }

    pub closed spec fn playing_length(&self) -> Option<i64> {
        self.current_length
    }

    pub closed spec fn scrobble_at(&self) -> Option<u64> {
        self.scrobble_point
    }

    pub closed spec fn is_scrobbled(&self) -> bool {
        self.scrobbled
    }

    pub closed spec fn error_streak(&self) -> u32 {
        self.consecutive_errors
    }

    /// The queue's well-formedness: the play order is a permutation of the
    /// items (the identity while shuffle is off), and the current position
    /// and every history entry designate an item.
    pub open spec fn wf(&self) -> bool {
        &&& is_perm(self.order(), self.items().len())
        &&& self.shuffle() == ShuffleMode::Off ==> is_identity(self.order(), self.items().len())
        &&& self.current() matches Some(v) ==> v < self.items().len()
        &&& forall|i: int| 0 <= i < self.history().len() ==> #[trigger] self.history()[i] < self.items().len()
    }

    /// No uuid names two entries: among the items, among the "play next"
    /// entries, or one of each.
    pub open spec fn uuids_distinct(&self) -> bool {
        &&& forall|i: int, j: int|
            #![trigger self.items()[i], self.items()[j]]
            0 <= i < j < self.items().len() ==> self.items()[i].uuid@ != self.items()[j].uuid@
        &&& forall|i: int, j: int|
            #![trigger self.up_next()[i], self.up_next()[j]]
            0 <= i < j < self.up_next().len() ==> self.up_next()[i].uuid@ != self.up_next()[j].uuid@
        &&& forall|i: int, k: int|
            #![trigger self.items()[i], self.up_next()[k]]
            0 <= i < self.items().len() && 0 <= k < self.up_next().len() ==> self.items()[i].uuid@
                != self.up_next()[k].uuid@
    }

    /// When the item being played is one of the playlist's items, the
    /// current position designates exactly that item.
    pub open spec fn synced(&self) -> bool {
        forall|j: int|
            #![trigger self.items()[j]]
            0 <= j < self.items().len() && self.playing_uuid() == Some(self.items()[j].uuid@)
                && self.current() is Some ==> self.order()[self.current().unwrap() as int] == j
    }

    /// The item index at virtual position `v`.
    pub open spec fn resolve(&self, v: int) -> Option<int> {
        if 0 <= v < self.order().len() {
            Some(self.order()[v] as int)
        } else {
            None
        }
    }

    /// The item at virtual position `v` exists and can be played.
    pub open spec fn playable_at(&self, v: int) -> bool {
        &&& 0 <= v < self.order().len()
        &&& self.order()[v] < self.items().len()
        &&& playable(self.items()[self.order()[v] as int])
    }

    /// The other fields keep their values: everything but the order, the
    /// positions and the items.
    pub open spec fn same_settings(&self, other: &Self) -> bool {
        &&& self.shuffle() == other.shuffle()
        &&& self.repeat() == other.repeat()
        &&& self.stops_after_current() == other.stops_after_current()
        &&& self.playing_uuid() == other.playing_uuid()
        &&& self.playing_song() == other.playing_song()
        &&& self.playing_length() == other.playing_length()
        &&& self.scrobble_at() == other.scrobble_at()
        &&& self.is_scrobbled() == other.is_scrobbled()
        &&& self.error_streak() == other.error_streak()
    }

    /// An empty queue, shuffle and repeat off.
    pub fn new() -> (q: Self)
        ensures
            q.wf(),
            q.items().len() == 0,
            q.up_next().len() == 0,
            q.current() is None,
            q.history().len() == 0,
            q.shuffle() == ShuffleMode::Off,
            q.repeat() == RepeatMode::Off,
            !q.stops_after_current(),
            q.playing_uuid() is None,
            q.playing_song() is None,
            q.playing_length() is None,
            q.scrobble_at() is None,
            !q.is_scrobbled(),
            q.error_streak() == 0,
            q.synced(),
            q.uuids_distinct(),
    {
        let q = PlaybackQueue {
            items: Vec::new(),
            order: Vec::new(),
            current: None,
            history: Vec::new(),
            up_next: Vec::new(),
            shuffle_mode: ShuffleMode::Off,
            repeat_mode: RepeatMode::Off,
            stop_after_current: false,
            current_uuid: None,
            current_song_id: None,
            current_length: None,
            scrobble_point: None,
            scrobbled: false,
            consecutive_errors: 0,
        };
        proof {
            lemma_identity_is_perm(q.order@, 0);
        }
        q
    }

    /// Replaces the play order for the current shuffle mode, keeping the
    /// current position and the history on the same items.
    fn rebuild_order(&mut self)
        requires
            old(self).order().len() == 0 || is_perm(old(self).order(), old(self).items().len()),
            old(self).current() matches Some(v) ==> v < old(self).items().len(),
            forall|i: int|
                0 <= i < old(self).history().len() ==> #[trigger] old(self).history()[i] < old(self).items().len(),
        ensures
            final(self).wf(),
            final(self).items() == old(self).items(),
            final(self).up_next() == old(self).up_next(),
            final(self).same_settings(&old(self)),
            ({
                let n = old(self).items().len();
                let r = match old(self).current() {
                    Some(v) => to_real(old(self).order(), n, v as int),
                    None => None,
                };
                &&& r matches Some(ri) ==> (final(self).current() matches Some(v) && final(self).order()[v as int] == ri)
                &&& r is None ==> final(self).current() is None
                &&& (final(self).shuffle() != ShuffleMode::Off && r is Some) ==> final(self).current() == Some(0usize)
            }),
            resolved(final(self).order(), final(self).history()) == reals_of(
                old(self).order(),
                old(self).items().len(),
                old(self).history(),
            ),
    {
        let n = self.items.len();
        let ghost old_order = self.order@;
        let ghost old_hist = self.history@;
        if n == 0 {
            self.order = Vec::new();
            proof {
                lemma_identity_is_perm(self.order@, 0);
                assert(old_hist.len() == 0) by {
                    if old_hist.len() > 0 {
                        assert(old(self).history()[0] < old(self).items().len());
                    }
                }
                assert(self.history@.len() == 0);
                assert(resolved(self.order@, self.history@) =~= Seq::<usize>::empty());
            }
            return;
        }
        let current_real = match self.current {
            Some(v) => real_of(&self.order, n, v),
            None => None,
        };
        let mut played_real: Vec<usize> = Vec::new();
        let mut i: usize = 0;
        while i < self.history.len()
            invariant
                n == self.items@.len(),
                i <= self.history@.len(),
                self.history@ == old_hist,
                self.order@ == old_order,
                played_real@ == reals_of(old_order, n as nat, old_hist.take(i as int)),
                forall|k: int| 0 <= k < played_real@.len() ==> #[trigger] played_real@[k] < n,
            decreases self.history@.len() - i,
        {
            let r = real_of(&self.order, n, self.history[i]);
            assert(old_hist.take(i + 1).drop_last() =~= old_hist.take(i as int));
            if let Some(ri) = r {
                played_real.push(ri);
            }
            i += 1;
        }
        assert(old_hist.take(i as int) =~= old_hist);
        let order = build_play_order(&self.items, self.shuffle_mode, current_real);
        // inverse[r] is the virtual position of item r in `order`.
        let mut inverse: Vec<usize> = Vec::new();
        i = 0;
        while i < n
            invariant
                i <= n,
                inverse@.len() == i,
            decreases n - i,
        {
            inverse.push(0);
            i += 1;
        }
        i = 0;
        while i < n
            invariant
                i <= n == order@.len() == inverse@.len(),
                is_perm(order@, n as nat),
                forall|v: int| 0 <= v < i ==> #[trigger] inverse@[order@[v] as int] == v,
            decreases n - i,
        {
            proof {
                lemma_perm_elements(order@, n as nat);
            }
            let ghost before = inverse@;
            inverse.set(order[i], i);
            assert forall|v: int| 0 <= v < i + 1 implies #[trigger] inverse@[order@[v] as int]
                == v by {
                if v < i {
                    assert(order@[v] != order@[i as int]);
                    assert(before[order@[v] as int] == v);
                }
            }
            i += 1;
        }
        proof {
            lemma_perm_elements(order@, n as nat);
            assert forall|r: usize| r < n implies order@[#[trigger] inverse@[r as int] as int] == r
                && inverse@[r as int] < n by {
                assert(order@.contains(r));
                let v = choose|v: int| 0 <= v < order@.len() && order@[v] == r;
                assert(inverse@[order@[v] as int] == v);
            }
        }
        let new_current = match current_real {
            Some(r) => Some(inverse[r]),
            None => None,
        };
        let mut new_history: Vec<usize> = Vec::new();
        i = 0;
        while i < played_real.len()
            invariant
                i <= played_real@.len(),
                inverse@.len() == n == order@.len(),
                forall|k: int| 0 <= k < played_real@.len() ==> #[trigger] played_real@[k] < n,
                forall|r: usize| r < n ==> order@[#[trigger] inverse@[r as int] as int] == r
                    && inverse@[r as int] < n,
                new_history@.len() == i,
                forall|k: int| 0 <= k < i ==> #[trigger] new_history@[k] < n,
                forall|k: int| 0 <= k < i ==> order@[#[trigger] new_history@[k] as int] == played_real@[k],
            decreases played_real@.len() - i,
        {
            let r = played_real[i];
            assert(played_real@[i as int] < n);
            new_history.push(inverse[r]);
            i += 1;
        }
        proof {
            assert(resolved(order@, new_history@) =~= played_real@);
            if self.shuffle_mode != ShuffleMode::Off {
                if let Some(r) = current_real {
                    assert(order@[0] == r);
                    assert(inverse@[order@[0] as int] == 0) by {
                        assert(order@.no_duplicates());
                        let v = inverse@[r as int];
                        assert(order@[v as int] == r);
                    }
                }
            }
        }
        self.order = order;
        self.current = new_current;
        self.history = new_history;
    }
}

/// Where virtual position `pos` of `old_order` points (see `to_real`).
fn real_of(old_order: &Vec<usize>, n: usize, pos: usize) -> (r: Option<usize>)
    ensures
        r == (match to_real(old_order@, n as nat, pos as int) {
            Some(i) => Some(i as usize),
            None => None,
        }),
{
    let idx = if old_order.len() == 0 {
        pos
    } else if pos < old_order.len() {
        old_order[pos]
    } else {
        pos
    };
    if idx < n {
        Some(idx)
    } else {
        None
    }
}

// ---------------------------------------------------------------------------
// Navigation
// ---------------------------------------------------------------------------

/// What to start next, as a position.
pub enum Pick {
    /// Play the current track again.
    Replay,
    /// The item at this virtual position.
    Index(usize),
    /// The item at this position of the "play next" list.
    Queue(usize),
}

/// What to start next, with what the player needs to start it.
pub struct Target {
    pub song_id: i64,
    pub uuid: Option<String>,
    pub length_nanosec: Option<i64>,
    pub pick: Pick,
}

/// The outcome of an advance: start a track (`real_play` is false when the
/// audio is already playing it), or stop.
pub enum Step {
    Start { target: Target, real_play: bool },
    Stop,
}

/// The first playable entry of a list of items.
pub open spec fn first_playable(s: Seq<PlayItem>) -> Option<int>
    decreases s.len(),
{
    if s.len() == 0 {
        None
    } else if playable(s[0]) {
        Some(0)
    } else {
        match first_playable(s.drop_first()) {
            Some(i) => Some(i + 1),
            None => None,
        }
    }
}

proof fn lemma_first_playable(s: Seq<PlayItem>, i: int)
    requires
        0 <= i <= s.len(),
        forall|k: int| 0 <= k < i ==> !playable(#[trigger] s[k]),
    ensures
        i < s.len() && playable(s[i]) ==> first_playable(s) == Some(i),
        i == s.len() ==> first_playable(s) is None,
    decreases i,
{
    if i > 0 {
        let t = s.drop_first();
        assert(!playable(s[0]));
        assert forall|k: int| 0 <= k < i - 1 implies !playable(#[trigger] t[k]) by {
            assert(t[k] == s[k + 1]);
        }
        lemma_first_playable(t, i - 1);
    }
}

proof fn lemma_first_playable_bounds(s: Seq<PlayItem>)
    ensures
        first_playable(s) matches Some(i) ==> 0 <= i < s.len() && playable(s[i]) && forall|k: int|
            0 <= k < i ==> !playable(#[trigger] s[k]),
    decreases s.len(),
{
    if s.len() > 0 && !playable(s[0]) {
        let t = s.drop_first();
        lemma_first_playable_bounds(t);
        if let Some(j) = first_playable(t) {
            assert forall|k: int| 0 <= k < j + 1 implies !playable(#[trigger] s[k]) by {
                if k > 0 {
                    assert(s[k] == t[k - 1]);
                }
            }
        }
    }
}

impl PlaybackQueue {
    /// Walking `k` positions from `c`, wrapping around the play order: the
    /// first playable one.
    pub open spec fn scan(&self, c: int, k: nat) -> Option<int>
        decreases k,
    {
        if k == 0 {
            None
        } else if self.playable_at(c) {
            Some(c)
        } else {
            self.scan((c + 1) % (self.order().len() as int), (k - 1) as nat)
        }
    }

    /// The first playable position at or after `start`, wrapping around
    /// once; `None` when no item can be played.
    pub open spec fn playable_from(&self, start: int) -> Option<int> {
        if self.order().len() == 0 {
            None
        } else {
            self.scan(start % (self.order().len() as int), self.order().len())
        }
    }

    /// The position after the current one; past the end only under
    /// playlist repeat, which wraps to the start.
    pub open spec fn next_index(&self) -> Option<int> {
        let total = self.order().len();
        if total == 0 {
            None
        } else {
            match self.current() {
                None => None,
                Some(c) => if c + 1 < total {
                    Some(c + 1)
                } else if self.repeat() == RepeatMode::Playlist {
                    Some(0)
                } else {
                    None
                },
            }
        }
    }

    /// The album key of the item at virtual position `v`.
    pub open spec fn key_at(&self, v: int) -> Seq<char> {
        album_key(self.items()[self.order()[v] as int])
    }

    /// The first position in `[v, end)` whose item has album key `key`.
    pub open spec fn first_with_key(&self, key: Seq<char>, v: int, end: int) -> Option<int>
        decreases end - v,
    {
        if v >= end {
            None
        } else if self.key_at(v) == key {
            Some(v)
        } else {
            self.first_with_key(key, v + 1, end)
        }
    }

    /// Album repeat: the next position of the current item's album in play
    /// order, wrapping to the album's first position after its last.
    pub open spec fn album_next(&self) -> Option<int> {
        let total = self.order().len() as int;
        match self.current() {
            None => None,
            Some(c) => if total == 0 || c >= total {
                None
            } else {
                let key = self.key_at(c as int);
                match self.first_with_key(key, c + 1, total) {
                    Some(v) => Some(v),
                    None => self.first_with_key(key, 0, total),
                }
            },
        }
    }

    /// What plays when the current track ends on its own: nothing after a
    /// stop-after-current; the same track under track repeat; else the
    /// first playable "play next" entry; else the next playable position
    /// (within the album under album repeat; wrapping under playlist
    /// repeat, from the start when nothing is current).
    pub open spec fn natural_next(&self) -> Option<Pick> {
        if self.stops_after_current() {
            None
        } else if self.repeat() == RepeatMode::Track {
            if self.current() is Some && self.playing_song() is Some {
                Some(Pick::Replay)
            } else {
                None
            }
        } else if first_playable(self.up_next()) is Some {
            Some(Pick::Queue(first_playable(self.up_next()).unwrap() as usize))
        } else {
            let idx = if self.repeat() == RepeatMode::Album {
                self.album_next()
            } else if self.repeat() == RepeatMode::Playlist {
                Some(
                    match self.next_index() {
                        Some(i) => i,
                        None => 0,
                    },
                )
            } else {
                self.next_index()
            };
            match idx {
                None => None,
                Some(i) => match self.playable_from(i) {
                    Some(c) => Some(Pick::Index(c as usize)),
                    None => None,
                },
            }
        }
    }

    /// `t` carries what the queue holds for the pick `p`.
    pub open spec fn describes(&self, t: Target, p: Pick) -> bool {
        &&& t.pick == p
        &&& match p {
            Pick::Replay => {
                &&& Some(t.song_id) == self.playing_song()
                &&& match t.uuid {
                    Some(u) => self.playing_uuid() == Some(u@),
                    None => self.playing_uuid() is None,
                }
                &&& t.length_nanosec == self.playing_length()
            },
            Pick::Index(c) => {
                let it = self.items()[self.order()[c as int] as int];
                &&& c < self.order().len()
                &&& playable(it)
                &&& Some(t.song_id) == it.song_id
                &&& t.uuid matches Some(u) && u@ == it.uuid@
                &&& t.length_nanosec == it.length_nanosec
            },
            Pick::Queue(q) => {
                let it = self.up_next()[q as int];
                &&& q < self.up_next().len()
                &&& playable(it)
                &&& Some(t.song_id) == it.song_id
                &&& t.uuid matches Some(u) && u@ == it.uuid@
                &&& t.length_nanosec == it.length_nanosec
            },
        }
    }

    /// The first playable position at or after `start`, wrapping once.
    pub fn find_playable_from(&self, start: usize) -> (r: Option<usize>)
        requires
            self.wf(),
        ensures
            r matches Some(c) ==> self.playable_from(start as int) == Some(c as int),
            r is None ==> self.playable_from(start as int) is None,
    {
        let total = self.order.len();
        if total == 0 {
            return None;
        }
        let mut candidate = start % total;
        let mut k: usize = 0;
        proof {
            lemma_perm_elements(self.order@, self.items@.len());
        }
        while k < total
            invariant
                self.wf(),
                total == self.order@.len() > 0,
                k <= total,
                candidate < total,
                self.scan((start % total) as int, total as nat) == self.scan(
                    candidate as int,
                    (total - k) as nat,
                ),
            decreases total - k,
        {
            let item_ix = self.order[candidate];
            proof {
                lemma_perm_elements(self.order@, self.items@.len());
            }
            assert(self.order@[candidate as int] < self.items@.len());
            if is_item_playable(&self.items[item_ix]) {
                return Some(candidate);
            }
            candidate = (candidate + 1) % total;
            k += 1;
        }
        None
    }

    /// The position after the current one (see `next_index`).
    pub fn get_next_index(&self) -> (r: Option<usize>)
        requires
            self.wf(),
        ensures
            r matches Some(i) ==> self.next_index() == Some(i as int),
            r is None ==> self.next_index() is None,
    {
        let total = self.order.len();
        if total == 0 {
            return None;
        }
        match self.current {
            None => None,
            Some(c) => {
                if c + 1 < total {
                    Some(c + 1)
                } else if self.repeat_mode == RepeatMode::Playlist {
                    Some(0)
                } else {
                    None
                }
            },
        }
    }

    fn first_with_key_from(&self, key: &String, from: usize) -> (r: Option<usize>)
        requires
            self.wf(),
            from <= self.order@.len(),
        ensures
            r matches Some(v) ==> self.first_with_key(key@, from as int, self.order@.len() as int)
                == Some(v as int),
            r is None ==> self.first_with_key(key@, from as int, self.order@.len() as int) is None,
    {
        let total = self.order.len();
        let mut v = from;
        proof {
            lemma_perm_elements(self.order@, self.items@.len());
        }
        while v < total
            invariant
                self.wf(),
                from <= v <= total == self.order@.len(),
                self.first_with_key(key@, from as int, total as int) == self.first_with_key(
                    key@,
                    v as int,
                    total as int,
                ),
            decreases total - v,
        {
            proof {
                lemma_perm_elements(self.order@, self.items@.len());
            }
            assert(self.order@[v as int] < self.items@.len());
            let k = album_key_of(&self.items[self.order[v]]);
            if k == *key {
                return Some(v);
            }
            v += 1;
        }
        None
    }

    /// Album repeat's next position (see `album_next`).
    pub fn next_album_index(&self) -> (r: Option<usize>)
        requires
            self.wf(),
        ensures
            r matches Some(i) ==> self.album_next() == Some(i as int),
            r is None ==> self.album_next() is None,
    {
        let total = self.order.len();
        match self.current {
            None => None,
            Some(c) => {
                if total == 0 || c >= total {
                    return None;
                }
                proof {
                    lemma_perm_elements(self.order@, self.items@.len());
                }
                let key = album_key_of(&self.items[self.order[c]]);
                match self.first_with_key_from(&key, c + 1) {
                    Some(v) => Some(v),
                    None => self.first_with_key_from(&key, 0),
                }
            },
        }
    }

    /// The target the player would start for pick `p`.
    fn target_for(&self, p: Pick) -> (t: Target)
        requires
            self.wf(),
            match p {
                Pick::Replay => self.playing_song() is Some,
                Pick::Index(c) => c < self.order().len() && playable(
                    self.items()[self.order()[c as int] as int],
                ),
                Pick::Queue(q) => q < self.up_next().len() && playable(self.up_next()[q as int]),
            },
        ensures
            self.describes(t, p),
    {
        match p {
            Pick::Replay => {
                let uuid = match &self.current_uuid {
                    Some(u) => Some(u.clone()),
                    None => None,
                };
                Target {
                    song_id: self.current_song_id.unwrap(),
                    uuid,
                    length_nanosec: self.current_length,
                    pick: Pick::Replay,
                }
            },
            Pick::Index(c) => {
                proof {
                    lemma_perm_elements(self.order@, self.items@.len());
                }
                let it = &self.items[self.order[c]];
                Target {
                    song_id: it.song_id.unwrap(),
                    uuid: Some(it.uuid.clone()),
                    length_nanosec: it.length_nanosec,
                    pick: Pick::Index(c),
                }
            },
            Pick::Queue(q) => {
                let it = &self.up_next[q];
                Target {
                    song_id: it.song_id.unwrap(),
                    uuid: Some(it.uuid.clone()),
                    length_nanosec: it.length_nanosec,
                    pick: Pick::Queue(q),
                }
            },
        }
    }

    /// The first playable "play next" entry.
    fn first_playable_queued(&self) -> (r: Option<usize>)
        ensures
            r matches Some(i) ==> first_playable(self.up_next()) == Some(i as int),
            r is None ==> first_playable(self.up_next()) is None,
    {
        let mut i: usize = 0;
        while i < self.up_next.len()
            invariant
                i <= self.up_next@.len(),
                forall|k: int| 0 <= k < i ==> !playable(#[trigger] self.up_next@[k]),
            decreases self.up_next@.len() - i,
        {
            if is_item_playable(&self.up_next[i]) {
                proof {
                    lemma_first_playable(self.up_next@, i as int);
                }
                return Some(i);
            }
            i += 1;
        }
        proof {
            lemma_first_playable(self.up_next@, i as int);
        }
        None
    }

    /// What plays when the current track ends on its own, without changing
    /// anything (see `natural_next`).
    pub fn peek_next_natural(&self) -> (t: Option<Target>)
        requires
            self.wf(),
        ensures
            match self.natural_next() {
                Some(p) => t matches Some(tt) && self.describes(tt, p),
                None => t is None,
            },
    {
        if self.stop_after_current {
            return None;
        }
        if self.repeat_mode == RepeatMode::Track {
            if self.current.is_none() || self.current_song_id.is_none() {
                return None;
            }
            return Some(self.target_for(Pick::Replay));
        }
        if let Some(q) = self.first_playable_queued() {
            proof {
                lemma_first_playable_bounds(self.up_next@);
            }
            return Some(self.target_for(Pick::Queue(q)));
        }
        let idx = if self.repeat_mode == RepeatMode::Album {
            self.next_album_index()
        } else if self.repeat_mode == RepeatMode::Playlist {
            match self.get_next_index() {
                Some(i) => Some(i),
                None => Some(0),
            }
        } else {
            self.get_next_index()
        };
        match idx {
            None => None,
            Some(i) => match self.find_playable_from(i) {
                Some(c) => {
                    proof {
                        self.lemma_scan_result(i as int);
                    }
                    Some(self.target_for(Pick::Index(c)))
                },
                None => None,
            },
        }
    }

    proof fn lemma_scan_result(&self, start: int)
        requires
            self.wf(),
        ensures
            self.playable_from(start) matches Some(c) ==> self.playable_at(c),
    {
        if self.order().len() > 0 {
            self.lemma_scan_playable(start % (self.order().len() as int), self.order().len());
        }
    }

    proof fn lemma_scan_playable(&self, c: int, k: nat)
        ensures
            self.scan(c, k) matches Some(r) ==> self.playable_at(r),
        decreases k,
    {
        if k > 0 && !self.playable_at(c) {
            self.lemma_scan_playable((c + 1) % (self.order().len() as int), (k - 1) as nat);
        }
    }
}

// ---------------------------------------------------------------------------
// Starting and stopping
// ---------------------------------------------------------------------------

/// Half a track's length: where its play is recorded.
pub open spec fn scrobble_point_of(length: Option<i64>) -> Option<u64> {
    match length {
        Some(ns) => Some((ns as u64) / 2),
        None => None,
    }
}

pub open spec fn uuid_view(u: Option<String>) -> Option<Seq<char>> {
    match u {
        Some(s) => Some(s@),
        None => None,
    }
}

impl PlaybackQueue {
    /// `new` agrees with `prior` on the items, the order, the modes and the
    /// error streak.
    pub open spec fn same_frame(&self, prior: &Self) -> bool {
        &&& self.items() == prior.items()
        &&& self.order() == prior.order()
        &&& self.shuffle() == prior.shuffle()
        &&& self.repeat() == prior.repeat()
        &&& self.error_streak() == prior.error_streak()
    }

    /// `self` is `prior` after stopping: nothing is loaded as playing any
    /// more (the position in the playlist stays). The "play next" list is
    /// left to the caller's clauses.
    pub open spec fn stopped_from(&self, prior: &Self) -> bool {
        &&& self.same_frame(prior)
        &&& self.current() == prior.current()
        &&& self.history() == prior.history()
        &&& self.playing_uuid() is None
        &&& self.playing_song() is None
        &&& self.playing_length() is None
        &&& self.scrobble_at() == prior.scrobble_at()
        &&& self.is_scrobbled() == prior.is_scrobbled()
    }

    /// `self` is `prior` after starting `t`: its play point is re-armed and,
    /// for a playlist position, the position becomes current and joins the
    /// history once. The "play next" list is left to the caller's clauses.
    pub open spec fn started_from(&self, prior: &Self, t: Target) -> bool {
        self.started_with(prior, prior.history(), t)
    }

    /// As `started_from`, with `base` as the history before the start.
    pub open spec fn started_with(&self, prior: &Self, base: Seq<usize>, t: Target) -> bool {
        &&& self.same_frame(prior)
        &&& self.scrobble_at() == scrobble_point_of(t.length_nanosec)
        &&& !self.is_scrobbled()
        &&& match t.pick {
            Pick::Replay => {
                &&& self.current() == prior.current()
                &&& self.history() == base
                &&& self.playing_uuid() == prior.playing_uuid()
                &&& self.playing_song() == prior.playing_song()
                &&& self.playing_length() == prior.playing_length()
            },
            Pick::Index(c) => {
                &&& self.current() == Some(c)
                &&& self.history() == (if base.contains(c) {
                    base
                } else {
                    base.push(c)
                })
                &&& self.playing_uuid() == uuid_view(t.uuid)
                &&& self.playing_song() == Some(t.song_id)
                &&& self.playing_length() == t.length_nanosec
            },
            Pick::Queue(_) => {
                &&& self.current() == prior.current()
                &&& self.history() == base
                &&& self.playing_uuid() == uuid_view(t.uuid)
                &&& self.playing_song() == Some(t.song_id)
                &&& self.playing_length() == t.length_nanosec
            },
        }
    }

    /// Playing the first playable position from `idx` (or stopping when
    /// there is none or `idx` is `None`), with `r` the outcome.
    pub open spec fn index_step(&self, prior: &Self, r: Step, idx: Option<int>) -> bool {
        &&& self.stops_after_current() == prior.stops_after_current()
        &&& match idx {
            None => r is Stop && self.stopped_from(prior),
            Some(i) => match prior.playable_from(i) {
                None => r is Stop && self.stopped_from(prior),
                Some(c) => match r {
                    Step::Start { target, real_play } => real_play && prior.describes(
                        target,
                        Pick::Index(c as usize),
                    ) && self.started_from(prior, target),
                    Step::Stop => false,
                },
            },
        }
    }

    /// A manual Next from `prior`: the first playable "play next" entry if
    /// there is one (the entries before it and it leave the list), else the
    /// list is emptied and playback moves to the next playable position.
    pub open spec fn next_step(&self, prior: &Self, r: Step) -> bool {
        match first_playable(prior.up_next()) {
            Some(q) => match r {
                Step::Start { target, real_play } => {
                    &&& real_play
                    &&& prior.describes(target, Pick::Queue(q as usize))
                    &&& self.started_from(prior, target)
                    &&& self.stops_after_current() == prior.stops_after_current()
                    &&& self.up_next() == prior.up_next().skip(q + 1)
                },
                Step::Stop => false,
            },
            None => {
                &&& self.up_next().len() == 0
                &&& self.index_step(prior, r, prior.next_index())
            },
        }
    }

    /// Starting what `t` describes leaves the current position on the item
    /// being played: a playlist position designates the started item, and a
    /// "play next" entry is no playlist item.
    proof fn lemma_started_synced(&self, prior: &Self, base: Seq<usize>, t: Target)
        requires
            prior.wf(),
            prior.uuids_distinct(),
            prior.describes(t, t.pick),
            self.started_with(prior, base, t),
            t.pick is Replay ==> prior.synced(),
        ensures
            self.synced(),
    {
        match t.pick {
            Pick::Replay => {},
            Pick::Index(c) => {
                lemma_perm_elements(prior.order(), prior.items().len());
                let r = prior.order()[c as int] as int;
                assert(0 <= r < prior.items().len());
                assert forall|j: int|
                    0 <= j < self.items().len() && self.playing_uuid() == Some(
                        #[trigger] self.items()[j].uuid@,
                    ) && self.current() is Some implies self.order()[self.current().unwrap() as int]
                    == j by {
                    if j != r {
                        if j < r {
                            assert(prior.items()[j].uuid@ != prior.items()[r].uuid@);
                        } else {
                            assert(prior.items()[r].uuid@ != prior.items()[j].uuid@);
                        }
                    }
                }
            },
            Pick::Queue(q) => {
                assert forall|j: int|
                    0 <= j < self.items().len() && self.playing_uuid() == Some(
                        #[trigger] self.items()[j].uuid@,
                    ) && self.current() is Some implies self.order()[self.current().unwrap() as int]
                    == j by {
                    assert(prior.items()[j].uuid@ != prior.up_next()[q as int].uuid@);
                }
            },
        }
    }

    fn start(&mut self, t: &Target)
        requires
            old(self).wf(),
            old(self).describes(*t, t.pick),
            t.pick matches Pick::Queue(q) ==> first_playable(old(self).up_next()) == Some(q as int),
        ensures
            final(self).wf(),
            final(self).started_from(&old(self), *t),
            final(self).stops_after_current() == old(self).stops_after_current(),
            match t.pick {
                Pick::Queue(q) => final(self).up_next() == old(self).up_next().skip(q + 1),
                _ => final(self).up_next() == old(self).up_next(),
            },
            old(self).uuids_distinct() && (t.pick is Replay ==> old(self).synced()) ==> final(self).synced(),
    {
        self.scrobble_point = match t.length_nanosec {
            Some(ns) => Some(#[verifier::truncate] (ns as u64) / 2),
            None => None,
        };
        self.scrobbled = false;
        match t.pick {
            Pick::Replay => {},
            Pick::Index(c) => {
                self.current_song_id = Some(t.song_id);
                self.current_uuid = match &t.uuid {
                    Some(u) => Some(u.clone()),
                    None => None,
                };
                self.current_length = t.length_nanosec;
                self.current = Some(c);
                if !vec_contains(&self.history, c) {
                    let ghost h0 = self.history@;
                    self.history.push(c);
                    assert forall|i: int| 0 <= i < self.history@.len() implies #[trigger] self.history@[i]
                        < self.items@.len() by {
                        if i < h0.len() {
                            assert(old(self).history()[i] < old(self).items().len());
                        }
                    }
                }
            },
            Pick::Queue(q) => {
                // Drop the unplayable entries ahead of it, then the entry itself.
                proof {
                    lemma_first_playable_bounds(self.up_next@);
                }
                let mut rest: Vec<PlayItem> = Vec::new();
                let un = self.up_next.len();
                assert(q < un);
                let mut i: usize = q + 1;
                while i < self.up_next.len()
                    invariant
                        q < self.up_next@.len(),
                        q + 1 <= i <= self.up_next@.len(),
                        rest@ == self.up_next@.subrange(q + 1, i as int),
                    decreases self.up_next@.len() - i,
                {
                    rest.push(self.up_next[i].duplicate());
                    i += 1;
                }
                assert(rest@ =~= self.up_next@.skip(q + 1));
                self.up_next = rest;
                self.current_song_id = Some(t.song_id);
                self.current_uuid = match &t.uuid {
                    Some(u) => Some(u.clone()),
                    None => None,
                };
                self.current_length = t.length_nanosec;
            },
        }
        proof {
            self.lemma_wf_frame(&old(self));
            assert(self.started_from(&old(self), *t));
            if old(self).uuids_distinct() && (t.pick is Replay ==> old(self).synced()) {
                self.lemma_started_synced(&old(self), old(self).history(), *t);
            }
        }
    }

    /// Stops: nothing is loaded as playing any more.
    pub fn stop(&mut self)
        requires
            old(self).wf(),
        ensures
            final(self).wf(),
            final(self).stopped_from(&old(self)),
            final(self).stops_after_current() == old(self).stops_after_current(),
            final(self).up_next() == old(self).up_next(),
            final(self).synced(),
    {
        self.current_uuid = None;
        self.current_song_id = None;
        self.current_length = None;
        proof {
            self.lemma_wf_frame(&old(self));
        }
    }

    proof fn lemma_wf_frame(&self, prior: &Self)
        requires
            prior.wf(),
            self.items() == prior.items(),
            self.order() == prior.order(),
            self.shuffle() == prior.shuffle(),
            self.current() == prior.current() || (self.current() matches Some(v) && v < self.items().len()),
            self.history() == prior.history() || forall|i: int|
                0 <= i < self.history().len() ==> #[trigger] self.history()[i] < self.items().len(),
        ensures
            self.wf(),
    {
        if self.history() == prior.history() {
            assert forall|i: int| 0 <= i < self.history().len() implies #[trigger] self.history()[i]
                < self.items().len() by {
                assert(prior.history()[i] < prior.items().len());
            }
        }
    }

    proof fn lemma_scan_frame(&self, other: &Self, c: int, k: nat)
        requires
            self.items() == other.items(),
            self.order() == other.order(),
        ensures
            self.scan(c, k) == other.scan(c, k),
        decreases k,
    {
        if k > 0 {
            self.lemma_scan_frame(other, (c + 1) % (self.order().len() as int), (k - 1) as nat);
        }
    }

    proof fn lemma_playable_from_frame(&self, other: &Self)
        requires
            self.items() == other.items(),
            self.order() == other.order(),
        ensures
            forall|i: int| #[trigger] self.playable_from(i) == other.playable_from(i),
    {
        assert forall|i: int| #[trigger] self.playable_from(i) == other.playable_from(i) by {
            if self.order().len() > 0 {
                self.lemma_scan_frame(other, i % (self.order().len() as int), self.order().len());
            }
        }
    }

    /// Plays the first playable position at or after `index` (wrapping),
    /// or stops when nothing in the playlist can be played.
    pub fn play_at_index(&mut self, index: usize) -> (r: Step)
        requires
            old(self).wf(),
        ensures
            final(self).wf(),
            final(self).index_step(&old(self), r, Some(index as int)),
            final(self).up_next() == old(self).up_next(),
            old(self).uuids_distinct() ==> final(self).synced(),
    {
        match self.find_playable_from(index) {
            None => {
                self.stop();
                Step::Stop
            },
            Some(c) => {
                proof {
                    self.lemma_scan_result(index as int);
                }
                let t = self.target_for(Pick::Index(c));
                self.start(&t);
                Step::Start { target: t, real_play: true }
            },
        }
    }

    /// Manual Next: drains the "play next" list first (skipping entries that
    /// cannot be played), then advances in the playlist, stopping at the
    /// end unless playlist repeat wraps.
    pub fn next_track(&mut self) -> (r: Step)
        requires
            old(self).wf(),
        ensures
            final(self).wf(),
            final(self).next_step(&old(self), r),
            old(self).uuids_distinct() ==> final(self).synced(),
    {
        match self.first_playable_queued() {
            Some(q) => {
                proof {
                    lemma_first_playable_bounds(self.up_next@);
                }
                let t = self.target_for(Pick::Queue(q));
                self.start(&t);
                Step::Start { target: t, real_play: true }
            },
            None => {
                self.up_next = Vec::new();
                proof {
                    self.lemma_wf_frame(&old(self));
                    self.lemma_playable_from_frame(&old(self));
                }
                match self.get_next_index() {
                    Some(idx) => self.play_at_index(idx),
                    None => {
                        self.stop();
                        Step::Stop
                    },
                }
            },
        }
    }
}

/// `v` holds `x`.
pub fn vec_contains(v: &Vec<usize>, x: usize) -> (b: bool)
    ensures
        b == v@.contains(x),
{
    let mut i: usize = 0;
    while i < v.len()
        invariant
            i <= v@.len(),
            forall|k: int| 0 <= k < i ==> v@[k] != x,
        decreases v@.len() - i,
    {
        if v[i] == x {
            assert(v@[i as int] == x);
            return true;
        }
        i += 1;
    }
    false
}

// ---------------------------------------------------------------------------
// Previous, natural advance, gapless hand-over
// ---------------------------------------------------------------------------

impl PlaybackQueue {
    /// Popping `h` from its end: the first entry that is not the current
    /// position and can be played, and what is left of `h` below it (all
    /// of it popped when there is none).
    pub open spec fn history_pick(&self, h: Seq<usize>) -> (Option<usize>, Seq<usize>)
        decreases h.len(),
    {
        if h.len() == 0 {
            (None, h)
        } else {
            let p = h.last();
            let rest = h.drop_last();
            if Some(p) == self.current() {
                self.history_pick(rest)
            } else if self.playable_at(p as int) {
                (Some(p), rest)
            } else {
                self.history_pick(rest)
            }
        }
    }

    /// Walking back `k` positions from `c`: the first playable one, wrapping
    /// past the start only when `wrap`.
    pub open spec fn walk_back(&self, c: int, k: nat, wrap: bool) -> Option<int>
        decreases k,
    {
        if k == 0 {
            None
        } else if self.playable_at(c) {
            Some(c)
        } else if c == 0 {
            if wrap {
                self.walk_back(self.order().len() - 1, (k - 1) as nat, wrap)
            } else {
                None
            }
        } else {
            self.walk_back(c - 1, (k - 1) as nat, wrap)
        }
    }

    /// Previous in playlist order: the nearest playable position before the
    /// current one, wrapping past the start only under playlist repeat.
    pub open spec fn walk_target(&self) -> Option<int> {
        let len = self.order().len() as int;
        let wrap = self.repeat() == RepeatMode::Playlist;
        match self.current() {
            None => None,
            Some(cur) => if len == 0 {
                None
            } else if cur > 0 {
                self.walk_back(cur - 1, len as nat, wrap)
            } else if wrap {
                self.walk_back(len - 1, len as nat, wrap)
            } else {
                None
            },
        }
    }

    /// What Previous does from `prior`: while shuffling, walk back through
    /// the history (skipping the current position and unplayable entries,
    /// which leave the history); failing that, step back in play order.
    pub open spec fn previous_step(&self, prior: &Self, r: Option<Target>) -> bool {
        let (hp, base) = if prior.shuffle() != ShuffleMode::Off {
            prior.history_pick(prior.history())
        } else {
            (None, prior.history())
        };
        let dest = match hp {
            Some(p) => Some(p as int),
            None => prior.walk_target(),
        };
        &&& self.up_next() == prior.up_next()
        &&& self.stops_after_current() == prior.stops_after_current()
        &&& match dest {
            Some(c) => r matches Some(t) && prior.describes(t, Pick::Index(c as usize))
                && self.started_with(prior, base, t),
            None => {
                &&& r is None
                &&& self.same_frame(prior)
                &&& self.current() == prior.current()
                &&& self.history() == base
                &&& self.playing_uuid() == prior.playing_uuid()
                &&& self.playing_song() == prior.playing_song()
                &&& self.playing_length() == prior.playing_length()
                &&& self.scrobble_at() == prior.scrobble_at()
                &&& self.is_scrobbled() == prior.is_scrobbled()
            },
        }
    }

    /// The item at virtual position `v` exists and can be played.
    pub fn is_playable_at(&self, v: usize) -> (b: bool)
        requires
            self.wf(),
        ensures
            b == self.playable_at(v as int),
    {
        if v >= self.order.len() {
            return false;
        }
        proof {
            lemma_perm_elements(self.order@, self.items@.len());
        }
        is_item_playable(&self.items[self.order[v]])
    }

    proof fn lemma_playable_from_self(&self, p: int)
        requires
            self.wf(),
            self.playable_at(p),
        ensures
            self.playable_from(p) == Some(p),
    {
        let len = self.order().len() as int;
        assert(p % len == p) by (nonlinear_arith)
            requires
                0 <= p < len,
        ;
    }

    proof fn lemma_history_pick(&self, h: Seq<usize>)
        requires
            self.wf(),
            forall|i: int| 0 <= i < h.len() ==> #[trigger] h[i] < self.items().len(),
        ensures
            ({
                let (hp, rest) = self.history_pick(h);
                &&& hp matches Some(p) ==> self.playable_at(p as int)
                &&& hp is None ==> rest.len() == 0
                &&& forall|i: int| 0 <= i < rest.len() ==> #[trigger] rest[i] < self.items().len()
            }),
        decreases h.len(),
    {
        if h.len() > 0 {
            let rest = h.drop_last();
            assert forall|i: int| 0 <= i < rest.len() implies #[trigger] rest[i] < self.items().len() by {
                assert(rest[i] == h[i]);
            }
            self.lemma_history_pick(rest);
        }
    }

    /// What Previous does keeps the current position on the played item.
    proof fn lemma_previous_synced(&self, prior: &Self, r: Option<Target>)
        requires
            prior.wf(),
            prior.synced(),
            prior.uuids_distinct(),
            self.previous_step(prior, r),
        ensures
            self.synced(),
    {
        let (hp, base) = if prior.shuffle() != ShuffleMode::Off {
            prior.history_pick(prior.history())
        } else {
            (None, prior.history())
        };
        let dest = match hp {
            Some(p) => Some(p as int),
            None => prior.walk_target(),
        };
        if let Some(c) = dest {
            self.lemma_started_synced(prior, base, r.unwrap());
        }
    }

    /// Previous: see `previous_step`. `None` when nothing is started.
    pub fn previous_track(&mut self) -> (r: Option<Target>)
        requires
            old(self).wf(),
        ensures
            final(self).wf(),
            final(self).previous_step(&old(self), r),
            old(self).synced() && old(self).uuids_distinct() ==> final(self).synced(),
    {
        let r = self.step_back();
        proof {
            if old(self).synced() && old(self).uuids_distinct() {
                self.lemma_previous_synced(&old(self), r);
            }
        }
        r
    }

    fn step_back(&mut self) -> (r: Option<Target>)
        requires
            old(self).wf(),
        ensures
            final(self).wf(),
            final(self).previous_step(&old(self), r),
    {
        if self.shuffle_mode != ShuffleMode::Off {
            proof {
                old(self).lemma_history_pick(old(self).history());
            }
            while self.history.len() > 0
                invariant
                    old(self).wf(),
                    self.wf(),
                    self.same_frame(&old(self)),
                    self.stops_after_current() == old(self).stops_after_current(),
                    self.current() == old(self).current(),
                    self.up_next() == old(self).up_next(),
                    self.playing_uuid() == old(self).playing_uuid(),
                    self.playing_song() == old(self).playing_song(),
                    self.playing_length() == old(self).playing_length(),
                    self.scrobble_at() == old(self).scrobble_at(),
                    self.is_scrobbled() == old(self).is_scrobbled(),
                    old(self).shuffle() != ShuffleMode::Off,
                    old(self).history_pick(old(self).history()) == old(self).history_pick(
                        self.history(),
                    ),
                decreases self.history@.len(),
            {
                let ghost h = self.history@;
                let prev = self.history.pop().unwrap();
                assert(self.history@ =~= h.drop_last());
                proof {
                    self.lemma_wf_frame(&old(self));
                }
                if Some(prev) == self.current {
                    continue;
                }
                if self.is_playable_at(prev) {
                    proof {
                        self.lemma_playable_from_self(prev as int);
                    }
                    let ghost mid = *self;
                    let step = self.play_at_index(prev);
                    match step {
                        Step::Start { target, real_play } => {
                            return Some(target);
                        },
                        Step::Stop => {
                            assert(false);
                            return None;
                        },
                    }
                }
            }
        }
        let ghost base = self.history@;
        proof {
            if old(self).shuffle() != ShuffleMode::Off {
                assert(base.len() == 0);
                assert(old(self).history_pick(base) == (None::<usize>, base));
            }
        }
        if let Some(current) = self.current {
            let len = self.items.len();
            if len == 0 {
                return None;
            }
            let wrap = self.repeat_mode == RepeatMode::Playlist;
            let mut candidate = if current > 0 {
                current - 1
            } else if wrap {
                len - 1
            } else {
                return None;
            };
            let mut k: usize = 0;
            while k < len
                invariant
                    old(self).wf(),
                    self.wf(),
                    self.same_frame(&old(self)),
                    self.stops_after_current() == old(self).stops_after_current(),
                    self.current() == old(self).current(),
                    self.up_next() == old(self).up_next(),
                    self.history() == base,
                    old(self).shuffle() != ShuffleMode::Off ==> old(self).history_pick(
                        old(self).history(),
                    ) == (None::<usize>, base),
                    old(self).shuffle() == ShuffleMode::Off ==> base == old(self).history(),
                    self.playing_uuid() == old(self).playing_uuid(),
                    self.playing_song() == old(self).playing_song(),
                    self.playing_length() == old(self).playing_length(),
                    self.scrobble_at() == old(self).scrobble_at(),
                    self.is_scrobbled() == old(self).is_scrobbled(),
                    len == self.items@.len() == self.order@.len(),
                    wrap == (self.repeat_mode == RepeatMode::Playlist),
                    k <= len,
                    candidate < len,
                    old(self).walk_target() == old(self).walk_back(
                        candidate as int,
                        (len - k) as nat,
                        wrap,
                    ),
                decreases len - k,
            {
                proof {
                    assert(self.playable_at(candidate as int) == old(self).playable_at(
                        candidate as int,
                    ));
                    assert(old(self).walk_back(candidate as int, (len - k) as nat, wrap) == (
                    if old(self).playable_at(candidate as int) {
                        Some(candidate as int)
                    } else if candidate == 0 {
                        if wrap {
                            old(self).walk_back(len - 1, (len - k - 1) as nat, wrap)
                        } else {
                            None
                        }
                    } else {
                        old(self).walk_back(candidate - 1, (len - k - 1) as nat, wrap)
                    }));
                }
                if self.is_playable_at(candidate) {
                    proof {
                        self.lemma_playable_from_self(candidate as int);
                    }
                    let step = self.play_at_index(candidate);
                    match step {
                        Step::Start { target, real_play } => {
                            return Some(target);
                        },
                        Step::Stop => {
                            assert(false);
                            return None;
                        },
                    }
                }
                if candidate == 0 {
                    if wrap {
                        candidate = len - 1;
                    } else {
                        return None;
                    }
                } else {
                    candidate -= 1;
                }
                k += 1;
            }
        }
        None
    }

    /// `t` starts `p`, the natural next pick of `prior`.
    pub open spec fn natural_step(&self, prior: &Self, r: Step, p: Pick, play: bool) -> bool {
        match r {
            Step::Start { target, real_play } => {
                &&& real_play == play
                &&& prior.describes(target, p)
                &&& self.started_from(prior, target)
                &&& self.stops_after_current() == prior.stops_after_current()
                &&& match p {
                    Pick::Queue(q) => self.up_next() == prior.up_next().skip(q + 1),
                    _ => self.up_next() == prior.up_next(),
                }
            },
            Step::Stop => false,
        }
    }

    /// Stopping because stop-after-current was set: the flag is cleared.
    pub open spec fn stop_after_step(&self, prior: &Self, r: Step) -> bool {
        &&& r is Stop
        &&& self.stopped_from(prior)
        &&& !self.stops_after_current()
        &&& self.up_next() == prior.up_next()
    }

    /// The song a pick plays.
    pub open spec fn song_of(&self, p: Pick) -> Option<i64> {
        match p {
            Pick::Replay => self.playing_song(),
            Pick::Index(c) => self.items()[self.order()[c as int] as int].song_id,
            Pick::Queue(q) => self.up_next()[q as int].song_id,
        }
    }

    /// The current track ended on its own: stop if asked to, else start
    /// the natural next pick, else advance as a manual Next would.
    pub fn on_track_finished(&mut self) -> (r: Step)
        requires
            old(self).wf(),
        ensures
            final(self).wf(),
            old(self).stops_after_current() ==> final(self).stop_after_step(&old(self), r),
            !old(self).stops_after_current() ==> match old(self).natural_next() {
                Some(p) => final(self).natural_step(&old(self), r, p, true),
                None => final(self).next_step(&old(self), r),
            },
            old(self).synced() && old(self).uuids_distinct() ==> final(self).synced(),
    {
        if self.stop_after_current {
            self.stop_after_current = false;
            proof {
                self.lemma_wf_frame(&old(self));
            }
            self.stop();
            return Step::Stop;
        }
        match self.peek_next_natural() {
            Some(t) => {
                proof {
                    lemma_first_playable_bounds(self.up_next@);
                }
                self.start(&t);
                Step::Start { target: t, real_play: true }
            },
            None => self.next_track(),
        }
    }

    /// The engine moved on to `started_song_id` without a gap: commit the
    /// natural next pick without starting playback when it is that song;
    /// otherwise proceed as at the end of a track.
    pub fn on_gapless_transition(&mut self, started_song_id: i64) -> (r: Step)
        requires
            old(self).wf(),
        ensures
            final(self).wf(),
            old(self).stops_after_current() ==> final(self).stop_after_step(&old(self), r),
            !old(self).stops_after_current() ==> match old(self).natural_next() {
                Some(p) => final(self).natural_step(
                    &old(self),
                    r,
                    p,
                    old(self).song_of(p) != Some(started_song_id),
                ),
                None => final(self).next_step(&old(self), r),
            },
            old(self).synced() && old(self).uuids_distinct() ==> final(self).synced(),
    {
        if self.stop_after_current {
            self.stop_after_current = false;
            proof {
                self.lemma_wf_frame(&old(self));
            }
            self.stop();
            return Step::Stop;
        }
        match self.peek_next_natural() {
            Some(t) => {
                if t.song_id == started_song_id {
                    proof {
                        lemma_first_playable_bounds(self.up_next@);
                    }
                    self.start(&t);
                    Step::Start { target: t, real_play: false }
                } else {
                    self.on_track_finished()
                }
            },
            None => self.on_track_finished(),
        }
    }
}

} // verus!

verus! {

// ---------------------------------------------------------------------------
// Modes, loading and appending
// ---------------------------------------------------------------------------

/// Positions `n, n+1, .., n+k-1`.
pub open spec fn range_from(n: nat, k: nat) -> Seq<usize> {
    Seq::new(k, |i: int| (n + i) as usize)
}

/// With a permutation as the old order, the old history resolves through
/// `to_real` exactly as through the order itself.
proof fn lemma_reals_resolved(order: Seq<usize>, n: nat, h: Seq<usize>)
    requires
        is_perm(order, n),
        forall|i: int| 0 <= i < h.len() ==> #[trigger] h[i] < n,
    ensures
        reals_of(order, n, h) == resolved(order, h),
    decreases h.len(),
{
    lemma_perm_elements(order, n);
    if h.len() > 0 {
        let t = h.drop_last();
        assert forall|i: int| 0 <= i < t.len() implies #[trigger] t[i] < n by {
            assert(t[i] == h[i]);
        }
        lemma_reals_resolved(order, n, t);
        let v = h.last();
        assert(h[h.len() - 1] < n);
        assert(to_real(order, n, v as int) == Some(order[v as int] as int));
        assert(resolved(order, h) =~= resolved(order, t).push(order[v as int]));
    }
}

impl PlaybackQueue {
    /// The item indices that the history designates, oldest first.
    pub open spec fn history_indices(&self) -> Seq<usize> {
        resolved(self.order(), self.history())
    }

    /// The items that Previous walks back through, oldest first.
    pub open spec fn history_items(&self) -> Seq<PlayItem> {
        self.history_indices().map_values(|r: usize| self.items()[r as int])
    }

    /// The item at the current position.
    pub open spec fn current_item(&self) -> Option<PlayItem> {
        match self.current() {
            Some(v) => Some(self.items()[self.order()[v as int] as int]),
            None => None,
        }
    }

    /// Switches the shuffle mode and builds a fresh play order for it. The
    /// current position stays on the same item (at the head of the order
    /// when shuffling) and the history designates the same items.
    pub fn set_shuffle_mode(&mut self, mode: ShuffleMode)
        requires
            old(self).wf(),
        ensures
            final(self).wf(),
            final(self).shuffle() == mode,
            final(self).items() == old(self).items(),
            final(self).up_next() == old(self).up_next(),
            final(self).repeat() == old(self).repeat(),
            final(self).stops_after_current() == old(self).stops_after_current(),
            final(self).playing_uuid() == old(self).playing_uuid(),
            final(self).playing_song() == old(self).playing_song(),
            final(self).playing_length() == old(self).playing_length(),
            final(self).scrobble_at() == old(self).scrobble_at(),
            final(self).is_scrobbled() == old(self).is_scrobbled(),
            final(self).error_streak() == old(self).error_streak(),
            final(self).current_item() == old(self).current_item(),
            mode != ShuffleMode::Off && old(self).current() is Some ==> final(self).current() == Some(0usize),
            final(self).history_indices() == old(self).history_indices(),
            final(self).history_items() == old(self).history_items(),
            old(self).synced() && old(self).uuids_distinct() ==> final(self).synced(),
    {
        proof {
            lemma_reals_resolved(self.order(), self.items().len(), self.history());
            lemma_perm_elements(self.order(), self.items().len());
        }
        self.shuffle_mode = mode;
        assert(self.history() == old(self).history());
        assert(self.items() == old(self).items());
        self.rebuild_order();
    }

    /// Sets the repeat mode; nothing else changes.
    pub fn set_repeat_mode(&mut self, mode: RepeatMode)
        requires
            old(self).wf(),
        ensures
            final(self).wf(),
            final(self).repeat() == mode,
            final(self).items() == old(self).items(),
            final(self).order() == old(self).order(),
            final(self).current() == old(self).current(),
            final(self).history() == old(self).history(),
            final(self).up_next() == old(self).up_next(),
            final(self).shuffle() == old(self).shuffle(),
            final(self).stops_after_current() == old(self).stops_after_current(),
            final(self).playing_uuid() == old(self).playing_uuid(),
            final(self).playing_song() == old(self).playing_song(),
            final(self).history_items() == old(self).history_items(),
            old(self).synced() ==> final(self).synced(),
    {
        self.repeat_mode = mode;
        proof {
            self.lemma_wf_frame(&old(self));
        }
    }

    /// Asks playback to stop when the current track ends.
    pub fn set_stop_after_current(&mut self, stop: bool)
        requires
            old(self).wf(),
        ensures
            final(self).wf(),
            final(self).stops_after_current() == stop,
            final(self).same_frame(&old(self)),
            final(self).current() == old(self).current(),
            final(self).history() == old(self).history(),
            final(self).up_next() == old(self).up_next(),
            final(self).playing_uuid() == old(self).playing_uuid(),
            old(self).synced() ==> final(self).synced(),
    {
        self.stop_after_current = stop;
        proof {
            self.lemma_wf_frame(&old(self));
        }
    }

    /// Loads `items` as the playlist with `start` (an item index) as the
    /// current position, dropping the history and the "play next" list,
    /// and builds the play order. Returns the virtual position to play:
    /// `start` itself with shuffle off; with shuffle on, the start item
    /// leads the order, so position 0.
    pub fn load(&mut self, items: Vec<PlayItem>, start: usize) -> (p: usize)
        requires
            old(self).wf(),
        ensures
            final(self).wf(),
            final(self).items() == items@,
            final(self).up_next().len() == 0,
            final(self).shuffle() == old(self).shuffle(),
            final(self).repeat() == old(self).repeat(),
            final(self).stops_after_current() == old(self).stops_after_current(),
            final(self).playing_uuid() == old(self).playing_uuid(),
            final(self).playing_song() == old(self).playing_song(),
            final(self).playing_length() == old(self).playing_length(),
            final(self).scrobble_at() == old(self).scrobble_at(),
            !final(self).is_scrobbled(),
            final(self).error_streak() == old(self).error_streak(),
            final(self).history().len() == 0,
            p == (if final(self).shuffle() == ShuffleMode::Off { start } else { 0 }),
            start < items@.len() ==> final(self).current() == Some(p) && final(self).order()[p as int]
                == start,
            start >= items@.len() ==> final(self).current() is None,
            (old(self).playing_uuid() matches Some(u) ==> uuid_absent(items@, u)) ==> final(self).synced(),
    {
        self.items = items;
        self.history = Vec::new();
        self.up_next = Vec::new();
        self.scrobbled = false;
        self.current = if start < self.items.len() {
            Some(start)
        } else {
            None
        };
        self.order = Vec::new();
        proof {
            assert(resolved(self.order@, self.history@) =~= Seq::<usize>::empty());
        }
        self.rebuild_order();
        proof {
            if self.history@.len() > 0 {
                assert(reals_of(Seq::<usize>::empty(), self.items@.len(), Seq::<usize>::empty())
                    =~= Seq::<usize>::empty());
                assert(resolved(self.order@, self.history@).len() == self.history@.len());
            }
            if start < self.items@.len() && self.shuffle_mode == ShuffleMode::Off {
                lemma_perm_elements(self.order@, self.items@.len());
            }
        }
        if self.shuffle_mode != ShuffleMode::Off {
            0
        } else {
            start
        }
    }

    /// Loads `items` and plays from `start` (an item index): see `load`
    /// and `play_at_index`.
    pub fn play_playlist(&mut self, items: Vec<PlayItem>, start: usize) -> (r: Step)
        requires
            old(self).wf(),
        ensures
            final(self).wf(),
            final(self).items() == items@,
            final(self).up_next().len() == 0,
            final(self).shuffle() == old(self).shuffle(),
            final(self).repeat() == old(self).repeat(),
            final(self).stops_after_current() == old(self).stops_after_current(),
            final(self).error_streak() == old(self).error_streak(),
            ({
                let p = if old(self).shuffle() == ShuffleMode::Off {
                    start as int
                } else {
                    0
                };
                &&& start < items@.len() ==> final(self).order()[p] == start
                &&& match final(self).playable_from(p) {
                    None => r is Stop && final(self).playing_song() is None,
                    Some(c) => {
                        let it = final(self).items()[final(self).order()[c] as int];
                        &&& r matches Step::Start { target, real_play } && real_play
                            && final(self).describes(target, Pick::Index(c as usize))
                        &&& final(self).current() == Some(c as usize)
                        &&& final(self).history() == seq![c as usize]
                        &&& final(self).playing_song() == it.song_id
                        &&& final(self).playing_uuid() == Some(it.uuid@)
                        &&& final(self).playing_length() == it.length_nanosec
                        &&& final(self).scrobble_at() == scrobble_point_of(it.length_nanosec)
                        &&& !final(self).is_scrobbled()
                    },
                }
            }),
            final(self).uuids_distinct() ==> final(self).synced(),
    {
        let p = self.load(items, start);
        let ghost mid = *self;
        let r = self.play_at_index(p);
        proof {
            self.lemma_playable_from_frame(&mid);
            if start < mid.items().len() {
                assert(self.order()[p as int] == start);
            }
            if let Some(c) = mid.playable_from(p as int) {
                assert(mid.history() =~= Seq::<usize>::empty());
                assert(!mid.history().contains(c as usize));
                assert(self.history() =~= seq![c as usize]);
                if r is Start {
                    let target = r->target;
                    assert(mid.describes(target, Pick::Index(c as usize)));
                    assert(self.started_from(&mid, target));
                    assert(self.items() == mid.items() && self.order() == mid.order());
                    assert(self.order@.len() == self.order.len());
                    mid.lemma_scan_result(p as int);
                    assert((c as usize) as int == c);
                    let it = self.items()[self.order()[c as int] as int];
                    assert(self.playing_song() == it.song_id);
                    assert(self.playing_uuid() == Some(it.uuid@));
                    assert(self.playing_length() == it.length_nanosec);
                    assert(self.scrobble_at() == scrobble_point_of(it.length_nanosec));
                    assert(!self.is_scrobbled());
                }
            }
        }
        r
    }

    /// Puts `item` at the end of the "play next" list.
    pub fn queue_next(&mut self, item: PlayItem)
        requires
            old(self).wf(),
        ensures
            final(self).wf(),
            final(self).up_next() == old(self).up_next().push(item),
            final(self).same_frame(&old(self)),
            final(self).current() == old(self).current(),
            final(self).history() == old(self).history(),
            final(self).stops_after_current() == old(self).stops_after_current(),
            final(self).playing_uuid() == old(self).playing_uuid(),
            old(self).synced() ==> final(self).synced(),
    {
        self.up_next.push(item);
        proof {
            self.lemma_wf_frame(&old(self));
        }
    }

    /// Appends `items` to the playlist. They join the play order at its end,
    /// in their own order, whatever the shuffle mode; positions and history
    /// are untouched.
    pub fn append_items(&mut self, items: Vec<PlayItem>)
        requires
            old(self).wf(),
            old(self).items().len() + items@.len() <= usize::MAX,
        ensures
            final(self).wf(),
            final(self).items() == old(self).items() + items@,
            final(self).order() == old(self).order() + range_from(
                old(self).items().len(),
                items@.len(),
            ),
            final(self).current() == old(self).current(),
            final(self).history() == old(self).history(),
            final(self).up_next() == old(self).up_next(),
            final(self).same_settings(&old(self)),
            final(self).current_item() == old(self).current_item(),
            final(self).history_items() == old(self).history_items(),
            old(self).synced() && (forall|k: int|
                0 <= k < items@.len() ==> old(self).playing_uuid() != Some(#[trigger] items@[k].uuid@))
                ==> final(self).synced(),
    {
        let n = self.items.len();
        let ghost added = items@;
        let mut more = items;
        let k = more.len();
        self.items.append(&mut more);
        let ghost o0 = self.order@;
        let mut extra: Vec<usize> = Vec::new();
        let mut i: usize = 0;
        while i < k
            invariant
                i <= k,
                n + k <= usize::MAX,
                extra@ == range_from(n as nat, i as nat),
            decreases k - i,
        {
            extra.push(n + i);
            assert(extra@ =~= range_from(n as nat, (i + 1) as nat));
            i += 1;
        }
        self.order.append(&mut extra);
        proof {
            let o = self.order@;
            let m = (n + k) as nat;
            lemma_perm_elements(o0, n as nat);
            assert forall|a: int, b: int| 0 <= a < b < o.len() implies o[a] != o[b] by {
                if b < n {
                    assert(o0.no_duplicates());
                    assert(o[a] == o0[a] && o[b] == o0[b]);
                } else if a >= n {
                } else {
                    assert(o[a] == o0[a]);
                    assert(o0[a] < n);
                }
            }
            assert forall|r: usize| o.contains(r) <==> r < m by {
                if r < m {
                    if r < n {
                        assert(o0.contains(r));
                        let j = choose|j: int| 0 <= j < o0.len() && o0[j] == r;
                        assert(o[j] == r);
                    } else {
                        assert(o[r as int] == r);
                    }
                }
                if o.contains(r) {
                    let j = choose|j: int| 0 <= j < o.len() && o[j] == r;
                    if j < n {
                        assert(o[j] == o0[j]);
                    }
                }
            }
            if self.shuffle_mode == ShuffleMode::Off {
                assert(is_identity(o0, n as nat));
                assert forall|j: int| 0 <= j < m implies o[j] == j by {
                    if j < n {
                        assert(o[j] == o0[j]);
                    } else {
                        assert(o[j] == range_from(n as nat, k as nat)[j - n]);
                    }
                }
            }
            assert(self.history_indices() =~= old(self).history_indices()) by {
                assert forall|j: int| 0 <= j < self.history@.len() implies #[trigger] o[
                    self.history@[j] as int] == o0[self.history@[j] as int] by {
                    assert(old(self).history()[j] < n);
                }
            }
            assert(self.history_items() =~= old(self).history_items()) by {
                assert forall|j: int| 0 <= j < self.history@.len() implies self.items@[
                    #[trigger] self.history_indices()[j] as int] == old(self).items()[
                    old(self).history_indices()[j] as int] by {
                    let x = old(self).history()[j];
                    assert(x < n);
                    assert(o0[x as int] < n);
                    assert(self.history_indices()[j] == o0[x as int]);
                    assert(old(self).history_indices()[j] == o0[x as int]);
                }
            }
            if let Some(v) = self.current {
                assert(o0[v as int] < n);
            }
        }
    }
}

} // verus!

verus! {

// ---------------------------------------------------------------------------
// Removing and reordering items
// ---------------------------------------------------------------------------

/// The contents of a list of uuids.
pub open spec fn uuid_views(u: Seq<String>) -> Seq<Seq<char>> {
    u.map_values(|s: String| s@)
}

/// `j` is the first position of `s` whose item has uuid `u`.
pub open spec fn first_uuid_at(s: Seq<PlayItem>, u: Seq<char>, j: int) -> bool {
    &&& 0 <= j < s.len()
    &&& s[j].uuid@ == u
    &&& forall|k: int| 0 <= k < j ==> (#[trigger] s[k]).uuid@ != u
}

/// `j` is the last position of `s` whose item has uuid `u`.
pub open spec fn last_uuid_at(s: Seq<PlayItem>, u: Seq<char>, j: int) -> bool {
    &&& 0 <= j < s.len()
    &&& s[j].uuid@ == u
    &&& forall|k: int| j < k < s.len() ==> (#[trigger] s[k]).uuid@ != u
}

/// No item of `s` has uuid `u`.
pub open spec fn uuid_absent(s: Seq<PlayItem>, u: Seq<char>) -> bool {
    forall|k: int| 0 <= k < s.len() ==> (#[trigger] s[k]).uuid@ != u
}

/// `j` is the first position of `o` holding `x`.
pub open spec fn first_index_at(o: Seq<usize>, x: usize, j: int) -> bool {
    &&& 0 <= j < o.len()
    &&& o[j] == x
    &&& forall|k: int| 0 <= k < j ==> o[k] != x
}

/// `u` is one of `uuids`.
fn uuid_listed(uuids: &Vec<String>, u: &String) -> (b: bool)
    ensures
        b == uuid_views(uuids@).contains(u@),
{
    let mut i: usize = 0;
    while i < uuids.len()
        invariant
            i <= uuids@.len(),
            forall|k: int| 0 <= k < i ==> uuids@[k]@ != u@,
        decreases uuids@.len() - i,
    {
        if uuids[i] == *u {
            assert(uuid_views(uuids@)[i as int] == u@);
            return true;
        }
        i += 1;
    }
    proof {
        if uuid_views(uuids@).contains(u@) {
            let k = choose|k: int| 0 <= k < uuid_views(uuids@).len() && uuid_views(uuids@)[k] == u@;
            assert(uuids@[k]@ == u@);
        }
    }
    false
}

/// The first position of `s` whose item has uuid `u`.
fn find_uuid_first(s: &Vec<PlayItem>, u: &String) -> (r: Option<usize>)
    ensures
        match r {
            Some(j) => first_uuid_at(s@, u@, j as int),
            None => uuid_absent(s@, u@),
        },
{
    let mut i: usize = 0;
    while i < s.len()
        invariant
            i <= s@.len(),
            forall|k: int| 0 <= k < i ==> (#[trigger] s@[k]).uuid@ != u@,
        decreases s@.len() - i,
    {
        if s[i].uuid == *u {
            return Some(i);
        }
        i += 1;
    }
    None
}

/// The last position of `s` whose item has uuid `u`.
fn find_uuid_last(s: &Vec<PlayItem>, u: &String) -> (r: Option<usize>)
    ensures
        match r {
            Some(j) => last_uuid_at(s@, u@, j as int),
            None => uuid_absent(s@, u@),
        },
{
    let mut i: usize = s.len();
    while i > 0
        invariant
            i <= s@.len(),
            forall|k: int| i <= k < s@.len() ==> (#[trigger] s@[k]).uuid@ != u@,
        decreases i,
    {
        if s[i - 1].uuid == *u {
            return Some(i - 1);
        }
        i -= 1;
    }
    None
}

/// The first position of `o` holding `x`.
fn position_of(o: &Vec<usize>, x: usize) -> (r: Option<usize>)
    ensures
        match r {
            Some(j) => first_index_at(o@, x, j as int),
            None => !o@.contains(x),
        },
{
    let mut i: usize = 0;
    while i < o.len()
        invariant
            i <= o@.len(),
            forall|k: int| 0 <= k < i ==> o@[k] != x,
        decreases o@.len() - i,
    {
        if o[i] == x {
            return Some(i);
        }
        i += 1;
    }
    None
}

/// An item survives a removal of the uuids `gone` unless it is listed,
/// the item being played (uuid `playing`) always surviving.
pub open spec fn keeps(it: PlayItem, gone: Seq<Seq<char>>, playing: Option<Seq<char>>) -> bool {
    !gone.contains(it.uuid@) || playing == Some(it.uuid@)
}

/// The items of `s` that survive, in order.
pub open spec fn kept_items(s: Seq<PlayItem>, gone: Seq<Seq<char>>, playing: Option<Seq<char>>) -> Seq<
    PlayItem,
>
    decreases s.len(),
{
    if s.len() == 0 {
        Seq::empty()
    } else {
        let rest = kept_items(s.drop_last(), gone, playing);
        if keeps(s.last(), gone, playing) {
            rest.push(s.last())
        } else {
            rest
        }
    }
}

/// The index that surviving item `r` of `s` gets: how many survive before it.
pub open spec fn rank(s: Seq<PlayItem>, gone: Seq<Seq<char>>, playing: Option<Seq<char>>, r: int) -> nat {
    kept_items(s.take(r), gone, playing).len()
}

/// A play order after a removal: the surviving entries, renumbered, in
/// their old relative order.
pub open spec fn kept_order(
    o: Seq<usize>,
    s: Seq<PlayItem>,
    gone: Seq<Seq<char>>,
    playing: Option<Seq<char>>,
) -> Seq<usize>
    decreases o.len(),
{
    if o.len() == 0 {
        Seq::empty()
    } else {
        let rest = kept_order(o.drop_last(), s, gone, playing);
        let r = o.last() as int;
        if keeps(s[r], gone, playing) {
            rest.push(rank(s, gone, playing, r) as usize)
        } else {
            rest
        }
    }
}

/// Where item index `i` goes when the item at `from` moves to `to`.
pub open spec fn moved_index(from: int, to: int, i: int) -> int {
    if i == from {
        to
    } else if from < to && from < i && i <= to {
        i - 1
    } else if from > to && to <= i && i < from {
        i + 1
    } else {
        i
    }
}

pub proof fn lemma_moved_bijection(from: int, to: int, n: int)
    requires
        0 <= from < n,
        0 <= to < n,
    ensures
        forall|i: int| 0 <= i < n ==> 0 <= #[trigger] moved_index(from, to, i) < n,
        forall|i: int| 0 <= i < n ==> #[trigger] moved_index(to, from, moved_index(from, to, i)) == i,
        forall|j: int| 0 <= j < n ==> #[trigger] moved_index(from, to, moved_index(to, from, j)) == j,
        forall|i: int, k: int|
            0 <= i < n && 0 <= k < n && #[trigger] moved_index(from, to, i) == #[trigger] moved_index(
                from,
                to,
                k,
            ) ==> i == k,
{
    assert forall|i: int, k: int|
        0 <= i < n && 0 <= k < n && #[trigger] moved_index(from, to, i) == #[trigger] moved_index(
            from,
            to,
            k,
        ) implies i == k by {
        assert(moved_index(to, from, moved_index(from, to, i)) == i);
        assert(moved_index(to, from, moved_index(from, to, k)) == k);
    }
}

/// The items after moving the one at `from` to `to`.
pub open spec fn moved_items(s: Seq<PlayItem>, from: int, to: int) -> Seq<PlayItem> {
    s.remove(from).insert(to, s[from])
}

proof fn lemma_moved_items(s: Seq<PlayItem>, from: int, to: int)
    requires
        0 <= from < s.len(),
        0 <= to < s.len(),
    ensures
        moved_items(s, from, to).len() == s.len(),
        forall|i: int| 0 <= i < s.len() ==> #[trigger] moved_items(s, from, to)[moved_index(from, to, i)] == s[i],
{
    let t = moved_items(s, from, to);
    assert forall|i: int| 0 <= i < s.len() implies #[trigger] t[moved_index(from, to, i)] == s[i] by {
        let r = s.remove(from);
        if i == from {
        } else if i < from {
            assert(r[i] == s[i]);
        } else {
            assert(r[i - 1] == s[i]);
        }
    }
}

} // verus!

verus! {

impl PlaybackQueue {
    /// The position the playing item gets after `remove_items` / `reorder`:
    /// found by its uuid in `s`, then located in the play order `o`.
    pub open spec fn relocated(
        shuffle: ShuffleMode,
        playing: Option<Seq<char>>,
        s: Seq<PlayItem>,
        o: Seq<usize>,
        c: Option<usize>,
        by_last: bool,
    ) -> bool {
        match playing {
            None => c is None,
            Some(u) => if uuid_absent(s, u) {
                c is None
            } else {
                exists|j: int|
                    #![trigger s[j]]
                    (if by_last {
                        last_uuid_at(s, u, j)
                    } else {
                        first_uuid_at(s, u, j)
                    }) && if shuffle == ShuffleMode::Off {
                        c == Some(j as usize)
                    } else {
                        c matches Some(v) && first_index_at(o, j as usize, v as int)
                    }
            },
        }
    }

    /// A current position found by the played item's uuid designates it,
    /// when no uuid names two items.
    proof fn lemma_relocated_synced(&self, by_last: bool)
        requires
            self.wf(),
            self.uuids_distinct(),
            Self::relocated(
                self.shuffle(),
                self.playing_uuid(),
                self.items(),
                self.order(),
                self.current(),
                by_last,
            ),
        ensures
            self.synced(),
    {
        if let Some(u) = self.playing_uuid() {
            if !uuid_absent(self.items(), u) {
                let s = self.items();
                let j = choose|j: int|
                    #![trigger s[j]]
                    (if by_last {
                        last_uuid_at(s, u, j)
                    } else {
                        first_uuid_at(s, u, j)
                    }) && if self.shuffle() == ShuffleMode::Off {
                        self.current() == Some(j as usize)
                    } else {
                        self.current() matches Some(v) && first_index_at(self.order(), j as usize, v as int)
                    };
                assert(0 <= j < s.len() && s[j].uuid@ == u);
                assert(self.items().len() == self.items.len());
                if self.shuffle() == ShuffleMode::Off {
                    assert(self.order()[j] == j);
                }
                assert(self.order()[self.current().unwrap() as int] == j);
                assert forall|k: int|
                    0 <= k < s.len() && self.playing_uuid() == Some(#[trigger] s[k].uuid@)
                        && self.current() is Some implies self.order()[self.current().unwrap() as int]
                    == k by {
                    if k < j {
                        assert(s[k].uuid@ != s[j].uuid@);
                    } else if j < k {
                        assert(s[j].uuid@ != s[k].uuid@);
                    }
                }
            }
        }
    }

    /// Removes the items whose uuid is listed, except the one being played.
    /// The play order keeps the survivors in their old relative order (the
    /// identity with shuffle off); the current position follows the played
    /// item by uuid, and the history restarts from it.
    pub fn remove_items(&mut self, uuids: &Vec<String>)
        requires
            old(self).wf(),
        ensures
            final(self).wf(),
            final(self).items() == kept_items(old(self).items(), uuid_views(uuids@), old(self).playing_uuid()),
            old(self).shuffle() != ShuffleMode::Off ==> final(self).order() == kept_order(
                old(self).order(),
                old(self).items(),
                uuid_views(uuids@),
                old(self).playing_uuid(),
            ),
            Self::relocated(
                final(self).shuffle(),
                old(self).playing_uuid(),
                final(self).items(),
                final(self).order(),
                final(self).current(),
                true,
            ),
            final(self).history() == (match final(self).current() {
                Some(c) => seq![c],
                None => Seq::<usize>::empty(),
            }),
            final(self).up_next() == old(self).up_next(),
            final(self).same_settings(&old(self)),
            final(self).uuids_distinct() ==> final(self).synced(),
    {
        let n = self.items.len();
        if n == 0 {
            proof {
                assert(self.items@ =~= Seq::<PlayItem>::empty());
                assert(self.current is None);
                if self.history@.len() > 0 {
                    assert(old(self).history()[0] < old(self).items().len());
                }
                assert(self.history@ =~= Seq::<usize>::empty());
                let p = self.playing_uuid();
                if let Some(u) = p {
                    assert(uuid_absent(self.items@, u));
                }
            }
            return;
        }
        let ghost gone = uuid_views(uuids@);
        let ghost playing = self.playing_uuid();
        let ghost items0 = self.items@;
        let ghost order0 = self.order@;
        let mut new_items: Vec<PlayItem> = Vec::new();
        let mut new_index: Vec<Option<usize>> = Vec::new();
        let mut origin: Vec<usize> = Vec::new();
        let mut i: usize = 0;
        while i < n
            invariant
                n == self.items@.len() == items0.len(),
                self.items@ == items0,
                gone == uuid_views(uuids@),
                playing == (match self.current_uuid {
                    Some(u) => Some(u@),
                    None => None::<Seq<char>>,
                }),
                i <= n,
                new_index@.len() == i,
                new_items@ == kept_items(items0.take(i as int), gone, playing),
                origin@.len() == new_items@.len(),
                forall|r: int|
                    0 <= r < i ==> #[trigger] new_index@[r] == (if keeps(items0[r], gone, playing) {
                        Some(rank(items0, gone, playing, r) as usize)
                    } else {
                        None
                    }),
                forall|r: int|
                    0 <= r < i ==> (#[trigger] new_index@[r] matches Some(j) ==> j < origin@.len()
                        && origin@[j as int] == r),
                forall|j: int|
                    0 <= j < origin@.len() ==> #[trigger] origin@[j] < i && new_index@[origin@[j] as int]
                        == Some(j as usize) && new_items@[j] == items0[origin@[j] as int],
            decreases n - i,
        {
            let listed = uuid_listed(uuids, &self.items[i].uuid);
            let is_playing = match &self.current_uuid {
                Some(u) => *u == self.items[i].uuid,
                None => false,
            };
            assert(items0.take(i + 1).drop_last() =~= items0.take(i as int));
            assert(items0.take(i + 1).last() == items0[i as int]);
            let ghost ni0 = new_index@;
            let ghost or0 = origin@;
            let ghost it0 = new_items@;
            if !listed || is_playing {
                new_index.push(Some(new_items.len()));
                origin.push(i);
                new_items.push(self.items[i].duplicate());
                assert forall|j: int| 0 <= j < origin@.len() implies #[trigger] origin@[j] < i + 1
                    && new_index@[origin@[j] as int] == Some(j as usize) && new_items@[j]
                    == items0[origin@[j] as int] by {
                    if j < or0.len() {
                        assert(or0[j] < i);
                        assert(ni0[or0[j] as int] == Some(j as usize));
                    }
                }
            } else {
                new_index.push(None);
                assert forall|j: int| 0 <= j < origin@.len() implies #[trigger] origin@[j] < i + 1
                    && new_index@[origin@[j] as int] == Some(j as usize) && new_items@[j]
                    == items0[origin@[j] as int] by {
                    assert(or0[j] < i);
                    assert(ni0[or0[j] as int] == Some(j as usize));
                }
            }
            i += 1;
        }
        assert(items0.take(n as int) =~= items0);
        let m = new_items.len();
        // The survivors in play order, renumbered.
        let mut new_order: Vec<usize> = Vec::new();
        let mut seen: Vec<bool> = Vec::new();
        let mut k: usize = 0;
        while k < m
            invariant
                k <= m,
                seen@.len() == k,
                forall|x: int| 0 <= x < k ==> !seen@[x],
            decreases m - k,
        {
            seen.push(false);
            k += 1;
        }
        proof {
            assert(seen@ =~= Seq::new(m as nat, |x: int| false));
            lemma_count_set_none(m as nat);
            lemma_perm_elements(order0, n as nat);
        }
        let ghost mut src: Seq<int> = Seq::empty();
        let mut v: usize = 0;
        while v < n
            invariant
                n == order0.len() == new_index@.len() == items0.len(),
                self.order@ == order0,
                is_perm(order0, n as nat),
                forall|x: int| 0 <= x < order0.len() ==> #[trigger] order0[x] < n,
                m == origin@.len() == seen@.len(),
                forall|r: int|
                    0 <= r < n ==> #[trigger] new_index@[r] == (if keeps(items0[r], gone, playing) {
                        Some(rank(items0, gone, playing, r) as usize)
                    } else {
                        None
                    }),
                forall|r: int|
                    0 <= r < n ==> (#[trigger] new_index@[r] matches Some(j) ==> j < origin@.len()
                        && origin@[j as int] == r),
                forall|j: int|
                    0 <= j < origin@.len() ==> #[trigger] origin@[j] < n && new_index@[origin@[j] as int]
                        == Some(j as usize),
                v <= n,
                placed(new_order@, seen@),
                new_order@ == kept_order(order0.take(v as int), items0, gone, playing),
                src.len() == new_order@.len(),
                forall|x: int|
                    0 <= x < src.len() ==> 0 <= #[trigger] src[x] < v && new_index@[order0[src[x]] as int]
                        == Some(new_order@[x]),
                forall|w: int|
                    0 <= w < v ==> (#[trigger] new_index@[order0[w] as int] matches Some(j) ==> seen@[j as int]),
            decreases n - v,
        {
            let r = self.order[v];
            assert(order0.take(v + 1).drop_last() =~= order0.take(v as int));
            assert(order0.take(v + 1).last() == order0[v as int]);
            let ghost s0 = seen@;
            match new_index[r] {
                Some(j) => {
                    proof {
                        if s0[j as int] {
                            assert(new_order@.contains(j));
                            let x = choose|x: int| 0 <= x < new_order@.len() && new_order@[x] == j;
                            assert(new_index@[order0[src[x]] as int] == Some(j));
                            assert(origin@[j as int] == order0[src[x]]);
                            assert(origin@[j as int] == r);
                            assert(order0.no_duplicates());
                            assert(false);
                        }
                    }
                    place(&mut new_order, &mut seen, j);
                    proof {
                        src = src.push(v as int);
                    }
                },
                None => {},
            }
            v += 1;
        }
        proof {
            assert(order0.take(n as int) =~= order0);
            assert forall|j: int| 0 <= j < m implies #[trigger] seen@[j] by {
                let r = origin@[j];
                assert(order0.contains(r));
                let w = choose|w: int| 0 <= w < order0.len() && order0[w] == r;
                assert(new_index@[order0[w] as int] == Some(j as usize));
            }
            lemma_count_set_full(seen@);
            assert(is_perm(new_order@, m as nat));
        }
        // Where the played item is now.
        let new_real = match &self.current_uuid {
            Some(u) => find_uuid_last(&new_items, u),
            None => None,
        };
        self.items = new_items;
        self.history = Vec::new();
        if self.shuffle_mode == ShuffleMode::Off {
            self.current = new_real;
            self.order = identity_order(m);
        } else {
            self.current = match new_real {
                Some(j) => position_of(&new_order, j),
                None => None,
            };
            self.order = new_order;
        }
        if let Some(c) = self.current {
            self.history.push(c);
        }
        proof {
            assert(self.history@ =~= (match self.current {
                Some(c) => seq![c],
                None => Seq::<usize>::empty(),
            }));
            if let Some(u) = playing {
                if !uuid_absent(self.items@, u) {
                    let j = new_real.unwrap() as int;
                    assert(self.items@[j] == self.items@[j]);
                }
            }
            if self.uuids_distinct() {
                self.lemma_relocated_synced(true);
            }
        }
    }
}

} // verus!

verus! {

/// `moved_index` for machine integers.
fn moved_to(from: usize, to: usize, i: usize) -> (r: usize)
    requires
        from < usize::MAX,
        to < usize::MAX,
    ensures
        r == moved_index(from as int, to as int, i as int),
{
    if i == from {
        to
    } else if from < to && from < i && i <= to {
        i - 1
    } else if from > to && to <= i && i < from {
        i + 1
    } else {
        i
    }
}

impl PlaybackQueue {
    /// Moves the item at `from` to `to` (item indices). Out-of-range or
    /// equal indices change nothing. The play order and, with shuffle off,
    /// the history follow the moved items, so Previous walks back through
    /// the same items; the current position follows the played item by uuid.
    pub fn reorder(&mut self, from: usize, to: usize)
        requires
            old(self).wf(),
        ensures
            final(self).wf(),
            final(self).up_next() == old(self).up_next(),
            final(self).same_settings(&old(self)),
            final(self).history_items() == old(self).history_items(),
            (from >= old(self).items().len() || to >= old(self).items().len() || from == to) ==> *final(self) == *old(self),
            !(from >= old(self).items().len() || to >= old(self).items().len() || from == to) ==> ({
                &&& final(self).items() == moved_items(old(self).items(), from as int, to as int)
                &&& old(self).shuffle() != ShuffleMode::Off ==> forall|v: int|
                    0 <= v < old(self).order().len() ==> #[trigger] final(self).order()[v]
                        == moved_index(from as int, to as int, old(self).order()[v] as int)
                &&& Self::relocated(
                    final(self).shuffle(),
                    old(self).playing_uuid(),
                    final(self).items(),
                    final(self).order(),
                    final(self).current(),
                    false,
                )
            }),
            old(self).synced() && final(self).uuids_distinct() ==> final(self).synced(),
    {
        let n = self.items.len();
        if from >= n || to >= n || from == to {
            return;
        }
        proof {
            lemma_moved_bijection(from as int, to as int, n as int);
            lemma_moved_items(self.items@, from as int, to as int);
            lemma_perm_elements(self.order@, n as nat);
        }
        let ghost items0 = self.items@;
        let ghost order0 = self.order@;
        let ghost hist0 = self.history@;
        let moved = self.items.remove(from);
        self.items.insert(to, moved);
        assert(self.items@ =~= moved_items(items0, from as int, to as int));
        let new_real = match &self.current_uuid {
            Some(u) => find_uuid_first(&self.items, u),
            None => None,
        };
        if self.shuffle_mode == ShuffleMode::Off {
            self.current = new_real;
            self.order = identity_order(n);
            assert forall|x: int| 0 <= x < hist0.len() implies #[trigger] hist0[x] < n by {
                assert(old(self).history()[x] < old(self).items().len());
            }
            let mut new_hist: Vec<usize> = Vec::new();
            let mut k: usize = 0;
            while k < self.history.len()
                invariant
                    from < n,
                    to < n,
                    self.history@ == hist0,
                    forall|x: int| 0 <= x < hist0.len() ==> #[trigger] hist0[x] < n,
                    k <= hist0.len(),
                    new_hist@.len() == k,
                    forall|x: int|
                        0 <= x < k ==> #[trigger] new_hist@[x] == moved_index(
                            from as int,
                            to as int,
                            hist0[x] as int,
                        ),
                decreases hist0.len() - k,
            {
                let h = self.history[k];
                assert(hist0[k as int] < n);
                let moved_h = moved_to(from, to, h);
                new_hist.push(moved_h);
                k += 1;
            }
            self.history = new_hist;
            proof {
                lemma_moved_bijection(from as int, to as int, n as int);
                assert forall|x: int| 0 <= x < self.history@.len() implies #[trigger] self.history@[x]
                    < n by {
                    assert(hist0[x] < n);
                }
                assert(self.history_items() =~= old(self).history_items()) by {
                    assert forall|x: int| 0 <= x < hist0.len() implies #[trigger] self.history_items()[x]
                        == old(self).history_items()[x] by {
                        let h = hist0[x];
                        assert(h < n);
                        assert(order0[h as int] == h);
                        assert(self.order@[moved_index(from as int, to as int, h as int)] == moved_index(
                            from as int,
                            to as int,
                            h as int,
                        ));
                    }
                }
            }
        } else {
            let mut new_order: Vec<usize> = Vec::new();
            let mut v: usize = 0;
            while v < n
                invariant
                    from < n,
                    to < n,
                    self.order@ == order0,
                    n == order0.len(),
                    forall|x: int| 0 <= x < n ==> #[trigger] order0[x] < n,
                    v <= n,
                    new_order@.len() == v,
                    forall|x: int|
                        0 <= x < v ==> #[trigger] new_order@[x] == moved_index(
                            from as int,
                            to as int,
                            order0[x] as int,
                        ),
                decreases n - v,
            {
                let r = self.order[v];
                assert(order0[v as int] < n);
                let moved_r = moved_to(from, to, r);
                new_order.push(moved_r);
                v += 1;
            }
            self.order = new_order;
            proof {
                let o = self.order@;
                assert(order0.no_duplicates());
                assert forall|a: int, b: int| 0 <= a < o.len() && 0 <= b < o.len() && a != b implies o[a]
                    != o[b] by {
                    assert(o[a] == moved_index(from as int, to as int, order0[a] as int));
                    assert(o[b] == moved_index(from as int, to as int, order0[b] as int));
                    assert(order0[a] < n && order0[b] < n);
                }
                assert forall|r: usize| o.contains(r) <==> r < n by {
                    if r < n {
                        let g = moved_index(to as int, from as int, r as int);
                        assert(0 <= g < n);
                        assert(order0.contains(g as usize));
                        let w = choose|w: int| 0 <= w < order0.len() && order0[w] == g as usize;
                        assert(o[w] == moved_index(from as int, to as int, g));
                    }
                    if o.contains(r) {
                        let w = choose|w: int| 0 <= w < o.len() && o[w] == r;
                        assert(o[w] == moved_index(from as int, to as int, order0[w] as int));
                        assert(order0[w] < n);
                    }
                }
                assert(self.history_items() =~= old(self).history_items()) by {
                    assert forall|x: int| 0 <= x < hist0.len() implies #[trigger] self.history_items()[x]
                        == old(self).history_items()[x] by {
                        let h = hist0[x];
                        assert(old(self).history()[x] < n);
                        assert(order0[h as int] < n);
                        assert(o[h as int] == moved_index(from as int, to as int, order0[h as int] as int));
                    }
                }
            }
            self.current = match new_real {
                Some(j) => position_of(&self.order, j),
                None => None,
            };
        }
        proof {
            if let Some(u) = self.playing_uuid() {
                if !uuid_absent(self.items@, u) {
                    let j = new_real.unwrap() as int;
                    assert(self.items@[j] == self.items@[j]);
                }
            }
            if self.uuids_distinct() {
                self.lemma_relocated_synced(false);
            }
        }
    }

    /// Moves the item with uuid `source` to where the item with uuid
    /// `target` is (first occurrences); nothing changes when the two are
    /// equal or either is missing.
    pub fn reorder_by_uuid(&mut self, source: &String, target: &String)
        requires
            old(self).wf(),
        ensures
            final(self).wf(),
            final(self).history_items() == old(self).history_items(),
            source@ == target@ ==> *final(self) == *old(self),
            source@ != target@ ==> match (
                uuid_absent(old(self).items(), source@),
                uuid_absent(old(self).items(), target@),
            ) {
                (false, false) => exists|f: int, t: int|
                    first_uuid_at(old(self).items(), source@, f) && first_uuid_at(
                        old(self).items(),
                        target@,
                        t,
                    ) && final(self).items() == moved_items(old(self).items(), f, t),
                _ => *final(self) == *old(self),
            },
            old(self).synced() && final(self).uuids_distinct() ==> final(self).synced(),
    {
        if *source == *target {
            return;
        }
        let from = find_uuid_first(&self.items, source);
        let to = find_uuid_first(&self.items, target);
        match (from, to) {
            (Some(f), Some(t)) => {
                self.reorder(f, t);
            },
            _ => {},
        }
    }

    /// Empties the playlist, the play order, the "play next" list and the
    /// history; the current position goes.
    pub fn clear(&mut self)
        requires
            old(self).wf(),
        ensures
            final(self).wf(),
            final(self).items().len() == 0,
            final(self).up_next().len() == 0,
            final(self).current() is None,
            final(self).history().len() == 0,
            final(self).same_settings(&old(self)),
            final(self).synced(),
    {
        self.items = Vec::new();
        self.order = Vec::new();
        self.up_next = Vec::new();
        self.current = None;
        self.history = Vec::new();
        proof {
            lemma_identity_is_perm(self.order@, 0);
        }
    }

    /// How many playlist positions lie after the current one.
    pub fn remaining_playlist_items(&self) -> (r: usize)
        requires
            self.wf(),
        ensures
            r == (match self.current() {
                Some(c) => (self.items().len() - c - 1) as nat,
                None => self.items().len(),
            }),
    {
        let total = self.items.len();
        match self.current {
            Some(idx) => total - idx - 1,
            None => total,
        }
    }

    /// The playlist's items in play order (every item, played or not).
    pub fn playback_order(&self) -> (r: Vec<PlayItem>)
        requires
            self.wf(),
        ensures
            r@ == self.order().map_values(|i: usize| self.items()[i as int]),
    {
        proof {
            lemma_perm_elements(self.order@, self.items@.len());
        }
        let mut out: Vec<PlayItem> = Vec::new();
        let mut v: usize = 0;
        while v < self.order.len()
            invariant
                self.wf(),
                forall|x: int| 0 <= x < self.order@.len() ==> #[trigger] self.order@[x] < self.items@.len(),
                v <= self.order@.len(),
                out@ == self.order@.take(v as int).map_values(|i: usize| self.items@[i as int]),
            decreases self.order@.len() - v,
        {
            out.push(self.items[self.order[v]].duplicate());
            assert(out@ =~= self.order@.take(v + 1).map_values(|i: usize| self.items@[i as int]));
            v += 1;
        }
        assert(self.order@.take(v as int) =~= self.order@);
        out
    }
}

} // verus!

verus! {

// ---------------------------------------------------------------------------
// Failures, scrobbling, skips, direct play, stored mode names
// ---------------------------------------------------------------------------

/// After this many failures in a row, playback stops instead of moving on.
pub const MAX_CONSECUTIVE_PLAYBACK_ERRORS: u32 = 5;

/// What a playback failure leads to.
pub struct PlaybackErrorOutcome {
    /// The song that failed, for the message shown to the user.
    pub failed_song: Option<i64>,
    /// The failures in a row have reached the limit: stop.
    pub should_stop: bool,
    /// The failed song's file was found missing and it was marked so.
    pub flagged_unavailable: bool,
}

impl PlaybackQueue {
    /// Counts one more failure in a row; `flagged_unavailable` says whether
    /// the caller found the song's file gone and marked it.
    pub fn note_playback_error(&mut self, flagged_unavailable: bool) -> (o: PlaybackErrorOutcome)
        requires
            old(self).wf(),
            old(self).error_streak() < u32::MAX,
        ensures
            final(self).wf(),
            final(self).error_streak() == old(self).error_streak() + 1,
            o.should_stop == (final(self).error_streak() >= MAX_CONSECUTIVE_PLAYBACK_ERRORS),
            o.failed_song == old(self).playing_song(),
            o.flagged_unavailable == flagged_unavailable,
            final(self).items() == old(self).items(),
            final(self).order() == old(self).order(),
            final(self).current() == old(self).current(),
            final(self).history() == old(self).history(),
            final(self).up_next() == old(self).up_next(),
            final(self).playing_uuid() == old(self).playing_uuid(),
            final(self).playing_song() == old(self).playing_song(),
            old(self).synced() ==> final(self).synced(),
    {
        self.consecutive_errors = self.consecutive_errors + 1;
        proof {
            self.lemma_wf_frame(&old(self));
        }
        PlaybackErrorOutcome {
            failed_song: self.current_song_id,
            should_stop: self.consecutive_errors >= MAX_CONSECUTIVE_PLAYBACK_ERRORS,
            flagged_unavailable,
        }
    }

    /// A track really started: the failure count starts over.
    pub fn reset_playback_errors(&mut self)
        requires
            old(self).wf(),
        ensures
            final(self).wf(),
            final(self).error_streak() == 0,
            final(self).items() == old(self).items(),
            final(self).order() == old(self).order(),
            final(self).current() == old(self).current(),
            final(self).history() == old(self).history(),
            final(self).up_next() == old(self).up_next(),
            final(self).playing_uuid() == old(self).playing_uuid(),
            final(self).playing_song() == old(self).playing_song(),
            old(self).synced() ==> final(self).synced(),
    {
        self.consecutive_errors = 0;
        proof {
            self.lemma_wf_frame(&old(self));
        }
    }

    /// The play point moved to `position_nanosec`: true exactly once per
    /// track, when the position first reaches the track's scrobble point
    /// (then the play is recorded).
    pub fn on_position_update(&mut self, position_nanosec: u64) -> (r: bool)
        requires
            old(self).wf(),
        ensures
            final(self).wf(),
            r == (match old(self).scrobble_at() {
                Some(p) => !old(self).is_scrobbled() && position_nanosec >= p,
                None => false,
            }),
            final(self).is_scrobbled() == (old(self).is_scrobbled() || r),
            final(self).same_frame(&old(self)),
            final(self).current() == old(self).current(),
            final(self).history() == old(self).history(),
            final(self).up_next() == old(self).up_next(),
            final(self).playing_uuid() == old(self).playing_uuid(),
            final(self).playing_song() == old(self).playing_song(),
            final(self).scrobble_at() == old(self).scrobble_at(),
            old(self).synced() ==> final(self).synced(),
    {
        let at = match self.scrobble_point {
            Some(p) => p,
            None => {
                return false;
            },
        };
        if self.scrobbled || position_nanosec < at {
            return false;
        }
        self.scrobbled = true;
        proof {
            self.lemma_wf_frame(&old(self));
        }
        true
    }

    /// A user-initiated track change: the song whose skip is recorded, when
    /// one is loaded and it has not reached its scrobble point.
    pub fn note_manual_skip(&self) -> (r: Option<i64>)
        ensures
            r == (if self.is_scrobbled() {
                None
            } else {
                self.playing_song()
            }),
    {
        if self.scrobbled {
            return None;
        }
        self.current_song_id
    }

    /// `j` is the first item with uuid `u`, and `p` the position it is
    /// played from: `j` itself with shuffle off, else where `j` first stands
    /// in the play order (0 if nowhere).
    pub open spec fn direct_start(&self, u: Seq<char>, j: int, p: int) -> bool {
        &&& first_uuid_at(self.items(), u, j)
        &&& if self.shuffle() == ShuffleMode::Off {
            p == j
        } else if self.order().contains(j as usize) {
            first_index_at(self.order(), j as usize, p)
        } else {
            p == 0
        }
    }

    /// Plays the item with uuid `uuid` (its first occurrence): `None` when
    /// no item has it. With shuffle on, its position in the play order.
    pub fn play_item_by_uuid(&mut self, uuid: &String) -> (r: Option<Step>)
        requires
            old(self).wf(),
        ensures
            final(self).wf(),
            uuid_absent(old(self).items(), uuid@) ==> r is None && *final(self) == *old(self),
            !uuid_absent(old(self).items(), uuid@) ==> (r matches Some(s) && exists|j: int, p: int|
                #[trigger] old(self).direct_start(uuid@, j, p) && final(self).index_step(
                    &old(self),
                    s,
                    Some(p),
                )),
            final(self).up_next() == old(self).up_next(),
            old(self).synced() && old(self).uuids_distinct() ==> final(self).synced(),
    {
        let item_idx = match find_uuid_first(&self.items, uuid) {
            Some(j) => j,
            None => {
                return None;
            },
        };
        let p = if self.shuffle_mode != ShuffleMode::Off {
            match position_of(&self.order, item_idx) {
                Some(v) => v,
                None => 0,
            }
        } else {
            item_idx
        };
        let ghost j = item_idx as int;
        let s = self.play_at_index(p);
        proof {
            let pp = p as int;
            assert(first_uuid_at(old(self).items(), uuid@, j));
            if old(self).shuffle() == ShuffleMode::Off {
                assert(pp == j);
            } else if old(self).order().contains(j as usize) {
                assert(first_index_at(old(self).order(), j as usize, pp));
            } else {
                assert(pp == 0);
            }
            assert(self.index_step(&old(self), s, Some(pp)));
            assert(old(self).direct_start(uuid@, j, pp));
        }
        Some(s)
    }
}

/// The name a shuffle mode is stored under.
pub fn shuffle_mode_to_key(mode: ShuffleMode) -> (k: &'static str)
    ensures
        k@ == (match mode {
            ShuffleMode::Off => "off"@,
            ShuffleMode::All => "all"@,
            ShuffleMode::InsideAlbum => "inside_album"@,
            ShuffleMode::Albums => "albums"@,
            ShuffleMode::Artists => "artists"@,
        }),
{
    match mode {
        ShuffleMode::Off => "off",
        ShuffleMode::All => "all",
        ShuffleMode::InsideAlbum => "inside_album",
        ShuffleMode::Albums => "albums",
        ShuffleMode::Artists => "artists",
    }
}

/// The shuffle mode stored under `key`; anything unknown reads as off.
pub fn shuffle_mode_from_key(key: &str) -> (mode: ShuffleMode)
    ensures
        mode == (if key@ == "all"@ {
            ShuffleMode::All
        } else if key@ == "inside_album"@ {
            ShuffleMode::InsideAlbum
        } else if key@ == "albums"@ {
            ShuffleMode::Albums
        } else if key@ == "artists"@ {
            ShuffleMode::Artists
        } else {
            ShuffleMode::Off
        }),
{
    let k = chars_of(key);
    if chars_eq(k.as_slice(), chars_of("all").as_slice()) {
        ShuffleMode::All
    } else if chars_eq(k.as_slice(), chars_of("inside_album").as_slice()) {
        ShuffleMode::InsideAlbum
    } else if chars_eq(k.as_slice(), chars_of("albums").as_slice()) {
        ShuffleMode::Albums
    } else if chars_eq(k.as_slice(), chars_of("artists").as_slice()) {
        ShuffleMode::Artists
    } else {
        ShuffleMode::Off
    }
}

/// The name a repeat mode is stored under.
pub fn repeat_mode_to_key(mode: RepeatMode) -> (k: &'static str)
    ensures
        k@ == (match mode {
            RepeatMode::Off => "off"@,
            RepeatMode::Track => "track"@,
            RepeatMode::Album => "album"@,
            RepeatMode::Playlist => "playlist"@,
            RepeatMode::Intro => "intro"@,
        }),
{
    match mode {
        RepeatMode::Off => "off",
        RepeatMode::Track => "track",
        RepeatMode::Album => "album",
        RepeatMode::Playlist => "playlist",
        RepeatMode::Intro => "intro",
    }
}

/// The repeat mode stored under `key`; anything unknown reads as off.
pub fn repeat_mode_from_key(key: &str) -> (mode: RepeatMode)
    ensures
        mode == (if key@ == "track"@ {
            RepeatMode::Track
        } else if key@ == "album"@ {
            RepeatMode::Album
        } else if key@ == "playlist"@ {
            RepeatMode::Playlist
        } else if key@ == "intro"@ {
            RepeatMode::Intro
        } else {
            RepeatMode::Off
        }),
{
    let k = chars_of(key);
    if chars_eq(k.as_slice(), chars_of("track").as_slice()) {
        RepeatMode::Track
    } else if chars_eq(k.as_slice(), chars_of("album").as_slice()) {
        RepeatMode::Album
    } else if chars_eq(k.as_slice(), chars_of("playlist").as_slice()) {
        RepeatMode::Playlist
    } else if chars_eq(k.as_slice(), chars_of("intro").as_slice()) {
        RepeatMode::Intro
    } else {
        RepeatMode::Off
    }
}

/// Reading back a stored shuffle mode gives the mode.
pub proof fn shuffle_key_round_trip(mode: ShuffleMode)
    ensures
        ({
            let k = match mode {
                ShuffleMode::Off => "off"@,
                ShuffleMode::All => "all"@,
                ShuffleMode::InsideAlbum => "inside_album"@,
                ShuffleMode::Albums => "albums"@,
                ShuffleMode::Artists => "artists"@,
            };
            (if k == "all"@ {
                ShuffleMode::All
            } else if k == "inside_album"@ {
                ShuffleMode::InsideAlbum
            } else if k == "albums"@ {
                ShuffleMode::Albums
            } else if k == "artists"@ {
                ShuffleMode::Artists
            } else {
                ShuffleMode::Off
            }) == mode
        }),
{
    reveal_strlit("off");
    reveal_strlit("all");
    reveal_strlit("inside_album");
    reveal_strlit("albums");
    reveal_strlit("artists");
    assert("all"@ != "off"@) by {
        assert("all"@[0] != "off"@[0]);
    }
    assert("inside_album"@.len() != "off"@.len());
    assert("albums"@.len() != "off"@.len());
    assert("artists"@.len() != "off"@.len());
    assert("inside_album"@.len() != "all"@.len());
    assert("albums"@.len() != "all"@.len());
    assert("artists"@.len() != "all"@.len());
    assert("albums"@.len() != "inside_album"@.len());
    assert("artists"@.len() != "inside_album"@.len());
    assert("artists"@.len() != "albums"@.len());
}

} // verus!

verus! {

// ---------------------------------------------------------------------------
// Reading the state
// ---------------------------------------------------------------------------

impl PlaybackQueue {
    /// The current virtual position.
    pub fn current_index(&self) -> (r: Option<usize>)
        ensures
            r == self.current(),
    {
        self.current
    }

    /// The loaded song, if any.
    pub fn current_song_id(&self) -> (r: Option<i64>)
        ensures
            r == self.playing_song(),
    {
        self.current_song_id
    }

    /// The uuid of the loaded playlist item, if any.
    pub fn current_item_uuid(&self) -> (r: Option<String>)
        ensures
            opt_uuid(r) == self.playing_uuid(),
    {
        match &self.current_uuid {
            Some(u) => Some(u.clone()),
            None => None,
        }
    }

    /// The history of virtual positions, oldest first.
    pub fn played_indices(&self) -> (r: Vec<usize>)
        ensures
            r@ == self.history(),
    {
        self.history.clone()
    }

    /// The play order.
    pub fn play_order(&self) -> (r: Vec<usize>)
        ensures
            r@ == self.order(),
    {
        self.order.clone()
    }

    /// How many items are loaded.
    pub fn len(&self) -> (r: usize)
        ensures
            r == self.items().len(),
    {
        self.items.len()
    }

    /// How many entries wait in the "play next" list.
    pub fn up_next_len(&self) -> (r: usize)
        ensures
            r == self.up_next().len(),
    {
        self.up_next.len()
    }

    pub fn shuffle_mode(&self) -> (r: ShuffleMode)
        ensures
            r == self.shuffle(),
    {
        self.shuffle_mode
    }

    pub fn repeat_mode(&self) -> (r: RepeatMode)
        ensures
            r == self.repeat(),
    {
        self.repeat_mode
    }

    pub fn stop_after_current(&self) -> (r: bool)
        ensures
            r == self.stops_after_current(),
    {
        self.stop_after_current
    }

    /// Where the current track counts as played.
    pub fn scrobble_point_nanosec(&self) -> (r: Option<u64>)
        ensures
            r == self.scrobble_at(),
    {
        self.scrobble_point
    }

    pub fn scrobbled(&self) -> (r: bool)
        ensures
            r == self.is_scrobbled(),
    {
        self.scrobbled
    }
}

pub open spec fn opt_uuid(o: Option<String>) -> Option<Seq<char>> {
    match o {
        Some(s) => Some(s@),
        None => None,
    }
}

/// `j` is the first position of `s` whose item plays song `id`.
pub open spec fn first_song_at(s: Seq<PlayItem>, id: i64, j: int) -> bool {
    &&& 0 <= j < s.len()
    &&& s[j].song_id == Some(id)
    &&& forall|k: int| 0 <= k < j ==> (#[trigger] s[k]).song_id != Some(id)
}

/// No item of `s` plays song `id`.
pub open spec fn song_absent(s: Seq<PlayItem>, id: i64) -> bool {
    forall|k: int| 0 <= k < s.len() ==> (#[trigger] s[k]).song_id != Some(id)
}

/// Where a restored session resumes in `items`: in a saved playlist
/// (positive id), at the saved item when its uuid is there, else at the
/// first row of the saved song; in an ad-hoc queue, at the first row of
/// the song. `None` when the song has no row.
pub open spec fn resumes_at(items: Seq<PlayItem>, playlist_id: i64, uuid: Option<Seq<char>>, song: i64, r: Option<int>) -> bool {
    if playlist_id > 0 && uuid is Some && !uuid_absent(items, uuid.unwrap()) {
        r matches Some(j) && first_uuid_at(items, uuid.unwrap(), j)
    } else {
        match r {
            Some(j) => first_song_at(items, song, j),
            None => song_absent(items, song),
        }
    }
}

/// The first position of `s` whose item plays song `id`.
fn find_song_first(s: &Vec<PlayItem>, id: i64) -> (r: Option<usize>)
    ensures
        match r {
            Some(j) => first_song_at(s@, id, j as int),
            None => song_absent(s@, id),
        },
{
    let mut i: usize = 0;
    while i < s.len()
        invariant
            i <= s@.len(),
            forall|k: int| 0 <= k < i ==> (#[trigger] s@[k]).song_id != Some(id),
        decreases s@.len() - i,
    {
        if s[i].song_id == Some(id) {
            return Some(i);
        }
        i += 1;
    }
    None
}

impl PlaybackQueue {
    /// The queue a previous run left behind, rebuilt at start-up from what
    /// was saved: the modes, the last song (when it is still available),
    /// the playlist it played from and its item uuid, and that playlist's
    /// rows (or the ad-hoc queue's songs) as read back. With rows for a
    /// saved playlist id, those rows are loaded and playback is cued where
    /// `resumes_at` says; without, the song alone is loaded as a single row
    /// under its saved uuid (a fresh one when none was saved). Nothing
    /// plays: the song is only made current. Also returns the item uuid
    /// the player keeps for the restored song.
    pub fn restore(
        shuffle: ShuffleMode,
        repeat: RepeatMode,
        song: Option<PlayItem>,
        playlist_id: Option<i64>,
        item_uuid: Option<String>,
        items: Vec<PlayItem>,
    ) -> (r: (PlaybackQueue, Option<String>))
        requires
            song matches Some(s) ==> s.song_id is Some,
        ensures
            r.0.wf(),
            r.0.shuffle() == shuffle,
            r.0.repeat() == repeat,
            !r.0.stops_after_current(),
            r.0.up_next().len() == 0,
            r.0.history().len() == 0,
            !r.0.is_scrobbled(),
            r.0.error_streak() == 0,
            song is None ==> {
                &&& r.0.items().len() == 0
                &&& r.0.current() is None
                &&& r.0.playing_uuid() is None
                &&& r.0.playing_song() is None
                &&& r.0.playing_length() is None
                &&& r.0.scrobble_at() is None
                &&& r.1 is None
            },
            song matches Some(s) ==> {
                &&& r.0.playing_song() == s.song_id
                &&& r.0.playing_length() == s.length_nanosec
                &&& r.0.scrobble_at() == scrobble_point_of(s.length_nanosec)
                &&& r.0.playing_uuid() == uuid_view(r.1)
                &&& if playlist_id is Some && items@.len() > 0 {
                    &&& r.0.items() == items@
                    &&& uuid_view(r.1) == uuid_view(item_uuid)
                    &&& exists|at: Option<int>|
                        resumes_at(items@, playlist_id.unwrap(), uuid_view(item_uuid), s.song_id.unwrap(), at) && match at {
                            Some(j) => r.0.current() matches Some(v) && r.0.order()[v as int] == j,
                            None => r.0.current() is None,
                        }
                } else {
                    &&& r.1 matches Some(u) && (item_uuid matches Some(x) ==> u@ == x@)
                    &&& r.0.items().len() == 1
                    &&& r.0.items()[0].uuid@ == r.1.unwrap()@
                    &&& r.0.items()[0].song_id == s.song_id
                    &&& r.0.items()[0].unavailable == s.unavailable
                    &&& r.0.items()[0].album == s.album
                    &&& r.0.items()[0].artist == s.artist
                    &&& r.0.items()[0].length_nanosec == s.length_nanosec
                    &&& r.0.current() matches Some(v) && r.0.order()[v as int] == 0
                }
            },
            r.0.uuids_distinct() && (playlist_id is Some && playlist_id.unwrap() <= 0 && item_uuid is Some
                ==> uuid_absent(items@, item_uuid.unwrap()@)) ==> r.0.synced(),
    {
        let mut q = PlaybackQueue::new();
        q.shuffle_mode = shuffle;
        q.repeat_mode = repeat;
        proof {
            lemma_identity_is_perm(q.order@, 0);
        }
        match song {
            None => (q, None),
            Some(s) => {
                let sid = match s.song_id {
                    Some(x) => x,
                    None => 0,
                };
                let scrobble = match s.length_nanosec {
                    Some(ns) => Some(#[verifier::truncate] (ns as u64) / 2),
                    None => None,
                };
                if playlist_id.is_some() && items.len() > 0 {
                    let pid = match playlist_id {
                        Some(p) => p,
                        None => 0,
                    };
                    let idx: Option<usize> = if pid > 0 {
                        match &item_uuid {
                            Some(u) => match find_uuid_first(&items, u) {
                                Some(j) => Some(j),
                                None => find_song_first(&items, sid),
                            },
                            None => find_song_first(&items, sid),
                        }
                    } else {
                        find_song_first(&items, sid)
                    };
                    let ghost at: Option<int> = match idx {
                        Some(j) => Some(j as int),
                        None => None,
                    };
                    assert(resumes_at(items@, pid, uuid_view(item_uuid), sid, at));
                    let n = items.len();
                    let start = match idx {
                        Some(j) => j,
                        None => n,
                    };
                    q.load(items, start);
                    q.current_uuid = match &item_uuid {
                        Some(u) => Some(u.clone()),
                        None => None,
                    };
                    q.current_song_id = Some(sid);
                    q.current_length = s.length_nanosec;
                    q.scrobble_point = scrobble;
                    proof {
                        if q.uuids_distinct() && (pid <= 0 && item_uuid is Some ==> uuid_absent(
                            items@,
                            item_uuid.unwrap()@,
                        )) {
                            assert forall|k: int|
                                0 <= k < q.items().len() && q.playing_uuid() == Some(
                                    #[trigger] q.items()[k].uuid@,
                                ) && q.current() is Some implies q.order()[q.current().unwrap() as int]
                                == k by {
                                let u = item_uuid.unwrap()@;
                                assert(q.items()[k].uuid@ == u);
                                assert(!uuid_absent(items@, u));
                                let j = at.unwrap();
                                assert(first_uuid_at(items@, u, j));
                                if k < j {
                                    assert(q.items()[k].uuid@ != q.items()[j].uuid@);
                                } else if j < k {
                                    assert(q.items()[j].uuid@ != q.items()[k].uuid@);
                                }
                            }
                        }
                    }
                    (q, item_uuid)
                } else {
                    let u = match item_uuid {
                        Some(u) => u,
                        None => new_uuid(),
                    };
                    let one = PlayItem {
                        uuid: u.clone(),
                        song_id: s.song_id,
                        unavailable: s.unavailable,
                        album: s.album,
                        artist: s.artist,
                        length_nanosec: s.length_nanosec,
                    };
                    q.load(vec![one], 0);
                    q.current_uuid = Some(u.clone());
                    q.current_song_id = Some(sid);
                    q.current_length = s.length_nanosec;
                    q.scrobble_point = scrobble;
                    (q, Some(u))
                }
            },
        }
    }
}

} // verus!
