//! Character-sequence primitives shared by the parsers and the tag logic:
//! whitespace trimming, line splitting, searching, prefix stripping and
//! decimal parsing, each stated over `Seq<char>` and proved.
use vstd::prelude::*;

verus! {

broadcast use vstd::string::group_string_axioms;

// ---------------------------------------------------------------------------
// Whitespace and trimming
// ---------------------------------------------------------------------------

/// Unicode `White_Space`, the set `char::is_whitespace` tests.
pub open spec fn is_ws(c: char) -> bool {
    let u: u32 = c as u32;
    ||| 0x09 <= u <= 0x0D
    ||| u == 0x20
    ||| u == 0x85
    ||| u == 0xA0
    ||| u == 0x1680
    ||| 0x2000 <= u <= 0x200A
    ||| u == 0x2028
    ||| u == 0x2029
    ||| u == 0x202F
    ||| u == 0x205F
    ||| u == 0x3000
}

pub fn is_whitespace(c: char) -> (b: bool)
    ensures
        b == is_ws(c),
{
    let u: u32 = c as u32;
    (0x09 <= u && u <= 0x0D) || u == 0x20 || u == 0x85 || u == 0xA0 || u == 0x1680 || (0x2000
        <= u && u <= 0x200A) || u == 0x2028 || u == 0x2029 || u == 0x202F || u == 0x205F || u
        == 0x3000
}

/// `s` without its leading whitespace.
pub open spec fn trim_start(s: Seq<char>) -> Seq<char>
    decreases s.len(),
{
    if s.len() > 0 && is_ws(s[0]) {
        trim_start(s.drop_first())
    } else {
        s
    }
}

/// `s` without its trailing whitespace.
pub open spec fn trim_end(s: Seq<char>) -> Seq<char>
    decreases s.len(),
{
    if s.len() > 0 && is_ws(s.last()) {
        trim_end(s.drop_last())
    } else {
        s
    }
}

/// `s` without leading and trailing whitespace (`str::trim`).
pub open spec fn trim(s: Seq<char>) -> Seq<char> {
    trim_end(trim_start(s))
}

proof fn lemma_trim_start_skip(s: Seq<char>, i: int)
    requires
        0 <= i <= s.len(),
        forall|k: int| 0 <= k < i ==> is_ws(#[trigger] s[k]),
    ensures
        trim_start(s) == trim_start(s.subrange(i, s.len() as int)),
    decreases i,
{
    if i > 0 {
        let t = s.drop_first();
        assert(is_ws(s[0]));
        assert forall|k: int| 0 <= k < i - 1 implies is_ws(#[trigger] t[k]) by {
            assert(t[k] == s[k + 1]);
        }
        lemma_trim_start_skip(t, i - 1);
        assert(t.subrange(i - 1, t.len() as int) =~= s.subrange(i, s.len() as int));
    } else {
        assert(s.subrange(0, s.len() as int) =~= s);
    }
}

proof fn lemma_trim_end_cut(s: Seq<char>, j: int)
    requires
        0 <= j <= s.len(),
        forall|k: int| j <= k < s.len() ==> is_ws(#[trigger] s[k]),
    ensures
        trim_end(s) == trim_end(s.subrange(0, j)),
    decreases s.len() - j,
{
    if j < s.len() {
        let t = s.drop_last();
        assert(is_ws(s[s.len() - 1]));
        assert forall|k: int| j <= k < t.len() implies is_ws(#[trigger] t[k]) by {
            assert(t[k] == s[k]);
        }
        lemma_trim_end_cut(t, j);
        assert(t.subrange(0, j) =~= s.subrange(0, j));
    } else {
        assert(s.subrange(0, j) =~= s);
    }
}

/// The characters `s[from..to]`.
pub fn copy_range(s: &[char], from: usize, to: usize) -> (res: Vec<char>)
    requires
        from <= to <= s@.len(),
    ensures
        res@ == s@.subrange(from as int, to as int),
{
    let mut res: Vec<char> = Vec::new();
    let mut i: usize = from;
    while i < to
        invariant
            from <= i <= to <= s@.len(),
            res@ == s@.subrange(from as int, i as int),
        decreases to - i,
    {
        res.push(s[i]);
        i += 1;
    }
    res
}

/// `s` with leading and trailing whitespace removed.
pub fn trim_chars(s: &[char]) -> (res: Vec<char>)
    ensures
        res@ == trim(s@),
{
    let n: usize = s.len();
    let mut a: usize = 0;
    while a < n && is_whitespace(s[a])
        invariant
            a <= n == s@.len(),
            forall|k: int| 0 <= k < a ==> is_ws(#[trigger] s@[k]),
        decreases n - a,
    {
        a += 1;
    }
    proof {
        lemma_trim_start_skip(s@, a as int);
    }
    let ghost t = s@.subrange(a as int, n as int);
    assert(a < n ==> !is_ws(t[0]));
    assert(trim_start(t) == t) by {
        if t.len() > 0 {
            assert(!is_ws(t[0]));
        }
    }
    let mut b: usize = n;
    while b > a && is_whitespace(s[b - 1])
        invariant
            a <= b <= n == s@.len(),
            forall|k: int| b <= k < n ==> is_ws(#[trigger] s@[k]),
        decreases b,
    {
        b -= 1;
    }
    proof {
        let tt = t;
        assert forall|k: int| b - a <= k < tt.len() implies is_ws(#[trigger] tt[k]) by {
            assert(tt[k] == s@[k + a]);
        }
        lemma_trim_end_cut(tt, b - a);
        let u = tt.subrange(0, b - a);
        assert(u =~= s@.subrange(a as int, b as int));
        if u.len() > 0 {
            assert(u.last() == s@[b - 1]);
        }
    }
    copy_range(s, a, b)
}

// ---------------------------------------------------------------------------
// Searching
// ---------------------------------------------------------------------------

/// Position of the first `c` in `s`.
pub open spec fn index_of(s: Seq<char>, c: char) -> Option<nat>
    decreases s.len(),
{
    if s.len() == 0 {
        None
    } else if s[0] == c {
        Some(0)
    } else {
        match index_of(s.drop_first(), c) {
            Some(i) => Some(i + 1),
            None => None,
        }
    }
}

pub proof fn lemma_index_of(s: Seq<char>, c: char, i: int)
    requires
        0 <= i <= s.len(),
        forall|k: int| 0 <= k < i ==> #[trigger] s[k] != c,
    ensures
        i < s.len() && s[i] == c ==> index_of(s, c) == Some(i as nat),
        i == s.len() ==> index_of(s, c) is None,
    decreases i,
{
    if i > 0 {
        let t = s.drop_first();
        assert forall|k: int| 0 <= k < i - 1 implies #[trigger] t[k] != c by {
            assert(t[k] == s[k + 1]);
        }
        lemma_index_of(t, c, i - 1);
    }
}

pub proof fn lemma_index_of_bounds(s: Seq<char>, c: char)
    ensures
        index_of(s, c) matches Some(i) ==> i < s.len() && s[i as int] == c && forall|k: int|
            0 <= k < i ==> #[trigger] s[k] != c,
        index_of(s, c) is None ==> forall|k: int| 0 <= k < s.len() ==> #[trigger] s[k] != c,
    decreases s.len(),
{
    if s.len() > 0 && s[0] != c {
        let t = s.drop_first();
        lemma_index_of_bounds(t, c);
        assert forall|k: int| 0 <= k < s.len() && index_of(t, c) is None implies #[trigger] s[k]
            != c by {
            if k > 0 {
                assert(s[k] == t[k - 1]);
            }
        }
        if let Some(j) = index_of(t, c) {
            assert forall|k: int| 0 <= k < j + 1 implies #[trigger] s[k] != c by {
                if k > 0 {
                    assert(s[k] == t[k - 1]);
                }
            }
        }
    }
}

/// Position of the first `c` in `s` (`str::find` with a char).
pub fn find_char(s: &[char], c: char) -> (res: Option<usize>)
    ensures
        res matches Some(i) ==> index_of(s@, c) == Some(i as nat),
        res is None ==> index_of(s@, c) is None,
{
    let mut i: usize = 0;
    while i < s.len()
        invariant
            i <= s@.len(),
            forall|k: int| 0 <= k < i ==> #[trigger] s@[k] != c,
        decreases s@.len() - i,
    {
        if s[i] == c {
            proof {
                lemma_index_of(s@, c, i as int);
            }
            return Some(i);
        }
        i += 1;
    }
    proof {
        lemma_index_of(s@, c, i as int);
    }
    None
}

/// `p` is a prefix of `s`.
pub open spec fn has_prefix(s: Seq<char>, p: Seq<char>) -> bool {
    p.len() <= s.len() && s.subrange(0, p.len() as int) == p
}

/// Position of the first occurrence of `p` in `s` (`str::find` with a
/// string pattern; an empty pattern is found at 0).
pub open spec fn find_seq(s: Seq<char>, p: Seq<char>) -> Option<nat>
    decreases s.len(),
{
    if has_prefix(s, p) {
        Some(0)
    } else if s.len() == 0 {
        None
    } else {
        match find_seq(s.drop_first(), p) {
            Some(i) => Some(i + 1),
            None => None,
        }
    }
}

pub proof fn lemma_find_seq(s: Seq<char>, p: Seq<char>, i: int)
    requires
        0 <= i <= s.len(),
        forall|k: int| 0 <= k < i ==> !has_prefix(#[trigger] s.subrange(k, s.len() as int), p),
    ensures
        has_prefix(s.subrange(i, s.len() as int), p) ==> find_seq(s, p) == Some(i as nat),
        i == s.len() && !has_prefix(s.subrange(i, s.len() as int), p) ==> find_seq(s, p) is None,
    decreases i,
{
    if i == 0 {
        assert(s.subrange(0, s.len() as int) =~= s);
    } else {
        let t = s.drop_first();
        assert(s.subrange(0, s.len() as int) =~= s);
        assert forall|k: int| 0 <= k < i - 1 implies !has_prefix(
            #[trigger] t.subrange(k, t.len() as int),
            p,
        ) by {
            assert(t.subrange(k, t.len() as int) =~= s.subrange(k + 1, s.len() as int));
        }
        assert(t.subrange(i - 1, t.len() as int) =~= s.subrange(i, s.len() as int));
        lemma_find_seq(t, p, i - 1);
    }
}

pub proof fn lemma_find_seq_bounds(s: Seq<char>, p: Seq<char>)
    ensures
        find_seq(s, p) matches Some(i) ==> i + p.len() <= s.len() && s.subrange(
            i as int,
            (i + p.len()) as int,
        ) == p,
    decreases s.len(),
{
    if !has_prefix(s, p) && s.len() > 0 {
        let t = s.drop_first();
        lemma_find_seq_bounds(t, p);
        if let Some(j) = find_seq(t, p) {
            assert(s.subrange((j + 1) as int, (j + 1 + p.len()) as int) =~= t.subrange(j as int, (j + p.len()) as int));
        }
    }
}

/// Does `s[at..]` start with `p`?
pub fn matches_at(s: &[char], at: usize, p: &[char]) -> (b: bool)
    requires
        at <= s@.len(),
    ensures
        b == has_prefix(s@.subrange(at as int, s@.len() as int), p@),
{
    let ghost t = s@.subrange(at as int, s@.len() as int);
    let slen: usize = s.len();
    if p.len() > slen - at {
        return false;
    }
    let mut k: usize = 0;
    while k < p.len()
        invariant
            k <= p@.len(),
            at <= s@.len(),
            slen == s@.len(),
            at + p@.len() <= slen,
            t == s@.subrange(at as int, s@.len() as int),
            forall|j: int| 0 <= j < k ==> s@[at + j] == #[trigger] p@[j],
        decreases p@.len() - k,
    {
        if s[at + k] != p[k] {
            assert(t[k as int] == s@[at + k]);
            assert(t.subrange(0, p@.len() as int)[k as int] != p@[k as int]);
            return false;
        }
        k += 1;
    }
    assert(t.subrange(0, p@.len() as int) =~= p@);
    true
}

/// Position of the first occurrence of `p` in `s`.
pub fn find_chars(s: &[char], p: &[char]) -> (res: Option<usize>)
    ensures
        res matches Some(i) ==> find_seq(s@, p@) == Some(i as nat),
        res is None ==> find_seq(s@, p@) is None,
{
    let mut i: usize = 0;
    loop
        invariant
            i <= s@.len(),
            forall|k: int| 0 <= k < i ==> !has_prefix(#[trigger] s@.subrange(k, s@.len() as int), p@),
        decreases s@.len() - i,
    {
        if matches_at(s, i, p) {
            proof {
                lemma_find_seq(s@, p@, i as int);
            }
            return Some(i);
        }
        if i == s.len() {
            proof {
                lemma_find_seq(s@, p@, i as int);
            }
            return None;
        }
        i += 1;
    }
}

/// Position of the first occurrence of `p` in `s[from..]`, counted in `s`.
pub fn find_chars_from(s: &[char], p: &[char], from: usize) -> (res: Option<usize>)
    requires
        from <= s@.len(),
    ensures
        res matches Some(i) ==> from <= i && find_seq(s@.skip(from as int), p@) == Some((i - from) as nat),
        res is None ==> find_seq(s@.skip(from as int), p@) is None,
{
    let ghost t = s@.skip(from as int);
    let mut i: usize = from;
    loop
        invariant
            from <= i <= s@.len(),
            t == s@.skip(from as int),
            forall|k: int| 0 <= k < i - from ==> !has_prefix(#[trigger] t.subrange(k, t.len() as int), p@),
        decreases s@.len() - i,
    {
        assert(t.subrange(i - from, t.len() as int) =~= s@.subrange(i as int, s@.len() as int));
        if matches_at(s, i, p) {
            proof {
                lemma_find_seq(t, p@, i - from);
            }
            return Some(i);
        }
        if i == s.len() {
            proof {
                lemma_find_seq(t, p@, i - from);
            }
            return None;
        }
        i += 1;
    }
}

/// Removes `p` from the front of `s`, if `s` starts with it.
pub fn strip_prefix_chars(s: &[char], p: &[char]) -> (res: Option<Vec<char>>)
    ensures
        res matches Some(r) ==> has_prefix(s@, p@) && r@ == s@.subrange(
            p@.len() as int,
            s@.len() as int,
        ),
        res is None ==> !has_prefix(s@, p@),
{
    if matches_at(s, 0, p) {
        assert(s@.subrange(0, s@.len() as int) =~= s@);
        Some(copy_range(s, p.len(), s.len()))
    } else {
        assert(s@.subrange(0, s@.len() as int) =~= s@);
        None
    }
}

/// Splits `s` around the first `c` (`str::split_once` with a char).
pub open spec fn split_once_char(s: Seq<char>, c: char) -> Option<(Seq<char>, Seq<char>)> {
    match index_of(s, c) {
        Some(i) => Some((s.take(i as int), s.skip((i + 1) as int))),
        None => None,
    }
}

pub fn split_once_at_char(s: &[char], c: char) -> (res: Option<(Vec<char>, Vec<char>)>)
    ensures
        res matches Some((a, b)) ==> split_once_char(s@, c) == Some((a@, b@)),
        res is None ==> split_once_char(s@, c) is None,
{
    let n: usize = s.len();
    match find_char(s, c) {
        Some(i) => {
            proof {
                lemma_index_of_bounds(s@, c);
            }
            assert(i < s@.len());
            let a = copy_range(s, 0, i);
            let b = copy_range(s, i + 1, s.len());
            assert(a@ =~= s@.take(i as int));
            assert(b@ =~= s@.skip(i + 1));
            Some((a, b))
        },
        None => None,
    }
}

/// Splits `s` around the first occurrence of `p` (`str::split_once` with a
/// string pattern).
pub open spec fn split_once_seq(s: Seq<char>, p: Seq<char>) -> Option<(Seq<char>, Seq<char>)> {
    match find_seq(s, p) {
        Some(i) => Some((s.take(i as int), s.skip((i + p.len()) as int))),
        None => None,
    }
}

pub fn split_once_at_chars(s: &[char], p: &[char]) -> (res: Option<(Vec<char>, Vec<char>)>)
    ensures
        res matches Some((a, b)) ==> split_once_seq(s@, p@) == Some((a@, b@)),
        res is None ==> split_once_seq(s@, p@) is None,
{
    let n: usize = s.len();
    match find_chars(s, p) {
        Some(i) => {
            proof {
                lemma_find_seq_bounds(s@, p@);
            }
            assert(i + p@.len() <= s@.len());
            let a = copy_range(s, 0, i);
            let b = copy_range(s, i + p.len(), s.len());
            assert(a@ =~= s@.take(i as int));
            assert(b@ =~= s@.skip(i + p@.len()));
            Some((a, b))
        },
        None => None,
    }
}

// ---------------------------------------------------------------------------
// Lines
// ---------------------------------------------------------------------------

/// The pieces of `s` between each `c` (`str::split` with a char): always at
/// least one piece.
pub open spec fn split_char(s: Seq<char>, c: char) -> Seq<Seq<char>>
    decreases s.len(),
{
    match index_of(s, c) {
        Some(i) => {
            if i < s.len() {
                seq![s.take(i as int)] + split_char(s.skip((i + 1) as int), c)
            } else {
                seq![s]
            }
        },
        None => seq![s],
    }
}

/// A line without its trailing carriage return.
pub open spec fn strip_cr(l: Seq<char>) -> Seq<char> {
    if l.len() > 0 && l.last() == '\r' {
        l.drop_last()
    } else {
        l
    }
}

/// The lines of `s` (`str::lines`): the pieces between newlines, each
/// without a trailing `\r`, and without the empty piece after a final
/// newline.
pub open spec fn lines(s: Seq<char>) -> Seq<Seq<char>> {
    let parts = split_char(s, '\n');
    let kept = if parts.last().len() == 0 {
        parts.drop_last()
    } else {
        parts
    };
    kept.map_values(|l: Seq<char>| strip_cr(l))
}

proof fn lemma_split_step(cur: Seq<char>, rest: Seq<char>, c: char)
    requires
        forall|k: int| 0 <= k < cur.len() ==> #[trigger] cur[k] != c,
        rest.len() > 0,
    ensures
        rest[0] == c ==> split_char(cur + rest, c) == seq![cur] + split_char(rest.drop_first(), c),
        rest[0] != c ==> cur + rest == cur.push(rest[0]) + rest.drop_first(),
{
    let s = cur + rest;
    if rest[0] == c {
        assert forall|k: int| 0 <= k < cur.len() implies #[trigger] s[k] != c by {
            assert(s[k] == cur[k]);
        }
        assert(s[cur.len() as int] == c);
        lemma_index_of(s, c, cur.len() as int);
        assert(s.take(cur.len() as int) =~= cur);
        assert(s.skip((cur.len() + 1) as int) =~= rest.drop_first());
    } else {
        assert(cur + rest =~= cur.push(rest[0]) + rest.drop_first());
    }
}

pub(crate) proof fn lemma_split_last(cur: Seq<char>, c: char)
    requires
        forall|k: int| 0 <= k < cur.len() ==> #[trigger] cur[k] != c,
    ensures
        split_char(cur, c) == seq![cur],
{
    lemma_index_of(cur, c, cur.len() as int);
}

/// Splitting text joined around one separator splits each side.
pub(crate) proof fn lemma_split_concat(a: Seq<char>, b: Seq<char>, c: char)
    ensures
        split_char(a + seq![c] + b, c) == split_char(a, c) + split_char(b, c),
    decreases a.len(),
{
    let s = a + seq![c] + b;
    lemma_index_of_bounds(a, c);
    match index_of(a, c) {
        None => {
            assert(s =~= a + (seq![c] + b));
            lemma_split_step(a, seq![c] + b, c);
            assert((seq![c] + b).drop_first() =~= b);
            lemma_split_last(a, c);
        },
        Some(i) => {
            let i = i as int;
            assert forall|k: int| 0 <= k < i implies #[trigger] s[k] != c by {
                assert(s[k] == a[k]);
            }
            assert(s[i] == c);
            lemma_index_of(s, c, i);
            assert(s.take(i) =~= a.take(i));
            assert(s.skip(i + 1) =~= a.skip(i + 1) + seq![c] + b);
            lemma_split_concat(a.skip(i + 1), b, c);
            assert(split_char(s, c) =~= split_char(a, c) + split_char(b, c));
        },
    }
}

/// No piece of a split holds the separator.
pub(crate) proof fn lemma_split_pieces(s: Seq<char>, c: char)
    ensures
        forall|p: int, k: int|
            0 <= p < split_char(s, c).len() && 0 <= k < split_char(s, c)[p].len() ==> #[trigger] split_char(
                s,
                c,
            )[p][k] != c,
    decreases s.len(),
{
    lemma_index_of_bounds(s, c);
    match index_of(s, c) {
        None => {},
        Some(i) => {
            let i = i as int;
            lemma_split_pieces(s.skip(i + 1), c);
            let r = split_char(s, c);
            let t = split_char(s.skip(i + 1), c);
            assert(r == seq![s.take(i)] + t);
            assert forall|p: int, k: int| 0 <= p < r.len() && 0 <= k < r[p].len() implies #[trigger] r[p][k] != c by {
                if p > 0 {
                    assert(r[p] == t[p - 1]);
                }
            }
        },
    }
}

/// Trimming keeps only characters of the text.
pub(crate) proof fn lemma_trim_without(s: Seq<char>, c: char)
    requires
        forall|k: int| 0 <= k < s.len() ==> #[trigger] s[k] != c,
    ensures
        forall|k: int| 0 <= k < trim(s).len() ==> #[trigger] trim(s)[k] != c,
{
    lemma_trim_start_without(s, c);
    lemma_trim_end_without(trim_start(s), c);
}

proof fn lemma_trim_start_without(s: Seq<char>, c: char)
    requires
        forall|k: int| 0 <= k < s.len() ==> #[trigger] s[k] != c,
    ensures
        forall|k: int| 0 <= k < trim_start(s).len() ==> #[trigger] trim_start(s)[k] != c,
    decreases s.len(),
{
    if s.len() > 0 && is_ws(s[0]) {
        let t = s.drop_first();
        assert forall|k: int| 0 <= k < t.len() implies #[trigger] t[k] != c by {
            assert(t[k] == s[k + 1]);
        }
        lemma_trim_start_without(t, c);
        assert(trim_start(s) == trim_start(t));
    } else {
        assert(trim_start(s) == s);
    }
}

proof fn lemma_trim_end_without(s: Seq<char>, c: char)
    requires
        forall|k: int| 0 <= k < s.len() ==> #[trigger] s[k] != c,
    ensures
        forall|k: int| 0 <= k < trim_end(s).len() ==> #[trigger] trim_end(s)[k] != c,
    decreases s.len(),
{
    if s.len() > 0 && is_ws(s.last()) {
        let t = s.drop_last();
        assert forall|k: int| 0 <= k < t.len() implies #[trigger] t[k] != c by {
            assert(t[k] == s[k]);
        }
        lemma_trim_end_without(t, c);
        assert(trim_end(s) == trim_end(t));
    } else {
        assert(trim_end(s) == s);
    }
}

proof fn lemma_trim_start_shape(s: Seq<char>)
    ensures
        trim_start(s).len() > 0 ==> !is_ws(trim_start(s)[0]),
    decreases s.len(),
{
    if s.len() > 0 && is_ws(s[0]) {
        lemma_trim_start_shape(s.drop_first());
    }
}

proof fn lemma_trim_end_shape(s: Seq<char>)
    ensures
        trim_end(s).len() <= s.len(),
        trim_end(s) == s.take(trim_end(s).len() as int),
        trim_end(s).len() > 0 ==> !is_ws(trim_end(s).last()),
    decreases s.len(),
{
    if s.len() > 0 && is_ws(s.last()) {
        lemma_trim_end_shape(s.drop_last());
        assert(s.drop_last().take(trim_end(s).len() as int) =~= s.take(trim_end(s).len() as int));
    } else {
        assert(s.take(s.len() as int) =~= s);
    }
}

/// Trimmed text trims to itself.
pub(crate) proof fn lemma_trim_idem(s: Seq<char>)
    ensures
        trim(trim(s)) == trim(s),
{
    let a = trim_start(s);
    let t = trim_end(a);
    lemma_trim_start_shape(s);
    lemma_trim_end_shape(a);
    if t.len() > 0 {
        assert(t[0] == a[0]);
        assert(trim_start(t) == t);
        lemma_trim_end_shape(t);
        assert(trim_end(t) == t);
    } else {
        assert(trim_start(t) == t);
    }
}

/// Text that starts and ends with non-whitespace trims to itself.
pub(crate) proof fn lemma_trim_ends(s: Seq<char>)
    requires
        s.len() > 0,
        !is_ws(s[0]),
        !is_ws(s.last()),
    ensures
        trim(s) == s,
{
    assert(trim_start(s) == s);
    assert(trim_end(s) == s);
}

/// A leading space goes when trimming.
pub(crate) proof fn lemma_trim_space(v: Seq<char>)
    ensures
        trim(seq![' '] + v) == trim(v),
{
    let s = seq![' '] + v;
    assert(is_ws(' '));
    assert(s.drop_first() =~= v);
    assert(trim_start(s) == trim_start(v));
}

/// The character sequences held by a list of vectors.
pub open spec fn views(v: Seq<Vec<char>>) -> Seq<Seq<char>> {
    v.map_values(|x: Vec<char>| x@)
}

/// The pieces of `s` between each `c` (`str::split` with a char).
pub fn split_on(s: &[char], c: char) -> (res: Vec<Vec<char>>)
    ensures
        views(res@) == split_char(s@, c),
{
    let mut res: Vec<Vec<char>> = Vec::new();
    let mut cur: Vec<char> = Vec::new();
    let mut i: usize = 0;
    assert(cur@ + s@.subrange(0, s@.len() as int) =~= s@);
    assert(views(res@) =~= Seq::<Seq<char>>::empty());
    while i < s.len()
        invariant
            i <= s@.len(),
            forall|k: int| 0 <= k < cur@.len() ==> #[trigger] cur@[k] != c,
            split_char(s@, c) == views(res@) + split_char(
                cur@ + s@.subrange(i as int, s@.len() as int),
                c,
            ),
        decreases s@.len() - i,
    {
        let ghost rest = s@.subrange(i as int, s@.len() as int);
        proof {
            lemma_split_step(cur@, rest, c);
        }
        if s[i] == c {
            assert(rest.drop_first() =~= s@.subrange(i + 1, s@.len() as int));
            let ghost old_res = views(res@);
            res.push(cur);
            assert(views(res@) =~= old_res.push(cur@));
            assert(old_res + (seq![cur@] + split_char(rest.drop_first(), c)) =~= old_res.push(
                cur@,
            ) + split_char(rest.drop_first(), c));
            cur = Vec::new();
            assert(cur@ + s@.subrange(i + 1, s@.len() as int) =~= s@.subrange(
                i + 1,
                s@.len() as int,
            ));
        } else {
            cur.push(s[i]);
            assert(rest.drop_first() =~= s@.subrange(i + 1, s@.len() as int));
        }
        i += 1;
    }
    proof {
        assert(cur@ + s@.subrange(i as int, s@.len() as int) =~= cur@);
        lemma_split_last(cur@, c);
    }
    let ghost old_res = views(res@);
    res.push(cur);
    assert(views(res@) =~= old_res + seq![cur@]);
    res
}

/// The pieces of `s` between each `\n` (before any `\r` handling).
fn split_newlines(s: &[char]) -> (res: Vec<Vec<char>>)
    ensures
        views(res@) == split_char(s@, '\n'),
{
    split_on(s, '\n')
}

proof fn lemma_split_nonempty(s: Seq<char>, c: char)
    ensures
        split_char(s, c).len() >= 1,
    decreases s.len(),
{
    lemma_index_of_bounds(s, c);
    if let Some(i) = index_of(s, c) {
        lemma_split_nonempty(s.skip((i + 1) as int), c);
    }
}

/// `l` without a trailing `\r`.
pub fn strip_cr_chars(l: Vec<char>) -> (res: Vec<char>)
    ensures
        res@ == strip_cr(l@),
{
    let mut l = l;
    if l.len() > 0 && l[l.len() - 1] == '\r' {
        l.pop();
    }
    l
}

/// The lines of `s`, as `str::lines` gives them.
pub fn lines_of(s: &[char]) -> (res: Vec<Vec<char>>)
    ensures
        views(res@) == lines(s@),
{
    let mut parts = split_newlines(s);
    proof {
        lemma_split_nonempty(s@, '\n');
    }
    let ghost parts0 = views(parts@);
    if parts[parts.len() - 1].len() == 0 {
        parts.pop();
        assert(views(parts@) =~= parts0.drop_last());
    }
    let ghost kept = views(parts@);
    let mut res: Vec<Vec<char>> = Vec::new();
    let mut i: usize = 0;
    while i < parts.len()
        invariant
            i <= parts@.len(),
            kept == views(parts@),
            views(res@) == kept.take(i as int).map_values(|l: Seq<char>| strip_cr(l)),
        decreases parts@.len() - i,
    {
        let l = strip_cr_chars(copy_range(parts[i].as_slice(), 0, parts[i].len()));
        assert(parts@[i as int]@.subrange(0, parts@[i as int]@.len() as int) =~= kept[i as int]);
        let ghost old_res = views(res@);
        res.push(l);
        assert(views(res@) =~= old_res.push(l@));
        assert(kept.take(i + 1).map_values(|l: Seq<char>| strip_cr(l)) =~= kept.take(
            i as int,
        ).map_values(|l: Seq<char>| strip_cr(l)).push(strip_cr(kept[i as int])));
        i += 1;
    }
    assert(kept.take(i as int) =~= kept);
    res
}

// ---------------------------------------------------------------------------
// Case
// ---------------------------------------------------------------------------

/// `c` with ASCII `A`-`Z` mapped to `a`-`z` (`char::to_ascii_lowercase`).
pub open spec fn ascii_lower(c: char) -> char {
    if 'A' <= c <= 'Z' {
        ((c as u32) + 32) as char
    } else {
        c
    }
}

pub fn to_ascii_lower(c: char) -> (r: char)
    ensures
        r == ascii_lower(c),
{
    if 'A' <= c && c <= 'Z' {
        ((c as u8) + 32) as char
    } else {
        c
    }
}

/// `s` with every ASCII capital lowered (`str::to_ascii_lowercase`).
pub open spec fn ascii_lower_seq(s: Seq<char>) -> Seq<char> {
    s.map_values(|c: char| ascii_lower(c))
}

pub fn ascii_lowercase_chars(s: &[char]) -> (res: Vec<char>)
    ensures
        res@ == ascii_lower_seq(s@),
{
    let mut res: Vec<char> = Vec::new();
    let mut i: usize = 0;
    while i < s.len()
        invariant
            i <= s@.len(),
            res@ == ascii_lower_seq(s@.take(i as int)),
        decreases s@.len() - i,
    {
        res.push(to_ascii_lower(s[i]));
        assert(ascii_lower_seq(s@.take(i + 1)) =~= ascii_lower_seq(s@.take(i as int)).push(
            ascii_lower(s@[i as int]),
        ));
        i += 1;
    }
    assert(s@.take(i as int) =~= s@);
    res
}

/// `a` and `b` are equal up to ASCII case (`str::eq_ignore_ascii_case`).
pub open spec fn eq_ignore_ascii_case(a: Seq<char>, b: Seq<char>) -> bool {
    ascii_lower_seq(a) == ascii_lower_seq(b)
}

pub fn eq_ignore_ascii_case_chars(a: &[char], b: &[char]) -> (r: bool)
    ensures
        r == eq_ignore_ascii_case(a@, b@),
{
    if a.len() != b.len() {
        assert(ascii_lower_seq(a@).len() != ascii_lower_seq(b@).len());
        return false;
    }
    let mut i: usize = 0;
    while i < a.len()
        invariant
            i <= a@.len() == b@.len(),
            forall|k: int| 0 <= k < i ==> ascii_lower(#[trigger] a@[k]) == ascii_lower(b@[k]),
        decreases a@.len() - i,
    {
        if to_ascii_lower(a[i]) != to_ascii_lower(b[i]) {
            assert(ascii_lower_seq(a@)[i as int] != ascii_lower_seq(b@)[i as int]);
            return false;
        }
        i += 1;
    }
    assert(ascii_lower_seq(a@) =~= ascii_lower_seq(b@));
    true
}

/// Exact equality of two character sequences.
pub fn chars_eq(a: &[char], b: &[char]) -> (r: bool)
    ensures
        r == (a@ == b@),
{
    if a.len() != b.len() {
        return false;
    }
    let mut i: usize = 0;
    while i < a.len()
        invariant
            i <= a@.len() == b@.len(),
            forall|k: int| 0 <= k < i ==> #[trigger] a@[k] == b@[k],
        decreases a@.len() - i,
    {
        if a[i] != b[i] {
            return false;
        }
        i += 1;
    }
    assert(a@ =~= b@);
    true
}

// ---------------------------------------------------------------------------
// Decimal numbers
// ---------------------------------------------------------------------------

pub open spec fn is_digit(c: char) -> bool {
    48 <= (c as u32) <= 57
}

pub open spec fn all_digits(s: Seq<char>) -> bool {
    forall|i: int| 0 <= i < s.len() ==> is_digit(#[trigger] s[i])
}

pub open spec fn digit_value(c: char) -> nat {
    ((c as u32) - 48) as nat
}

/// The number a run of decimal digits spells.
pub open spec fn digits_value(s: Seq<char>) -> nat
    decreases s.len(),
{
    if s.len() == 0 {
        0
    } else {
        digits_value(s.drop_last()) * 10 + digit_value(s.last())
    }
}

/// The unsigned magnitude `s` spells after an optional `+` (the grammar of
/// `u64::from_str`): `None` when it isn't one.
pub open spec fn unsigned_magnitude(s: Seq<char>) -> Option<nat> {
    let d = if s.len() > 0 && s[0] == '+' {
        s.drop_first()
    } else {
        s
    };
    if d.len() > 0 && all_digits(d) {
        Some(digits_value(d))
    } else {
        None
    }
}

/// `usize::from_str`.
pub open spec fn parse_usize_spec(s: Seq<char>) -> Option<usize> {
    match unsigned_magnitude(s) {
        Some(v) => if v <= usize::MAX {
            Some(v as usize)
        } else {
            None
        },
        None => None,
    }
}

/// `i64::from_str`: an optional sign, then decimal digits, in range.
pub open spec fn parse_i64_spec(s: Seq<char>) -> Option<i64> {
    if s.len() > 0 && s[0] == '-' {
        let d = s.drop_first();
        if d.len() > 0 && all_digits(d) && digits_value(d) <= 0x8000_0000_0000_0000 {
            Some((0 - digits_value(d)) as i64)
        } else {
            None
        }
    } else {
        match unsigned_magnitude(s) {
            Some(v) => if v <= i64::MAX {
                Some(v as i64)
            } else {
                None
            },
            None => None,
        }
    }
}

proof fn lemma_digits_value_step(s: Seq<char>, i: int)
    requires
        0 <= i < s.len(),
    ensures
        digits_value(s.take(i + 1)) == digits_value(s.take(i)) * 10 + digit_value(s[i]),
{
    assert(s.take(i + 1).drop_last() =~= s.take(i));
}

proof fn lemma_digits_value_grows(s: Seq<char>, i: int)
    requires
        0 <= i <= s.len(),
    ensures
        digits_value(s.take(i)) <= digits_value(s),
    decreases s.len() - i,
{
    if i < s.len() {
        lemma_digits_value_step(s, i);
        lemma_digits_value_grows(s, i + 1);
    } else {
        assert(s.take(i) =~= s);
    }
}

/// The value of the decimal digits `s[from..]`, or `None` when one is not a
/// digit, there are none, or the value exceeds `bound`.
fn digits_up_to(s: &[char], from: usize, bound: u64) -> (res: Option<u64>)
    requires
        from <= s@.len(),
        bound >= 9,
    ensures
        ({
            let d = s@.skip(from as int);
            &&& res matches Some(v) ==> d.len() > 0 && all_digits(d) && v == digits_value(d) && v
                <= bound
            &&& res is None ==> !(d.len() > 0 && all_digits(d) && digits_value(d) <= bound)
        }),
{
    let ghost d = s@.skip(from as int);
    if from == s.len() {
        return None;
    }
    let mut acc: u64 = 0;
    let mut i: usize = from;
    while i < s.len()
        invariant
            from <= i <= s@.len(),
            d == s@.skip(from as int),
            all_digits(d.take(i - from)),
            acc == digits_value(d.take(i - from)),
            acc <= bound,
            bound >= 9,
        decreases s@.len() - i,
    {
        let c = s[i];
        assert(d[i - from] == c);
        let cu: u32 = c as u32;
        if cu < 48 || cu > 57 {
            assert(!is_digit(d[i - from]));
            assert(!all_digits(d));
            return None;
        }
        let v: u64 = (cu - 48) as u64;
        proof {
            lemma_digits_value_step(d, i - from);
        }
        if acc > (bound - v) / 10 {
            proof {
                assert(acc * 10 + v > bound) by (nonlinear_arith)
                    requires
                        acc > (bound - v) / 10,
                        v <= 9,
                        v <= bound || acc * 10 + v > bound,
                ;
                lemma_digits_value_grows(d, i - from + 1);
            }
            return None;
        }
        assert(acc * 10 + v <= bound) by (nonlinear_arith)
            requires
                acc <= (bound - v) / 10,
                v <= bound,
        ;
        acc = acc * 10 + v;
        assert(all_digits(d.take(i - from + 1))) by {
            assert forall|k: int| 0 <= k < i - from + 1 implies is_digit(
                #[trigger] d.take(i - from + 1)[k],
            ) by {
                if k < i - from {
                    assert(d.take(i - from + 1)[k] == d.take(i - from)[k]);
                }
            }
        }
        i += 1;
    }
    assert(d.take(i - from) =~= d);
    Some(acc)
}

/// `usize::from_str` on a character sequence.
pub fn parse_usize(s: &[char]) -> (res: Option<usize>)
    ensures
        res == parse_usize_spec(s@),
{
    let start: usize = if s.len() > 0 && s[0] == '+' {
        1
    } else {
        0
    };
    assert(s@.skip(start as int) =~= (if s@.len() > 0 && s@[0] == '+' {
        s@.drop_first()
    } else {
        s@
    }));
    match digits_up_to(s, start, usize::MAX as u64) {
        Some(v) => Some(v as usize),
        None => None,
    }
}

/// `i64::from_str` on a character sequence.
pub fn parse_i64(s: &[char]) -> (res: Option<i64>)
    ensures
        res == parse_i64_spec(s@),
{
    if s.len() > 0 && s[0] == '-' {
        assert(s@.skip(1) =~= s@.drop_first());
        match digits_up_to(s, 1, 0x8000_0000_0000_0000u64) {
            Some(v) => {
                if v == 0x8000_0000_0000_0000u64 {
                    Some(i64::MIN)
                } else {
                    Some(0 - (v as i64))
                }
            },
            None => None,
        }
    } else {
        let start: usize = if s.len() > 0 && s[0] == '+' {
            1
        } else {
            0
        };
        assert(s@.skip(start as int) =~= (if s@.len() > 0 && s@[0] == '+' {
            s@.drop_first()
        } else {
            s@
        }));
        match digits_up_to(s, start, i64::MAX as u64) {
            Some(v) => Some(v as i64),
            None => None,
        }
    }
}

// ---------------------------------------------------------------------------
// Strings
// ---------------------------------------------------------------------------

/// Appends `c` to `s` (`String::push`).
#[verifier::external_body]
pub(crate) fn push_char(s: &mut String, c: char)
    ensures
        final(s)@ == old(s)@.push(c),
{
    s.push(c);
}

/// The string spelled by `v`.
pub fn string_of(v: &[char]) -> (res: String)
    ensures
        res@ == v@,
{
    let mut res = String::new();
    let mut i: usize = 0;
    while i < v.len()
        invariant
            i <= v@.len(),
            res@ == v@.take(i as int),
        decreases v@.len() - i,
    {
        push_char(&mut res, v[i]);
        assert(v@.take(i + 1) =~= v@.take(i as int).push(v@[i as int]));
        i += 1;
    }
    assert(v@.take(i as int) =~= v@);
    res
}

/// Appends every character of `v` to `out`.
pub fn push_chars(out: &mut Vec<char>, v: &[char])
    ensures
        final(out)@ == old(out)@ + v@,
{
    let mut i: usize = 0;
    while i < v.len()
        invariant
            i <= v@.len(),
            out@ == old(out)@ + v@.take(i as int),
        decreases v@.len() - i,
    {
        out.push(v[i]);
        assert(v@.take(i + 1) =~= v@.take(i as int).push(v@[i as int]));
        i += 1;
    }
    assert(v@.take(i as int) =~= v@);
}

/// Appends every character of `s` to `out`.
pub fn push_str(out: &mut Vec<char>, s: &str)
    ensures
        final(out)@ == old(out)@ + s@,
{
    let v = chars_of(s);
    push_chars(out, v.as_slice());
}

/// The characters of `s`, in order.
pub fn chars_of(s: &str) -> (res: Vec<char>)
    ensures
        res@ == s@,
{
    let mut res: Vec<char> = Vec::new();
    for c in it: s.chars()
        invariant
            res@ == it.seq().take(it.index() as int),
            it.seq() == s@,
    {
        res.push(c);
    }
    res
}

/// Unicode lowercase of a string, as `str::to_lowercase` computes it.
pub uninterp spec fn lowercase(s: Seq<char>) -> Seq<char>;

/// `str::to_lowercase`: the full Unicode lowercase mapping of `s`, including
/// its context-dependent final-sigma rule. The contract names the result as
/// a function of `s` alone, and states what std documents for ASCII text
/// (`to_ascii_lowercase` is the same mapping restricted to ASCII): each
/// letter `A`..`Z` becomes its lowercase letter, everything else stays.
#[verifier::external_body]
pub(crate) fn to_lowercase(s: &str) -> (res: String)
    ensures
        res@ == lowercase(s@),
        (forall|i: int| 0 <= i < s@.len() ==> (#[trigger] s@[i] as u32) < 128) ==> res@ == ascii_lower_seq(s@),
{
    s.to_lowercase()
}

} // verus!
