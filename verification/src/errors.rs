//! How a chain of error causes is reported.
use vstd::prelude::*;
use crate::text::{chars_eq, chars_of, push_chars, string_of};

verus! {

/// The messages of a cause chain with repeats dropped (first one kept),
/// `acc` holding what is kept so far.
pub open spec fn distinct_messages(ms: Seq<Seq<char>>) -> Seq<Seq<char>>
    decreases ms.len(),
{
    if ms.len() == 0 {
        Seq::empty()
    } else {
        let rest = distinct_messages(ms.drop_last());
        if rest.contains(ms.last()) {
            rest
        } else {
            rest.push(ms.last())
        }
    }
}

/// Messages joined with `": "`.
pub open spec fn colon_joined(ms: Seq<Seq<char>>) -> Seq<char>
    decreases ms.len(),
{
    if ms.len() == 0 {
        Seq::empty()
    } else if ms.len() == 1 {
        ms[0]
    } else {
        colon_joined(ms.drop_last()) + seq![':', ' '] + ms.last()
    }
}

/// An error and its causes, outermost first, as one line: each distinct
/// message once, joined with `": "`.
pub fn join_error_chain(messages: &[String]) -> (r: String)
    ensures
        r@ == colon_joined(distinct_messages(messages@.map_values(|s: String| s@))),
{
    let ghost mv = messages@.map_values(|s: String| s@);
    let mut kept: Vec<Vec<char>> = Vec::new();
    let mut i: usize = 0;
    while i < messages.len()
        invariant
            i <= messages@.len(),
            mv == messages@.map_values(|s: String| s@),
            crate::text::views(kept@) == distinct_messages(mv.take(i as int)),
        decreases messages@.len() - i,
    {
        assert(mv.take(i + 1).drop_last() =~= mv.take(i as int));
        assert(mv.take(i + 1).last() == messages@[i as int]@);
        let m = chars_of(messages[i].as_str());
        let mut found = false;
        let mut k: usize = 0;
        while k < kept.len()
            invariant
                k <= kept@.len(),
                found == exists|j: int| 0 <= j < k && kept@[j]@ == m@,
            decreases kept@.len() - k,
        {
            if chars_eq(kept[k].as_slice(), m.as_slice()) {
                found = true;
            }
            k += 1;
        }
        proof {
            let kv = crate::text::views(kept@);
            if found {
                let j = choose|j: int| 0 <= j < kept@.len() && kept@[j]@ == m@;
                assert(kv[j] == m@);
            } else if kv.contains(m@) {
                let j = choose|j: int| 0 <= j < kv.len() && kv[j] == m@;
                assert(kept@[j]@ == m@);
            }
        }
        if !found {
            let ghost before = crate::text::views(kept@);
            kept.push(m);
            assert(crate::text::views(kept@) =~= before.push(messages@[i as int]@));
        }
        i += 1;
    }
    assert(mv.take(i as int) =~= mv);
    let ghost kv = crate::text::views(kept@);
    let mut out: Vec<char> = Vec::new();
    let mut j: usize = 0;
    while j < kept.len()
        invariant
            j <= kept@.len(),
            kv == crate::text::views(kept@),
            out@ == colon_joined(kv.take(j as int)),
        decreases kept@.len() - j,
    {
        assert(kv.take(j + 1).drop_last() =~= kv.take(j as int));
        assert(kv.take(j + 1).last() == kept@[j as int]@);
        if j > 0 {
            out.push(':');
            out.push(' ');
        }
        push_chars(&mut out, kept[j].as_slice());
        proof {
            if j == 0 {
                assert(out@ =~= kv.take(1)[0]);
            } else {
                assert(out@ =~= colon_joined(kv.take(j as int)) + seq![':', ' '] + kept@[j as int]@);
            }
        }
        j += 1;
    }
    assert(kv.take(j as int) =~= kv);
    string_of(out.as_slice())
}

} // verus!
