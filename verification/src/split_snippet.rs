use crate::smart_insert::{byte_slice, slice_ok, text_between};
use std::ops::Range;
use vstd::prelude::*;
use vstd::utf8::encode_utf8;

verus! {

/// A match of a metavariable regex in a snippet: its byte offsets and text.
#[derive(Clone, Debug)]
pub struct RegexMatch {
    pub start: usize,
    pub end: usize,
    pub text: String,
}

/// A metavariable found in a snippet: start and end offset, and its name.
pub type MetavariableEntry = (u32, u32, Seq<char>);

/// A bracketed metavariable `$[name]` can be cut to `name`: it is at least
/// three bytes long and bytes 2 and `len - 1` fall on character boundaries.
pub open spec fn curly_match_ok(m: RegexMatch) -> bool {
    let b = encode_utf8(m.text@);
    slice_ok(b, 2, b.len() - 1)
}

/// The metavariables in the order the regexes found them: plain matches as
/// they are, then bracketed ones as `$` followed by what stands between the
/// brackets.
pub open spec fn found_metavariables(vars: Seq<RegexMatch>, curly: Seq<RegexMatch>) -> Seq<MetavariableEntry> {
    vars.map_values(|m: RegexMatch| (m.start as u32, m.end as u32, m.text@)) + curly.map_values(
        |m: RegexMatch|
            (
                m.start as u32,
                m.end as u32,
                seq!['$'] + text_between(encode_utf8(m.text@), 2, encode_utf8(m.text@).len() - 1),
            ),
    )
}

/// The entries that a result holds.
pub open spec fn entries_view(v: Seq<(Range<u32>, String)>) -> Seq<MetavariableEntry> {
    v.map_values(|e: (Range<u32>, String)| (e.0.start, e.0.end, e.1@))
}

/// Starts never increase from left to right.
pub open spec fn sorted_by_start_descending(s: Seq<MetavariableEntry>) -> bool {
    forall|i: int, j: int| 0 <= i < j < s.len() ==> (#[trigger] s[i]).0 >= (#[trigger] s[j]).0
}

/// `new` holds the entries of `old` rearranged by the one-to-one `p`
/// (`new[i] == old[p[i]]`), entries with equal starts in their old order.
pub open spec fn stable_by_start(old: Seq<MetavariableEntry>, new: Seq<MetavariableEntry>, p: Seq<int>) -> bool {
    &&& new.len() == old.len()
    &&& p.len() == new.len()
    &&& forall|i: int| 0 <= i < p.len() ==> 0 <= #[trigger] p[i] < old.len() && new[i] == old[p[i]]
    &&& forall|i: int, j: int| 0 <= i < j < p.len() ==> #[trigger] p[i] != #[trigger] p[j]
    &&& forall|i: int, j: int|
        0 <= i < j < p.len() && new[i].0 == new[j].0 ==> #[trigger] p[i] < #[trigger] p[j]
}

#[verifier::external_body]
fn swap_entries(list: &mut Vec<(Range<u32>, String)>, i: usize, j: usize)
    requires
        i < old(list)@.len(),
        j < old(list)@.len(),
    ensures
        final(list)@ == old(list)@.update(i as int, old(list)@[j as int]).update(
            j as int,
            old(list)@[i as int],
        ),
{
    list.swap(i, j)
}

/// Stable insertion sort by start, descending.
fn sort_by_start_descending(list: &mut Vec<(Range<u32>, String)>) -> (p: Ghost<Seq<int>>)
    ensures
        sorted_by_start_descending(entries_view(final(list)@)),
        stable_by_start(entries_view(old(list)@), entries_view(final(list)@), p@),
{
    let n = list.len();
    let ghost orig = entries_view(list@);
    let ghost mut p: Seq<int> = Seq::new(n as nat, |k: int| k);
    let mut i: usize = 0;
    while i < n
        invariant
            n == list@.len(),
            orig.len() == n,
            0 <= i <= n,
            p.len() == n,
            forall|k: int| 0 <= k < n ==> 0 <= #[trigger] p[k] < n && entries_view(list@)[k] == orig[p[k]],
            forall|k: int| i <= k < n ==> #[trigger] p[k] == k,
            forall|k: int| 0 <= k < i ==> #[trigger] p[k] < i,
            forall|k: int, l: int| 0 <= k < l < n ==> #[trigger] p[k] != #[trigger] p[l],
            forall|k: int, l: int|
                0 <= k < l < i && entries_view(list@)[k].0 == entries_view(list@)[l].0 ==> #[trigger] p[k]
                    < #[trigger] p[l],
            forall|k: int, l: int|
                0 <= k < l < i ==> (#[trigger] entries_view(list@)[k]).0 >= (#[trigger] entries_view(list@)[l]).0,
        decreases n - i,
    {
        let mut j: usize = i;
        while j > 0 && list[j].0.start > list[j - 1].0.start
            invariant
                n == list@.len(),
                orig.len() == n,
                0 <= j <= i < n,
                p.len() == n,
                p[j as int] == i,
                forall|k: int| 0 <= k < n ==> 0 <= #[trigger] p[k] < n && entries_view(list@)[k] == orig[p[k]],
                forall|k: int| i < k < n ==> #[trigger] p[k] == k,
                forall|k: int| 0 <= k <= i ==> #[trigger] p[k] <= i,
                forall|k: int, l: int| 0 <= k < l < n ==> #[trigger] p[k] != #[trigger] p[l],
                forall|k: int, l: int|
                    0 <= k < l <= i && k != j && l != j && entries_view(list@)[k].0 == entries_view(list@)[l].0
                        ==> #[trigger] p[k] < #[trigger] p[l],
                forall|k: int, l: int|
                    0 <= k < l <= i && k != j && l != j ==> (#[trigger] entries_view(list@)[k]).0 >= (
                    #[trigger] entries_view(list@)[l]).0,
                forall|l: int|
                    j < l <= i ==> entries_view(list@)[j as int].0 > (#[trigger] entries_view(list@)[l]).0,
                forall|k: int, l: int|
                    0 <= k < j < l <= i ==> (#[trigger] entries_view(list@)[k]).0 >= (
                    #[trigger] entries_view(list@)[l]).0,
            decreases j,
        {
            let ghost before = entries_view(list@);
            swap_entries(list, j - 1, j);
            proof {
                let a = (j - 1) as int;
                let b = j as int;
                let after = entries_view(list@);
                assert(after =~= before.update(a, before[b]).update(b, before[a]));
                p = p.update(a, p[b]).update(b, p[a]);
            }
            j = j - 1;
        }
        proof {
            let s = entries_view(list@);
            assert forall|k: int, l: int| 0 <= k < l < i + 1 && s[k].0 == s[l].0 implies #[trigger] p[k]
                < #[trigger] p[l] by {
                if l == j {
                    assert(p[k] <= i);
                    assert(p[k] != p[l]);
                }
            }
            assert forall|k: int, l: int| 0 <= k < l < i + 1 implies (#[trigger] s[k]).0 >= (#[trigger] s[l]).0 by {
                if l == j && k < j && j > 0 {
                    assert(s[j - 1].0 >= s[j as int].0);
                    if k < j - 1 {
                        assert(s[k].0 >= s[j - 1].0);
                    }
                }
            }
        }
        i = i + 1;
    }
    Ghost(p)
}

/// The metavariables of a snippet, from the matches of the language's two
/// metavariable regexes: plain ones (`$name`) as matched, bracketed ones
/// (`$[name]`) as `$name`; all sorted by start offset, descending.
pub fn split_snippet(vars: &Vec<RegexMatch>, curly: &Vec<RegexMatch>) -> (r: Vec<(Range<u32>, String)>)
    requires
        forall|i: int| 0 <= i < curly@.len() ==> curly_match_ok(#[trigger] curly@[i]),
    ensures
        sorted_by_start_descending(entries_view(r@)),
        exists|p: Seq<int>| stable_by_start(found_metavariables(vars@, curly@), entries_view(r@), p),
{
    let mut ranges_and_metavars: Vec<(Range<u32>, String)> = Vec::new();
    let mut i: usize = 0;
    while i < vars.len()
        invariant
            0 <= i <= vars@.len(),
            entries_view(ranges_and_metavars@) == vars@.take(i as int).map_values(
                |m: RegexMatch| (m.start as u32, m.end as u32, m.text@),
            ),
        decreases vars@.len() - i,
    {
        let m = &vars[i];
        let ghost before = ranges_and_metavars@;
        ranges_and_metavars.push((m.start as u32..m.end as u32, m.text.clone()));
        assert(entries_view(ranges_and_metavars@) =~= vars@.take(i + 1).map_values(
            |m: RegexMatch| (m.start as u32, m.end as u32, m.text@),
        )) by {
            assert(entries_view(ranges_and_metavars@) =~= entries_view(before).push(
                (m.start as u32, m.end as u32, m.text@),
            ));
        }
        i = i + 1;
    }
    assert(vars@.take(vars@.len() as int) == vars@);
    let ghost plain = entries_view(ranges_and_metavars@);
    let mut c: usize = 0;
    while c < curly.len()
        invariant
            0 <= c <= curly@.len(),
            forall|i: int| 0 <= i < curly@.len() ==> curly_match_ok(#[trigger] curly@[i]),
            entries_view(ranges_and_metavars@) == plain + curly@.take(c as int).map_values(
                |m: RegexMatch|
                    (
                        m.start as u32,
                        m.end as u32,
                        seq!['$'] + text_between(encode_utf8(m.text@), 2, encode_utf8(m.text@).len() - 1),
                    ),
            ),
        decreases curly@.len() - c,
    {
        let m = &curly[c];
        assert(curly_match_ok(curly@[c as int]));
        let len = m.text.as_str().as_bytes().len();
        let inner = byte_slice(m.text.as_str(), 2, len - 1);
        let mut metavar = "$".to_owned();
        proof {
            reveal_strlit("$");
        }
        metavar.append(inner);
        assert(metavar@ =~= seq!['$'] + inner@);
        let ghost before = ranges_and_metavars@;
        ranges_and_metavars.push((m.start as u32..m.end as u32, metavar));
        assert(entries_view(ranges_and_metavars@) =~= entries_view(before).push(
            (m.start as u32, m.end as u32, metavar@),
        ));
        assert(curly@.take(c + 1) == curly@.take(c as int).push(curly@[c as int]));
        c = c + 1;
    }
    assert(curly@.take(curly@.len() as int) == curly@);
    assert(entries_view(ranges_and_metavars@) =~= found_metavariables(vars@, curly@));
    let p = sort_by_start_descending(&mut ranges_and_metavars);
    assert(stable_by_start(found_metavariables(vars@, curly@), entries_view(ranges_and_metavars@), p@));
    ranges_and_metavars
}

} // verus!
