use std::cmp::Ordering;
use std::ops::Range;
use vstd::prelude::*;

verus! {

/// Something that occupies a half-open span `[start, end)` of a source file.
pub trait Interval {
    /// The `(start, end)` pair that `interval` returns.
    spec fn span(&self) -> (u32, u32);

    fn interval(&self) -> (r: (u32, u32))
        ensures
            r == self.span(),
    ;
}

impl Interval for Range<u32> {
    open spec fn span(&self) -> (u32, u32) {
        (self.start, self.end)
    }

    fn interval(&self) -> (r: (u32, u32)) {
        (self.start, self.end)
    }
}

/// `a` comes strictly before `b` in earliest-deadline order:
/// ends ascending, and for equal ends the later start (the narrower span) first.
pub open spec fn precedes(a: (u32, u32), b: (u32, u32)) -> bool {
    a.1 < b.1 || (a.1 == b.1 && a.0 > b.0)
}

/// The three-way comparison that earliest-deadline order makes of two spans.
pub open spec fn deadline_order(a: (u32, u32), b: (u32, u32)) -> Ordering {
    if precedes(a, b) {
        Ordering::Less
    } else if precedes(b, a) {
        Ordering::Greater
    } else {
        Ordering::Equal
    }
}

fn compare<T: Interval>(i1: &T, i2: &T) -> (o: Ordering)
    ensures
        o == deadline_order(i1.span(), i2.span()),
{
    let i1 = i1.interval();
    let i2 = i2.interval();
    if i1.1 < i2.1 {
        return Ordering::Less;
    }
    if i1.1 > i2.1 {
        return Ordering::Greater;
    }
    if i1.0 > i2.0 {
        return Ordering::Less;
    }
    if i1.0 < i2.0 {
        return Ordering::Greater;
    }
    Ordering::Equal
}

fn is_before<T: Interval>(a: &T, b: &T) -> (r: bool)
    ensures
        r == precedes(a.span(), b.span()),
{
    match compare(a, b) {
        Ordering::Less => true,
        _ => false,
    }
}

/// The span of the `i`-th element of `s`.
pub open spec fn span_at<T: Interval>(s: Seq<T>, i: int) -> (u32, u32) {
    s[i].span()
}

/// No element of `s` comes strictly before an element to its left.
pub open spec fn sorted_by_deadline<T: Interval>(s: Seq<T>) -> bool {
    forall|i: int, j: int|
        0 <= i < j < s.len() ==> !precedes(#[trigger] span_at(s, j), #[trigger] span_at(s, i))
}

/// `new` holds the elements of `old` rearranged by the one-to-one map `p`
/// (`new[i] == old[p[i]]`), and elements with equal spans keep their relative order.
pub open spec fn stable_rearrangement<T: Interval>(old: Seq<T>, new: Seq<T>, p: Seq<int>) -> bool {
    &&& new.len() == old.len()
    &&& p.len() == new.len()
    &&& forall|i: int| 0 <= i < p.len() ==> 0 <= #[trigger] p[i] < old.len() && new[i] == old[p[i]]
    &&& forall|i: int, j: int| 0 <= i < j < p.len() ==> #[trigger] p[i] != #[trigger] p[j]
    &&& forall|i: int, j: int|
        0 <= i < j < p.len() && span_at(new, i) == span_at(new, j) ==> #[trigger] p[i]
            < #[trigger] p[j]
}

/// Two neighbours `a`, `b` cross: `b` starts strictly inside `a`.
pub open spec fn starts_inside(a: (u32, u32), b: (u32, u32)) -> bool {
    b.0 < a.1 && b.0 > a.0
}

/// No element starts strictly inside the span of its left neighbour.
pub open spec fn no_adjacent_crossing<T: Interval>(s: Seq<T>) -> bool {
    forall|i: int| 0 <= i < s.len() - 1 ==> !starts_inside(span_at(s, i), #[trigger] span_at(s, i + 1))
}

#[verifier::external_body]
fn swap_elements<T>(list: &mut [T], i: usize, j: usize)
    requires
        i < old(list)@.len(),
        j < old(list)@.len(),
    ensures
        final(list)@ == old(list)@.update(i as int, old(list)@[j as int]).update(
            j as int,
            old(list)@[i as int],
        ),
{
    list.swap(i, j)
}

/// Stable insertion sort into earliest-deadline order.
fn sort_by_deadline<T: Interval>(list: &mut [T]) -> (p: Ghost<Seq<int>>)
    ensures
        sorted_by_deadline(final(list)@),
        stable_rearrangement(old(list)@, final(list)@, p@),
{
    let n = list.len();
    let ghost orig = list@;
    let ghost mut p: Seq<int> = Seq::new(n as nat, |k: int| k);
    let mut i: usize = 0;
    while i < n
        invariant
            n == list@.len(),
            orig.len() == n,
            0 <= i <= n,
            p.len() == n,
            forall|k: int| 0 <= k < n ==> 0 <= #[trigger] p[k] < n && list@[k] == orig[p[k]],
            forall|k: int| i <= k < n ==> #[trigger] p[k] == k,
            forall|k: int| 0 <= k < i ==> #[trigger] p[k] < i,
            forall|k: int, l: int| 0 <= k < l < n ==> #[trigger] p[k] != #[trigger] p[l],
            forall|k: int, l: int|
                0 <= k < l < i && span_at(list@, k) == span_at(list@, l) ==> #[trigger] p[k]
                    < #[trigger] p[l],
            forall|k: int, l: int|
                0 <= k < l < i ==> !precedes(
                    #[trigger] span_at(list@, l),
                    #[trigger] span_at(list@, k),
                ),
        decreases n - i,
    {
        let mut j: usize = i;
        while j > 0 && is_before(&list[j], &list[j - 1])
            invariant
                n == list@.len(),
                orig.len() == n,
                0 <= j <= i < n,
                p.len() == n,
                p[j as int] == i,
                forall|k: int| 0 <= k < n ==> 0 <= #[trigger] p[k] < n && list@[k] == orig[p[k]],
                forall|k: int| i < k < n ==> #[trigger] p[k] == k,
                forall|k: int| 0 <= k <= i ==> #[trigger] p[k] <= i,
                forall|k: int, l: int| 0 <= k < l < n ==> #[trigger] p[k] != #[trigger] p[l],
                forall|k: int, l: int|
                    0 <= k < l <= i && k != j && l != j && span_at(list@, k) == span_at(list@, l)
                        ==> #[trigger] p[k] < #[trigger] p[l],
                forall|k: int, l: int|
                    0 <= k < l <= i && k != j && l != j ==> !precedes(
                        #[trigger] span_at(list@, l),
                        #[trigger] span_at(list@, k),
                    ),
                forall|l: int|
                    j < l <= i ==> precedes(span_at(list@, j as int), #[trigger] span_at(list@, l)),
                forall|k: int, l: int|
                    0 <= k < j < l <= i ==> !precedes(
                        #[trigger] span_at(list@, l),
                        #[trigger] span_at(list@, k),
                    ),
            decreases j,
        {
            let ghost before = list@;
            swap_elements(list, j - 1, j);
            proof {
                let a = (j - 1) as int;
                let b = j as int;
                let q = p.update(a, p[b]).update(b, p[a]);
                assert forall|k: int| 0 <= k < n implies 0 <= #[trigger] q[k] < n && list@[k]
                    == orig[q[k]] by {
                    if k == a {
                    } else if k == b {
                    } else {
                        assert(list@[k] == before[k]);
                    }
                }
                assert forall|k: int| 0 <= k < n && k != a && k != b implies #[trigger] span_at(
                    list@,
                    k,
                ) == span_at(before, k) by {
                    assert(list@[k] == before[k]);
                }
                assert(span_at(list@, a) == span_at(before, b));
                assert(span_at(list@, b) == span_at(before, a));
                p = q;
            }
            j = j - 1;
        }
        proof {
            assert forall|k: int, l: int|
                0 <= k < l < i + 1 && span_at(list@, k) == span_at(list@, l) implies #[trigger] p[k]
                < #[trigger] p[l] by {
                if l == j {
                    assert(p[k] <= i);
                    assert(p[k] != p[l]);
                } else if k == j {
                    assert(precedes(span_at(list@, k), span_at(list@, l)));
                }
            }
            assert forall|k: int, l: int| 0 <= k < l < i + 1 implies !precedes(
                #[trigger] span_at(list@, l),
                #[trigger] span_at(list@, k),
            ) by {
                if l == j && k < j {
                    if j > 0 {
                        assert(!precedes(span_at(list@, j as int), span_at(list@, j - 1)));
                        assert(!precedes(span_at(list@, j - 1), span_at(list@, k)) || k == j - 1);
                    }
                }
            }
        }
        i = i + 1;
    }
    Ghost(p)
}

/// Sorts `list` into earliest-deadline order (a stable sort: ends ascending,
/// equal ends by start descending) and reports whether no element starts
/// strictly inside the span of the element just before it.
pub fn earliest_deadline_sort<T: Interval>(list: &mut [T]) -> (ok: bool)
    ensures
        sorted_by_deadline(final(list)@),
        exists|p: Seq<int>| stable_rearrangement(old(list)@, final(list)@, p),
        ok == no_adjacent_crossing(final(list)@),
{
    let p = sort_by_deadline(list);
    let n = list.len();
    if n < 2 {
        assert(stable_rearrangement(old(list)@, list@, p@));
        return true;
    }
    let mut i: usize = 0;
    while i + 1 < n
        invariant
            n == list@.len(),
            n >= 2,
            0 <= i < n,
            sorted_by_deadline(list@),
            stable_rearrangement(old(list)@, list@, p@),
            forall|k: int|
                0 <= k < i ==> !starts_inside(span_at(list@, k), #[trigger] span_at(list@, k + 1)),
        decreases n - i,
    {
        let p0 = list[i].interval();
        let p1 = list[i + 1].interval();
        if p1.0 < p0.1 && p1.0 > p0.0 {
            assert(starts_inside(span_at(list@, i as int), span_at(list@, i + 1)));
            assert(stable_rearrangement(old(list)@, list@, p@));
            return false;
        }
        i = i + 1;
    }
    assert(stable_rearrangement(old(list)@, list@, p@));
    true
}

/// Walks `s` from its last element to its first and keeps each span that ends
/// no later than the start of the span kept before it (`open` at first).
pub open spec fn top_level_from<T: Interval>(s: Seq<T>, open: u32) -> Seq<T>
    decreases s.len(),
{
    if s.len() == 0 {
        Seq::empty()
    } else {
        let e = s.last();
        if e.span().1 <= open {
            seq![e] + top_level_from(s.drop_last(), e.span().0)
        } else {
            top_level_from(s.drop_last(), open)
        }
    }
}

/// The spans that are not enclosed by a later one: scanning from the back,
/// an element is kept when it ends no later than the start of the last kept one.
/// The result lists the kept elements from the back of `effects` to its front.
pub fn get_top_level_intervals<T: Interval>(effects: Vec<T>) -> (top_level: Vec<T>)
    ensures
        top_level@ == top_level_from(effects@, u32::MAX),
{
    let mut effects = effects;
    let mut top_level: Vec<T> = Vec::with_capacity(effects.len());
    let mut top_level_open: u32 = u32::MAX;
    let ghost whole = effects@;
    while effects.len() > 0
        invariant
            top_level@ + top_level_from(effects@, top_level_open) == top_level_from(whole, u32::MAX),
        decreases effects.len(),
    {
        let ghost rest = effects@;
        let e = effects.pop().unwrap();
        assert(effects@ == rest.drop_last());
        let e_interval = e.interval();
        if e_interval.1 <= top_level_open {
            top_level.push(e);
            top_level_open = e_interval.0;
        }
    }
    top_level
}

/// What an effect does to the code it is attached to.
#[derive(Clone, Copy, Debug, PartialEq, Eq, Structural)]
pub enum EffectKind {
    Rewrite,
    Insert,
}

/// A rewrite or insertion: the binding it applies to, the pattern that gives
/// the new text, and its kind.
#[derive(Clone, Debug)]
pub struct Effect<B, P> {
    pub binding: B,
    pub pattern: P,
    pub kind: EffectKind,
}

/// An effect together with the byte range of the code it covers.
#[derive(Debug)]
pub struct EffectRange<B, P> {
    pub range: Range<u32>,
    pub effect: Effect<B, P>,
}

impl<B, P> Interval for EffectRange<B, P> {
    open spec fn span(&self) -> (u32, u32) {
        (self.range.start, self.range.end)
    }

    fn interval(&self) -> (r: (u32, u32)) {
        (self.range.start, self.range.end)
    }
}

/// Like `top_level_from`, restricted to `[left, right]`: the scan stops at the
/// first span (from the back) that ends before `left`; insertions inside the
/// range are always kept; other spans are kept when they start at or after
/// `left` and end no later than the start of the last kept one.
pub open spec fn top_level_in_range_from<B, P>(
    s: Seq<EffectRange<B, P>>,
    left: u32,
    right: u32,
    open: u32,
) -> Seq<EffectRange<B, P>>
    decreases s.len(),
{
    if s.len() == 0 {
        Seq::empty()
    } else {
        let e = s.last();
        let (start, end) = e.span();
        if end < left {
            Seq::empty()
        } else if e.effect.kind == EffectKind::Insert && start >= left && end <= right {
            seq![e] + top_level_in_range_from(s.drop_last(), left, right, open)
        } else if end <= open && start >= left {
            seq![e] + top_level_in_range_from(s.drop_last(), left, right, start)
        } else {
            top_level_in_range_from(s.drop_last(), left, right, open)
        }
    }
}

/// The top-level effects among those that lie in `[left, right]`.
pub fn get_top_level_intervals_in_range<B, P>(
    effects: Vec<EffectRange<B, P>>,
    left: u32,
    right: u32,
) -> (top_level: Vec<EffectRange<B, P>>)
    ensures
        top_level@ == top_level_in_range_from(effects@, left, right, right),
{
    let mut effects = effects;
    let mut top_level: Vec<EffectRange<B, P>> = Vec::with_capacity(effects.len());
    let mut top_level_open: u32 = right;
    let ghost whole = effects@;
    while effects.len() > 0
        invariant_except_break
            top_level@ + top_level_in_range_from(effects@, left, right, top_level_open)
                == top_level_in_range_from(whole, left, right, right),
        ensures
            top_level@ == top_level_in_range_from(whole, left, right, right),
        decreases effects.len(),
    {
        let ghost rest = effects@;
        let e = effects.pop().unwrap();
        assert(effects@ == rest.drop_last());
        let e_interval = e.interval();
        if e_interval.1 < left {
            assert(top_level@ + Seq::<EffectRange<B, P>>::empty() == top_level@);
            break;
        }
        let is_insert = match e.effect.kind {
            EffectKind::Insert => true,
            EffectKind::Rewrite => false,
        };
        if is_insert && e_interval.0 >= left && e_interval.1 <= right {
            let ghost before = top_level@;
            top_level.push(e);
            assert(top_level@ + top_level_in_range_from(effects@, left, right, top_level_open)
                == before + (seq![rest.last()] + top_level_in_range_from(effects@, left, right, top_level_open)));
            continue;
        }
        if e_interval.1 <= top_level_open && e_interval.0 >= left {
            let ghost before = top_level@;
            top_level.push(e);
            top_level_open = e_interval.0;
            assert(top_level@ + top_level_in_range_from(effects@, left, right, top_level_open)
                == before + (seq![rest.last()] + top_level_in_range_from(effects@, left, right, top_level_open)));
        }
    }
    top_level
}

/// How many elements of `s`, from the front, survive popping every trailing
/// element that starts at or after `end`.
pub open spec fn kept_before(s: Seq<(u32, u32)>, end: u32) -> nat
    decreases s.len(),
{
    if s.len() == 0 {
        0
    } else if s.last().0 < end {
        s.len()
    } else {
        kept_before(s.drop_last(), end)
    }
}

/// The spans of the elements of `s`.
pub open spec fn spans<T: Interval>(s: Seq<T>) -> Seq<(u32, u32)> {
    s.map_values(|e: T| e.span())
}

/// Pops from the back of `intervals` every element that starts at or after
/// the end of `interval`, stopping at the first one that starts before it.
pub fn pop_out_of_range_intervals<T: Interval>(interval: &T, intervals: &mut Vec<T>)
    ensures
        final(intervals)@ == old(intervals)@.take(
            kept_before(spans(old(intervals)@), interval.span().1) as int,
        ),
{
    let bound = interval.interval();
    let ghost whole = intervals@;
    loop
        invariant
            whole == old(intervals)@,
            bound == interval.span(),
            intervals@.len() <= whole.len(),
            intervals@ == whole.take(intervals@.len() as int),
            kept_before(spans(whole), bound.1) == kept_before(spans(intervals@), bound.1),
        decreases intervals@.len(),
    {
        if intervals.len() == 0 {
            assert(spans(intervals@).len() == 0);
            assert(kept_before(spans(intervals@), bound.1) == 0);
            return;
        }
        let top_interval = intervals[intervals.len() - 1].interval();
        assert(spans(intervals@).last() == top_interval);
        if top_interval.0 < bound.1 {
            assert(spans(intervals@).len() == intervals@.len());
            return;
        }
        let ghost before = intervals@;
        intervals.pop();
        assert(spans(before).drop_last() == spans(intervals@));
    }
}

/// `outer` encloses `inner`.
pub open spec fn encloses(outer: (u32, u32), inner: (u32, u32)) -> bool {
    outer.0 <= inner.0 && inner.1 <= outer.1
}

/// `a` and `b` overlap without either enclosing the other (`a` first).
pub open spec fn crosses(a: (u32, u32), b: (u32, u32)) -> bool {
    a.0 < b.0 && b.0 < a.1 && a.1 < b.1
}

/// No two spans of `s` cross: any two are disjoint or nested.
pub open spec fn laminar<T: Interval>(s: Seq<T>) -> bool {
    forall|i: int, j: int|
        0 <= i < s.len() && 0 <= j < s.len() ==> !crosses(
            #[trigger] span_at(s, i),
            #[trigger] span_at(s, j),
        )
}

/// The top-level spans come out disjoint and in descending order: each one ends
/// no later than the start of the one before it, and the first ends no later
/// than `open`. Every one of them is an element of the input.
pub proof fn lemma_top_level_disjoint<T: Interval>(s: Seq<T>, open: u32)
    ensures
        ({
            let r = top_level_from(s, open);
            &&& r.len() <= s.len()
            &&& r.len() > 0 ==> span_at(r, 0).1 <= open
            &&& forall|k: int| 0 <= k < r.len() - 1 ==> span_at(r, k + 1).1 <= #[trigger] span_at(r, k).0
            &&& forall|k: int| 0 <= k < r.len() ==> s.contains(#[trigger] r[k])
        }),
    decreases s.len(),
{
    if s.len() > 0 {
        let e = s.last();
        let rest = s.drop_last();
        let r = top_level_from(s, open);
        if e.span().1 <= open {
            lemma_top_level_disjoint(rest, e.span().0);
            let rr = top_level_from(rest, e.span().0);
            assert(r == seq![e] + rr);
            assert forall|k: int| 0 <= k < r.len() - 1 implies span_at(r, k + 1).1 <= #[trigger] span_at(r, k).0 by {
                if k > 0 {
                    assert(span_at(r, k) == span_at(rr, k - 1));
                    assert(span_at(r, k + 1) == span_at(rr, k));
                } else {
                    assert(span_at(r, 1) == span_at(rr, 0));
                }
            }
            assert forall|k: int| 0 <= k < r.len() implies s.contains(#[trigger] r[k]) by {
                if k == 0 {
                    assert(s[s.len() - 1] == e);
                } else {
                    assert(r[k] == rr[k - 1]);
                    let w = choose|w: int| 0 <= w < rest.len() && rest[w] == rr[k - 1];
                    assert(s[w] == rest[w]);
                }
            }
        } else {
            lemma_top_level_disjoint(rest, open);
            let rr = top_level_from(rest, open);
            assert forall|k: int| 0 <= k < r.len() implies s.contains(#[trigger] r[k]) by {
                let w = choose|w: int| 0 <= w < rest.len() && rest[w] == rr[k];
                assert(s[w] == rest[w]);
            }
        }
    }
}

proof fn lemma_top_level_covers_under<T: Interval>(
    s: Seq<T>,
    open: u32,
    has_parent: bool,
    parent: (u32, u32),
)
    requires
        sorted_by_deadline(s),
        laminar(s),
        has_parent ==> open == parent.0,
        !has_parent ==> open == u32::MAX,
        has_parent ==> forall|i: int|
            0 <= i < s.len() ==> !precedes(parent, #[trigger] span_at(s, i)) && !crosses(
                span_at(s, i),
                parent,
            ),
    ensures
        forall|i: int|
            0 <= i < s.len() ==> (exists|k: int|
                0 <= k < top_level_from(s, open).len() && encloses(
                    #[trigger] span_at(top_level_from(s, open), k),
                    span_at(s, i),
                )) || (has_parent && encloses(parent, #[trigger] span_at(s, i))),
    decreases s.len(),
{
    if s.len() > 0 {
        let n = s.len() - 1;
        let e = s.last();
        let es = e.span();
        let rest = s.drop_last();
        assert forall|i: int| 0 <= i < rest.len() implies #[trigger] span_at(rest, i) == span_at(s, i) by {}
        assert(sorted_by_deadline(rest)) by {
            assert forall|i: int, j: int| 0 <= i < j < rest.len() implies !precedes(
                #[trigger] span_at(rest, j),
                #[trigger] span_at(rest, i),
            ) by {
                assert(!precedes(span_at(s, j), span_at(s, i)));
            }
        }
        assert(laminar(rest)) by {
            assert forall|i: int, j: int| 0 <= i < rest.len() && 0 <= j < rest.len() implies !crosses(
                #[trigger] span_at(rest, i),
                #[trigger] span_at(rest, j),
            ) by {
                assert(!crosses(span_at(s, i), span_at(s, j)));
            }
        }
        assert(span_at(s, n) == es);
        let r = top_level_from(s, open);
        if es.1 <= open {
            assert forall|i: int| 0 <= i < rest.len() implies !precedes(es, #[trigger] span_at(rest, i))
                && !crosses(span_at(rest, i), es) by {
                assert(!precedes(span_at(s, n), span_at(s, i)));
                assert(!crosses(span_at(s, i), span_at(s, n)));
            }
            lemma_top_level_covers_under(rest, es.0, true, es);
            let rr = top_level_from(rest, es.0);
            assert(r == seq![e] + rr);
            assert(span_at(r, 0) == es);
            assert forall|i: int| 0 <= i < s.len() implies (exists|k: int|
                0 <= k < r.len() && encloses(#[trigger] span_at(r, k), span_at(s, i))) || (has_parent
                && encloses(parent, #[trigger] span_at(s, i))) by {
                if i == n {
                    assert(encloses(span_at(r, 0), span_at(s, i)));
                } else {
                    assert(span_at(rest, i) == span_at(s, i));
                    if encloses(es, span_at(rest, i)) {
                        assert(encloses(span_at(r, 0), span_at(s, i)));
                    } else {
                        let k = choose|k: int| 0 <= k < rr.len() && encloses(
                            #[trigger] span_at(rr, k),
                            span_at(rest, i),
                        );
                        assert(span_at(r, k + 1) == span_at(rr, k));
                        assert(encloses(span_at(r, k + 1), span_at(s, i)));
                    }
                }
            }
        } else {
            assert(has_parent);
            assert(!precedes(parent, es) && !crosses(es, parent));
            assert(encloses(parent, es));
            assert forall|i: int| 0 <= i < rest.len() implies !precedes(parent, #[trigger] span_at(rest, i))
                && !crosses(span_at(rest, i), parent) by {
                assert(!precedes(parent, span_at(s, i)));
                assert(!crosses(span_at(s, i), parent));
            }
            lemma_top_level_covers_under(rest, open, has_parent, parent);
            assert(r == top_level_from(rest, open));
            assert forall|i: int| 0 <= i < s.len() implies (exists|k: int|
                0 <= k < r.len() && encloses(#[trigger] span_at(r, k), span_at(s, i))) || (has_parent
                && encloses(parent, #[trigger] span_at(s, i))) by {
                if i < n {
                    assert(span_at(rest, i) == span_at(s, i));
                }
            }
        }
    }
}

/// Some span of `r` encloses `x`.
pub open spec fn enclosed_by_some<T: Interval>(r: Seq<T>, x: (u32, u32)) -> bool {
    exists|k: int| 0 <= k < r.len() && encloses(#[trigger] span_at(r, k), x)
}

/// When the input is in earliest-deadline order and no two of its spans cross,
/// every span lies inside one of the top-level spans.
pub proof fn lemma_top_level_covers<T: Interval>(s: Seq<T>)
    requires
        sorted_by_deadline(s),
        laminar(s),
    ensures
        forall|i: int|
            0 <= i < s.len() ==> enclosed_by_some(top_level_from(s, u32::MAX), #[trigger] span_at(s, i)),
{
    lemma_top_level_covers_under(s, u32::MAX, false, (0, 0));
}

/// After popping, the last remaining element (if any) starts before `end`, and
/// every popped element starts at or after `end`.
pub proof fn lemma_kept_before(s: Seq<(u32, u32)>, end: u32)
    ensures
        kept_before(s, end) <= s.len(),
        kept_before(s, end) > 0 ==> s[kept_before(s, end) - 1].0 < end,
        forall|i: int| kept_before(s, end) <= i < s.len() ==> (#[trigger] s[i]).0 >= end,
    decreases s.len(),
{
    if s.len() > 0 && s.last().0 >= end {
        lemma_kept_before(s.drop_last(), end);
        assert forall|i: int| kept_before(s, end) <= i < s.len() implies (#[trigger] s[i]).0 >= end by {
            if i < s.len() - 1 {
                assert(s[i] == s.drop_last()[i]);
            }
        }
    }
}

/// `e` is an insertion that lies inside `[left, right]`.
pub open spec fn insert_in_range<B, P>(e: EffectRange<B, P>, left: u32, right: u32) -> bool {
    e.effect.kind == EffectKind::Insert && e.span().0 >= left && e.span().1 <= right
}

/// Every span starts no later than it ends.
pub open spec fn well_formed_spans<T: Interval>(s: Seq<T>) -> bool {
    forall|j: int| 0 <= j < s.len() ==> span_at(s, j).0 <= #[trigger] span_at(s, j).1
}

/// The scan from the back reaches index `i`: no effect after it ends before `left`.
pub open spec fn scan_reaches<B, P>(s: Seq<EffectRange<B, P>>, left: u32, i: int) -> bool {
    forall|j: int| i <= j < s.len() ==> span_at(s, j).1 >= left
}

/// No effect of `r` after index `i` of `s`, other than an insertion inside
/// the range, starts before `s[i]` ends.
pub open spec fn not_enclosed_by_kept<B, P>(
    s: Seq<EffectRange<B, P>>,
    r: Seq<EffectRange<B, P>>,
    left: u32,
    right: u32,
    i: int,
) -> bool {
    forall|j: int|
        i < j < s.len() && r.contains(#[trigger] s[j]) && !insert_in_range(s[j], left, right)
            ==> s[i].span().1 <= s[j].span().0
}

proof fn lemma_seq_contains_tail<A>(e: A, r2: Seq<A>, x: A)
    requires
        r2.contains(x),
    ensures
        (seq![e] + r2).contains(x),
{
    let k = choose|k: int| 0 <= k < r2.len() && r2[k] == x;
    assert((seq![e] + r2)[k + 1] == x);
}

proof fn lemma_in_range_keeps_one<B, P>(
    s: Seq<EffectRange<B, P>>,
    left: u32,
    right: u32,
    open: u32,
    i: int,
)
    requires
        0 <= i < s.len(),
        scan_reaches(s, left, i),
        left <= s[i].span().0,
        s[i].span().1 <= right,
        s[i].effect.kind == EffectKind::Insert || (s[i].span().1 <= open && not_enclosed_by_kept(
            s,
            top_level_in_range_from(s, left, right, open),
            left,
            right,
            i,
        )),
    ensures
        top_level_in_range_from(s, left, right, open).contains(s[i]),
    decreases s.len(),
{
    let e = s.last();
    let rest = s.drop_last();
    let (start, end) = e.span();
    let r = top_level_in_range_from(s, left, right, open);
    assert(span_at(s, s.len() - 1).1 >= left);
    if i == s.len() - 1 {
        assert(r[0] == s[i]);
        return;
    }
    assert(rest[i] == s[i]);
    assert(scan_reaches(rest, left, i)) by {
        assert forall|j: int| i <= j < rest.len() implies span_at(rest, j).1 >= left by {
            assert(rest[j] == s[j]);
            assert(span_at(s, j).1 >= left);
        }
    }
    let new_open = if e.effect.kind == EffectKind::Insert && start >= left && end <= right {
        open
    } else if end <= open && start >= left {
        start
    } else {
        open
    };
    let r2 = top_level_in_range_from(rest, left, right, new_open);
    assert(forall|x: EffectRange<B, P>| r2.contains(x) ==> r.contains(x)) by {
        assert forall|x: EffectRange<B, P>| r2.contains(x) implies r.contains(x) by {
            if r != r2 {
                lemma_seq_contains_tail(e, r2, x);
            }
        }
    }
    if s[i].effect.kind != EffectKind::Insert {
        if !(e.effect.kind == EffectKind::Insert && start >= left && end <= right) && end <= open
            && start >= left {
            assert(r[0] == s[s.len() - 1]);
            assert(s[i].span().1 <= s[s.len() - 1].span().0);
        }
        assert forall|j: int|
            i < j < rest.len() && r2.contains(#[trigger] rest[j]) && !insert_in_range(rest[j], left, right)
                implies rest[i].span().1 <= rest[j].span().0 by {
            assert(rest[j] == s[j]);
            assert(r.contains(s[j]));
        }
    }
    lemma_in_range_keeps_one(rest, left, right, new_open, i);
}

proof fn lemma_in_range_kept_lie_inside<B, P>(
    s: Seq<EffectRange<B, P>>,
    left: u32,
    right: u32,
    open: u32,
)
    requires
        well_formed_spans(s),
        open <= right,
    ensures
        forall|x: int|
            0 <= x < top_level_in_range_from(s, left, right, open).len() ==> {
                let y = #[trigger] top_level_in_range_from(s, left, right, open)[x];
                &&& left <= y.span().0
                &&& y.span().1 <= right
                &&& s.contains(y)
            },
    decreases s.len(),
{
    if s.len() > 0 {
        let e = s.last();
        let rest = s.drop_last();
        let (start, end) = e.span();
        assert(well_formed_spans(rest)) by {
            assert forall|j: int| 0 <= j < rest.len() implies span_at(rest, j).0 <= #[trigger] span_at(
                rest,
                j,
            ).1 by {
                assert(rest[j] == s[j]);
                assert(span_at(s, j).0 <= span_at(s, j).1);
            }
        }
        assert(span_at(s, s.len() - 1).0 <= span_at(s, s.len() - 1).1);
        assert(s[s.len() - 1] == e);
        let new_open = if e.effect.kind == EffectKind::Insert && start >= left && end <= right {
            open
        } else if end <= open && start >= left {
            start
        } else {
            open
        };
        lemma_in_range_kept_lie_inside(rest, left, right, new_open);
        let r = top_level_in_range_from(s, left, right, open);
        let r2 = top_level_in_range_from(rest, left, right, new_open);
        assert forall|x: int| 0 <= x < r.len() implies {
            let y = #[trigger] r[x];
            &&& left <= y.span().0
            &&& y.span().1 <= right
            &&& s.contains(y)
        } by {
            if end >= left && r != r2 && x > 0 {
                assert(r[x] == r2[x - 1]);
                let k = choose|k: int| 0 <= k < rest.len() && rest[k] == r2[x - 1];
                assert(s[k] == rest[k]);
            } else if end >= left && r == r2 {
                let k = choose|k: int| 0 <= k < rest.len() && rest[k] == r2[x];
                assert(s[k] == rest[k]);
            }
        }
    }
}

/// Picking the top-level effects of `[left, right]` (scanning from the back):
/// - every effect kept lies inside the range and is one of the effects given
///   (when spans are well formed);
/// - every effect inside the range that the scan reaches -- no later effect
///   ends before `left`; effects that merely start before `left` do not stop
///   the scan -- is kept when it is an insertion, or when no kept effect after
///   it (other than an insertion kept as such) starts before it ends, that is,
///   when no kept effect encloses it.
pub proof fn lemma_top_level_in_range<B, P>(s: Seq<EffectRange<B, P>>, left: u32, right: u32)
    ensures
        well_formed_spans(s) ==> forall|x: int|
            0 <= x < top_level_in_range_from(s, left, right, right).len() ==> {
                let y = #[trigger] top_level_in_range_from(s, left, right, right)[x];
                &&& left <= y.span().0
                &&& y.span().1 <= right
                &&& s.contains(y)
            },
        forall|i: int|
            0 <= i < s.len() && scan_reaches(s, left, i) && left <= #[trigger] s[i].span().0
                && s[i].span().1 <= right && (s[i].effect.kind == EffectKind::Insert
                || not_enclosed_by_kept(s, top_level_in_range_from(s, left, right, right), left, right, i))
                ==> top_level_in_range_from(s, left, right, right).contains(s[i]),
{
    if well_formed_spans(s) {
        lemma_in_range_kept_lie_inside(s, left, right, right);
    }
    assert forall|i: int|
        0 <= i < s.len() && scan_reaches(s, left, i) && left <= #[trigger] s[i].span().0
            && s[i].span().1 <= right && (s[i].effect.kind == EffectKind::Insert
            || not_enclosed_by_kept(s, top_level_in_range_from(s, left, right, right), left, right, i))
            implies top_level_in_range_from(s, left, right, right).contains(s[i]) by {
        lemma_in_range_keeps_one(s, left, right, right, i);
    }
}

} // verus!
