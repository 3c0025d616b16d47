//! Absolute-time note events and their stable ordering by time.

use vstd::prelude::*;

verus! {

/// A raw note event: absolute tick, `true` for note-on, and the MIDI key.
pub type NoteEvent = (u32, bool, u8);

/// The order in which note events are emitted: by tick, and at equal ticks
/// note-offs (`false`) before note-ons (`true`).
pub open spec fn time_le(a: NoteEvent, b: NoteEvent) -> bool {
    a.0 < b.0 || (a.0 == b.0 && (!a.1 || b.1))
}

/// Inserts `x` behind every element that does not come after it.
pub open spec fn sorted_insert(s: Seq<NoteEvent>, x: NoteEvent) -> Seq<NoteEvent>
    decreases s.len(),
{
    if s.len() == 0 || time_le(s.last(), x) {
        s.push(x)
    } else {
        sorted_insert(s.drop_last(), x).push(s.last())
    }
}

/// The stable sort of `s` by `time_le`: elements with equal keys keep the
/// order they had in `s`.
pub open spec fn stable_sort(s: Seq<NoteEvent>) -> Seq<NoteEvent>
    decreases s.len(),
{
    if s.len() == 0 {
        s
    } else {
        sorted_insert(stable_sort(s.drop_last()), s.last())
    }
}

/// `s` is ordered by `time_le`.
pub open spec fn time_sorted(s: Seq<NoteEvent>) -> bool {
    forall|i: int, j: int| 0 <= i < j < s.len() ==> time_le(#[trigger] s[i], #[trigger] s[j])
}

/// How many elements of `s` satisfy `p`.
pub open spec fn count_where<A>(s: Seq<A>, p: spec_fn(A) -> bool) -> nat
    decreases s.len(),
{
    if s.len() == 0 {
        0
    } else {
        count_where(s.drop_last(), p) + if p(s.last()) { 1nat } else { 0nat }
    }
}

pub proof fn lemma_count_concat<A>(s: Seq<A>, t: Seq<A>, p: spec_fn(A) -> bool)
    ensures
        count_where(s + t, p) == count_where(s, p) + count_where(t, p),
    decreases t.len(),
{
    if t.len() == 0 {
        assert(s + t =~= s);
    } else {
        assert((s + t).drop_last() =~= s + t.drop_last());
        lemma_count_concat(s, t.drop_last(), p);
    }
}

pub proof fn lemma_count_zero<A>(s: Seq<A>, p: spec_fn(A) -> bool)
    ensures
        count_where(s, p) == 0 <==> forall|i: int| 0 <= i < s.len() ==> !p(#[trigger] s[i]),
    decreases s.len(),
{
    if s.len() > 0 {
        lemma_count_zero(s.drop_last(), p);
        if count_where(s, p) == 0 {
            assert forall|i: int| 0 <= i < s.len() implies !p(#[trigger] s[i]) by {
                if i < s.len() - 1 {
                    assert(s[i] == s.drop_last()[i]);
                }
            }
        }
        if forall|i: int| 0 <= i < s.len() ==> !p(#[trigger] s[i]) {
            assert forall|i: int| 0 <= i < s.drop_last().len() implies !p(#[trigger] s.drop_last()[i]) by {
                assert(s.drop_last()[i] == s[i]);
            }
        }
    }
}

/// When every element satisfies `p`, the count is the length.
pub proof fn lemma_count_all<A>(s: Seq<A>, p: spec_fn(A) -> bool)
    requires
        forall|i: int| 0 <= i < s.len() ==> p(#[trigger] s[i]),
    ensures
        count_where(s, p) == s.len(),
    decreases s.len(),
{
    if s.len() > 0 {
        assert forall|i: int| 0 <= i < s.drop_last().len() implies p(#[trigger] s.drop_last()[i]) by {
            assert(s.drop_last()[i] == s[i]);
        }
        lemma_count_all(s.drop_last(), p);
    }
}

/// Counts agree for predicates that agree on the elements of `s`.
pub proof fn lemma_count_same_pred<A>(s: Seq<A>, p: spec_fn(A) -> bool, q: spec_fn(A) -> bool)
    requires
        forall|i: int| 0 <= i < s.len() ==> p(#[trigger] s[i]) == q(s[i]),
    ensures
        count_where(s, p) == count_where(s, q),
    decreases s.len(),
{
    if s.len() > 0 {
        assert forall|i: int| 0 <= i < s.drop_last().len() implies p(#[trigger] s.drop_last()[i])
            == q(s.drop_last()[i]) by {
            assert(s.drop_last()[i] == s[i]);
        }
        lemma_count_same_pred(s.drop_last(), p, q);
    }
}

proof fn lemma_count_sorted_insert(s: Seq<NoteEvent>, x: NoteEvent, p: spec_fn(NoteEvent) -> bool)
    ensures
        count_where(sorted_insert(s, x), p) == count_where(s, p) + if p(x) { 1nat } else { 0nat },
    decreases s.len(),
{
    if s.len() == 0 || time_le(s.last(), x) {
        assert(s.push(x).drop_last() =~= s);
    } else {
        lemma_count_sorted_insert(s.drop_last(), x, p);
        let r = sorted_insert(s.drop_last(), x);
        assert(r.push(s.last()).drop_last() =~= r);
        assert(s.drop_last().push(s.last()) =~= s);
    }
}

/// Sorting keeps how many elements satisfy any predicate.
pub proof fn lemma_count_stable_sort(s: Seq<NoteEvent>, p: spec_fn(NoteEvent) -> bool)
    ensures
        count_where(stable_sort(s), p) == count_where(s, p),
    decreases s.len(),
{
    if s.len() > 0 {
        lemma_count_stable_sort(s.drop_last(), p);
        lemma_count_sorted_insert(stable_sort(s.drop_last()), s.last(), p);
    }
}

/// Sorting keeps a property that every element has.
pub proof fn lemma_stable_sort_keeps_all(s: Seq<NoteEvent>, p: spec_fn(NoteEvent) -> bool)
    requires
        forall|i: int| 0 <= i < s.len() ==> p(#[trigger] s[i]),
    ensures
        forall|i: int| 0 <= i < stable_sort(s).len() ==> p(#[trigger] stable_sort(s)[i]),
{
    let np = |e: NoteEvent| !p(e);
    lemma_count_zero(s, np);
    lemma_count_stable_sort(s, np);
    lemma_count_zero(stable_sort(s), np);
    lemma_stable_sort_len(s);
}

pub proof fn lemma_stable_sort_len(s: Seq<NoteEvent>)
    ensures
        stable_sort(s).len() == s.len(),
{
    let t = |e: NoteEvent| true;
    lemma_count_all(s, t);
    lemma_count_stable_sort(s, t);
    lemma_count_len(stable_sort(s));
}

proof fn lemma_count_len(s: Seq<NoteEvent>)
    ensures
        count_where(s, |e: NoteEvent| true) == s.len(),
{
    lemma_count_all(s, |e: NoteEvent| true);
}

proof fn lemma_sorted_insert_sorted(s: Seq<NoteEvent>, x: NoteEvent)
    requires
        time_sorted(s),
    ensures
        time_sorted(sorted_insert(s, x)),
    decreases s.len(),
{
    if s.len() == 0 || time_le(s.last(), x) {
        let r = s.push(x);
        assert forall|i: int, j: int| 0 <= i < j < r.len() implies time_le(#[trigger] r[i], #[trigger] r[j]) by {
            if j == s.len() {
                assert(time_le(s[i], s[s.len() - 1]));
            }
        }
    } else {
        let d = s.drop_last();
        let last = s.last();
        assert(time_sorted(d));
        lemma_sorted_insert_sorted(d, x);
        let r = sorted_insert(d, x);
        let after = |e: NoteEvent| !time_le(e, last);
        assert forall|i: int| 0 <= i < d.len() implies !after(#[trigger] d[i]) by {
            assert(time_le(s[i], s[s.len() - 1]));
        }
        lemma_count_zero(d, after);
        lemma_count_sorted_insert(d, x, after);
        lemma_count_zero(r, after);
        let r2 = r.push(last);
        assert forall|i: int, j: int| 0 <= i < j < r2.len() implies time_le(#[trigger] r2[i], #[trigger] r2[j]) by {
            if j == r.len() {
                assert(!after(r[i]));
            }
        }
    }
}

/// The stable sort is ordered by time.
pub proof fn lemma_stable_sort_sorted(s: Seq<NoteEvent>)
    ensures
        time_sorted(stable_sort(s)),
    decreases s.len(),
{
    if s.len() > 0 {
        lemma_stable_sort_sorted(s.drop_last());
        lemma_sorted_insert_sorted(stable_sort(s.drop_last()), s.last());
    }
}

/// Inserting where a backward scan stops is `sorted_insert`.
proof fn lemma_sorted_insert_at(s: Seq<NoteEvent>, x: NoteEvent, j: int)
    requires
        0 <= j <= s.len(),
        forall|k: int| j <= k < s.len() ==> !time_le(#[trigger] s[k], x),
        j == 0 || time_le(s[j - 1], x),
    ensures
        sorted_insert(s, x) == s.insert(j, x),
    decreases s.len(),
{
    if s.len() == 0 {
        assert(s.push(x) =~= s.insert(j, x));
    } else if time_le(s.last(), x) {
        assert(s.push(x) =~= s.insert(j, x));
    } else {
        let d = s.drop_last();
        lemma_sorted_insert_at(d, x, j);
        assert(d.insert(j, x).push(s.last()) =~= s.insert(j, x));
    }
}

fn time_le_exec(a: NoteEvent, b: NoteEvent) -> (r: bool)
    ensures
        r == time_le(a, b),
{
    a.0 < b.0 || (a.0 == b.0 && (!a.1 || b.1))
}

/// Stable sort by time, note-offs before note-ons at equal ticks.
pub fn sort_by_time(events: &Vec<NoteEvent>) -> (sorted: Vec<NoteEvent>)
    ensures
        sorted@ == stable_sort(events@),
{
    let mut sorted: Vec<NoteEvent> = Vec::new();
    let n = events.len();
    for i in 0..n
        invariant
            n == events@.len(),
            sorted@ == stable_sort(events@.take(i as int)),
    {
        let x = events[i];
        let mut j = sorted.len();
        while j > 0 && !time_le_exec(sorted[j - 1], x)
            invariant
                j <= sorted@.len(),
                forall|k: int| j <= k < sorted@.len() ==> !time_le(#[trigger] sorted@[k], x),
            decreases j,
        {
            j = j - 1;
        }
        proof {
            lemma_sorted_insert_at(sorted@, x, j as int);
            assert(events@.take(i + 1).drop_last() =~= events@.take(i as int));
            assert(events@.take(i + 1).last() == x);
        }
        sorted.insert(j, x);
    }
    assert(events@.take(n as int) =~= events@);
    sorted
}

} // verus!
