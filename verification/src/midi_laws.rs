//! What holds of every chart that [`crate::midi::build`] makes.

use vstd::prelude::*;
use crate::cli::{Difficulty, all_difficulties};
use crate::midi::{
    EventKindView, EventView, chart_notes, delta_events, follows_onsets, grid_count, kept_ticks,
    note_pair, notes_over, onset_len, onset_slots, place_notes, prev_tick, slots_for, spec_guitar_track,
    spec_keep, meta_view, part_guitar, note_kind,
};
use crate::notes::{
    NoteEvent, count_where, lemma_count_concat, lemma_count_same_pred,
    lemma_count_stable_sort, lemma_count_zero, lemma_stable_sort_keeps_all, lemma_stable_sort_len,
    lemma_stable_sort_sorted, stable_sort, time_sorted,
};

verus! {

pub open spec fn is_note_on(e: EventView) -> bool {
    e.kind is NoteOn
}

pub open spec fn is_note_off(e: EventView) -> bool {
    e.kind is NoteOff
}

/// The key of a note event.
pub open spec fn note_key(e: EventView) -> u8 {
    match e.kind {
        EventKindView::NoteOn { key, .. } => key,
        EventKindView::NoteOff { key, .. } => key,
        _ => 0,
    }
}

/// `key` is on one of the five frets of `d`.
pub open spec fn in_lane(key: u8, d: Difficulty) -> bool {
    d.spec_base_note() <= key <= d.spec_base_note() + 4
}

/// Ticks from the start of the track to event `i`.
pub open spec fn absolute_time(track: Seq<EventView>, i: int) -> int
    decreases i + 1,
{
    if i < 0 {
        0
    } else {
        absolute_time(track, i - 1) + track[i].delta
    }
}

// ---------------------------------------------------------------------------
// Helper facts about the raw notes

spec fn on_some_lane(x: NoteEvent, ds: Seq<Difficulty>) -> bool {
    exists|k: int| 0 <= k < ds.len() && #[trigger] in_lane(x.2, ds[k])
}

proof fn lemma_note_pair_shape(base: u8, tick: u32, len: u32, st: u64)
    requires
        base + 4 <= u8::MAX,
    ensures
        count_where(note_pair(base, tick, len, st), |e: NoteEvent| e.1) == 1,
        count_where(note_pair(base, tick, len, st), |e: NoteEvent| !e.1) == 1,
        forall|i: int| 0 <= i < note_pair(base, tick, len, st).len() ==> base <= (
        #[trigger] note_pair(base, tick, len, st)[i]).2 <= base + 4,
{
    let pair = note_pair(base, tick, len, st);
    let one = pair.drop_last();
    assert(one.drop_last() =~= Seq::<NoteEvent>::empty());
    assert(one.last() == pair[0]);
    assert(pair.last() == pair[1]);
    assert(count_where(Seq::<NoteEvent>::empty(), |e: NoteEvent| e.1) == 0);
    assert(count_where(Seq::<NoteEvent>::empty(), |e: NoteEvent| !e.1) == 0);
    assert(count_where(one, |e: NoteEvent| e.1) == 1);
    assert(count_where(one, |e: NoteEvent| !e.1) == 0);
}

proof fn lemma_place_notes_shape(slots: Seq<(u32, u32)>, base: u8, st: u64)
    requires
        base + 4 <= u8::MAX,
    ensures
        count_where(place_notes(slots, base, st).0, |e: NoteEvent| e.1) == slots.len(),
        count_where(place_notes(slots, base, st).0, |e: NoteEvent| !e.1) == slots.len(),
        forall|i: int| 0 <= i < place_notes(slots, base, st).0.len() ==> base <= (
        #[trigger] place_notes(slots, base, st).0[i]).2 <= base + 4,
    decreases slots.len(),
{
    if slots.len() > 0 {
        let d = slots.drop_last();
        lemma_place_notes_shape(d, base, st);
        let (prev, s1) = place_notes(d, base, st);
        let s2 = crate::midi::lcg_step(s1);
        let pair = note_pair(base, slots.last().0, slots.last().1, s2);
        lemma_note_pair_shape(base, slots.last().0, slots.last().1, s2);
        lemma_count_concat(prev, pair, |e: NoteEvent| e.1);
        lemma_count_concat(prev, pair, |e: NoteEvent| !e.1);
        let all = prev + pair;
        assert(place_notes(slots, base, st).0 == all);
        assert forall|i: int| 0 <= i < all.len() implies base <= (#[trigger] all[i]).2 <= base + 4 by {
            if i < prev.len() {
                assert(all[i] == prev[i]);
            } else {
                assert(all[i] == pair[i - prev.len()]);
            }
        }
    } else {
        assert(count_where(Seq::<NoteEvent>::empty(), |e: NoteEvent| e.1) == 0);
        assert(count_where(Seq::<NoteEvent>::empty(), |e: NoteEvent| !e.1) == 0);
    }
}

/// The notes of difficulties `ds`: as many offs as ons, and every key on the
/// lane of one of `ds`.
proof fn lemma_notes_over_shape(ds: Seq<Difficulty>, onsets: Seq<u32>, span: u32, st: u64)
    ensures
        count_where(notes_over(ds, onsets, span, st).0, |e: NoteEvent| e.1)
            == count_where(notes_over(ds, onsets, span, st).0, |e: NoteEvent| !e.1),
        forall|i: int| 0 <= i < notes_over(ds, onsets, span, st).0.len() ==> on_some_lane(
            #[trigger] notes_over(ds, onsets, span, st).0[i],
            ds,
        ),
    decreases ds.len(),
{
    if ds.len() > 0 {
        let dl = ds.drop_last();
        lemma_notes_over_shape(dl, onsets, span, st);
        let (prev, s1) = notes_over(dl, onsets, span, st);
        let d = ds.last();
        let slots = slots_for(onsets, span, d);
        let mine = place_notes(slots, d.spec_base_note(), s1).0;
        lemma_place_notes_shape(slots, d.spec_base_note(), s1);
        lemma_count_concat(prev, mine, |e: NoteEvent| e.1);
        lemma_count_concat(prev, mine, |e: NoteEvent| !e.1);
        let all = prev + mine;
        assert forall|i: int| 0 <= i < all.len() implies on_some_lane(#[trigger] all[i], ds) by {
            if i < prev.len() {
                assert(all[i] == prev[i]);
                assert(on_some_lane(prev[i], dl));
                let k = choose|k: int| 0 <= k < dl.len() && #[trigger] in_lane(prev[i].2, dl[k]);
                assert(ds[k] == dl[k]);
                assert(in_lane(all[i].2, ds[k]));
            } else {
                assert(all[i] == mine[i - prev.len()]);
                assert(in_lane(all[i].2, ds[ds.len() - 1]));
            }
        }
    }
}

proof fn lemma_delta_events_count(s: Seq<NoteEvent>, q: spec_fn(NoteEvent) -> bool, p: spec_fn(EventView) -> bool)
    requires
        forall|i: int| 0 <= i < s.len() ==> p(#[trigger] delta_events(s)[i]) == q(s[i]),
    ensures
        count_where(delta_events(s), p) == count_where(s, q),
    decreases s.len(),
{
    if s.len() > 0 {
        let d = s.drop_last();
        assert(delta_events(s).drop_last() =~= delta_events(d));
        assert forall|i: int| 0 <= i < d.len() implies p(#[trigger] delta_events(d)[i]) == q(d[i]) by {
            assert(delta_events(d)[i] == delta_events(s)[i]);
        }
        lemma_delta_events_count(d, q, p);
        assert(delta_events(s).last() == delta_events(s)[s.len() - 1]);
    }
}

/// Counting over the whole guitar track counts the notes only.
proof fn lemma_guitar_count(b: u64, onsets: Seq<u32>, span: u32, diff: Difficulty, p: spec_fn(EventView) -> bool)
    requires
        !p(meta_view(EventKindView::TrackName(part_guitar()))),
        !p(meta_view(EventKindView::EndOfTrack)),
    ensures
        count_where(spec_guitar_track(b, onsets, span, diff), p)
            == count_where(delta_events(stable_sort(chart_notes(b, onsets, span, diff))), p),
{
    let body = delta_events(stable_sort(chart_notes(b, onsets, span, diff)));
    let head = seq![meta_view(EventKindView::TrackName(part_guitar()))];
    let tail = seq![meta_view(EventKindView::EndOfTrack)];
    lemma_count_concat(head + body, tail, p);
    lemma_count_concat(head, body, p);
    assert(head.drop_last() =~= Seq::<EventView>::empty());
    assert(tail.drop_last() =~= Seq::<EventView>::empty());
    assert(count_where(Seq::<EventView>::empty(), p) == 0);
    assert(count_where(head, p) == 0);
    assert(count_where(tail, p) == 0);
}

// ---------------------------------------------------------------------------
// The laws

/// Every note-on in the guitar track has a matching note-off: the track
/// holds as many of one as of the other.
pub proof fn lemma_guitar_notes_balanced(bpm_bits: u64, onsets: Seq<u32>, span: u32, diff: Difficulty)
    ensures
        count_where(spec_guitar_track(bpm_bits, onsets, span, diff), |e: EventView| is_note_on(e))
            == count_where(spec_guitar_track(bpm_bits, onsets, span, diff), |e: EventView| is_note_off(e)),
{
    let n = chart_notes(bpm_bits, onsets, span, diff);
    let s = stable_sort(n);
    let on = |e: EventView| is_note_on(e);
    let off = |e: EventView| is_note_off(e);
    lemma_guitar_count(bpm_bits, onsets, span, diff, on);
    lemma_guitar_count(bpm_bits, onsets, span, diff, off);
    lemma_delta_events_count(s, |e: NoteEvent| e.1, on);
    lemma_delta_events_count(s, |e: NoteEvent| !e.1, off);
    lemma_count_stable_sort(n, |e: NoteEvent| e.1);
    lemma_count_stable_sort(n, |e: NoteEvent| !e.1);
    crate::cli::lemma_up_to_selects_lower_ranks(diff);
    lemma_notes_over_shape(diff.spec_up_to(), onsets, span, crate::midi::chart_seed(bpm_bits));
}

/// Every note of the guitar track lies on the five-fret lane of one of the
/// charted difficulties, that is of a difficulty no harder than `diff`.
pub proof fn lemma_guitar_keys_in_lanes(bpm_bits: u64, onsets: Seq<u32>, span: u32, diff: Difficulty)
    ensures
        forall|i: int|
            0 <= i < spec_guitar_track(bpm_bits, onsets, span, diff).len() && (is_note_on(
                #[trigger] spec_guitar_track(bpm_bits, onsets, span, diff)[i],
            ) || is_note_off(spec_guitar_track(bpm_bits, onsets, span, diff)[i])) ==> exists|e: Difficulty|
                e.spec_rank() <= diff.spec_rank() && #[trigger] in_lane(
                    note_key(spec_guitar_track(bpm_bits, onsets, span, diff)[i]),
                    e,
                ),
{
    let ds = diff.spec_up_to();
    let n = chart_notes(bpm_bits, onsets, span, diff);
    let s = stable_sort(n);
    let g = spec_guitar_track(bpm_bits, onsets, span, diff);
    crate::cli::lemma_up_to_selects_lower_ranks(diff);
    lemma_notes_over_shape(ds, onsets, span, crate::midi::chart_seed(bpm_bits));
    let good = |x: NoteEvent| exists|e: Difficulty| e.spec_rank() <= diff.spec_rank() && #[trigger] in_lane(x.2, e);
    assert forall|i: int| 0 <= i < n.len() implies #[trigger] good(n[i]) by {
        assert(on_some_lane(n[i], ds));
        let k = choose|k: int| 0 <= k < ds.len() && #[trigger] in_lane(n[i].2, ds[k]);
        assert(ds.contains(ds[k]));
        assert(in_lane(n[i].2, ds[k]));
    }
    lemma_stable_sort_keeps_all(n, good);
    lemma_stable_sort_len(n);
    let body = delta_events(s);
    let head = seq![meta_view(EventKindView::TrackName(part_guitar()))];
    assert forall|i: int|
        0 <= i < g.len() && (is_note_on(#[trigger] g[i]) || is_note_off(g[i])) implies exists|e: Difficulty|
        e.spec_rank() <= diff.spec_rank() && #[trigger] in_lane(note_key(g[i]), e) by {
        if 1 <= i < g.len() - 1 {
            assert(g[i] == body[i - 1]);
            assert(good(s[i - 1]));
            assert(note_key(g[i]) == s[i - 1].2);
        } else if i == 0 {
            assert(g[i] == head[0]);
        } else {
            assert(g[i] == meta_view(EventKindView::EndOfTrack));
        }
    }
}

proof fn lemma_kept_all_expert(ticks: Seq<u32>)
    ensures
        kept_ticks(ticks, Difficulty::Expert) == ticks,
    decreases ticks.len(),
{
    if ticks.len() > 0 {
        lemma_kept_all_expert(ticks.drop_last());
        assert(ticks.drop_last().push(ticks.last()) =~= ticks);
    }
}

/// On Expert, with enough onsets, the Expert lane holds exactly one note per
/// onset.
pub proof fn lemma_expert_one_note_per_onset(bpm_bits: u64, onsets: Seq<u32>, span: u32)
    requires
        follows_onsets(onsets),
    ensures
        count_where(
            spec_guitar_track(bpm_bits, onsets, span, Difficulty::Expert),
            |e: EventView| is_note_on(e) && in_lane(note_key(e), Difficulty::Expert),
        ) == onsets.len(),
{
    let d = Difficulty::Expert;
    let p = |e: EventView| is_note_on(e) && in_lane(note_key(e), Difficulty::Expert);
    let q = |x: NoteEvent| x.1 && in_lane(x.2, Difficulty::Expert);
    let n = chart_notes(bpm_bits, onsets, span, d);
    let s = stable_sort(n);
    lemma_guitar_count(bpm_bits, onsets, span, d, p);
    assert forall|i: int| 0 <= i < s.len() implies p(#[trigger] delta_events(s)[i]) == q(s[i]) by {
    }
    lemma_delta_events_count(s, q, p);
    lemma_count_stable_sort(n, q);
    // The notes, difficulty by difficulty.
    let ds = d.spec_up_to();
    assert(ds =~= all_difficulties());
    let st0 = crate::midi::chart_seed(bpm_bits);
    let (n3, s3) = notes_over(ds.drop_last(), onsets, span, st0);
    let slots = slots_for(onsets, span, d);
    let mine = place_notes(slots, 96, s3).0;
    assert(n == n3 + mine);
    lemma_count_concat(n3, mine, q);
    // Easier lanes hold no Expert-lane note.
    lemma_notes_over_shape(ds.drop_last(), onsets, span, st0);
    assert forall|i: int| 0 <= i < n3.len() implies !q(#[trigger] n3[i]) by {
        assert(on_some_lane(n3[i], ds.drop_last()));
        let k = choose|k: int| 0 <= k < ds.drop_last().len() && #[trigger] in_lane(n3[i].2, ds.drop_last()[k]);
        assert(ds.drop_last()[k] == ds[k]);
    }
    lemma_count_zero(n3, q);
    // The Expert lane: one note-on per slot, one slot per onset.
    lemma_place_notes_shape(slots, 96, s3);
    assert forall|i: int| 0 <= i < mine.len() implies (|x: NoteEvent| x.1)(#[trigger] mine[i]) == q(mine[i]) by {
    }
    lemma_count_same_pred(mine, |x: NoteEvent| x.1, q);
    lemma_kept_all_expert(onsets);
}

/// The note events of the guitar track are the chart's notes in time order,
/// note-offs before note-ons at equal ticks, and each sits at its note's tick
/// counted from the start of the track.
pub proof fn lemma_guitar_notes_in_time_order(bpm_bits: u64, onsets: Seq<u32>, span: u32, diff: Difficulty)
    ensures
        ({
            let s = stable_sort(chart_notes(bpm_bits, onsets, span, diff));
            let g = spec_guitar_track(bpm_bits, onsets, span, diff);
            &&& time_sorted(s)
            &&& g.len() == s.len() + 2
            &&& forall|i: int| 0 <= i < s.len() ==> absolute_time(g, i + 1) == (#[trigger] s[i]).0
            &&& forall|i: int| 0 <= i < s.len() ==> g[i + 1].kind == note_kind(#[trigger] s[i])
        }),
{
    let n = chart_notes(bpm_bits, onsets, span, diff);
    let s = stable_sort(n);
    let g = spec_guitar_track(bpm_bits, onsets, span, diff);
    lemma_stable_sort_sorted(n);
    let body = delta_events(s);
    assert forall|i: int| 0 <= i < s.len() implies absolute_time(g, i + 1) == (#[trigger] s[i]).0 by {
        lemma_absolute_time(s, g, i);
    }
    assert forall|i: int| 0 <= i < s.len() implies g[i + 1].kind == note_kind(#[trigger] s[i]) by {
        assert(g[i + 1] == body[i]);
    }
}

proof fn lemma_absolute_time(s: Seq<NoteEvent>, g: Seq<EventView>, i: int)
    requires
        time_sorted(s),
        0 <= i < s.len(),
        g == seq![meta_view(EventKindView::TrackName(part_guitar()))] + delta_events(s) + seq![
            meta_view(EventKindView::EndOfTrack),
        ],
    ensures
        absolute_time(g, i + 1) == s[i].0,
    decreases i,
{
    assert(g[i + 1] == delta_events(s)[i]);
    assert(absolute_time(g, i + 1) == absolute_time(g, i) + g[i + 1].delta);
    if i == 0 {
        assert(absolute_time(g, -1) == 0);
        assert(g[0].delta == 0);
        assert(absolute_time(g, 0) == absolute_time(g, -1) + g[0].delta);
    } else {
        lemma_absolute_time(s, g, i - 1);
        assert(crate::notes::time_le(s[i - 1], s[i]));
        assert(prev_tick(s, i) == s[i - 1].0);
    }
}

/// With onsets in strictly increasing ticks, consecutive onset notes of one
/// difficulty never overlap: each ends no later than the next one starts.
pub proof fn lemma_onset_notes_do_not_overlap(kt: Seq<u32>)
    requires
        forall|i: int| 0 <= i < kt.len() - 1 ==> #[trigger] kt[i] < kt[i + 1],
    ensures
        forall|i: int| 0 <= i < kt.len() - 1 ==> (#[trigger] onset_slots(kt)[i]).0 + (if onset_slots(kt)[i].1 > 1 {
            onset_slots(kt)[i].1
        } else {
            1
        }) <= onset_slots(kt)[i + 1].0,
{
    assert forall|i: int| 0 <= i < kt.len() - 1 implies (#[trigger] onset_slots(kt)[i]).0 + (if onset_slots(
        kt,
    )[i].1 > 1 {
        onset_slots(kt)[i].1
    } else {
        1
    }) <= onset_slots(kt)[i + 1].0 by {
        assert(kt[i] < kt[i + 1]);
        assert(onset_slots(kt)[i].1 == onset_len(kt, i));
    }
}

/// A note kept on a difficulty is kept on every harder one too.
pub proof fn lemma_keep_is_monotone(index: int, d1: Difficulty, d2: Difficulty)
    requires
        index >= 0,
        spec_keep(index, d1),
        d1.spec_rank() <= d2.spec_rank(),
    ensures
        spec_keep(index, d2),
{
    if d1 == Difficulty::Easy {
        assert(index % 4 == 0 ==> index % 2 == 0) by (nonlinear_arith);
    }
}

/// The grid holds one note for each `k` with `k * step < span`: those are
/// the beats before the end of the song.
pub proof fn lemma_grid_count_counts_beats(span: u32, step: u32, k: int)
    requires
        1 <= step,
        0 <= k,
    ensures
        k < grid_count(span, step) <==> k * step < span,
{
    let c = (span + step - 1) / step as int;
    assert(k < c <==> k * step < span) by (nonlinear_arith)
        requires
            1 <= step,
            0 <= k,
            c == (span + step - 1) / step as int,
            span >= 0,
    ;
}


proof fn lemma_prefix_lane_count(j: int, onsets: Seq<u32>, span: u32, st: u64, e: Difficulty)
    requires
        0 <= j <= 4,
    ensures
        count_where(
            notes_over(all_difficulties().take(j), onsets, span, st).0,
            |x: NoteEvent| x.1 && in_lane(x.2, e),
        ) == if e.spec_rank() < j {
            slots_for(onsets, span, e).len()
        } else {
            0
        },
    decreases j,
{
    let q = |x: NoteEvent| x.1 && in_lane(x.2, e);
    let ds = all_difficulties().take(j);
    if j == 0 {
        assert(notes_over(ds, onsets, span, st).0 =~= Seq::<NoteEvent>::empty());
        assert(count_where(Seq::<NoteEvent>::empty(), q) == 0);
    } else {
        assert(ds.drop_last() =~= all_difficulties().take(j - 1));
        lemma_prefix_lane_count(j - 1, onsets, span, st, e);
        let (prev, s1) = notes_over(ds.drop_last(), onsets, span, st);
        let d = ds.last();
        assert(d == all_difficulties()[j - 1]);
        let slots = slots_for(onsets, span, d);
        let mine = place_notes(slots, d.spec_base_note(), s1).0;
        lemma_place_notes_shape(slots, d.spec_base_note(), s1);
        lemma_count_concat(prev, mine, q);
        if d == e {
            assert forall|i: int| 0 <= i < mine.len() implies (|x: NoteEvent| x.1)(#[trigger] mine[i]) == q(
                mine[i],
            ) by {}
            lemma_count_same_pred(mine, |x: NoteEvent| x.1, q);
        } else {
            assert forall|i: int| 0 <= i < mine.len() implies !q(#[trigger] mine[i]) by {}
            lemma_count_zero(mine, q);
        }
    }
}

/// Every charted difficulty gets its own lane: the guitar track holds, on
/// the lane of each difficulty up to `diff`, one note-on per note slot of
/// that difficulty (per kept onset, or per grid position), and nothing on the
/// lanes of harder difficulties.
pub proof fn lemma_each_lane_has_its_notes(bpm_bits: u64, onsets: Seq<u32>, span: u32, diff: Difficulty, e: Difficulty)
    ensures
        count_where(
            spec_guitar_track(bpm_bits, onsets, span, diff),
            |ev: EventView| is_note_on(ev) && in_lane(note_key(ev), e),
        ) == if e.spec_rank() <= diff.spec_rank() {
            slots_for(onsets, span, e).len()
        } else {
            0
        },
{
    let p = |ev: EventView| is_note_on(ev) && in_lane(note_key(ev), e);
    let q = |x: NoteEvent| x.1 && in_lane(x.2, e);
    let n = chart_notes(bpm_bits, onsets, span, diff);
    let s = stable_sort(n);
    lemma_guitar_count(bpm_bits, onsets, span, diff, p);
    assert forall|i: int| 0 <= i < s.len() implies p(#[trigger] delta_events(s)[i]) == q(s[i]) by {}
    lemma_delta_events_count(s, q, p);
    lemma_count_stable_sort(n, q);
    lemma_prefix_lane_count(diff.spec_rank() + 1, onsets, span, crate::midi::chart_seed(bpm_bits), e);
}

proof fn lemma_kept_ticks_in(ticks: Seq<u32>, diff: Difficulty, all: Seq<u32>)
    requires
        forall|i: int| 0 <= i < ticks.len() ==> all.contains(#[trigger] ticks[i]),
    ensures
        forall|j: int| 0 <= j < kept_ticks(ticks, diff).len() ==> all.contains(#[trigger] kept_ticks(ticks, diff)[j]),
    decreases ticks.len(),
{
    if ticks.len() > 0 {
        let d = ticks.drop_last();
        assert forall|i: int| 0 <= i < d.len() implies all.contains(#[trigger] d[i]) by {
            assert(d[i] == ticks[i]);
        }
        lemma_kept_ticks_in(d, diff, all);
        assert(all.contains(ticks[ticks.len() - 1]));
        let prev = kept_ticks(d, diff);
        let kept = kept_ticks(ticks, diff);
        assert forall|j: int| 0 <= j < kept.len() implies all.contains(#[trigger] kept[j]) by {
            if j < prev.len() {
                assert(kept[j] == prev[j]);
            }
        }
    }
}

/// Where a note may start: on a detected onset, or, without enough onsets,
/// on a half-beat before the end of the song.
pub open spec fn on_time(onsets: Seq<u32>, span: u32, tick: u32) -> bool {
    if follows_onsets(onsets) {
        onsets.contains(tick)
    } else {
        exists|m: int| 0 <= m < span && #[trigger] (m * 240) == tick
    }
}

proof fn lemma_place_notes_on_time(slots: Seq<(u32, u32)>, base: u8, st: u64, onsets: Seq<u32>, span: u32)
    requires
        forall|i: int| 0 <= i < slots.len() ==> on_time(onsets, span, #[trigger] slots[i].0),
    ensures
        forall|i: int| 0 <= i < place_notes(slots, base, st).0.len() ==> (#[trigger] place_notes(slots, base, st).0[i]).1
            ==> on_time(onsets, span, place_notes(slots, base, st).0[i].0),
    decreases slots.len(),
{
    if slots.len() > 0 {
        let d = slots.drop_last();
        assert forall|i: int| 0 <= i < d.len() implies on_time(onsets, span, #[trigger] d[i].0) by {
            assert(d[i] == slots[i]);
        }
        lemma_place_notes_on_time(d, base, st, onsets, span);
        let (prev, s1) = place_notes(d, base, st);
        let pair = note_pair(base, slots.last().0, slots.last().1, crate::midi::lcg_step(s1));
        assert(on_time(onsets, span, slots[slots.len() - 1].0));
        let all = prev + pair;
        assert forall|i: int| 0 <= i < all.len() && (#[trigger] all[i]).1 implies on_time(onsets, span, all[i].0) by {
            if i < prev.len() {
                assert(all[i] == prev[i]);
            } else {
                assert(all[i] == pair[i - prev.len()]);
            }
        }
    }
}

proof fn lemma_grid_slot_on_time(span: u32, e: Difficulty, k: int, onsets: Seq<u32>)
    requires
        !follows_onsets(onsets),
        crate::midi::grid_fits(span, e),
        0 <= k < grid_count(span, e.spec_grid_step()),
    ensures
        on_time(onsets, span, crate::midi::grid_slots(span, e)[k].0),
{
    let step = e.spec_grid_step();
    lemma_grid_count_counts_beats(span, step, k);
    let c = grid_count(span, step);
    assert(k * step * 240 + step * 120 <= u32::MAX) by (nonlinear_arith)
        requires
            0 <= k < c,
            1 <= step <= 4,
            (c - 1) * step * 240 + step * 120 <= u32::MAX,
    {
        assert(k * step <= (c - 1) * step);
    }
    let m = k * step;
    assert(m * 240 == k * step * 240) by (nonlinear_arith)
        requires
            m == k * step,
    ;
    assert(0 <= m) by (nonlinear_arith)
        requires
            0 <= k,
            1 <= step,
            m == k * step,
    ;
    assert(crate::midi::grid_slots(span, e)[k].0 == m * 240);
}

proof fn lemma_notes_over_on_time(j: int, onsets: Seq<u32>, span: u32, st: u64, diff: Difficulty)
    requires
        0 <= j <= diff.spec_rank() + 1,
        crate::midi::chart_fits(onsets, span, diff),
    ensures
        forall|i: int| 0 <= i < notes_over(all_difficulties().take(j), onsets, span, st).0.len() ==> (
        #[trigger] notes_over(all_difficulties().take(j), onsets, span, st).0[i]).1 ==> on_time(
            onsets,
            span,
            notes_over(all_difficulties().take(j), onsets, span, st).0[i].0,
        ),
    decreases j,
{
    let ds = all_difficulties().take(j);
    if j > 0 {
        assert(ds.drop_last() =~= all_difficulties().take(j - 1));
        lemma_notes_over_on_time(j - 1, onsets, span, st, diff);
        let (prev, s1) = notes_over(ds.drop_last(), onsets, span, st);
        let e = ds.last();
        assert(e == diff.spec_up_to()[j - 1]);
        let slots = slots_for(onsets, span, e);
        if follows_onsets(onsets) {
            lemma_kept_ticks_in(onsets, e, onsets);
            assert forall|i: int| 0 <= i < slots.len() implies on_time(onsets, span, #[trigger] slots[i].0) by {
                assert(slots[i].0 == kept_ticks(onsets, e)[i]);
            }
        } else {
            assert(crate::midi::grid_fits(span, diff.spec_up_to()[j - 1]));
            assert forall|i: int| 0 <= i < slots.len() implies on_time(onsets, span, #[trigger] slots[i].0) by {
                lemma_grid_slot_on_time(span, e, i, onsets);
            }
        }
        let mine = place_notes(slots, e.spec_base_note(), s1).0;
        lemma_place_notes_on_time(slots, e.spec_base_note(), s1, onsets, span);
        let all = prev + mine;
        assert forall|i: int| 0 <= i < all.len() && (#[trigger] all[i]).1 implies on_time(onsets, span, all[i].0) by {
            if i < prev.len() {
                assert(all[i] == prev[i]);
            } else {
                assert(all[i] == mine[i - prev.len()]);
            }
        }
    }
}

/// Notes follow the music: every note-on of the guitar track starts on a
/// detected onset when there are enough onsets, and otherwise on a half-beat
/// of the grid before the end of the song.
pub proof fn lemma_notes_start_on_time(bpm_bits: u64, onsets: Seq<u32>, span: u32, diff: Difficulty)
    requires
        crate::midi::chart_fits(onsets, span, diff),
    ensures
        ({
            let s = stable_sort(chart_notes(bpm_bits, onsets, span, diff));
            forall|i: int| 0 <= i < s.len() ==> (#[trigger] s[i]).1 ==> on_time(onsets, span, s[i].0)
        }),
{
    let n = chart_notes(bpm_bits, onsets, span, diff);
    lemma_notes_over_on_time(diff.spec_rank() + 1, onsets, span, crate::midi::chart_seed(bpm_bits), diff);
    let good = |x: NoteEvent| x.1 ==> on_time(onsets, span, x.0);
    assert forall|i: int| 0 <= i < n.len() implies #[trigger] good(n[i]) by {}
    lemma_stable_sort_keeps_all(n, good);
    let s = stable_sort(n);
    assert forall|i: int| 0 <= i < s.len() && (#[trigger] s[i]).1 implies on_time(onsets, span, s[i].0) by {
        assert(good(s[i]));
    }
}


proof fn lemma_note_pair_key_balance(base: u8, tick: u32, len: u32, st: u64, k: u8)
    ensures
        count_where(note_pair(base, tick, len, st), |x: NoteEvent| x.1 && x.2 == k) == count_where(
            note_pair(base, tick, len, st),
            |x: NoteEvent| !x.1 && x.2 == k,
        ),
{
    let pair = note_pair(base, tick, len, st);
    let one = pair.drop_last();
    assert(one.drop_last() =~= Seq::<NoteEvent>::empty());
    assert(one.last() == pair[0]);
    assert(pair.last() == pair[1]);
    let on = |x: NoteEvent| x.1 && x.2 == k;
    let off = |x: NoteEvent| !x.1 && x.2 == k;
    let key = pair[0].2;
    assert(pair[1].2 == key && pair[0].1 && !pair[1].1);
    assert(count_where(Seq::<NoteEvent>::empty(), on) == 0);
    assert(count_where(Seq::<NoteEvent>::empty(), off) == 0);
    assert(count_where(one, on) == if key == k { 1nat } else { 0nat });
    assert(count_where(one, off) == 0);
    assert(count_where(pair, on) == count_where(one, on));
    assert(count_where(pair, off) == if key == k { 1nat } else { 0nat });
}

proof fn lemma_place_notes_key_balance(slots: Seq<(u32, u32)>, base: u8, st: u64, k: u8)
    ensures
        count_where(place_notes(slots, base, st).0, |x: NoteEvent| x.1 && x.2 == k) == count_where(
            place_notes(slots, base, st).0,
            |x: NoteEvent| !x.1 && x.2 == k,
        ),
    decreases slots.len(),
{
    let on = |x: NoteEvent| x.1 && x.2 == k;
    let off = |x: NoteEvent| !x.1 && x.2 == k;
    if slots.len() > 0 {
        let d = slots.drop_last();
        lemma_place_notes_key_balance(d, base, st, k);
        let (prev, s1) = place_notes(d, base, st);
        let s2 = crate::midi::lcg_step(s1);
        let pair = note_pair(base, slots.last().0, slots.last().1, s2);
        lemma_note_pair_key_balance(base, slots.last().0, slots.last().1, s2, k);
        lemma_count_concat(prev, pair, on);
        lemma_count_concat(prev, pair, off);
    } else {
        assert(count_where(Seq::<NoteEvent>::empty(), on) == 0);
        assert(count_where(Seq::<NoteEvent>::empty(), off) == 0);
    }
}

proof fn lemma_notes_over_key_balance(ds: Seq<Difficulty>, onsets: Seq<u32>, span: u32, st: u64, k: u8)
    ensures
        count_where(notes_over(ds, onsets, span, st).0, |x: NoteEvent| x.1 && x.2 == k) == count_where(
            notes_over(ds, onsets, span, st).0,
            |x: NoteEvent| !x.1 && x.2 == k,
        ),
    decreases ds.len(),
{
    let on = |x: NoteEvent| x.1 && x.2 == k;
    let off = |x: NoteEvent| !x.1 && x.2 == k;
    if ds.len() > 0 {
        let dl = ds.drop_last();
        lemma_notes_over_key_balance(dl, onsets, span, st, k);
        let (prev, s1) = notes_over(dl, onsets, span, st);
        let d = ds.last();
        let slots = slots_for(onsets, span, d);
        let mine = place_notes(slots, d.spec_base_note(), s1).0;
        lemma_place_notes_key_balance(slots, d.spec_base_note(), s1, k);
        lemma_count_concat(prev, mine, on);
        lemma_count_concat(prev, mine, off);
    } else {
        assert(count_where(Seq::<NoteEvent>::empty(), on) == 0);
        assert(count_where(Seq::<NoteEvent>::empty(), off) == 0);
    }
}

/// Note-ons and note-offs balance key by key: on every key the guitar track
/// holds as many note-offs as note-ons.
pub proof fn lemma_guitar_notes_balanced_per_key(bpm_bits: u64, onsets: Seq<u32>, span: u32, diff: Difficulty, key: u8)
    ensures
        count_where(
            spec_guitar_track(bpm_bits, onsets, span, diff),
            |e: EventView| is_note_on(e) && note_key(e) == key,
        ) == count_where(
            spec_guitar_track(bpm_bits, onsets, span, diff),
            |e: EventView| is_note_off(e) && note_key(e) == key,
        ),
{
    let n = chart_notes(bpm_bits, onsets, span, diff);
    let s = stable_sort(n);
    let on = |e: EventView| is_note_on(e) && note_key(e) == key;
    let off = |e: EventView| is_note_off(e) && note_key(e) == key;
    let qon = |x: NoteEvent| x.1 && x.2 == key;
    let qoff = |x: NoteEvent| !x.1 && x.2 == key;
    lemma_guitar_count(bpm_bits, onsets, span, diff, on);
    lemma_guitar_count(bpm_bits, onsets, span, diff, off);
    assert forall|i: int| 0 <= i < s.len() implies on(#[trigger] delta_events(s)[i]) == qon(s[i]) by {}
    assert forall|i: int| 0 <= i < s.len() implies off(#[trigger] delta_events(s)[i]) == qoff(s[i]) by {}
    lemma_delta_events_count(s, qon, on);
    lemma_delta_events_count(s, qoff, off);
    lemma_count_stable_sort(n, qon);
    lemma_count_stable_sort(n, qoff);
    lemma_notes_over_key_balance(diff.spec_up_to(), onsets, span, crate::midi::chart_seed(bpm_bits), key);
}


/// How many of `n` onsets a difficulty charts: all on Expert, three in four
/// on Hard (all but every fourth), every other one on Medium, one in four on Easy.
pub open spec fn thinned_count(d: Difficulty, n: int) -> int {
    match d {
        Difficulty::Expert => n,
        Difficulty::Hard => n - n / 4,
        Difficulty::Medium => (n + 1) / 2,
        Difficulty::Easy => (n + 3) / 4,
    }
}

/// The onset index of the `j`-th note a difficulty charts.
pub open spec fn thinned_index(d: Difficulty, j: int) -> int {
    match d {
        Difficulty::Expert => j,
        Difficulty::Hard => j + j / 3,
        Difficulty::Medium => 2 * j,
        Difficulty::Easy => 4 * j,
    }
}

proof fn lemma_thinning_step(d: Difficulty, n: int)
    requires
        n >= 1,
    ensures
        spec_keep(n - 1, d) ==> thinned_count(d, n) == thinned_count(d, n - 1) + 1 && thinned_index(
            d,
            thinned_count(d, n - 1),
        ) == n - 1,
        !spec_keep(n - 1, d) ==> thinned_count(d, n) == thinned_count(d, n - 1),
        forall|j: int| 0 <= j < thinned_count(d, n - 1) ==> 0 <= #[trigger] thinned_index(d, j) < n - 1,
{
    let q = (n - 1) / 4;
    let r = (n - 1) % 4;
    assert(n - 1 == 4 * q + r);
    assert(0 <= r < 4);
    if d == Difficulty::Hard {
        assert((n - 1) / 4 == q);
        assert(n / 4 == q + if r == 3 { 1int } else { 0int });
        assert(thinned_count(d, n - 1) == 3 * q + r);
        assert(thinned_count(d, n) == 3 * q + r + if r == 3 { 0int } else { 1int });
        assert forall|j: int| 0 <= j < thinned_count(d, n - 1) implies 0 <= #[trigger] thinned_index(d, j) < n - 1 by {
            let a = j / 3;
            assert(j == 3 * a + j % 3);
        }
        if r != 3 {
            let c = 3 * q + r;
            assert(c / 3 == q);
        }
    } else if d == Difficulty::Medium {
        assert((n - 1 + 1) / 2 == 2 * q + (r + 1) / 2);
        assert((n + 1) / 2 == 2 * q + (r + 2) / 2);
    } else if d == Difficulty::Easy {
        assert((n - 1 + 3) / 4 == q + if r >= 1 { 1int } else { 0int });
        assert((n + 3) / 4 == q + 1);
    }
}

/// Thinning keeps whole stretches of a song: on every difficulty the kept
/// onsets are exactly those at the indices `thinned_index(d, 0), (d, 1), …`,
/// as many as `thinned_count(d, n)` of `n` onsets, however long the song.
pub proof fn lemma_thinning_is_periodic(ticks: Seq<u32>, d: Difficulty)
    ensures
        kept_ticks(ticks, d).len() == thinned_count(d, ticks.len() as int),
        forall|j: int| 0 <= j < kept_ticks(ticks, d).len() ==> 0 <= thinned_index(d, j) < ticks.len() && #[trigger] kept_ticks(ticks, d)[j]
            == ticks[thinned_index(d, j)],
    decreases ticks.len(),
{
    let n = ticks.len() as int;
    if n > 0 {
        let t = ticks.drop_last();
        lemma_thinning_is_periodic(t, d);
        lemma_thinning_step(d, n);
        let prev = kept_ticks(t, d);
        let kept = kept_ticks(ticks, d);
        assert forall|j: int| 0 <= j < kept.len() implies 0 <= thinned_index(d, j) < n && #[trigger] kept[j]
            == ticks[thinned_index(d, j)] by {
            if j < prev.len() {
                assert(kept[j] == prev[j]);
                assert(0 <= thinned_index(d, j) < n - 1);
                assert(t[thinned_index(d, j)] == ticks[thinned_index(d, j)]);
            } else {
                assert(spec_keep(n - 1, d));
                assert(j == prev.len());
            }
        }
    }
}

/// On the onset path the lane of each charted difficulty holds exactly its
/// thinned share of the song's onsets: `n` on Expert, `n - ⌊n/4⌋` on
/// Hard, `⌈n/2⌉` on Medium and `⌈n/4⌉` on Easy.
pub proof fn lemma_onset_lane_counts(bpm_bits: u64, onsets: Seq<u32>, span: u32, diff: Difficulty, e: Difficulty)
    requires
        follows_onsets(onsets),
        e.spec_rank() <= diff.spec_rank(),
    ensures
        count_where(
            spec_guitar_track(bpm_bits, onsets, span, diff),
            |ev: EventView| is_note_on(ev) && in_lane(note_key(ev), e),
        ) == thinned_count(e, onsets.len() as int),
{
    lemma_each_lane_has_its_notes(bpm_bits, onsets, span, diff, e);
    lemma_thinning_is_periodic(onsets, e);
}

} // verus!
