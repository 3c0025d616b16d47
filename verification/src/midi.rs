//! The `notes.mid` chart: a tempo track and a `PART GUITAR` track whose notes
//! follow detected onsets, or an even beat grid when there are too few.
//!
//! Timing arrives already in ticks (see [`ChartTiming`]); the library decides
//! where notes go, which frets they use and in which order they are emitted.

use vstd::prelude::*;
use crate::cli::Difficulty;
use vstd::string::StringSliceAdditionalSpecFns;
use crate::notes::{NoteEvent, stable_sort, sort_by_time, time_le, time_sorted};

verus! {

/// Ticks per quarter note. 480 is a common, widely-compatible resolution.
pub const TICKS_PER_BEAT: u16 = 480;
/// Velocity of every note-on.
pub const NOTE_VELOCITY: u8 = 100;
/// Green, red, yellow, blue, orange.
pub const FRETS: u8 = 5;
/// Minimum number of detected onsets before the chart follows the music.
/// Below this it falls back to an even beat grid.
pub const MIN_ONSETS: usize = 8;

/// The kind of a track event.
#[derive(Debug, PartialEq, Eq)]
pub enum EventKind {
    TrackName(Vec<u8>),
    /// Microseconds per quarter note.
    Tempo(u32),
    /// Numerator, denominator as a power of two, MIDI clocks per click,
    /// 32nd notes per quarter note.
    TimeSignature(u8, u8, u8, u8),
    EndOfTrack,
    NoteOn { channel: u8, key: u8, vel: u8 },
    NoteOff { channel: u8, key: u8, vel: u8 },
}

/// What a track event holds, as mathematical values.
pub enum EventKindView {
    TrackName(Seq<u8>),
    Tempo(u32),
    TimeSignature(u8, u8, u8, u8),
    EndOfTrack,
    NoteOn { channel: u8, key: u8, vel: u8 },
    NoteOff { channel: u8, key: u8, vel: u8 },
}

impl View for EventKind {
    type V = EventKindView;

    open spec fn view(&self) -> EventKindView {
        match self {
            EventKind::TrackName(name) => EventKindView::TrackName(name@),
            EventKind::Tempo(t) => EventKindView::Tempo(*t),
            EventKind::TimeSignature(a, b, c, d) => EventKindView::TimeSignature(*a, *b, *c, *d),
            EventKind::EndOfTrack => EventKindView::EndOfTrack,
            EventKind::NoteOn { channel, key, vel } => EventKindView::NoteOn {
                channel: *channel,
                key: *key,
                vel: *vel,
            },
            EventKind::NoteOff { channel, key, vel } => EventKindView::NoteOff {
                channel: *channel,
                key: *key,
                vel: *vel,
            },
        }
    }
}

/// A track event: ticks since the previous event of the track, and its kind.
#[derive(Debug, PartialEq, Eq)]
pub struct ChartEvent {
    pub delta: u32,
    pub kind: EventKind,
}

/// A track event as mathematical values.
pub struct EventView {
    pub delta: u32,
    pub kind: EventKindView,
}

impl View for ChartEvent {
    type V = EventView;

    open spec fn view(&self) -> EventView {
        EventView { delta: self.delta, kind: self.kind@ }
    }
}

/// The events of a track as mathematical values.
pub open spec fn events_view(t: Seq<ChartEvent>) -> Seq<EventView> {
    t.map_values(|e: ChartEvent| e@)
}

/// A standard MIDI file whose tracks play in parallel, with metrical timing.
#[derive(Debug, PartialEq, Eq)]
pub struct Chart {
    pub ticks_per_beat: u16,
    pub tracks: Vec<Vec<ChartEvent>>,
}

/// A chart as mathematical values.
pub struct ChartView {
    pub ticks_per_beat: u16,
    pub tracks: Seq<Seq<EventView>>,
}

impl View for Chart {
    type V = ChartView;

    open spec fn view(&self) -> ChartView {
        ChartView {
            ticks_per_beat: self.ticks_per_beat,
            tracks: self.tracks@.map_values(|t: Vec<ChartEvent>| events_view(t@)),
        }
    }
}

/// The timing of a song, in the units the chart is built from.
///
/// * `bpm_bits`: the bit pattern of the tempo (as an `f64`) that seeds the
///   fret pattern, so that one song always gets the same chart;
/// * `micros_per_beat`: microseconds per quarter note of that tempo;
/// * `onset_ticks`: every detected onset, converted to ticks;
/// * `grid_span`: the song length in half-beats, rounded up (at least the
///   span of four beats); only read when there are too few onsets.
#[derive(Debug, PartialEq, Eq)]
pub struct ChartTiming {
    pub bpm_bits: u64,
    pub micros_per_beat: u32,
    pub onset_ticks: Vec<u32>,
    pub grid_span: u32,
}

// ---------------------------------------------------------------------------
// The fret pattern generator

pub const LCG_MUL: u64 = 6_364_136_223_846_793_005;
pub const LCG_INC: u64 = 1_442_695_040_888_963_407;
/// Mixed into the tempo bits to seed the generator.
pub const SEED_MIX: u64 = 0xC0FF_EE00;

pub open spec fn lcg_step(state: u64) -> u64 {
    vstd::wrapping::u64_specs::wrapping_add(
        vstd::wrapping::u64_specs::wrapping_mul(state, LCG_MUL),
        LCG_INC,
    )
}

pub open spec fn lcg_output(state: u64) -> u32 {
    (state >> 33u64) as u32
}

/// Tiny deterministic LCG so the fret pattern is varied but reproducible.
pub struct Lcg(u64);

impl Lcg {
    /// The generator's state.
    pub closed spec fn state(&self) -> u64 {
        self.0
    }

    /// A generator whose state is `seed` with its lowest bit set.
    pub fn seed(seed: u64) -> (r: Lcg)
        ensures
            r.state() == seed | 1u64,
    {
        Lcg(seed | 1)
    }

    /// Advances the state and returns its upper 31 bits.
    pub fn next(&mut self) -> (r: u32)
        ensures
            final(self).state() == lcg_step(old(self).state()),
            r == lcg_output(final(self).state()),
    {
        // Numerical Recipes constants.
        self.0 = self.0.wrapping_mul(LCG_MUL).wrapping_add(LCG_INC);
        (self.0 >> 33u64) as u32
    }
}

// ---------------------------------------------------------------------------
// Where notes go

/// Thinning of the onset list: Expert keeps everything, lower difficulties
/// keep progressively fewer notes.
pub open spec fn spec_keep(index: int, diff: Difficulty) -> bool {
    match diff {
        Difficulty::Expert => true,
        Difficulty::Hard => index % 4 != 3,
        Difficulty::Medium => index % 2 == 0,
        Difficulty::Easy => index % 4 == 0,
    }
}

/// The onset ticks that `diff` keeps, in order.
pub open spec fn kept_ticks(ticks: Seq<u32>, diff: Difficulty) -> Seq<u32>
    decreases ticks.len(),
{
    if ticks.len() == 0 {
        Seq::empty()
    } else {
        let prev = kept_ticks(ticks.drop_last(), diff);
        if spec_keep(ticks.len() - 1, diff) {
            prev.push(ticks.last())
        } else {
            prev
        }
    }
}

pub open spec fn clamp_len(gap: u32) -> u32 {
    if gap < 1 {
        1
    } else if gap > 240 {
        240
    } else {
        gap
    }
}

/// Length of the `i`-th onset note: half the gap to the next kept onset,
/// between one tick and half a beat; a quarter beat for the last one.
pub open spec fn onset_len(kt: Seq<u32>, i: int) -> u32 {
    if i + 1 < kt.len() {
        clamp_len((if kt[i + 1] >= kt[i] { (kt[i + 1] - kt[i]) as u32 } else { 0u32 }) / 2)
    } else {
        120
    }
}

/// Note slots (tick, length) on the kept onsets.
pub open spec fn onset_slots(kt: Seq<u32>) -> Seq<(u32, u32)> {
    Seq::new(kt.len(), |i: int| (kt[i], onset_len(kt, i)))
}

/// Number of grid notes: the `k` with `k * step < span`.
pub open spec fn grid_count(span: u32, step: u32) -> nat {
    ((span + step - 1) / step as int) as nat
}

/// Note slots on the beat grid.
pub open spec fn grid_slots(span: u32, diff: Difficulty) -> Seq<(u32, u32)> {
    let step = diff.spec_grid_step();
    Seq::new(grid_count(span, step), |k: int| ((k * step * 240) as u32, (step * 120) as u32))
}

/// Whether the chart follows onsets rather than the grid.
pub open spec fn follows_onsets(onsets: Seq<u32>) -> bool {
    onsets.len() >= MIN_ONSETS
}

/// The note slots of one difficulty.
pub open spec fn slots_for(onsets: Seq<u32>, span: u32, diff: Difficulty) -> Seq<(u32, u32)> {
    if follows_onsets(onsets) {
        onset_slots(kept_ticks(onsets, diff))
    } else {
        grid_slots(span, diff)
    }
}

/// A note-on and its note-off, on the fret that generator state `state` picks.
pub open spec fn note_pair(base: u8, tick: u32, len: u32, state: u64) -> Seq<NoteEvent> {
    let key = (base + lcg_output(state) % 5) as u8;
    let end = (tick + if len > 1 { len } else { 1 }) as u32;
    seq![(tick, true, key), (end, false, key)]
}

/// The notes placed on `slots` in lane `base`, and the generator state after.
pub open spec fn place_notes(slots: Seq<(u32, u32)>, base: u8, state: u64) -> (Seq<NoteEvent>, u64)
    decreases slots.len(),
{
    if slots.len() == 0 {
        (Seq::empty(), state)
    } else {
        let (prev, st) = place_notes(slots.drop_last(), base, state);
        let st2 = lcg_step(st);
        (prev + note_pair(base, slots.last().0, slots.last().1, st2), st2)
    }
}

/// The notes of the difficulties `ds`, charted one after another.
pub open spec fn notes_over(ds: Seq<Difficulty>, onsets: Seq<u32>, span: u32, state: u64) -> (Seq<NoteEvent>, u64)
    decreases ds.len(),
{
    if ds.len() == 0 {
        (Seq::empty(), state)
    } else {
        let (prev, st) = notes_over(ds.drop_last(), onsets, span, state);
        let d = ds.last();
        let (mine, st2) = place_notes(slots_for(onsets, span, d), d.spec_base_note(), st);
        (prev + mine, st2)
    }
}

pub open spec fn chart_seed(bpm_bits: u64) -> u64 {
    (bpm_bits ^ SEED_MIX) | 1u64
}

/// All guitar notes of a chart up to `diff`, before sorting.
pub open spec fn chart_notes(bpm_bits: u64, onsets: Seq<u32>, span: u32, diff: Difficulty) -> Seq<NoteEvent> {
    notes_over(diff.spec_up_to(), onsets, span, chart_seed(bpm_bits)).0
}

// ---------------------------------------------------------------------------
// The tracks

pub open spec fn meta_view(kind: EventKindView) -> EventView {
    EventView { delta: 0, kind }
}

/// The bytes of "PART GUITAR".
pub open spec fn part_guitar() -> Seq<u8> {
    seq![80u8, 65, 82, 84, 32, 71, 85, 73, 84, 65, 82]
}

pub open spec fn note_kind(e: NoteEvent) -> EventKindView {
    if e.1 {
        EventKindView::NoteOn { channel: 0, key: e.2, vel: NOTE_VELOCITY }
    } else {
        EventKindView::NoteOff { channel: 0, key: e.2, vel: 0 }
    }
}

pub open spec fn prev_tick(s: Seq<NoteEvent>, i: int) -> u32 {
    if i == 0 {
        0
    } else {
        s[i - 1].0
    }
}

/// Time-ordered notes as track events: each delta is the distance to the
/// previous note (to the track start for the first one).
pub open spec fn delta_events(s: Seq<NoteEvent>) -> Seq<EventView> {
    Seq::new(s.len(), |i: int| EventView { delta: (s[i].0 - prev_tick(s, i)) as u32, kind: note_kind(s[i]) })
}

/// Track 0: name, tempo, 4/4 time signature, end.
pub open spec fn spec_tempo_track(name: Seq<u8>, micros_per_beat: u32) -> Seq<EventView> {
    seq![
        meta_view(EventKindView::TrackName(name)),
        meta_view(EventKindView::Tempo(micros_per_beat)),
        meta_view(EventKindView::TimeSignature(4, 2, 24, 8)),
        meta_view(EventKindView::EndOfTrack),
    ]
}

/// Track 1: `PART GUITAR`, every note in time order, end.
pub open spec fn spec_guitar_track(bpm_bits: u64, onsets: Seq<u32>, span: u32, diff: Difficulty) -> Seq<EventView> {
    seq![meta_view(EventKindView::TrackName(part_guitar()))]
        + delta_events(stable_sort(chart_notes(bpm_bits, onsets, span, diff)))
        + seq![meta_view(EventKindView::EndOfTrack)]
}

/// Every note of every difficulty ends within `u32` ticks.
pub open spec fn chart_fits(onsets: Seq<u32>, span: u32, diff: Difficulty) -> bool {
    if follows_onsets(onsets) {
        forall|i: int| 0 <= i < onsets.len() ==> #[trigger] onsets[i] + 240 <= u32::MAX
    } else {
        forall|i: int| 0 <= i < diff.spec_up_to().len() ==> grid_fits(span, #[trigger] diff.spec_up_to()[i])
    }
}

/// The last grid note of `diff` ends within `u32` ticks.
pub open spec fn grid_fits(span: u32, diff: Difficulty) -> bool {
    let step = diff.spec_grid_step();
    grid_count(span, step) == 0 || (grid_count(span, step) - 1) * step * 240 + step * 120 <= u32::MAX
}


// ---------------------------------------------------------------------------
// Building the chart

proof fn lemma_kept_ticks_bounded(ticks: Seq<u32>, diff: Difficulty, bound: int)
    requires
        forall|i: int| 0 <= i < ticks.len() ==> #[trigger] ticks[i] <= bound,
    ensures
        forall|j: int| 0 <= j < kept_ticks(ticks, diff).len() ==> #[trigger] kept_ticks(ticks, diff)[j] <= bound,
    decreases ticks.len(),
{
    if ticks.len() > 0 {
        let d = ticks.drop_last();
        assert forall|i: int| 0 <= i < d.len() implies #[trigger] d[i] <= bound by {
            assert(d[i] == ticks[i]);
        }
        lemma_kept_ticks_bounded(d, diff, bound);
        assert(ticks.last() == ticks[ticks.len() - 1]);
        let prev = kept_ticks(d, diff);
        let kept = kept_ticks(ticks, diff);
        assert forall|j: int| 0 <= j < kept.len() implies #[trigger] kept[j] <= bound by {
            if j < prev.len() {
                assert(kept[j] == prev[j]);
            }
        }
    }
}

/// Thin the onset list per difficulty: Expert keeps everything, lower
/// difficulties keep progressively fewer notes.
pub fn keep_for_difficulty(index: usize, diff: Difficulty) -> (keep: bool)
    ensures
        keep == spec_keep(index as int, diff),
{
    match diff {
        Difficulty::Expert => true,
        Difficulty::Hard => index % 4 != 3,
        Difficulty::Medium => index % 2 == 0,
        Difficulty::Easy => index % 4 == 0,
    }
}

/// Append a single note (NoteOn + NoteOff) with a deterministically-chosen fret.
pub fn push_note(events: &mut Vec<NoteEvent>, rng: &mut Lcg, base: u8, tick: u32, len: u32)
    requires
        base + lcg_output(lcg_step(old(rng).state())) % (FRETS as u32) <= u8::MAX,
        tick + (if len > 1 { len } else { 1u32 }) <= u32::MAX,
    ensures
        final(rng).state() == lcg_step(old(rng).state()),
        final(events)@ == old(events)@ + note_pair(base, tick, len, final(rng).state()),
{
    let fret = (rng.next() % (FRETS as u32)) as u8;
    let key = base + fret;
    events.push((tick, true, key));
    let l: u32 = if len > 1 { len } else { 1 };
    events.push((tick + l, false, key));
    assert(events@ =~= old(events)@ + note_pair(base, tick, len, rng.state()));
}

/// Place notes on the kept onsets, thinned per difficulty so lower
/// difficulties are sparser. Note lengths are clamped to half the gap to the
/// next note.
fn place_onset_notes(
    events: &mut Vec<NoteEvent>,
    rng: &mut Lcg,
    base: u8,
    onset_ticks: &Vec<u32>,
    diff: Difficulty,
)
    requires
        base + FRETS - 1 <= u8::MAX,
        forall|i: int| 0 <= i < onset_ticks@.len() ==> #[trigger] onset_ticks@[i] + 240 <= u32::MAX,
    ensures
        final(events)@ == old(events)@ + place_notes(
            onset_slots(kept_ticks(onset_ticks@, diff)),
            base,
            old(rng).state(),
        ).0,
        final(rng).state() == place_notes(
            onset_slots(kept_ticks(onset_ticks@, diff)),
            base,
            old(rng).state(),
        ).1,
{
    let mut ticks: Vec<u32> = Vec::new();
    let n = onset_ticks.len();
    for i in 0..n
        invariant
            n == onset_ticks@.len(),
            ticks@ == kept_ticks(onset_ticks@.take(i as int), diff),
    {
        proof {
            assert(onset_ticks@.take(i + 1).drop_last() =~= onset_ticks@.take(i as int));
        }
        if keep_for_difficulty(i, diff) {
            ticks.push(onset_ticks[i]);
        }
    }
    assert(onset_ticks@.take(n as int) =~= onset_ticks@);
    proof {
        lemma_kept_ticks_bounded(onset_ticks@, diff, u32::MAX - 240);
    }
    let max_len: u32 = (TICKS_PER_BEAT / 2) as u32;
    let default_len: u32 = (TICKS_PER_BEAT / 4) as u32;
    let ghost slots = onset_slots(ticks@);
    let ghost st0 = rng.state();
    let ghost ev0 = events@;
    let m = ticks.len();
    for i in 0..m
        invariant
            m == ticks@.len(),
            slots == onset_slots(ticks@),
            base + FRETS - 1 <= u8::MAX,
            forall|j: int| 0 <= j < m ==> #[trigger] ticks@[j] <= u32::MAX - 240,
            max_len == 240,
            default_len == 120,
            events@ == ev0 + place_notes(slots.take(i as int), base, st0).0,
            rng.state() == place_notes(slots.take(i as int), base, st0).1,
    {
        let len = if i + 1 < m {
            let gap = ticks[i + 1].saturating_sub(ticks[i]) / 2;
            if gap < 1 {
                1
            } else if gap > max_len {
                max_len
            } else {
                gap
            }
        } else {
            default_len
        };
        proof {
            assert(slots.take(i + 1).drop_last() =~= slots.take(i as int));
            assert(slots.take(i + 1).last() == slots[i as int]);
            assert(ticks@[i as int] <= u32::MAX - 240);
        }
        let ghost before = events@;
        push_note(events, rng, base, ticks[i], len);
        proof {
            let p = place_notes(slots.take(i as int), base, st0).0;
            assert(events@ =~= ev0 + (p + note_pair(base, ticks@[i as int], len, rng.state())));
        }
    }
    assert(slots.take(m as int) =~= slots);
}

proof fn lemma_grid_tick_fits(k: int, count: int, step: int)
    by (nonlinear_arith)
    requires
        0 <= k < count,
        1 <= step <= 4,
        (count - 1) * step * 240 + step * 120 <= u32::MAX,
    ensures
        k * step * 240 + step * 120 <= u32::MAX,
{
    assert(k * step <= (count - 1) * step);
}

/// Fallback when onset detection found too little: evenly-spaced notes over
/// the beat grid, with density per difficulty.
fn place_grid_notes(
    events: &mut Vec<NoteEvent>,
    rng: &mut Lcg,
    base: u8,
    grid_span: u32,
    diff: Difficulty,
)
    requires
        base + FRETS - 1 <= u8::MAX,
        grid_fits(grid_span, diff),
    ensures
        final(events)@ == old(events)@ + place_notes(grid_slots(grid_span, diff), base, old(rng).state()).0,
        final(rng).state() == place_notes(grid_slots(grid_span, diff), base, old(rng).state()).1,
{
    let step: u32 = diff.grid_step();
    let note_len: u32 = step * 120;
    let count: u64 = (grid_span as u64 + step as u64 - 1) / step as u64;
    let ghost slots = grid_slots(grid_span, diff);
    let ghost st0 = rng.state();
    let ghost ev0 = events@;
    assert(count == grid_count(grid_span, step));
    let mut k: u64 = 0;
    while k < count
        invariant
            k <= count,
            count == slots.len(),
            step == diff.spec_grid_step(),
            note_len == step * 120,
            slots == grid_slots(grid_span, diff),
            grid_fits(grid_span, diff),
            base + FRETS - 1 <= u8::MAX,
            events@ == ev0 + place_notes(slots.take(k as int), base, st0).0,
            rng.state() == place_notes(slots.take(k as int), base, st0).1,
        decreases count - k,
    {
        proof {
            lemma_grid_tick_fits(k as int, count as int, step as int);
        }
        let tick: u32 = (k * (step as u64) * 240) as u32;
        proof {
            assert(slots.take(k + 1).drop_last() =~= slots.take(k as int));
            assert(slots.take(k + 1).last() == slots[k as int]);
            assert(slots[k as int] == (tick, note_len));
        }
        push_note(events, rng, base, tick, note_len);
        proof {
            let p = place_notes(slots.take(k as int), base, st0).0;
            assert(events@ =~= ev0 + (p + note_pair(base, tick, note_len, rng.state())));
        }
        k = k + 1;
    }
    assert(slots.take(count as int) =~= slots);
}

fn meta(kind: EventKind) -> (e: ChartEvent)
    ensures
        e.delta == 0,
        e.kind == kind,
{
    ChartEvent { delta: 0, kind }
}

fn part_guitar_bytes() -> (name: Vec<u8>)
    ensures
        name@ == part_guitar(),
{
    // "PART GUITAR" in ASCII.
    let name: Vec<u8> = vec![80, 65, 82, 84, 32, 71, 85, 73, 84, 65, 82];
    assert(name@ =~= part_guitar());
    name
}

/// Track 0: song name, tempo and a 4/4 time signature.
fn build_tempo_track(song_name: &str, micros_per_beat: u32) -> (track: Vec<ChartEvent>)
    ensures
        events_view(track@) == spec_tempo_track(song_name.spec_bytes(), micros_per_beat),
{
    let mut track: Vec<ChartEvent> = Vec::new();
    track.push(meta(EventKind::TrackName(song_name.as_bytes_vec())));
    track.push(meta(EventKind::Tempo(micros_per_beat)));
    // 4/4: numerator 4, denominator 2^2, 24 MIDI clocks/click, 8 32nds/beat.
    track.push(meta(EventKind::TimeSignature(4, 2, 24, 8)));
    track.push(meta(EventKind::EndOfTrack));
    assert(events_view(track@) =~= spec_tempo_track(song_name.spec_bytes(), micros_per_beat));
    track
}

/// Track 1: `PART GUITAR` with notes for every difficulty up to `difficulty`,
/// in time order with note-offs before note-ons at equal ticks.
fn build_guitar_track(timing: &ChartTiming, difficulty: Difficulty) -> (track: Vec<ChartEvent>)
    requires
        chart_fits(timing.onset_ticks@, timing.grid_span, difficulty),
    ensures
        events_view(track@) == spec_guitar_track(
            timing.bpm_bits,
            timing.onset_ticks@,
            timing.grid_span,
            difficulty,
        ),
{
    let ghost onsets = timing.onset_ticks@;
    let ghost span = timing.grid_span;
    let mut events: Vec<NoteEvent> = Vec::new();
    let mut rng = Lcg::seed(timing.bpm_bits ^ SEED_MIX);
    let use_onsets = timing.onset_ticks.len() >= MIN_ONSETS;
    let diffs = difficulty.up_to();
    let nd = diffs.len();
    for j in 0..nd
        invariant
            nd == diffs@.len(),
            diffs@ == difficulty.spec_up_to(),
            onsets == timing.onset_ticks@,
            span == timing.grid_span,
            chart_fits(onsets, span, difficulty),
            use_onsets == follows_onsets(onsets),
            events@ == notes_over(diffs@.take(j as int), onsets, span, chart_seed(timing.bpm_bits)).0,
            rng.state() == notes_over(diffs@.take(j as int), onsets, span, chart_seed(timing.bpm_bits)).1,
    {
        let diff = diffs[j];
        let base = diff.base_note();
        let ghost before = events@;
        if use_onsets {
            place_onset_notes(&mut events, &mut rng, base, &timing.onset_ticks, diff);
        } else {
            assert(grid_fits(span, difficulty.spec_up_to()[j as int]));
            place_grid_notes(&mut events, &mut rng, base, timing.grid_span, diff);
        }
        proof {
            assert(diffs@.take(j + 1).drop_last() =~= diffs@.take(j as int));
            assert(diffs@.take(j + 1).last() == diff);
        }
    }
    assert(diffs@.take(nd as int) =~= diffs@);
    let sorted = sort_by_time(&events);
    proof {
        crate::notes::lemma_stable_sort_sorted(events@);
    }
    let mut track: Vec<ChartEvent> = Vec::new();
    track.push(meta(EventKind::TrackName(part_guitar_bytes())));
    let ghost head = seq![meta_view(EventKindView::TrackName(part_guitar()))];
    assert(events_view(track@) =~= head + delta_events(sorted@).take(0));
    let mut last_tick: u32 = 0;
    let ns = sorted.len();
    for i in 0..ns
        invariant
            ns == sorted@.len(),
            time_sorted(sorted@),
            last_tick == prev_tick(sorted@, i as int),
            head == seq![meta_view(EventKindView::TrackName(part_guitar()))],
            events_view(track@) == head + delta_events(sorted@).take(i as int),
    {
        let (tick, is_on, key) = sorted[i];
        proof {
            if i > 0 {
                assert(time_le(sorted@[i - 1], sorted@[i as int]));
            }
        }
        let delta = tick - last_tick;
        last_tick = tick;
        let kind = if is_on {
            EventKind::NoteOn { channel: 0, key, vel: NOTE_VELOCITY }
        } else {
            EventKind::NoteOff { channel: 0, key, vel: 0 }
        };
        let ghost before = track@;
        track.push(ChartEvent { delta, kind });
        proof {
            assert(events_view(track@) =~= events_view(before).push(track@[track@.len() - 1]@));
            assert(delta_events(sorted@).take(i + 1) =~= delta_events(sorted@).take(i as int).push(
                delta_events(sorted@)[i as int],
            ));
        }
    }
    let ghost before = track@;
    track.push(meta(EventKind::EndOfTrack));
    assert(delta_events(sorted@).take(ns as int) =~= delta_events(sorted@));
    assert(events_view(track@) =~= events_view(before).push(meta_view(EventKindView::EndOfTrack)));
    track
}

/// Assemble the chart: the tempo track and the `PART GUITAR` track.
pub fn build(song_name: &str, timing: &ChartTiming, difficulty: Difficulty) -> (chart: Chart)
    requires
        chart_fits(timing.onset_ticks@, timing.grid_span, difficulty),
    ensures
        chart@.ticks_per_beat == TICKS_PER_BEAT,
        chart@.tracks == seq![
            spec_tempo_track(song_name.spec_bytes(), timing.micros_per_beat),
            spec_guitar_track(timing.bpm_bits, timing.onset_ticks@, timing.grid_span, difficulty),
        ],
{
    let mut tracks: Vec<Vec<ChartEvent>> = Vec::new();
    tracks.push(build_tempo_track(song_name, timing.micros_per_beat));
    tracks.push(build_guitar_track(timing, difficulty));
    let chart = Chart { ticks_per_beat: TICKS_PER_BEAT, tracks };
    assert(chart@.tracks =~= seq![
        spec_tempo_track(song_name.spec_bytes(), timing.micros_per_beat),
        spec_guitar_track(timing.bpm_bits, timing.onset_ticks@, timing.grid_span, difficulty),
    ]);
    chart
}

impl ChartTiming {
    /// Whether every note of a chart up to `difficulty` ends within `u32`
    /// ticks, which [`build`] needs.
    pub fn fits(&self, difficulty: Difficulty) -> (ok: bool)
        ensures
            ok == chart_fits(self.onset_ticks@, self.grid_span, difficulty),
    {
        if self.onset_ticks.len() >= MIN_ONSETS {
            let n = self.onset_ticks.len();
            for i in 0..n
                invariant
                    n == self.onset_ticks@.len(),
                    n >= MIN_ONSETS,
                    forall|j: int| 0 <= j < i ==> #[trigger] self.onset_ticks@[j] + 240 <= u32::MAX,
            {
                if self.onset_ticks[i] > u32::MAX - 240 {
                    assert(!(self.onset_ticks@[i as int] + 240 <= u32::MAX));
                    return false;
                }
            }
            true
        } else {
            let diffs = difficulty.up_to();
            let nd = diffs.len();
            for j in 0..nd
                invariant
                    nd == diffs@.len(),
                    diffs@ == difficulty.spec_up_to(),
                    self.onset_ticks@.len() < MIN_ONSETS,
                    forall|k: int| 0 <= k < j ==> grid_fits(self.grid_span, #[trigger] diffs@[k]),
            {
                let step: u64 = diffs[j].grid_step() as u64;
                let count: u64 = (self.grid_span as u64 + step - 1) / step;
                assert(count == grid_count(self.grid_span, step as u32));
                assert(1 <= step <= 4);
                assert(count <= 0x1_0000_0000);
                if count > 0 {
                    assert((count - 1) * step * 240 + step * 120 <= 0x1000_0000_0000) by (nonlinear_arith)
                        requires
                            1 <= step <= 4,
                            1 <= count <= 0x1_0000_0000,
                    ;
                }
                if count > 0 && (count - 1) * step * 240 + step * 120 > u32::MAX as u64 {
                    assert(!grid_fits(self.grid_span, difficulty.spec_up_to()[j as int]));
                    return false;
                }
            }
            true
        }
    }
}

} // verus!
