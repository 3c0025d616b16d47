use std::collections::BTreeSet;
use std::ops::RangeInclusive;

use midly::num::{u15, u24, u28, u4, u7};
use midly::{Format, Header, MetaMessage, MidiMessage, Smf, Timing, TrackEvent, TrackEventKind};

use clonehero_maker::cli::Difficulty;
use clonehero_maker::midi::{
    build, keep_for_difficulty, Chart, ChartEvent, ChartTiming, EventKind, Lcg,
};

/// The timing of a song as the application derives it from floating-point
/// analysis results.
fn timing(bpm: f32, duration_secs: f64, onsets: &[f64]) -> ChartTiming {
    let bpm = if bpm.is_finite() && bpm > 20.0 { bpm as f64 } else { 120.0 };
    let ticks_per_second = bpm * 480.0 / 60.0;
    let total_beats = (duration_secs * bpm / 60.0).max(4.0);
    ChartTiming {
        bpm_bits: bpm.to_bits(),
        micros_per_beat: (60_000_000.0 / bpm).round() as u32,
        onset_ticks: onsets.iter().map(|&t| (t * ticks_per_second).round() as u32).collect(),
        grid_span: (total_beats * 2.0).ceil() as u32,
    }
}

fn to_event(e: &ChartEvent) -> TrackEvent<'_> {
    let kind = match &e.kind {
        EventKind::TrackName(n) => TrackEventKind::Meta(MetaMessage::TrackName(n)),
        EventKind::Tempo(t) => TrackEventKind::Meta(MetaMessage::Tempo(u24::new(*t))),
        EventKind::TimeSignature(a, b, c, d) => {
            TrackEventKind::Meta(MetaMessage::TimeSignature(*a, *b, *c, *d))
        }
        EventKind::EndOfTrack => TrackEventKind::Meta(MetaMessage::EndOfTrack),
        EventKind::NoteOn { channel, key, vel } => TrackEventKind::Midi {
            channel: u4::new(*channel),
            message: MidiMessage::NoteOn { key: u7::new(*key), vel: u7::new(*vel) },
        },
        EventKind::NoteOff { channel, key, vel } => TrackEventKind::Midi {
            channel: u4::new(*channel),
            message: MidiMessage::NoteOff { key: u7::new(*key), vel: u7::new(*vel) },
        },
    };
    TrackEvent { delta: u28::new(e.delta), kind }
}

fn to_smf(chart: &Chart) -> Smf<'_> {
    let header = Header::new(Format::Parallel, Timing::Metrical(u15::new(chart.ticks_per_beat)));
    let mut smf = Smf::new(header);
    for track in &chart.tracks {
        smf.tracks.push(track.iter().map(to_event).collect());
    }
    smf
}

/// Build a chart, round-trip it through midly's writer and parser, and check
/// it is a valid SMF with balanced notes inside the expected lane range.
fn parse_and_check(difficulty: Difficulty, expected_keys: RangeInclusive<u8>) {
    // Empty onsets -> grid fallback path.
    let chart = build("Test Song", &timing(120.0, 12.0, &[]), difficulty);

    let mut bytes = Vec::new();
    to_smf(&chart).write_std(&mut bytes).expect("write");

    let parsed = Smf::parse(&bytes).expect("notes.mid must be a valid SMF");
    assert_eq!(parsed.tracks.len(), 2, "tempo track + PART GUITAR");

    let mut note_on = 0i32;
    let mut note_off = 0i32;
    let mut keys = BTreeSet::new();
    let mut guitar_name: Option<Vec<u8>> = None;

    for event in &parsed.tracks[1] {
        match event.kind {
            TrackEventKind::Meta(MetaMessage::TrackName(name)) => {
                guitar_name = Some(name.to_vec());
            }
            TrackEventKind::Midi { message: MidiMessage::NoteOn { key, vel }, .. } => {
                if vel.as_int() > 0 {
                    note_on += 1;
                    keys.insert(key.as_int());
                } else {
                    note_off += 1;
                }
            }
            TrackEventKind::Midi { message: MidiMessage::NoteOff { .. }, .. } => note_off += 1,
            _ => {}
        }
    }

    assert_eq!(guitar_name.as_deref(), Some(&b"PART GUITAR"[..]));
    assert!(note_on > 0, "chart must contain notes");
    assert_eq!(note_on, note_off, "every NoteOn needs a matching NoteOff");
    for key in &keys {
        assert!(expected_keys.contains(key), "key {key} outside expected lane {expected_keys:?}");
    }
}

#[test]
fn expert_chart_uses_all_lanes_and_is_balanced() {
    parse_and_check(Difficulty::Expert, 60..=100);
}

#[test]
fn easy_chart_only_uses_easy_lane() {
    parse_and_check(Difficulty::Easy, 60..=64);
}

#[test]
fn expert_charts_one_note_per_onset() {
    // 16 onsets, 0.5 s apart (>= MIN_ONSETS) -> onset path, Expert keeps all.
    let onsets: Vec<f64> = (0..16).map(|i| 0.5 * i as f64).collect();
    let chart = build("Onset Song", &timing(120.0, 8.0, &onsets), Difficulty::Expert);

    // Count only Expert-lane (96..=100) note-ons; the chart also contains
    // the thinned Easy/Medium/Hard lanes.
    let expert_note_ons = chart.tracks[1]
        .iter()
        .filter(|e| matches!(e.kind, EventKind::NoteOn { key, vel, .. } if vel > 0 && (96..=100).contains(&key)))
        .count();
    assert_eq!(expert_note_ons, onsets.len(), "Expert lane should chart one note per onset");
}

#[test]
fn tempo_track_has_tempo_and_time_signature() {
    let chart = build("X", &timing(150.0, 5.0, &[]), Difficulty::Medium);
    let tempo = &chart.tracks[0];
    assert!(tempo.iter().any(|e| matches!(e.kind, EventKind::Tempo(_))));
    assert!(tempo.iter().any(|e| matches!(e.kind, EventKind::TimeSignature(..))));
}

#[test]
fn tempo_track_is_exact() {
    let chart = build("Song", &timing(150.0, 5.0, &[]), Difficulty::Medium);
    assert_eq!(chart.ticks_per_beat, 480);
    assert_eq!(
        chart.tracks[0],
        vec![
            ChartEvent { delta: 0, kind: EventKind::TrackName(b"Song".to_vec()) },
            ChartEvent { delta: 0, kind: EventKind::Tempo(400_000) },
            ChartEvent { delta: 0, kind: EventKind::TimeSignature(4, 2, 24, 8) },
            ChartEvent { delta: 0, kind: EventKind::EndOfTrack },
        ]
    );
}

/// Absolute (tick, is_on, key) of the guitar notes.
fn absolute_notes(chart: &Chart) -> Vec<(u32, bool, u8)> {
    let mut t = 0u32;
    let mut out = Vec::new();
    for e in &chart.tracks[1] {
        t += e.delta;
        match e.kind {
            EventKind::NoteOn { key, .. } => out.push((t, true, key)),
            EventKind::NoteOff { key, .. } => out.push((t, false, key)),
            _ => {}
        }
    }
    out
}

#[test]
fn grid_notes_sit_on_the_beat_grid() {
    // 2 s at 120 bpm is 4 beats: 8 half-beats.
    let chart = build("G", &timing(120.0, 2.0, &[]), Difficulty::Easy);
    let notes = absolute_notes(&chart);
    let ons: Vec<u32> = notes.iter().filter(|n| n.1).map(|n| n.0).collect();
    let offs: Vec<u32> = notes.iter().filter(|n| !n.1).map(|n| n.0).collect();
    assert_eq!(ons, vec![0, 960]);
    assert_eq!(offs, vec![480, 1440]);
    // Frets drawn from the generator seeded with the tempo's bits.
    assert_eq!(notes, vec![(0, true, 63), (480, false, 63), (960, true, 64), (1440, false, 64)]);
    for n in &notes {
        assert!((60..=64).contains(&n.2));
    }
    // Hard: a note every half beat, an eighth note long.
    let chart = build("G", &timing(120.0, 2.0, &[]), Difficulty::Hard);
    let hard: Vec<(u32, bool, u8)> = absolute_notes(&chart).into_iter().filter(|n| n.2 >= 84).collect();
    assert_eq!(hard.len(), 16);
    assert_eq!(hard[0].0, 0);
    assert_eq!(hard[1], (120, false, hard[0].2));
}

#[test]
fn notes_are_in_time_order_with_offs_first() {
    let onsets: Vec<f64> = (0..12).map(|i| 0.25 * i as f64).collect();
    let chart = build("T", &timing(100.0, 3.0, &onsets), Difficulty::Expert);
    let notes = absolute_notes(&chart);
    for w in notes.windows(2) {
        assert!(w[0].0 < w[1].0 || (w[0].0 == w[1].0 && (!w[0].1 || w[1].1)), "{w:?}");
    }
    assert_eq!(notes.iter().filter(|n| n.1).count(), notes.iter().filter(|n| !n.1).count());
    assert_eq!(chart.tracks[1].first().unwrap().kind, EventKind::TrackName(b"PART GUITAR".to_vec()));
    assert_eq!(chart.tracks[1].last().unwrap().kind, EventKind::EndOfTrack);
}

#[test]
fn onset_notes_do_not_overlap_within_a_lane() {
    let onsets: Vec<f64> = (0..10).map(|i| 0.3 * i as f64).collect();
    let chart = build("O", &timing(120.0, 3.0, &onsets), Difficulty::Expert);
    let notes = absolute_notes(&chart);
    // Expert lane: note i spans [on, off); the next begins no earlier.
    let lane: Vec<(u32, bool, u8)> = notes.into_iter().filter(|n| n.2 >= 96).collect();
    let mut starts: Vec<u32> = lane.iter().filter(|n| n.1).map(|n| n.0).collect();
    let mut ends: Vec<u32> = lane.iter().filter(|n| !n.1).map(|n| n.0).collect();
    starts.sort();
    ends.sort();
    for i in 0..starts.len() - 1 {
        assert!(ends[i] <= starts[i + 1]);
    }
    // 0.3 s at 120 bpm is 288 ticks: half of it is capped at 240.
    assert_eq!(ends[0] - starts[0], 144);
    // The last note is a quarter beat long.
    assert_eq!(ends[ends.len() - 1] - starts[starts.len() - 1], 120);
}

#[test]
fn same_timing_gives_the_same_chart() {
    let onsets: Vec<f64> = (0..9).map(|i| 0.4 * i as f64).collect();
    let a = build("S", &timing(128.0, 4.0, &onsets), Difficulty::Hard);
    let b = build("S", &timing(128.0, 4.0, &onsets), Difficulty::Hard);
    assert_eq!(a, b);
}

#[test]
fn keep_thins_lower_difficulties() {
    let kept = |d: Difficulty| (0..8).filter(|&i| keep_for_difficulty(i, d)).collect::<Vec<_>>();
    assert_eq!(kept(Difficulty::Expert), vec![0, 1, 2, 3, 4, 5, 6, 7]);
    assert_eq!(kept(Difficulty::Hard), vec![0, 1, 2, 4, 5, 6]);
    assert_eq!(kept(Difficulty::Medium), vec![0, 2, 4, 6]);
    assert_eq!(kept(Difficulty::Easy), vec![0, 4]);
}

#[test]
fn lcg_matches_its_formula() {
    let mut rng = Lcg::seed(4);
    // State 5, then 5 * A + C, then again.
    assert_eq!(rng.next(), 1_724_882_992);
    assert_eq!(rng.next(), 301_167_773);
}

#[test]
fn fits_reports_overflowing_timings() {
    let mut t = timing(120.0, 8.0, &(0..8).map(|i| i as f64).collect::<Vec<_>>());
    assert!(t.fits(Difficulty::Expert));
    t.onset_ticks[3] = u32::MAX - 100;
    assert!(!t.fits(Difficulty::Expert));
    let mut g = timing(120.0, 8.0, &[]);
    assert!(g.fits(Difficulty::Expert));
    g.grid_span = u32::MAX;
    assert!(!g.fits(Difficulty::Easy));
}

fn lane_ons(chart: &Chart, base: u8) -> usize {
    absolute_notes(chart).iter().filter(|n| n.1 && (base..=base + 4).contains(&n.2)).count()
}

#[test]
fn each_lane_has_its_notes() {
    // Onsets: Expert keeps all 12, Hard drops every fourth, Medium keeps
    // every other one, Easy every fourth.
    let onsets: Vec<f64> = (0..12).map(|i| 0.25 * i as f64).collect();
    let chart = build("L", &timing(120.0, 3.0, &onsets), Difficulty::Expert);
    assert_eq!(lane_ons(&chart, 96), 12);
    assert_eq!(lane_ons(&chart, 84), 9);
    assert_eq!(lane_ons(&chart, 72), 6);
    assert_eq!(lane_ons(&chart, 60), 3);
    // Grid over 4 beats (8 half-beats).
    let chart = build("L", &timing(120.0, 2.0, &[]), Difficulty::Expert);
    assert_eq!(lane_ons(&chart, 96), 8);
    assert_eq!(lane_ons(&chart, 84), 8);
    assert_eq!(lane_ons(&chart, 72), 4);
    assert_eq!(lane_ons(&chart, 60), 2);
    // Nothing above the chosen difficulty.
    let chart = build("L", &timing(120.0, 2.0, &[]), Difficulty::Medium);
    assert_eq!(lane_ons(&chart, 84) + lane_ons(&chart, 96), 0);
}

#[test]
fn notes_start_on_onsets_or_the_grid() {
    let onsets: Vec<f64> = (0..10).map(|i| 0.37 * i as f64 + 0.1).collect();
    let t = timing(97.0, 4.0, &onsets);
    let chart = build("N", &t, Difficulty::Expert);
    for n in absolute_notes(&chart).iter().filter(|n| n.1) {
        assert!(t.onset_ticks.contains(&n.0), "{n:?}");
    }
    let t = timing(97.0, 4.0, &[]);
    let chart = build("N", &t, Difficulty::Expert);
    for n in absolute_notes(&chart).iter().filter(|n| n.1) {
        assert!(n.0 % 240 == 0 && n.0 / 240 < t.grid_span, "{n:?}");
    }
}

#[test]
fn notes_balance_key_by_key() {
    let onsets: Vec<f64> = (0..14).map(|i| 0.2 * i as f64).collect();
    for chart in [
        build("K", &timing(133.0, 3.0, &onsets), Difficulty::Expert),
        build("K", &timing(90.0, 7.0, &[]), Difficulty::Expert),
    ] {
        let notes = absolute_notes(&chart);
        for key in 0..=127u8 {
            let ons = notes.iter().filter(|n| n.1 && n.2 == key).count();
            let offs = notes.iter().filter(|n| !n.1 && n.2 == key).count();
            assert_eq!(ons, offs, "key {key}");
        }
    }
}
