use chord_oracle::chord::{identify, ChordMatch, ChordResult};
use chord_oracle::fretboard::{
    chord_tone_positions, played_notes, transpose_fretboard, transpose_strings,
};
use chord_oracle::input::parse_fret_input;
use chord_oracle::interval::Interval;
use chord_oracle::note::{pitch_class_from_name, PitchClass};
use chord_oracle::tuning;

const STD: [u8; 6] = [40, 45, 50, 55, 59, 64];

fn midis(frets: &[i8; 6], tuning: &[u8; 6]) -> Vec<u8> {
    played_notes(frets, tuning).iter().map(|n| n.1).collect()
}

fn moved(p: u8, d: i32) -> u8 {
    (p as i32 + d).rem_euclid(12) as u8
}

fn assert_moved_match(a: &ChordMatch, b: &ChordMatch, d: i32) {
    assert_eq!(b.root.semitones(), moved(a.root.semitones(), d));
    assert_eq!(b.quality.symbol, a.quality.symbol);
    assert_eq!(b.bass.semitones(), moved(a.bass.semitones(), d));
    assert_eq!(b.is_inversion, a.is_inversion);
    assert_eq!(b.score, a.score);
}

fn assert_moved_result(a: &ChordResult, b: &ChordResult, d: i32) {
    assert_moved_match(&a.primary, &b.primary, d);
    assert_eq!(a.alternatives.len(), b.alternatives.len());
    for (x, y) in a.alternatives.iter().zip(b.alternatives.iter()) {
        assert_moved_match(x, y, d);
    }
    let na: Vec<u8> = a.notes_played.iter().map(|p| moved(p.semitones(), d)).collect();
    let nb: Vec<u8> = b.notes_played.iter().map(|p| p.semitones()).collect();
    assert_eq!(na, nb);
    for (x, y) in a.intervals_from_root.iter().zip(b.intervals_from_root.iter()) {
        assert_eq!(moved(x.0.semitones(), d), y.0.semitones());
        assert_eq!(x.1, y.1);
    }
    for (x, y) in a.intervals_from_bass.iter().zip(b.intervals_from_bass.iter()) {
        assert_eq!(moved(x.0.semitones(), d), y.0.semitones());
        assert_eq!(x.1, y.1);
    }
}

#[test]
fn law_fret_shifts_compose_example() {
    let f = [-1, 3, 2, 0, 1, 0];
    let two_then_three = transpose_fretboard(&transpose_fretboard(&f, 2).unwrap(), 3).unwrap();
    assert_eq!(two_then_three, transpose_fretboard(&f, 5).unwrap());
    assert_eq!(two_then_three, [-1, 8, 7, 5, 6, 5]);
}

#[test]
fn law_fret_shift_undo_example() {
    let f = [-1, 3, 2, 0, 1, 0];
    let up = transpose_fretboard(&f, 7).unwrap();
    assert_eq!(transpose_fretboard(&up, -7), Some(f));
}

#[test]
fn law_string_shift_keeps_pitches_example() {
    let f = [-1, 3, 2, 0, 1, 0];
    let g = transpose_strings(&f, &STD, -1).unwrap();
    assert_eq!(g, [8, 7, 5, 5, 5, -1]);
    assert_eq!(midis(&g, &STD), midis(&f, &STD));
}

#[test]
fn law_string_shift_undo_example() {
    let f = [-3, 3, 2, 0, 1, 0];
    let g = transpose_strings(&f, &STD, -1).unwrap();
    assert_eq!(transpose_strings(&g, &STD, 1), Some([-1, 3, 2, 0, 1, 0]));
}

#[test]
fn law_string_shift_keeps_chord_example() {
    let f = [-1, 3, 2, 0, 1, 0];
    let g = transpose_strings(&f, &STD, -1).unwrap();
    let a = identify(&f, &STD).unwrap();
    let b = identify(&g, &STD).unwrap();
    assert_eq!(a.name(), "C");
    assert_moved_result(&a, &b, 0);
}

#[test]
fn law_same_notes_same_chord_example() {
    // The same open E major chord spelled with different muting marks, and
    // the same notes in two tunings.
    let a = identify(&[0, 2, 2, 1, 0, 0], &STD).unwrap();
    let b = identify(&[0, 2, 2, 1, 0, 0], &STD).unwrap();
    assert_moved_result(&a, &b, 0);
    let c = identify(&[-1, 0, 2, 2, 1, 0], &STD).unwrap();
    let d = identify(&[-5, 0, 2, 2, 1, 0], &STD).unwrap();
    assert_moved_result(&c, &d, 0);
    let e = identify(&[2, 0, 0, 0, 3, -1], &tuning::drop_d().strings).unwrap();
    let f = identify(&[0, 0, 0, 0, 3, -1], &STD).unwrap();
    assert_eq!(midis(&[2, 0, 0, 0, 3, -1], &tuning::drop_d().strings), midis(&[0, 0, 0, 0, 3, -1], &STD));
    assert_moved_result(&e, &f, 0);
    assert!(identify(&[-1, -1, -1, 5, -1, -1], &STD).is_none());
}

#[test]
fn law_fret_shift_moves_chord_example() {
    let f = [-1, 3, 2, 0, 1, 0];
    let g = transpose_fretboard(&f, 2).unwrap();
    let a = identify(&f, &STD).unwrap();
    let b = identify(&g, &STD).unwrap();
    assert_eq!(a.name(), "C");
    assert_eq!(b.name(), "D");
    assert_moved_result(&a, &b, 2);
    let slash = [0, 3, 2, 0, 1, 0];
    let a = identify(&slash, &STD).unwrap();
    let b = identify(&transpose_fretboard(&slash, 5).unwrap(), &STD).unwrap();
    assert_moved_result(&a, &b, 5);
}

#[test]
fn law_moved_notes_moved_chord_example() {
    // One fingering, standard tuning and a half step down: every chord a
    // semitone lower.
    let hsd = tuning::half_step_down().strings;
    for f in [[0, 2, 2, 1, 0, 0], [-1, 0, 2, 2, 1, 0], [3, 2, 0, 0, 0, 3], [-1, 3, 2, 0, 1, 0]] {
        let a = identify(&f, &STD).unwrap();
        let b = identify(&f, &hsd).unwrap();
        assert_moved_result(&a, &b, -1);
    }
    assert_eq!(identify(&[0, 2, 2, 1, 0, 0], &hsd).unwrap().name(), "Eb");
}

#[test]
fn law_alternatives_rank_after_example() {
    for f in [[-1, 0, 2, 0, 1, 0], [-1, 3, 2, 2, 1, 0], [0, 2, 0, 1, 0, 0], [-1, 3, 2, 0, 1, 0]] {
        let r = identify(&f, &STD).unwrap();
        assert!(r.alternatives.len() <= 2);
        let mut prev = r.primary.score;
        for alt in &r.alternatives {
            assert_ne!(alt.root, r.primary.root);
            assert!(prev <= alt.score);
            prev = alt.score;
        }
        if r.alternatives.len() == 2 {
            assert_ne!(r.alternatives[0].root, r.alternatives[1].root);
        }
    }
}

#[test]
fn law_identification_is_unique_example() {
    let a = identify(&[-1, 0, 2, 0, 1, 0], &STD).unwrap();
    let b = identify(&[-1, 0, 2, 0, 1, 0], &STD).unwrap();
    assert_moved_result(&a, &b, 0);
}

#[test]
fn law_names_read_back_example() {
    for v in 0..12u8 {
        let pc = PitchClass::new(v);
        for name in [pc.name(), pc.alt_name(), pc.name_preferring_sharp(), pc.name_preferring_flat()] {
            assert_eq!(pitch_class_from_name(name), Some(pc));
        }
    }
}

#[test]
fn law_interval_reaches_example() {
    for r in 0..12u8 {
        for o in 0..12u8 {
            let iv = Interval::between(PitchClass::new(r), PitchClass::new(o));
            assert_eq!((r + iv.semitones) % 12, o);
            let back = Interval::between(PitchClass::new(o), PitchClass::new(r));
            if r == o {
                assert_eq!(iv.semitones, 0);
            } else {
                assert_eq!(iv.semitones + back.semitones, 12);
            }
        }
    }
}

#[test]
fn law_interval_of_notes_example() {
    let iv = Interval::between(PitchClass::from_midi(64), PitchClass::from_midi(43));
    assert_eq!(iv.semitones, (43i32 - 64).rem_euclid(12) as u8);
    assert_eq!(iv.semitones, 3);
}

#[test]
fn law_preset_names_distinct_example() {
    for p in tuning::presets() {
        let shouted = p.name.to_uppercase();
        assert_eq!(tuning::preset_by_name(&shouted), Some(p.clone()));
        assert_eq!(tuning::custom(&p.name, p.strings), Ok(p.clone()));
    }
}

#[test]
fn law_typed_fingering_moves_back_example() {
    let f = parse_fret_input("x, 3, 2, 0, 1, 0").unwrap();
    let f: [i8; 6] = [f[0], f[1], f[2], f[3], f[4], f[5]];
    let up = transpose_fretboard(&f, 4).unwrap();
    assert_eq!(transpose_fretboard(&up, -4), Some(f));
    let across = transpose_strings(&f, &STD, -1).unwrap();
    assert_eq!(transpose_strings(&across, &STD, 1), Some(f));
}

#[test]
fn law_positions_are_the_chord_tones_example() {
    let pcs = [PitchClass::new(0), PitchClass::new(4), PitchClass::new(7)];
    let positions = chord_tone_positions(&pcs, &STD, 2, 14);
    for s in 0..6usize {
        for f in 0..=20u8 {
            let tone = pcs.contains(&PitchClass::from_midi(STD[s] + f));
            let listed = positions.contains(&(s, f));
            assert_eq!(listed, (2..=14).contains(&f) && tone);
        }
    }
}

#[test]
fn law_named_chords_explain_the_notes_example() {
    for f in [[-1, 0, 2, 0, 1, 0], [3, 2, 0, 0, 0, 3], [0, 3, 2, 0, 1, 0], [-1, 0, 2, 2, 1, 0]] {
        let r = identify(&f, &STD).unwrap();
        let mut all = vec![r.primary];
        all.extend(r.alternatives.iter().copied());
        for m in all {
            assert!(r.notes_played.contains(&m.root));
            for n in &r.notes_played {
                let k = Interval::between(m.root, *n).semitones;
                assert!(m.quality.intervals.iter().any(|iv| iv % 12 == k));
            }
        }
    }
}

#[test]
fn law_name_case_insensitive_example() {
    assert_eq!(pitch_class_from_name("EB"), Some(PitchClass::new(3)));
    assert_eq!(pitch_class_from_name("eb"), Some(PitchClass::new(3)));
    assert_eq!(pitch_class_from_name("BB"), Some(PitchClass::new(10)));
    assert_eq!(pitch_class_from_name("bB"), Some(PitchClass::new(10)));
    assert_eq!(pitch_class_from_name(" DBB "), Some(PitchClass::new(0)));
    assert_eq!(pitch_class_from_name("Cb\u{266D}"), None);
    assert_eq!(pitch_class_from_name("C#b"), None);
    for s in ["c#", "Db", "gB", "a##", "Ebb", "f", "x", "H", "B\u{266D}", ""] {
        assert_eq!(
            pitch_class_from_name(&s.to_ascii_uppercase()),
            pitch_class_from_name(&s.to_ascii_lowercase())
        );
    }
}
