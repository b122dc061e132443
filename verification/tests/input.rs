use chord_oracle::fretboard::{chord_positions, chord_tones, fret_range_fits, midi_fits};
use chord_oracle::input::{
    frets_from_slice, parse_fret_input, transpose_frets_outcome, transpose_strings_outcome,
    tuning_from_slice, FretInputError,
};
use chord_oracle::note::PitchClass;

const STD: [u8; 6] = [40, 45, 50, 55, 59, 64];

#[test]
fn parse_accepts_a_d_major() {
    assert_eq!(parse_fret_input("X,X,0,2,3,2"), Ok(vec![-1, -1, 0, 2, 3, 2]));
}

#[test]
fn parse_trims_values_and_reads_signs() {
    assert_eq!(parse_fret_input(" x , X ,+3, 0 ,24,1"), Ok(vec![-1, -1, 3, 0, 24, 1]));
    assert_eq!(parse_fret_input("\tx,x,x,x,x,0\n"), Ok(vec![-1, -1, -1, -1, -1, 0]));
}

#[test]
fn parse_wrong_count() {
    let e = parse_fret_input("1,2,3").unwrap_err();
    assert_eq!(e, FretInputError::WrongCount(3));
    assert_eq!(e.message(), "Expected 6 comma-separated values, got 3");
    assert_eq!(parse_fret_input(""), Err(FretInputError::WrongCount(1)));
    assert_eq!(parse_fret_input("0,0,0,0,0,0,0"), Err(FretInputError::WrongCount(7)));
}

#[test]
fn parse_out_of_range() {
    let e = parse_fret_input("0,0,0,0,0,25").unwrap_err();
    assert_eq!(e, FretInputError::OutOfRange(25));
    assert_eq!(e.message(), "Fret value 25 out of range (0-24)");
    let e = parse_fret_input("-5,0,0,0,0,0").unwrap_err();
    assert_eq!(e, FretInputError::OutOfRange(-5));
    assert_eq!(e.message(), "Fret value -5 out of range (0-24)");
}

#[test]
fn parse_invalid_token() {
    let e = parse_fret_input("a,0,0,0,0,0").unwrap_err();
    assert_eq!(e, FretInputError::InvalidToken("a".to_string()));
    assert_eq!(e.message(), "Invalid token 'a': expected 'x' or a number 0-24");
    let e = parse_fret_input("0,0,0,0,0,").unwrap_err();
    assert_eq!(e.message(), "Invalid token '': expected 'x' or a number 0-24");
    let e = parse_fret_input("0, 1 2 ,0,0,0,0").unwrap_err();
    assert_eq!(e, FretInputError::InvalidToken("1 2".to_string()));
    let e = parse_fret_input("0,99999999999,0,0,0,0").unwrap_err();
    assert_eq!(e, FretInputError::InvalidToken("99999999999".to_string()));
}

#[test]
fn parse_first_rejected_value_decides() {
    assert_eq!(
        parse_fret_input("q,99,0,0,0,0"),
        Err(FretInputError::InvalidToken("q".to_string()))
    );
    assert_eq!(parse_fret_input("0,99,q,0,0,0"), Err(FretInputError::OutOfRange(99)));
}

#[test]
fn slices_of_six_only() {
    assert_eq!(frets_from_slice(&[0, 1, 2, 3, 4, 5]), Some([0, 1, 2, 3, 4, 5]));
    assert_eq!(frets_from_slice(&[0, 1, 2]), None);
    assert_eq!(tuning_from_slice(&STD), Some(STD));
    assert_eq!(tuning_from_slice(&[40, 45, 50, 55, 59, 64, 69]), None);
}

#[test]
fn transpose_outcomes_keep_fingering_on_failure() {
    let o = transpose_frets_outcome(&[-1, 3, 2, 0, 1, 0], 1);
    assert!(o.success);
    assert_eq!(o.frets, [-1, 4, 3, 1, 2, 1]);
    let o = transpose_frets_outcome(&[-1, 3, 2, 0, 1, 0], -1);
    assert!(!o.success);
    assert_eq!(o.frets, [-1, 3, 2, 0, 1, 0]);
    let o = transpose_strings_outcome(&[-1, 3, 2, 0, 1, 0], &STD, -1);
    assert!(o.success);
    assert_eq!(o.frets, [8, 7, 5, 5, 5, -1]);
    let o = transpose_strings_outcome(&[-1, 3, 2, 0, 1, 0], &STD, 1);
    assert!(!o.success);
    assert_eq!(o.frets, [-1, 3, 2, 0, 1, 0]);
}

#[test]
fn midi_and_fret_range_checks() {
    assert!(midi_fits(&[0, 24, 3, -1, 0, 0], &STD));
    assert!(!midi_fits(&[0, 0, 0, 0, 0, 127], &[40, 45, 50, 55, 59, 200]));
    assert!(midi_fits(&[0, 0, 0, 0, 0, -1], &[40, 45, 50, 55, 59, 200]));
    assert!(fret_range_fits(&STD, 0, 24));
    assert!(!fret_range_fits(&[40, 45, 50, 55, 59, 250], 0, 24));
    assert!(fret_range_fits(&[40, 45, 50, 55, 59, 250], 5, 4));
}

#[test]
fn chord_tones_dedupe_and_default_to_root() {
    let c = PitchClass::new(0);
    let tones: Vec<u8> = chord_tones(c, &[0, 4, 7, 12, 16]).iter().map(|p| p.semitones()).collect();
    assert_eq!(tones, vec![0, 4, 7]);
    let tones: Vec<u8> = chord_tones(PitchClass::new(9), &[]).iter().map(|p| p.semitones()).collect();
    assert_eq!(tones, vec![9]);
    let tones: Vec<u8> =
        chord_tones(PitchClass::new(7), &[0, 4, 7, 10, 14]).iter().map(|p| p.semitones()).collect();
    assert_eq!(tones, vec![7, 11, 2, 5, 9]);
}

#[test]
fn chord_positions_label_tones_with_intervals() {
    // C major, open position on the low E string only shows E (fret 0) and G (fret 3).
    let positions = chord_positions(12, &[0, 4, 7], &STD, 0, 3);
    let on_low_e: Vec<(u8, u8, u8)> = positions
        .iter()
        .filter(|p| p.string_index == 0)
        .map(|p| (p.fret, p.note.semitones(), p.interval.semitones))
        .collect();
    assert_eq!(on_low_e, vec![(0, 4, 4), (3, 7, 7)]);
    let on_a: Vec<(u8, u8, u8)> = positions
        .iter()
        .filter(|p| p.string_index == 1)
        .map(|p| (p.fret, p.note.semitones(), p.interval.semitones))
        .collect();
    assert_eq!(on_a, vec![(3, 0, 0)]);
    for w in positions.windows(2) {
        assert!((w[0].string_index, w[0].fret) < (w[1].string_index, w[1].fret));
    }
    assert!(chord_positions(0, &[0, 4, 7], &STD, 5, 4).is_empty());
}
