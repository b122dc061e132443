use chord_oracle::interval::Interval;
use chord_oracle::note::PitchClass;
#[test]
fn test_between_same_note() {
    let c = PitchClass::new(0);
    assert_eq!(Interval::between(c, c), Interval::P1());
}

#[test]
fn test_between_ascending() {
    let c = PitchClass::new(0);
    let e = PitchClass::new(4);
    let g = PitchClass::new(7);

    assert_eq!(Interval::between(c, e), Interval::MAJOR_3RD());
    assert_eq!(Interval::between(c, g), Interval::PERFECT_5TH());
}

#[test]
fn test_between_wraps_around() {
    // From G (7) to C (0) should be P4 (5 semitones up)
    let g = PitchClass::new(7);
    let c = PitchClass::new(0);
    assert_eq!(Interval::between(g, c), Interval::PERFECT_4TH());

    // From A (9) to C (0) should be m3 (3 semitones up)
    let a = PitchClass::new(9);
    assert_eq!(Interval::between(a, c), Interval::MINOR_3RD());
}

#[test]
fn test_between_various_roots() {
    // E major triad: E(4) - G#(8) - B(11)
    let e = PitchClass::new(4);
    let gs = PitchClass::new(8);
    let b = PitchClass::new(11);

    assert_eq!(Interval::between(e, gs), Interval::MAJOR_3RD());
    assert_eq!(Interval::between(e, b), Interval::PERFECT_5TH());

    // Bb major triad: Bb(10) - D(2) - F(5)
    let bb = PitchClass::new(10);
    let d = PitchClass::new(2);
    let f = PitchClass::new(5);

    assert_eq!(Interval::between(bb, d), Interval::MAJOR_3RD());
    assert_eq!(Interval::between(bb, f), Interval::PERFECT_5TH());
}

#[test]
fn test_between_tritone() {
    let c = PitchClass::new(0);
    let fs = PitchClass::new(6);
    assert_eq!(Interval::between(c, fs), Interval::TRITONE());
}

#[test]
fn test_short_names_simple() {
    assert_eq!(Interval::P1().short_name(), "R");
    assert_eq!(Interval::MINOR_2ND().short_name(), "m2");
    assert_eq!(Interval::MAJOR_2ND().short_name(), "M2");
    assert_eq!(Interval::MINOR_3RD().short_name(), "m3");
    assert_eq!(Interval::MAJOR_3RD().short_name(), "M3");
    assert_eq!(Interval::PERFECT_4TH().short_name(), "P4");
    assert_eq!(Interval::TRITONE().short_name(), "b5");
    assert_eq!(Interval::PERFECT_5TH().short_name(), "P5");
    assert_eq!(Interval::MINOR_6TH().short_name(), "#5");
    assert_eq!(Interval::MAJOR_6TH().short_name(), "M6");
    assert_eq!(Interval::MINOR_7TH().short_name(), "m7");
    assert_eq!(Interval::MAJOR_7TH().short_name(), "M7");
}

#[test]
fn test_short_names_compound() {
    assert_eq!(Interval::OCTAVE().short_name(), "8");
    assert_eq!(Interval::MINOR_9TH().short_name(), "b9");
    assert_eq!(Interval::MAJOR_9TH().short_name(), "9");
    assert_eq!(Interval::MINOR_10TH().short_name(), "#9");
    assert_eq!(Interval::PERFECT_11TH().short_name(), "11");
    assert_eq!(Interval::AUG_11TH().short_name(), "#11");
    assert_eq!(Interval::MINOR_13TH().short_name(), "b13");
    assert_eq!(Interval::MAJOR_13TH().short_name(), "13");
}

#[test]
fn test_long_names() {
    assert_eq!(Interval::P1().long_name(), "root");
    assert_eq!(Interval::MINOR_3RD().long_name(), "minor 3rd");
    assert_eq!(Interval::MAJOR_3RD().long_name(), "major 3rd");
    assert_eq!(Interval::PERFECT_5TH().long_name(), "perfect 5th");
    assert_eq!(Interval::MINOR_7TH().long_name(), "minor 7th");
    assert_eq!(Interval::MAJOR_7TH().long_name(), "major 7th");
    assert_eq!(Interval::MAJOR_9TH().long_name(), "major 9th");
    assert_eq!(Interval::PERFECT_11TH().long_name(), "perfect 11th");
    assert_eq!(Interval::MAJOR_13TH().long_name(), "major 13th");
}

#[test]
fn test_simple_reduction() {
    assert_eq!(Interval::MAJOR_9TH().simple(), Interval::MAJOR_2ND());
    assert_eq!(Interval::PERFECT_11TH().simple(), Interval::PERFECT_4TH());
    assert_eq!(Interval::MAJOR_13TH().simple(), Interval::MAJOR_6TH());
    assert_eq!(Interval::OCTAVE().simple(), Interval::P1());
}

#[test]
fn test_is_compound() {
    assert!(!Interval::P1().is_compound());
    assert!(!Interval::MAJOR_7TH().is_compound());
    assert!(Interval::OCTAVE().is_compound());
    assert!(Interval::MAJOR_9TH().is_compound());
}

#[test]
fn interval_test_display() {
    assert_eq!(Interval::PERFECT_5TH().to_display_string(), "P5");
    assert_eq!(Interval::MAJOR_9TH().to_display_string(), "9");
}
