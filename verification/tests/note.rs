use chord_oracle::note::{pitch_class_from_name, PitchClass};
#[test]
fn test_new_wraps_mod_12() {
    assert_eq!(PitchClass::new(0).semitones(), 0);
    assert_eq!(PitchClass::new(12).semitones(), 0);
    assert_eq!(PitchClass::new(13).semitones(), 1);
    assert_eq!(PitchClass::new(24).semitones(), 0);
}

#[test]
fn test_from_midi() {
    assert_eq!(PitchClass::from_midi(60).semitones(), 0); // Middle C
    assert_eq!(PitchClass::from_midi(69).semitones(), 9); // A4
    assert_eq!(PitchClass::from_midi(40).semitones(), 4); // E2
}

#[test]
fn test_names() {
    assert_eq!(PitchClass::new(0).name(), "C");
    assert_eq!(PitchClass::new(1).name(), "C#");
    assert_eq!(PitchClass::new(1).alt_name(), "Db");
    assert_eq!(PitchClass::new(3).name(), "Eb");
    assert_eq!(PitchClass::new(3).alt_name(), "D#");
    assert_eq!(PitchClass::new(6).name(), "F#");
    assert_eq!(PitchClass::new(6).alt_name(), "Gb");
    assert_eq!(PitchClass::new(8).name(), "Ab");
    assert_eq!(PitchClass::new(8).alt_name(), "G#");
    assert_eq!(PitchClass::new(10).name(), "Bb");
    assert_eq!(PitchClass::new(10).alt_name(), "A#");
}

#[test]
fn test_name_preferring_sharp() {
    assert_eq!(PitchClass::new(1).name_preferring_sharp(), "C#");
    assert_eq!(PitchClass::new(3).name_preferring_sharp(), "D#");
    assert_eq!(PitchClass::new(8).name_preferring_sharp(), "G#");
    assert_eq!(PitchClass::new(0).name_preferring_sharp(), "C"); // no accidental
}

#[test]
fn test_name_preferring_flat() {
    assert_eq!(PitchClass::new(1).name_preferring_flat(), "Db");
    assert_eq!(PitchClass::new(3).name_preferring_flat(), "Eb");
    assert_eq!(PitchClass::new(8).name_preferring_flat(), "Ab");
    assert_eq!(PitchClass::new(0).name_preferring_flat(), "C"); // no accidental
}

#[test]
fn note_test_display() {
    assert_eq!(PitchClass::new(0).to_display_string(), "C");
    assert_eq!(PitchClass::new(1).to_display_string(), "C#");
    assert_eq!(PitchClass::new(3).to_display_string(), "Eb");
}

#[test]
fn test_pitch_class_from_name() {
    // Basic naturals
    assert_eq!(pitch_class_from_name("C"), Some(PitchClass::new(0)));
    assert_eq!(pitch_class_from_name("D"), Some(PitchClass::new(2)));
    assert_eq!(pitch_class_from_name("E"), Some(PitchClass::new(4)));
    assert_eq!(pitch_class_from_name("F"), Some(PitchClass::new(5)));
    assert_eq!(pitch_class_from_name("G"), Some(PitchClass::new(7)));
    assert_eq!(pitch_class_from_name("A"), Some(PitchClass::new(9)));
    assert_eq!(pitch_class_from_name("B"), Some(PitchClass::new(11)));

    // Sharps
    assert_eq!(pitch_class_from_name("C#"), Some(PitchClass::new(1)));
    assert_eq!(pitch_class_from_name("F#"), Some(PitchClass::new(6)));

    // Flats
    assert_eq!(pitch_class_from_name("Db"), Some(PitchClass::new(1)));
    assert_eq!(pitch_class_from_name("Eb"), Some(PitchClass::new(3)));
    assert_eq!(pitch_class_from_name("Bb"), Some(PitchClass::new(10)));
    assert_eq!(pitch_class_from_name("Ab"), Some(PitchClass::new(8)));

    // Case-insensitive
    assert_eq!(pitch_class_from_name("c"), Some(PitchClass::new(0)));
    assert_eq!(pitch_class_from_name("c#"), Some(PitchClass::new(1)));
    assert_eq!(pitch_class_from_name("eb"), Some(PitchClass::new(3)));
    assert_eq!(pitch_class_from_name("gb"), Some(PitchClass::new(6)));

    // Invalid
    assert_eq!(pitch_class_from_name("H"), None);
    assert_eq!(pitch_class_from_name(""), None);
    assert_eq!(pitch_class_from_name("X#"), None);
}

#[test]
fn test_equality_and_ord() {
    assert_eq!(PitchClass::new(0), PitchClass::new(12));
    assert!(PitchClass::new(0) < PitchClass::new(1));
}
