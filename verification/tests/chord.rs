use chord_oracle::chord::identify;
use chord_oracle::tuning;
fn std_tuning() -> [u8; 6] {
    tuning::standard().strings
}

#[test]
fn test_c_major() {
    // x 3 2 0 1 0  (standard tuning)
    let frets: [i8; 6] = [-1, 3, 2, 0, 1, 0];
    let result = identify(&frets, &std_tuning()).expect("should identify C major");
    assert_eq!(result.name(), "C");
    assert_eq!(result.primary.root.semitones(), 0); // C
    assert_eq!(result.primary.quality.name, "major");
    assert!(!result.primary.is_inversion);
}

#[test]
fn test_d_major() {
    // x x 0 2 3 2
    let frets: [i8; 6] = [-1, -1, 0, 2, 3, 2];
    let result = identify(&frets, &std_tuning()).expect("should identify D major");
    assert_eq!(result.name(), "D");
    assert_eq!(result.primary.root.semitones(), 2); // D
    assert_eq!(result.primary.quality.name, "major");
}

#[test]
fn test_a_minor() {
    // x 0 2 2 1 0
    let frets: [i8; 6] = [-1, 0, 2, 2, 1, 0];
    let result = identify(&frets, &std_tuning()).expect("should identify Am");
    assert_eq!(result.name(), "Am");
    assert_eq!(result.primary.root.semitones(), 9); // A
    assert_eq!(result.primary.quality.name, "minor");
}

#[test]
fn test_g_major() {
    // 3 2 0 0 0 3
    let frets: [i8; 6] = [3, 2, 0, 0, 0, 3];
    let result = identify(&frets, &std_tuning()).expect("should identify G major");
    assert_eq!(result.name(), "G");
    assert_eq!(result.primary.root.semitones(), 7); // G
    assert_eq!(result.primary.quality.name, "major");
}

#[test]
fn test_e_minor() {
    // 0 2 2 0 0 0
    let frets: [i8; 6] = [0, 2, 2, 0, 0, 0];
    let result = identify(&frets, &std_tuning()).expect("should identify Em");
    assert_eq!(result.name(), "Em");
    assert_eq!(result.primary.root.semitones(), 4); // E
    assert_eq!(result.primary.quality.name, "minor");
}

#[test]
fn test_a7() {
    // x 0 2 0 2 0
    let frets: [i8; 6] = [-1, 0, 2, 0, 2, 0];
    let result = identify(&frets, &std_tuning()).expect("should identify A7");
    assert_eq!(result.name(), "A7");
    assert_eq!(result.primary.root.semitones(), 9); // A
    assert_eq!(result.primary.quality.name, "dominant 7th");
}

#[test]
fn test_power_chord_e5() {
    // 0 2 2 x x x
    let frets: [i8; 6] = [0, 2, 2, -1, -1, -1];
    let result = identify(&frets, &std_tuning()).expect("should identify E5");
    assert_eq!(result.name(), "E5");
    assert_eq!(result.primary.quality.name, "power chord");
}

#[test]
fn test_slash_chord_c_over_e() {
    // 0 3 2 0 1 0  (C/E — low E bass, C major)
    let frets: [i8; 6] = [0, 3, 2, 0, 1, 0];
    let result = identify(&frets, &std_tuning()).expect("should identify C/E");
    assert_eq!(result.name(), "C/E");
    assert_eq!(result.primary.root.semitones(), 0); // C
    assert_eq!(result.primary.bass.semitones(), 4); // E
    assert!(result.primary.is_inversion);
}

#[test]
fn test_no_chord_single_note() {
    // Only one string played
    let frets: [i8; 6] = [0, -1, -1, -1, -1, -1];
    let result = identify(&frets, &std_tuning());
    assert!(result.is_none());
}

#[test]
fn test_no_chord_all_muted() {
    let frets: [i8; 6] = [-1, -1, -1, -1, -1, -1];
    let result = identify(&frets, &std_tuning());
    assert!(result.is_none());
}

#[test]
fn test_c6_vs_am7_bass_determines() {
    // C6 and Am7 share pitch classes {C, E, G, A}.
    // With C in the bass: C6
    // C in bass: x 3 2 2 1 0  (A=45+3=48=C, D=50+2=52=E, G=55+2=57=A, B=59+1=60=C, E=64+0=64=E)
    // Wait, let's be more precise.
    // Standard tuning: [E2=40, A2=45, D3=50, G3=55, B3=59, E4=64]
    // For C in bass, need lowest note to be C.
    // A string (45) + 3 = 48 = C3. Mute low E.
    // x 3 2 2 1 0 gives notes: C3, E3, A3, C4, E4
    // That's {C, E, A} — missing G for C6. Let's use a voicing with G too.
    // x 3 2 2 1 3 gives: C3(48), E3(52), A3(57-nope wait 55+2=57=A), C4(60), G4(67)
    // 55+2 = 57 which is A3. So {C, E, A, C, G} = {C, E, G, A}. Yes!
    // But fret 3 on high E = 64+3=67 = G4. Good.
    let frets_c_bass: [i8; 6] = [-1, 3, 2, 2, 1, 3];
    let result = identify(&frets_c_bass, &std_tuning()).expect("should identify");
    // Should prefer C6 since C is in bass
    assert_eq!(result.primary.root.name(), "C");
    assert!(result.primary.quality.symbol == "6" || result.primary.quality.symbol == "");

    // With A in bass: x 0 2 2 1 0 (A2=45, E3=52, A3=57-no, 55+2=57=A3, C4=60, E4=64)
    // 50+2=52=E, 55+2=57=A, 59+1=60=C, 64+0=64=E => {A, E, A, C, E} = {A, C, E}
    // Missing G — need to add it.
    // x 0 2 0 1 0 => A2(45), E3(52), G3(55), C4(60), E4(64) = {A, E, G, C, E} = {A, C, E, G}
    let frets_a_bass: [i8; 6] = [-1, 0, 2, 0, 1, 0];
    let result = identify(&frets_a_bass, &std_tuning()).expect("should identify");
    // Should prefer Am7 since A is in bass
    assert_eq!(result.primary.root.name(), "A");
    assert!(result.primary.quality.symbol == "m7" || result.primary.quality.symbol == "m");
}

#[test]
fn test_e_major() {
    // 0 2 2 1 0 0
    let frets: [i8; 6] = [0, 2, 2, 1, 0, 0];
    let result = identify(&frets, &std_tuning()).expect("should identify E major");
    assert_eq!(result.name(), "E");
    assert_eq!(result.primary.root.semitones(), 4); // E
    assert_eq!(result.primary.quality.name, "major");
}

#[test]
fn test_f_major_barre() {
    // 1 3 3 2 1 1 (F barre chord, low E to high E)
    let frets: [i8; 6] = [1, 3, 3, 2, 1, 1];
    let result = identify(&frets, &std_tuning()).expect("should identify F major");
    assert_eq!(result.name(), "F");
    assert_eq!(result.primary.root.semitones(), 5); // F
    assert_eq!(result.primary.quality.name, "major");
}

#[test]
fn test_notes_played_order() {
    // C major: x 3 2 0 1 0 -> notes C3, E3, G3, C4, E4
    let frets: [i8; 6] = [-1, 3, 2, 0, 1, 0];
    let result = identify(&frets, &std_tuning()).unwrap();
    // Unique PCs ordered by first MIDI appearance: C, E, G
    let pc_values: Vec<u8> = result.notes_played.iter().map(|pc| pc.semitones()).collect();
    assert!(pc_values.contains(&0)); // C
    assert!(pc_values.contains(&4)); // E
    assert!(pc_values.contains(&7)); // G
}

#[test]
fn test_intervals_from_root() {
    // E minor: 0 2 2 0 0 0 -> root = E(4)
    let frets: [i8; 6] = [0, 2, 2, 0, 0, 0];
    let result = identify(&frets, &std_tuning()).unwrap();
    // Intervals from E: E=P1, G=m3, B=P5
    let interval_semitones: Vec<u8> = result
        .intervals_from_root
        .iter()
        .map(|(_, iv)| iv.semitones)
        .collect();
    assert!(interval_semitones.contains(&0)); // P1
    assert!(interval_semitones.contains(&3)); // m3
    assert!(interval_semitones.contains(&7)); // P5
}

#[test]
fn test_chord_result_has_alternatives() {
    // Most chords should produce at least one alternative interpretation
    let frets: [i8; 6] = [-1, 3, 2, 0, 1, 0]; // C major
    let result = identify(&frets, &std_tuning()).unwrap();
    // Just verify alternatives is a Vec (may be empty for very clear chords)
    assert!(result.alternatives.len() <= 2);
}

#[test]
fn test_dm() {
    // Dm: x x 0 2 3 1
    let frets: [i8; 6] = [-1, -1, 0, 2, 3, 1];
    let result = identify(&frets, &std_tuning()).expect("should identify Dm");
    assert_eq!(result.name(), "Dm");
    assert_eq!(result.primary.root.semitones(), 2); // D
    assert_eq!(result.primary.quality.name, "minor");
}
