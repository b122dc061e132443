use chord_oracle::tuning::{custom, drop_d, open_g, preset_by_name, presets, standard};
#[test]
fn standard_tuning_values() {
    let t = standard();
    assert_eq!(t.name, "Standard");
    assert_eq!(t.strings, [40, 45, 50, 55, 59, 64]);
}

#[test]
fn all_presets_have_correct_midi_values() {
    let presets = presets();
    assert_eq!(presets.len(), 6);

    assert_eq!(presets[0].strings, [40, 45, 50, 55, 59, 64]); // Standard
    assert_eq!(presets[1].strings, [38, 45, 50, 55, 59, 64]); // Drop D
    assert_eq!(presets[2].strings, [39, 44, 49, 54, 58, 63]); // Half-step Down
    assert_eq!(presets[3].strings, [38, 43, 50, 55, 59, 62]); // Open G
    assert_eq!(presets[4].strings, [38, 45, 50, 54, 57, 62]); // Open D
    assert_eq!(presets[5].strings, [40, 47, 52, 56, 59, 64]); // Open E

    let names: Vec<&str> = presets.iter().map(|t| t.name.as_str()).collect();
    assert_eq!(
        names,
        vec![
            "Standard",
            "Drop D",
            "Half-step Down",
            "Open G",
            "Open D",
            "Open E",
        ]
    );
}

#[test]
fn custom_tuning_valid() {
    let t = custom("My Tuning", [40, 45, 50, 55, 59, 64]).unwrap();
    assert_eq!(t.name, "My Tuning");
    assert_eq!(t.strings, [40, 45, 50, 55, 59, 64]);
}

#[test]
fn custom_tuning_boundary_values_valid() {
    let t = custom("Boundary", [20, 20, 20, 20, 20, 100]).unwrap();
    assert_eq!(t.strings, [20, 20, 20, 20, 20, 100]);
}

#[test]
fn custom_tuning_below_min_invalid() {
    let result = custom("Too Low", [19, 45, 50, 55, 59, 64]);
    assert!(result.is_err());
}

#[test]
fn custom_tuning_above_max_invalid() {
    let result = custom("Too High", [40, 45, 50, 55, 59, 101]);
    assert!(result.is_err());
}

#[test]
fn preset_by_name_case_insensitive() {
    assert_eq!(preset_by_name("standard"), Some(standard()));
    assert_eq!(preset_by_name("STANDARD"), Some(standard()));
    assert_eq!(preset_by_name("Drop D"), Some(drop_d()));
    assert_eq!(preset_by_name("drop d"), Some(drop_d()));
    assert_eq!(preset_by_name("open g"), Some(open_g()));
}

#[test]
fn preset_by_name_not_found() {
    assert_eq!(preset_by_name("Nonexistent Tuning"), None);
}
