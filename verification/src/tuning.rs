//! Guitar tunings: the presets and custom tunings.
use vstd::prelude::*;

use crate::text::{ascii_lower, decimal, eq_ignore_ascii_case, push_decimal, str_eq_ignore_ascii_case};

verus! {

/// A guitar tuning: six strings, each with a MIDI note number.
/// Index 0 is the lowest-pitched string (string 6, typically low E).
#[derive(Debug, Clone, PartialEq, Eq)]
pub struct Tuning {
    pub name: String,
    pub strings: [u8; 6],
}

impl View for Tuning {
    type V = (Seq<char>, Seq<u8>);

    open spec fn view(&self) -> (Seq<char>, Seq<u8>) {
        (self.name@, self.strings@)
    }
}

/// Lowest MIDI note a custom tuning may use.
pub const MIDI_MIN: u8 = 20;

/// Highest MIDI note a custom tuning may use.
pub const MIDI_MAX: u8 = 100;

/// Number of preset tunings.
pub const PRESET_COUNT: usize = 6;

/// The preset tunings, in the order `presets` lists them: name and the
/// MIDI notes of the strings from the lowest up.
pub open spec fn preset_table(i: int) -> (Seq<char>, Seq<u8>) {
    if i == 0 {
        ("Standard"@, seq![40u8, 45, 50, 55, 59, 64])
    } else if i == 1 {
        ("Drop D"@, seq![38u8, 45, 50, 55, 59, 64])
    } else if i == 2 {
        ("Half-step Down"@, seq![39u8, 44, 49, 54, 58, 63])
    } else if i == 3 {
        ("Open G"@, seq![38u8, 43, 50, 55, 59, 62])
    } else if i == 4 {
        ("Open D"@, seq![38u8, 45, 50, 54, 57, 62])
    } else {
        ("Open E"@, seq![40u8, 47, 52, 56, 59, 64])
    }
}

/// A MIDI note that a custom tuning accepts.
pub open spec fn in_midi_range(note: u8) -> bool {
    MIDI_MIN <= note <= MIDI_MAX
}

/// The message that rejects a custom tuning because of `note`.
pub open spec fn range_message(note: u8) -> Seq<char> {
    "MIDI note "@ + decimal(note as nat) + " out of range ("@ + decimal(MIDI_MIN as nat) + "-"@
        + decimal(MIDI_MAX as nat) + ")"@
}

/// Standard tuning: E2 A2 D3 G3 B3 E4.
pub fn standard() -> (t: Tuning)
    ensures
        t@ == preset_table(0),
{
    Tuning { name: String::from_str("Standard"), strings: [40, 45, 50, 55, 59, 64] }
}

/// Drop D tuning: D2 A2 D3 G3 B3 E4.
pub fn drop_d() -> (t: Tuning)
    ensures
        t@ == preset_table(1),
{
    Tuning { name: String::from_str("Drop D"), strings: [38, 45, 50, 55, 59, 64] }
}

/// Half-step down tuning: Eb2 Ab2 Db3 Gb3 Bb3 Eb4.
pub fn half_step_down() -> (t: Tuning)
    ensures
        t@ == preset_table(2),
{
    Tuning { name: String::from_str("Half-step Down"), strings: [39, 44, 49, 54, 58, 63] }
}

/// Open G tuning: D2 G2 D3 G3 B3 D4.
pub fn open_g() -> (t: Tuning)
    ensures
        t@ == preset_table(3),
{
    Tuning { name: String::from_str("Open G"), strings: [38, 43, 50, 55, 59, 62] }
}

/// Open D tuning: D2 A2 D3 F#3 A3 D4.
pub fn open_d() -> (t: Tuning)
    ensures
        t@ == preset_table(4),
{
    Tuning { name: String::from_str("Open D"), strings: [38, 45, 50, 54, 57, 62] }
}

/// Open E tuning: E2 B2 E3 G#3 B3 E4.
pub fn open_e() -> (t: Tuning)
    ensures
        t@ == preset_table(5),
{
    Tuning { name: String::from_str("Open E"), strings: [40, 47, 52, 56, 59, 64] }
}

fn preset_at(i: usize) -> (t: Tuning)
    requires
        i < PRESET_COUNT,
    ensures
        t@ == preset_table(i as int),
{
    match i {
        0 => standard(),
        1 => drop_d(),
        2 => half_step_down(),
        3 => open_g(),
        4 => open_d(),
        _ => open_e(),
    }
}

/// Returns all preset tunings.
pub fn presets() -> (v: Vec<Tuning>)
    ensures
        v.len() == PRESET_COUNT,
        forall|i: int| 0 <= i < PRESET_COUNT ==> (#[trigger] v@[i])@ == preset_table(i),
{
    let mut v: Vec<Tuning> = Vec::new();
    let mut i: usize = 0;
    while i < PRESET_COUNT
        invariant
            i <= PRESET_COUNT,
            v.len() == i,
            forall|j: int| 0 <= j < i ==> (#[trigger] v@[j])@ == preset_table(j),
        decreases PRESET_COUNT - i,
    {
        v.push(preset_at(i));
        i = i + 1;
    }
    v
}

/// The message that rejects a custom tuning because of `note`.
fn range_error(note: u8) -> (e: String)
    ensures
        e@ == range_message(note),
{
    let mut e = String::from_str("MIDI note ");
    push_decimal(&mut e, note as u64);
    e.append(" out of range (");
    push_decimal(&mut e, MIDI_MIN as u64);
    e.append("-");
    push_decimal(&mut e, MIDI_MAX as u64);
    e.append(")");
    e
}

/// Builds a custom tuning, validating that every MIDI note number falls
/// within a reasonable range (20-100 inclusive).
///
/// The `strings` parameter is already fixed at length 6 by its type
/// ([u8; 6]), so only the value range is checked.
pub fn custom(name: &str, strings: [u8; 6]) -> (r: Result<Tuning, String>)
    ensures
        match r {
            Ok(t) => {
                &&& forall|i: int| 0 <= i < 6 ==> in_midi_range(#[trigger] strings@[i])
                &&& t@ == (name@, strings@)
            },
            Err(e) => exists|k: int|
                0 <= k < 6 && !in_midi_range(#[trigger] strings@[k]) && (forall|j: int|
                    0 <= j < k ==> in_midi_range(#[trigger] strings@[j])) && e@ == range_message(
                    strings@[k],
                ),
        },
{
    let mut i: usize = 0;
    while i < 6
        invariant
            i <= 6,
            forall|j: int| 0 <= j < i ==> in_midi_range(#[trigger] strings@[j]),
        decreases 6 - i,
    {
        let note = strings[i];
        if note < MIDI_MIN || note > MIDI_MAX {
            let e = range_error(note);
            assert(!in_midi_range(strings@[i as int]));
            return Err(e);
        }
        i = i + 1;
    }
    Ok(Tuning { name: String::from_str(name), strings })
}

/// Looks up a preset tuning by name, case-insensitively.
pub fn preset_by_name(name: &str) -> (r: Option<Tuning>)
    ensures
        match r {
            Some(t) => exists|i: int|
                0 <= i < PRESET_COUNT && eq_ignore_ascii_case(#[trigger] preset_table(i).0, name@)
                    && (forall|j: int|
                    0 <= j < i ==> !eq_ignore_ascii_case(#[trigger] preset_table(j).0, name@))
                    && t@ == preset_table(i),
            None => forall|i: int|
                0 <= i < PRESET_COUNT ==> !eq_ignore_ascii_case(#[trigger] preset_table(i).0, name@),
        },
{
    let mut i: usize = 0;
    while i < PRESET_COUNT
        invariant
            i <= PRESET_COUNT,
            forall|j: int| 0 <= j < i ==> !eq_ignore_ascii_case(#[trigger] preset_table(j).0, name@),
        decreases PRESET_COUNT - i,
    {
        let t = preset_at(i);
        if str_eq_ignore_ascii_case(t.name.as_str(), name) {
            assert(eq_ignore_ascii_case(preset_table(i as int).0, name@));
            return Some(t);
        }
        i = i + 1;
    }
    None
}


/// No two presets have names equal up to ASCII case, so a name finds at
/// most one preset: the one `preset_by_name` gives back for it.
pub proof fn law_preset_names_distinct(s: Seq<char>, i: int, j: int)
    requires
        0 <= i < PRESET_COUNT,
        0 <= j < PRESET_COUNT,
        eq_ignore_ascii_case(preset_table(i).0, s),
        eq_ignore_ascii_case(preset_table(j).0, s),
    ensures
        i == j,
{
    reveal_strlit("Standard");
    reveal_strlit("Drop D");
    reveal_strlit("Half-step Down");
    reveal_strlit("Open G");
    reveal_strlit("Open D");
    reveal_strlit("Open E");
    let a = preset_table(i).0;
    let b = preset_table(j).0;
    assert(a.len() == b.len());
    if i != j && a.len() == 6 {
        assert(ascii_lower(a[0]) == ascii_lower(s[0]));
        assert(ascii_lower(b[0]) == ascii_lower(s[0]));
        assert(ascii_lower(a[5]) == ascii_lower(s[5]));
        assert(ascii_lower(b[5]) == ascii_lower(s[5]));
    }
}

/// Every preset tuning is also a valid custom tuning: each of its notes lies
/// in the range that `custom` accepts.
pub proof fn law_presets_in_custom_range(i: int, k: int)
    requires
        0 <= i < PRESET_COUNT,
        0 <= k < 6,
    ensures
        in_midi_range(preset_table(i).1[k]),
{
}

} // verus!
