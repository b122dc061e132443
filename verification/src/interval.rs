//! Musical intervals measured in semitones.
use vstd::prelude::*;

use crate::note::PitchClass;

verus! {

/// An interval measured in semitones.
///
/// Supports simple intervals (0-11) and compound intervals (12+)
/// for extensions like 9ths, 11ths, and 13ths.
#[derive(Debug, Clone, Copy, PartialEq, Eq, Structural, Hash)]
pub struct Interval {
    pub semitones: u8,
}

/// The number of semitones from `root` up to `other` within one octave.
pub open spec fn semitones_between(root: u8, other: u8) -> int {
    (other as int - root as int) % 12
}

/// Short display name of each interval.
pub open spec fn spec_short_name(s: u8) -> Seq<char> {
    match s {
        0 => "R"@,
        1 => "m2"@,
        2 => "M2"@,
        3 => "m3"@,
        4 => "M3"@,
        5 => "P4"@,
        6 => "b5"@,
        7 => "P5"@,
        8 => "#5"@,
        9 => "M6"@,
        10 => "m7"@,
        11 => "M7"@,
        12 => "8"@,
        13 => "b9"@,
        14 => "9"@,
        15 => "#9"@,
        16 => "M10"@,
        17 => "11"@,
        18 => "#11"@,
        19 => "P12"@,
        20 => "b13"@,
        21 => "13"@,
        _ => "?"@,
    }
}

/// Long display name of each interval.
pub open spec fn spec_long_name(s: u8) -> Seq<char> {
    match s {
        0 => "root"@,
        1 => "minor 2nd"@,
        2 => "major 2nd"@,
        3 => "minor 3rd"@,
        4 => "major 3rd"@,
        5 => "perfect 4th"@,
        6 => "tritone"@,
        7 => "perfect 5th"@,
        8 => "augmented 5th"@,
        9 => "major 6th"@,
        10 => "minor 7th"@,
        11 => "major 7th"@,
        12 => "octave"@,
        13 => "minor 9th"@,
        14 => "major 9th"@,
        15 => "augmented 9th"@,
        16 => "major 10th"@,
        17 => "perfect 11th"@,
        18 => "augmented 11th"@,
        19 => "perfect 12th"@,
        20 => "minor 13th"@,
        21 => "major 13th"@,
        _ => "unknown"@,
    }
}

impl Interval {
    pub fn new(semitones: u8) -> (iv: Interval)
        ensures
            iv.semitones == semitones,
    {
        Interval { semitones }
    }

    // --- Simple intervals ---
    #[allow(non_snake_case)]
    pub fn P1() -> (iv: Interval)
        ensures
            iv.semitones == 0,
    {
        Interval { semitones: 0 }
    }

    #[allow(non_snake_case)]
    pub fn MINOR_2ND() -> (iv: Interval)
        ensures
            iv.semitones == 1,
    {
        Interval { semitones: 1 }
    }

    #[allow(non_snake_case)]
    pub fn MAJOR_2ND() -> (iv: Interval)
        ensures
            iv.semitones == 2,
    {
        Interval { semitones: 2 }
    }

    #[allow(non_snake_case)]
    pub fn MINOR_3RD() -> (iv: Interval)
        ensures
            iv.semitones == 3,
    {
        Interval { semitones: 3 }
    }

    #[allow(non_snake_case)]
    pub fn MAJOR_3RD() -> (iv: Interval)
        ensures
            iv.semitones == 4,
    {
        Interval { semitones: 4 }
    }

    #[allow(non_snake_case)]
    pub fn PERFECT_4TH() -> (iv: Interval)
        ensures
            iv.semitones == 5,
    {
        Interval { semitones: 5 }
    }

    #[allow(non_snake_case)]
    pub fn TRITONE() -> (iv: Interval)
        ensures
            iv.semitones == 6,
    {
        Interval { semitones: 6 }
    }

    #[allow(non_snake_case)]
    pub fn PERFECT_5TH() -> (iv: Interval)
        ensures
            iv.semitones == 7,
    {
        Interval { semitones: 7 }
    }

    #[allow(non_snake_case)]
    pub fn MINOR_6TH() -> (iv: Interval)
        ensures
            iv.semitones == 8,
    {
        Interval { semitones: 8 }
    }

    #[allow(non_snake_case)]
    pub fn MAJOR_6TH() -> (iv: Interval)
        ensures
            iv.semitones == 9,
    {
        Interval { semitones: 9 }
    }

    #[allow(non_snake_case)]
    pub fn MINOR_7TH() -> (iv: Interval)
        ensures
            iv.semitones == 10,
    {
        Interval { semitones: 10 }
    }

    #[allow(non_snake_case)]
    pub fn MAJOR_7TH() -> (iv: Interval)
        ensures
            iv.semitones == 11,
    {
        Interval { semitones: 11 }
    }

    // --- Compound intervals ---
    #[allow(non_snake_case)]
    pub fn OCTAVE() -> (iv: Interval)
        ensures
            iv.semitones == 12,
    {
        Interval { semitones: 12 }
    }

    #[allow(non_snake_case)]
    pub fn MINOR_9TH() -> (iv: Interval)
        ensures
            iv.semitones == 13,
    {
        Interval { semitones: 13 }
    }

    #[allow(non_snake_case)]
    pub fn MAJOR_9TH() -> (iv: Interval)
        ensures
            iv.semitones == 14,
    {
        Interval { semitones: 14 }
    }

    #[allow(non_snake_case)]
    pub fn MINOR_10TH() -> (iv: Interval)
        ensures
            iv.semitones == 15,
    {
        Interval { semitones: 15 }
    }

    #[allow(non_snake_case)]
    pub fn MAJOR_10TH() -> (iv: Interval)
        ensures
            iv.semitones == 16,
    {
        Interval { semitones: 16 }
    }

    #[allow(non_snake_case)]
    pub fn PERFECT_11TH() -> (iv: Interval)
        ensures
            iv.semitones == 17,
    {
        Interval { semitones: 17 }
    }

    #[allow(non_snake_case)]
    pub fn AUG_11TH() -> (iv: Interval)
        ensures
            iv.semitones == 18,
    {
        Interval { semitones: 18 }
    }

    #[allow(non_snake_case)]
    pub fn PERFECT_12TH() -> (iv: Interval)
        ensures
            iv.semitones == 19,
    {
        Interval { semitones: 19 }
    }

    #[allow(non_snake_case)]
    pub fn MINOR_13TH() -> (iv: Interval)
        ensures
            iv.semitones == 20,
    {
        Interval { semitones: 20 }
    }

    #[allow(non_snake_case)]
    pub fn MAJOR_13TH() -> (iv: Interval)
        ensures
            iv.semitones == 21,
    {
        Interval { semitones: 21 }
    }

    /// Compute the interval from `root` to `other` (mod 12, simple interval).
    pub fn between(root: PitchClass, other: PitchClass) -> (iv: Interval)
        ensures
            iv.semitones == semitones_between(root@, other@),
    {
        let r = root.semitones();
        let o = other.semitones();
        Interval::new((o + 12 - r) % 12)
    }

    /// The simple (mod-12) version of this interval.
    pub fn simple(&self) -> (iv: Interval)
        ensures
            iv.semitones == self.semitones % 12,
    {
        Interval::new(self.semitones % 12)
    }

    /// Whether this is a compound interval (>= octave).
    pub fn is_compound(&self) -> (b: bool)
        ensures
            b == (self.semitones >= 12),
    {
        self.semitones >= 12
    }

    /// Short display name used in chord info panels.
    pub fn short_name(&self) -> (n: &'static str)
        ensures
            n@ == spec_short_name(self.semitones),
    {
        match self.semitones {
            0 => "R",
            1 => "m2",
            2 => "M2",
            3 => "m3",
            4 => "M3",
            5 => "P4",
            6 => "b5",
            7 => "P5",
            8 => "#5",
            9 => "M6",
            10 => "m7",
            11 => "M7",
            12 => "8",
            13 => "b9",
            14 => "9",
            15 => "#9",
            16 => "M10",
            17 => "11",
            18 => "#11",
            19 => "P12",
            20 => "b13",
            21 => "13",
            _ => "?",
        }
    }

    /// Long display name for human-readable descriptions.
    pub fn long_name(&self) -> (n: &'static str)
        ensures
            n@ == spec_long_name(self.semitones),
    {
        match self.semitones {
            0 => "root",
            1 => "minor 2nd",
            2 => "major 2nd",
            3 => "minor 3rd",
            4 => "major 3rd",
            5 => "perfect 4th",
            6 => "tritone",
            7 => "perfect 5th",
            8 => "augmented 5th",
            9 => "major 6th",
            10 => "minor 7th",
            11 => "major 7th",
            12 => "octave",
            13 => "minor 9th",
            14 => "major 9th",
            15 => "augmented 9th",
            16 => "major 10th",
            17 => "perfect 11th",
            18 => "augmented 11th",
            19 => "perfect 12th",
            20 => "minor 13th",
            21 => "major 13th",
            _ => "unknown",
        }
    }

    /// The text that displaying an interval shows: its short name.
    pub fn to_display_string(&self) -> (s: String)
        ensures
            s@ == spec_short_name(self.semitones),
    {
        String::from_str(self.short_name())
    }
}


/// Going up from `root` by the interval between `root` and `other` lands on
/// `other`; the interval is under an octave, zero only from a pitch class to
/// itself, and the two directions between distinct pitch classes make up an
/// octave.
pub proof fn law_interval_reaches(root: u8, other: u8)
    requires
        root < 12,
        other < 12,
    ensures
        (root + semitones_between(root, other)) % 12 == other,
        0 <= semitones_between(root, other) < 12,
        semitones_between(root, other) == 0 <==> root == other,
        root != other ==> semitones_between(root, other) + semitones_between(other, root) == 12,
{
}

/// The interval between the pitch classes of two MIDI notes is their
/// distance reduced to one octave.
pub proof fn law_interval_of_notes(a: u8, b: u8)
    ensures
        semitones_between(a % 12, b % 12) == (b - a) % 12,
{
    assert(semitones_between(a % 12, b % 12) == (b - a) % 12) by (nonlinear_arith);
}


/// The long name of an interval spells out its short name: `word` followed
/// by the short name's degree number.
pub open spec fn spells_out(long: Seq<char>, word: Seq<char>, short: Seq<char>) -> bool {
    let n = word.len() + short.len() - 1;
    &&& short.len() >= 1
    &&& long.len() >= n
    &&& long.subrange(0, word.len() as int) =~= word
    &&& long.subrange(word.len() as int, n) =~= short.drop_first()
}

/// The short and long names of an interval agree: a short name `M`, `m`,
/// `P` or `#` followed by a degree reads as "major", "minor", "perfect" or
/// "augmented" followed by the same degree.
pub proof fn law_interval_names_agree(s: u8)
    ensures
        spec_short_name(s).len() >= 1,
        spec_short_name(s)[0] == 'M' ==> spells_out(spec_long_name(s), "major "@, spec_short_name(s)),
        spec_short_name(s)[0] == 'm' ==> spells_out(spec_long_name(s), "minor "@, spec_short_name(s)),
        spec_short_name(s)[0] == 'P' ==> spells_out(spec_long_name(s), "perfect "@, spec_short_name(s)),
        spec_short_name(s)[0] == '#' ==> spells_out(spec_long_name(s), "augmented "@, spec_short_name(s)),
{
    reveal_strlit("R");
    reveal_strlit("m2");
    reveal_strlit("M2");
    reveal_strlit("m3");
    reveal_strlit("M3");
    reveal_strlit("P4");
    reveal_strlit("b5");
    reveal_strlit("P5");
    reveal_strlit("#5");
    reveal_strlit("M6");
    reveal_strlit("m7");
    reveal_strlit("M7");
    reveal_strlit("8");
    reveal_strlit("b9");
    reveal_strlit("9");
    reveal_strlit("#9");
    reveal_strlit("M10");
    reveal_strlit("11");
    reveal_strlit("#11");
    reveal_strlit("P12");
    reveal_strlit("b13");
    reveal_strlit("13");
    reveal_strlit("?");
    reveal_strlit("root");
    reveal_strlit("minor 2nd");
    reveal_strlit("major 2nd");
    reveal_strlit("minor 3rd");
    reveal_strlit("major 3rd");
    reveal_strlit("perfect 4th");
    reveal_strlit("tritone");
    reveal_strlit("perfect 5th");
    reveal_strlit("augmented 5th");
    reveal_strlit("major 6th");
    reveal_strlit("minor 7th");
    reveal_strlit("major 7th");
    reveal_strlit("octave");
    reveal_strlit("minor 9th");
    reveal_strlit("major 9th");
    reveal_strlit("augmented 9th");
    reveal_strlit("major 10th");
    reveal_strlit("perfect 11th");
    reveal_strlit("augmented 11th");
    reveal_strlit("perfect 12th");
    reveal_strlit("minor 13th");
    reveal_strlit("major 13th");
    reveal_strlit("unknown");
    reveal_strlit("major ");
    reveal_strlit("minor ");
    reveal_strlit("perfect ");
    reveal_strlit("augmented ");
    if s > 21 {
        assert(spec_short_name(s) =~= "?"@);
    } else if s == 0 {
        assert(spec_short_name(s) =~= "R"@);
        assert(spec_long_name(s) =~= "root"@);
    } else if s == 1 {
        assert(spec_short_name(s) =~= "m2"@);
        assert(spec_long_name(s) =~= "minor 2nd"@);
    } else if s == 2 {
        assert(spec_short_name(s) =~= "M2"@);
        assert(spec_long_name(s) =~= "major 2nd"@);
    } else if s == 3 {
        assert(spec_short_name(s) =~= "m3"@);
        assert(spec_long_name(s) =~= "minor 3rd"@);
    } else if s == 4 {
        assert(spec_short_name(s) =~= "M3"@);
        assert(spec_long_name(s) =~= "major 3rd"@);
    } else if s == 5 {
        assert(spec_short_name(s) =~= "P4"@);
        assert(spec_long_name(s) =~= "perfect 4th"@);
    } else if s == 6 {
        assert(spec_short_name(s) =~= "b5"@);
        assert(spec_long_name(s) =~= "tritone"@);
    } else if s == 7 {
        assert(spec_short_name(s) =~= "P5"@);
        assert(spec_long_name(s) =~= "perfect 5th"@);
    } else if s == 8 {
        assert(spec_short_name(s) =~= "#5"@);
        assert(spec_long_name(s) =~= "augmented 5th"@);
    } else if s == 9 {
        assert(spec_short_name(s) =~= "M6"@);
        assert(spec_long_name(s) =~= "major 6th"@);
    } else if s == 10 {
        assert(spec_short_name(s) =~= "m7"@);
        assert(spec_long_name(s) =~= "minor 7th"@);
    } else if s == 11 {
        assert(spec_short_name(s) =~= "M7"@);
        assert(spec_long_name(s) =~= "major 7th"@);
    } else if s == 12 {
        assert(spec_short_name(s) =~= "8"@);
        assert(spec_long_name(s) =~= "octave"@);
    } else if s == 13 {
        assert(spec_short_name(s) =~= "b9"@);
        assert(spec_long_name(s) =~= "minor 9th"@);
    } else if s == 14 {
        assert(spec_short_name(s) =~= "9"@);
        assert(spec_long_name(s) =~= "major 9th"@);
    } else if s == 15 {
        assert(spec_short_name(s) =~= "#9"@);
        assert(spec_long_name(s) =~= "augmented 9th"@);
    } else if s == 16 {
        assert(spec_short_name(s) =~= "M10"@);
        assert(spec_long_name(s) =~= "major 10th"@);
    } else if s == 17 {
        assert(spec_short_name(s) =~= "11"@);
        assert(spec_long_name(s) =~= "perfect 11th"@);
    } else if s == 18 {
        assert(spec_short_name(s) =~= "#11"@);
        assert(spec_long_name(s) =~= "augmented 11th"@);
    } else if s == 19 {
        assert(spec_short_name(s) =~= "P12"@);
        assert(spec_long_name(s) =~= "perfect 12th"@);
    } else if s == 20 {
        assert(spec_short_name(s) =~= "b13"@);
        assert(spec_long_name(s) =~= "minor 13th"@);
    } else if s == 21 {
        assert(spec_short_name(s) =~= "13"@);
        assert(spec_long_name(s) =~= "major 13th"@);
    }
}

} // verus!
