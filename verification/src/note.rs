//! Pitch classes and their spellings.
use vstd::prelude::*;

use crate::text::{
    ascii_lower, chars_of, eq_ignore_ascii_case, is_white_space, lemma_trim_lower,
    trim, trim_bounds,
};

verus! {

/// A pitch class (0-11), where C=0, C#/Db=1, D=2, ... B=11.
#[derive(Debug, Clone, Copy, PartialEq, Eq, Structural, Hash, PartialOrd, Ord)]
pub struct PitchClass(u8);

impl View for PitchClass {
    type V = u8;

    /// The number of semitones above C.
    closed spec fn view(&self) -> u8 {
        self.0
    }
}

/// The preferred spelling of each pitch class (index 0 of the spelling table).
pub open spec fn spec_name(v: u8) -> Seq<char> {
    match v {
        0 => "C"@,
        1 => "C#"@,
        2 => "D"@,
        3 => "Eb"@,
        4 => "E"@,
        5 => "F"@,
        6 => "F#"@,
        7 => "G"@,
        8 => "Ab"@,
        9 => "A"@,
        10 => "Bb"@,
        _ => "B"@,
    }
}

/// The alternate enharmonic spelling of each pitch class.
pub open spec fn spec_alt_name(v: u8) -> Seq<char> {
    match v {
        0 => "C"@,
        1 => "Db"@,
        2 => "D"@,
        3 => "D#"@,
        4 => "E"@,
        5 => "F"@,
        6 => "Gb"@,
        7 => "G"@,
        8 => "G#"@,
        9 => "A"@,
        10 => "A#"@,
        _ => "B"@,
    }
}

/// The sharp spelling where a pitch class has one, else the preferred spelling.
pub open spec fn spec_sharp_name(v: u8) -> Seq<char> {
    match v {
        1 => "C#"@,
        3 => "D#"@,
        6 => "F#"@,
        8 => "G#"@,
        10 => "A#"@,
        _ => spec_name(v),
    }
}

/// The flat spelling where a pitch class has one, else the preferred spelling.
pub open spec fn spec_flat_name(v: u8) -> Seq<char> {
    match v {
        1 => "Db"@,
        3 => "Eb"@,
        6 => "Gb"@,
        8 => "Ab"@,
        10 => "Bb"@,
        _ => spec_name(v),
    }
}

/// The semitone value of a note letter, in either case.
pub open spec fn letter_value(c: char) -> Option<int> {
    if c == 'C' || c == 'c' {
        Some(0)
    } else if c == 'D' || c == 'd' {
        Some(2)
    } else if c == 'E' || c == 'e' {
        Some(4)
    } else if c == 'F' || c == 'f' {
        Some(5)
    } else if c == 'G' || c == 'g' {
        Some(7)
    } else if c == 'A' || c == 'a' {
        Some(9)
    } else if c == 'B' || c == 'b' {
        Some(11)
    } else {
        None
    }
}

/// The sharp sign.
pub open spec fn sharp_sign() -> char {
    '\u{266F}'
}

/// The flat sign.
pub open spec fn flat_sign() -> char {
    '\u{266D}'
}

/// An ASCII flat: `b`, in either case.
pub open spec fn is_ascii_flat(c: char) -> bool {
    c == 'b' || c == 'B'
}

/// The shift in semitones that the text after the letter denotes: nothing;
/// one or two sharps (`#`, or the sharp sign, not mixed); one or two flats
/// (`b` in either case, or the flat sign, not mixed). Anything else is not
/// an accidental.
pub open spec fn accidental_value(rest: Seq<char>) -> Option<int> {
    if rest.len() == 0 {
        Some(0)
    } else if rest.len() == 1 {
        if rest[0] == '#' || rest[0] == sharp_sign() {
            Some(1)
        } else if is_ascii_flat(rest[0]) || rest[0] == flat_sign() {
            Some(-1)
        } else {
            None
        }
    } else if rest.len() == 2 {
        if (rest[0] == '#' && rest[1] == '#') || (rest[0] == sharp_sign() && rest[1] == sharp_sign()) {
            Some(2)
        } else if (is_ascii_flat(rest[0]) && is_ascii_flat(rest[1])) || (rest[0] == flat_sign()
            && rest[1] == flat_sign()) {
            Some(-2)
        } else {
            None
        }
    } else {
        None
    }
}

/// The pitch class that a note name denotes, if any: white space around it
/// is ignored, the letter and the accidentals are read in either ASCII case,
/// and the accidentals move it around the octave.
pub open spec fn spec_pitch_class_from_name(s: Seq<char>) -> Option<u8> {
    let t = trim(s);
    if t.len() == 0 {
        None
    } else {
        match (letter_value(t[0]), accidental_value(t.drop_first())) {
            (Some(b), Some(m)) => Some(((b + m) % 12) as u8),
            _ => None,
        }
    }
}

/// The semitone values of a sequence of pitch classes.
pub open spec fn pitch_values(s: Seq<PitchClass>) -> Seq<int> {
    s.map_values(|pc: PitchClass| pc@ as int)
}

/// The semitone values of an optional pitch class.
pub open spec fn opt_pc_view(o: Option<PitchClass>) -> Option<u8> {
    match o {
        Some(pc) => Some(pc@),
        None => None,
    }
}

/// Two pitch classes are the same value exactly when they have the same
/// number of semitones.
pub proof fn law_equal_by_semitones(a: PitchClass, b: PitchClass)
    ensures
        (a@ == b@) <==> (a == b),
{
}

impl PitchClass {
    #[verifier::type_invariant]
    spec fn in_octave(self) -> bool {
        self.0 < 12
    }

    /// Create a new PitchClass, wrapping the value mod 12.
    pub fn new(value: u8) -> (pc: Self)
        ensures
            pc@ == value % 12,
    {
        PitchClass(value % 12)
    }

    /// Create a PitchClass from a MIDI note number.
    pub fn from_midi(midi: u8) -> (pc: Self)
        ensures
            pc@ == midi % 12,
    {
        PitchClass(midi % 12)
    }

    /// The number of semitones above C (0-11).
    pub fn semitones(&self) -> (s: u8)
        ensures
            s == self@,
            s < 12,
    {
        proof {
            use_type_invariant(self);
        }
        self.0
    }

    /// The preferred (default) spelling for this pitch class.
    pub fn name(&self) -> (n: &'static str)
        ensures
            n@ == spec_name(self@),
    {
        match self.0 {
            0 => "C",
            1 => "C#",
            2 => "D",
            3 => "Eb",
            4 => "E",
            5 => "F",
            6 => "F#",
            7 => "G",
            8 => "Ab",
            9 => "A",
            10 => "Bb",
            _ => "B",
        }
    }

    /// The alternate enharmonic spelling for this pitch class.
    pub fn alt_name(&self) -> (n: &'static str)
        ensures
            n@ == spec_alt_name(self@),
    {
        match self.0 {
            0 => "C",
            1 => "Db",
            2 => "D",
            3 => "D#",
            4 => "E",
            5 => "F",
            6 => "Gb",
            7 => "G",
            8 => "G#",
            9 => "A",
            10 => "A#",
            _ => "B",
        }
    }

    /// Return the sharp-preferring spelling.
    /// For pitch classes that have both a sharp and flat name, this returns
    /// whichever uses a sharp (or the natural name if no accidental).
    pub fn name_preferring_sharp(&self) -> (n: &'static str)
        ensures
            n@ == spec_sharp_name(self@),
    {
        match self.0 {
            1 => "C#",
            3 => "D#",
            6 => "F#",
            8 => "G#",
            10 => "A#",
            _ => self.name(),
        }
    }

    /// Return the flat-preferring spelling.
    /// For pitch classes that have both a sharp and flat name, this returns
    /// whichever uses a flat (or the natural name if no accidental).
    pub fn name_preferring_flat(&self) -> (n: &'static str)
        ensures
            n@ == spec_flat_name(self@),
    {
        match self.0 {
            1 => "Db",
            3 => "Eb",
            6 => "Gb",
            8 => "Ab",
            10 => "Bb",
            _ => self.name(),
        }
    }

    /// The text that displaying a pitch class shows: its preferred spelling.
    pub fn to_display_string(&self) -> (s: String)
        ensures
            s@ == spec_name(self@),
    {
        String::from_str(self.name())
    }
}

fn letter_value_of(c: char) -> (r: Option<u8>)
    ensures
        match r {
            Some(v) => letter_value(c) == Some(v as int),
            None => letter_value(c) is None,
        },
{
    if c == 'C' || c == 'c' {
        Some(0)
    } else if c == 'D' || c == 'd' {
        Some(2)
    } else if c == 'E' || c == 'e' {
        Some(4)
    } else if c == 'F' || c == 'f' {
        Some(5)
    } else if c == 'G' || c == 'g' {
        Some(7)
    } else if c == 'A' || c == 'a' {
        Some(9)
    } else if c == 'B' || c == 'b' {
        Some(11)
    } else {
        None
    }
}

fn is_sharp(c: char) -> (b: bool)
    ensures
        b == (c == '#' || c == sharp_sign()),
{
    c == '#' || c == '\u{266F}'
}

fn is_flat(c: char) -> (b: bool)
    ensures
        b == (is_ascii_flat(c) || c == flat_sign()),
{
    c == 'b' || c == 'B' || c == '\u{266D}'
}

fn is_ascii_flat_char(c: char) -> (b: bool)
    ensures
        b == is_ascii_flat(c),
{
    c == 'b' || c == 'B'
}

/// The accidental written in `v[from..to]`, as a shift in semitones.
fn accidental_of(v: &Vec<char>, from: usize, to: usize) -> (r: Option<i8>)
    requires
        from <= to <= v.len(),
    ensures
        match r {
            Some(m) => accidental_value(v@.subrange(from as int, to as int)) == Some(m as int),
            None => accidental_value(v@.subrange(from as int, to as int)) is None,
        },
{
    let ghost rest = v@.subrange(from as int, to as int);
    let n = to - from;
    if n == 0 {
        Some(0)
    } else if n == 1 {
        let c = v[from];
        assert(rest[0] == c);
        if is_sharp(c) {
            Some(1)
        } else if is_flat(c) {
            Some(-1)
        } else {
            None
        }
    } else if n == 2 {
        let c0 = v[from];
        let c1 = v[from + 1];
        assert(rest[0] == c0 && rest[1] == c1);
        if (c0 == '#' && c1 == '#') || (c0 == '\u{266F}' && c1 == '\u{266F}') {
            Some(2)
        } else if (is_ascii_flat_char(c0) && is_ascii_flat_char(c1)) || (c0 == '\u{266D}' && c1
            == '\u{266D}') {
            Some(-2)
        } else {
            None
        }
    } else {
        None
    }
}

/// Parse a note name (e.g. "C#", "Db", "e", "Bb", "EB") into a PitchClass.
/// Case-insensitive (ASCII), white space around the name ignored. Returns
/// None if the name is not recognized.
pub fn pitch_class_from_name(name: &str) -> (r: Option<PitchClass>)
    ensures
        opt_pc_view(r) == spec_pitch_class_from_name(name@),
{
    let v = chars_of(name);
    let (start, end) = trim_bounds(&v);
    let ghost t = v@.subrange(start as int, end as int);
    if start == end {
        assert(t.len() == 0);
        return None;
    }
    assert(t[0] == v@[start as int]);
    let letter = letter_value_of(v[start]);
    let base = match letter {
        Some(b) => b,
        None => {
            return None;
        },
    };
    assert(t.drop_first() =~= v@.subrange(start + 1, end as int));
    let accidental = accidental_of(&v, start + 1, end);
    let shift = match accidental {
        Some(m) => m,
        None => {
            return None;
        },
    };
    let value = ((base as i8 + 12 + shift) % 12) as u8;
    assert(value == (base + shift) % 12);
    Some(PitchClass::new(value))
}


/// A text with no white space at either end is its own trimmed form.
proof fn lemma_trim_plain(s: Seq<char>)
    requires
        s.len() > 0,
        !is_white_space(s[0]),
        !is_white_space(s.last()),
    ensures
        trim(s) == s,
{
}

/// A spelling of one letter and at most one accidental reads back as the
/// pitch class of its letter moved by its accidental.
proof fn lemma_spelling_reads(s: Seq<char>)
    requires
        s.len() == 1 || s.len() == 2,
        letter_value(s[0]) is Some,
        s.len() == 2 ==> (s[1] == '#' || s[1] == 'b'),
    ensures
        spec_pitch_class_from_name(s) == Some(
            ((letter_value(s[0])->0 + if s.len() == 1 {
                0int
            } else if s[1] == '#' {
                1int
            } else {
                -1int
            }) % 12) as u8,
        ),
{
    lemma_trim_plain(s);
    assert(s.drop_first().len() == s.len() - 1);
    if s.len() == 2 {
        assert(s.drop_first()[0] == s[1]);
    }
}

/// Every spelling that the library gives a pitch class (preferred,
/// alternate, sharp and flat) reads back as that pitch class.
pub proof fn law_names_read_back(v: u8)
    requires
        v < 12,
    ensures
        spec_pitch_class_from_name(spec_name(v)) == Some(v),
        spec_pitch_class_from_name(spec_alt_name(v)) == Some(v),
        spec_pitch_class_from_name(spec_sharp_name(v)) == Some(v),
        spec_pitch_class_from_name(spec_flat_name(v)) == Some(v),
{
    reveal_strlit("C");
    reveal_strlit("C#");
    reveal_strlit("Db");
    reveal_strlit("D");
    reveal_strlit("D#");
    reveal_strlit("Eb");
    reveal_strlit("E");
    reveal_strlit("F");
    reveal_strlit("F#");
    reveal_strlit("Gb");
    reveal_strlit("G");
    reveal_strlit("G#");
    reveal_strlit("Ab");
    reveal_strlit("A");
    reveal_strlit("A#");
    reveal_strlit("Bb");
    reveal_strlit("B");
    lemma_spelling_reads(spec_name(v));
    lemma_spelling_reads(spec_alt_name(v));
    lemma_spelling_reads(spec_sharp_name(v));
    lemma_spelling_reads(spec_flat_name(v));
}


/// Lower-casing keeps the value of a note letter.
proof fn lemma_letter_lower(c: char)
    ensures
        letter_value(ascii_lower(c)) == letter_value(c),
{
}

/// Lower-casing keeps the shift that an accidental denotes.
proof fn lemma_accidental_lower(rest: Seq<char>)
    ensures
        accidental_value(rest.map_values(|c: char| ascii_lower(c))) == accidental_value(rest),
{
    let l = rest.map_values(|c: char| ascii_lower(c));
    if rest.len() >= 1 {
        assert(l[0] == ascii_lower(rest[0]));
    }
    if rest.len() >= 2 {
        assert(l[1] == ascii_lower(rest[1]));
    }
}

/// Reading a note name ignores ASCII case: a name reads as its lower-case
/// form does.
pub proof fn law_name_case_insensitive(s: Seq<char>)
    ensures
        spec_pitch_class_from_name(s) == spec_pitch_class_from_name(s.map_values(|c: char| ascii_lower(c))),
{
    let t = trim(s);
    lemma_trim_lower(s);
    let tl = t.map_values(|c: char| ascii_lower(c));
    if t.len() > 0 {
        assert(tl[0] == ascii_lower(t[0]));
        lemma_letter_lower(t[0]);
        assert(tl.drop_first() =~= t.drop_first().map_values(|c: char| ascii_lower(c)));
        lemma_accidental_lower(t.drop_first());
    }
}

/// Two names equal up to ASCII case (such as a name and its upper-case
/// form) read as the same pitch class, or both as none.
pub proof fn law_names_equal_up_to_case_read_alike(a: Seq<char>, b: Seq<char>)
    requires
        eq_ignore_ascii_case(a, b),
    ensures
        spec_pitch_class_from_name(a) == spec_pitch_class_from_name(b),
{
    law_name_case_insensitive(a);
    law_name_case_insensitive(b);
    assert(a.map_values(|c: char| ascii_lower(c)) =~= b.map_values(|c: char| ascii_lower(c)));
}


/// Whether some note letter names pitch class `v` on its own.
pub open spec fn letter_names(v: int) -> bool {
    exists|c: char| #[trigger] letter_value(c) == Some(v)
}

/// The spellings that prefer sharps or flats use the letter alone for a
/// pitch class that a letter names, and otherwise a letter followed by `#`
/// (the sharp-preferring one) or `b` (the flat-preferring one): the letter a
/// semitone below, or above, the pitch class.
pub proof fn law_sharp_and_flat_spellings(v: u8)
    requires
        v < 12,
    ensures
        spec_sharp_name(v).len() == 1 <==> letter_names(v as int),
        spec_sharp_name(v).len() == 1 ==> letter_value(spec_sharp_name(v)[0]) == Some(v as int),
        spec_sharp_name(v).len() == 2 ==> spec_sharp_name(v)[1] == '#' && letter_value(
            spec_sharp_name(v)[0],
        ) == Some((v - 1) % 12),
        spec_flat_name(v).len() == 1 <==> letter_names(v as int),
        spec_flat_name(v).len() == 1 ==> letter_value(spec_flat_name(v)[0]) == Some(v as int),
        spec_flat_name(v).len() == 2 ==> spec_flat_name(v)[1] == 'b' && letter_value(
            spec_flat_name(v)[0],
        ) == Some((v + 1) % 12),
        spec_sharp_name(v).len() == 1 || spec_sharp_name(v).len() == 2,
        spec_flat_name(v).len() == 1 || spec_flat_name(v).len() == 2,
{
    reveal_strlit("C");
    reveal_strlit("C#");
    reveal_strlit("Db");
    reveal_strlit("D");
    reveal_strlit("D#");
    reveal_strlit("Eb");
    reveal_strlit("E");
    reveal_strlit("F");
    reveal_strlit("F#");
    reveal_strlit("Gb");
    reveal_strlit("G");
    reveal_strlit("G#");
    reveal_strlit("Ab");
    reveal_strlit("A");
    reveal_strlit("A#");
    reveal_strlit("Bb");
    reveal_strlit("B");
    if v == 0 || v == 2 || v == 4 || v == 5 || v == 7 || v == 9 || v == 11 {
        let c = spec_sharp_name(v)[0];
        assert(letter_value(c) == Some(v as int));
    }
}

/// A sharp (`#` or the sharp sign) after a note letter raises the letter's
/// pitch class by a semitone, two sharps by two; a flat (`b` in either case,
/// or the flat sign) lowers it likewise.
pub proof fn law_accidentals_shift(l: char, a: char)
    requires
        letter_value(l) is Some,
    ensures
        spec_pitch_class_from_name(seq![l]) == Some((letter_value(l)->0 % 12) as u8),
        a == '#' || a == sharp_sign() ==> spec_pitch_class_from_name(seq![l, a]) == Some(
            ((letter_value(l)->0 + 1) % 12) as u8,
        ) && spec_pitch_class_from_name(seq![l, a, a]) == Some(((letter_value(l)->0 + 2) % 12) as u8),
        a == 'b' || a == 'B' || a == flat_sign() ==> spec_pitch_class_from_name(seq![l, a]) == Some(
            ((letter_value(l)->0 - 1) % 12) as u8,
        ) && spec_pitch_class_from_name(seq![l, a, a]) == Some(((letter_value(l)->0 - 2) % 12) as u8),
{
    let s1 = seq![l];
    lemma_trim_plain(s1);
    assert(s1.drop_first().len() == 0);
    if a == '#' || a == sharp_sign() || a == 'b' || a == 'B' || a == flat_sign() {
        let s2 = seq![l, a];
        let s3 = seq![l, a, a];
        lemma_trim_plain(s2);
        lemma_trim_plain(s3);
        assert(s2.drop_first() =~= seq![a]);
        assert(s3.drop_first() =~= seq![a, a]);
    }
}

} // verus!
