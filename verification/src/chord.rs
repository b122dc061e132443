//! Chord qualities and chord identification from fret positions.
use std::collections::BTreeSet;
use vstd::prelude::*;

use crate::fretboard::{
    MAX_FRET, fret_shift_ok, is_played, lemma_played_midis, midi_at, midis_between, no_midi_overflow,
    played_midis, shifted_fret, shifted_frets, shifted_strings, string_shift_ok,
    law_string_shift_keeps_pitches,
};
use vstd::arithmetic::div_mod::{
    lemma_add_mod_noop_right, lemma_mod_equivalence, lemma_sub_mod_noop, lemma_sub_mod_noop_right,
};
use crate::interval::Interval;
use crate::note::{PitchClass, pitch_values, spec_name};

verus! {

// ---------------------------------------------------------------------------
// Chord quality database
// ---------------------------------------------------------------------------

/// A chord quality defined by its interval pattern (semitones from root).
#[derive(Debug, Clone, Copy, PartialEq, Eq)]
pub struct ChordQuality {
    pub symbol: &'static str,
    pub name: &'static str,
    pub intervals: &'static [u8],
}

impl View for ChordQuality {
    type V = (Seq<char>, Seq<char>, Seq<u8>);

    open spec fn view(&self) -> (Seq<char>, Seq<char>, Seq<u8>) {
        (self.symbol@, self.name@, self.intervals@)
    }
}

/// Number of recognized chord qualities.
pub const QUALITY_COUNT: usize = 31;

/// The database of recognized chord qualities: symbol, name and intervals of
/// entry `q`. Ordered roughly from simplest to most complex so that earlier
/// entries win ties.
pub open spec fn quality_table(q: int) -> (Seq<char>, Seq<char>, Seq<u8>) {
    if q == 0 {
        (""@, "major"@, seq![0u8, 4, 7])
    } else if q == 1 {
        ("m"@, "minor"@, seq![0u8, 3, 7])
    } else if q == 2 {
        ("dim"@, "diminished"@, seq![0u8, 3, 6])
    } else if q == 3 {
        ("aug"@, "augmented"@, seq![0u8, 4, 8])
    } else if q == 4 {
        ("sus2"@, "suspended 2nd"@, seq![0u8, 2, 7])
    } else if q == 5 {
        ("sus4"@, "suspended 4th"@, seq![0u8, 5, 7])
    } else if q == 6 {
        ("5"@, "power chord"@, seq![0u8, 7])
    } else if q == 7 {
        ("7"@, "dominant 7th"@, seq![0u8, 4, 7, 10])
    } else if q == 8 {
        ("maj7"@, "major 7th"@, seq![0u8, 4, 7, 11])
    } else if q == 9 {
        ("m7"@, "minor 7th"@, seq![0u8, 3, 7, 10])
    } else if q == 10 {
        ("dim7"@, "diminished 7th"@, seq![0u8, 3, 6, 9])
    } else if q == 11 {
        ("m7b5"@, "half-diminished 7th"@, seq![0u8, 3, 6, 10])
    } else if q == 12 {
        ("aug7"@, "augmented 7th"@, seq![0u8, 4, 8, 10])
    } else if q == 13 {
        ("mMaj7"@, "minor-major 7th"@, seq![0u8, 3, 7, 11])
    } else if q == 14 {
        ("6"@, "major 6th"@, seq![0u8, 4, 7, 9])
    } else if q == 15 {
        ("m6"@, "minor 6th"@, seq![0u8, 3, 7, 9])
    } else if q == 16 {
        ("7sus4"@, "dominant 7th sus4"@, seq![0u8, 5, 7, 10])
    } else if q == 17 {
        ("9"@, "dominant 9th"@, seq![0u8, 4, 7, 10, 14])
    } else if q == 18 {
        ("maj9"@, "major 9th"@, seq![0u8, 4, 7, 11, 14])
    } else if q == 19 {
        ("m9"@, "minor 9th"@, seq![0u8, 3, 7, 10, 14])
    } else if q == 20 {
        ("add9"@, "added 9th"@, seq![0u8, 4, 7, 14])
    } else if q == 21 {
        ("madd9"@, "minor added 9th"@, seq![0u8, 3, 7, 14])
    } else if q == 22 {
        ("11"@, "dominant 11th"@, seq![0u8, 4, 7, 10, 14, 17])
    } else if q == 23 {
        ("m11"@, "minor 11th"@, seq![0u8, 3, 7, 10, 14, 17])
    } else if q == 24 {
        ("13"@, "dominant 13th"@, seq![0u8, 4, 7, 10, 14, 21])
    } else if q == 25 {
        ("7#9"@, "7th sharp 9"@, seq![0u8, 4, 7, 10, 15])
    } else if q == 26 {
        ("7b9"@, "7th flat 9"@, seq![0u8, 4, 7, 10, 13])
    } else if q == 27 {
        ("7#5"@, "7th sharp 5"@, seq![0u8, 4, 8, 10])
    } else if q == 28 {
        ("7b5"@, "7th flat 5"@, seq![0u8, 4, 6, 10])
    } else if q == 29 {
        ("6/9"@, "6/9"@, seq![0u8, 4, 7, 9, 14])
    } else {
        ("add11"@, "added 11th"@, seq![0u8, 4, 7, 17])
    }
}

/// The intervals of quality `q`, in semitones from the root.
pub open spec fn quality_intervals(q: int) -> Seq<u8> {
    quality_table(q).2
}

/// Whether some interval of `s` reduces to `k` within one octave.
pub open spec fn has_interval_class(s: Seq<u8>, k: int) -> bool {
    exists|j: int| 0 <= j < s.len() && #[trigger] s[j] % 12 == k
}

/// Which of the twelve interval classes quality `q` contains.
pub open spec fn quality_mask(q: int) -> Seq<bool> {
    Seq::new(12, |k: int| has_interval_class(quality_intervals(q), k))
}

// ---------------------------------------------------------------------------
// The notes that a fingering plays
// ---------------------------------------------------------------------------

/// The number of played strings among the first `n`.
pub open spec fn played_count(f: Seq<i8>, n: int) -> int
    decreases n,
{
    if n <= 0 {
        0
    } else {
        played_count(f, n - 1) + if f[n - 1] >= 0 {
            1int
        } else {
            0int
        }
    }
}

/// Whether some played string sounds pitch class `p`.
pub open spec fn plays_pitch(f: Seq<i8>, t: Seq<u8>, p: int) -> bool {
    exists|i: int| 0 <= i < 6 && is_played(f, i) && #[trigger] midi_at(f, t, i) % 12 == p
}

/// The lowest MIDI note of pitch class `p` among the first `n` strings
/// (1000 when none of them plays it).
pub open spec fn lowest_of_pitch(f: Seq<i8>, t: Seq<u8>, p: int, n: int) -> int
    decreases n,
{
    if n <= 0 {
        1000
    } else {
        let prev = lowest_of_pitch(f, t, p, n - 1);
        if is_played(f, n - 1) && midi_at(f, t, n - 1) % 12 == p && midi_at(f, t, n - 1) < prev {
            midi_at(f, t, n - 1)
        } else {
            prev
        }
    }
}

/// The lowest MIDI note at which pitch class `p` is played.
pub open spec fn lowest_midi(f: Seq<i8>, t: Seq<u8>, p: int) -> int {
    lowest_of_pitch(f, t, p, 6)
}

/// The lowest MIDI note among the first `n` strings (1000 when none plays).
pub open spec fn lowest_note_of(f: Seq<i8>, t: Seq<u8>, n: int) -> int
    decreases n,
{
    if n <= 0 {
        1000
    } else {
        let prev = lowest_note_of(f, t, n - 1);
        if is_played(f, n - 1) && midi_at(f, t, n - 1) < prev {
            midi_at(f, t, n - 1)
        } else {
            prev
        }
    }
}

/// The bass: pitch class of the lowest note played.
pub open spec fn bass_pitch(f: Seq<i8>, t: Seq<u8>) -> int {
    lowest_note_of(f, t, 6) % 12
}

/// `u` lists each pitch class played exactly once, ordered low to high by
/// the lowest note at which it sounds.
pub open spec fn is_pitch_order(f: Seq<i8>, t: Seq<u8>, u: Seq<int>) -> bool {
    &&& forall|a: int, b: int|
        0 <= a < b < u.len() ==> lowest_midi(f, t, #[trigger] u[a]) < lowest_midi(
            f,
            t,
            #[trigger] u[b],
        )
    &&& forall|a: int| 0 <= a < u.len() ==> plays_pitch(f, t, #[trigger] u[a])
    &&& forall|p: int| plays_pitch(f, t, p) ==> u.contains(p)
}

// ---------------------------------------------------------------------------
// Candidates and their scores
// ---------------------------------------------------------------------------

/// Whether a played note lies `k` semitones (mod 12) above root `p`.
pub open spec fn chord_has(f: Seq<i8>, t: Seq<u8>, p: int, k: int) -> bool {
    exists|i: int| 0 <= i < 6 && is_played(f, i) && (#[trigger] midi_at(f, t, i) - p) % 12 == k
}

/// Which of the twelve interval classes the played notes form above root `p`.
pub open spec fn chord_mask(f: Seq<i8>, t: Seq<u8>, p: int) -> Seq<bool> {
    Seq::new(12, |k: int| chord_has(f, t, p, k))
}

/// Penalty for leaving out interval class `k` of a quality.
pub open spec fn missing_weight(k: int) -> int {
    if k == 0 {
        50
    } else if k == 3 || k == 4 {
        40
    } else if k == 6 || k == 7 || k == 8 {
        10
    } else {
        20
    }
}

/// Sum of the penalties of the interval classes below `n` that the quality
/// has and the chord lacks.
pub open spec fn missing_penalty(chord: Seq<bool>, quality: Seq<bool>, n: int) -> int
    decreases n,
{
    if n <= 0 {
        0
    } else {
        missing_penalty(chord, quality, n - 1) + if quality[n - 1] && !chord[n - 1] {
            missing_weight(n - 1)
        } else {
            0
        }
    }
}

/// Bonus for simple qualities: triads and dyads, then 7th chords.
pub open spec fn size_bonus(note_count: int) -> int {
    if note_count <= 3 {
        -3
    } else if note_count == 4 {
        -1
    } else {
        0
    }
}

/// Root `p` with quality `q` explains the played notes: `p` is played and
/// every interval class present above it belongs to the quality.
pub open spec fn fits(f: Seq<i8>, t: Seq<u8>, p: int, q: int) -> bool {
    &&& plays_pitch(f, t, p)
    &&& 0 <= q < QUALITY_COUNT
    &&& forall|k: int| 0 <= k < 12 ==> (#[trigger] chord_mask(f, t, p)[k] ==> quality_mask(q)[k])
}

/// The score of root `p` with quality `q` (lower is better).
pub open spec fn chord_score(f: Seq<i8>, t: Seq<u8>, p: int, q: int) -> int {
    missing_penalty(chord_mask(f, t, p), quality_mask(q), 12) + (if p != bass_pitch(f, t) {
        15int
    } else {
        -5int
    }) + size_bonus(quality_intervals(q).len() as int)
}

/// Candidate `(p1, q1)` ranks no lower than `(p2, q2)`: a lower score wins,
/// then the root whose lowest note is lower, then the earlier quality.
pub open spec fn ranks_before(f: Seq<i8>, t: Seq<u8>, p1: int, q1: int, p2: int, q2: int) -> bool {
    let s1 = chord_score(f, t, p1, q1);
    let s2 = chord_score(f, t, p2, q2);
    ||| s1 < s2
    ||| s1 == s2 && lowest_midi(f, t, p1) < lowest_midi(f, t, p2)
    ||| s1 == s2 && p1 == p2 && q1 <= q2
}

/// `(p, q)` is the best-ranked candidate whose root is not in `ex`.
pub open spec fn is_best(f: Seq<i8>, t: Seq<u8>, ex: Set<int>, p: int, q: int) -> bool {
    &&& fits(f, t, p, q)
    &&& !ex.contains(p)
    &&& forall|p2: int, q2: int|
        #[trigger] fits(f, t, p2, q2) && !ex.contains(p2) ==> ranks_before(f, t, p, q, p2, q2)
}

/// Some candidate has its root outside `ex`.
pub open spec fn some_fit(f: Seq<i8>, t: Seq<u8>, ex: Set<int>) -> bool {
    exists|p: int, q: int| #[trigger] fits(f, t, p, q) && !ex.contains(p)
}


// ---------------------------------------------------------------------------
// Facts about the lowest notes
// ---------------------------------------------------------------------------

proof fn lemma_lowest_of_pitch(f: Seq<i8>, t: Seq<u8>, p: int, n: int)
    requires
        0 <= n <= 6,
        f.len() == 6,
        t.len() == 6,
    ensures
        forall|i: int|
            0 <= i < n && is_played(f, i) && #[trigger] midi_at(f, t, i) % 12 == p
                ==> lowest_of_pitch(f, t, p, n) <= midi_at(f, t, i),
        lowest_of_pitch(f, t, p, n) == 1000 || exists|i: int|
            0 <= i < n && is_played(f, i) && #[trigger] midi_at(f, t, i) % 12 == p && midi_at(
                f,
                t,
                i,
            ) == lowest_of_pitch(f, t, p, n),
        lowest_of_pitch(f, t, p, n) <= 1000,
    decreases n,
{
    if n > 0 {
        lemma_lowest_of_pitch(f, t, p, n - 1);
    }
}

proof fn lemma_lowest_note_of(f: Seq<i8>, t: Seq<u8>, n: int)
    requires
        0 <= n <= 6,
        f.len() == 6,
        t.len() == 6,
    ensures
        forall|i: int|
            0 <= i < n && is_played(f, i) ==> lowest_note_of(f, t, n) <= #[trigger] midi_at(
                f,
                t,
                i,
            ),
        lowest_note_of(f, t, n) == 1000 || exists|i: int|
            0 <= i < n && is_played(f, i) && #[trigger] midi_at(f, t, i) == lowest_note_of(
                f,
                t,
                n,
            ),
    decreases n,
{
    if n > 0 {
        lemma_lowest_note_of(f, t, n - 1);
    }
}

/// A played pitch class sounds at its lowest note, which is one of the
/// played notes.
proof fn lemma_lowest_midi(f: Seq<i8>, t: Seq<u8>, p: int)
    requires
        f.len() == 6,
        t.len() == 6,
        no_midi_overflow(f, t),
    ensures
        plays_pitch(f, t, p) <==> lowest_midi(f, t, p) <= 255,
        lowest_midi(f, t, p) <= 255 ==> lowest_midi(f, t, p) % 12 == p,
        lowest_midi(f, t, p) <= 255 ==> lowest_midi(f, t, p) >= 0,
        forall|i: int|
            0 <= i < 6 && is_played(f, i) && #[trigger] midi_at(f, t, i) % 12 == p
                ==> lowest_midi(f, t, p) <= midi_at(f, t, i),
        lowest_midi(f, t, p) > 255 ==> lowest_midi(f, t, p) == 1000,
{
    lemma_lowest_of_pitch(f, t, p, 6);
    if plays_pitch(f, t, p) {
        let i = choose|i: int|
            0 <= i < 6 && is_played(f, i) && #[trigger] midi_at(f, t, i) % 12 == p;
        assert(midi_at(f, t, i) <= 255);
    }
    if lowest_midi(f, t, p) != 1000 {
        let i = choose|i: int|
            0 <= i < 6 && is_played(f, i) && #[trigger] midi_at(f, t, i) % 12 == p && midi_at(
                f,
                t,
                i,
            ) == lowest_of_pitch(f, t, p, 6);
        assert(midi_at(f, t, i) <= 255);
        assert(plays_pitch(f, t, p));
    }
}

// ---------------------------------------------------------------------------
// Steps of the identification
// ---------------------------------------------------------------------------

fn count_played(frets: &[i8; 6]) -> (c: usize)
    ensures
        c == played_count(frets@, 6),
{
    let mut c: usize = 0;
    let mut i: usize = 0;
    while i < 6
        invariant
            i <= 6,
            c <= i,
            c == played_count(frets@, i as int),
        decreases 6 - i,
    {
        if frets[i] >= 0 {
            c = c + 1;
        }
        i = i + 1;
    }
    c
}

fn midi_of(frets: &[i8; 6], tuning: &[u8; 6], i: usize) -> (m: u16)
    requires
        i < 6,
        frets@[i as int] >= 0,
    ensures
        m == midi_at(frets@, tuning@, i as int),
{
    tuning[i] as u16 + frets[i] as u16
}

fn lowest_note(frets: &[i8; 6], tuning: &[u8; 6]) -> (m: u16)
    ensures
        m == lowest_note_of(frets@, tuning@, 6),
{
    let mut m: u16 = 1000;
    let mut i: usize = 0;
    while i < 6
        invariant
            i <= 6,
            m == lowest_note_of(frets@, tuning@, i as int),
        decreases 6 - i,
    {
        if frets[i] >= 0 {
            let x = midi_of(frets, tuning, i);
            if x < m {
                m = x;
            }
        }
        i = i + 1;
    }
    m
}

/// Whether some played string sounds MIDI note `m`.
fn sounds_midi(frets: &[i8; 6], tuning: &[u8; 6], m: u16) -> (b: bool)
    ensures
        b == sounds(frets@, tuning@, m as int),
{
    let mut i: usize = 0;
    while i < 6
        invariant
            i <= 6,
            forall|j: int| 0 <= j < i && is_played(frets@, j) ==> #[trigger] midi_at(frets@, tuning@, j) != m,
        decreases 6 - i,
    {
        if frets[i] >= 0 {
            if midi_of(frets, tuning, i) == m {
                return true;
            }
        }
        i = i + 1;
    }
    false
}

/// The played pitch classes, each once, ordered by their lowest note.
fn pitch_order(frets: &[i8; 6], tuning: &[u8; 6]) -> (u: Vec<PitchClass>)
    requires
        no_midi_overflow(frets@, tuning@),
    ensures
        is_pitch_order(frets@, tuning@, pitch_values(u@)),
        forall|a: int| 0 <= a < u.len() ==> 0 <= #[trigger] pitch_values(u@)[a] < 12,
{
    let ghost f = frets@;
    let ghost t = tuning@;
    let mut seen: Vec<bool> = Vec::new();
    let mut k: usize = 0;
    while k < 12
        invariant
            k <= 12,
            seen@.len() == k,
            forall|j: int| 0 <= j < k ==> !seen@[j],
        decreases 12 - k,
    {
        seen.push(false);
        k = k + 1;
    }
    let mut u: Vec<PitchClass> = Vec::new();
    let mut m: u16 = 0;
    proof {
        assert forall|p: int| 0 <= p < 12 implies lowest_midi(f, t, p) >= 0 by {
            lemma_lowest_midi(f, t, p);
        }
    }
    while m < 256
        invariant
            f == frets@,
            t == tuning@,
            no_midi_overflow(f, t),
            m <= 256,
            seen@.len() == 12,
            forall|p: int| 0 <= p < 12 ==> (#[trigger] seen@[p] <==> lowest_midi(f, t, p) < m),
            forall|a: int, b: int|
                0 <= a < b < u.len() ==> lowest_midi(f, t, #[trigger] pitch_values(u@)[a])
                    < lowest_midi(f, t, #[trigger] pitch_values(u@)[b]),
            forall|a: int|
                0 <= a < u.len() ==> 0 <= #[trigger] pitch_values(u@)[a] < 12 && lowest_midi(
                    f,
                    t,
                    pitch_values(u@)[a],
                ) < m,
            forall|p: int| 0 <= p < 12 && lowest_midi(f, t, p) < m ==> pitch_values(u@).contains(p),
        decreases 256 - m,
    {
        let pc = (m % 12) as usize;
        proof {
            assert forall|p: int| 0 <= p < 12 && p != pc implies lowest_midi(f, t, p) != m by {
                lemma_lowest_midi(f, t, p);
            }
            lemma_lowest_midi(f, t, pc as int);
        }
        if !seen[pc] {
            let found = sounds_midi(frets, tuning, m);
            if found {
                let ghost old_u = pitch_values(u@);
                let x = PitchClass::new(pc as u8);
                u.push(x);
                seen.set(pc, true);
                proof {
                    let i = choose|i: int|
                        0 <= i < 6 && is_played(f, i) && #[trigger] midi_at(f, t, i) == m;
                    assert(midi_at(f, t, i) % 12 == pc);
                    assert(lowest_midi(f, t, pc as int) == m);
                    assert(pitch_values(u@) =~= old_u.push(pc as int));
                    assert forall|p: int|
                        0 <= p < 12 && lowest_midi(f, t, p) < m + 1 implies pitch_values(
                        u@,
                    ).contains(p) by {
                        if p == pc {
                            assert(pitch_values(u@)[old_u.len() as int] == p);
                        } else {
                            assert(old_u.contains(p));
                            let a = choose|a: int| 0 <= a < old_u.len() && old_u[a] == p;
                            assert(pitch_values(u@)[a] == p);
                        }
                    }
                }
            } else {
                proof {
                    if lowest_midi(f, t, pc as int) == m {
                        lemma_lowest_of_pitch(f, t, pc as int, 6);
                        let i = choose|i: int|
                            0 <= i < 6 && is_played(f, i) && #[trigger] midi_at(f, t, i) % 12
                                == pc && midi_at(f, t, i) == lowest_of_pitch(f, t, pc as int, 6);
                        assert(midi_at(f, t, i) == m);
                    }
                }
            }
        }
        m = m + 1;
    }
    proof {
        assert forall|p: int| plays_pitch(f, t, p) implies pitch_values(u@).contains(p) by {
            lemma_lowest_midi(f, t, p);
            let i = choose|i: int| 0 <= i < 6 && is_played(f, i) && #[trigger] midi_at(f, t, i) % 12 == p;
            assert(0 <= p < 12);
        }
        assert forall|a: int| 0 <= a < u.len() implies plays_pitch(f, t, #[trigger] pitch_values(u@)[a]) by {
            lemma_lowest_midi(f, t, pitch_values(u@)[a]);
        }
    }
    u
}

// ---------------------------------------------------------------------------
// Result types
// ---------------------------------------------------------------------------

/// One interpretation of the played notes: a root with a chord quality.
#[derive(Debug, Clone, Copy)]
pub struct ChordMatch {
    pub root: PitchClass,
    pub quality: ChordQuality,
    pub bass: PitchClass,
    pub is_inversion: bool,
    pub score: i32,
}

/// Display name of a match: root and symbol, then `/bass` for an inversion.
pub open spec fn spec_display_name(root: u8, symbol: Seq<char>, bass: u8, is_inversion: bool) -> Seq<char> {
    if is_inversion {
        spec_name(root) + symbol + "/"@ + spec_name(bass)
    } else {
        spec_name(root) + symbol
    }
}

impl ChordMatch {
    /// Build the display name: root + symbol, optionally with /bass.
    pub fn display_name(&self) -> (s: String)
        ensures
            s@ == spec_display_name(self.root@, self.quality.symbol@, self.bass@, self.is_inversion),
    {
        let mut s = String::from_str(self.root.name());
        s.append(self.quality.symbol);
        if self.is_inversion {
            s.append("/");
            s.append(self.bass.name());
        }
        s
    }
}

/// The identification of a fingering: the best match, up to two alternatives
/// with other roots, the notes played and their intervals.
#[derive(Debug, Clone)]
pub struct ChordResult {
    pub primary: ChordMatch,
    pub alternatives: Vec<ChordMatch>,
    pub notes_played: Vec<PitchClass>,
    pub intervals_from_root: Vec<(PitchClass, Interval)>,
    pub intervals_from_bass: Vec<(PitchClass, Interval)>,
}

impl ChordResult {
    /// Convenience: the display name of the primary match.
    pub fn name(&self) -> (s: String)
        ensures
            s@ == spec_display_name(
                self.primary.root@,
                self.primary.quality.symbol@,
                self.primary.bass@,
                self.primary.is_inversion,
            ),
    {
        self.primary.display_name()
    }
}

/// Match `m` is root `p` with quality `q`, over the bass of the fingering.
pub open spec fn describes(f: Seq<i8>, t: Seq<u8>, m: ChordMatch, p: int, q: int) -> bool {
    &&& m.root@ == p
    &&& m.quality@ == quality_table(q)
    &&& m.bass@ == bass_pitch(f, t)
    &&& m.is_inversion == (p != bass_pitch(f, t))
    &&& m.score == chord_score(f, t, p, q)
}

/// Match `m` is the best-ranked candidate whose root is not in `ex`.
pub open spec fn is_choice(f: Seq<i8>, t: Seq<u8>, ex: Set<int>, m: ChordMatch) -> bool {
    exists|p: int, q: int| #[trigger] is_best(f, t, ex, p, q) && describes(f, t, m, p, q)
}

/// `s` pairs each pitch class of `u`, in order, with its interval above `from`.
pub open spec fn intervals_above(s: Seq<(PitchClass, Interval)>, u: Seq<int>, from: int) -> bool {
    &&& s.len() == u.len()
    &&& forall|i: int|
        0 <= i < s.len() ==> (#[trigger] s[i]).0@ == u[i] && s[i].1.semitones == (u[i] - from)
            % 12
}

/// `c` is what identifying fingering `f` in tuning `t` gives.
pub open spec fn identified(f: Seq<i8>, t: Seq<u8>, c: ChordResult) -> bool {
    let u = pitch_values(c.notes_played@);
    let ex1 = Set::<int>::empty().insert(c.primary.root@ as int);
    let alts = c.alternatives@;
    &&& is_pitch_order(f, t, u)
    &&& is_choice(f, t, Set::empty(), c.primary)
    &&& alts.len() <= 2
    &&& (alts.len() >= 1 <==> some_fit(f, t, ex1))
    &&& (alts.len() >= 1 ==> is_choice(f, t, ex1, alts[0]))
    &&& (alts.len() == 2 <==> (alts.len() >= 1 && some_fit(f, t, ex1.insert(alts[0].root@ as int))))
    &&& (alts.len() == 2 ==> is_choice(f, t, ex1.insert(alts[0].root@ as int), alts[1]))
    &&& intervals_above(c.intervals_from_root@, u, c.primary.root@ as int)
    &&& intervals_above(c.intervals_from_bass@, u, bass_pitch(f, t))
}

/// The fingering names no chord: fewer than two strings play, or no quality
/// fits any played root.
pub open spec fn no_chord(f: Seq<i8>, t: Seq<u8>) -> bool {
    played_count(f, 6) < 2 || !some_fit(f, t, Set::empty())
}

/// The best quality for one root, with its score.
pub open spec fn root_best(f: Seq<i8>, t: Seq<u8>, p: int, b: Option<(usize, i32)>) -> bool {
    match b {
        None => forall|q: int| !#[trigger] fits(f, t, p, q),
        Some((q, s)) => {
            &&& fits(f, t, p, q as int)
            &&& s == chord_score(f, t, p, q as int)
            &&& forall|q2: int|
                #[trigger] fits(f, t, p, q2) ==> s < chord_score(f, t, p, q2) || (s
                    == chord_score(f, t, p, q2) && q <= q2)
        },
    }
}

/// The score recorded for one root (0 when the root has no candidate).
pub open spec fn best_score(b: Option<(usize, i32)>) -> i32 {
    match b {
        Some((_, s)) => s,
        None => 0,
    }
}

/// The roots that a selection leaves out.
pub open spec fn root_set(a: Option<u8>, b: Option<u8>) -> Set<int> {
    Set::new(|x: int| (a matches Some(v) && v as int == x) || (b matches Some(v) && v as int == x))
}

// ---------------------------------------------------------------------------
// Quality lookup
// ---------------------------------------------------------------------------

impl ChordQuality {
    /// Number of notes in the quality.
    pub fn note_count(&self) -> (n: usize)
        ensures
            n == self.intervals@.len(),
    {
        self.intervals.len()
    }

    /// The quality's intervals reduced mod 12, as a set.
    fn interval_set_mod12(&self) -> (set: BTreeSet<u8>)
        ensures
            set@ == interval_classes(self.intervals@),
    {
        broadcast use vstd::laws_cmp::group_laws_cmp;

        let mut set: BTreeSet<u8> = BTreeSet::new();
        let n = self.intervals.len();
        let mut j: usize = 0;
        let ghost mut gj: int = 0;
        while j < n
            invariant
                n == self.intervals@.len(),
                j <= n,
                gj == j,
                set@ == Set::new(|k: u8| exists|a: int| 0 <= a < j && #[trigger] self.intervals@[a] % 12 == k),
            decreases n - j,
        {
            let c = self.intervals[j] % 12;
            set.insert(c);
            assert(self.intervals@[gj] % 12 == c);
            assert(set@ =~= Set::new(|k: u8| exists|a: int| 0 <= a < j + 1 && #[trigger] self.intervals@[a] % 12 == k));
            j = j + 1;
            proof {
                gj = gj + 1;
            }
        }
        assert(set@ =~= interval_classes(self.intervals@));
        set
    }
}

/// Entry `index` of the quality database.
fn chord_quality(index: usize) -> (q: ChordQuality)
    requires
        index < QUALITY_COUNT,
    ensures
        q@ == quality_table(index as int),
{
    match index {
        0 => ChordQuality { symbol: "", name: "major", intervals: &[0, 4, 7] },
        1 => ChordQuality { symbol: "m", name: "minor", intervals: &[0, 3, 7] },
        2 => ChordQuality { symbol: "dim", name: "diminished", intervals: &[0, 3, 6] },
        3 => ChordQuality { symbol: "aug", name: "augmented", intervals: &[0, 4, 8] },
        4 => ChordQuality { symbol: "sus2", name: "suspended 2nd", intervals: &[0, 2, 7] },
        5 => ChordQuality { symbol: "sus4", name: "suspended 4th", intervals: &[0, 5, 7] },
        6 => ChordQuality { symbol: "5", name: "power chord", intervals: &[0, 7] },
        7 => ChordQuality { symbol: "7", name: "dominant 7th", intervals: &[0, 4, 7, 10] },
        8 => ChordQuality { symbol: "maj7", name: "major 7th", intervals: &[0, 4, 7, 11] },
        9 => ChordQuality { symbol: "m7", name: "minor 7th", intervals: &[0, 3, 7, 10] },
        10 => ChordQuality { symbol: "dim7", name: "diminished 7th", intervals: &[0, 3, 6, 9] },
        11 => ChordQuality { symbol: "m7b5", name: "half-diminished 7th", intervals: &[0, 3, 6, 10] },
        12 => ChordQuality { symbol: "aug7", name: "augmented 7th", intervals: &[0, 4, 8, 10] },
        13 => ChordQuality { symbol: "mMaj7", name: "minor-major 7th", intervals: &[0, 3, 7, 11] },
        14 => ChordQuality { symbol: "6", name: "major 6th", intervals: &[0, 4, 7, 9] },
        15 => ChordQuality { symbol: "m6", name: "minor 6th", intervals: &[0, 3, 7, 9] },
        16 => ChordQuality { symbol: "7sus4", name: "dominant 7th sus4", intervals: &[0, 5, 7, 10] },
        17 => ChordQuality { symbol: "9", name: "dominant 9th", intervals: &[0, 4, 7, 10, 14] },
        18 => ChordQuality { symbol: "maj9", name: "major 9th", intervals: &[0, 4, 7, 11, 14] },
        19 => ChordQuality { symbol: "m9", name: "minor 9th", intervals: &[0, 3, 7, 10, 14] },
        20 => ChordQuality { symbol: "add9", name: "added 9th", intervals: &[0, 4, 7, 14] },
        21 => ChordQuality { symbol: "madd9", name: "minor added 9th", intervals: &[0, 3, 7, 14] },
        22 => ChordQuality { symbol: "11", name: "dominant 11th", intervals: &[0, 4, 7, 10, 14, 17] },
        23 => ChordQuality { symbol: "m11", name: "minor 11th", intervals: &[0, 3, 7, 10, 14, 17] },
        24 => ChordQuality { symbol: "13", name: "dominant 13th", intervals: &[0, 4, 7, 10, 14, 21] },
        25 => ChordQuality { symbol: "7#9", name: "7th sharp 9", intervals: &[0, 4, 7, 10, 15] },
        26 => ChordQuality { symbol: "7b9", name: "7th flat 9", intervals: &[0, 4, 7, 10, 13] },
        27 => ChordQuality { symbol: "7#5", name: "7th sharp 5", intervals: &[0, 4, 8, 10] },
        28 => ChordQuality { symbol: "7b5", name: "7th flat 5", intervals: &[0, 4, 6, 10] },
        29 => ChordQuality { symbol: "6/9", name: "6/9", intervals: &[0, 4, 7, 9, 14] },
        _ => ChordQuality { symbol: "add11", name: "added 11th", intervals: &[0, 4, 7, 17] },
    }
}

proof fn lemma_mod12_of_difference(x: int, r: int)
    requires
        0 <= r < 12,
    ensures
        ((x % 12) - r) % 12 == (x - r) % 12,
{
    lemma_sub_mod_noop(x, r, 12);
}

/// The interval classes that the played notes form above `root`.
fn chord_mask_of(frets: &[i8; 6], tuning: &[u8; 6], u: &Vec<PitchClass>, root: u8) -> (mask: Vec<bool>)
    requires
        is_pitch_order(frets@, tuning@, pitch_values(u@)),
        forall|a: int| 0 <= a < u.len() ==> 0 <= #[trigger] pitch_values(u@)[a] < 12,
        root < 12,
    ensures
        mask@ == chord_mask(frets@, tuning@, root as int),
{
    let ghost f = frets@;
    let ghost t = tuning@;
    let ghost uv = pitch_values(u@);
    let mut mask: Vec<bool> = Vec::new();
    let mut k: usize = 0;
    while k < 12
        invariant
            k <= 12,
            mask@.len() == k,
            forall|j: int| 0 <= j < k ==> !mask@[j],
        decreases 12 - k,
    {
        mask.push(false);
        k = k + 1;
    }
    let n = u.len();
    let mut j: usize = 0;
    while j < n
        invariant
            n == u.len(),
            uv == pitch_values(u@),
            j <= n,
            mask@.len() == 12,
            root < 12,
            forall|a: int| 0 <= a < u.len() ==> 0 <= #[trigger] uv[a] < 12,
            forall|c: int|
                0 <= c < 12 ==> (#[trigger] mask@[c] <==> exists|a: int|
                    0 <= a < j && (#[trigger] uv[a] - root) % 12 == c),
        decreases n - j,
    {
        let x = u[j].semitones();
        assert(uv[j as int] == x);
        let c = ((x + 12 - root) % 12) as usize;
        mask.set(c, true);
        proof {
            assert forall|c2: int|
                0 <= c2 < 12 implies (#[trigger] mask@[c2] <==> exists|a: int|
                0 <= a < j + 1 && (#[trigger] uv[a] - root) % 12 == c2) by {
                if c2 == c {
                    assert((uv[j as int] - root) % 12 == c2);
                }
            }
        }
        j = j + 1;
    }
    proof {
        assert forall|c: int| 0 <= c < 12 implies mask@[c] == chord_has(f, t, root as int, c) by {
            if mask@[c] {
                let a = choose|a: int| 0 <= a < n && (#[trigger] uv[a] - root) % 12 == c;
                assert(plays_pitch(f, t, uv[a]));
                let i = choose|i: int|
                    0 <= i < 6 && is_played(f, i) && #[trigger] midi_at(f, t, i) % 12 == uv[a];
                lemma_mod12_of_difference(midi_at(f, t, i), root as int);
                assert((midi_at(f, t, i) - root) % 12 == c);
            }
            if chord_has(f, t, root as int, c) {
                let i = choose|i: int|
                    0 <= i < 6 && is_played(f, i) && (#[trigger] midi_at(f, t, i) - root) % 12 == c;
                let p = midi_at(f, t, i) % 12;
                assert(plays_pitch(f, t, p));
                assert(uv.contains(p));
                let a = choose|a: int| 0 <= a < uv.len() && uv[a] == p;
                lemma_mod12_of_difference(midi_at(f, t, i), root as int);
                assert((uv[a] - root) % 12 == c);
            }
        }
        assert(mask@ =~= chord_mask(f, t, root as int));
    }
    mask
}

/// The interval classes (mod 12) of a list of intervals.
pub open spec fn interval_classes(s: Seq<u8>) -> Set<u8> {
    Set::new(|k: u8| has_interval_class(s, k as int))
}

/// The twelve interval classes of a set, as membership flags.
pub open spec fn class_flags(set: Set<u8>) -> Seq<bool> {
    Seq::new(12, |k: int| set.contains(k as u8))
}

/// Whether every interval class of `chord` belongs to `quality`.
fn covers(chord: &Vec<bool>, quality: &BTreeSet<u8>) -> (b: bool)
    requires
        chord@.len() == 12,
    ensures
        b == forall|k: int| 0 <= k < 12 ==> (chord@[k] ==> class_flags(quality@)[k]),
{
    broadcast use vstd::laws_cmp::group_laws_cmp;
    broadcast use vstd::std_specs::btree::group_btree_axioms;

    let mut k: usize = 0;
    let mut kc: u8 = 0;
    while k < 12
        invariant
            k <= 12,
            kc == k,
            chord@.len() == 12,
            forall|j: int| 0 <= j < k ==> (chord@[j] ==> class_flags(quality@)[j]),
        decreases 12 - k,
    {
        if chord[k] && !quality.contains(&kc) {
            return false;
        }
        k = k + 1;
        kc = kc + 1;
    }
    true
}

fn missing_penalty_of(chord: &Vec<bool>, quality: &BTreeSet<u8>) -> (s: i32)
    requires
        chord@.len() == 12,
    ensures
        s == missing_penalty(chord@, class_flags(quality@), 12),
        0 <= s <= 600,
{
    broadcast use vstd::laws_cmp::group_laws_cmp;
    broadcast use vstd::std_specs::btree::group_btree_axioms;

    let ghost flags = class_flags(quality@);
    let mut s: i32 = 0;
    let mut k: usize = 0;
    let mut kc: u8 = 0;
    let ghost mut gk: int = 0;
    while k < 12
        invariant
            k <= 12,
            kc == k,
            gk == k,
            chord@.len() == 12,
            flags == class_flags(quality@),
            s == missing_penalty(chord@, flags, gk),
            0 <= s <= 50 * k,
        decreases 12 - k,
    {
        if quality.contains(&kc) && !chord[k] {
            let w: i32 = if k == 0 {
                50
            } else if k == 3 || k == 4 {
                40
            } else if k == 6 || k == 7 || k == 8 {
                10
            } else {
                20
            };
            s = s + w;
        }
        k = k + 1;
        kc = kc + 1;
        proof {
            gk = gk + 1;
        }
    }
    s
}

/// The best quality for the root `u[r]` and its score.
fn best_quality_for(frets: &[i8; 6], tuning: &[u8; 6], u: &Vec<PitchClass>, r: usize, bass: u8) -> (res: Option<(usize, i32)>)
    requires
        is_pitch_order(frets@, tuning@, pitch_values(u@)),
        forall|a: int| 0 <= a < u.len() ==> 0 <= #[trigger] pitch_values(u@)[a] < 12,
        r < u.len(),
        bass == bass_pitch(frets@, tuning@),
    ensures
        root_best(frets@, tuning@, pitch_values(u@)[r as int], res),
{
    let ghost f = frets@;
    let ghost t = tuning@;
    let ghost p = pitch_values(u@)[r as int];
    let root = u[r].semitones();
    assert(root == p);
    let chord = chord_mask_of(frets, tuning, u, root);
    let mut best: Option<(usize, i32)> = None;
    let mut q: usize = 0;
    while q < QUALITY_COUNT
        invariant
            f == frets@,
            t == tuning@,
            p == root,
            plays_pitch(f, t, p),
            bass == bass_pitch(f, t),
            chord@ == chord_mask(f, t, p),
            q <= QUALITY_COUNT,
            match best {
                None => forall|q2: int| 0 <= q2 < q ==> !#[trigger] fits(f, t, p, q2),
                Some((bq, bs)) => {
                    &&& bq < q
                    &&& fits(f, t, p, bq as int)
                    &&& bs == chord_score(f, t, p, bq as int)
                    &&& forall|q2: int|
                        0 <= q2 < q && #[trigger] fits(f, t, p, q2) ==> bs < chord_score(f, t, p, q2)
                            || (bs == chord_score(f, t, p, q2) && bq <= q2)
                },
            },
        decreases QUALITY_COUNT - q,
    {
        let quality = chord_quality(q);
        let qset = quality.interval_set_mod12();
        assert(class_flags(qset@) =~= quality_mask(q as int));
        if covers(&chord, &qset) {
            let penalty = missing_penalty_of(&chord, &qset);
            let placement: i32 = if root != bass {
                15
            } else {
                -5
            };
            let count = quality.note_count();
            let bonus: i32 = if count <= 3 {
                -3
            } else if count == 4 {
                -1
            } else {
                0
            };
            let score = penalty + placement + bonus;
            assert(score == chord_score(f, t, p, q as int));
            let better = match best {
                None => true,
                Some((_, bs)) => score < bs,
            };
            if better {
                best = Some((q, score));
            }
        }
        q = q + 1;
    }
    best
}

/// The root index with the best score among those whose root is not left
/// out; ties go to the earlier root.
fn pick_root(u: &Vec<PitchClass>, best: &Vec<Option<(usize, i32)>>, ex_a: Option<u8>, ex_b: Option<u8>) -> (res: Option<usize>)
    requires
        best.len() == u.len(),
    ensures
        match res {
            None => forall|j: int|
                0 <= j < u.len() && #[trigger] best@[j] is Some ==> root_set(ex_a, ex_b).contains(
                    pitch_values(u@)[j],
                ),
            Some(r) => {
                &&& r < u.len()
                &&& best@[r as int] is Some
                &&& !root_set(ex_a, ex_b).contains(pitch_values(u@)[r as int])
                &&& forall|j: int|
                    0 <= j < u.len() && #[trigger] best@[j] is Some && !root_set(ex_a, ex_b).contains(
                        pitch_values(u@)[j],
                    ) ==> best_score(best@[r as int]) < best_score(best@[j]) || (best_score(best@[r as int])
                        == best_score(best@[j]) && r <= j)
            },
        },
{
    let ghost ex = root_set(ex_a, ex_b);
    let n = u.len();
    let mut chosen: Option<usize> = None;
    let mut j: usize = 0;
    while j < n
        invariant
            n == u.len(),
            best.len() == n,
            ex == root_set(ex_a, ex_b),
            j <= n,
            match chosen {
                None => forall|i: int|
                    0 <= i < j && #[trigger] best@[i] is Some ==> ex.contains(pitch_values(u@)[i]),
                Some(r) => {
                    &&& r < j
                    &&& best@[r as int] is Some
                    &&& !ex.contains(pitch_values(u@)[r as int])
                    &&& forall|i: int|
                        0 <= i < j && #[trigger] best@[i] is Some && !ex.contains(pitch_values(u@)[i])
                            ==> best_score(best@[r as int]) < best_score(best@[i]) || (best_score(best@[r as int])
                            == best_score(best@[i]) && r <= i)
                },
            },
        decreases n - j,
    {
        let x = u[j].semitones();
        assert(pitch_values(u@)[j as int] == x);
        let left_out = match ex_a {
            Some(v) => v == x,
            None => false,
        } || match ex_b {
            Some(v) => v == x,
            None => false,
        };
        assert(left_out == ex.contains(x as int));
        if !left_out {
            match best[j] {
                Some((_, s)) => {
                    let take = match chosen {
                        None => true,
                        Some(r) => match best[r] {
                            Some((_, rs)) => s < rs,
                            None => false,
                        },
                    };
                    if take {
                        chosen = Some(j);
                    }
                },
                None => {},
            }
        }
        j = j + 1;
    }
    chosen
}

/// The quality recorded for one root (0 when the root has no candidate).
pub open spec fn best_quality(b: Option<(usize, i32)>) -> int {
    match b {
        Some((q, _)) => q as int,
        None => 0,
    }
}

proof fn lemma_played_count(f: Seq<i8>, n: int)
    requires
        0 <= n <= f.len(),
    ensures
        played_count(f, n) > 0 ==> exists|i: int| 0 <= i < n && is_played(f, i),
    decreases n,
{
    if n > 0 {
        lemma_played_count(f, n - 1);
        if f[n - 1] >= 0 {
            assert(is_played(f, n - 1));
        }
    }
}

/// The root picked from the per-root bests is the best candidate overall.
proof fn lemma_pick_is_best(
    f: Seq<i8>,
    t: Seq<u8>,
    uv: Seq<int>,
    best: Seq<Option<(usize, i32)>>,
    ex: Set<int>,
    r: int,
)
    requires
        is_pitch_order(f, t, uv),
        best.len() == uv.len(),
        forall|j: int| 0 <= j < uv.len() ==> root_best(f, t, #[trigger] uv[j], best[j]),
        0 <= r < uv.len(),
        best[r] is Some,
        !ex.contains(uv[r]),
        forall|j: int|
            0 <= j < uv.len() && #[trigger] best[j] is Some && !ex.contains(uv[j]) ==> best_score(
                best[r],
            ) < best_score(best[j]) || (best_score(best[r]) == best_score(best[j]) && r <= j),
    ensures
        is_best(f, t, ex, uv[r], best_quality(best[r])),
        chord_score(f, t, uv[r], best_quality(best[r])) == best_score(best[r]),
{
    let p = uv[r];
    let q = best_quality(best[r]);
    assert(root_best(f, t, uv[r], best[r]));
    assert forall|p2: int, q2: int|
        #[trigger] fits(f, t, p2, q2) && !ex.contains(p2) implies ranks_before(f, t, p, q, p2, q2) by {
        assert(uv.contains(p2));
        let j = choose|j: int| 0 <= j < uv.len() && uv[j] == p2;
        assert(root_best(f, t, uv[j], best[j]));
        assert(best[j] is Some);
        if j != r {
            if r < j {
                assert(lowest_midi(f, t, uv[r]) < lowest_midi(f, t, uv[j]));
            } else {
                assert(lowest_midi(f, t, uv[j]) < lowest_midi(f, t, uv[r]));
            }
        }
    }
}

/// When no root is picked, no candidate has a root outside `ex`.
proof fn lemma_pick_none(
    f: Seq<i8>,
    t: Seq<u8>,
    uv: Seq<int>,
    best: Seq<Option<(usize, i32)>>,
    ex: Set<int>,
)
    requires
        is_pitch_order(f, t, uv),
        best.len() == uv.len(),
        forall|j: int| 0 <= j < uv.len() ==> root_best(f, t, #[trigger] uv[j], best[j]),
        forall|j: int| 0 <= j < uv.len() && #[trigger] best[j] is Some ==> ex.contains(uv[j]),
    ensures
        !some_fit(f, t, ex),
{
    if some_fit(f, t, ex) {
        let (p, q) = choose|p: int, q: int| #[trigger] fits(f, t, p, q) && !ex.contains(p);
        assert(uv.contains(p));
        let j = choose|j: int| 0 <= j < uv.len() && uv[j] == p;
        assert(root_best(f, t, uv[j], best[j]));
        assert(best[j] is Some);
    }
}

fn make_match(root: PitchClass, quality_index: usize, bass: PitchClass, score: i32) -> (m: ChordMatch)
    requires
        quality_index < QUALITY_COUNT,
    ensures
        m.root == root,
        m.bass == bass,
        m.quality@ == quality_table(quality_index as int),
        m.is_inversion == (root@ != bass@),
        m.score == score,
{
    let is_inversion = root.semitones() != bass.semitones();
    ChordMatch { root, quality: chord_quality(quality_index), bass, is_inversion, score }
}

/// Each pitch class of `u` with its interval above `from`.
fn intervals_from(u: &Vec<PitchClass>, from: PitchClass) -> (s: Vec<(PitchClass, Interval)>)
    ensures
        intervals_above(s@, pitch_values(u@), from@ as int),
{
    let mut s: Vec<(PitchClass, Interval)> = Vec::new();
    let n = u.len();
    let mut i: usize = 0;
    while i < n
        invariant
            n == u.len(),
            i <= n,
            s.len() == i,
            forall|j: int|
                0 <= j < i ==> (#[trigger] s@[j]).0@ == pitch_values(u@)[j] && s@[j].1.semitones
                    == (pitch_values(u@)[j] - from@) % 12,
        decreases n - i,
    {
        let pc = u[i];
        s.push((pc, Interval::between(from, pc)));
        i = i + 1;
    }
    s
}

// ---------------------------------------------------------------------------
// Identification algorithm
// ---------------------------------------------------------------------------

/// Identify a chord from fret positions and tuning.
///
/// `frets[i]` is the fret number on string `i` (index 0 = lowest/thickest
/// string). A value of -1 (or any negative) means the string is muted.
///
/// Returns `None` if fewer than 2 notes are played or no chord quality
/// matches.
pub fn identify(frets: &[i8; 6], tuning: &[u8; 6]) -> (res: Option<ChordResult>)
    requires
        no_midi_overflow(frets@, tuning@),
    ensures
        res is None <==> no_chord(frets@, tuning@),
        res matches Some(c) ==> identified(frets@, tuning@, c),
{
    let ghost f = frets@;
    let ghost t = tuning@;
    let count = count_played(frets);
    if count < 2 {
        return None;
    }
    let low = lowest_note(frets, tuning);
    proof {
        lemma_played_count(f, 6);
        lemma_lowest_note_of(f, t, 6);
        let i = choose|i: int| 0 <= i < 6 && is_played(f, i);
        assert(midi_at(f, t, i) <= 255);
    }
    let bass = PitchClass::from_midi(low as u8);
    assert(bass@ == bass_pitch(f, t));
    let u = pitch_order(frets, tuning);
    let ghost uv = pitch_values(u@);
    let n = u.len();
    let mut best: Vec<Option<(usize, i32)>> = Vec::new();
    let mut r: usize = 0;
    while r < n
        invariant
            f == frets@,
            t == tuning@,
            uv == pitch_values(u@),
            n == u.len(),
            is_pitch_order(f, t, uv),
            forall|a: int| 0 <= a < u.len() ==> 0 <= #[trigger] uv[a] < 12,
            bass@ == bass_pitch(f, t),
            r <= n,
            best.len() == r,
            forall|j: int| 0 <= j < r ==> root_best(f, t, #[trigger] uv[j], best@[j]),
        decreases n - r,
    {
        let b = best_quality_for(frets, tuning, &u, r, bass.semitones());
        best.push(b);
        r = r + 1;
    }
    let first = pick_root(&u, &best, None, None);
    let pr = match first {
        Some(j) => j,
        None => {
            proof {
                lemma_pick_none(f, t, uv, best@, root_set(None, None));
                assert(root_set(None, None) =~= Set::<int>::empty());
            }
            return None;
        },
    };
    proof {
        lemma_pick_is_best(f, t, uv, best@, root_set(None, None), pr as int);
        assert(root_set(None, None) =~= Set::<int>::empty());
    }
    let (pq, ps) = match best[pr] {
        Some(x) => x,
        None => (0, 0),
    };
    let proot = u[pr];
    let primary = make_match(proot, pq, bass, ps);
    let ghost ex1 = Set::<int>::empty().insert(primary.root@ as int);
    assert(is_best(f, t, Set::empty(), uv[pr as int], pq as int) && describes(f, t, primary, uv[pr as int], pq as int));
    let mut alternatives: Vec<ChordMatch> = Vec::new();
    let second = pick_root(&u, &best, Some(proot.semitones()), None);
    assert(root_set(Some(proot@), None) =~= ex1);
    match second {
        Some(j) => {
            proof {
                lemma_pick_is_best(f, t, uv, best@, ex1, j as int);
            }
            let (q1, s1) = match best[j] {
                Some(x) => x,
                None => (0, 0),
            };
            let aroot = u[j];
            let alt = make_match(aroot, q1, bass, s1);
            assert(is_best(f, t, ex1, uv[j as int], q1 as int) && describes(f, t, alt, uv[j as int], q1 as int));
            alternatives.push(alt);
            let ghost ex2 = ex1.insert(alt.root@ as int);
            let third = pick_root(&u, &best, Some(proot.semitones()), Some(aroot.semitones()));
            assert(root_set(Some(proot@), Some(aroot@)) =~= ex2);
            match third {
                Some(k) => {
                    proof {
                        lemma_pick_is_best(f, t, uv, best@, ex2, k as int);
                    }
                    let (q2, s2) = match best[k] {
                        Some(x) => x,
                        None => (0, 0),
                    };
                    let alt2 = make_match(u[k], q2, bass, s2);
                    assert(is_best(f, t, ex2, uv[k as int], q2 as int) && describes(f, t, alt2, uv[k as int], q2 as int));
                    alternatives.push(alt2);
                    assert(fits(f, t, uv[k as int], q2 as int));
                },
                None => {
                    proof {
                        lemma_pick_none(f, t, uv, best@, ex2);
                    }
                },
            }
            assert(fits(f, t, uv[j as int], q1 as int));
        },
        None => {
            proof {
                lemma_pick_none(f, t, uv, best@, ex1);
            }
        },
    }
    let intervals_from_root = intervals_from(&u, proot);
    let intervals_from_bass = intervals_from(&u, bass);
    let result = ChordResult {
        primary,
        alternatives,
        notes_played: u,
        intervals_from_root,
        intervals_from_bass,
    };
    assert(fits(f, t, uv[pr as int], pq as int));
    Some(result)
}


// ---------------------------------------------------------------------------
// Laws
// ---------------------------------------------------------------------------

/// Whether some played string sounds MIDI note `m`.
pub open spec fn sounds(f: Seq<i8>, t: Seq<u8>, m: int) -> bool {
    exists|i: int| 0 <= i < 6 && is_played(f, i) && #[trigger] midi_at(f, t, i) == m
}

/// The notes of the strings `0..n`, lowest string first, are the notes that
/// those strings sound, one for each played string.
proof fn lemma_midis_between(f: Seq<i8>, t: Seq<u8>, n: int)
    requires
        0 <= n <= 6,
    ensures
        midis_between(f, t, 0, n).len() == played_count(f, n),
        forall|m: int|
            #[trigger] midis_between(f, t, 0, n).contains(m) <==> exists|i: int|
                0 <= i < n && is_played(f, i) && #[trigger] midi_at(f, t, i) == m,
    decreases n,
{
    if n > 0 {
        lemma_midis_between(f, t, n - 1);
        let prev = midis_between(f, t, 0, n - 1);
        let s = midis_between(f, t, 0, n);
        assert forall|m: int| #[trigger] s.contains(m) implies exists|i: int|
            0 <= i < n && is_played(f, i) && #[trigger] midi_at(f, t, i) == m by {
            let k = choose|k: int| 0 <= k < s.len() && s[k] == m;
            if k < prev.len() {
                assert(prev[k] == m);
                assert(prev.contains(m));
            } else {
                assert(is_played(f, n - 1) && midi_at(f, t, n - 1) == m);
            }
        }
        assert forall|m: int| (exists|i: int| 0 <= i < n && is_played(f, i) && #[trigger] midi_at(f, t, i) == m) implies #[trigger] s.contains(m) by {
            let i = choose|i: int| 0 <= i < n && is_played(f, i) && #[trigger] midi_at(f, t, i) == m;
            if i < n - 1 {
                assert(prev.contains(m));
                let k = choose|k: int| 0 <= k < prev.len() && prev[k] == m;
                assert(s[k] == m);
            } else {
                assert(s[s.len() - 1] == m);
            }
        }
    }
}

/// What `f1` sounds `f2` sounds too: then every played pitch class of `f1`
/// is played by `f2`, every interval class of `f1` above a root is one of
/// `f2`, and the lowest notes of `f2` are no higher.
proof fn lemma_sound_included(f1: Seq<i8>, t1: Seq<u8>, f2: Seq<i8>, t2: Seq<u8>)
    requires
        f1.len() == 6,
        t1.len() == 6,
        f2.len() == 6,
        t2.len() == 6,
        forall|m: int| sounds(f1, t1, m) ==> #[trigger] sounds(f2, t2, m),
    ensures
        forall|p: int| plays_pitch(f1, t1, p) ==> #[trigger] plays_pitch(f2, t2, p),
        forall|p: int, k: int| chord_has(f1, t1, p, k) ==> #[trigger] chord_has(f2, t2, p, k),
        forall|p: int| #[trigger] lowest_midi(f2, t2, p) <= lowest_midi(f1, t1, p),
        lowest_note_of(f2, t2, 6) <= lowest_note_of(f1, t1, 6),
{
    assert forall|p: int| plays_pitch(f1, t1, p) implies #[trigger] plays_pitch(f2, t2, p) by {
        let i = choose|i: int| 0 <= i < 6 && is_played(f1, i) && #[trigger] midi_at(f1, t1, i) % 12 == p;
        assert(sounds(f1, t1, midi_at(f1, t1, i)));
        assert(sounds(f2, t2, midi_at(f1, t1, i)));
        let j = choose|j: int| 0 <= j < 6 && is_played(f2, j) && #[trigger] midi_at(f2, t2, j) == midi_at(f1, t1, i);
        assert(midi_at(f2, t2, j) % 12 == p);
    }
    assert forall|p: int, k: int| chord_has(f1, t1, p, k) implies #[trigger] chord_has(f2, t2, p, k) by {
        let i = choose|i: int| 0 <= i < 6 && is_played(f1, i) && (#[trigger] midi_at(f1, t1, i) - p) % 12 == k;
        assert(sounds(f1, t1, midi_at(f1, t1, i)));
        assert(sounds(f2, t2, midi_at(f1, t1, i)));
        let j = choose|j: int| 0 <= j < 6 && is_played(f2, j) && #[trigger] midi_at(f2, t2, j) == midi_at(f1, t1, i);
        assert((midi_at(f2, t2, j) - p) % 12 == k);
    }
    assert forall|p: int| #[trigger] lowest_midi(f2, t2, p) <= lowest_midi(f1, t1, p) by {
        lemma_lowest_of_pitch(f1, t1, p, 6);
        lemma_lowest_of_pitch(f2, t2, p, 6);
        if lowest_midi(f1, t1, p) != 1000 {
            let i = choose|i: int|
                0 <= i < 6 && is_played(f1, i) && #[trigger] midi_at(f1, t1, i) % 12 == p && midi_at(f1, t1, i)
                    == lowest_of_pitch(f1, t1, p, 6);
            assert(sounds(f1, t1, midi_at(f1, t1, i)));
        assert(sounds(f2, t2, midi_at(f1, t1, i)));
            let j = choose|j: int| 0 <= j < 6 && is_played(f2, j) && #[trigger] midi_at(f2, t2, j) == midi_at(f1, t1, i);
            assert(midi_at(f2, t2, j) % 12 == p);
        }
    }
    lemma_lowest_note_of(f1, t1, 6);
    lemma_lowest_note_of(f2, t2, 6);
    if lowest_note_of(f1, t1, 6) != 1000 {
        let i = choose|i: int| 0 <= i < 6 && is_played(f1, i) && #[trigger] midi_at(f1, t1, i) == lowest_note_of(f1, t1, 6);
        assert(sounds(f1, t1, midi_at(f1, t1, i)));
        assert(sounds(f2, t2, midi_at(f1, t1, i)));
        let j = choose|j: int| 0 <= j < 6 && is_played(f2, j) && #[trigger] midi_at(f2, t2, j) == midi_at(f1, t1, i);
    } else {
        if lowest_note_of(f2, t2, 6) != 1000 {
            let j = choose|j: int| 0 <= j < 6 && is_played(f2, j) && #[trigger] midi_at(f2, t2, j) == lowest_note_of(f2, t2, 6);
        }
    }
}

/// Identification depends only on the MIDI notes played: two fingerings,
/// each in its own tuning, that play the same notes string by string from
/// the lowest up get the same answer, the same chord or none.
pub proof fn law_same_notes_same_chord(f1: Seq<i8>, t1: Seq<u8>, f2: Seq<i8>, t2: Seq<u8>, c: ChordResult)
    requires
        f1.len() == 6,
        t1.len() == 6,
        f2.len() == 6,
        t2.len() == 6,
        played_midis(f1, t1) == played_midis(f2, t2),
    ensures
        no_chord(f1, t1) <==> no_chord(f2, t2),
        identified(f1, t1, c) <==> identified(f2, t2, c),
{
    lemma_played_midis(f1, t1, 6);
    lemma_played_midis(f2, t2, 6);
    lemma_midis_between(f1, t1, 6);
    lemma_midis_between(f2, t2, 6);
    assert(midis_between(f1, t1, 0, 6) == midis_between(f2, t2, 0, 6));
    assert forall|m: int| sounds(f1, t1, m) implies #[trigger] sounds(f2, t2, m) by {
        assert(midis_between(f1, t1, 0, 6).contains(m));
        assert(midis_between(f2, t2, 0, 6).contains(m));
    }
    assert forall|m: int| sounds(f2, t2, m) implies #[trigger] sounds(f1, t1, m) by {
        assert(midis_between(f2, t2, 0, 6).contains(m));
        assert(midis_between(f1, t1, 0, 6).contains(m));
    }
    lemma_sound_included(f1, t1, f2, t2);
    lemma_sound_included(f2, t2, f1, t1);
    lemma_same_answers(f1, t1, f2, t2, c);
}

/// Fingerings with the same played pitch classes, interval classes, lowest
/// notes and number of played strings get the same answer.
proof fn lemma_same_answers(f1: Seq<i8>, t1: Seq<u8>, f2: Seq<i8>, t2: Seq<u8>, c: ChordResult)
    requires
        played_count(f1, 6) == played_count(f2, 6),
        forall|p: int| #[trigger] plays_pitch(f1, t1, p) == plays_pitch(f2, t2, p),
        forall|p: int, k: int| #[trigger] chord_has(f1, t1, p, k) == chord_has(f2, t2, p, k),
        forall|p: int| #[trigger] lowest_midi(f1, t1, p) == lowest_midi(f2, t2, p),
        lowest_note_of(f1, t1, 6) == lowest_note_of(f2, t2, 6),
    ensures
        no_chord(f1, t1) <==> no_chord(f2, t2),
        identified(f1, t1, c) <==> identified(f2, t2, c),
{
    assert forall|p: int| #[trigger] chord_mask(f1, t1, p) == chord_mask(f2, t2, p) by {
        assert(chord_mask(f1, t1, p) =~= chord_mask(f2, t2, p));
    }
    assert(bass_pitch(f1, t1) == bass_pitch(f2, t2));
    assert forall|p: int, q: int| #[trigger] fits(f1, t1, p, q) == fits(f2, t2, p, q) by {
        assert(chord_mask(f1, t1, p) == chord_mask(f2, t2, p));
    }
    assert forall|p: int, q: int| #[trigger] chord_score(f1, t1, p, q) == chord_score(f2, t2, p, q) by {
        assert(chord_mask(f1, t1, p) == chord_mask(f2, t2, p));
    }
    assert forall|p1: int, q1: int, p2: int, q2: int|
        #[trigger] ranks_before(f1, t1, p1, q1, p2, q2) == ranks_before(f2, t2, p1, q1, p2, q2) by {
        assert(chord_score(f1, t1, p1, q1) == chord_score(f2, t2, p1, q1));
        assert(chord_score(f1, t1, p2, q2) == chord_score(f2, t2, p2, q2));
        assert(lowest_midi(f1, t1, p1) == lowest_midi(f2, t2, p1));
        assert(lowest_midi(f1, t1, p2) == lowest_midi(f2, t2, p2));
    }
    assert forall|ex: Set<int>, p: int, q: int| #[trigger] is_best(f1, t1, ex, p, q) == is_best(f2, t2, ex, p, q) by {
        assert(fits(f1, t1, p, q) == fits(f2, t2, p, q));
        if is_best(f1, t1, ex, p, q) {
            assert forall|p2: int, q2: int| #[trigger] fits(f2, t2, p2, q2) && !ex.contains(p2) implies ranks_before(f2, t2, p, q, p2, q2) by {
                assert(fits(f1, t1, p2, q2));
                assert(ranks_before(f1, t1, p, q, p2, q2));
            }
        }
        if is_best(f2, t2, ex, p, q) {
            assert forall|p2: int, q2: int| #[trigger] fits(f1, t1, p2, q2) && !ex.contains(p2) implies ranks_before(f1, t1, p, q, p2, q2) by {
                assert(fits(f2, t2, p2, q2));
                assert(ranks_before(f2, t2, p, q, p2, q2));
            }
        }
    }
    assert forall|ex: Set<int>| #[trigger] some_fit(f1, t1, ex) == some_fit(f2, t2, ex) by {
        if some_fit(f1, t1, ex) {
            let (p, q) = choose|p: int, q: int| #[trigger] fits(f1, t1, p, q) && !ex.contains(p);
            assert(fits(f2, t2, p, q));
        }
        if some_fit(f2, t2, ex) {
            let (p, q) = choose|p: int, q: int| #[trigger] fits(f2, t2, p, q) && !ex.contains(p);
            assert(fits(f1, t1, p, q));
        }
    }
    assert forall|ex: Set<int>, m: ChordMatch| #[trigger] is_choice(f1, t1, ex, m) == is_choice(f2, t2, ex, m) by {
        if is_choice(f1, t1, ex, m) {
            let (p, q) = choose|p: int, q: int| #[trigger] is_best(f1, t1, ex, p, q) && describes(f1, t1, m, p, q);
            assert(is_best(f2, t2, ex, p, q));
            assert(chord_score(f1, t1, p, q) == chord_score(f2, t2, p, q));
        }
        if is_choice(f2, t2, ex, m) {
            let (p, q) = choose|p: int, q: int| #[trigger] is_best(f2, t2, ex, p, q) && describes(f2, t2, m, p, q);
            assert(is_best(f1, t1, ex, p, q));
            assert(chord_score(f1, t1, p, q) == chord_score(f2, t2, p, q));
        }
    }
    assert forall|u: Seq<int>| #[trigger] is_pitch_order(f1, t1, u) == is_pitch_order(f2, t2, u) by {}
}

/// Moving the notes across strings (same pitches) changes nothing in what
/// identification answers.
pub proof fn law_string_shift_keeps_chord(f: Seq<i8>, t: Seq<u8>, d: int, c: ChordResult)
    requires
        f.len() == 6,
        t.len() == 6,
        string_shift_ok(f, t, d),
    ensures
        no_chord(f, t) <==> no_chord(shifted_strings(f, t, d), t),
        identified(f, t, c) <==> identified(shifted_strings(f, t, d), t, c),
{
    law_string_shift_keeps_pitches(f, t, d);
    law_same_notes_same_chord(f, t, shifted_strings(f, t, d), t, c);
}


/// The best-ranked candidate is unique: two candidates that both rank best
/// among the roots outside `ex` have the same root and quality.
pub proof fn law_best_is_unique(f: Seq<i8>, t: Seq<u8>, ex: Set<int>, p1: int, q1: int, p2: int, q2: int)
    requires
        is_best(f, t, ex, p1, q1),
        is_best(f, t, ex, p2, q2),
    ensures
        p1 == p2,
        q1 == q2,
{
    assert(ranks_before(f, t, p1, q1, p2, q2));
    assert(ranks_before(f, t, p2, q2, p1, q1));
}

/// The alternatives name roots other than the primary root and other than
/// each other, and none ranks before the match it follows: the primary
/// match scores lowest, then the first alternative, then the second.
pub proof fn law_alternatives_rank_after(f: Seq<i8>, t: Seq<u8>, c: ChordResult)
    requires
        identified(f, t, c),
    ensures
        forall|k: int| 0 <= k < c.alternatives@.len() ==> #[trigger] c.alternatives@[k].root@ != c.primary.root@,
        c.alternatives@.len() == 2 ==> c.alternatives@[0].root@ != c.alternatives@[1].root@,
        c.alternatives@.len() >= 1 ==> c.primary.score <= c.alternatives@[0].score,
        c.alternatives@.len() == 2 ==> c.alternatives@[0].score <= c.alternatives@[1].score,
{
    let alts = c.alternatives@;
    let ex0 = Set::<int>::empty();
    let ex1 = ex0.insert(c.primary.root@ as int);
    let (p0, q0) = choose|p: int, q: int| #[trigger] is_best(f, t, ex0, p, q) && describes(f, t, c.primary, p, q);
    if alts.len() >= 1 {
        let (p1, q1) = choose|p: int, q: int| #[trigger] is_best(f, t, ex1, p, q) && describes(f, t, alts[0], p, q);
        assert(fits(f, t, p1, q1) && !ex0.contains(p1));
        assert(ranks_before(f, t, p0, q0, p1, q1));
        if alts.len() == 2 {
            let ex2 = ex1.insert(alts[0].root@ as int);
            let (p2, q2) = choose|p: int, q: int| #[trigger] is_best(f, t, ex2, p, q) && describes(f, t, alts[1], p, q);
            assert(fits(f, t, p2, q2) && !ex1.contains(p2));
            assert(ranks_before(f, t, p1, q1, p2, q2));
            assert(!ex2.contains(p2));
        }
    }
}


/// Two sequences without repeats, each in strictly increasing order of
/// `key`, that hold the same values are the same sequence.
proof fn lemma_sorted_unique(u1: Seq<int>, u2: Seq<int>, key: spec_fn(int) -> int)
    requires
        forall|a: int, b: int| 0 <= a < b < u1.len() ==> key(#[trigger] u1[a]) < key(#[trigger] u1[b]),
        forall|a: int, b: int| 0 <= a < b < u2.len() ==> key(#[trigger] u2[a]) < key(#[trigger] u2[b]),
        forall|x: int| u1.contains(x) <==> #[trigger] u2.contains(x),
    ensures
        u1 == u2,
    decreases u1.len(),
{
    if u1.len() == 0 {
        if u2.len() > 0 {
            assert(u2.contains(u2[0]));
        }
        assert(u1 =~= u2);
    } else {
        assert(u1.contains(u1[0]));
        assert(u2.contains(u1[0]));
        let b = choose|b: int| 0 <= b < u2.len() && u2[b] == u1[0];
        assert(u2.contains(u2[0]));
        let a = choose|a: int| 0 <= a < u1.len() && u1[a] == u2[0];
        if b > 0 {
            assert(key(u2[0]) < key(u2[b]));
            if a > 0 {
                assert(key(u1[0]) < key(u1[a]));
            }
        }
        assert(u1[0] == u2[0]);
        let r1 = u1.drop_first();
        let r2 = u2.drop_first();
        assert forall|x: int| r1.contains(x) <==> #[trigger] r2.contains(x) by {
            if r1.contains(x) {
                let i = choose|i: int| 0 <= i < r1.len() && r1[i] == x;
                assert(u1[i + 1] == x);
                assert(key(u1[0]) < key(u1[i + 1]));
                assert(u1.contains(x));
                assert(u2.contains(x));
                let j = choose|j: int| 0 <= j < u2.len() && u2[j] == x;
                assert(j != 0);
                assert(r2[j - 1] == x);
            }
            if r2.contains(x) {
                let j = choose|j: int| 0 <= j < r2.len() && r2[j] == x;
                assert(u2[j + 1] == x);
                assert(key(u2[0]) < key(u2[j + 1]));
                assert(u2.contains(x));
                assert(u1.contains(x));
                let i = choose|i: int| 0 <= i < u1.len() && u1[i] == x;
                assert(i != 0);
                assert(r1[i - 1] == x);
            }
        }
        assert forall|a2: int, b2: int| 0 <= a2 < b2 < r1.len() implies key(#[trigger] r1[a2]) < key(#[trigger] r1[b2]) by {
            assert(key(u1[a2 + 1]) < key(u1[b2 + 1]));
        }
        assert forall|a2: int, b2: int| 0 <= a2 < b2 < r2.len() implies key(#[trigger] r2[a2]) < key(#[trigger] r2[b2]) by {
            assert(key(u2[a2 + 1]) < key(u2[b2 + 1]));
        }
        lemma_sorted_unique(r1, r2, key);
        assert(u1 =~= u2) by {
            assert forall|i: int| 0 < i < u1.len() implies u1[i] == u2[i] by {
                assert(u1[i] == r1[i - 1]);
                assert(u2[i] == r2[i - 1]);
            }
        }
    }
}

/// Two matches that agree on root, quality, bass, inversion and score.
pub open spec fn same_match(m1: ChordMatch, m2: ChordMatch) -> bool {
    &&& m1.root@ == m2.root@
    &&& m1.quality@ == m2.quality@
    &&& m1.bass@ == m2.bass@
    &&& m1.is_inversion == m2.is_inversion
    &&& m1.score == m2.score
}

/// The pitch classes and interval sizes of a list of notes with intervals.
pub open spec fn interval_values(s: Seq<(PitchClass, Interval)>) -> Seq<(int, int)> {
    s.map_values(|x: (PitchClass, Interval)| (x.0@ as int, x.1.semitones as int))
}

/// The matches that two choices among the same roots make agree.
proof fn lemma_choice_unique(f: Seq<i8>, t: Seq<u8>, ex: Set<int>, m1: ChordMatch, m2: ChordMatch)
    requires
        is_choice(f, t, ex, m1),
        is_choice(f, t, ex, m2),
    ensures
        same_match(m1, m2),
{
    let (p1, q1) = choose|p: int, q: int| #[trigger] is_best(f, t, ex, p, q) && describes(f, t, m1, p, q);
    let (p2, q2) = choose|p: int, q: int| #[trigger] is_best(f, t, ex, p, q) && describes(f, t, m2, p, q);
    law_best_is_unique(f, t, ex, p1, q1, p2, q2);
}

/// Lists of notes with their intervals above the same note agree.
proof fn lemma_intervals_unique(s1: Seq<(PitchClass, Interval)>, s2: Seq<(PitchClass, Interval)>, u: Seq<int>, from: int)
    requires
        intervals_above(s1, u, from),
        intervals_above(s2, u, from),
    ensures
        interval_values(s1) == interval_values(s2),
{
    assert forall|i: int| 0 <= i < s1.len() implies #[trigger] interval_values(s1)[i] == interval_values(s2)[i] by {
        assert(s1[i].0@ == u[i] && s2[i].0@ == u[i]);
    }
    assert(interval_values(s1) =~= interval_values(s2));
}

/// What identification answers is determined by the fingering and the
/// tuning: any two results that meet its contract agree on every match,
/// on the notes played and on their intervals.
pub proof fn law_identification_is_unique(f: Seq<i8>, t: Seq<u8>, c1: ChordResult, c2: ChordResult)
    requires
        identified(f, t, c1),
        identified(f, t, c2),
    ensures
        same_match(c1.primary, c2.primary),
        c1.alternatives@.len() == c2.alternatives@.len(),
        forall|k: int| 0 <= k < c1.alternatives@.len() ==> same_match(#[trigger] c1.alternatives@[k], c2.alternatives@[k]),
        pitch_values(c1.notes_played@) == pitch_values(c2.notes_played@),
        interval_values(c1.intervals_from_root@) == interval_values(c2.intervals_from_root@),
        interval_values(c1.intervals_from_bass@) == interval_values(c2.intervals_from_bass@),
{
    let u1 = pitch_values(c1.notes_played@);
    let u2 = pitch_values(c2.notes_played@);
    let key = |p: int| lowest_midi(f, t, p);
    assert forall|x: int| u1.contains(x) <==> #[trigger] u2.contains(x) by {
        if u1.contains(x) {
            let i = choose|i: int| 0 <= i < u1.len() && u1[i] == x;
            assert(plays_pitch(f, t, u1[i]));
        }
        if u2.contains(x) {
            let i = choose|i: int| 0 <= i < u2.len() && u2[i] == x;
            assert(plays_pitch(f, t, u2[i]));
        }
    }
    assert forall|a: int, b: int| 0 <= a < b < u1.len() implies key(#[trigger] u1[a]) < key(#[trigger] u1[b]) by {}
    assert forall|a: int, b: int| 0 <= a < b < u2.len() implies key(#[trigger] u2[a]) < key(#[trigger] u2[b]) by {}
    lemma_sorted_unique(u1, u2, key);
    lemma_choice_unique(f, t, Set::empty(), c1.primary, c2.primary);
    let a1 = c1.alternatives@;
    let a2 = c2.alternatives@;
    let ex1 = Set::<int>::empty().insert(c1.primary.root@ as int);
    assert(ex1 == Set::<int>::empty().insert(c2.primary.root@ as int));
    if a1.len() >= 1 {
        lemma_choice_unique(f, t, ex1, a1[0], a2[0]);
        assert(ex1.insert(a1[0].root@ as int) == ex1.insert(a2[0].root@ as int));
        if a1.len() == 2 {
            lemma_choice_unique(f, t, ex1.insert(a1[0].root@ as int), a1[1], a2[1]);
        }
    }
    assert(c1.primary.root@ == c2.primary.root@);
    lemma_intervals_unique(c1.intervals_from_root@, c2.intervals_from_root@, u1, c1.primary.root@ as int);
    lemma_intervals_unique(c1.intervals_from_bass@, c2.intervals_from_bass@, u1, bass_pitch(f, t));
}


/// Pitch class `p` moved `d` semitones.
pub open spec fn moved_pitch(p: int, d: int) -> int {
    (p + d) % 12
}

/// Moving two notes by the same amount keeps whether they have the same
/// pitch class, and keeps the interval between them.
proof fn lemma_moved_mod(x: int, y: int, d: int)
    ensures
        ((x + d) % 12 == (y + d) % 12) == (x % 12 == y % 12),
        ((x + d) - moved_pitch(y, d)) % 12 == (x - y) % 12,
        moved_pitch(x % 12, d) == (x + d) % 12,
        0 <= moved_pitch(x, d) < 12,
        (moved_pitch(x, d) - moved_pitch(y, d)) % 12 == (x - y) % 12,
{
    lemma_sub_mod_noop(x + d, y + d, 12);
    lemma_mod_equivalence(x + d, y + d, 12);
    lemma_mod_equivalence(x, y, 12);
    assert((x + d) - (y + d) == x - y);
    lemma_sub_mod_noop_right(x + d, y + d, 12);
    lemma_add_mod_noop_right(d, x, 12);
}

/// Moving a pitch class and moving it back gives it back; so two pitch
/// classes that move to the same one are the same.
proof fn lemma_moved_back(x: int, d: int)
    requires
        0 <= x < 12,
    ensures
        moved_pitch(moved_pitch(x, -d), d) == x,
        moved_pitch(moved_pitch(x, d), -d) == x,
        forall|y: int| 0 <= y < 12 && #[trigger] moved_pitch(y, d) == moved_pitch(x, d) ==> y == x,
{
    lemma_moved_mod(x - d, x - d, d);
    lemma_moved_mod(x + d, x + d, -d);
    assert forall|y: int| 0 <= y < 12 && #[trigger] moved_pitch(y, d) == moved_pitch(x, d) implies y == x by {
        lemma_moved_mod(y, x, d);
    }
}

/// `g` in tuning `t2` sounds the notes of `f` in tuning `t1`, each moved
/// `d` semitones, and no other note.
pub open spec fn sounds_moved(f: Seq<i8>, t1: Seq<u8>, g: Seq<i8>, t2: Seq<u8>, d: int) -> bool {
    forall|m: int| #[trigger] sounds(g, t2, m) <==> sounds(f, t1, m - d)
}

/// What moving every note `d` semitones does to the played pitch classes,
/// the interval classes above a root and the lowest notes.
proof fn lemma_moved_facts(f: Seq<i8>, t1: Seq<u8>, g: Seq<i8>, t2: Seq<u8>, d: int)
    requires
        f.len() == 6,
        t1.len() == 6,
        g.len() == 6,
        t2.len() == 6,
        sounds_moved(f, t1, g, t2, d),
    ensures
        forall|p: int| 0 <= p < 12 ==> #[trigger] plays_pitch(g, t2, moved_pitch(p, d)) == plays_pitch(f, t1, p),
        forall|p: int, k: int| #[trigger] chord_has(g, t2, moved_pitch(p, d), k) == chord_has(f, t1, p, k),
        forall|p: int| 0 <= p < 12 && plays_pitch(f, t1, p) ==> #[trigger] lowest_midi(g, t2, moved_pitch(p, d)) == lowest_midi(f, t1, p) + d,
        played_count(f, 6) > 0 ==> lowest_note_of(g, t2, 6) == lowest_note_of(f, t1, 6) + d,
{
    assert forall|p: int| 0 <= p < 12 implies #[trigger] plays_pitch(g, t2, moved_pitch(p, d)) == plays_pitch(f, t1, p) by {
        if plays_pitch(f, t1, p) {
            let i = choose|i: int| 0 <= i < 6 && is_played(f, i) && #[trigger] midi_at(f, t1, i) % 12 == p;
            let mf = midi_at(f, t1, i);
            assert(sounds(f, t1, (mf + d) - d));
            assert(sounds(g, t2, mf + d));
            let j = choose|j: int| 0 <= j < 6 && is_played(g, j) && #[trigger] midi_at(g, t2, j) == mf + d;
            lemma_moved_mod(mf, mf, d);
            assert(midi_at(g, t2, j) % 12 == moved_pitch(p, d));
        }
        if plays_pitch(g, t2, moved_pitch(p, d)) {
            let j = choose|j: int| 0 <= j < 6 && is_played(g, j) && #[trigger] midi_at(g, t2, j) % 12 == moved_pitch(p, d);
            let mg = midi_at(g, t2, j);
            assert(sounds(g, t2, mg));
            let i = choose|i: int| 0 <= i < 6 && is_played(f, i) && #[trigger] midi_at(f, t1, i) == mg - d;
            lemma_moved_mod(mg - d, p, d);
            lemma_moved_mod(p, p, d);
            assert(midi_at(f, t1, i) % 12 == p);
        }
    }
    assert forall|p: int, k: int| #[trigger] chord_has(g, t2, moved_pitch(p, d), k) == chord_has(f, t1, p, k) by {
        if chord_has(f, t1, p, k) {
            let i = choose|i: int| 0 <= i < 6 && is_played(f, i) && (#[trigger] midi_at(f, t1, i) - p) % 12 == k;
            let mf = midi_at(f, t1, i);
            assert(sounds(f, t1, (mf + d) - d));
            assert(sounds(g, t2, mf + d));
            let j = choose|j: int| 0 <= j < 6 && is_played(g, j) && #[trigger] midi_at(g, t2, j) == mf + d;
            lemma_moved_mod(mf, p, d);
            assert((midi_at(g, t2, j) - moved_pitch(p, d)) % 12 == k);
        }
        if chord_has(g, t2, moved_pitch(p, d), k) {
            let j = choose|j: int| 0 <= j < 6 && is_played(g, j) && (#[trigger] midi_at(g, t2, j) - moved_pitch(p, d)) % 12 == k;
            let mg = midi_at(g, t2, j);
            assert(sounds(g, t2, mg));
            let i = choose|i: int| 0 <= i < 6 && is_played(f, i) && #[trigger] midi_at(f, t1, i) == mg - d;
            lemma_moved_mod(mg - d, p, d);
            assert((midi_at(f, t1, i) - p) % 12 == k);
        }
    }
    assert forall|p: int| 0 <= p < 12 && plays_pitch(f, t1, p) implies #[trigger] lowest_midi(g, t2, moved_pitch(p, d)) == lowest_midi(f, t1, p) + d by {
        let q = moved_pitch(p, d);
        lemma_lowest_of_pitch(f, t1, p, 6);
        lemma_lowest_of_pitch(g, t2, q, 6);
        let i0 = choose|i: int| 0 <= i < 6 && is_played(f, i) && #[trigger] midi_at(f, t1, i) % 12 == p;
        assert(lowest_midi(f, t1, p) <= midi_at(f, t1, i0));
        let i = choose|i: int|
            0 <= i < 6 && is_played(f, i) && #[trigger] midi_at(f, t1, i) % 12 == p && midi_at(f, t1, i)
                == lowest_of_pitch(f, t1, p, 6);
        let mf = midi_at(f, t1, i);
        assert(sounds(f, t1, (mf + d) - d));
        assert(sounds(g, t2, mf + d));
        let j = choose|j: int| 0 <= j < 6 && is_played(g, j) && #[trigger] midi_at(g, t2, j) == mf + d;
        lemma_moved_mod(mf, mf, d);
        assert(midi_at(g, t2, j) % 12 == q);
        assert(lowest_midi(g, t2, q) <= mf + d);
        let j2 = choose|j: int|
            0 <= j < 6 && is_played(g, j) && #[trigger] midi_at(g, t2, j) % 12 == q && midi_at(g, t2, j)
                == lowest_of_pitch(g, t2, q, 6);
        let mg = midi_at(g, t2, j2);
        assert(sounds(g, t2, mg));
        let i2 = choose|i: int| 0 <= i < 6 && is_played(f, i) && #[trigger] midi_at(f, t1, i) == mg - d;
        lemma_moved_mod(mg - d, p, d);
        assert(midi_at(f, t1, i2) % 12 == p);
    }
    if played_count(f, 6) > 0 {
        lemma_played_count(f, 6);
        lemma_lowest_note_of(f, t1, 6);
        lemma_lowest_note_of(g, t2, 6);
        let i0 = choose|i: int| 0 <= i < 6 && is_played(f, i);
        assert(lowest_note_of(f, t1, 6) <= midi_at(f, t1, i0));
        let i = choose|i: int| 0 <= i < 6 && is_played(f, i) && #[trigger] midi_at(f, t1, i) == lowest_note_of(f, t1, 6);
        let mf = midi_at(f, t1, i);
        assert(sounds(f, t1, (mf + d) - d));
        assert(sounds(g, t2, mf + d));
        let j = choose|j: int| 0 <= j < 6 && is_played(g, j) && #[trigger] midi_at(g, t2, j) == mf + d;
        assert(lowest_note_of(g, t2, 6) <= mf + d);
        let j2 = choose|j: int| 0 <= j < 6 && is_played(g, j) && #[trigger] midi_at(g, t2, j) == lowest_note_of(g, t2, 6);
        let mg = midi_at(g, t2, j2);
        assert(sounds(g, t2, mg));
        let i2 = choose|i: int| 0 <= i < 6 && is_played(f, i) && #[trigger] midi_at(f, t1, i) == mg - d;
    }
}



/// Moving every note `d` semitones moves every candidate root with it and
/// keeps which candidates fit, their scores and their ranking.
proof fn lemma_moved_ranking(f: Seq<i8>, t1: Seq<u8>, g: Seq<i8>, t2: Seq<u8>, d: int)
    requires
        f.len() == 6,
        t1.len() == 6,
        g.len() == 6,
        t2.len() == 6,
        sounds_moved(f, t1, g, t2, d),
    ensures
        forall|x: int, q: int| #[trigger] fits(g, t2, x, q) ==> 0 <= x < 12,
        forall|p: int, q: int| 0 <= p < 12 ==> #[trigger] fits(g, t2, moved_pitch(p, d), q) == fits(f, t1, p, q),
        forall|p: int, q: int| #[trigger] fits(f, t1, p, q) ==> 0 <= p < 12 && chord_score(g, t2, moved_pitch(p, d), q) == chord_score(f, t1, p, q),
        forall|p: int, q: int| #[trigger] fits(f, t1, p, q) ==> lowest_midi(g, t2, moved_pitch(p, d)) == lowest_midi(f, t1, p) + d,
        forall|p: int, q: int| #[trigger] fits(f, t1, p, q) ==> bass_pitch(g, t2) == moved_pitch(bass_pitch(f, t1), d),
        forall|p1: int, q1: int, p2: int, q2: int|
            fits(f, t1, p1, q1) && fits(f, t1, p2, q2) ==> #[trigger] ranks_before(g, t2, moved_pitch(p1, d), q1, moved_pitch(p2, d), q2) == #[trigger] ranks_before(f, t1, p1, q1, p2, q2),
{
    lemma_moved_facts(f, t1, g, t2, d);
    assert forall|x: int, q: int| #[trigger] fits(g, t2, x, q) implies 0 <= x < 12 by {
        let j = choose|j: int| 0 <= j < 6 && is_played(g, j) && #[trigger] midi_at(g, t2, j) % 12 == x;
    }
    assert forall|p: int, q: int| 0 <= p < 12 implies #[trigger] fits(g, t2, moved_pitch(p, d), q) == fits(f, t1, p, q) by {
        assert(chord_mask(g, t2, moved_pitch(p, d)) =~= chord_mask(f, t1, p));
    }
    assert forall|p: int, q: int| #[trigger] fits(f, t1, p, q) implies bass_pitch(g, t2) == moved_pitch(bass_pitch(f, t1), d) by {
        let i = choose|i: int| 0 <= i < 6 && is_played(f, i) && #[trigger] midi_at(f, t1, i) % 12 == p;
        lemma_played_count_positive(f, i, 6);
        lemma_moved_mod(lowest_note_of(f, t1, 6), 0, d);
    }
    assert forall|p: int, q: int| #[trigger] fits(f, t1, p, q) implies 0 <= p < 12 && chord_score(g, t2, moved_pitch(p, d), q) == chord_score(f, t1, p, q) by {
        let i = choose|i: int| 0 <= i < 6 && is_played(f, i) && #[trigger] midi_at(f, t1, i) % 12 == p;
        assert(chord_mask(g, t2, moved_pitch(p, d)) =~= chord_mask(f, t1, p));
        assert(bass_pitch(g, t2) == moved_pitch(bass_pitch(f, t1), d));
        lemma_moved_back(p, d);
        assert(0 <= bass_pitch(f, t1) < 12);
    }
    assert forall|p: int, q: int| #[trigger] fits(f, t1, p, q) implies lowest_midi(g, t2, moved_pitch(p, d)) == lowest_midi(f, t1, p) + d by {
        let i = choose|i: int| 0 <= i < 6 && is_played(f, i) && #[trigger] midi_at(f, t1, i) % 12 == p;
    }
    assert forall|p1: int, q1: int, p2: int, q2: int|
        fits(f, t1, p1, q1) && fits(f, t1, p2, q2) implies #[trigger] ranks_before(g, t2, moved_pitch(p1, d), q1, moved_pitch(p2, d), q2) == #[trigger] ranks_before(f, t1, p1, q1, p2, q2) by {
        assert(chord_score(g, t2, moved_pitch(p1, d), q1) == chord_score(f, t1, p1, q1));
        assert(chord_score(g, t2, moved_pitch(p2, d), q2) == chord_score(f, t1, p2, q2));
        assert(lowest_midi(g, t2, moved_pitch(p1, d)) == lowest_midi(f, t1, p1) + d);
        assert(lowest_midi(g, t2, moved_pitch(p2, d)) == lowest_midi(f, t1, p2) + d);
        lemma_moved_back(p1, d);
    }
}

/// A played string makes the count of played strings positive.
proof fn lemma_played_count_positive(f: Seq<i8>, i: int, n: int)
    requires
        0 <= i < n <= 6,
        is_played(f, i),
    ensures
        played_count(f, n) > 0,
    decreases n,
{
    if i < n - 1 {
        lemma_played_count_positive(f, i, n - 1);
    } else {
        lemma_played_count_nonneg(f, n - 1);
    }
}

/// No count of played strings is negative.
proof fn lemma_played_count_nonneg(f: Seq<i8>, n: int)
    ensures
        played_count(f, n) >= 0,
    decreases n,
{
    if n > 0 {
        lemma_played_count_nonneg(f, n - 1);
    }
}


/// Moving every note `d` semitones moves the best candidate among the roots
/// outside `ex1` to the best among the roots outside `ex2`, the moved `ex1`.
proof fn lemma_moved_best(f: Seq<i8>, t1: Seq<u8>, g: Seq<i8>, t2: Seq<u8>, d: int, ex1: Set<int>, ex2: Set<int>)
    requires
        f.len() == 6,
        t1.len() == 6,
        g.len() == 6,
        t2.len() == 6,
        sounds_moved(f, t1, g, t2, d),
        forall|p: int| 0 <= p < 12 ==> #[trigger] ex2.contains(moved_pitch(p, d)) == ex1.contains(p),
    ensures
        forall|p: int, q: int| 0 <= p < 12 ==> #[trigger] is_best(g, t2, ex2, moved_pitch(p, d), q) == is_best(f, t1, ex1, p, q),
        some_fit(g, t2, ex2) == some_fit(f, t1, ex1),
{
    lemma_moved_ranking(f, t1, g, t2, d);
    assert forall|p: int, q: int| 0 <= p < 12 implies #[trigger] is_best(g, t2, ex2, moved_pitch(p, d), q) == is_best(f, t1, ex1, p, q) by {
        assert(fits(g, t2, moved_pitch(p, d), q) == fits(f, t1, p, q));
        assert(ex2.contains(moved_pitch(p, d)) == ex1.contains(p));
        if is_best(f, t1, ex1, p, q) {
            assert forall|x: int, q2: int| #[trigger] fits(g, t2, x, q2) && !ex2.contains(x) implies ranks_before(g, t2, moved_pitch(p, d), q, x, q2) by {
                let p2 = moved_pitch(x, -d);
                lemma_moved_back(x, d);
                lemma_moved_mod(x, x, -d);
                assert(fits(g, t2, moved_pitch(p2, d), q2));
                assert(fits(f, t1, p2, q2));
                assert(ex2.contains(moved_pitch(p2, d)) == ex1.contains(p2));
                assert(ranks_before(f, t1, p, q, p2, q2));
                assert(ranks_before(g, t2, moved_pitch(p, d), q, moved_pitch(p2, d), q2));
            }
        }
        if is_best(g, t2, ex2, moved_pitch(p, d), q) {
            assert forall|p2: int, q2: int| #[trigger] fits(f, t1, p2, q2) && !ex1.contains(p2) implies ranks_before(f, t1, p, q, p2, q2) by {
                assert(0 <= p2 < 12);
                assert(fits(g, t2, moved_pitch(p2, d), q2));
                assert(ex2.contains(moved_pitch(p2, d)) == ex1.contains(p2));
                assert(ranks_before(g, t2, moved_pitch(p, d), q, moved_pitch(p2, d), q2));
            }
        }
    }
    if some_fit(f, t1, ex1) {
        let (p, q) = choose|p: int, q: int| #[trigger] fits(f, t1, p, q) && !ex1.contains(p);
        assert(0 <= p < 12);
        assert(fits(g, t2, moved_pitch(p, d), q));
        assert(ex2.contains(moved_pitch(p, d)) == ex1.contains(p));
    }
    if some_fit(g, t2, ex2) {
        let (x, q) = choose|p: int, q: int| #[trigger] fits(g, t2, p, q) && !ex2.contains(p);
        let p = moved_pitch(x, -d);
        lemma_moved_back(x, d);
        lemma_moved_mod(x, x, -d);
        assert(fits(g, t2, moved_pitch(p, d), q));
        assert(fits(f, t1, p, q));
        assert(ex2.contains(moved_pitch(p, d)) == ex1.contains(p));
    }
}

/// Match `m2` is match `m1` moved `d` semitones: root and bass moved, the
/// same quality, inversion and score.
pub open spec fn moved_match(m1: ChordMatch, m2: ChordMatch, d: int) -> bool {
    &&& m2.root@ == moved_pitch(m1.root@ as int, d)
    &&& m2.quality@ == m1.quality@
    &&& m2.bass@ == moved_pitch(m1.bass@ as int, d)
    &&& m2.is_inversion == m1.is_inversion
    &&& m2.score == m1.score
}

/// The choices that a fingering and its notes moved `d` semitones make
/// among corresponding roots are the same match moved.
proof fn lemma_moved_choice(
    f: Seq<i8>,
    t1: Seq<u8>,
    g: Seq<i8>,
    t2: Seq<u8>,
    d: int,
    ex1: Set<int>,
    ex2: Set<int>,
    m1: ChordMatch,
    m2: ChordMatch,
)
    requires
        f.len() == 6,
        t1.len() == 6,
        g.len() == 6,
        t2.len() == 6,
        sounds_moved(f, t1, g, t2, d),
        forall|p: int| 0 <= p < 12 ==> #[trigger] ex2.contains(moved_pitch(p, d)) == ex1.contains(p),
        is_choice(f, t1, ex1, m1),
        is_choice(g, t2, ex2, m2),
    ensures
        moved_match(m1, m2, d),
{
    lemma_moved_ranking(f, t1, g, t2, d);
    lemma_moved_best(f, t1, g, t2, d, ex1, ex2);
    let (p1, q1) = choose|p: int, q: int| #[trigger] is_best(f, t1, ex1, p, q) && describes(f, t1, m1, p, q);
    let (x, q2) = choose|p: int, q: int| #[trigger] is_best(g, t2, ex2, p, q) && describes(g, t2, m2, p, q);
    assert(fits(g, t2, x, q2));
    let p2 = moved_pitch(x, -d);
    lemma_moved_back(x, d);
    lemma_moved_mod(x, x, -d);
    assert(is_best(g, t2, ex2, moved_pitch(p2, d), q2));
    assert(is_best(f, t1, ex1, p2, q2));
    law_best_is_unique(f, t1, ex1, p1, q1, p2, q2);
    assert(fits(f, t1, p1, q1));
    lemma_moved_back(p1, d);
    assert(0 <= bass_pitch(f, t1) < 12);
    assert(bass_pitch(g, t2) == moved_pitch(bass_pitch(f, t1), d));
}

/// The pitch classes and interval sizes of a list of notes with intervals,
/// the pitch classes moved `d` semitones.
pub open spec fn moved_intervals(s: Seq<(PitchClass, Interval)>, d: int) -> Seq<(int, int)> {
    s.map_values(|x: (PitchClass, Interval)| (moved_pitch(x.0@ as int, d), x.1.semitones as int))
}

/// Result `c2` is result `c1` moved `d` semitones: every match moved, the
/// notes played moved in the same order, the intervals kept.
pub open spec fn moved_result(c1: ChordResult, c2: ChordResult, d: int) -> bool {
    &&& moved_match(c1.primary, c2.primary, d)
    &&& c2.alternatives@.len() == c1.alternatives@.len()
    &&& forall|k: int| 0 <= k < c1.alternatives@.len() ==> moved_match(#[trigger] c1.alternatives@[k], c2.alternatives@[k], d)
    &&& pitch_values(c2.notes_played@) == pitch_values(c1.notes_played@).map_values(|p: int| moved_pitch(p, d))
    &&& interval_values(c2.intervals_from_root@) == moved_intervals(c1.intervals_from_root@, d)
    &&& interval_values(c2.intervals_from_bass@) == moved_intervals(c1.intervals_from_bass@, d)
}

/// Notes played moved `d` semitones, string by string, are the moved sound:
/// the same number of strings play, each sounding a note moved `d`.
proof fn lemma_moved_sound(f1: Seq<i8>, t1: Seq<u8>, f2: Seq<i8>, t2: Seq<u8>, d: int)
    requires
        f1.len() == 6,
        t1.len() == 6,
        f2.len() == 6,
        t2.len() == 6,
        played_midis(f2, t2) == played_midis(f1, t1).map_values(|m: int| m + d),
    ensures
        sounds_moved(f1, t1, f2, t2, d),
        played_count(f1, 6) == played_count(f2, 6),
{
    lemma_played_midis(f1, t1, 6);
    lemma_played_midis(f2, t2, 6);
    lemma_midis_between(f1, t1, 6);
    lemma_midis_between(f2, t2, 6);
    let s1 = midis_between(f1, t1, 0, 6);
    let s2 = midis_between(f2, t2, 0, 6);
    assert(s2 == s1.map_values(|m: int| m + d));
    assert forall|m: int| #[trigger] sounds(f2, t2, m) <==> sounds(f1, t1, m - d) by {
        if sounds(f2, t2, m) {
            assert(s2.contains(m));
            let k = choose|k: int| 0 <= k < s2.len() && s2[k] == m;
            assert(s1[k] == m - d);
            assert(s1.contains(m - d));
        }
        if sounds(f1, t1, m - d) {
            assert(s1.contains(m - d));
            let k = choose|k: int| 0 <= k < s1.len() && s1[k] == m - d;
            assert(s2[k] == m);
            assert(s2.contains(m));
        }
    }
}

/// The notes played, in order, of a fingering whose notes are another's
/// moved `d` semitones are the other's moved.
proof fn lemma_moved_notes(f1: Seq<i8>, t1: Seq<u8>, f2: Seq<i8>, t2: Seq<u8>, d: int, u1: Seq<int>, u2: Seq<int>)
    requires
        f1.len() == 6,
        t1.len() == 6,
        f2.len() == 6,
        t2.len() == 6,
        sounds_moved(f1, t1, f2, t2, d),
        is_pitch_order(f1, t1, u1),
        is_pitch_order(f2, t2, u2),
    ensures
        u2 == u1.map_values(|p: int| moved_pitch(p, d)),
{
    lemma_moved_facts(f1, t1, f2, t2, d);
    let um = u1.map_values(|p: int| moved_pitch(p, d));
    let key = |p: int| lowest_midi(f2, t2, p);
    assert forall|a: int| 0 <= a < u1.len() implies 0 <= #[trigger] u1[a] < 12 by {
        assert(plays_pitch(f1, t1, u1[a]));
    }
    assert forall|x: int| um.contains(x) <==> #[trigger] u2.contains(x) by {
        if um.contains(x) {
            let i = choose|i: int| 0 <= i < um.len() && um[i] == x;
            assert(plays_pitch(f1, t1, u1[i]));
            assert(plays_pitch(f2, t2, moved_pitch(u1[i], d)));
        }
        if u2.contains(x) {
            let i = choose|i: int| 0 <= i < u2.len() && u2[i] == x;
            assert(plays_pitch(f2, t2, u2[i]));
            let j = choose|j: int| 0 <= j < 6 && is_played(f2, j) && #[trigger] midi_at(f2, t2, j) % 12 == x;
            let p = moved_pitch(x, -d);
            lemma_moved_back(x, d);
            lemma_moved_mod(x, x, -d);
            assert(plays_pitch(f2, t2, moved_pitch(p, d)));
            assert(plays_pitch(f1, t1, p));
            assert(u1.contains(p));
            let k = choose|k: int| 0 <= k < u1.len() && u1[k] == p;
            assert(um[k] == x);
        }
    }
    assert forall|a: int, b: int| 0 <= a < b < um.len() implies key(#[trigger] um[a]) < key(#[trigger] um[b]) by {
        assert(plays_pitch(f1, t1, u1[a]));
        assert(plays_pitch(f1, t1, u1[b]));
        assert(lowest_midi(f1, t1, u1[a]) < lowest_midi(f1, t1, u1[b]));
    }
    assert forall|a: int, b: int| 0 <= a < b < u2.len() implies key(#[trigger] u2[a]) < key(#[trigger] u2[b]) by {}
    lemma_sorted_unique(um, u2, key);
}

/// The alternatives of a fingering whose notes are another's moved `d`
/// semitones are the other's alternatives moved.
proof fn lemma_moved_alternatives(f1: Seq<i8>, t1: Seq<u8>, f2: Seq<i8>, t2: Seq<u8>, d: int, c1: ChordResult, c2: ChordResult)
    requires
        f1.len() == 6,
        t1.len() == 6,
        f2.len() == 6,
        t2.len() == 6,
        sounds_moved(f1, t1, f2, t2, d),
        identified(f1, t1, c1),
        identified(f2, t2, c2),
        moved_match(c1.primary, c2.primary, d),
    ensures
        c2.alternatives@.len() == c1.alternatives@.len(),
        forall|k: int| 0 <= k < c1.alternatives@.len() ==> moved_match(#[trigger] c1.alternatives@[k], c2.alternatives@[k], d),
{
    let e = Set::<int>::empty();
    let r1 = c1.primary.root@ as int;
    let r2 = c2.primary.root@ as int;
    let ex1 = e.insert(r1);
    let ey1 = e.insert(r2);
    lemma_moved_back(r1, d);
    assert forall|p: int| 0 <= p < 12 implies #[trigger] ey1.contains(moved_pitch(p, d)) == ex1.contains(p) by {}
    lemma_moved_best(f1, t1, f2, t2, d, ex1, ey1);
    let a1 = c1.alternatives@;
    let a2 = c2.alternatives@;
    if a1.len() >= 1 {
        lemma_moved_choice(f1, t1, f2, t2, d, ex1, ey1, a1[0], a2[0]);
        let b1 = a1[0].root@ as int;
        let ex2 = ex1.insert(b1);
        let ey2 = ey1.insert(a2[0].root@ as int);
        lemma_moved_back(b1, d);
        assert forall|p: int| 0 <= p < 12 implies #[trigger] ey2.contains(moved_pitch(p, d)) == ex2.contains(p) by {}
        lemma_moved_best(f1, t1, f2, t2, d, ex2, ey2);
        if a1.len() == 2 {
            lemma_moved_choice(f1, t1, f2, t2, d, ex2, ey2, a1[1], a2[1]);
        }
    }
}

/// Identification follows the notes: when a fingering plays, string by
/// string from the lowest up, the notes of another moved `d` semitones, its
/// answer is the other's moved `d` semitones (both name no chord, or the
/// same chords with roots, bass and notes moved).
pub proof fn law_moved_notes_moved_chord(
    f1: Seq<i8>,
    t1: Seq<u8>,
    f2: Seq<i8>,
    t2: Seq<u8>,
    d: int,
    c1: ChordResult,
    c2: ChordResult,
)
    requires
        f1.len() == 6,
        t1.len() == 6,
        f2.len() == 6,
        t2.len() == 6,
        played_midis(f2, t2) == played_midis(f1, t1).map_values(|m: int| m + d),
    ensures
        no_chord(f1, t1) <==> no_chord(f2, t2),
        identified(f1, t1, c1) && identified(f2, t2, c2) ==> moved_result(c1, c2, d),
{
    lemma_moved_sound(f1, t1, f2, t2, d);
    let e = Set::<int>::empty();
    lemma_moved_best(f1, t1, f2, t2, d, e, e);
    if identified(f1, t1, c1) && identified(f2, t2, c2) {
        lemma_moved_choice(f1, t1, f2, t2, d, e, e, c1.primary, c2.primary);
        lemma_moved_alternatives(f1, t1, f2, t2, d, c1, c2);
        let u1 = pitch_values(c1.notes_played@);
        let u2 = pitch_values(c2.notes_played@);
        lemma_moved_notes(f1, t1, f2, t2, d, u1, u2);
        lemma_moved_intervals(c1.intervals_from_root@, c2.intervals_from_root@, u1, u2, c1.primary.root@ as int, c2.primary.root@ as int, d);
        lemma_moved_intervals(c1.intervals_from_bass@, c2.intervals_from_bass@, u1, u2, bass_pitch(f1, t1), bass_pitch(f2, t2), d);
    }
}

/// Intervals above a note, with the notes and that note moved, keep their
/// sizes.
proof fn lemma_moved_intervals(
    s1: Seq<(PitchClass, Interval)>,
    s2: Seq<(PitchClass, Interval)>,
    u1: Seq<int>,
    um: Seq<int>,
    from1: int,
    from2: int,
    d: int,
)
    requires
        intervals_above(s1, u1, from1),
        intervals_above(s2, um, from2),
        um == u1.map_values(|p: int| moved_pitch(p, d)),
        from2 == moved_pitch(from1, d),
    ensures
        interval_values(s2) == moved_intervals(s1, d),
{
    assert forall|i: int| 0 <= i < s2.len() implies #[trigger] interval_values(s2)[i] == moved_intervals(s1, d)[i] by {
        lemma_moved_mod(u1[i], from1, d);
        assert(um[i] == moved_pitch(u1[i], d));
    }
    assert(interval_values(s2) =~= moved_intervals(s1, d));
}


/// The notes of the strings `0..n` of a fingering moved `d` frets along the
/// neck are its notes moved `d` semitones.
proof fn lemma_shifted_midis(f: Seq<i8>, t: Seq<u8>, d: int, n: int)
    requires
        f.len() == 6,
        0 <= n <= 6,
        fret_shift_ok(f, d),
    ensures
        midis_between(shifted_frets(f, d), t, 0, n) == midis_between(f, t, 0, n).map_values(|m: int| m + d),
    decreases n,
{
    if n > 0 {
        lemma_shifted_midis(f, t, d, n - 1);
        let g = shifted_frets(f, d);
        if f[n - 1] >= 0 {
            assert(0 <= shifted_fret(f[n - 1], d) <= MAX_FRET);
        }
        assert(is_played(g, n - 1) == is_played(f, n - 1));
        assert(midis_between(g, t, 0, n) =~= midis_between(f, t, 0, n).map_values(|m: int| m + d));
    }
}

/// Moving a fingering `d` frets along the neck moves the chord it names `d`
/// semitones: the same qualities over roots, bass and notes moved `d`
/// semitones, or no chord for both.
pub proof fn law_fret_shift_moves_chord(f: Seq<i8>, t: Seq<u8>, d: int, c1: ChordResult, c2: ChordResult)
    requires
        f.len() == 6,
        t.len() == 6,
        fret_shift_ok(f, d),
    ensures
        no_chord(f, t) <==> no_chord(shifted_frets(f, d), t),
        identified(f, t, c1) && identified(shifted_frets(f, d), t, c2) ==> moved_result(c1, c2, d),
{
    let g = shifted_frets(f, d);
    lemma_shifted_midis(f, t, d, 6);
    lemma_played_midis(f, t, 6);
    lemma_played_midis(g, t, 6);
    assert(played_midis(g, t) == played_midis(f, t).map_values(|m: int| m + d));
    law_moved_notes_moved_chord(f, t, g, t, d, c1, c2);
}


/// Match `m` explains every note played: its root is played, and each note
/// lies, within an octave, on one of the quality's intervals above the root.
pub open spec fn explains_notes(f: Seq<i8>, t: Seq<u8>, m: ChordMatch) -> bool {
    &&& plays_pitch(f, t, m.root@ as int)
    &&& forall|k: int| 0 <= k < 12 && #[trigger] chord_has(f, t, m.root@ as int, k) ==> has_interval_class(m.quality@.2, k)
}

/// A choice among the candidates explains every note played.
proof fn lemma_choice_explains(f: Seq<i8>, t: Seq<u8>, ex: Set<int>, m: ChordMatch)
    requires
        is_choice(f, t, ex, m),
    ensures
        explains_notes(f, t, m),
{
    let (p, q) = choose|p: int, q: int| #[trigger] is_best(f, t, ex, p, q) && describes(f, t, m, p, q);
    assert forall|k: int| 0 <= k < 12 && #[trigger] chord_has(f, t, m.root@ as int, k) implies has_interval_class(m.quality@.2, k) by {
        assert(chord_mask(f, t, p)[k]);
        assert(quality_mask(q)[k]);
    }
}

/// Every chord that identification names, the primary match and each
/// alternative, explains all the notes played.
pub proof fn law_named_chords_explain_the_notes(f: Seq<i8>, t: Seq<u8>, c: ChordResult)
    requires
        identified(f, t, c),
    ensures
        explains_notes(f, t, c.primary),
        forall|k: int| 0 <= k < c.alternatives@.len() ==> explains_notes(f, t, #[trigger] c.alternatives@[k]),
{
    lemma_choice_explains(f, t, Set::empty(), c.primary);
    let ex1 = Set::<int>::empty().insert(c.primary.root@ as int);
    let a = c.alternatives@;
    if a.len() >= 1 {
        lemma_choice_explains(f, t, ex1, a[0]);
        if a.len() == 2 {
            lemma_choice_explains(f, t, ex1.insert(a[0].root@ as int), a[1]);
        }
    }
}


/// The display name of a match begins with its root's name followed by its
/// quality's symbol, inversion or not; an inversion's name is the name it
/// would have in root position followed by "/" and the bass's name, and a
/// match in root position names nothing more.
pub proof fn law_display_name_shape(root: u8, symbol: Seq<char>, bass: u8, is_inversion: bool)
    ensures
        (spec_name(root) + symbol).is_prefix_of(spec_display_name(root, symbol, bass, is_inversion)),
        spec_display_name(root, symbol, bass, false) == spec_name(root) + symbol,
        spec_display_name(root, symbol, bass, true) == spec_display_name(root, symbol, bass, false)
            + "/"@ + spec_name(bass),
{
    let base = spec_name(root) + symbol;
    assert(spec_display_name(root, symbol, bass, is_inversion).subrange(0, base.len() as int) =~= base);
    assert(base.is_prefix_of(spec_display_name(root, symbol, bass, is_inversion)));
}


/// Whether interval class `k` occurs in `s` (read from the last interval).
pub open spec fn class_in(s: Seq<u8>, k: int) -> bool
    decreases s.len(),
{
    if s.len() == 0 {
        false
    } else {
        s.last() % 12 == k || class_in(s.drop_last(), k)
    }
}

proof fn lemma_class_in(s: Seq<u8>, k: int)
    ensures
        class_in(s, k) == has_interval_class(s, k),
    decreases s.len(),
{
    if s.len() > 0 {
        lemma_class_in(s.drop_last(), k);
        if has_interval_class(s, k) {
            let j = choose|j: int| 0 <= j < s.len() && #[trigger] s[j] % 12 == k;
            if j < s.len() - 1 {
                assert(s.drop_last()[j] == s[j]);
            }
        }
        if has_interval_class(s.drop_last(), k) {
            let j = choose|j: int| 0 <= j < s.drop_last().len() && #[trigger] s.drop_last()[j] % 12 == k;
            assert(s[j] == s.drop_last()[j]);
        }
        assert(s[s.len() - 1] == s.last());
    }
}

/// The interval classes of a major seventh chord: root, major third, fifth
/// and major seventh.
pub open spec fn major_seventh_class(k: int) -> bool {
    k == 0 || k == 4 || k == 7 || k == 11
}

/// Entry 8 of the database is the only quality whose interval classes are
/// those of a major seventh chord.
proof fn lemma_major_seventh_entry(q: int)
    requires
        0 <= q < QUALITY_COUNT,
    ensures
        (forall|k: int| 0 <= k < 12 ==> #[trigger] quality_mask(q)[k] == major_seventh_class(k)) <==> q == 8,
{
    reveal_with_fuel(class_in, 7);
    if q == 8 {
        assert forall|k: int| 0 <= k < 12 implies #[trigger] quality_mask(q)[k] == major_seventh_class(k) by {
            lemma_class_in(quality_intervals(8), k);
        }
    } else if q == 13 {
        lemma_class_in(quality_intervals(q), 3);
        assert(quality_mask(q)[3] != major_seventh_class(3));
    } else if q == 18 {
        lemma_class_in(quality_intervals(q), 2);
        assert(quality_mask(q)[2] != major_seventh_class(2));
    } else {
        lemma_class_in(quality_intervals(q), 11);
        assert(!class_in(quality_intervals(q), 11));
        assert(quality_mask(q)[11] != major_seventh_class(11));
    }
}

/// No penalty is negative.
proof fn lemma_missing_nonneg(chord: Seq<bool>, quality: Seq<bool>, n: int)
    ensures
        missing_penalty(chord, quality, n) >= 0,
    decreases n,
{
    if n > 0 {
        lemma_missing_nonneg(chord, quality, n - 1);
    }
}

/// Leaving out any interval class of the quality costs at least 10.
proof fn lemma_missing_some(chord: Seq<bool>, quality: Seq<bool>, n: int, k: int)
    requires
        0 <= k < n,
        quality[k],
        !chord[k],
    ensures
        missing_penalty(chord, quality, n) >= 10,
    decreases n,
{
    lemma_missing_nonneg(chord, quality, n - 1);
    if k < n - 1 {
        lemma_missing_some(chord, quality, n - 1, k);
    }
}

/// Leaving out nothing costs nothing.
proof fn lemma_missing_none(chord: Seq<bool>, quality: Seq<bool>, n: int)
    requires
        forall|k: int| 0 <= k < n ==> (quality[k] ==> chord[k]),
    ensures
        missing_penalty(chord, quality, n) == 0,
    decreases n,
{
    if n > 0 {
        lemma_missing_none(chord, quality, n - 1);
    }
}

/// Whenever the notes played are, above a root that sounds as the bass,
/// exactly that root, its major third, its fifth and its major seventh (in
/// any octaves and on any strings), identification names that root with the
/// major seventh quality ("maj7", "major 7th"), in root position.
pub proof fn law_major_seventh_chords_named(f: Seq<i8>, t: Seq<u8>, r: int, c: ChordResult)
    requires
        f.len() == 6,
        t.len() == 6,
        0 <= r < 12,
        bass_pitch(f, t) == r,
        forall|k: int| 0 <= k < 12 ==> (#[trigger] chord_has(f, t, r, k) <==> major_seventh_class(k)),
        identified(f, t, c),
    ensures
        c.primary.root@ == r,
        c.primary.quality@.0 == "maj7"@,
        c.primary.quality@.1 == "major 7th"@,
        !c.primary.is_inversion,
{
    let m = Seq::new(12, |k: int| major_seventh_class(k));
    assert(chord_mask(f, t, r) =~= m);
    lemma_major_seventh_entry(8);
    assert(chord_has(f, t, r, 0));
    let i = choose|i: int| 0 <= i < 6 && is_played(f, i) && (#[trigger] midi_at(f, t, i) - r) % 12 == 0;
    lemma_mod12_of_difference(midi_at(f, t, i), r);
    assert(midi_at(f, t, i) % 12 == r);
    assert(plays_pitch(f, t, r));
    assert forall|k: int| 0 <= k < 12 implies (#[trigger] chord_mask(f, t, r)[k] ==> quality_mask(8)[k]) by {
        assert(quality_mask(8)[k] == major_seventh_class(k));
    }
    assert(fits(f, t, r, 8));
    lemma_missing_none(chord_mask(f, t, r), quality_mask(8), 12);
    assert(quality_intervals(8).len() == 4);
    assert(chord_score(f, t, r, 8) == -6);
    let (p, q) = choose|p: int, q: int| #[trigger] is_best(f, t, Set::empty(), p, q) && describes(f, t, c.primary, p, q);
    assert(fits(f, t, r, 8) && !Set::<int>::empty().contains(r));
    assert(ranks_before(f, t, p, q, r, 8));
    lemma_missing_nonneg(chord_mask(f, t, p), quality_mask(q), 12);
    assert(chord_score(f, t, p, q) <= -6);
    assert(p == r);
    assert forall|k: int| 0 <= k < 12 implies #[trigger] quality_mask(q)[k] == major_seventh_class(k) by {
        if quality_mask(q)[k] && !chord_mask(f, t, r)[k] {
            lemma_missing_some(chord_mask(f, t, r), quality_mask(q), 12, k);
        }
        assert(chord_mask(f, t, r)[k] == major_seventh_class(k));
    }
    lemma_major_seventh_entry(q);
    reveal_strlit("maj7");
    reveal_strlit("major 7th");
}


/// The twelve interval classes of quality `q`, each read off its intervals.
proof fn lemma_mask_values(q: int)
    requires
        0 <= q < QUALITY_COUNT,
    ensures
        forall|k: int| 0 <= k < 12 ==> #[trigger] quality_mask(q)[k] == class_in(quality_intervals(q), k),
{
    assert forall|k: int| 0 <= k < 12 implies #[trigger] quality_mask(q)[k] == class_in(quality_intervals(q), k) by {
        lemma_class_in(quality_intervals(q), k);
    }
}

/// Qualities `q` and `q0` have the same interval classes.
pub open spec fn same_classes(q: int, q0: int) -> bool {
    forall|k: int| 0 <= k < 12 ==> #[trigger] quality_mask(q)[k] == quality_mask(q0)[k]
}

/// A fingering whose notes above a root in the bass are exactly the
/// interval classes of quality `q0`, a quality that no other entry repeats,
/// is named that root with quality `q0`, in root position.
proof fn lemma_exact_shape(f: Seq<i8>, t: Seq<u8>, r: int, c: ChordResult, q0: int)
    requires
        f.len() == 6,
        t.len() == 6,
        0 <= r < 12,
        0 <= q0 < QUALITY_COUNT,
        bass_pitch(f, t) == r,
        forall|k: int| 0 <= k < 12 ==> #[trigger] chord_has(f, t, r, k) == quality_mask(q0)[k],
        quality_mask(q0)[0],
        forall|q: int| 0 <= q < QUALITY_COUNT && #[trigger] same_classes(q, q0) ==> q == q0,
        identified(f, t, c),
    ensures
        c.primary.root@ == r,
        c.primary.quality@ == quality_table(q0),
        !c.primary.is_inversion,
{
    assert(chord_mask(f, t, r) =~= quality_mask(q0));
    assert(chord_has(f, t, r, 0));
    let i = choose|i: int| 0 <= i < 6 && is_played(f, i) && (#[trigger] midi_at(f, t, i) - r) % 12 == 0;
    lemma_mod12_of_difference(midi_at(f, t, i), r);
    assert(plays_pitch(f, t, r));
    assert(fits(f, t, r, q0));
    lemma_missing_none(chord_mask(f, t, r), quality_mask(q0), 12);
    assert(chord_score(f, t, r, q0) <= -5);
    let (p, q) = choose|p: int, q: int| #[trigger] is_best(f, t, Set::empty(), p, q) && describes(f, t, c.primary, p, q);
    assert(fits(f, t, r, q0) && !Set::<int>::empty().contains(r));
    assert(ranks_before(f, t, p, q, r, q0));
    lemma_missing_nonneg(chord_mask(f, t, p), quality_mask(q), 12);
    assert(p == r);
    if exists|k: int| 0 <= k < 12 && quality_mask(q)[k] && !chord_mask(f, t, r)[k] {
        let k = choose|k: int| 0 <= k < 12 && quality_mask(q)[k] && !chord_mask(f, t, r)[k];
        lemma_missing_some(chord_mask(f, t, r), quality_mask(q), 12, k);
        assert(false);
    }
    assert forall|k: int| 0 <= k < 12 implies #[trigger] quality_mask(q)[k] == quality_mask(q0)[k] by {
        assert(chord_mask(f, t, r)[k] == quality_mask(q0)[k]);
    }
    assert(same_classes(q, q0));
}

/// The interval classes of a major triad: root, major third and fifth.
pub open spec fn major_triad_class(k: int) -> bool {
    k == 0 || k == 4 || k == 7
}

/// Whenever the notes played are, above a root that sounds as the bass,
/// exactly that root, its major third and its fifth, identification names
/// that root as a major chord (symbol "", "major"), in root position.
pub proof fn law_major_triads_named(f: Seq<i8>, t: Seq<u8>, r: int, c: ChordResult)
    requires
        f.len() == 6,
        t.len() == 6,
        0 <= r < 12,
        bass_pitch(f, t) == r,
        forall|k: int| 0 <= k < 12 ==> (#[trigger] chord_has(f, t, r, k) <==> major_triad_class(k)),
        identified(f, t, c),
    ensures
        c.primary.root@ == r,
        c.primary.quality@.0 == ""@,
        c.primary.quality@.1 == "major"@,
        !c.primary.is_inversion,
{
    assert forall|q: int| 0 <= q < QUALITY_COUNT && #[trigger] same_classes(q, 0) implies q == 0 by {
        if q != 0 {
            lemma_unique_classes_major(q);
        }
    }
    lemma_exact_shape(f, t, r, c, 0);
    reveal_strlit("");
    reveal_strlit("major");
}


/// No entry other than 0 has the interval classes of entry 0.
proof fn lemma_unique_classes_major(q: int)
    requires
        0 <= q < QUALITY_COUNT,
        q != 0,
    ensures
        !same_classes(q, 0),
{
    reveal_with_fuel(class_in, 7);
    if q == 1 {
        lemma_class_in(quality_intervals(1), 3);
        lemma_class_in(quality_intervals(0), 3);
        assert(quality_mask(q)[3] != quality_mask(0)[3]);
    } else if q == 2 {
        lemma_class_in(quality_intervals(2), 3);
        lemma_class_in(quality_intervals(0), 3);
        assert(quality_mask(q)[3] != quality_mask(0)[3]);
    } else if q == 3 {
        lemma_class_in(quality_intervals(3), 7);
        lemma_class_in(quality_intervals(0), 7);
        assert(quality_mask(q)[7] != quality_mask(0)[7]);
    } else if q == 4 {
        lemma_class_in(quality_intervals(4), 2);
        lemma_class_in(quality_intervals(0), 2);
        assert(quality_mask(q)[2] != quality_mask(0)[2]);
    } else if q == 5 {
        lemma_class_in(quality_intervals(5), 4);
        lemma_class_in(quality_intervals(0), 4);
        assert(quality_mask(q)[4] != quality_mask(0)[4]);
    } else if q == 6 {
        lemma_class_in(quality_intervals(6), 4);
        lemma_class_in(quality_intervals(0), 4);
        assert(quality_mask(q)[4] != quality_mask(0)[4]);
    } else if q == 7 {
        lemma_class_in(quality_intervals(7), 10);
        lemma_class_in(quality_intervals(0), 10);
        assert(quality_mask(q)[10] != quality_mask(0)[10]);
    } else if q == 8 {
        lemma_class_in(quality_intervals(8), 11);
        lemma_class_in(quality_intervals(0), 11);
        assert(quality_mask(q)[11] != quality_mask(0)[11]);
    } else if q == 9 {
        lemma_class_in(quality_intervals(9), 3);
        lemma_class_in(quality_intervals(0), 3);
        assert(quality_mask(q)[3] != quality_mask(0)[3]);
    } else if q == 10 {
        lemma_class_in(quality_intervals(10), 3);
        lemma_class_in(quality_intervals(0), 3);
        assert(quality_mask(q)[3] != quality_mask(0)[3]);
    } else if q == 11 {
        lemma_class_in(quality_intervals(11), 3);
        lemma_class_in(quality_intervals(0), 3);
        assert(quality_mask(q)[3] != quality_mask(0)[3]);
    } else if q == 12 {
        lemma_class_in(quality_intervals(12), 7);
        lemma_class_in(quality_intervals(0), 7);
        assert(quality_mask(q)[7] != quality_mask(0)[7]);
    } else if q == 13 {
        lemma_class_in(quality_intervals(13), 3);
        lemma_class_in(quality_intervals(0), 3);
        assert(quality_mask(q)[3] != quality_mask(0)[3]);
    } else if q == 14 {
        lemma_class_in(quality_intervals(14), 9);
        lemma_class_in(quality_intervals(0), 9);
        assert(quality_mask(q)[9] != quality_mask(0)[9]);
    } else if q == 15 {
        lemma_class_in(quality_intervals(15), 3);
        lemma_class_in(quality_intervals(0), 3);
        assert(quality_mask(q)[3] != quality_mask(0)[3]);
    } else if q == 16 {
        lemma_class_in(quality_intervals(16), 4);
        lemma_class_in(quality_intervals(0), 4);
        assert(quality_mask(q)[4] != quality_mask(0)[4]);
    } else if q == 17 {
        lemma_class_in(quality_intervals(17), 2);
        lemma_class_in(quality_intervals(0), 2);
        assert(quality_mask(q)[2] != quality_mask(0)[2]);
    } else if q == 18 {
        lemma_class_in(quality_intervals(18), 2);
        lemma_class_in(quality_intervals(0), 2);
        assert(quality_mask(q)[2] != quality_mask(0)[2]);
    } else if q == 19 {
        lemma_class_in(quality_intervals(19), 2);
        lemma_class_in(quality_intervals(0), 2);
        assert(quality_mask(q)[2] != quality_mask(0)[2]);
    } else if q == 20 {
        lemma_class_in(quality_intervals(20), 2);
        lemma_class_in(quality_intervals(0), 2);
        assert(quality_mask(q)[2] != quality_mask(0)[2]);
    } else if q == 21 {
        lemma_class_in(quality_intervals(21), 2);
        lemma_class_in(quality_intervals(0), 2);
        assert(quality_mask(q)[2] != quality_mask(0)[2]);
    } else if q == 22 {
        lemma_class_in(quality_intervals(22), 2);
        lemma_class_in(quality_intervals(0), 2);
        assert(quality_mask(q)[2] != quality_mask(0)[2]);
    } else if q == 23 {
        lemma_class_in(quality_intervals(23), 2);
        lemma_class_in(quality_intervals(0), 2);
        assert(quality_mask(q)[2] != quality_mask(0)[2]);
    } else if q == 24 {
        lemma_class_in(quality_intervals(24), 2);
        lemma_class_in(quality_intervals(0), 2);
        assert(quality_mask(q)[2] != quality_mask(0)[2]);
    } else if q == 25 {
        lemma_class_in(quality_intervals(25), 3);
        lemma_class_in(quality_intervals(0), 3);
        assert(quality_mask(q)[3] != quality_mask(0)[3]);
    } else if q == 26 {
        lemma_class_in(quality_intervals(26), 1);
        lemma_class_in(quality_intervals(0), 1);
        assert(quality_mask(q)[1] != quality_mask(0)[1]);
    } else if q == 27 {
        lemma_class_in(quality_intervals(27), 7);
        lemma_class_in(quality_intervals(0), 7);
        assert(quality_mask(q)[7] != quality_mask(0)[7]);
    } else if q == 28 {
        lemma_class_in(quality_intervals(28), 6);
        lemma_class_in(quality_intervals(0), 6);
        assert(quality_mask(q)[6] != quality_mask(0)[6]);
    } else if q == 29 {
        lemma_class_in(quality_intervals(29), 2);
        lemma_class_in(quality_intervals(0), 2);
        assert(quality_mask(q)[2] != quality_mask(0)[2]);
    } else if q == 30 {
        lemma_class_in(quality_intervals(30), 5);
        lemma_class_in(quality_intervals(0), 5);
        assert(quality_mask(q)[5] != quality_mask(0)[5]);
    }
}

/// No entry other than 1 has the interval classes of entry 1.
proof fn lemma_unique_classes_minor(q: int)
    requires
        0 <= q < QUALITY_COUNT,
        q != 1,
    ensures
        !same_classes(q, 1),
{
    reveal_with_fuel(class_in, 7);
    if q == 0 {
        lemma_class_in(quality_intervals(0), 3);
        lemma_class_in(quality_intervals(1), 3);
        assert(quality_mask(q)[3] != quality_mask(1)[3]);
    } else if q == 2 {
        lemma_class_in(quality_intervals(2), 6);
        lemma_class_in(quality_intervals(1), 6);
        assert(quality_mask(q)[6] != quality_mask(1)[6]);
    } else if q == 3 {
        lemma_class_in(quality_intervals(3), 3);
        lemma_class_in(quality_intervals(1), 3);
        assert(quality_mask(q)[3] != quality_mask(1)[3]);
    } else if q == 4 {
        lemma_class_in(quality_intervals(4), 2);
        lemma_class_in(quality_intervals(1), 2);
        assert(quality_mask(q)[2] != quality_mask(1)[2]);
    } else if q == 5 {
        lemma_class_in(quality_intervals(5), 3);
        lemma_class_in(quality_intervals(1), 3);
        assert(quality_mask(q)[3] != quality_mask(1)[3]);
    } else if q == 6 {
        lemma_class_in(quality_intervals(6), 3);
        lemma_class_in(quality_intervals(1), 3);
        assert(quality_mask(q)[3] != quality_mask(1)[3]);
    } else if q == 7 {
        lemma_class_in(quality_intervals(7), 3);
        lemma_class_in(quality_intervals(1), 3);
        assert(quality_mask(q)[3] != quality_mask(1)[3]);
    } else if q == 8 {
        lemma_class_in(quality_intervals(8), 3);
        lemma_class_in(quality_intervals(1), 3);
        assert(quality_mask(q)[3] != quality_mask(1)[3]);
    } else if q == 9 {
        lemma_class_in(quality_intervals(9), 10);
        lemma_class_in(quality_intervals(1), 10);
        assert(quality_mask(q)[10] != quality_mask(1)[10]);
    } else if q == 10 {
        lemma_class_in(quality_intervals(10), 6);
        lemma_class_in(quality_intervals(1), 6);
        assert(quality_mask(q)[6] != quality_mask(1)[6]);
    } else if q == 11 {
        lemma_class_in(quality_intervals(11), 6);
        lemma_class_in(quality_intervals(1), 6);
        assert(quality_mask(q)[6] != quality_mask(1)[6]);
    } else if q == 12 {
        lemma_class_in(quality_intervals(12), 3);
        lemma_class_in(quality_intervals(1), 3);
        assert(quality_mask(q)[3] != quality_mask(1)[3]);
    } else if q == 13 {
        lemma_class_in(quality_intervals(13), 11);
        lemma_class_in(quality_intervals(1), 11);
        assert(quality_mask(q)[11] != quality_mask(1)[11]);
    } else if q == 14 {
        lemma_class_in(quality_intervals(14), 3);
        lemma_class_in(quality_intervals(1), 3);
        assert(quality_mask(q)[3] != quality_mask(1)[3]);
    } else if q == 15 {
        lemma_class_in(quality_intervals(15), 9);
        lemma_class_in(quality_intervals(1), 9);
        assert(quality_mask(q)[9] != quality_mask(1)[9]);
    } else if q == 16 {
        lemma_class_in(quality_intervals(16), 3);
        lemma_class_in(quality_intervals(1), 3);
        assert(quality_mask(q)[3] != quality_mask(1)[3]);
    } else if q == 17 {
        lemma_class_in(quality_intervals(17), 2);
        lemma_class_in(quality_intervals(1), 2);
        assert(quality_mask(q)[2] != quality_mask(1)[2]);
    } else if q == 18 {
        lemma_class_in(quality_intervals(18), 2);
        lemma_class_in(quality_intervals(1), 2);
        assert(quality_mask(q)[2] != quality_mask(1)[2]);
    } else if q == 19 {
        lemma_class_in(quality_intervals(19), 2);
        lemma_class_in(quality_intervals(1), 2);
        assert(quality_mask(q)[2] != quality_mask(1)[2]);
    } else if q == 20 {
        lemma_class_in(quality_intervals(20), 2);
        lemma_class_in(quality_intervals(1), 2);
        assert(quality_mask(q)[2] != quality_mask(1)[2]);
    } else if q == 21 {
        lemma_class_in(quality_intervals(21), 2);
        lemma_class_in(quality_intervals(1), 2);
        assert(quality_mask(q)[2] != quality_mask(1)[2]);
    } else if q == 22 {
        lemma_class_in(quality_intervals(22), 2);
        lemma_class_in(quality_intervals(1), 2);
        assert(quality_mask(q)[2] != quality_mask(1)[2]);
    } else if q == 23 {
        lemma_class_in(quality_intervals(23), 2);
        lemma_class_in(quality_intervals(1), 2);
        assert(quality_mask(q)[2] != quality_mask(1)[2]);
    } else if q == 24 {
        lemma_class_in(quality_intervals(24), 2);
        lemma_class_in(quality_intervals(1), 2);
        assert(quality_mask(q)[2] != quality_mask(1)[2]);
    } else if q == 25 {
        lemma_class_in(quality_intervals(25), 4);
        lemma_class_in(quality_intervals(1), 4);
        assert(quality_mask(q)[4] != quality_mask(1)[4]);
    } else if q == 26 {
        lemma_class_in(quality_intervals(26), 1);
        lemma_class_in(quality_intervals(1), 1);
        assert(quality_mask(q)[1] != quality_mask(1)[1]);
    } else if q == 27 {
        lemma_class_in(quality_intervals(27), 3);
        lemma_class_in(quality_intervals(1), 3);
        assert(quality_mask(q)[3] != quality_mask(1)[3]);
    } else if q == 28 {
        lemma_class_in(quality_intervals(28), 3);
        lemma_class_in(quality_intervals(1), 3);
        assert(quality_mask(q)[3] != quality_mask(1)[3]);
    } else if q == 29 {
        lemma_class_in(quality_intervals(29), 2);
        lemma_class_in(quality_intervals(1), 2);
        assert(quality_mask(q)[2] != quality_mask(1)[2]);
    } else if q == 30 {
        lemma_class_in(quality_intervals(30), 3);
        lemma_class_in(quality_intervals(1), 3);
        assert(quality_mask(q)[3] != quality_mask(1)[3]);
    }
}

/// No entry other than 7 has the interval classes of entry 7.
proof fn lemma_unique_classes_dominant_seventh(q: int)
    requires
        0 <= q < QUALITY_COUNT,
        q != 7,
    ensures
        !same_classes(q, 7),
{
    reveal_with_fuel(class_in, 7);
    if q == 0 {
        lemma_class_in(quality_intervals(0), 10);
        lemma_class_in(quality_intervals(7), 10);
        assert(quality_mask(q)[10] != quality_mask(7)[10]);
    } else if q == 1 {
        lemma_class_in(quality_intervals(1), 3);
        lemma_class_in(quality_intervals(7), 3);
        assert(quality_mask(q)[3] != quality_mask(7)[3]);
    } else if q == 2 {
        lemma_class_in(quality_intervals(2), 3);
        lemma_class_in(quality_intervals(7), 3);
        assert(quality_mask(q)[3] != quality_mask(7)[3]);
    } else if q == 3 {
        lemma_class_in(quality_intervals(3), 7);
        lemma_class_in(quality_intervals(7), 7);
        assert(quality_mask(q)[7] != quality_mask(7)[7]);
    } else if q == 4 {
        lemma_class_in(quality_intervals(4), 2);
        lemma_class_in(quality_intervals(7), 2);
        assert(quality_mask(q)[2] != quality_mask(7)[2]);
    } else if q == 5 {
        lemma_class_in(quality_intervals(5), 4);
        lemma_class_in(quality_intervals(7), 4);
        assert(quality_mask(q)[4] != quality_mask(7)[4]);
    } else if q == 6 {
        lemma_class_in(quality_intervals(6), 4);
        lemma_class_in(quality_intervals(7), 4);
        assert(quality_mask(q)[4] != quality_mask(7)[4]);
    } else if q == 8 {
        lemma_class_in(quality_intervals(8), 10);
        lemma_class_in(quality_intervals(7), 10);
        assert(quality_mask(q)[10] != quality_mask(7)[10]);
    } else if q == 9 {
        lemma_class_in(quality_intervals(9), 3);
        lemma_class_in(quality_intervals(7), 3);
        assert(quality_mask(q)[3] != quality_mask(7)[3]);
    } else if q == 10 {
        lemma_class_in(quality_intervals(10), 3);
        lemma_class_in(quality_intervals(7), 3);
        assert(quality_mask(q)[3] != quality_mask(7)[3]);
    } else if q == 11 {
        lemma_class_in(quality_intervals(11), 3);
        lemma_class_in(quality_intervals(7), 3);
        assert(quality_mask(q)[3] != quality_mask(7)[3]);
    } else if q == 12 {
        lemma_class_in(quality_intervals(12), 7);
        lemma_class_in(quality_intervals(7), 7);
        assert(quality_mask(q)[7] != quality_mask(7)[7]);
    } else if q == 13 {
        lemma_class_in(quality_intervals(13), 3);
        lemma_class_in(quality_intervals(7), 3);
        assert(quality_mask(q)[3] != quality_mask(7)[3]);
    } else if q == 14 {
        lemma_class_in(quality_intervals(14), 9);
        lemma_class_in(quality_intervals(7), 9);
        assert(quality_mask(q)[9] != quality_mask(7)[9]);
    } else if q == 15 {
        lemma_class_in(quality_intervals(15), 3);
        lemma_class_in(quality_intervals(7), 3);
        assert(quality_mask(q)[3] != quality_mask(7)[3]);
    } else if q == 16 {
        lemma_class_in(quality_intervals(16), 4);
        lemma_class_in(quality_intervals(7), 4);
        assert(quality_mask(q)[4] != quality_mask(7)[4]);
    } else if q == 17 {
        lemma_class_in(quality_intervals(17), 2);
        lemma_class_in(quality_intervals(7), 2);
        assert(quality_mask(q)[2] != quality_mask(7)[2]);
    } else if q == 18 {
        lemma_class_in(quality_intervals(18), 2);
        lemma_class_in(quality_intervals(7), 2);
        assert(quality_mask(q)[2] != quality_mask(7)[2]);
    } else if q == 19 {
        lemma_class_in(quality_intervals(19), 2);
        lemma_class_in(quality_intervals(7), 2);
        assert(quality_mask(q)[2] != quality_mask(7)[2]);
    } else if q == 20 {
        lemma_class_in(quality_intervals(20), 2);
        lemma_class_in(quality_intervals(7), 2);
        assert(quality_mask(q)[2] != quality_mask(7)[2]);
    } else if q == 21 {
        lemma_class_in(quality_intervals(21), 2);
        lemma_class_in(quality_intervals(7), 2);
        assert(quality_mask(q)[2] != quality_mask(7)[2]);
    } else if q == 22 {
        lemma_class_in(quality_intervals(22), 2);
        lemma_class_in(quality_intervals(7), 2);
        assert(quality_mask(q)[2] != quality_mask(7)[2]);
    } else if q == 23 {
        lemma_class_in(quality_intervals(23), 2);
        lemma_class_in(quality_intervals(7), 2);
        assert(quality_mask(q)[2] != quality_mask(7)[2]);
    } else if q == 24 {
        lemma_class_in(quality_intervals(24), 2);
        lemma_class_in(quality_intervals(7), 2);
        assert(quality_mask(q)[2] != quality_mask(7)[2]);
    } else if q == 25 {
        lemma_class_in(quality_intervals(25), 3);
        lemma_class_in(quality_intervals(7), 3);
        assert(quality_mask(q)[3] != quality_mask(7)[3]);
    } else if q == 26 {
        lemma_class_in(quality_intervals(26), 1);
        lemma_class_in(quality_intervals(7), 1);
        assert(quality_mask(q)[1] != quality_mask(7)[1]);
    } else if q == 27 {
        lemma_class_in(quality_intervals(27), 7);
        lemma_class_in(quality_intervals(7), 7);
        assert(quality_mask(q)[7] != quality_mask(7)[7]);
    } else if q == 28 {
        lemma_class_in(quality_intervals(28), 6);
        lemma_class_in(quality_intervals(7), 6);
        assert(quality_mask(q)[6] != quality_mask(7)[6]);
    } else if q == 29 {
        lemma_class_in(quality_intervals(29), 2);
        lemma_class_in(quality_intervals(7), 2);
        assert(quality_mask(q)[2] != quality_mask(7)[2]);
    } else if q == 30 {
        lemma_class_in(quality_intervals(30), 5);
        lemma_class_in(quality_intervals(7), 5);
        assert(quality_mask(q)[5] != quality_mask(7)[5]);
    }
}

/// No entry other than 9 has the interval classes of entry 9.
proof fn lemma_unique_classes_minor_seventh(q: int)
    requires
        0 <= q < QUALITY_COUNT,
        q != 9,
    ensures
        !same_classes(q, 9),
{
    reveal_with_fuel(class_in, 7);
    if q == 0 {
        lemma_class_in(quality_intervals(0), 3);
        lemma_class_in(quality_intervals(9), 3);
        assert(quality_mask(q)[3] != quality_mask(9)[3]);
    } else if q == 1 {
        lemma_class_in(quality_intervals(1), 10);
        lemma_class_in(quality_intervals(9), 10);
        assert(quality_mask(q)[10] != quality_mask(9)[10]);
    } else if q == 2 {
        lemma_class_in(quality_intervals(2), 6);
        lemma_class_in(quality_intervals(9), 6);
        assert(quality_mask(q)[6] != quality_mask(9)[6]);
    } else if q == 3 {
        lemma_class_in(quality_intervals(3), 3);
        lemma_class_in(quality_intervals(9), 3);
        assert(quality_mask(q)[3] != quality_mask(9)[3]);
    } else if q == 4 {
        lemma_class_in(quality_intervals(4), 2);
        lemma_class_in(quality_intervals(9), 2);
        assert(quality_mask(q)[2] != quality_mask(9)[2]);
    } else if q == 5 {
        lemma_class_in(quality_intervals(5), 3);
        lemma_class_in(quality_intervals(9), 3);
        assert(quality_mask(q)[3] != quality_mask(9)[3]);
    } else if q == 6 {
        lemma_class_in(quality_intervals(6), 3);
        lemma_class_in(quality_intervals(9), 3);
        assert(quality_mask(q)[3] != quality_mask(9)[3]);
    } else if q == 7 {
        lemma_class_in(quality_intervals(7), 3);
        lemma_class_in(quality_intervals(9), 3);
        assert(quality_mask(q)[3] != quality_mask(9)[3]);
    } else if q == 8 {
        lemma_class_in(quality_intervals(8), 3);
        lemma_class_in(quality_intervals(9), 3);
        assert(quality_mask(q)[3] != quality_mask(9)[3]);
    } else if q == 10 {
        lemma_class_in(quality_intervals(10), 6);
        lemma_class_in(quality_intervals(9), 6);
        assert(quality_mask(q)[6] != quality_mask(9)[6]);
    } else if q == 11 {
        lemma_class_in(quality_intervals(11), 6);
        lemma_class_in(quality_intervals(9), 6);
        assert(quality_mask(q)[6] != quality_mask(9)[6]);
    } else if q == 12 {
        lemma_class_in(quality_intervals(12), 3);
        lemma_class_in(quality_intervals(9), 3);
        assert(quality_mask(q)[3] != quality_mask(9)[3]);
    } else if q == 13 {
        lemma_class_in(quality_intervals(13), 10);
        lemma_class_in(quality_intervals(9), 10);
        assert(quality_mask(q)[10] != quality_mask(9)[10]);
    } else if q == 14 {
        lemma_class_in(quality_intervals(14), 3);
        lemma_class_in(quality_intervals(9), 3);
        assert(quality_mask(q)[3] != quality_mask(9)[3]);
    } else if q == 15 {
        lemma_class_in(quality_intervals(15), 9);
        lemma_class_in(quality_intervals(9), 9);
        assert(quality_mask(q)[9] != quality_mask(9)[9]);
    } else if q == 16 {
        lemma_class_in(quality_intervals(16), 3);
        lemma_class_in(quality_intervals(9), 3);
        assert(quality_mask(q)[3] != quality_mask(9)[3]);
    } else if q == 17 {
        lemma_class_in(quality_intervals(17), 2);
        lemma_class_in(quality_intervals(9), 2);
        assert(quality_mask(q)[2] != quality_mask(9)[2]);
    } else if q == 18 {
        lemma_class_in(quality_intervals(18), 2);
        lemma_class_in(quality_intervals(9), 2);
        assert(quality_mask(q)[2] != quality_mask(9)[2]);
    } else if q == 19 {
        lemma_class_in(quality_intervals(19), 2);
        lemma_class_in(quality_intervals(9), 2);
        assert(quality_mask(q)[2] != quality_mask(9)[2]);
    } else if q == 20 {
        lemma_class_in(quality_intervals(20), 2);
        lemma_class_in(quality_intervals(9), 2);
        assert(quality_mask(q)[2] != quality_mask(9)[2]);
    } else if q == 21 {
        lemma_class_in(quality_intervals(21), 2);
        lemma_class_in(quality_intervals(9), 2);
        assert(quality_mask(q)[2] != quality_mask(9)[2]);
    } else if q == 22 {
        lemma_class_in(quality_intervals(22), 2);
        lemma_class_in(quality_intervals(9), 2);
        assert(quality_mask(q)[2] != quality_mask(9)[2]);
    } else if q == 23 {
        lemma_class_in(quality_intervals(23), 2);
        lemma_class_in(quality_intervals(9), 2);
        assert(quality_mask(q)[2] != quality_mask(9)[2]);
    } else if q == 24 {
        lemma_class_in(quality_intervals(24), 2);
        lemma_class_in(quality_intervals(9), 2);
        assert(quality_mask(q)[2] != quality_mask(9)[2]);
    } else if q == 25 {
        lemma_class_in(quality_intervals(25), 4);
        lemma_class_in(quality_intervals(9), 4);
        assert(quality_mask(q)[4] != quality_mask(9)[4]);
    } else if q == 26 {
        lemma_class_in(quality_intervals(26), 1);
        lemma_class_in(quality_intervals(9), 1);
        assert(quality_mask(q)[1] != quality_mask(9)[1]);
    } else if q == 27 {
        lemma_class_in(quality_intervals(27), 3);
        lemma_class_in(quality_intervals(9), 3);
        assert(quality_mask(q)[3] != quality_mask(9)[3]);
    } else if q == 28 {
        lemma_class_in(quality_intervals(28), 3);
        lemma_class_in(quality_intervals(9), 3);
        assert(quality_mask(q)[3] != quality_mask(9)[3]);
    } else if q == 29 {
        lemma_class_in(quality_intervals(29), 2);
        lemma_class_in(quality_intervals(9), 2);
        assert(quality_mask(q)[2] != quality_mask(9)[2]);
    } else if q == 30 {
        lemma_class_in(quality_intervals(30), 3);
        lemma_class_in(quality_intervals(9), 3);
        assert(quality_mask(q)[3] != quality_mask(9)[3]);
    }
}


/// The interval classes of a minor triad: root, minor third and fifth.
pub open spec fn minor_triad_class(k: int) -> bool {
    k == 0 || k == 3 || k == 7
}

/// Whenever the notes played are, above a root that sounds as the bass,
/// exactly that root, its minor third and its fifth, identification names that root with the quality
/// "m" ("minor"), in root position.
pub proof fn law_minor_triads_named(f: Seq<i8>, t: Seq<u8>, r: int, c: ChordResult)
    requires
        f.len() == 6,
        t.len() == 6,
        0 <= r < 12,
        bass_pitch(f, t) == r,
        forall|k: int| 0 <= k < 12 ==> (#[trigger] chord_has(f, t, r, k) <==> minor_triad_class(k)),
        identified(f, t, c),
    ensures
        c.primary.root@ == r,
        c.primary.quality@.0 == "m"@,
        c.primary.quality@.1 == "minor"@,
        !c.primary.is_inversion,
{
    assert forall|q: int| 0 <= q < QUALITY_COUNT && #[trigger] same_classes(q, 1) implies q == 1 by {
        if q != 1 {
            lemma_unique_classes_minor(q);
        }
    }
    lemma_exact_shape(f, t, r, c, 1);
    reveal_strlit("m");
    reveal_strlit("minor");
}

/// The interval classes of a dominant seventh chord: root, major third, fifth and minor seventh.
pub open spec fn dominant_seventh_class(k: int) -> bool {
    k == 0 || k == 4 || k == 7 || k == 10
}

/// Whenever the notes played are, above a root that sounds as the bass,
/// exactly that root, its major third, its fifth and its minor seventh, identification names that root with the quality
/// "7" ("dominant 7th"), in root position.
pub proof fn law_dominant_seventh_chords_named(f: Seq<i8>, t: Seq<u8>, r: int, c: ChordResult)
    requires
        f.len() == 6,
        t.len() == 6,
        0 <= r < 12,
        bass_pitch(f, t) == r,
        forall|k: int| 0 <= k < 12 ==> (#[trigger] chord_has(f, t, r, k) <==> dominant_seventh_class(k)),
        identified(f, t, c),
    ensures
        c.primary.root@ == r,
        c.primary.quality@.0 == "7"@,
        c.primary.quality@.1 == "dominant 7th"@,
        !c.primary.is_inversion,
{
    assert forall|q: int| 0 <= q < QUALITY_COUNT && #[trigger] same_classes(q, 7) implies q == 7 by {
        if q != 7 {
            lemma_unique_classes_dominant_seventh(q);
        }
    }
    lemma_exact_shape(f, t, r, c, 7);
    reveal_strlit("7");
    reveal_strlit("dominant 7th");
}

/// The interval classes of a minor seventh chord: root, minor third, fifth and minor seventh.
pub open spec fn minor_seventh_class(k: int) -> bool {
    k == 0 || k == 3 || k == 7 || k == 10
}

/// Whenever the notes played are, above a root that sounds as the bass,
/// exactly that root, its minor third, its fifth and its minor seventh, identification names that root with the quality
/// "m7" ("minor 7th"), in root position.
pub proof fn law_minor_seventh_chords_named(f: Seq<i8>, t: Seq<u8>, r: int, c: ChordResult)
    requires
        f.len() == 6,
        t.len() == 6,
        0 <= r < 12,
        bass_pitch(f, t) == r,
        forall|k: int| 0 <= k < 12 ==> (#[trigger] chord_has(f, t, r, k) <==> minor_seventh_class(k)),
        identified(f, t, c),
    ensures
        c.primary.root@ == r,
        c.primary.quality@.0 == "m7"@,
        c.primary.quality@.1 == "minor 7th"@,
        !c.primary.is_inversion,
{
    assert forall|q: int| 0 <= q < QUALITY_COUNT && #[trigger] same_classes(q, 9) implies q == 9 by {
        if q != 9 {
            lemma_unique_classes_minor_seventh(q);
        }
    }
    lemma_exact_shape(f, t, r, c, 9);
    reveal_strlit("m7");
    reveal_strlit("minor 7th");
}

} // verus!
