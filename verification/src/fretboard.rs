//! Fretboard arithmetic: notes of fingerings, transposition along the neck
//! and across strings, and the positions of chord tones.
use vstd::prelude::*;

use crate::interval::{Interval, semitones_between};
use crate::note::{PitchClass, pitch_values};

verus! {

/// The highest fret of the neck.
pub const MAX_FRET: i8 = 24;

/// Whether string `i` is played (a negative fret mutes it).
pub open spec fn is_played(f: Seq<i8>, i: int) -> bool {
    f[i] >= 0
}

/// The MIDI note that string `i` sounds.
pub open spec fn midi_at(f: Seq<i8>, t: Seq<u8>, i: int) -> int {
    t[i] as int + f[i] as int
}

/// Every played string sounds a MIDI note that fits in a `u8`.
pub open spec fn no_midi_overflow(f: Seq<i8>, t: Seq<u8>) -> bool {
    forall|i: int| 0 <= i < 6 && is_played(f, i) ==> #[trigger] midi_at(f, t, i) <= 255
}

/// The MIDI note of a fret on a string whose open note is `open`.
pub open spec fn spec_fret_to_midi(open: u8, fret: u8) -> int {
    open as int + fret as int
}

/// Convert a string's open MIDI note and a fret number to the resulting MIDI note.
pub fn fret_to_midi(open_string_midi: u8, fret: u8) -> (m: u8)
    requires
        open_string_midi + fret <= 255,
    ensures
        m == spec_fret_to_midi(open_string_midi, fret),
{
    open_string_midi + fret
}

/// Convert a string's open MIDI note and a fret number to a pitch class.
pub fn fret_to_pitch_class(open_string_midi: u8, fret: u8) -> (pc: PitchClass)
    requires
        open_string_midi + fret <= 255,
    ensures
        pc@ == spec_fret_to_midi(open_string_midi, fret) % 12,
{
    PitchClass::from_midi(fret_to_midi(open_string_midi, fret))
}

/// Whether every played string of the fingering sounds a MIDI note that
/// fits in a `u8` (what `played_notes` and `identify` need).
pub fn midi_fits(frets: &[i8; 6], tuning: &[u8; 6]) -> (b: bool)
    ensures
        b == no_midi_overflow(frets@, tuning@),
{
    let mut i: usize = 0;
    while i < 6
        invariant
            i <= 6,
            forall|j: int| 0 <= j < i && is_played(frets@, j) ==> #[trigger] midi_at(frets@, tuning@, j) <= 255,
        decreases 6 - i,
    {
        if frets[i] >= 0 && tuning[i] as u16 + frets[i] as u16 > 255 {
            assert(is_played(frets@, i as int) && midi_at(frets@, tuning@, i as int) > 255);
            return false;
        }
        i = i + 1;
    }
    true
}

/// Frets `fret_start` to `fret_end` give MIDI notes that fit in a `u8` on
/// every string of tuning `t` (an empty range always does).
pub open spec fn fret_range_ok(t: Seq<u8>, fret_start: u8, fret_end: u8) -> bool {
    fret_start <= fret_end ==> forall|i: int| 0 <= i < 6 ==> #[trigger] t[i] + fret_end <= 255
}

/// Whether frets `fret_start` to `fret_end` give MIDI notes that fit in a
/// `u8` on every string (what `chord_tone_positions` needs).
pub fn fret_range_fits(tuning: &[u8; 6], fret_start: u8, fret_end: u8) -> (b: bool)
    ensures
        b == fret_range_ok(tuning@, fret_start, fret_end),
{
    if fret_start > fret_end {
        return true;
    }
    let mut i: usize = 0;
    while i < 6
        invariant
            i <= 6,
            fret_start <= fret_end,
            forall|j: int| 0 <= j < i ==> #[trigger] tuning@[j] + fret_end <= 255,
        decreases 6 - i,
    {
        if tuning[i] as u16 + fret_end as u16 > 255 {
            assert(tuning@[i as int] + fret_end > 255);
            return false;
        }
        i = i + 1;
    }
    true
}

// ---------------------------------------------------------------------------
// Transposition along the neck
// ---------------------------------------------------------------------------

/// A fret moved `d` frets along the neck; a muted string stays muted.
pub open spec fn shifted_fret(x: i8, d: int) -> int {
    if x >= 0 {
        x + d
    } else {
        x as int
    }
}

/// Every played note stays on the neck (frets 0 to 24) when moved `d` frets.
pub open spec fn fret_shift_ok(f: Seq<i8>, d: int) -> bool {
    forall|i: int| 0 <= i < 6 && f[i] >= 0 ==> 0 <= #[trigger] shifted_fret(f[i], d) <= MAX_FRET
}

/// The fingering `f` moved `d` frets along the neck.
pub open spec fn shifted_frets(f: Seq<i8>, d: int) -> Seq<i8> {
    Seq::new(6, |i: int| shifted_fret(f[i], d) as i8)
}

/// Shift all played notes by `direction` frets (+1 = right/up neck, -1 = left/down neck).
/// Returns None if ANY played note would go below 0 or above 24.
/// Frets of -1 (not played) are left unchanged.
pub fn transpose_fretboard(frets: &[i8; 6], direction: i8) -> (res: Option<[i8; 6]>)
    ensures
        res is Some <==> fret_shift_ok(frets@, direction as int),
        res matches Some(g) ==> g@ == shifted_frets(frets@, direction as int),
{
    let mut out: Vec<i8> = Vec::new();
    let mut i: usize = 0;
    while i < 6
        invariant
            i <= 6,
            out@.len() == i,
            forall|j: int| 0 <= j < i && frets@[j] >= 0 ==> 0 <= #[trigger] shifted_fret(frets@[j], direction as int) <= MAX_FRET,
            forall|j: int| 0 <= j < i ==> out@[j] == #[trigger] shifted_fret(frets@[j], direction as int),
        decreases 6 - i,
    {
        let x = frets[i];
        if x >= 0 {
            let moved = x as i16 + direction as i16;
            if moved < 0 || moved > MAX_FRET as i16 {
                assert(!(0 <= shifted_fret(frets@[i as int], direction as int) <= MAX_FRET));
                return None;
            }
            out.push(moved as i8);
        } else {
            out.push(x);
        }
        i = i + 1;
    }
    let g = [out[0], out[1], out[2], out[3], out[4], out[5]];
    assert(g@ =~= shifted_frets(frets@, direction as int));
    Some(g)
}

// ---------------------------------------------------------------------------
// Transposition across strings
// ---------------------------------------------------------------------------

/// Every played note can move `d` strings (toward higher indices when `d`
/// is positive) and keep its pitch on a fret from 0 to 24.
pub open spec fn string_shift_ok(f: Seq<i8>, t: Seq<u8>, d: int) -> bool {
    forall|i: int| 0 <= i < 6 && is_played(f, i) ==> #[trigger] note_can_move(f, t, d, i)
}

/// The note of string `i` can move `d` strings and keep its pitch on a fret
/// from 0 to 24.
pub open spec fn note_can_move(f: Seq<i8>, t: Seq<u8>, d: int, i: int) -> bool {
    &&& 0 <= i + d < 6
    &&& 0 <= midi_at(f, t, i) - t[i + d] <= MAX_FRET
}

/// The fret that string `j` gets when every note moves `d` strings: the note
/// of string `j - d` kept at its pitch, or -1 (not played).
pub open spec fn string_shifted_fret(f: Seq<i8>, t: Seq<u8>, d: int, j: int) -> int {
    if 0 <= j - d < 6 && is_played(f, j - d) {
        midi_at(f, t, j - d) - t[j]
    } else {
        -1
    }
}

/// The fingering `f` moved `d` strings at the same pitches.
pub open spec fn shifted_strings(f: Seq<i8>, t: Seq<u8>, d: int) -> Seq<i8> {
    Seq::new(6, |j: int| string_shifted_fret(f, t, d, j) as i8)
}

/// Shift all played notes to adjacent strings while preserving pitch.
///
/// direction: +1 = shift each note toward higher strings (higher indices, toward high E)
/// direction: -1 = shift each note toward lower strings (lower indices, toward low E)
///
/// Returns None if the operation cannot be completed.
pub fn transpose_strings(frets: &[i8; 6], tuning: &[u8; 6], direction: i8) -> (res: Option<[i8; 6]>)
    ensures
        res is Some <==> string_shift_ok(frets@, tuning@, direction as int),
        res matches Some(g) ==> g@ == shifted_strings(frets@, tuning@, direction as int),
{
    let ghost f = frets@;
    let ghost t = tuning@;
    let ghost d = direction as int;
    let mut out: Vec<i8> = Vec::new();
    let mut k: usize = 0;
    while k < 6
        invariant
            k <= 6,
            out@.len() == k,
            forall|j: int| 0 <= j < k ==> out@[j] == -1,
        decreases 6 - k,
    {
        out.push(-1);
        k = k + 1;
    }
    let mut i: usize = 0;
    while i < 6
        invariant
            f == frets@,
            t == tuning@,
            d == direction as int,
            i <= 6,
            out@.len() == 6,
            forall|j: int| 0 <= j < i && is_played(f, j) ==> #[trigger] note_can_move(f, t, d, j),
            forall|j: int|
                0 <= j < 6 ==> out@[j] == if 0 <= j - d < i && is_played(f, j - d) {
                    midi_at(f, t, j - d) - t[j]
                } else {
                    -1
                },
        decreases 6 - i,
    {
        let x = frets[i];
        if x >= 0 {
            let target = i as i16 + direction as i16;
            if target < 0 || target >= 6 {
                assert(is_played(f, i as int) && !note_can_move(f, t, d, i as int));
                return None;
            }
            let target = target as usize;
            let current = tuning[i] as i16 + x as i16;
            let moved = current - tuning[target] as i16;
            if moved < 0 || moved > MAX_FRET as i16 {
                assert(is_played(f, i as int) && !note_can_move(f, t, d, i as int));
                return None;
            }
            assert(tuning[target as int] == t[i + d]);
            assert(moved == midi_at(f, t, i as int) - t[i + d]);
            assert(note_can_move(f, t, d, i as int));
            out.set(target, moved as i8);
        }
        i = i + 1;
    }
    let g = [out[0], out[1], out[2], out[3], out[4], out[5]];
    assert(g@ =~= shifted_strings(f, t, d));
    Some(g)
}

// ---------------------------------------------------------------------------
// Chord tone positions
// ---------------------------------------------------------------------------

/// The frets `from..upto` of string `s` (open note `open`) whose pitch class
/// is in `pcs`, in fret order.
pub open spec fn string_positions(pcs: Seq<int>, open: u8, s: int, from: int, upto: int) -> Seq<(usize, u8)>
    decreases upto - from,
{
    if upto <= from {
        Seq::empty()
    } else {
        string_positions(pcs, open, s, from, upto - 1) + if pcs.contains((open + upto - 1) % 12) {
            seq![(s as usize, (upto - 1) as u8)]
        } else {
            Seq::empty()
        }
    }
}

/// All positions on the first `n` strings, frets `from` to `to` inclusive,
/// whose pitch class is in `pcs`: string by string, then fret by fret.
pub open spec fn grid_positions(pcs: Seq<int>, t: Seq<u8>, from: int, to: int, n: int) -> Seq<(usize, u8)>
    decreases n,
{
    if n <= 0 {
        Seq::empty()
    } else {
        grid_positions(pcs, t, from, to, n - 1) + string_positions(pcs, t[n - 1], n - 1, from, to + 1)
    }
}

/// Whether `target` is among the pitch classes `pcs`.
fn contains_pitch(pcs: &[PitchClass], target: u8) -> (b: bool)
    ensures
        b == pitch_values(pcs@).contains(target as int),
{
    let n = pcs.len();
    let mut k: usize = 0;
    while k < n
        invariant
            n == pcs@.len(),
            k <= n,
            forall|j: int| 0 <= j < k ==> pitch_values(pcs@)[j] != target,
        decreases n - k,
    {
        if pcs[k].semitones() == target {
            assert(pitch_values(pcs@)[k as int] == target);
            return true;
        }
        k = k + 1;
    }
    false
}

/// Find all fretboard positions where any of the given pitch classes can be played.
/// Returns Vec of (string_index, fret_number) pairs.
/// string_index uses our convention: 0 = lowest string (string 6).
pub fn chord_tone_positions(pitch_classes: &[PitchClass], tuning: &[u8; 6], fret_start: u8, fret_end: u8) -> (positions: Vec<(usize, u8)>)
    requires
        fret_range_ok(tuning@, fret_start, fret_end),
    ensures
        positions@ == grid_positions(pitch_values(pitch_classes@), tuning@, fret_start as int, fret_end as int, 6),
{
    let ghost pcs = pitch_values(pitch_classes@);
    let mut positions: Vec<(usize, u8)> = Vec::new();
    let mut s: usize = 0;
    while s < 6
        invariant
            pcs == pitch_values(pitch_classes@),
            s <= 6,
            fret_start <= fret_end ==> forall|i: int| 0 <= i < 6 ==> #[trigger] tuning@[i] + fret_end <= 255,
            positions@ == grid_positions(pcs, tuning@, fret_start as int, fret_end as int, s as int),
        decreases 6 - s,
    {
        let open = tuning[s];
        let ghost before = positions@;
        let mut fret: u16 = fret_start as u16;
        while fret <= fret_end as u16
            invariant
                pcs == pitch_values(pitch_classes@),
                s < 6,
                open == tuning@[s as int],
                fret_start <= fret_end ==> open + fret_end <= 255,
                fret_start <= fret,
                fret <= fret_end as int + 1 || fret == fret_start,
                positions@ == before + string_positions(pcs, open, s as int, fret_start as int, fret as int),
            decreases fret_end as int + 1 - fret,
        {
            let pc = fret_to_pitch_class(open, fret as u8);
            if contains_pitch(pitch_classes, pc.semitones()) {
                positions.push((s, fret as u8));
            }
            proof {
                let ghost add = if pcs.contains((open + fret) % 12) {
                    seq![(s as usize, fret as u8)]
                } else {
                    Seq::empty()
                };
                assert(string_positions(pcs, open, s as int, fret_start as int, fret + 1) == string_positions(pcs, open, s as int, fret_start as int, fret as int) + add);
                assert(positions@ =~= before + string_positions(pcs, open, s as int, fret_start as int, fret + 1));
            }
            fret = fret + 1;
        }
        proof {
            if fret_start > fret_end {
                assert(string_positions(pcs, open, s as int, fret_start as int, fret_end + 1) =~= Seq::empty());
            }
        }
        s = s + 1;
    }
    positions
}

// ---------------------------------------------------------------------------
// Played notes
// ---------------------------------------------------------------------------

/// The played strings among the first `n`, each as (string index, MIDI
/// note, pitch class), from the lowest string up.
pub open spec fn played_upto(f: Seq<i8>, t: Seq<u8>, n: int) -> Seq<(int, int, int)>
    decreases n,
{
    if n <= 0 {
        Seq::empty()
    } else {
        played_upto(f, t, n - 1) + if is_played(f, n - 1) {
            seq![(n - 1, midi_at(f, t, n - 1), midi_at(f, t, n - 1) % 12)]
        } else {
            Seq::empty()
        }
    }
}

/// The integer values of a list of played notes.
pub open spec fn note_values(s: Seq<(usize, u8, PitchClass)>) -> Seq<(int, int, int)> {
    s.map_values(|n: (usize, u8, PitchClass)| (n.0 as int, n.1 as int, n.2@ as int))
}

/// Given a fret array and tuning, extract the played notes.
/// Returns Vec of (string_index, midi_note, pitch_class) for each played string,
/// ordered from lowest string to highest (index 0 to 5).
pub fn played_notes(frets: &[i8; 6], tuning: &[u8; 6]) -> (notes: Vec<(usize, u8, PitchClass)>)
    requires
        no_midi_overflow(frets@, tuning@),
    ensures
        note_values(notes@) == played_upto(frets@, tuning@, 6),
{
    let mut notes: Vec<(usize, u8, PitchClass)> = Vec::new();
    let mut i: usize = 0;
    while i < 6
        invariant
            i <= 6,
            no_midi_overflow(frets@, tuning@),
            note_values(notes@) == played_upto(frets@, tuning@, i as int),
        decreases 6 - i,
    {
        let fret = frets[i];
        if fret >= 0 {
            assert(midi_at(frets@, tuning@, i as int) <= 255);
            let midi = tuning[i] + fret as u8;
            let pc = PitchClass::from_midi(midi);
            let ghost before = notes@;
            notes.push((i, midi, pc));
            assert(note_values(notes@) =~= note_values(before).push((i as int, midi as int, pc@ as int)));
        }
        i = i + 1;
    }
    notes
}

// ---------------------------------------------------------------------------
// Positions of a chord's tones, with their names
// ---------------------------------------------------------------------------

/// `s` without repeats, each value where it first occurs.
pub open spec fn first_occurrences(s: Seq<int>) -> Seq<int>
    decreases s.len(),
{
    if s.len() == 0 {
        Seq::empty()
    } else {
        let prev = first_occurrences(s.drop_last());
        if prev.contains(s.last()) {
            prev
        } else {
            prev.push(s.last())
        }
    }
}

/// The pitch classes of a chord: the root moved up by each interval (mod
/// 12), each once and in the order of the intervals; the root alone when
/// there are no intervals.
pub open spec fn chord_tone_values(root: int, intervals: Seq<u8>) -> Seq<int> {
    let tones = first_occurrences(intervals.map_values(|iv: u8| (root + iv % 12) % 12));
    if tones.len() == 0 {
        seq![root]
    } else {
        tones
    }
}

/// The pitch classes of the chord with root `root` and the given intervals.
pub fn chord_tones(root: PitchClass, quality_intervals: &[u8]) -> (tones: Vec<PitchClass>)
    ensures
        pitch_values(tones@) == chord_tone_values(root@ as int, quality_intervals@),
{
    let ghost mapped = quality_intervals@.map_values(|iv: u8| (root@ + iv % 12) % 12);
    let mut tones: Vec<PitchClass> = Vec::new();
    let n = quality_intervals.len();
    let r = root.semitones();
    let mut i: usize = 0;
    while i < n
        invariant
            n == quality_intervals@.len(),
            r == root@,
            r < 12,
            mapped == quality_intervals@.map_values(|iv: u8| (root@ + iv % 12) % 12),
            i <= n,
            pitch_values(tones@) == first_occurrences(mapped.take(i as int)),
        decreases n - i,
    {
        let pc = PitchClass::new(r + quality_intervals[i] % 12);
        let ghost before = pitch_values(tones@);
        assert(mapped.take(i + 1).drop_last() =~= mapped.take(i as int));
        assert(mapped.take(i + 1).last() == pc@ as int);
        let mut present = false;
        let mut k: usize = 0;
        while k < tones.len()
            invariant
                k <= tones.len(),
                before == pitch_values(tones@),
                present == pitch_values(tones@).take(k as int).contains(pc@ as int),
            decreases tones.len() - k,
        {
            let x = tones[k].semitones();
            assert(pitch_values(tones@)[k as int] == x);
            if x == pc.semitones() {
                present = true;
            }
            proof {
                let tk = pitch_values(tones@).take(k as int);
                let tk1 = pitch_values(tones@).take(k + 1);
                assert(tk1 =~= tk.push(x as int));
                if tk1.contains(pc@ as int) && x != pc@ {
                    let a = choose|a: int| 0 <= a < tk1.len() && tk1[a] == pc@ as int;
                    assert(a < k);
                    assert(tk[a] == pc@ as int);
                }
                if tk.contains(pc@ as int) {
                    let a = choose|a: int| 0 <= a < tk.len() && tk[a] == pc@ as int;
                    assert(tk1[a] == pc@ as int);
                }
                if x == pc@ {
                    assert(tk1[k as int] == pc@ as int);
                }
            }
            k = k + 1;
        }
        assert(pitch_values(tones@).take(tones.len() as int) =~= pitch_values(tones@));
        if !present {
            tones.push(pc);
            assert(pitch_values(tones@) =~= before.push(pc@ as int));
        }
        i = i + 1;
    }
    assert(mapped.take(n as int) =~= mapped);
    if tones.len() == 0 {
        tones.push(root);
        assert(pitch_values(tones@) =~= seq![root@ as int]);
    }
    tones
}

/// One place on the neck where a chord tone sounds, with the tone and its
/// interval above the chord's root.
#[derive(Debug, Clone, Copy)]
pub struct ChordPosition {
    pub string_index: usize,
    pub fret: u8,
    pub note: PitchClass,
    pub interval: Interval,
}

proof fn lemma_string_positions_bounds(pcs: Seq<int>, open: u8, s: int, from: int, upto: int)
    requires
        0 <= s < 6,
        0 <= from,
        upto <= 256,
    ensures
        forall|k: int|
            0 <= k < string_positions(pcs, open, s, from, upto).len() ==> {
                &&& (#[trigger] string_positions(pcs, open, s, from, upto)[k]).0 == s
                &&& from <= string_positions(pcs, open, s, from, upto)[k].1 < upto
                &&& pcs.contains((open + string_positions(pcs, open, s, from, upto)[k].1) % 12)
            },
    decreases upto - from,
{
    if upto > from {
        lemma_string_positions_bounds(pcs, open, s, from, upto - 1);
        let prev = string_positions(pcs, open, s, from, upto - 1);
        let cur = string_positions(pcs, open, s, from, upto);
        assert forall|k: int| 0 <= k < prev.len() implies cur[k] == prev[k] by {}
    }
}

proof fn lemma_grid_positions_bounds(pcs: Seq<int>, t: Seq<u8>, from: int, to: int, n: int)
    requires
        0 <= n <= 6,
        t.len() == 6,
        0 <= from,
        to <= 255,
    ensures
        forall|k: int|
            0 <= k < grid_positions(pcs, t, from, to, n).len() ==> {
                &&& (#[trigger] grid_positions(pcs, t, from, to, n)[k]).0 < n
                &&& from <= grid_positions(pcs, t, from, to, n)[k].1 <= to
                &&& pcs.contains((t[grid_positions(pcs, t, from, to, n)[k].0 as int] + grid_positions(pcs, t, from, to, n)[k].1) % 12)
            },
    decreases n,
{
    if n > 0 {
        lemma_grid_positions_bounds(pcs, t, from, to, n - 1);
        lemma_string_positions_bounds(pcs, t[n - 1], n - 1, from, to + 1);
        let prev = grid_positions(pcs, t, from, to, n - 1);
        let last = string_positions(pcs, t[n - 1], n - 1, from, to + 1);
        let cur = grid_positions(pcs, t, from, to, n);
        assert forall|k: int| 0 <= k < cur.len() implies {
            &&& (#[trigger] cur[k]).0 < n
            &&& from <= cur[k].1 <= to
            &&& pcs.contains((t[cur[k].0 as int] + cur[k].1) % 12)
        } by {
            if k < prev.len() {
                assert(cur[k] == prev[k]);
            } else {
                assert(cur[k] == last[k - prev.len()]);
            }
        }
    }
}

/// Every place on the neck, frets `fret_start` to `fret_end`, where a tone
/// of the chord with root `root_pc` (mod 12) and the given intervals sounds,
/// each with its tone and its interval above the root.
pub fn chord_positions(root_pc: u8, quality_intervals: &[u8], tuning: &[u8; 6], fret_start: u8, fret_end: u8) -> (positions: Vec<ChordPosition>)
    requires
        fret_range_ok(tuning@, fret_start, fret_end),
    ensures
        ({
            let grid = grid_positions(
                chord_tone_values(root_pc as int % 12, quality_intervals@),
                tuning@,
                fret_start as int,
                fret_end as int,
                6,
            );
            &&& positions.len() == grid.len()
            &&& forall|k: int|
                0 <= k < positions.len() ==> {
                    &&& (#[trigger] positions@[k]).string_index == grid[k].0
                    &&& positions@[k].fret == grid[k].1
                    &&& positions@[k].note@ == (tuning@[grid[k].0 as int] + grid[k].1) % 12
                    &&& positions@[k].interval.semitones == semitones_between(
                        (root_pc % 12) as u8,
                        positions@[k].note@,
                    )
                }
        }),
{
    let root = PitchClass::new(root_pc);
    let tones = chord_tones(root, quality_intervals);
    let places = chord_tone_positions(tones.as_slice(), tuning, fret_start, fret_end);
    let ghost grid = places@;
    proof {
        lemma_grid_positions_bounds(pitch_values(tones@), tuning@, fret_start as int, fret_end as int, 6);
    }
    let mut positions: Vec<ChordPosition> = Vec::new();
    let n = places.len();
    let mut k: usize = 0;
    while k < n
        invariant
            n == places.len(),
            grid == places@,
            k <= n,
            root@ == root_pc % 12,
            fret_start <= fret_end ==> forall|i: int| 0 <= i < 6 ==> #[trigger] tuning@[i] + fret_end <= 255,
            forall|j: int|
                0 <= j < n ==> (#[trigger] grid[j]).0 < 6 && fret_start <= grid[j].1 <= fret_end,
            positions.len() == k,
            forall|j: int|
                0 <= j < k ==> {
                    &&& (#[trigger] positions@[j]).string_index == grid[j].0
                    &&& positions@[j].fret == grid[j].1
                    &&& positions@[j].note@ == (tuning@[grid[j].0 as int] + grid[j].1) % 12
                    &&& positions@[j].interval.semitones == semitones_between(root@, positions@[j].note@)
                },
        decreases n - k,
    {
        let (string_index, fret) = places[k];
        assert(grid[k as int].0 < 6);
        let note = fret_to_pitch_class(tuning[string_index], fret);
        let interval = Interval::between(root, note);
        positions.push(ChordPosition { string_index, fret, note, interval });
        k = k + 1;
    }
    positions
}

// ---------------------------------------------------------------------------
// Laws
// ---------------------------------------------------------------------------

/// A fret twelve frets higher on the same string sounds the same pitch class.
pub proof fn law_octave_invariance(open: u8, fret: u8)
    requires
        fret + 12 <= 255,
    ensures
        spec_fret_to_midi(open, (fret + 12) as u8) % 12 == spec_fret_to_midi(open, fret) % 12,
{
}

/// Moving a fingering `a` frets and then `b` frets is moving it `a + b`
/// frets at once.
pub proof fn law_fret_shifts_compose(f: Seq<i8>, a: int, b: int)
    requires
        f.len() == 6,
        fret_shift_ok(f, a),
        fret_shift_ok(shifted_frets(f, a), b),
    ensures
        fret_shift_ok(f, a + b),
        shifted_frets(shifted_frets(f, a), b) == shifted_frets(f, a + b),
{
    let g = shifted_frets(f, a);
    assert forall|i: int| 0 <= i < 6 && f[i] >= 0 implies 0 <= #[trigger] shifted_fret(f[i], a + b) <= MAX_FRET by {
        assert(0 <= shifted_fret(f[i], a) <= MAX_FRET);
        assert(g[i] == shifted_fret(f[i], a));
        assert(0 <= shifted_fret(g[i], b) <= MAX_FRET);
    }
    assert forall|i: int| 0 <= i < 6 implies #[trigger] shifted_frets(g, b)[i] == shifted_frets(f, a + b)[i] by {
        if f[i] >= 0 {
            assert(0 <= shifted_fret(f[i], a) <= MAX_FRET);
            assert(0 <= shifted_fret(g[i], b) <= MAX_FRET);
        }
    }
    assert(shifted_frets(g, b) =~= shifted_frets(f, a + b));
}

/// Every played string of `f` is fretted on the neck (frets 0 to 24).
pub open spec fn on_neck(f: Seq<i8>) -> bool {
    forall|i: int| 0 <= i < 6 && is_played(f, i) ==> #[trigger] f[i] <= MAX_FRET
}

/// Moving a fingering on the neck back the way it was moved gives it back
/// unchanged.
pub proof fn law_fret_shift_undo(f: Seq<i8>, d: int)
    requires
        f.len() == 6,
        on_neck(f),
        fret_shift_ok(f, d),
    ensures
        fret_shift_ok(shifted_frets(f, d), -d),
        shifted_frets(shifted_frets(f, d), -d) == f,
{
    let g = shifted_frets(f, d);
    assert forall|i: int| 0 <= i < 6 implies #[trigger] g[i] == shifted_fret(f[i], d) by {
        if f[i] >= 0 {
            assert(0 <= shifted_fret(f[i], d) <= MAX_FRET);
        }
    }
    assert forall|i: int| 0 <= i < 6 && g[i] >= 0 implies 0 <= #[trigger] shifted_fret(g[i], -d) <= MAX_FRET by {
        assert(g[i] == shifted_fret(f[i], d));
        if f[i] >= 0 {
            assert(f[i] <= MAX_FRET);
        }
    }
    assert forall|i: int| 0 <= i < 6 implies #[trigger] shifted_frets(g, -d)[i] == f[i] by {
        assert(g[i] == shifted_fret(f[i], d));
    }
    assert(shifted_frets(g, -d) =~= f);
}

/// The MIDI notes that the strings `lo..hi` play, from the lowest string up.
pub open spec fn midis_between(f: Seq<i8>, t: Seq<u8>, lo: int, hi: int) -> Seq<int>
    decreases hi - lo,
{
    if hi <= lo {
        Seq::empty()
    } else {
        midis_between(f, t, lo, hi - 1) + if is_played(f, hi - 1) {
            seq![midi_at(f, t, hi - 1)]
        } else {
            Seq::empty()
        }
    }
}

/// The MIDI notes of a fingering, from the lowest string up (the MIDI
/// column of `played_notes`).
pub open spec fn played_midis(f: Seq<i8>, t: Seq<u8>) -> Seq<int> {
    played_upto(f, t, 6).map_values(|n: (int, int, int)| n.1)
}

pub(crate) proof fn lemma_played_midis(f: Seq<i8>, t: Seq<u8>, n: int)
    requires
        0 <= n <= 6,
    ensures
        played_upto(f, t, n).map_values(|x: (int, int, int)| x.1) == midis_between(f, t, 0, n),
    decreases n,
{
    if n > 0 {
        lemma_played_midis(f, t, n - 1);
        assert(played_upto(f, t, n).map_values(|x: (int, int, int)| x.1) =~= midis_between(f, t, 0, n));
    }
}

/// Unplayed strings at the top of a range add nothing.
proof fn lemma_midis_unplayed_top(f: Seq<i8>, t: Seq<u8>, lo: int, m: int, hi: int)
    requires
        lo <= m <= hi,
        forall|i: int| m <= i < hi ==> !#[trigger] is_played(f, i),
    ensures
        midis_between(f, t, lo, hi) == midis_between(f, t, lo, m),
    decreases hi - m,
{
    if hi > m {
        assert(!is_played(f, hi - 1));
        lemma_midis_unplayed_top(f, t, lo, m, hi - 1);
        assert(midis_between(f, t, lo, hi) =~= midis_between(f, t, lo, hi - 1));
    }
}

/// Unplayed strings at the bottom of a range add nothing.
proof fn lemma_midis_unplayed_bottom(f: Seq<i8>, t: Seq<u8>, lo: int, m: int, hi: int)
    requires
        lo <= m <= hi,
        forall|i: int| lo <= i < m ==> !#[trigger] is_played(f, i),
    ensures
        midis_between(f, t, lo, hi) == midis_between(f, t, m, hi),
    decreases hi - m,
{
    if hi == m {
        lemma_midis_unplayed_top(f, t, lo, lo, hi);
        assert(midis_between(f, t, lo, lo) =~= Seq::<int>::empty());
        assert(midis_between(f, t, m, m) =~= Seq::<int>::empty());
    } else {
        lemma_midis_unplayed_bottom(f, t, lo, m, hi - 1);
    }
}

/// A fingering `g` that plays on string `j + d` what `f` plays on string `j`
/// plays the same notes in the same order.
proof fn lemma_midis_moved(f: Seq<i8>, g: Seq<i8>, t: Seq<u8>, d: int, lo: int, hi: int)
    requires
        lo <= hi,
        forall|j: int| lo <= j < hi ==> (#[trigger] is_played(f, j) <==> is_played(g, j + d)),
        forall|j: int| lo <= j < hi && is_played(f, j) ==> #[trigger] midi_at(f, t, j) == midi_at(g, t, j + d),
    ensures
        midis_between(g, t, lo + d, hi + d) == midis_between(f, t, lo, hi),
    decreases hi - lo,
{
    if hi > lo {
        lemma_midis_moved(f, g, t, d, lo, hi - 1);
        assert(is_played(f, hi - 1) <==> is_played(g, hi - 1 + d));
        if is_played(f, hi - 1) {
            assert(midi_at(f, t, hi - 1) == midi_at(g, t, hi - 1 + d));
        }
        assert(midis_between(g, t, lo + d, hi + d) =~= midis_between(f, t, lo, hi));
    }
}

/// Moving the notes across strings keeps every pitch: the shifted fingering
/// plays the same MIDI notes, in the same order from the lowest string up.
pub proof fn law_string_shift_keeps_pitches(f: Seq<i8>, t: Seq<u8>, d: int)
    requires
        f.len() == 6,
        t.len() == 6,
        string_shift_ok(f, t, d),
    ensures
        played_midis(shifted_strings(f, t, d), t) == played_midis(f, t),
{
    let g = shifted_strings(f, t, d);
    let a = if d < 0 {
        -d
    } else {
        0
    };
    let b = if d > 0 {
        6 - d
    } else {
        6
    };
    assert forall|i: int| 0 <= i < 6 && is_played(f, i) implies a <= i < b by {
        assert(note_can_move(f, t, d, i));
    }
    if a >= b {
        assert forall|i: int| 0 <= i < 6 implies !#[trigger] is_played(f, i) by {}
        assert forall|j: int| 0 <= j < 6 implies !#[trigger] is_played(g, j) by {
            assert(g[j] == string_shifted_fret(f, t, d, j) as i8);
        }
        lemma_midis_unplayed_top(f, t, 0, 0, 6);
        lemma_midis_unplayed_top(g, t, 0, 0, 6);
    } else {
        assert forall|j: int| a <= j < b implies (#[trigger] is_played(f, j) <==> is_played(g, j + d)) by {
            assert(g[j + d] == string_shifted_fret(f, t, d, j + d) as i8);
            if is_played(f, j) {
                assert(note_can_move(f, t, d, j));
            }
        }
        assert forall|j: int| a <= j < b && is_played(f, j) implies #[trigger] midi_at(f, t, j) == midi_at(g, t, j + d) by {
            assert(note_can_move(f, t, d, j));
            assert(g[j + d] == string_shifted_fret(f, t, d, j + d) as i8);
        }
        lemma_midis_moved(f, g, t, d, a, b);
        assert forall|j: int| 0 <= j < a + d implies !#[trigger] is_played(g, j) by {
            assert(g[j] == string_shifted_fret(f, t, d, j) as i8);
        }
        assert forall|j: int| b + d <= j < 6 implies !#[trigger] is_played(g, j) by {
            assert(g[j] == string_shifted_fret(f, t, d, j) as i8);
        }
        lemma_midis_unplayed_bottom(g, t, 0, a + d, 6);
        lemma_midis_unplayed_top(g, t, a + d, b + d, 6);
        lemma_midis_unplayed_bottom(f, t, 0, a, 6);
        lemma_midis_unplayed_top(f, t, a, b, 6);
    }
    lemma_played_midis(f, t, 6);
    lemma_played_midis(g, t, 6);
}

/// Every muted string written as -1.
pub open spec fn muting_normalized(f: Seq<i8>) -> Seq<i8> {
    Seq::new(6, |i: int| if f[i] >= 0 { f[i] } else { -1i8 })
}

/// Moving the notes of a fingering on the neck back across the strings gives
/// the fingering back, with every muted string written as -1.
pub proof fn law_string_shift_undo(f: Seq<i8>, t: Seq<u8>, d: int)
    requires
        f.len() == 6,
        t.len() == 6,
        on_neck(f),
        string_shift_ok(f, t, d),
    ensures
        string_shift_ok(shifted_strings(f, t, d), t, -d),
        shifted_strings(shifted_strings(f, t, d), t, -d) == muting_normalized(f),
{
    let g = shifted_strings(f, t, d);
    assert forall|j: int| 0 <= j < 6 implies #[trigger] g[j] == string_shifted_fret(f, t, d, j) by {
        if 0 <= j - d < 6 && is_played(f, j - d) {
            assert(note_can_move(f, t, d, j - d));
        }
    }
    assert forall|j: int| 0 <= j < 6 && is_played(g, j) implies #[trigger] note_can_move(g, t, -d, j) by {
        assert(g[j] == string_shifted_fret(f, t, d, j));
        assert(0 <= j - d < 6 && is_played(f, j - d));
        assert(f[j - d] <= MAX_FRET);
    }
    assert forall|i: int| 0 <= i < 6 implies #[trigger] shifted_strings(g, t, -d)[i] == muting_normalized(f)[i] by {
        if 0 <= i + d < 6 {
            assert(g[i + d] == string_shifted_fret(f, t, d, i + d));
        }
        if is_played(f, i) {
            assert(note_can_move(f, t, d, i));
        }
    }
    assert(shifted_strings(g, t, -d) =~= muting_normalized(f));
}


/// The frets of one string listed by `string_positions` are exactly those in
/// range whose pitch class is in `pcs`.
proof fn lemma_string_positions_members(pcs: Seq<int>, open: u8, s: int, from: int, upto: int, fr: int)
    requires
        0 <= s < 6,
        0 <= from,
        upto <= 256,
        0 <= fr <= 255,
    ensures
        string_positions(pcs, open, s, from, upto).contains((s as usize, fr as u8)) <==> (from <= fr
            < upto && pcs.contains((open + fr) % 12)),
    decreases upto - from,
{
    lemma_string_positions_bounds(pcs, open, s, from, upto);
    let cur = string_positions(pcs, open, s, from, upto);
    if upto > from {
        lemma_string_positions_members(pcs, open, s, from, upto - 1, fr);
        let prev = string_positions(pcs, open, s, from, upto - 1);
        if prev.contains((s as usize, fr as u8)) {
            let k = choose|k: int| 0 <= k < prev.len() && prev[k] == (s as usize, fr as u8);
            assert(cur[k] == prev[k]);
        }
        if from <= fr < upto && pcs.contains((open + fr) % 12) && fr == upto - 1 {
            assert(cur[cur.len() - 1] == (s as usize, fr as u8));
        }
        if cur.contains((s as usize, fr as u8)) {
            let k = choose|k: int| 0 <= k < cur.len() && cur[k] == (s as usize, fr as u8);
            if k < prev.len() {
                assert(prev[k] == cur[k]);
            }
        }
    }
}

/// The positions that `chord_tone_positions` lists are exactly the places
/// on the neck, frets `from` to `to`, whose pitch class is one of `pcs`:
/// every such place is listed, and nothing else.
pub proof fn law_positions_are_the_chord_tones(pcs: Seq<int>, t: Seq<u8>, from: int, to: int, s: int, fr: int)
    requires
        t.len() == 6,
        0 <= from,
        to <= 255,
        0 <= s < 6,
        0 <= fr <= 255,
    ensures
        grid_positions(pcs, t, from, to, 6).contains((s as usize, fr as u8)) <==> (from <= fr <= to
            && pcs.contains((t[s] + fr) % 12)),
{
    lemma_grid_members(pcs, t, from, to, 6, s, fr);
}

proof fn lemma_grid_members(pcs: Seq<int>, t: Seq<u8>, from: int, to: int, n: int, s: int, fr: int)
    requires
        t.len() == 6,
        0 <= n <= 6,
        0 <= from,
        to <= 255,
        0 <= s < 6,
        0 <= fr <= 255,
    ensures
        grid_positions(pcs, t, from, to, n).contains((s as usize, fr as u8)) <==> (s < n && from <= fr
            <= to && pcs.contains((t[s] + fr) % 12)),
    decreases n,
{
    let cur = grid_positions(pcs, t, from, to, n);
    if n > 0 {
        lemma_grid_members(pcs, t, from, to, n - 1, s, fr);
        let prev = grid_positions(pcs, t, from, to, n - 1);
        let last = string_positions(pcs, t[n - 1], n - 1, from, to + 1);
        lemma_string_positions_bounds(pcs, t[n - 1], n - 1, from, to + 1);
        lemma_grid_positions_bounds(pcs, t, from, to, n - 1);
        if s == n - 1 {
            lemma_string_positions_members(pcs, t[n - 1], n - 1, from, to + 1, fr);
        }
        if prev.contains((s as usize, fr as u8)) {
            let k = choose|k: int| 0 <= k < prev.len() && prev[k] == (s as usize, fr as u8);
            assert(cur[k] == prev[k]);
        }
        if last.contains((s as usize, fr as u8)) {
            let k = choose|k: int| 0 <= k < last.len() && last[k] == (s as usize, fr as u8);
            assert(cur[prev.len() + k] == last[k]);
        }
        if cur.contains((s as usize, fr as u8)) {
            let k = choose|k: int| 0 <= k < cur.len() && cur[k] == (s as usize, fr as u8);
            if k < prev.len() {
                assert(prev[k] == cur[k]);
                assert(prev.contains((s as usize, fr as u8)));
            } else {
                assert(last[k - prev.len()] == cur[k]);
                assert(last.contains((s as usize, fr as u8)));
            }
        }
    }
}

} // verus!
