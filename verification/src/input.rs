//! Reading fingerings typed as text (`X,X,0,2,3,2`), and checking and
//! transposing fingerings handed over as plain slices.
use vstd::prelude::*;

use crate::fretboard::{
    fret_shift_ok, law_fret_shift_undo, law_string_shift_undo, muting_normalized,
    on_neck, shifted_frets, shifted_strings, string_shift_ok, transpose_fretboard,
    transpose_strings,
};
use crate::text::{
    ascii_lower, ascii_lower_char, chars_of, decimal, eq_ignore_ascii_case, push_decimal,
    push_signed_decimal, signed_decimal, trim, trim_range,
};

verus! {

// ---------------------------------------------------------------------------
// The text format
// ---------------------------------------------------------------------------

/// The pieces of `s` between commas (`str::split(',')`): one more piece
/// than there are commas, empty pieces included.
pub open spec fn split_commas(s: Seq<char>) -> Seq<Seq<char>>
    decreases s.len(),
{
    if s.len() == 0 {
        seq![Seq::<char>::empty()]
    } else {
        let prev = split_commas(s.drop_last());
        if s.last() == ',' {
            prev.push(Seq::empty())
        } else {
            prev.update(prev.len() - 1, prev.last().push(s.last()))
        }
    }
}

/// An ASCII decimal digit.
pub open spec fn is_digit(c: char) -> bool {
    '0' <= c && c <= '9'
}

/// The value of a string of decimal digits.
pub open spec fn digits_value(d: Seq<char>) -> int
    decreases d.len(),
{
    if d.len() == 0 {
        0
    } else {
        digits_value(d.drop_last()) * 10 + (d.last() as int - '0' as int)
    }
}

/// The digits of a number: the text after a leading `+` or `-`, if any.
pub open spec fn unsigned_part(s: Seq<char>) -> Seq<char> {
    if s.len() > 0 && (s[0] == '-' || s[0] == '+') {
        s.drop_first()
    } else {
        s
    }
}

/// Every character of `d` is a decimal digit.
pub open spec fn all_digits(d: Seq<char>) -> bool {
    forall|k: int| 0 <= k < d.len() ==> is_digit(#[trigger] d[k])
}

/// What `str::parse::<i32>` gives: an optional sign (`+` or `-`), then at
/// least one decimal digit and nothing else, with a value that fits in `i32`.
pub open spec fn parse_i32(s: Seq<char>) -> Option<int> {
    let d = unsigned_part(s);
    let v = if s.len() > 0 && s[0] == '-' {
        -digits_value(d)
    } else {
        digits_value(d)
    };
    if s.len() == 0 || d.len() == 0 || !all_digits(d) || !(i32::MIN <= v <= i32::MAX) {
        None
    } else {
        Some(v)
    }
}

/// The token that marks a string as not played: `x`, in either case.
pub open spec fn is_mute_token(t: Seq<char>) -> bool {
    eq_ignore_ascii_case(t, seq!['x'])
}

/// The fret that a token stands for once trimmed: -1 for `x` or `X`, a
/// number from 0 to 24 as itself; any other token stands for none.
pub open spec fn token_fret(tok: Seq<char>) -> Option<int> {
    let t = trim(tok);
    if is_mute_token(t) {
        Some(-1)
    } else {
        match parse_i32(t) {
            Some(n) => if 0 <= n <= 24 {
                Some(n)
            } else {
                None
            },
            None => None,
        }
    }
}

/// Why a fingering typed as text is rejected.
#[derive(Debug, Clone, PartialEq, Eq)]
pub enum FretInputError {
    /// The text does not hold exactly six comma-separated values.
    WrongCount(usize),
    /// A value is a number outside the frets 0 to 24.
    OutOfRange(i32),
    /// A value is neither `x` nor a number; the value, trimmed.
    InvalidToken(String),
}

/// The error that a rejected token gives.
pub open spec fn token_error(tok: Seq<char>, e: FretInputError) -> bool {
    let t = trim(tok);
    match parse_i32(t) {
        Some(n) => e == FretInputError::OutOfRange(n as i32),
        None => e matches FretInputError::InvalidToken(s) && s@ == t,
    }
}

/// The message that explains a rejection.
pub open spec fn error_message(e: FretInputError) -> Seq<char> {
    match e {
        FretInputError::WrongCount(n) => "Expected 6 comma-separated values, got "@ + decimal(
            n as nat,
        ),
        FretInputError::OutOfRange(n) => "Fret value "@ + signed_decimal(n as int)
            + " out of range (0-24)"@,
        FretInputError::InvalidToken(s) => "Invalid token '"@ + s@
            + "': expected 'x' or a number 0-24"@,
    }
}

impl FretInputError {
    /// The message shown for this rejection.
    pub fn message(&self) -> (m: String)
        ensures
            m@ == error_message(*self),
    {
        match self {
            FretInputError::WrongCount(n) => {
                let mut m = String::from_str("Expected 6 comma-separated values, got ");
                push_decimal(&mut m, *n as u64);
                m
            },
            FretInputError::OutOfRange(n) => {
                let mut m = String::from_str("Fret value ");
                push_signed_decimal(&mut m, *n);
                m.append(" out of range (0-24)");
                m
            },
            FretInputError::InvalidToken(s) => {
                let mut m = String::from_str("Invalid token '");
                m.append(s.as_str());
                m.append("': expected 'x' or a number 0-24");
                m
            },
        }
    }
}

proof fn lemma_digits_value_grows(d: Seq<char>, m: int)
    requires
        0 <= m <= d.len(),
        forall|k: int| 0 <= k < d.len() ==> is_digit(#[trigger] d[k]),
    ensures
        digits_value(d.take(m)) <= digits_value(d),
        0 <= digits_value(d.take(m)),
    decreases d.len(),
{
    if m < d.len() {
        let e = d.drop_last();
        assert forall|k: int| 0 <= k < e.len() implies is_digit(#[trigger] e[k]) by {
            assert(e[k] == d[k]);
        }
        lemma_digits_value_grows(e, m);
        assert(e.take(m) =~= d.take(m));
        lemma_digits_value_grows(e, e.len() as int);
        assert(e.take(e.len() as int) =~= e);
    } else {
        assert(d.take(m) =~= d);
        if d.len() > 0 {
            let e = d.drop_last();
            assert forall|k: int| 0 <= k < e.len() implies is_digit(#[trigger] e[k]) by {
                assert(e[k] == d[k]);
            }
            lemma_digits_value_grows(e, e.len() as int);
            assert(e.take(e.len() as int) =~= e);
        }
    }
}

/// `str::parse::<i32>` on the characters `v[from..to]`.
fn parse_i32_chars(v: &Vec<char>, from: usize, to: usize) -> (r: Option<i32>)
    requires
        from <= to <= v.len(),
    ensures
        match r {
            Some(n) => parse_i32(v@.subrange(from as int, to as int)) == Some(n as int),
            None => parse_i32(v@.subrange(from as int, to as int)) is None,
        },
{
    let ghost s = v@.subrange(from as int, to as int);
    if from == to {
        return None;
    }
    let c0 = v[from];
    assert(s[0] == c0);
    let neg = c0 == '-';
    let start = if c0 == '-' || c0 == '+' {
        from + 1
    } else {
        from
    };
    let ghost d = v@.subrange(start as int, to as int);
    assert(d =~= unsigned_part(s));
    if start == to {
        return None;
    }
    let mut acc: i64 = 0;
    let mut k: usize = start;
    while k < to
        invariant
            from <= start < to <= v.len(),
            s == v@.subrange(from as int, to as int),
            s.len() > 0,
            neg == (s[0] == '-'),
            d == unsigned_part(s),
            d.len() > 0,
            d == v@.subrange(start as int, to as int),
            start <= k <= to,
            forall|j: int| start <= j < k ==> is_digit(#[trigger] v@[j]),
            acc == digits_value(v@.subrange(start as int, k as int)),
            0 <= acc <= 2147483648,
        decreases to - k,
    {
        let c = v[k];
        if c < '0' || c > '9' {
            assert(d[k - start] == c);
            assert(!is_digit(d[k - start]));
            assert(!all_digits(d));
            assert(d.len() > 0);
            assert(s.len() > 0);
            assert(parse_i32(s) is None);
            return None;
        }
        let digit = (c as u32 - '0' as u32) as i64;
        let next = acc * 10 + digit;
        assert(v@.subrange(start as int, k + 1).drop_last() =~= v@.subrange(start as int, k as int));
        assert(next == digits_value(v@.subrange(start as int, k + 1)));
        if next > 2147483648 {
            proof {
                if all_digits(d) {
                    lemma_digits_value_grows(d, k + 1 - start);
                    assert(d.take(k + 1 - start) =~= v@.subrange(start as int, k + 1));
                }
            }
            assert(parse_i32(s) is None);
            return None;
        }
        acc = next;
        k = k + 1;
    }
    assert(v@.subrange(start as int, k as int) =~= d);
    assert forall|j: int| 0 <= j < d.len() implies is_digit(#[trigger] d[j]) by {
        assert(d[j] == v@[start + j]);
    }
    assert(all_digits(d));
    let value: i64 = if neg {
        -acc
    } else {
        acc
    };
    if value < -2147483648 || value > 2147483647 {
        return None;
    }
    Some(value as i32)
}

/// The tokens of `v` between `bounds`, as texts.
pub open spec fn token_texts(v: Seq<char>, bounds: Seq<(usize, usize)>) -> Seq<Seq<char>> {
    bounds.map_values(|b: (usize, usize)| v.subrange(b.0 as int, b.1 as int))
}

proof fn lemma_split_nonempty(s: Seq<char>)
    ensures
        split_commas(s).len() >= 1,
    decreases s.len(),
{
    if s.len() > 0 {
        lemma_split_nonempty(s.drop_last());
    }
}

/// The bounds of the comma-separated pieces of `v`.
fn split_bounds(v: &Vec<char>) -> (bounds: Vec<(usize, usize)>)
    ensures
        token_texts(v@, bounds@) == split_commas(v@),
        forall|i: int| 0 <= i < bounds.len() ==> (#[trigger] bounds@[i]).0 <= bounds@[i].1 <= v.len(),
{
    let n = v.len();
    let mut bounds: Vec<(usize, usize)> = Vec::new();
    let mut start: usize = 0;
    let mut k: usize = 0;
    assert(v@.take(0) =~= Seq::<char>::empty());
    assert(token_texts(v@, bounds@).push(v@.subrange(0, 0)) =~= seq![Seq::<char>::empty()]);
    while k < n
        invariant
            n == v.len(),
            start <= k <= n,
            forall|i: int| 0 <= i < bounds.len() ==> (#[trigger] bounds@[i]).0 <= bounds@[i].1 <= k,
            split_commas(v@.take(k as int)) == token_texts(v@, bounds@).push(
                v@.subrange(start as int, k as int),
            ),
        decreases n - k,
    {
        let ghost before = token_texts(v@, bounds@);
        assert(v@.take(k + 1).drop_last() =~= v@.take(k as int));
        assert(v@.take(k + 1).last() == v@[k as int]);
        if v[k] == ',' {
            let ghost old_start = start;
            bounds.push((start, k));
            assert(token_texts(v@, bounds@) =~= before.push(v@.subrange(start as int, k as int)));
            start = k + 1;
            assert(v@.subrange(start as int, k + 1) =~= Seq::<char>::empty());
            assert(token_texts(v@, bounds@).push(v@.subrange(start as int, k + 1)) =~= before.push(
                v@.subrange(old_start as int, k as int),
            ).push(Seq::empty()));
        } else {
            let ghost prev = before.push(v@.subrange(start as int, k as int));
            assert(v@.subrange(start as int, k as int).push(v@[k as int]) =~= v@.subrange(start as int, k + 1));
            assert(prev.update(prev.len() - 1, prev.last().push(v@[k as int])) =~= before.push(
                v@.subrange(start as int, k + 1),
            ));
        }
        k = k + 1;
    }
    let ghost before = token_texts(v@, bounds@);
    bounds.push((start, n));
    assert(token_texts(v@, bounds@) =~= before.push(v@.subrange(start as int, n as int)));
    assert(v@.take(n as int) =~= v@);
    bounds
}

/// Reads a fingering typed as text: six comma-separated values, from the
/// lowest string up, each `x` (in either case, not played) or a fret from 0
/// to 24, white space around a value ignored. The first value that is
/// rejected decides the error.
pub fn parse_fret_input(input: &str) -> (r: Result<Vec<i8>, FretInputError>)
    ensures
        ({
            let toks = split_commas(input@);
            match r {
                Ok(frets) => {
                    &&& toks.len() == 6
                    &&& frets@.len() == 6
                    &&& forall|k: int| 0 <= k < 6 ==> token_fret(#[trigger] toks[k]) == Some(frets@[k] as int)
                },
                Err(e) => if toks.len() != 6 {
                    e == FretInputError::WrongCount(toks.len() as usize)
                } else {
                    exists|k: int|
                        0 <= k < 6 && token_fret(#[trigger] toks[k]) is None && (forall|j: int|
                            0 <= j < k ==> token_fret(#[trigger] toks[j]) is Some) && token_error(toks[k], e)
                },
            }
        }),
{
    let v = chars_of(input);
    let bounds = split_bounds(&v);
    let ghost toks = split_commas(input@);
    assert(token_texts(v@, bounds@) == toks);
    if bounds.len() != 6 {
        return Err(FretInputError::WrongCount(bounds.len()));
    }
    let mut frets: Vec<i8> = Vec::new();
    let mut i: usize = 0;
    while i < 6
        invariant
            v@ == input@,
            toks == split_commas(input@),
            bounds.len() == 6,
            toks == token_texts(v@, bounds@),
            toks.len() == 6,
            forall|j: int| 0 <= j < bounds.len() ==> (#[trigger] bounds@[j]).0 <= bounds@[j].1 <= v.len(),
            i <= 6,
            frets@.len() == i,
            forall|k: int| 0 <= k < i ==> token_fret(#[trigger] toks[k]) == Some(frets@[k] as int),
        decreases 6 - i,
    {
        let (a, b) = bounds[i];
        assert(toks[i as int] == v@.subrange(a as int, b as int));
        let (ta, tb) = trim_range(&v, a, b);
        let ghost t = v@.subrange(ta as int, tb as int);
        assert(t == trim(toks[i as int]));
        let mute = tb - ta == 1 && ascii_lower_char(v[ta]) == 'x';
        assert(mute == is_mute_token(t)) by {
            if tb - ta == 1 {
                assert(t[0] == v@[ta as int]);
                assert(ascii_lower('x') == 'x');
            }
        }
        if mute {
            frets.push(-1);
        } else {
            match parse_i32_chars(&v, ta, tb) {
                Some(n) => {
                    if 0 <= n && n <= 24 {
                        frets.push(n as i8);
                    } else {
                        let e = FretInputError::OutOfRange(n);
                        assert(token_fret(toks[i as int]) is None && token_error(toks[i as int], e));
                        return Err(e);
                    }
                },
                None => {
                    let piece = input.substring_char(ta, tb);
                    let e = FretInputError::InvalidToken(String::from_str(piece));
                    assert(token_fret(toks[i as int]) is None && token_error(toks[i as int], e));
                    return Err(e);
                },
            }
        }
        i = i + 1;
    }
    Ok(frets)
}

// ---------------------------------------------------------------------------
// Fingerings handed over as slices
// ---------------------------------------------------------------------------

/// The six frets of a slice, if it has exactly six entries.
pub fn frets_from_slice(frets: &[i8]) -> (r: Option<[i8; 6]>)
    ensures
        r is Some <==> frets@.len() == 6,
        r matches Some(a) ==> a@ == frets@,
{
    if frets.len() != 6 {
        return None;
    }
    let a = [frets[0], frets[1], frets[2], frets[3], frets[4], frets[5]];
    assert(a@ =~= frets@);
    Some(a)
}

/// The six open-string notes of a slice, if it has exactly six entries.
pub fn tuning_from_slice(tuning: &[u8]) -> (r: Option<[u8; 6]>)
    ensures
        r is Some <==> tuning@.len() == 6,
        r matches Some(a) ==> a@ == tuning@,
{
    if tuning.len() != 6 {
        return None;
    }
    let a = [tuning[0], tuning[1], tuning[2], tuning[3], tuning[4], tuning[5]];
    assert(a@ =~= tuning@);
    Some(a)
}

/// The outcome of a transposition that keeps the fingering when it fails.
#[derive(Debug, Clone, Copy)]
pub struct TransposeOutcome {
    pub success: bool,
    pub frets: [i8; 6],
}

/// Moves the fingering `direction` frets along the neck; when a note would
/// leave the neck, the fingering stays as it was and `success` is false.
pub fn transpose_frets_outcome(frets: &[i8; 6], direction: i8) -> (o: TransposeOutcome)
    ensures
        o.success == fret_shift_ok(frets@, direction as int),
        o.frets@ == if o.success {
            shifted_frets(frets@, direction as int)
        } else {
            frets@
        },
{
    match transpose_fretboard(frets, direction) {
        Some(g) => TransposeOutcome { success: true, frets: g },
        None => TransposeOutcome { success: false, frets: *frets },
    }
}

/// Moves the fingering `direction` strings at the same pitches; when that
/// cannot be done, the fingering stays as it was and `success` is false.
pub fn transpose_strings_outcome(frets: &[i8; 6], tuning: &[u8; 6], direction: i8) -> (o: TransposeOutcome)
    ensures
        o.success == string_shift_ok(frets@, tuning@, direction as int),
        o.frets@ == if o.success {
            shifted_strings(frets@, tuning@, direction as int)
        } else {
            frets@
        },
{
    match transpose_strings(frets, tuning, direction) {
        Some(g) => TransposeOutcome { success: true, frets: g },
        None => TransposeOutcome { success: false, frets: *frets },
    }
}


/// A fingering read from text is on the neck and writes every muted string
/// as -1, so moving it along the neck or across the strings and back gives
/// it back exactly.
pub proof fn law_typed_fingering_moves_back(toks: Seq<Seq<char>>, f: Seq<i8>, t: Seq<u8>, d: int)
    requires
        toks.len() == 6,
        f.len() == 6,
        t.len() == 6,
        forall|k: int| 0 <= k < 6 ==> token_fret(#[trigger] toks[k]) == Some(f[k] as int),
    ensures
        on_neck(f),
        muting_normalized(f) == f,
        fret_shift_ok(f, d) ==> shifted_frets(shifted_frets(f, d), -d) == f,
        string_shift_ok(f, t, d) ==> shifted_strings(shifted_strings(f, t, d), t, -d) == f,
{
    assert forall|k: int| 0 <= k < 6 implies (#[trigger] f[k] == -1 || 0 <= f[k] <= 24) by {
        assert(token_fret(toks[k]) == Some(f[k] as int));
    }
    assert(muting_normalized(f) =~= f);
    if fret_shift_ok(f, d) {
        law_fret_shift_undo(f, d);
    }
    if string_shift_ok(f, t, d) {
        law_string_shift_undo(f, t, d);
    }
}

} // verus!
