//! Numeric text in phoneme strings: decimal integers (note octaves), note
//! names, and the decimal float literals that directive values and pitch
//! deltas are written in.

use vstd::prelude::*;


verus! {

pub open spec fn is_sign(c: char) -> bool {
    c == '+' || c == '-'
}

/// `s` without one leading sign character.
pub open spec fn unsigned_part(s: Seq<char>) -> Seq<char> {
    if s.len() > 0 && is_sign(s[0]) { s.skip(1) } else { s }
}

pub open spec fn ascii_lower(c: char) -> char {
    if 'A' <= c && c <= 'Z' { ((c as u32) + 32) as char } else { c }
}

/// `s` equals the lowercase ASCII `word` once `s` is lowercased.
pub open spec fn eq_ignore_ascii_case(s: Seq<char>, word: Seq<char>) -> bool {
    s.len() == word.len() && forall|i: int| 0 <= i < s.len() ==> ascii_lower(#[trigger] s[i]) == word[i]
}

/// `inf`, `infinity` or `nan`, in any letter case.
pub open spec fn is_special_value(b: Seq<char>) -> bool {
    ||| eq_ignore_ascii_case(b, seq!['i', 'n', 'f'])
    ||| eq_ignore_ascii_case(b, seq!['i', 'n', 'f', 'i', 'n', 'i', 't', 'y'])
    ||| eq_ignore_ascii_case(b, seq!['n', 'a', 'n'])
}

pub open spec fn is_exp_mark(c: char) -> bool {
    c == 'e' || c == 'E'
}

/// Digits with at most one `.` and at least one digit: `Digit+`,
/// `Digit+ '.' Digit*` or `Digit* '.' Digit+`.
pub open spec fn mantissa_ok(m: Seq<char>) -> bool {
    &&& forall|i: int| 0 <= i < m.len() ==> is_digit(#[trigger] m[i]) || m[i] == '.'
    &&& forall|i: int, j: int| 0 <= i < m.len() && 0 <= j < m.len() && #[trigger] m[i] == '.' && #[trigger] m[j] == '.' ==> i == j
    &&& exists|i: int| 0 <= i < m.len() && is_digit(#[trigger] m[i])
}

/// An exponent after the `e`: an optional sign and one or more digits.
pub open spec fn exponent_ok(x: Seq<char>) -> bool {
    unsigned_part(x).len() > 0 && all_digits(unsigned_part(x))
}

/// A decimal number: a mantissa, optionally followed by `e`/`E` and an
/// exponent.
pub open spec fn decimal_ok(b: Seq<char>) -> bool {
    exists|k: int| 0 <= k <= b.len() && #[trigger] mantissa_ok(b.take(k)) && (k == b.len() || (is_exp_mark(b[k]) && exponent_ok(b.skip(k + 1))))
}

/// The texts that Rust's decimal floating-point parser (`str::parse` for the
/// 32-bit float type) accepts, as its documentation gives the grammar:
/// `Sign? ( 'inf' | 'infinity' | 'nan' | Number )` with
/// `Number ::= ( Digit+ | Digit+ '.' Digit* | Digit* '.' Digit+ ) Exp?`,
/// `Exp ::= 'e' Sign? Digit+`, case-insensitive, no surrounding whitespace.
pub open spec fn float_literal_ok(s: Seq<char>) -> bool {
    is_special_value(unsigned_part(s)) || decimal_ok(unsigned_part(s))
}

pub open spec fn is_digit(c: char) -> bool {
    '0' <= c && c <= '9'
}

pub open spec fn digit_value(c: char) -> int {
    (c as int) - ('0' as int)
}

pub open spec fn all_digits(s: Seq<char>) -> bool {
    forall|i: int| 0 <= i < s.len() ==> is_digit(#[trigger] s[i])
}

/// The value of a string of decimal digits, most significant first.
pub open spec fn digits_value(s: Seq<char>) -> int
    decreases s.len(),
{
    if s.len() == 0 {
        0
    } else {
        digits_value(s.drop_last()) * 10 + digit_value(s.last())
    }
}

/// What Rust's `i32` parser returns for `text`: an optional `+` or `-`,
/// then one or more decimal digits and nothing else, with the value in
/// `i32`'s range; `None` otherwise.
pub open spec fn i32_text_value(text: Seq<char>) -> Option<int> {
    let signed = text.len() > 0 && (text[0] == '+' || text[0] == '-');
    let negative = text.len() > 0 && text[0] == '-';
    let digits = if signed { text.skip(1) } else { text };
    if digits.len() == 0 || !all_digits(digits) {
        None
    } else {
        let v = if negative { -digits_value(digits) } else { digits_value(digits) };
        if i32::MIN <= v && v <= i32::MAX {
            Some(v)
        } else {
            None
        }
    }
}

/// Whether `s[from..to]` is a mantissa (see [`mantissa_ok`]).
fn mantissa_check(s: &[char], from: usize, to: usize) -> (r: bool)
    requires
        from <= to <= s.len(),
    ensures
        r == mantissa_ok(s@.subrange(from as int, to as int)),
{
    let ghost m = s@.subrange(from as int, to as int);
    let mut seen_dot = false;
    let mut dot_at: usize = 0;
    let mut seen_digit = false;
    let mut i = from;
    while i < to
        invariant
            from <= i <= to <= s.len(),
            m == s@.subrange(from as int, to as int),
            forall|k: int| from <= k < i ==> is_digit(s@[k]) || s@[k] == '.',
            seen_dot ==> from <= dot_at < i && s@[dot_at as int] == '.',
            forall|k: int| from <= k < i && s@[k] == '.' ==> seen_dot && k == dot_at,
            seen_digit <==> exists|k: int| from <= k < i && is_digit(#[trigger] s@[k]),
        decreases to - i,
    {
        let c = s[i];
        if c == '.' {
            if seen_dot {
                assert(m[dot_at - from] == '.' && m[i - from] == '.');
                return false;
            }
            seen_dot = true;
            dot_at = i;
        } else if '0' <= c && c <= '9' {
            seen_digit = true;
        } else {
            assert(!(is_digit(m[i - from]) || m[i - from] == '.'));
            return false;
        }
        i += 1;
    }
    if !seen_digit {
        assert forall|k: int| 0 <= k < m.len() implies !is_digit(#[trigger] m[k]) by {
            assert(m[k] == s@[from + k]);
        }
        return false;
    }
    assert forall|k: int| 0 <= k < m.len() implies is_digit(#[trigger] m[k]) || m[k] == '.' by {
        assert(m[k] == s@[from + k]);
    }
    assert forall|a: int, b: int| 0 <= a < m.len() && 0 <= b < m.len() && #[trigger] m[a] == '.' && #[trigger] m[b] == '.' implies a == b by {
        assert(m[a] == s@[from + a]);
        assert(m[b] == s@[from + b]);
    }
    let ghost k = choose|k: int| from <= k < i && is_digit(#[trigger] s@[k]);
    assert(m[k - from] == s@[k]);
    true
}

/// Whether `s[from..to]` is an exponent (see [`exponent_ok`]).
fn exponent_check(s: &[char], from: usize, to: usize) -> (r: bool)
    requires
        from <= to <= s.len(),
    ensures
        r == exponent_ok(s@.subrange(from as int, to as int)),
{
    let ghost x = s@.subrange(from as int, to as int);
    let start = if from < to && (s[from] == '+' || s[from] == '-') { from + 1 } else { from };
    assert(unsigned_part(x) == s@.subrange(start as int, to as int));
    if start >= to {
        return false;
    }
    let mut i = start;
    while i < to
        invariant
            start <= i <= to <= s.len(),
            x == s@.subrange(from as int, to as int),
            unsigned_part(x) == s@.subrange(start as int, to as int),
            forall|k: int| start <= k < i ==> is_digit(s@[k]),
        decreases to - i,
    {
        if !('0' <= s[i] && s[i] <= '9') {
            assert(!is_digit(unsigned_part(x)[i - start]));
            return false;
        }
        i += 1;
    }
    assert forall|k: int| 0 <= k < unsigned_part(x).len() implies is_digit(#[trigger] unsigned_part(x)[k]) by {
        assert(unsigned_part(x)[k] == s@[start + k]);
    }
    true
}

/// Whether `s[from..to]` spells `word` (lowercase ASCII) in any letter case.
fn eq_ignore_case_check(s: &[char], from: usize, to: usize, word: &[char]) -> (r: bool)
    requires
        from <= to <= s.len(),
    ensures
        r == eq_ignore_ascii_case(s@.subrange(from as int, to as int), word@),
{
    let ghost x = s@.subrange(from as int, to as int);
    if to - from != word.len() {
        return false;
    }
    let mut i: usize = 0;
    while i < word.len()
        invariant
            to - from == word.len(),
            from <= to <= s.len(),
            i <= word.len(),
            x == s@.subrange(from as int, to as int),
            forall|k: int| 0 <= k < i ==> ascii_lower(#[trigger] x[k]) == word@[k],
        decreases word.len() - i,
    {
        let c = s[from + i];
        let lower = if 'A' <= c && c <= 'Z' { ((c as u32) + 32) as u8 as char } else { c };
        assert(x[i as int] == c);
        assert(lower == ascii_lower(c)) by {
            if 'A' <= c && c <= 'Z' {
                assert((c as u32) + 32 < 256);
            }
        }
        if lower != word[i] {
            return false;
        }
        i += 1;
    }
    true
}

/// Whether `text` is a literal that Rust's floating-point parser accepts
/// (see [`float_literal_ok`]).
pub fn is_float_literal(text: &[char]) -> (r: bool)
    ensures
        r == float_literal_ok(text@),
{
    let n = text.len();
    let start: usize = if n > 0 && (text[0] == '+' || text[0] == '-') { 1 } else { 0 };
    let ghost b = unsigned_part(text@);
    assert(b == text@.subrange(start as int, n as int));
    if eq_ignore_case_check(text, start, n, &['i', 'n', 'f'])
        || eq_ignore_case_check(text, start, n, &['i', 'n', 'f', 'i', 'n', 'i', 't', 'y'])
        || eq_ignore_case_check(text, start, n, &['n', 'a', 'n'])
    {
        return true;
    }
    // The first exponent mark, or the end.
    let mut k = start;
    while k < n && !(text[k] == 'e' || text[k] == 'E')
        invariant
            start <= k <= n == text.len(),
            forall|j: int| start <= j < k ==> !is_exp_mark(text@[j]),
        decreases n - k,
    {
        k += 1;
    }
    let ghost kk = (k - start) as int;
    assert(b.take(kk) == text@.subrange(start as int, k as int));
    let mant = mantissa_check(text, start, k);
    let result = if k == n {
        mant
    } else {
        assert(b.skip(kk + 1) == text@.subrange(k + 1, n as int));
        mant && exponent_check(text, k + 1, n)
    };
    proof {
        assert forall|j: int| 0 <= j < kk implies !is_exp_mark(#[trigger] b[j]) by {
            assert(b[j] == text@[start + j]);
        }
        if k < n {
            assert(b[kk] == text@[k as int]);
        }
        lemma_decimal_split(b, kk);
    }
    result
}

/// A decimal number splits at its first exponent mark.
proof fn lemma_decimal_split(b: Seq<char>, k: int)
    requires
        0 <= k <= b.len(),
        forall|j: int| 0 <= j < k ==> !is_exp_mark(#[trigger] b[j]),
        k < b.len() ==> is_exp_mark(b[k]),
    ensures
        decimal_ok(b) == (mantissa_ok(b.take(k)) && (k == b.len() || exponent_ok(b.skip(k + 1)))),
{
    if mantissa_ok(b.take(k)) && (k == b.len() || exponent_ok(b.skip(k + 1))) {
        assert(0 <= k <= b.len() && mantissa_ok(b.take(k)));
    }
    if decimal_ok(b) {
        let j = choose|j: int| 0 <= j <= b.len() && #[trigger] mantissa_ok(b.take(j)) && (j == b.len() || (is_exp_mark(b[j]) && exponent_ok(b.skip(j + 1))));
        if j < k {
            assert(!is_exp_mark(b[j]));
        } else if j > k {
            assert(b.take(j)[k] == b[k]);
            assert(!(is_digit(b.take(j)[k]) || b.take(j)[k] == '.'));
        }
    }
}

/// Digit strings have a nonnegative value.
pub proof fn lemma_digits_value_nonneg(s: Seq<char>)
    requires
        all_digits(s),
    ensures
        digits_value(s) >= 0,
    decreases s.len(),
{
    if s.len() > 0 {
        assert(all_digits(s.drop_last()));
        assert(is_digit(s[s.len() - 1]));
        lemma_digits_value_nonneg(s.drop_last());
    }
}

pub open spec fn min_int(a: int, b: int) -> int {
    if a <= b { a } else { b }
}

/// Parse a decimal `i32` the way `str::parse::<i32>` does.
pub fn parse_i32(text: &[char]) -> (r: Option<i32>)
    ensures
        r matches Some(v) ==> i32_text_value(text@) == Some(v as int),
        r is None ==> i32_text_value(text@) is None,
{
    let n = text.len();
    let signed = n > 0 && (text[0] == '+' || text[0] == '-');
    let negative = n > 0 && text[0] == '-';
    let start: usize = if signed { 1 } else { 0 };
    if start >= n {
        return None;
    }
    let ghost digits = text@.skip(start as int);
    assert(digits == (if signed { text@.skip(1) } else { text@ }));
    // `mag` is the digits' value, capped at `CAP` so it cannot overflow.
    let cap: u64 = 2147483649;
    let mut mag: u64 = 0;
    let mut i: usize = start;
    while i < n
        invariant
            start <= i <= n,
            n == text.len(),
            digits == text@.skip(start as int),
            digits == (if signed { text@.skip(1) } else { text@ }),
            signed == (text@.len() > 0 && (text@[0] == '+' || text@[0] == '-')),
            all_digits(text@.subrange(start as int, i as int)),
            mag as int == min_int(digits_value(text@.subrange(start as int, i as int)), cap as int),
            cap == 2147483649,
        decreases n - i,
    {
        let c = text[i];
        if !('0' <= c && c <= '9') {
            assert(digits[i - start] == c);
            assert(!is_digit(digits[i - start]));
            return None;
        }
        let d: u64 = (c as u32 - '0' as u32) as u64;
        let ghost prefix = text@.subrange(start as int, i as int);
        assert(text@.subrange(start as int, i + 1).drop_last() == prefix);
        assert(digits_value(text@.subrange(start as int, i + 1)) == digits_value(prefix) * 10 + d);
        proof {
            lemma_digits_value_nonneg(prefix);
        }
        if mag >= cap {
            mag = cap;
        } else {
            let next = mag * 10 + d;
            mag = if next >= cap { cap } else { next };
        }
        i += 1;
    }
    assert(text@.subrange(start as int, n as int) == digits);
    proof {
        lemma_digits_value_nonneg(digits);
    }
    if negative {
        if mag > 2147483648 {
            None
        } else {
            Some((0 - (mag as i64)) as i32)
        }
    } else {
        if mag > 2147483647 {
            None
        } else {
            Some(mag as i32)
        }
    }
}

/// Semitone of a note letter relative to C, or `None` for a non-letter.
pub open spec fn note_letter_semitone(c: char) -> Option<int> {
    if c == 'C' { Some(0) }
    else if c == 'D' { Some(2) }
    else if c == 'E' { Some(4) }
    else if c == 'F' { Some(5) }
    else if c == 'G' { Some(7) }
    else if c == 'A' { Some(9) }
    else if c == 'B' { Some(11) }
    else { None }
}

/// The MIDI note number of a note name: a letter `C`..`B`, an optional `#`
/// (sharp) or `b` (flat), and a decimal `i32` octave, with
/// `midi = (octave + 1) * 12 + semitone`. `None` when the name is not of that
/// shape.
pub open spec fn note_midi(name: Seq<char>) -> Option<int> {
    if name.len() == 0 {
        None
    } else {
        match note_letter_semitone(name[0]) {
            None => None,
            Some(letter) => {
                let accidental: int = if name.len() > 1 && name[1] == '#' { 1 }
                    else if name.len() > 1 && name[1] == 'b' { -1 } else { 0 };
                let idx: int = if accidental == 0 { 1 } else { 2 };
                if idx >= name.len() {
                    None
                } else {
                    match i32_text_value(name.skip(idx)) {
                        None => None,
                        Some(octave) => Some((octave + 1) * 12 + letter + accidental),
                    }
                }
            },
        }
    }
}

/// MIDI note number of a note name such as `C4` or `Bb-1` (the integer part
/// of `note_to_hz`; A4 is MIDI 69 = 440 Hz).
pub fn note_to_midi(name: &[char]) -> (r: Option<i64>)
    ensures
        r matches Some(m) ==> note_midi(name@) == Some(m as int),
        r is None ==> note_midi(name@) is None,
{
    if name.len() == 0 {
        return None;
    }
    let letter: i64 = match name[0] {
        'C' => 0,
        'D' => 2,
        'E' => 4,
        'F' => 5,
        'G' => 7,
        'A' => 9,
        'B' => 11,
        _ => {
            return None;
        },
    };
    let mut idx: usize = 1;
    let mut accidental: i64 = 0;
    if idx < name.len() {
        if name[idx] == '#' {
            accidental = 1;
            idx += 1;
        } else if name[idx] == 'b' {
            accidental = -1;
            idx += 1;
        }
    }
    if idx >= name.len() {
        return None;
    }
    let octave_text = slice_from(name, idx);
    match parse_i32(octave_text.as_slice()) {
        None => None,
        Some(octave) => Some((octave as i64 + 1) * 12 + letter + accidental),
    }
}

/// The characters of `s` from index `from` on.
pub fn slice_from(s: &[char], from: usize) -> (r: Vec<char>)
    requires
        from <= s.len(),
    ensures
        r@ == s@.skip(from as int),
{
    slice_range(s, from, s.len())
}

/// The characters of `s` in `[from, to)`.
pub fn slice_range(s: &[char], from: usize, to: usize) -> (r: Vec<char>)
    requires
        from <= to <= s.len(),
    ensures
        r@ == s@.subrange(from as int, to as int),
{
    let mut out: Vec<char> = Vec::new();
    let mut i = from;
    while i < to
        invariant
            from <= i <= to <= s.len(),
            out@ == s@.subrange(from as int, i as int),
        decreases to - i,
    {
        out.push(s[i]);
        i += 1;
    }
    out
}

/// A note name's MIDI number is `(octave + 1) * 12` plus the semitone of
/// its letter above C (C 0, D 2, E 4, F 5, G 7, A 9, B 11), plus one for a
/// sharp (`#`) and minus one for a flat (`b`); so `A4` is 69 and `G4` 67.
pub proof fn note_number_is_octave_and_semitone(letter: char, semitone: int, octave_text: Seq<char>, octave: int)
    requires
        (letter == 'C' && semitone == 0) || (letter == 'D' && semitone == 2) || (letter == 'E'
            && semitone == 4) || (letter == 'F' && semitone == 5) || (letter == 'G' && semitone
            == 7) || (letter == 'A' && semitone == 9) || (letter == 'B' && semitone == 11),
        octave_text.len() > 0,
        octave_text[0] != '#' && octave_text[0] != 'b',
        i32_text_value(octave_text) == Some(octave),
    ensures
        note_midi(seq![letter] + octave_text) == Some((octave + 1) * 12 + semitone),
        note_midi(seq![letter, '#'] + octave_text) == Some((octave + 1) * 12 + semitone + 1),
        note_midi(seq![letter, 'b'] + octave_text) == Some((octave + 1) * 12 + semitone - 1),
{
    let plain = seq![letter] + octave_text;
    let sharp = seq![letter, '#'] + octave_text;
    let flat = seq![letter, 'b'] + octave_text;
    assert(plain[0] == letter && plain[1] == octave_text[0]);
    assert(plain.skip(1) =~= octave_text);
    assert(sharp[0] == letter && sharp[1] == '#');
    assert(sharp.skip(2) =~= octave_text);
    assert(flat[0] == letter && flat[1] == 'b');
    assert(flat.skip(2) =~= octave_text);
}

/// A name that does not start with one of the letters C, D, E, F, G, A, B
/// is no note.
pub proof fn only_the_seven_letters_name_notes(name: Seq<char>)
    requires
        name.len() > 0,
        !(name[0] == 'C' || name[0] == 'D' || name[0] == 'E' || name[0] == 'F' || name[0] == 'G'
            || name[0] == 'A' || name[0] == 'B'),
    ensures
        note_midi(name) is None,
{
}

} // verus!
