//! Lex a phoneme-string source into a stream of [`Token`]s. Tokens are
//! whitespace separated; `#` starts a line comment at a token boundary and
//! `/* ... */` is a block comment anywhere (an unterminated one runs to the
//! end of the source).
//!
//! The lexer works on the bytes of the normalized source: spans are byte
//! offsets, and each byte of a token becomes one character of its text (the
//! byte's Latin-1 character), so a multi-byte UTF-8 character shows up in an
//! unknown token's text as its bytes.

use vstd::prelude::*;
use vstd::utf8::encode_utf8;

use crate::normalize::{normalize, normalized};
use crate::number::{float_literal_ok, is_float_literal, is_sign, note_midi, note_to_midi, slice_from, slice_range};
use crate::text::{chars_of, string_from_chars};

verus! {

/// Source span of a token: byte offsets into the normalized source.
#[derive(Clone, Copy, Debug, PartialEq, Eq, Structural)]
pub struct Span {
    pub start: usize,
    pub end: usize,
}

/// The voice setting a directive changes.
#[derive(Clone, Copy, Debug, PartialEq, Eq, Structural)]
pub enum DirectiveKey {
    /// Base pitch in Hz. Letter `b`.
    Base,
    /// Per-phoneme duration in ms. Letter `r`.
    Rate,
    /// Pause duration in ms (only valid when a value is supplied). Letter `p`.
    Pause,
    /// Formant frequency / bandwidth scale factor. Letter `s`.
    Scale,
    /// Vibrato depth in Hz. Letter `v`.
    Vibrato,
    /// Vibrato rate in Hz. Letter `w`.
    VibratoRate,
    /// Tremolo depth (0..1). Letter `m`.
    Tremolo,
    /// Tremolo rate in Hz. Letter `n`.
    TremoloRate,
    /// Aspiration / breathiness (0..1). Letter `h`.
    Aspiration,
    /// Spectral tilt (-0.95..0.95). Letter `t`.
    Tilt,
    /// Glottal effort (0..1, lax..tense). Letter `g`.
    Effort,
}

/// The directive key of a compact directive's letter.
pub open spec fn key_of_letter(c: char) -> Option<DirectiveKey> {
    if c == 'b' { Some(DirectiveKey::Base) }
    else if c == 'r' { Some(DirectiveKey::Rate) }
    else if c == 'p' { Some(DirectiveKey::Pause) }
    else if c == 's' { Some(DirectiveKey::Scale) }
    else if c == 'v' { Some(DirectiveKey::Vibrato) }
    else if c == 'w' { Some(DirectiveKey::VibratoRate) }
    else if c == 'm' { Some(DirectiveKey::Tremolo) }
    else if c == 'n' { Some(DirectiveKey::TremoloRate) }
    else if c == 'h' { Some(DirectiveKey::Aspiration) }
    else if c == 't' { Some(DirectiveKey::Tilt) }
    else if c == 'g' { Some(DirectiveKey::Effort) }
    else { None }
}

/// The directive key of a bracket directive's name (`[base=120]` style).
pub open spec fn key_of_name(s: Seq<char>) -> Option<DirectiveKey> {
    if s == seq!['b', 'a', 's', 'e'] || s == seq!['p', 'i', 't', 'c', 'h'] { Some(DirectiveKey::Base) }
    else if s == seq!['r', 'a', 't', 'e'] { Some(DirectiveKey::Rate) }
    else if s == seq!['p', 'a', 'u', 's', 'e'] { Some(DirectiveKey::Pause) }
    else if s == seq!['s', 'c', 'a', 'l', 'e'] { Some(DirectiveKey::Scale) }
    else if s == seq!['v', 'i', 'b', 'r', 'a', 't', 'o'] { Some(DirectiveKey::Vibrato) }
    else if s == seq!['v', 'i', 'b', 'r', 'a', 't', 'o', 'R', 'a', 't', 'e'] { Some(DirectiveKey::VibratoRate) }
    else if s == seq!['t', 'r', 'e', 'm', 'o', 'l', 'o'] { Some(DirectiveKey::Tremolo) }
    else if s == seq!['t', 'r', 'e', 'm', 'o', 'l', 'o', 'R', 'a', 't', 'e'] { Some(DirectiveKey::TremoloRate) }
    else if s == seq!['a', 's', 'p', 'i', 'r', 'a', 't', 'i', 'o', 'n'] { Some(DirectiveKey::Aspiration) }
    else if s == seq!['t', 'i', 'l', 't'] { Some(DirectiveKey::Tilt) }
    else if s == seq!['e', 'f', 'f', 'o', 'r', 't'] { Some(DirectiveKey::Effort) }
    else { None }
}

/// Whether two character sequences are equal.
pub fn chars_eq(a: &[char], b: &[char]) -> (r: bool)
    ensures
        r == (a@ == b@),
{
    if a.len() != b.len() {
        return false;
    }
    let mut i: usize = 0;
    while i < a.len()
        invariant
            a.len() == b.len(),
            i <= a.len(),
            forall|k: int| 0 <= k < i ==> a@[k] == b@[k],
        decreases a.len() - i,
    {
        if a[i] != b[i] {
            return false;
        }
        i += 1;
    }
    assert(a@ == b@);
    true
}

impl DirectiveKey {
    /// Map the single-letter directive prefix to a `DirectiveKey`.
    pub fn from_letter(c: char) -> (r: Option<Self>)
        ensures
            r == key_of_letter(c),
    {
        match c {
            'b' => Some(Self::Base),
            'r' => Some(Self::Rate),
            'p' => Some(Self::Pause),
            's' => Some(Self::Scale),
            'v' => Some(Self::Vibrato),
            'w' => Some(Self::VibratoRate),
            'm' => Some(Self::Tremolo),
            'n' => Some(Self::TremoloRate),
            'h' => Some(Self::Aspiration),
            't' => Some(Self::Tilt),
            'g' => Some(Self::Effort),
            _ => None,
        }
    }

    /// Map the bracket-form directive name (`[base=120]` style) to a key.
    pub fn from_name(name: &str) -> (r: Option<Self>)
        ensures
            r == key_of_name(name@),
    {
        let chars = chars_of(name);
        Self::from_name_chars(chars.as_slice())
    }

    /// [`DirectiveKey::from_name`] on a character slice.
    pub fn from_name_chars(s: &[char]) -> (r: Option<Self>)
        ensures
            r == key_of_name(s@),
    {
        if chars_eq(s, &['b', 'a', 's', 'e']) || chars_eq(s, &['p', 'i', 't', 'c', 'h']) {
            Some(Self::Base)
        } else if chars_eq(s, &['r', 'a', 't', 'e']) {
            Some(Self::Rate)
        } else if chars_eq(s, &['p', 'a', 'u', 's', 'e']) {
            Some(Self::Pause)
        } else if chars_eq(s, &['s', 'c', 'a', 'l', 'e']) {
            Some(Self::Scale)
        } else if chars_eq(s, &['v', 'i', 'b', 'r', 'a', 't', 'o']) {
            Some(Self::Vibrato)
        } else if chars_eq(s, &['v', 'i', 'b', 'r', 'a', 't', 'o', 'R', 'a', 't', 'e']) {
            Some(Self::VibratoRate)
        } else if chars_eq(s, &['t', 'r', 'e', 'm', 'o', 'l', 'o']) {
            Some(Self::Tremolo)
        } else if chars_eq(s, &['t', 'r', 'e', 'm', 'o', 'l', 'o', 'R', 'a', 't', 'e']) {
            Some(Self::TremoloRate)
        } else if chars_eq(s, &['a', 's', 'p', 'i', 'r', 'a', 't', 'i', 'o', 'n']) {
            Some(Self::Aspiration)
        } else if chars_eq(s, &['t', 'i', 'l', 't']) {
            Some(Self::Tilt)
        } else if chars_eq(s, &['e', 'f', 'f', 'o', 'r', 't']) {
            Some(Self::Effort)
        } else {
            None
        }
    }
}

/// The numeric part of a directive or pitch delta, kept as written. The
/// synthesis side turns it into a frequency or amount: a literal through the
/// decimal floating-point parser (which accepts it), a note through
/// `440 * 2^((midi - 69) / 12)`.
#[derive(Clone, Debug, PartialEq, Eq)]
pub enum Value {
    /// No value: a bare reset directive, or a phoneme without a pitch delta.
    Zero,
    /// A decimal literal accepted by the floating-point parser, such as
    /// `120`, `+30` or `-0.5`.
    Literal(String),
    /// A note name's MIDI number (`bC4` is 60).
    Note(i64),
}

/// The mathematical view of a [`Value`].
pub enum ValueView {
    Zero,
    Literal(Seq<char>),
    Note(int),
}

impl View for Value {
    type V = ValueView;

    open spec fn view(&self) -> ValueView {
        match self {
            Value::Zero => ValueView::Zero,
            Value::Literal(s) => ValueView::Literal(s@),
            Value::Note(m) => ValueView::Note(*m as int),
        }
    }
}

/// Lexed token from the input.
#[derive(Clone, Debug, PartialEq, Eq)]
pub enum Token {
    /// An ARPABET phoneme reference, possibly stressed, possibly with a
    /// sticky (`+30`) or transient (`(+30)`) pitch delta.
    Phoneme {
        code: String,
        stressed: bool,
        pitch_delta: Value,
        /// `true` for the `(+30)` form (only this phoneme), `false` for the
        /// sticky `+30` form.
        transient: bool,
        span: Span,
    },
    /// A directive. `value` is meaningful only when `reset` is `false`.
    /// `relative` is `true` for the signed compact form (`g+0.1`).
    Directive { key: DirectiveKey, value: Value, relative: bool, reset: bool, span: Span },
    /// A pause from `,` `;` `.` (100, 200, 300 ms).
    Pause { ms: u32, span: Span },
    /// `(` opens a syllable group.
    SyllableOpen { span: Span },
    /// `)` closes the current syllable group.
    SyllableClose { span: Span },
    /// A token that matched no recognized form.
    Unknown { text: String, span: Span },
}

/// The mathematical view of a [`Token`].
pub enum TokenView {
    Phoneme { code: Seq<char>, stressed: bool, pitch_delta: ValueView, transient: bool, span: Span },
    Directive { key: DirectiveKey, value: ValueView, relative: bool, reset: bool, span: Span },
    Pause { ms: u32, span: Span },
    SyllableOpen { span: Span },
    SyllableClose { span: Span },
    Unknown { text: Seq<char>, span: Span },
}

impl View for Token {
    type V = TokenView;

    open spec fn view(&self) -> TokenView {
        match self {
            Token::Phoneme { code, stressed, pitch_delta, transient, span } => TokenView::Phoneme {
                code: code@,
                stressed: *stressed,
                pitch_delta: pitch_delta@,
                transient: *transient,
                span: *span,
            },
            Token::Directive { key, value, relative, reset, span } => TokenView::Directive {
                key: *key,
                value: value@,
                relative: *relative,
                reset: *reset,
                span: *span,
            },
            Token::Pause { ms, span } => TokenView::Pause { ms: *ms, span: *span },
            Token::SyllableOpen { span } => TokenView::SyllableOpen { span: *span },
            Token::SyllableClose { span } => TokenView::SyllableClose { span: *span },
            Token::Unknown { text, span } => TokenView::Unknown { text: text@, span: *span },
        }
    }
}

impl TokenView {
    pub open spec fn span(self) -> Span {
        match self {
            TokenView::Phoneme { span, .. } => span,
            TokenView::Directive { span, .. } => span,
            TokenView::Pause { span, .. } => span,
            TokenView::SyllableOpen { span } => span,
            TokenView::SyllableClose { span } => span,
            TokenView::Unknown { span, .. } => span,
        }
    }
}

/// Tokenizer error. No value of it is ever made: the lexer never fails, and
/// anything unrecognized becomes a [`Token::Unknown`].
#[derive(Clone, Debug, PartialEq, Eq)]
pub struct ParseError {
    never: bool,
}

/// Tokenized source: the normalized string plus its lex.
#[derive(Clone, Debug)]
pub struct Tokenized {
    pub source: String,
    pub tokens: Vec<Token>,
}

// ---------------------------------------------------------------------------
// Character-level helpers

/// `k` is the index of the first `c` in `s`, or `-1` when `s` has none.
pub open spec fn is_first_index(s: Seq<char>, c: char, k: int) -> bool {
    ||| (k == -1 && forall|j: int| 0 <= j < s.len() ==> s[j] != c)
    ||| (0 <= k < s.len() && s[k] == c && forall|j: int| 0 <= j < k ==> s[j] != c)
}

/// Index of the first `c` in `s`, or `-1`.
pub open spec fn first_index(s: Seq<char>, c: char) -> int {
    choose|k: int| is_first_index(s, c, k)
}

pub proof fn lemma_first_index(s: Seq<char>, c: char, k: int)
    requires
        is_first_index(s, c, k),
    ensures
        first_index(s, c) == k,
{
    let k2 = first_index(s, c);
    assert(is_first_index(s, c, k2));
    if k2 != k {
        if k2 == -1 || k == -1 {
        } else if k2 < k {
            assert(s[k2] != c);
        } else {
            assert(s[k] != c);
        }
    }
}

/// The index of the first `c` in `s[from..]`, relative to `from`.
fn find_char(s: &[char], from: usize, c: char) -> (r: Option<usize>)
    requires
        from <= s.len(),
    ensures
        match r {
            Some(k) => from <= k < s.len() && first_index(s@.skip(from as int), c) == k - from,
            None => first_index(s@.skip(from as int), c) == -1,
        },
{
    let ghost t = s@.skip(from as int);
    let mut i = from;
    while i < s.len()
        invariant
            from <= i <= s.len(),
            t == s@.skip(from as int),
            forall|j: int| from <= j < i ==> s@[j] != c,
        decreases s.len() - i,
    {
        if s[i] == c {
            proof {
                assert forall|j: int| 0 <= j < i - from implies t[j] != c by {
                    assert(t[j] == s@[from + j]);
                }
                lemma_first_index(t, c, i - from);
            }
            return Some(i);
        }
        i += 1;
    }
    proof {
        assert forall|j: int| 0 <= j < t.len() implies t[j] != c by {
            assert(t[j] == s@[from + j]);
        }
        lemma_first_index(t, c, -1);
    }
    None
}

pub open spec fn is_upper(c: char) -> bool {
    'A' <= c && c <= 'Z'
}

/// `k` is the length of the longest prefix of `p` made of ASCII capitals.
pub open spec fn is_upper_run(p: Seq<char>, k: int) -> bool {
    &&& 0 <= k <= p.len()
    &&& forall|j: int| 0 <= j < k ==> is_upper(#[trigger] p[j])
    &&& (k == p.len() || !is_upper(p[k]))
}

/// Length of the longest prefix of `p` made of ASCII capitals.
pub open spec fn upper_run(p: Seq<char>) -> int {
    choose|k: int| is_upper_run(p, k)
}

pub proof fn lemma_upper_run(p: Seq<char>, k: int)
    requires
        is_upper_run(p, k),
    ensures
        upper_run(p) == k,
{
    let k2 = upper_run(p);
    assert(is_upper_run(p, k2));
    if k2 < k {
        assert(is_upper(p[k2]));
    } else if k2 > k {
        assert(is_upper(p[k]));
    }
}

// ---------------------------------------------------------------------------
// Classification of one whitespace-delimited part

pub open spec fn punct_ms(p: Seq<char>) -> Option<u32> {
    if p == seq![','] { Some(100u32) }
    else if p == seq![';'] { Some(200u32) }
    else if p == seq!['.'] { Some(300u32) }
    else { None }
}

/// `[name=value]`: the bracket pair encloses the whole part.
pub open spec fn is_bracket_form(p: Seq<char>) -> bool {
    p.len() >= 2 && p[0] == '[' && p[p.len() - 1] == ']'
}

/// The token a bracket-form part stands for.
pub open spec fn bracket_token(p: Seq<char>, span: Span) -> TokenView {
    let inner = p.subrange(1, p.len() - 1);
    let eq = first_index(inner, '=');
    if eq < 0 {
        TokenView::Unknown { text: p, span }
    } else {
        let name = inner.take(eq);
        let value = inner.skip(eq + 1);
        if float_literal_ok(value) && key_of_name(name) is Some {
            TokenView::Directive {
                key: key_of_name(name)->0,
                value: ValueView::Literal(value),
                relative: false,
                reset: false,
                span,
            }
        } else {
            TokenView::Unknown { text: p, span }
        }
    }
}

/// The MIDI note of a note-form base directive (`bC4`, `b=Bb-1`).
pub open spec fn note_form_midi(p: Seq<char>) -> Option<int> {
    if p.len() >= 2 && p[0] == 'b' {
        let after: int = if p[1] == '=' { 2 } else { 1 };
        if p.len() > after { note_midi(p.skip(after)) } else { None }
    } else {
        None
    }
}

/// A compact directive (`g0.5`, `g=0.5`, `g+0.1`, bare `g`): `None` when the
/// part is not one; `Some(None)` for a bare `p`, which is dropped.
pub open spec fn compact_token(p: Seq<char>, span: Span) -> Option<Option<TokenView>> {
    if p.len() == 0 || key_of_letter(p[0]) is None {
        None
    } else {
        let key = key_of_letter(p[0])->0;
        if p.len() == 1 {
            if key == DirectiveKey::Pause {
                Some(None)
            } else {
                Some(Some(TokenView::Directive { key, value: ValueView::Zero, relative: false, reset: true, span }))
            }
        } else {
            let explicit_eq = p[1] == '=';
            let idx: int = if explicit_eq { 2 } else { 1 };
            let rest = p.skip(idx);
            if float_literal_ok(rest) {
                let relative = !explicit_eq && idx < p.len() && is_sign(p[idx]);
                Some(Some(TokenView::Directive {
                    key,
                    value: ValueView::Literal(rest),
                    relative,
                    reset: false,
                    span,
                }))
            } else {
                None
            }
        }
    }
}

/// The pitch-delta part of a phoneme starting at index `i`: the delta, whether
/// it is transient, and the index just after it.
pub open spec fn phoneme_delta(p: Seq<char>, i: int) -> (ValueView, bool, int) {
    if i < p.len() && p[i] == '(' {
        let rel = first_index(p.skip(i + 1), ')');
        if rel >= 0 {
            let close = i + 1 + rel;
            let inner = p.subrange(i + 1, close);
            if inner.len() > 0 && is_sign(inner[0]) && float_literal_ok(inner) {
                (ValueView::Literal(inner), true, close + 1)
            } else {
                (ValueView::Zero, false, i)
            }
        } else {
            (ValueView::Zero, false, i)
        }
    } else if i < p.len() && is_sign(p[i]) {
        let rest = p.skip(i);
        if float_literal_ok(rest) {
            (ValueView::Literal(rest), false, p.len() as int)
        } else {
            (ValueView::Zero, false, i)
        }
    } else {
        (ValueView::Zero, false, i)
    }
}

/// A phoneme part: capitals, an optional stress mark (`'` or `!`) and an
/// optional pitch delta, with nothing left over. `None` when the part is not
/// a phoneme.
pub open spec fn phoneme_token(p: Seq<char>, span: Span) -> Option<TokenView> {
    if p.len() > 0 && is_upper(p[0]) {
        let k = upper_run(p);
        let stressed = k < p.len() && (p[k] == '\'' || p[k] == '!');
        let i1: int = if stressed { k + 1 } else { k };
        let (delta, transient, i2) = phoneme_delta(p, i1);
        if i2 == p.len() {
            Some(TokenView::Phoneme { code: p.take(k), stressed, pitch_delta: delta, transient, span })
        } else {
            None
        }
    } else {
        None
    }
}

/// The token a non-empty whitespace-delimited part stands for; `None` when
/// the part is dropped (a bare `p`).
pub open spec fn classify_spec(p: Seq<char>, span: Span) -> Option<TokenView> {
    if p == seq!['('] {
        Some(TokenView::SyllableOpen { span })
    } else if p == seq![')'] {
        Some(TokenView::SyllableClose { span })
    } else if punct_ms(p) is Some {
        Some(TokenView::Pause { ms: punct_ms(p)->0, span })
    } else if is_bracket_form(p) {
        Some(bracket_token(p, span))
    } else if note_form_midi(p) is Some {
        Some(TokenView::Directive {
            key: DirectiveKey::Base,
            value: ValueView::Note(note_form_midi(p)->0),
            relative: false,
            reset: false,
            span,
        })
    } else if compact_token(p, span) is Some {
        compact_token(p, span)->0
    } else if phoneme_token(p, span) is Some {
        phoneme_token(p, span)
    } else {
        Some(TokenView::Unknown { text: p, span })
    }
}

/// The view of an optional token.
pub open spec fn opt_token_view(t: Option<Token>) -> Option<TokenView> {
    match t {
        Some(t) => Some(t@),
        None => None,
    }
}

fn unknown_token(p: &[char], span: Span) -> (t: Token)
    ensures
        t@ == (TokenView::Unknown { text: p@, span }),
{
    Token::Unknown { text: string_from_chars(p), span }
}

fn literal_value(text: &[char]) -> (v: Value)
    ensures
        v@ == ValueView::Literal(text@),
{
    Value::Literal(string_from_chars(text))
}

/// Whether `p` is the one character `c`.
fn is_single(p: &[char], c: char) -> (r: bool)
    ensures
        r == (p@ == seq![c]),
{
    if p.len() == 1 && p[0] == c {
        assert(p@ == seq![c]);
        true
    } else {
        false
    }
}

/// The pause length of `,` `;` `.`.
fn punct_pause(p: &[char]) -> (r: Option<u32>)
    ensures
        r == punct_ms(p@),
{
    if is_single(p, ',') {
        Some(100)
    } else if is_single(p, ';') {
        Some(200)
    } else if is_single(p, '.') {
        Some(300)
    } else {
        None
    }
}

/// The token of a bracket-form part.
fn bracket_directive(p: &[char], span: Span) -> (t: Token)
    requires
        is_bracket_form(p@),
    ensures
        t@ == bracket_token(p@, span),
{
    let inner = slice_range(p, 1, p.len() - 1);
    assert(inner@.skip(0) == inner@);
    match find_char(inner.as_slice(), 0, '=') {
        None => unknown_token(p, span),
        Some(eq) => {
            let name = slice_range(inner.as_slice(), 0, eq);
            let value = slice_from(inner.as_slice(), eq + 1);
            assert(name@ == inner@.take(eq as int));
            if is_float_literal(value.as_slice()) {
                match DirectiveKey::from_name_chars(name.as_slice()) {
                    Some(key) => Token::Directive {
                        key,
                        value: literal_value(value.as_slice()),
                        relative: false,
                        reset: false,
                        span,
                    },
                    None => unknown_token(p, span),
                }
            } else {
                unknown_token(p, span)
            }
        },
    }
}

/// The MIDI note of a note-form base directive.
fn note_form(p: &[char]) -> (r: Option<i64>)
    ensures
        match r {
            Some(m) => note_form_midi(p@) == Some(m as int),
            None => note_form_midi(p@) is None,
        },
{
    if p.len() >= 2 && p[0] == 'b' {
        let after: usize = if p[1] == '=' { 2 } else { 1 };
        if p.len() > after {
            let note = slice_from(p, after);
            note_to_midi(note.as_slice())
        } else {
            None
        }
    } else {
        None
    }
}

/// A compact directive; see [`compact_token`].
fn compact_directive(p: &[char], span: Span) -> (r: Option<Option<Token>>)
    ensures
        match r {
            None => compact_token(p@, span) is None,
            Some(t) => compact_token(p@, span) == Some(opt_token_view(t)),
        },
{
    if p.len() == 0 {
        return None;
    }
    let key = match DirectiveKey::from_letter(p[0]) {
        Some(k) => k,
        None => {
            return None;
        },
    };
    if p.len() == 1 {
        if key == DirectiveKey::Pause {
            return Some(None);
        }
        return Some(Some(Token::Directive { key, value: Value::Zero, relative: false, reset: true, span }));
    }
    let explicit_eq = p[1] == '=';
    let idx: usize = if explicit_eq { 2 } else { 1 };
    let rest = slice_from(p, idx);
    if is_float_literal(rest.as_slice()) {
        let relative = !explicit_eq && idx < p.len() && (p[idx] == '+' || p[idx] == '-');
        Some(Some(Token::Directive { key, value: literal_value(rest.as_slice()), relative, reset: false, span }))
    } else {
        None
    }
}

/// The pitch delta of a phoneme part from index `i`; see [`phoneme_delta`].
fn phoneme_delta_exec(p: &[char], i: usize) -> (r: (Value, bool, usize))
    requires
        i <= p.len(),
    ensures
        (r.0@, r.1, r.2 as int) == phoneme_delta(p@, i as int),
        r.2 <= p.len(),
{
    if i < p.len() && p[i] == '(' {
        match find_char(p, i + 1, ')') {
            Some(close) => {
                let inner = slice_range(p, i + 1, close);
                if inner.len() > 0 && (inner[0] == '+' || inner[0] == '-') && is_float_literal(inner.as_slice()) {
                    (literal_value(inner.as_slice()), true, close + 1)
                } else {
                    (Value::Zero, false, i)
                }
            },
            None => (Value::Zero, false, i),
        }
    } else if i < p.len() && (p[i] == '+' || p[i] == '-') {
        let rest = slice_from(p, i);
        if is_float_literal(rest.as_slice()) {
            (literal_value(rest.as_slice()), false, p.len())
        } else {
            (Value::Zero, false, i)
        }
    } else {
        (Value::Zero, false, i)
    }
}

/// A phoneme part; see [`phoneme_token`].
fn phoneme(p: &[char], span: Span) -> (r: Option<Token>)
    ensures
        opt_token_view(r) == phoneme_token(p@, span),
{
    if !(p.len() > 0 && 'A' <= p[0] && p[0] <= 'Z') {
        return None;
    }
    let mut k: usize = 0;
    while k < p.len() && 'A' <= p[k] && p[k] <= 'Z'
        invariant
            k <= p.len(),
            forall|j: int| 0 <= j < k ==> is_upper(#[trigger] p@[j]),
        decreases p.len() - k,
    {
        k += 1;
    }
    proof {
        lemma_upper_run(p@, k as int);
    }
    let code = slice_range(p, 0, k);
    let stressed = k < p.len() && (p[k] == '\'' || p[k] == '!');
    let i1 = if stressed { k + 1 } else { k };
    let (delta, transient, i2) = phoneme_delta_exec(p, i1);
    if i2 == p.len() {
        Some(Token::Phoneme { code: string_from_chars(code.as_slice()), stressed, pitch_delta: delta, transient, span })
    } else {
        None
    }
}

/// Classify one whitespace-delimited part; `None` when it is dropped.
pub fn classify(p: &[char], span: Span) -> (r: Option<Token>)
    ensures
        opt_token_view(r) == classify_spec(p@, span),
{
    if is_single(p, '(') {
        return Some(Token::SyllableOpen { span });
    }
    if is_single(p, ')') {
        return Some(Token::SyllableClose { span });
    }
    if let Some(ms) = punct_pause(p) {
        return Some(Token::Pause { ms, span });
    }
    if p.len() >= 2 && p[0] == '[' && p[p.len() - 1] == ']' {
        return Some(bracket_directive(p, span));
    }
    if let Some(midi) = note_form(p) {
        return Some(Token::Directive { key: DirectiveKey::Base, value: Value::Note(midi), relative: false, reset: false, span });
    }
    if let Some(t) = compact_directive(p, span) {
        return t;
    }
    if let Some(t) = phoneme(p, span) {
        return Some(t);
    }
    Some(unknown_token(p, span))
}

// ---------------------------------------------------------------------------
// The lexer

/// `char::is_whitespace` on a byte read as a Latin-1 character: tab, line
/// feed, vertical tab, form feed, carriage return, space, U+0085 and U+00A0.
pub open spec fn is_ws_byte(x: u8) -> bool {
    (9 <= x && x <= 13) || x == 32 || x == 0x85 || x == 0xA0
}

pub fn is_ws(x: u8) -> (r: bool)
    ensures
        r == is_ws_byte(x),
{
    (9 <= x && x <= 13) || x == 32 || x == 0x85 || x == 0xA0
}

/// A `/*` starts at `i`.
pub open spec fn starts_block(b: Seq<u8>, i: int) -> bool {
    0 <= i && i + 1 < b.len() && b[i] == 47 && b[i + 1] == 42
}

/// Index just past the first `*/` at or after `j`, or the end of `b`.
pub open spec fn close_from(b: Seq<u8>, j: int) -> int
    decreases b.len() - j,
{
    if j + 1 >= b.len() {
        b.len() as int
    } else if j >= 0 && b[j] == 42 && b[j + 1] == 47 {
        j + 2
    } else {
        close_from(b, j + 1)
    }
}

/// Where the block comment that starts at `i` ends (just past its `*/`, or
/// at the end of an unterminated comment).
pub open spec fn block_end(b: Seq<u8>, i: int) -> int {
    close_from(b, i + 2)
}

/// The index of the first line feed at or after `j`, or the end of `b`.
pub open spec fn line_end(b: Seq<u8>, j: int) -> int
    decreases b.len() - j,
{
    if j < 0 || j >= b.len() {
        b.len() as int
    } else if b[j] == 10 {
        j
    } else {
        line_end(b, j + 1)
    }
}

pub proof fn lemma_close_from_bounds(b: Seq<u8>, j: int)
    requires
        0 <= j <= b.len(),
    ensures
        j <= close_from(b, j) <= b.len(),
    decreases b.len() - j,
{
    if j + 1 < b.len() && !(b[j] == 42 && b[j + 1] == 47) {
        lemma_close_from_bounds(b, j + 1);
    }
}

pub proof fn lemma_line_end_bounds(b: Seq<u8>, j: int)
    requires
        0 <= j <= b.len(),
    ensures
        j <= line_end(b, j) <= b.len(),
        j < b.len() && b[j] != 10 ==> j < line_end(b, j),
    decreases b.len() - j,
{
    if j < b.len() && b[j] != 10 {
        lemma_line_end_bounds(b, j + 1);
    }
}

/// The token text from `i` (each byte read as a Latin-1 character, block
/// comments dropped) up to the next whitespace byte, and where it stops.
pub open spec fn scan_part(b: Seq<u8>, i: int) -> (Seq<char>, int)
    decreases b.len() - i,
{
    if i < 0 || i >= b.len() || is_ws_byte(b[i]) {
        (Seq::empty(), i)
    } else if starts_block(b, i) {
        proof {
            lemma_close_from_bounds(b, i + 2);
        }
        scan_part(b, block_end(b, i))
    } else {
        let rest = scan_part(b, i + 1);
        (seq![b[i] as char] + rest.0, rest.1)
    }
}

pub proof fn lemma_scan_part_bounds(b: Seq<u8>, i: int)
    requires
        0 <= i <= b.len(),
    ensures
        i <= scan_part(b, i).1 <= b.len(),
        i < b.len() && !is_ws_byte(b[i]) && !starts_block(b, i) ==> i < scan_part(b, i).1
            && scan_part(b, i).0.len() > 0,
    decreases b.len() - i,
{
    if i < b.len() && !is_ws_byte(b[i]) {
        if starts_block(b, i) {
            lemma_close_from_bounds(b, i + 2);
            lemma_scan_part_bounds(b, block_end(b, i));
        } else {
            lemma_scan_part_bounds(b, i + 1);
        }
    }
}

/// A phoneme token with its stress flag set; other tokens unchanged.
pub open spec fn with_stress(t: TokenView) -> TokenView {
    match t {
        TokenView::Phoneme { code, pitch_delta, transient, span, .. } => TokenView::Phoneme {
            code,
            stressed: true,
            pitch_delta,
            transient,
            span,
        },
        other => other,
    }
}

/// A stress mark (`!` or `'` on its own) stresses the last phoneme so far.
pub open spec fn stress_last(t: Seq<TokenView>) -> Seq<TokenView>
    decreases t.len(),
{
    if t.len() == 0 {
        t
    } else if t.last() is Phoneme {
        t.drop_last().push(with_stress(t.last()))
    } else {
        stress_last(t.drop_last()).push(t.last())
    }
}

/// The tokens of `b` from index `i` on, appended to the tokens `toks` lexed
/// before `i`.
pub open spec fn lex_from(b: Seq<u8>, i: int, toks: Seq<TokenView>) -> Seq<TokenView>
    decreases b.len() - i,
{
    if i < 0 || i >= b.len() {
        toks
    } else if is_ws_byte(b[i]) {
        lex_from(b, i + 1, toks)
    } else if b[i] == 35 && (i == 0 || is_ws_byte(b[i - 1])) {
        proof {
            lemma_line_end_bounds(b, i);
        }
        lex_from(b, line_end(b, i), toks)
    } else if starts_block(b, i) {
        proof {
            lemma_close_from_bounds(b, i + 2);
        }
        lex_from(b, block_end(b, i), toks)
    } else {
        proof {
            lemma_scan_part_bounds(b, i);
        }
        let part = scan_part(b, i);
        let span = Span { start: i as usize, end: part.1 as usize };
        if part.0 == seq!['!'] || part.0 == seq!['\''] {
            lex_from(b, part.1, stress_last(toks))
        } else {
            match classify_spec(part.0, span) {
                Some(t) => lex_from(b, part.1, toks.push(t)),
                None => lex_from(b, part.1, toks),
            }
        }
    }
}

/// The tokens of a normalized source's bytes.
pub open spec fn tokens_of(b: Seq<u8>) -> Seq<TokenView> {
    lex_from(b, 0, Seq::empty())
}

/// The views of a token vector.
pub open spec fn token_views(t: Seq<Token>) -> Seq<TokenView> {
    t.map_values(|x: Token| x@)
}

/// The index just past the `*/` closing the block comment at `i`.
fn skip_block(b: &[u8], i: usize) -> (r: usize)
    requires
        starts_block(b@, i as int),
    ensures
        r == block_end(b@, i as int),
        i + 2 <= r <= b.len(),
{
    let n = b.len();
    assert(i + 2 <= n);
    let mut j = i + 2;
    while b.len() - j > 1 && !(b[j] == 42u8 && b[j + 1] == 47u8)
        invariant
            i + 2 <= j <= b.len(),
            close_from(b@, i + 2) == close_from(b@, j as int),
        decreases b.len() - j,
    {
        j += 1;
    }
    proof {
        lemma_close_from_bounds(b@, i + 2);
    }
    if b.len() - j > 1 {
        j + 2
    } else {
        b.len()
    }
}

/// The index of the line feed ending the line comment at `i` (or the end).
fn skip_line(b: &[u8], i: usize) -> (r: usize)
    requires
        i < b.len(),
        b@[i as int] != 10,
    ensures
        r == line_end(b@, i as int),
        i < r <= b.len(),
{
    let mut j = i;
    while j < b.len() && b[j] != 10u8
        invariant
            i <= j <= b.len(),
            line_end(b@, i as int) == line_end(b@, j as int),
        decreases b.len() - j,
    {
        j += 1;
    }
    proof {
        lemma_line_end_bounds(b@, i as int);
    }
    j
}

impl Value {
    /// A copy of this value.
    pub fn copy(&self) -> (r: Value)
        ensures
            r@ == self@,
    {
        match self {
            Value::Zero => Value::Zero,
            Value::Literal(s) => Value::Literal(s.clone()),
            Value::Note(m) => Value::Note(*m),
        }
    }
}

impl Token {
    pub fn is_phoneme(&self) -> (r: bool)
        ensures
            r == (self@ is Phoneme),
    {
        match self {
            Token::Phoneme { .. } => true,
            _ => false,
        }
    }

    /// A copy of this token with its stress flag set, if it is a phoneme.
    pub fn stressed_copy(&self) -> (r: Token)
        ensures
            r@ == with_stress(self@),
    {
        match self {
            Token::Phoneme { code, pitch_delta, transient, span, .. } => Token::Phoneme {
                code: code.clone(),
                stressed: true,
                pitch_delta: pitch_delta.copy(),
                transient: *transient,
                span: *span,
            },
            Token::Directive { key, value, relative, reset, span } => Token::Directive {
                key: *key,
                value: value.copy(),
                relative: *relative,
                reset: *reset,
                span: *span,
            },
            Token::Pause { ms, span } => Token::Pause { ms: *ms, span: *span },
            Token::SyllableOpen { span } => Token::SyllableOpen { span: *span },
            Token::SyllableClose { span } => Token::SyllableClose { span: *span },
            Token::Unknown { text, span } => Token::Unknown { text: text.clone(), span: *span },
        }
    }
}

/// Stressing the last phoneme changes exactly that token.
pub proof fn lemma_stress_last(t: Seq<TokenView>, k: int)
    requires
        0 <= k <= t.len(),
        forall|j: int| k <= j < t.len() ==> !(#[trigger] t[j] is Phoneme),
        k == 0 || t[k - 1] is Phoneme,
    ensures
        stress_last(t) == (if k == 0 { t } else { t.update(k - 1, with_stress(t[k - 1])) }),
    decreases t.len(),
{
    if t.len() > 0 {
        if t.last() is Phoneme {
            assert(k == t.len());
            assert(t.drop_last().push(with_stress(t.last())) =~= t.update(k - 1, with_stress(t[k - 1])));
        } else {
            assert(k < t.len());
            lemma_stress_last(t.drop_last(), k);
            if k == 0 {
                assert(t.drop_last().push(t.last()) =~= t);
            } else {
                assert(t.drop_last().update(k - 1, with_stress(t[k - 1])).push(t.last()) =~= t.update(k - 1, with_stress(t[k - 1])));
            }
        }
    }
}

/// Mark the last phoneme in `toks` stressed.
fn stress_last_phoneme(toks: &mut Vec<Token>)
    ensures
        token_views(final(toks)@) == stress_last(token_views(old(toks)@)),
{
    let ghost old_views = token_views(toks@);
    let mut k = toks.len();
    while k > 0 && !toks[k - 1].is_phoneme()
        invariant
            k <= toks.len(),
            old_views == token_views(toks@),
            forall|j: int| k <= j < toks.len() ==> !(#[trigger] old_views[j] is Phoneme),
        decreases k,
    {
        k -= 1;
    }
    proof {
        lemma_stress_last(old_views, k as int);
    }
    if k > 0 {
        let t = toks[k - 1].stressed_copy();
        toks.set(k - 1, t);
        assert(token_views(toks@) =~= old_views.update(k - 1, with_stress(old_views[k - 1])));
    }
}

/// Lex the bytes of a normalized source.
pub fn lex(b: &[u8]) -> (toks: Vec<Token>)
    ensures
        token_views(toks@) == tokens_of(b@),
{
    let len = b.len();
    let mut toks: Vec<Token> = Vec::new();
    let mut i: usize = 0;
    assert(token_views(toks@) =~= Seq::<TokenView>::empty());
    while i < len
        invariant
            i <= len == b.len(),
            tokens_of(b@) == lex_from(b@, i as int, token_views(toks@)),
        decreases len - i,
    {
        let c = b[i];
        if is_ws(c) {
            i += 1;
        } else if c == 35u8 && (i == 0 || is_ws(b[i - 1])) {
            i = skip_line(b, i);
        } else if c == 47u8 && i + 1 < len && b[i + 1] == 42u8 {
            i = skip_block(b, i);
        } else {
            let start = i;
            let ghost before = token_views(toks@);
            let mut part: Vec<char> = Vec::new();
            proof {
                lemma_scan_part_bounds(b@, start as int);
                assert(part@ + scan_part(b@, start as int).0 =~= scan_part(b@, start as int).0);
            }
            while i < len && !is_ws(b[i])
                invariant
                    start <= i <= len == b.len(),
                    scan_part(b@, start as int).0 == part@ + scan_part(b@, i as int).0,
                    scan_part(b@, start as int).1 == scan_part(b@, i as int).1,
                decreases len - i,
            {
                if b[i] == 47u8 && i + 1 < len && b[i + 1] == 42u8 {
                    i = skip_block(b, i);
                } else {
                    let ch = b[i] as char;
                    let ghost rest = scan_part(b@, i + 1);
                    assert(part@.push(ch) + rest.0 =~= part@ + (seq![ch] + rest.0));
                    part.push(ch);
                    i += 1;
                }
            }
            assert(part@ + Seq::<char>::empty() =~= part@);
            let span = Span { start, end: i };
            if is_single(part.as_slice(), '!') || is_single(part.as_slice(), '\'') {
                stress_last_phoneme(&mut toks);
            } else {
                match classify(part.as_slice(), span) {
                    Some(t) => {
                        toks.push(t);
                        assert(token_views(toks@) =~= before.push(t@));
                    },
                    None => {},
                }
            }
        }
    }
    toks
}

/// Lex `input` into a [`Tokenized`] result: `input` is normalized first
/// (see [`normalize`]) and the tokens are those of the normalized text's
/// bytes. Never fails.
pub fn tokenize(input: &str) -> (r: Result<Tokenized, ParseError>)
    ensures
        r is Ok,
        r matches Ok(t) ==> t.source@ == normalized(input@) && token_views(t.tokens@) == tokens_of(
            encode_utf8(t.source@),
        ),
{
    let source = normalize(input);
    let tokens = lex(source.as_str().as_bytes());
    Ok(Tokenized { source, tokens })
}

// ---------------------------------------------------------------------------
// Laws of the lexer

/// Every span is non-empty and ends by `bound`, and the spans follow one
/// another without overlapping, in source order.
pub open spec fn spans_ordered(t: Seq<TokenView>, bound: int) -> bool {
    &&& forall|k: int| 0 <= k < t.len() ==> (#[trigger] t[k]).span().start < t[k].span().end <= bound
    &&& forall|k: int, l: int| 0 <= k < l < t.len() ==> (#[trigger] t[k]).span().end <= (#[trigger] t[l]).span().start
}

/// A classified part keeps the span it was given.
pub proof fn lemma_classify_span(p: Seq<char>, span: Span)
    ensures
        classify_spec(p, span) matches Some(t) ==> t.span() == span,
{
}

/// Marking a stress changes no span.
pub proof fn lemma_stress_last_spans(t: Seq<TokenView>)
    ensures
        stress_last(t).len() == t.len(),
        forall|k: int| 0 <= k < t.len() ==> (#[trigger] stress_last(t)[k]).span() == t[k].span(),
    decreases t.len(),
{
    if t.len() > 0 {
        lemma_stress_last_spans(t.drop_last());
    }
}

proof fn lemma_lex_from_spans(b: Seq<u8>, i: int, toks: Seq<TokenView>)
    requires
        0 <= i <= b.len() <= usize::MAX,
        spans_ordered(toks, i),
    ensures
        spans_ordered(lex_from(b, i, toks), b.len() as int),
    decreases b.len() - i,
{
    if i >= b.len() {
    } else if is_ws_byte(b[i]) {
        lemma_lex_from_spans(b, i + 1, toks);
    } else if b[i] == 35 && (i == 0 || is_ws_byte(b[i - 1])) {
        lemma_line_end_bounds(b, i);
        lemma_lex_from_spans(b, line_end(b, i), toks);
    } else if starts_block(b, i) {
        lemma_close_from_bounds(b, i + 2);
        lemma_lex_from_spans(b, block_end(b, i), toks);
    } else {
        lemma_scan_part_bounds(b, i);
        let part = scan_part(b, i);
        let span = Span { start: i as usize, end: part.1 as usize };
        if part.0 == seq!['!'] || part.0 == seq!['\''] {
            lemma_stress_last_spans(toks);
            lemma_lex_from_spans(b, part.1, stress_last(toks));
        } else {
            lemma_classify_span(part.0, span);
            match classify_spec(part.0, span) {
                Some(t) => {
                    let next = toks.push(t);
                    assert(spans_ordered(next, part.1)) by {
                        assert forall|k: int, l: int| 0 <= k < l < next.len() implies (#[trigger] next[k]).span().end <= (#[trigger] next[l]).span().start by {
                            if l == toks.len() {
                                assert(next[k] == toks[k]);
                            }
                        }
                    }
                    lemma_lex_from_spans(b, part.1, next);
                },
                None => {
                    lemma_lex_from_spans(b, part.1, toks);
                },
            }
        }
    }
}

/// Tokens come out in source order: each token's span is a non-empty byte
/// range of the source, and the spans of successive tokens do not overlap.
pub proof fn tokens_follow_the_source(b: Seq<u8>)
    requires
        b.len() <= usize::MAX,
    ensures
        spans_ordered(tokens_of(b), b.len() as int),
{
    lemma_lex_from_spans(b, 0, Seq::empty());
}

/// A value is either no number, a note, or a literal the floating-point
/// parser accepts.
pub open spec fn value_parses(v: ValueView) -> bool {
    v matches ValueView::Literal(s) ==> float_literal_ok(s)
}

/// Every value a token carries parses.
pub open spec fn token_values_parse(t: TokenView) -> bool {
    match t {
        TokenView::Phoneme { pitch_delta, .. } => value_parses(pitch_delta),
        TokenView::Directive { value, .. } => value_parses(value),
        _ => true,
    }
}

proof fn lemma_classify_values_parse(p: Seq<char>, span: Span)
    ensures
        classify_spec(p, span) matches Some(t) ==> token_values_parse(t),
{
    if phoneme_token(p, span) is Some {
        let k = upper_run(p);
        let stressed = k < p.len() && (p[k] == '\'' || p[k] == '!');
        let i1: int = if stressed { k + 1 } else { k };
        assert(value_parses(phoneme_delta(p, i1).0));
    }
}

/// Every value every token carries parses.
pub open spec fn all_values_parse(t: Seq<TokenView>) -> bool {
    forall|k: int| 0 <= k < t.len() ==> token_values_parse(#[trigger] t[k])
}

proof fn lemma_stress_last_values_parse(t: Seq<TokenView>)
    requires
        all_values_parse(t),
    ensures
        all_values_parse(stress_last(t)),
    decreases t.len(),
{
    if t.len() > 0 {
        lemma_stress_last_spans(t);
        if t.last() is Phoneme {
            let s = stress_last(t);
            assert forall|k: int| 0 <= k < s.len() implies token_values_parse(#[trigger] s[k]) by {
                if k < t.len() - 1 {
                    assert(s[k] == t[k]);
                } else {
                    assert(token_values_parse(t[t.len() - 1]));
                }
            }
        } else {
            let r = t.drop_last();
            assert(all_values_parse(r)) by {
                assert forall|k: int| 0 <= k < r.len() implies token_values_parse(#[trigger] r[k]) by {
                    assert(r[k] == t[k]);
                }
            }
            lemma_stress_last_values_parse(r);
            lemma_stress_last_spans(r);
            let s = stress_last(t);
            assert(s == stress_last(r).push(t.last()));
            assert forall|k: int| 0 <= k < s.len() implies token_values_parse(#[trigger] s[k]) by {
                if k < r.len() {
                    assert(s[k] == stress_last(r)[k]);
                } else {
                    assert(s[k] == t[t.len() - 1]);
                }
            }
        }
    }
}

proof fn lemma_lex_from_values_parse(b: Seq<u8>, i: int, toks: Seq<TokenView>)
    requires
        0 <= i <= b.len() <= usize::MAX,
        all_values_parse(toks),
    ensures
        all_values_parse(lex_from(b, i, toks)),
    decreases b.len() - i,
{
    if i >= b.len() {
    } else if is_ws_byte(b[i]) {
        lemma_lex_from_values_parse(b, i + 1, toks);
    } else if b[i] == 35 && (i == 0 || is_ws_byte(b[i - 1])) {
        lemma_line_end_bounds(b, i);
        lemma_lex_from_values_parse(b, line_end(b, i), toks);
    } else if starts_block(b, i) {
        lemma_close_from_bounds(b, i + 2);
        lemma_lex_from_values_parse(b, block_end(b, i), toks);
    } else {
        lemma_scan_part_bounds(b, i);
        let part = scan_part(b, i);
        let span = Span { start: i as usize, end: part.1 as usize };
        if part.0 == seq!['!'] || part.0 == seq!['\''] {
            lemma_stress_last_values_parse(toks);
            lemma_lex_from_values_parse(b, part.1, stress_last(toks));
        } else {
            lemma_classify_values_parse(part.0, span);
            match classify_spec(part.0, span) {
                Some(t) => {
                    let next = toks.push(t);
                    assert forall|k: int| 0 <= k < next.len() implies token_values_parse(#[trigger] next[k]) by {
                        if k < toks.len() {
                            assert(next[k] == toks[k]);
                        }
                    }
                    lemma_lex_from_values_parse(b, part.1, next);
                },
                None => {
                    lemma_lex_from_values_parse(b, part.1, toks);
                },
            }
        }
    }
}

/// Every literal the lexer puts into a token, a directive's value or a
/// phoneme's pitch delta, is one the floating-point parser accepts.
pub proof fn lexed_literals_parse(b: Seq<u8>)
    requires
        b.len() <= usize::MAX,
    ensures
        all_values_parse(tokens_of(b)),
{
    lemma_lex_from_values_parse(b, 0, Seq::empty());
}

/// Each directive key has one letter and one full name, and they agree:
/// `b`/`base` (also `pitch`), `r`/`rate`, `p`/`pause`, `s`/`scale`,
/// `v`/`vibrato`, `w`/`vibratoRate`, `m`/`tremolo`, `n`/`tremoloRate`,
/// `h`/`aspiration`, `t`/`tilt`, `g`/`effort`.
pub proof fn directive_letters_agree_with_names()
    ensures
        key_of_letter('b') == Some(DirectiveKey::Base),
        key_of_name(seq!['b', 'a', 's', 'e']) == Some(DirectiveKey::Base),
        key_of_letter('r') == Some(DirectiveKey::Rate),
        key_of_name(seq!['r', 'a', 't', 'e']) == Some(DirectiveKey::Rate),
        key_of_letter('p') == Some(DirectiveKey::Pause),
        key_of_name(seq!['p', 'a', 'u', 's', 'e']) == Some(DirectiveKey::Pause),
        key_of_letter('s') == Some(DirectiveKey::Scale),
        key_of_name(seq!['s', 'c', 'a', 'l', 'e']) == Some(DirectiveKey::Scale),
        key_of_letter('v') == Some(DirectiveKey::Vibrato),
        key_of_name(seq!['v', 'i', 'b', 'r', 'a', 't', 'o']) == Some(DirectiveKey::Vibrato),
        key_of_letter('w') == Some(DirectiveKey::VibratoRate),
        key_of_name(seq!['v', 'i', 'b', 'r', 'a', 't', 'o', 'R', 'a', 't', 'e']) == Some(DirectiveKey::VibratoRate),
        key_of_letter('m') == Some(DirectiveKey::Tremolo),
        key_of_name(seq!['t', 'r', 'e', 'm', 'o', 'l', 'o']) == Some(DirectiveKey::Tremolo),
        key_of_letter('n') == Some(DirectiveKey::TremoloRate),
        key_of_name(seq!['t', 'r', 'e', 'm', 'o', 'l', 'o', 'R', 'a', 't', 'e']) == Some(DirectiveKey::TremoloRate),
        key_of_letter('h') == Some(DirectiveKey::Aspiration),
        key_of_name(seq!['a', 's', 'p', 'i', 'r', 'a', 't', 'i', 'o', 'n']) == Some(DirectiveKey::Aspiration),
        key_of_letter('t') == Some(DirectiveKey::Tilt),
        key_of_name(seq!['t', 'i', 'l', 't']) == Some(DirectiveKey::Tilt),
        key_of_letter('g') == Some(DirectiveKey::Effort),
        key_of_name(seq!['e', 'f', 'f', 'o', 'r', 't']) == Some(DirectiveKey::Effort),
        key_of_name(seq!['p', 'i', 't', 'c', 'h']) == Some(DirectiveKey::Base),
{
    let vr = seq!['v', 'i', 'b', 'r', 'a', 't', 'o', 'R', 'a', 't', 'e'];
    let tr = seq!['t', 'r', 'e', 'm', 'o', 'l', 'o', 'R', 'a', 't', 'e'];
    assert(vr.len() == 11 && tr.len() == 11);
    assert(vr != seq!['v', 'i', 'b', 'r', 'a', 't', 'o']);
    assert(tr != seq!['t', 'r', 'e', 'm', 'o', 'l', 'o']);
    assert(tr != seq!['v', 'i', 'b', 'r', 'a', 't', 'o', 'R', 'a', 't', 'e']) by {
        assert(tr[0] != vr[0]);
    }
}

/// No two letters name the same directive key.
pub proof fn directive_letters_are_distinct(c1: char, c2: char)
    requires
        key_of_letter(c1) is Some,
        key_of_letter(c1) == key_of_letter(c2),
    ensures
        c1 == c2,
{
}

} // verus!
