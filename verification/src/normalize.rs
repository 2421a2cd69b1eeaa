//! Input normalization: NFKC, then zero-width characters are dropped and a
//! curated set of Greek and Cyrillic homoglyphs is folded to the Latin
//! letters they look like, so text pasted from a document lexes the same as
//! text typed on a keyboard.

use unicode_normalization::UnicodeNormalization;
use vstd::prelude::*;

use crate::text::{chars_of, string_from_chars};

verus! {

/// The NFKC normal form of a character sequence, as computed by the
/// `unicode-normalization` crate.
pub uninterp spec fn nfkc_form(s: Seq<char>) -> Seq<char>;

/// NFKC through `unicode_normalization::UnicodeNormalization::nfkc`
/// (collected into a `String`). The contract only names the result: it is
/// the crate's NFKC form of the input's characters; what that form is (the
/// Unicode decomposition and composition tables) is not restated here.
#[verifier::external_body]
fn nfkc(input: &str) -> (r: String)
    ensures
        r@ == nfkc_form(input@),
{
    input.nfkc().collect()
}

/// The zero-width formatting characters that normalization strips.
pub open spec fn is_zero_width_spec(c: char) -> bool {
    c == '\u{200B}' || c == '\u{200C}' || c == '\u{200D}' || c == '\u{2060}' || c == '\u{FEFF}'
}

/// The Latin letter a Greek or Cyrillic lookalike folds to; every other
/// character maps to itself.
pub open spec fn fold_homoglyph_spec(c: char) -> char {
    if c == '\u{0391}' { 'A' }           // Greek capital alpha
    else if c == '\u{0392}' { 'B' }      // Greek capital beta
    else if c == '\u{0395}' { 'E' }      // Greek capital epsilon
    else if c == '\u{0397}' { 'H' }      // Greek capital eta
    else if c == '\u{0399}' { 'I' }      // Greek capital iota
    else if c == '\u{039A}' { 'K' }      // Greek capital kappa
    else if c == '\u{039C}' { 'M' }      // Greek capital mu
    else if c == '\u{039D}' { 'N' }      // Greek capital nu
    else if c == '\u{039F}' { 'O' }      // Greek capital omicron
    else if c == '\u{03A1}' { 'P' }      // Greek capital rho
    else if c == '\u{03A4}' { 'T' }      // Greek capital tau
    else if c == '\u{03A5}' { 'Y' }      // Greek capital upsilon
    else if c == '\u{0396}' { 'Z' }      // Greek capital zeta
    else if c == '\u{0410}' { 'A' }      // Cyrillic capital a
    else if c == '\u{0412}' { 'B' }      // Cyrillic capital ve
    else if c == '\u{0421}' { 'C' }      // Cyrillic capital es
    else if c == '\u{0415}' { 'E' }      // Cyrillic capital ie
    else if c == '\u{041D}' { 'H' }      // Cyrillic capital en
    else if c == '\u{041A}' { 'K' }      // Cyrillic capital ka
    else if c == '\u{041C}' { 'M' }      // Cyrillic capital em
    else if c == '\u{041E}' { 'O' }      // Cyrillic capital o
    else if c == '\u{0420}' { 'P' }      // Cyrillic capital er
    else if c == '\u{0422}' { 'T' }      // Cyrillic capital te
    else if c == '\u{0430}' { 'a' }      // Cyrillic small a
    else if c == '\u{0441}' { 'c' }      // Cyrillic small es
    else if c == '\u{0435}' { 'e' }      // Cyrillic small ie
    else if c == '\u{043E}' { 'o' }      // Cyrillic small o
    else if c == '\u{0440}' { 'p' }      // Cyrillic small er
    else { c }
}

/// Drops zero-width characters and folds homoglyphs, character by character.
pub open spec fn strip_and_fold(s: Seq<char>) -> Seq<char>
    decreases s.len(),
{
    if s.len() == 0 {
        Seq::empty()
    } else {
        let head = strip_and_fold(s.drop_last());
        if is_zero_width_spec(s.last()) {
            head
        } else {
            head.push(fold_homoglyph_spec(s.last()))
        }
    }
}

/// What [`normalize`] returns for a given input.
pub open spec fn normalized(input: Seq<char>) -> Seq<char> {
    strip_and_fold(nfkc_form(input))
}

/// Whether `c` is one of the zero-width formatting characters
/// (U+200B, U+200C, U+200D, U+2060, U+FEFF).
pub fn is_zero_width(c: char) -> (r: bool)
    ensures
        r == is_zero_width_spec(c),
{
    c == '\u{200B}' || c == '\u{200C}' || c == '\u{200D}' || c == '\u{2060}' || c == '\u{FEFF}'
}

/// Fold a Greek or Cyrillic homoglyph to its Latin lookalike.
pub fn fold_homoglyph(c: char) -> (r: char)
    ensures
        r == fold_homoglyph_spec(c),
{
    match c {
        '\u{0391}' => 'A',
        '\u{0392}' => 'B',
        '\u{0395}' => 'E',
        '\u{0397}' => 'H',
        '\u{0399}' => 'I',
        '\u{039A}' => 'K',
        '\u{039C}' => 'M',
        '\u{039D}' => 'N',
        '\u{039F}' => 'O',
        '\u{03A1}' => 'P',
        '\u{03A4}' => 'T',
        '\u{03A5}' => 'Y',
        '\u{0396}' => 'Z',
        '\u{0410}' => 'A',
        '\u{0412}' => 'B',
        '\u{0421}' => 'C',
        '\u{0415}' => 'E',
        '\u{041D}' => 'H',
        '\u{041A}' => 'K',
        '\u{041C}' => 'M',
        '\u{041E}' => 'O',
        '\u{0420}' => 'P',
        '\u{0422}' => 'T',
        '\u{0430}' => 'a',
        '\u{0441}' => 'c',
        '\u{0435}' => 'e',
        '\u{043E}' => 'o',
        '\u{0440}' => 'p',
        other => other,
    }
}

/// Drop zero-width characters and fold homoglyphs in an already
/// NFKC-normalized character sequence.
pub fn strip_and_fold_chars(chars: &[char]) -> (r: Vec<char>)
    ensures
        r@ == strip_and_fold(chars@),
{
    let mut out: Vec<char> = Vec::new();
    let mut i: usize = 0;
    while i < chars.len()
        invariant
            i <= chars.len(),
            out@ == strip_and_fold(chars@.take(i as int)),
        decreases chars.len() - i,
    {
        let c = chars[i];
        assert(chars@.take(i + 1).drop_last() == chars@.take(i as int));
        if !is_zero_width(c) {
            out.push(fold_homoglyph(c));
        }
        i += 1;
    }
    assert(chars@.take(chars.len() as int) == chars@);
    out
}

/// Apply NFKC, strip zero-width formatting characters, and fold a curated
/// set of Greek/Cyrillic homoglyphs to their Latin lookalikes.
pub fn normalize(input: &str) -> (r: String)
    ensures
        r@ == normalized(input@),
{
    let nf = nfkc(input);
    let chars = chars_of(nf.as_str());
    let cleaned = strip_and_fold_chars(chars.as_slice());
    string_from_chars(cleaned.as_slice())
}

/// No zero-width character and no foldable lookalike survives
/// normalization: every character of the result is one that folding leaves
/// as it is.
pub proof fn normalized_text_is_clean(input: Seq<char>)
    ensures
        forall|i: int| 0 <= i < normalized(input).len() ==> {
            &&& !is_zero_width_spec(#[trigger] normalized(input)[i])
            &&& fold_homoglyph_spec(normalized(input)[i]) == normalized(input)[i]
        },
{
    lemma_strip_and_fold_clean(nfkc_form(input));
}

/// Every character of `strip_and_fold(s)` is a folded character, and none is
/// zero-width.
proof fn lemma_strip_and_fold_clean(s: Seq<char>)
    ensures
        forall|i: int| 0 <= i < strip_and_fold(s).len() ==> {
            &&& !is_zero_width_spec(#[trigger] strip_and_fold(s)[i])
            &&& fold_homoglyph_spec(strip_and_fold(s)[i]) == strip_and_fold(s)[i]
        },
        strip_and_fold(s).len() <= s.len(),
    decreases s.len(),
{
    if s.len() > 0 {
        lemma_strip_and_fold_clean(s.drop_last());
    }
}

/// The Greek and Cyrillic capitals, and the Cyrillic small letters, that
/// look like Latin letters in common fonts.
pub open spec fn is_latin_lookalike(c: char) -> bool {
    c == '\u{0391}' || c == '\u{0392}' || c == '\u{0395}' || c == '\u{0397}' || c == '\u{0399}' || c == '\u{039A}' || c == '\u{039C}' || c == '\u{039D}' || c == '\u{039F}' || c == '\u{03A1}' || c == '\u{03A4}' || c == '\u{03A5}' || c == '\u{0396}' || c == '\u{0410}' || c == '\u{0412}' || c == '\u{0421}' || c == '\u{0415}' || c == '\u{041D}' || c == '\u{041A}' || c == '\u{041C}' || c == '\u{041E}' || c == '\u{0420}' || c == '\u{0422}' || c == '\u{0430}' || c == '\u{0441}' || c == '\u{0435}' || c == '\u{043E}' || c == '\u{0440}'
}

/// Each curated lookalike folds to the Latin letter it looks like.
pub proof fn lookalikes_fold_to_latin()
    ensures
        fold_homoglyph_spec('\u{0391}') == 'A',
        fold_homoglyph_spec('\u{0392}') == 'B',
        fold_homoglyph_spec('\u{0395}') == 'E',
        fold_homoglyph_spec('\u{0397}') == 'H',
        fold_homoglyph_spec('\u{0399}') == 'I',
        fold_homoglyph_spec('\u{039A}') == 'K',
        fold_homoglyph_spec('\u{039C}') == 'M',
        fold_homoglyph_spec('\u{039D}') == 'N',
        fold_homoglyph_spec('\u{039F}') == 'O',
        fold_homoglyph_spec('\u{03A1}') == 'P',
        fold_homoglyph_spec('\u{03A4}') == 'T',
        fold_homoglyph_spec('\u{03A5}') == 'Y',
        fold_homoglyph_spec('\u{0396}') == 'Z',
        fold_homoglyph_spec('\u{0410}') == 'A',
        fold_homoglyph_spec('\u{0412}') == 'B',
        fold_homoglyph_spec('\u{0421}') == 'C',
        fold_homoglyph_spec('\u{0415}') == 'E',
        fold_homoglyph_spec('\u{041D}') == 'H',
        fold_homoglyph_spec('\u{041A}') == 'K',
        fold_homoglyph_spec('\u{041C}') == 'M',
        fold_homoglyph_spec('\u{041E}') == 'O',
        fold_homoglyph_spec('\u{0420}') == 'P',
        fold_homoglyph_spec('\u{0422}') == 'T',
        fold_homoglyph_spec('\u{0430}') == 'a',
        fold_homoglyph_spec('\u{0441}') == 'c',
        fold_homoglyph_spec('\u{0435}') == 'e',
        fold_homoglyph_spec('\u{043E}') == 'o',
        fold_homoglyph_spec('\u{0440}') == 'p',
{
}

/// No curated lookalike survives normalization: text typed with Greek or
/// Cyrillic lookalikes normalizes to Latin letters.
pub proof fn normalized_text_has_no_lookalikes(input: Seq<char>)
    ensures
        forall|i: int| 0 <= i < normalized(input).len() ==> !is_latin_lookalike(#[trigger] normalized(input)[i]),
{
    normalized_text_is_clean(input);
    lookalikes_fold_to_latin();
    assert forall|i: int| 0 <= i < normalized(input).len() implies !is_latin_lookalike(#[trigger] normalized(input)[i]) by {
        let c = normalized(input)[i];
        assert(fold_homoglyph_spec(c) == c);
    }
}

} // verus!
