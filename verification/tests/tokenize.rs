use klattsch::number::note_to_midi;
use klattsch::tokenize::{tokenize, DirectiveKey, Span, Token, Value};

fn note_to_hz(name: &str) -> Option<f32> {
    let chars: Vec<char> = name.chars().collect();
    let midi = note_to_midi(&chars)?;
    Some(440.0 * 2.0_f32.powf((midi - 69) as f32 / 12.0))
}

fn value_f32(v: &Value) -> f32 {
    match v {
        Value::Zero => 0.0,
        Value::Literal(s) => s.parse().unwrap(),
        Value::Note(m) => 440.0 * 2.0_f32.powf((*m - 69) as f32 / 12.0),
    }
}

#[test]
fn tokenize_simple_phonemes() {
    let r = tokenize("HH AH L OW").unwrap();
    assert_eq!(r.tokens.len(), 4);
    match &r.tokens[0] {
        Token::Phoneme { code, .. } => assert_eq!(code, "HH"),
        other => panic!("expected phoneme, got {other:?}"),
    }
}

#[test]
fn tokenize_pause_punctuation() {
    let r = tokenize("AH , AH . AH").unwrap();
    let pauses: Vec<u32> = r
        .tokens
        .iter()
        .filter_map(|t| match t {
            Token::Pause { ms, .. } => Some(*ms),
            _ => None,
        })
        .collect();
    assert_eq!(pauses, vec![100, 300]);
}

#[test]
fn tokenize_directives() {
    let r = tokenize("b120 r60 g0.7").unwrap();
    assert_eq!(r.tokens.len(), 3);
    match &r.tokens[0] {
        Token::Directive {
            key: DirectiveKey::Base,
            value,
            relative,
            reset,
            ..
        } => {
            assert_eq!(value_f32(value), 120.0);
            assert!(!*relative);
            assert!(!*reset);
        }
        other => panic!("expected base directive, got {other:?}"),
    }
}

#[test]
fn tokenize_relative_directive() {
    let r = tokenize("g+0.2").unwrap();
    match &r.tokens[0] {
        Token::Directive {
            value, relative, ..
        } => {
            assert!((value_f32(value) - 0.2).abs() < 1e-6);
            assert!(*relative);
        }
        other => panic!("expected directive, got {other:?}"),
    }
}

#[test]
fn tokenize_explicit_equals_directive_is_absolute() {
    let r = tokenize("g=0.7").unwrap();
    match &r.tokens[0] {
        Token::Directive {
            value, relative, ..
        } => {
            assert_eq!(value_f32(value), 0.7);
            assert!(!*relative);
        }
        other => panic!("expected directive, got {other:?}"),
    }
}

#[test]
fn tokenize_bare_letter_is_reset() {
    let r = tokenize("b").unwrap();
    match &r.tokens[0] {
        Token::Directive { reset, .. } => assert!(*reset),
        other => panic!("expected directive, got {other:?}"),
    }
}

#[test]
fn tokenize_bare_p_is_dropped() {
    let r = tokenize("AH p AH").unwrap();
    // Bare `p` produces no token, leaving 2 phonemes
    assert_eq!(r.tokens.len(), 2);
}

#[test]
fn tokenize_note_directive() {
    let r = tokenize("bC4").unwrap();
    match &r.tokens[0] {
        Token::Directive {
            key: DirectiveKey::Base,
            value,
            ..
        } => {
            assert!((value_f32(value) - 261.625_55).abs() < 0.01);
        }
        other => panic!("expected base directive, got {other:?}"),
    }
}

#[test]
fn tokenize_phoneme_sticky_delta() {
    let r = tokenize("AY+30").unwrap();
    match &r.tokens[0] {
        Token::Phoneme {
            code,
            pitch_delta,
            transient,
            ..
        } => {
            assert_eq!(code, "AY");
            assert_eq!(value_f32(pitch_delta), 30.0);
            assert!(!*transient);
        }
        other => panic!("expected phoneme, got {other:?}"),
    }
}

#[test]
fn tokenize_phoneme_transient_delta() {
    let r = tokenize("AY(+30)").unwrap();
    match &r.tokens[0] {
        Token::Phoneme {
            pitch_delta,
            transient,
            ..
        } => {
            assert_eq!(value_f32(pitch_delta), 30.0);
            assert!(*transient);
        }
        other => panic!("expected phoneme, got {other:?}"),
    }
}

#[test]
fn tokenize_stress_mark_attaches_to_previous() {
    let r = tokenize("AH ! AH").unwrap();
    let stressed: Vec<bool> = r
        .tokens
        .iter()
        .filter_map(|t| match t {
            Token::Phoneme { stressed, .. } => Some(*stressed),
            _ => None,
        })
        .collect();
    assert_eq!(stressed, vec![true, false]);
}

#[test]
fn tokenize_skips_line_comment() {
    let r = tokenize("# this is a comment\nHH AH").unwrap();
    assert_eq!(r.tokens.len(), 2);
}

#[test]
fn tokenize_skips_block_comment() {
    let r = tokenize("HH /* note */ AH").unwrap();
    assert_eq!(r.tokens.len(), 2);
}

#[test]
fn tokenize_syllable_grouping() {
    let r = tokenize("( HH AH )").unwrap();
    assert!(matches!(r.tokens[0], Token::SyllableOpen { .. }));
    assert!(matches!(r.tokens[3], Token::SyllableClose { .. }));
}

#[test]
fn tokenize_unknown_emits_unknown_token() {
    let r = tokenize("xyz123").unwrap();
    assert_eq!(r.tokens.len(), 1);
    assert!(matches!(r.tokens[0], Token::Unknown { .. }));
}

#[test]
fn note_to_hz_a4() {
    assert!((note_to_hz("A4").unwrap() - 440.0).abs() < 1e-3);
}

#[test]
fn note_to_hz_c4_middle_c() {
    assert!((note_to_hz("C4").unwrap() - 261.625_55).abs() < 0.01);
}

#[test]
fn note_to_hz_with_accidentals() {
    assert!(note_to_hz("C#4").unwrap() > note_to_hz("C4").unwrap());
    assert!(note_to_hz("Bb4").unwrap() < note_to_hz("B4").unwrap());
}

#[test]
fn spans_are_byte_offsets_into_the_normalized_source() {
    let r = tokenize("HH  AH").unwrap();
    assert_eq!(r.source, "HH  AH");
    match &r.tokens[1] {
        Token::Phoneme { span, .. } => assert_eq!(*span, Span { start: 4, end: 6 }),
        other => panic!("expected phoneme, got {other:?}"),
    }
}

#[test]
fn source_is_the_normalized_input() {
    let r = tokenize("\u{FF21}H \u{200B}OW").unwrap();
    assert_eq!(r.source, "AH OW");
    assert_eq!(r.tokens.len(), 2);
}

#[test]
fn semicolon_pause_is_two_hundred_ms() {
    let r = tokenize(";").unwrap();
    assert!(matches!(r.tokens[0], Token::Pause { ms: 200, .. }));
}

#[test]
fn note_value_is_the_midi_number() {
    let r = tokenize("bC4").unwrap();
    match &r.tokens[0] {
        Token::Directive { value, .. } => assert_eq!(*value, Value::Note(60)),
        other => panic!("expected directive, got {other:?}"),
    }
}

#[test]
fn bracket_directive_names() {
    assert_eq!(DirectiveKey::from_name("pitch"), Some(DirectiveKey::Base));
    assert_eq!(DirectiveKey::from_name("vibratoRate"), Some(DirectiveKey::VibratoRate));
    assert_eq!(DirectiveKey::from_name("nope"), None);
    assert_eq!(DirectiveKey::from_letter('g'), Some(DirectiveKey::Effort));
    assert_eq!(DirectiveKey::from_letter('x'), None);
}

#[test]
fn unterminated_block_comment_runs_to_the_end() {
    let r = tokenize("AH /* HH AH").unwrap();
    assert_eq!(r.tokens.len(), 1);
}
