use klattsch::compile::{
    plan, unknown_phoneme_message, CompileError, CompileOrParseError, Slot, Step, Warning,
};
use klattsch::tokenize::{tokenize, Span};

fn plan_of(src: &str) -> Result<Vec<Step>, CompileError> {
    plan(&tokenize(src).unwrap().tokens)
}

#[test]
fn unmatched_close_paren_errors() {
    let r = plan_of("AH ) AH");
    assert!(matches!(r, Err(CompileError::UnmatchedSyllableClose { .. })));
    assert_eq!(
        r,
        Err(CompileError::UnmatchedSyllableClose {
            span: Span { start: 3, end: 4 }
        })
    );
}

#[test]
fn unclosed_open_paren_warns_and_flushes() {
    let steps = plan_of("AH ( HH AH").unwrap();
    assert_eq!(
        steps,
        vec![
            Step::Render(0, Slot::Own),
            Step::Warn(Warning::Unclosed),
            Step::Render(2, Slot::Shared(2)),
            Step::Render(3, Slot::Shared(2)),
        ]
    );
}

#[test]
fn syllable_group_shares_one_slot() {
    let steps = plan_of("( HH AH )").unwrap();
    assert_eq!(
        steps,
        vec![Step::Render(1, Slot::Shared(2)), Step::Render(2, Slot::Shared(2))]
    );
}

#[test]
fn unknown_and_nested_open_warn() {
    let steps = plan_of("xyz ( ( AH ) b120").unwrap();
    assert_eq!(
        steps,
        vec![
            Step::Warn(Warning::UnknownToken(0)),
            Step::Warn(Warning::NestedOpen),
            Step::Render(3, Slot::Shared(1)),
            Step::Apply(5),
        ]
    );
}

#[test]
fn directives_inside_a_group_apply_at_once() {
    let steps = plan_of("( AH , OW )").unwrap();
    assert_eq!(
        steps,
        vec![
            Step::Apply(2),
            Step::Render(1, Slot::Shared(2)),
            Step::Render(3, Slot::Shared(2)),
        ]
    );
}

#[test]
fn empty_input_plans_nothing() {
    assert_eq!(plan_of("").unwrap(), vec![]);
}

#[test]
fn compile_error_messages() {
    let e = CompileError::UnmatchedSyllableClose {
        span: Span { start: 3, end: 4 },
    };
    assert_eq!(e.message(), "unmatched `)` at offset 3");
    let e = CompileError::UnclosedSyllableGroup {
        span: Span { start: 120, end: 121 },
    };
    assert_eq!(e.message(), "unclosed `(` at offset 120");
}

#[test]
fn warning_messages() {
    let toks = tokenize("xyz ( ( AH").unwrap().tokens;
    let steps = plan(&toks).unwrap();
    let texts: Vec<String> = steps
        .iter()
        .filter_map(|s| match s {
            Step::Warn(w) => Some(w.message(&toks)),
            _ => None,
        })
        .collect();
    assert_eq!(texts, ["unknown token: xyz", "nested ( ignored", "unclosed ("]);
    assert_eq!(unknown_phoneme_message("XYZZY"), "unknown phoneme: XYZZY");
}

#[test]
fn combined_error_message_is_the_compile_error_text() {
    let e = CompileOrParseError::Compile(CompileError::UnmatchedSyllableClose {
        span: Span { start: 7, end: 8 },
    });
    assert_eq!(e.message(), "unmatched `)` at offset 7");
}
