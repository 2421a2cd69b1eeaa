//! The control structure of compiling a token stream into a schedule:
//! which token is rendered when, in which time slot, which warnings are
//! raised, and when compilation fails. The synthesis side walks the
//! resulting plan and does the timing and pitch arithmetic.
//!
//! Tokens between `(` and `)` form a syllable group: its phonemes are held
//! back and rendered together when the group closes, sharing one rate slot.
//! Directives and pauses inside a group take effect at once.

use vstd::prelude::*;

use crate::text::{decimal, push_decimal, push_str, string_from_chars};
use crate::tokenize::{ParseError, Span, Token, TokenView, token_views};

verus! {

/// Why a token stream could not be compiled.
#[derive(Clone, Copy, Debug, PartialEq, Eq, Structural)]
pub enum CompileError {
    /// An unclosed `(`. An unclosed group is flushed with a warning rather
    /// than reported, so compilation never returns this.
    UnclosedSyllableGroup { span: Span },
    /// A `)` with no open group.
    UnmatchedSyllableClose { span: Span },
}

/// The text of a compile error, naming the offending byte offset.
pub open spec fn compile_error_text(e: CompileError) -> Seq<char> {
    match e {
        CompileError::UnclosedSyllableGroup { span } => "unclosed `(` at offset "@ + decimal(span.start as nat),
        CompileError::UnmatchedSyllableClose { span } => "unmatched `)` at offset "@ + decimal(span.start as nat),
    }
}

impl CompileError {
    /// Human-readable description, as shown to users.
    pub fn message(&self) -> (r: String)
        ensures
            r@ == compile_error_text(*self),
    {
        let mut out: Vec<char> = Vec::new();
        match self {
            CompileError::UnclosedSyllableGroup { span } => {
                push_str(&mut out, "unclosed `(` at offset ");
                push_decimal(&mut out, span.start as u64);
            },
            CompileError::UnmatchedSyllableClose { span } => {
                push_str(&mut out, "unmatched `)` at offset ");
                push_decimal(&mut out, span.start as u64);
            },
        }
        string_from_chars(out.as_slice())
    }
}

/// Why a phoneme string could not be compiled: at the tokenize stage or at
/// the compile stage.
#[derive(Clone, Debug, PartialEq, Eq)]
pub enum CompileOrParseError {
    Parse(ParseError),
    Compile(CompileError),
}

impl CompileOrParseError {
    /// Human-readable description: that of the compile error. A parse error
    /// has no text; the tokenizer rejects no input, so none is ever made.
    pub fn message(&self) -> (r: String)
        ensures
            match self {
                CompileOrParseError::Parse(_) => r@ == Seq::<char>::empty(),
                CompileOrParseError::Compile(e) => r@ == compile_error_text(*e),
            },
    {
        match self {
            CompileOrParseError::Parse(_) => String::new(),
            CompileOrParseError::Compile(e) => e.message(),
        }
    }
}

/// What a stretch of a compiled utterance's timeline comes from.
#[derive(Clone, Copy, Debug, PartialEq, Eq, Structural)]
pub enum PhraseKind {
    Phoneme,
    Pause,
    Directive,
}

/// The warning raised when the phoneme table has no entry for `code`.
pub open spec fn unknown_phoneme_text(code: Seq<char>) -> Seq<char> {
    "unknown phoneme: "@ + code
}

/// The warning text for a phoneme code the table does not know.
pub fn unknown_phoneme_message(code: &str) -> (r: String)
    ensures
        r@ == unknown_phoneme_text(code@),
{
    let mut out: Vec<char> = Vec::new();
    push_str(&mut out, "unknown phoneme: ");
    push_str(&mut out, code);
    string_from_chars(out.as_slice())
}

/// The time slot a phoneme is rendered in.
#[derive(Clone, Copy, Debug, PartialEq, Eq, Structural)]
pub enum Slot {
    /// Its own slot of the current rate (stretched when stressed).
    Own,
    /// A share of one rate slot split evenly among the given number of
    /// phonemes of a syllable group.
    Shared(usize),
}

/// A warning the plan raises.
#[derive(Clone, Copy, Debug, PartialEq, Eq, Structural)]
pub enum Warning {
    /// The token at this index is not recognized (`unknown token: ...`).
    UnknownToken(usize),
    /// A `(` inside an open group is ignored (`nested ( ignored`).
    NestedOpen,
    /// The input ended inside a group, which is flushed (`unclosed (`).
    Unclosed,
}

/// One step of a compile plan.
#[derive(Clone, Copy, Debug, PartialEq, Eq, Structural)]
pub enum Step {
    /// Raise a warning.
    Warn(Warning),
    /// Apply the directive or pause token at this index.
    Apply(usize),
    /// Render the phoneme token at this index in the given slot.
    Render(usize, Slot),
}

/// The text of an unknown token (empty for any other token).
pub open spec fn unknown_text(t: TokenView) -> Seq<char> {
    match t {
        TokenView::Unknown { text, .. } => text,
        _ => Seq::empty(),
    }
}

/// The text a warning is shown as; an unknown token's warning quotes the
/// token.
pub open spec fn warning_text(w: Warning, t: Seq<TokenView>) -> Seq<char> {
    match w {
        Warning::UnknownToken(i) => "unknown token: "@ + unknown_text(t[i as int]),
        Warning::NestedOpen => "nested ( ignored"@,
        Warning::Unclosed => "unclosed ("@,
    }
}

/// A warning names a token of the stream that is unknown, if it names one.
pub open spec fn warning_names_unknown(w: Warning, t: Seq<TokenView>) -> bool {
    w matches Warning::UnknownToken(i) ==> i < t.len() && t[i as int] is Unknown
}

impl Warning {
    /// Human-readable text of this warning, as raised while compiling
    /// `tokens`.
    pub fn message(&self, tokens: &[Token]) -> (r: String)
        requires
            warning_names_unknown(*self, token_views(tokens@)),
        ensures
            r@ == warning_text(*self, token_views(tokens@)),
    {
        let mut out: Vec<char> = Vec::new();
        match self {
            Warning::UnknownToken(i) => {
                push_str(&mut out, "unknown token: ");
                assert(token_views(tokens@)[*i as int] == tokens@[*i as int]@);
                match &tokens[*i] {
                    Token::Unknown { text, .. } => push_str(&mut out, text.as_str()),
                    _ => {},
                }
            },
            Warning::NestedOpen => push_str(&mut out, "nested ( ignored"),
            Warning::Unclosed => push_str(&mut out, "unclosed ("),
        }
        string_from_chars(out.as_slice())
    }
}

/// Render steps for the phonemes held in a syllable group, sharing a slot.
pub open spec fn flush(queue: Seq<usize>) -> Seq<Step> {
    queue.map_values(|j: usize| Step::Render(j, Slot::Shared(queue.len() as usize)))
}

/// The plan for `tokens` from index `i` on, after the steps `steps`, with a
/// group open or not and the phonemes it holds.
pub open spec fn plan_from(t: Seq<TokenView>, i: int, in_group: bool, queue: Seq<usize>, steps: Seq<Step>) -> Result<Seq<Step>, CompileError>
    decreases t.len() - i,
{
    if i < 0 || i >= t.len() {
        if in_group {
            Ok(steps.push(Step::Warn(Warning::Unclosed)) + flush(queue))
        } else {
            Ok(steps)
        }
    } else {
        match t[i] {
            TokenView::Unknown { .. } => plan_from(t, i + 1, in_group, queue, steps.push(Step::Warn(Warning::UnknownToken(i as usize)))),
            TokenView::SyllableOpen { .. } => if in_group {
                plan_from(t, i + 1, in_group, queue, steps.push(Step::Warn(Warning::NestedOpen)))
            } else {
                plan_from(t, i + 1, true, Seq::empty(), steps)
            },
            TokenView::SyllableClose { span } => if !in_group {
                Err(CompileError::UnmatchedSyllableClose { span })
            } else {
                plan_from(t, i + 1, false, Seq::empty(), steps + flush(queue))
            },
            TokenView::Directive { .. } => plan_from(t, i + 1, in_group, queue, steps.push(Step::Apply(i as usize))),
            TokenView::Pause { .. } => plan_from(t, i + 1, in_group, queue, steps.push(Step::Apply(i as usize))),
            TokenView::Phoneme { .. } => if in_group {
                plan_from(t, i + 1, in_group, queue.push(i as usize), steps)
            } else {
                plan_from(t, i + 1, in_group, queue, steps.push(Step::Render(i as usize, Slot::Own)))
            },
        }
    }
}

/// The compile plan for a token stream.
pub open spec fn plan_of(t: Seq<TokenView>) -> Result<Seq<Step>, CompileError> {
    plan_from(t, 0, false, Seq::empty(), Seq::empty())
}

fn push_flush(steps: &mut Vec<Step>, queue: &Vec<usize>)
    ensures
        final(steps)@ == old(steps)@ + flush(queue@),
{
    let ghost start = steps@;
    let n = queue.len();
    let mut i: usize = 0;
    while i < n
        invariant
            i <= n == queue.len(),
            steps@ == start + flush(queue@).take(i as int),
        decreases n - i,
    {
        steps.push(Step::Render(queue[i], Slot::Shared(n)));
        assert(flush(queue@).take(i + 1) =~= flush(queue@).take(i as int).push(Step::Render(queue@[i as int], Slot::Shared(n))));
        assert(steps@ =~= start + flush(queue@).take(i + 1));
        i += 1;
    }
    assert(flush(queue@).take(n as int) =~= flush(queue@));
}

/// Plan the compilation of `tokens`: `Err` exactly when a `)` comes with no
/// group open (the first such one is reported).
pub fn plan(tokens: &[Token]) -> (r: Result<Vec<Step>, CompileError>)
    ensures
        match r {
            Ok(s) => plan_of(token_views(tokens@)) == Ok::<Seq<Step>, CompileError>(s@),
            Err(e) => plan_of(token_views(tokens@)) == Err::<Seq<Step>, CompileError>(e),
        },
{
    let ghost t = token_views(tokens@);
    let mut steps: Vec<Step> = Vec::new();
    let mut queue: Vec<usize> = Vec::new();
    let mut in_group = false;
    let mut i: usize = 0;
    while i < tokens.len()
        invariant
            i <= tokens.len(),
            t == token_views(tokens@),
            plan_of(t) == plan_from(t, i as int, in_group, queue@, steps@),
        decreases tokens.len() - i,
    {
        assert(t[i as int] == tokens@[i as int]@);
        match &tokens[i] {
            Token::Unknown { .. } => {
                steps.push(Step::Warn(Warning::UnknownToken(i)));
            },
            Token::SyllableOpen { .. } => {
                if in_group {
                    steps.push(Step::Warn(Warning::NestedOpen));
                } else {
                    in_group = true;
                    queue = Vec::new();
                    assert(queue@ =~= Seq::<usize>::empty());
                }
            },
            Token::SyllableClose { span } => {
                if !in_group {
                    return Err(CompileError::UnmatchedSyllableClose { span: *span });
                }
                push_flush(&mut steps, &queue);
                queue = Vec::new();
                assert(queue@ =~= Seq::<usize>::empty());
                in_group = false;
            },
            Token::Directive { .. } => {
                steps.push(Step::Apply(i));
            },
            Token::Pause { .. } => {
                steps.push(Step::Apply(i));
            },
            Token::Phoneme { .. } => {
                if in_group {
                    queue.push(i);
                } else {
                    steps.push(Step::Render(i, Slot::Own));
                }
            },
        }
        i += 1;
    }
    if in_group {
        steps.push(Step::Warn(Warning::Unclosed));
        push_flush(&mut steps, &queue);
    }
    Ok(steps)
}

// ---------------------------------------------------------------------------
// Law: every phoneme is rendered once, in order

/// The token indices a plan renders, in order.
pub open spec fn renders(s: Seq<Step>) -> Seq<usize>
    decreases s.len(),
{
    if s.len() == 0 {
        Seq::empty()
    } else {
        match s.last() {
            Step::Render(j, _) => renders(s.drop_last()).push(j),
            _ => renders(s.drop_last()),
        }
    }
}

/// The indices of the phoneme tokens, in order.
pub open spec fn phoneme_indices(t: Seq<TokenView>) -> Seq<usize>
    decreases t.len(),
{
    if t.len() == 0 {
        Seq::empty()
    } else if t.last() is Phoneme {
        phoneme_indices(t.drop_last()).push((t.len() - 1) as usize)
    } else {
        phoneme_indices(t.drop_last())
    }
}

proof fn lemma_renders_append(a: Seq<Step>, b: Seq<Step>)
    ensures
        renders(a + b) == renders(a) + renders(b),
    decreases b.len(),
{
    if b.len() == 0 {
        assert(a + b =~= a);
        assert(renders(a) + renders(b) =~= renders(a));
    } else {
        lemma_renders_append(a, b.drop_last());
        assert((a + b).drop_last() =~= a + b.drop_last());
        assert((a + b).last() == b.last());
        match b.last() {
            Step::Render(j, _) => {
                assert(renders(a) + renders(b.drop_last()).push(j) =~= (renders(a) + renders(b.drop_last())).push(j));
            },
            _ => {},
        }
    }
}

proof fn lemma_renders_flush(q: Seq<usize>, n: usize)
    ensures
        renders(q.map_values(|j: usize| Step::Render(j, Slot::Shared(n)))) == q,
    decreases q.len(),
{
    let f = q.map_values(|j: usize| Step::Render(j, Slot::Shared(n)));
    if q.len() > 0 {
        lemma_renders_flush(q.drop_last(), n);
        assert(f.drop_last() =~= q.drop_last().map_values(|j: usize| Step::Render(j, Slot::Shared(n))));
        assert(q.drop_last().push(q.last()) =~= q);
    } else {
        assert(renders(f) =~= q);
    }
}

proof fn lemma_renders_push_other(s: Seq<Step>, x: Step)
    requires
        !(x is Render),
    ensures
        renders(s.push(x)) == renders(s),
{
    assert(s.push(x).drop_last() =~= s);
}

proof fn lemma_renders_push_render(s: Seq<Step>, j: usize, slot: Slot)
    ensures
        renders(s.push(Step::Render(j, slot))) == renders(s).push(j),
{
    assert(s.push(Step::Render(j, slot)).drop_last() =~= s);
}

proof fn lemma_plan_renders(t: Seq<TokenView>, i: int, in_group: bool, queue: Seq<usize>, steps: Seq<Step>)
    requires
        0 <= i <= t.len() <= usize::MAX,
        renders(steps) + queue == phoneme_indices(t.take(i)),
        !in_group ==> queue.len() == 0,
    ensures
        plan_from(t, i, in_group, queue, steps) matches Ok(s) ==> renders(s) == phoneme_indices(t),
    decreases t.len() - i,
{
    if i == t.len() {
        assert(t.take(i) =~= t);
        if in_group {
            let w = steps.push(Step::Warn(Warning::Unclosed));
            lemma_renders_push_other(steps, Step::Warn(Warning::Unclosed));
            lemma_renders_append(w, flush(queue));
            lemma_renders_flush(queue, queue.len() as usize);
        } else {
            assert(renders(steps) + queue =~= renders(steps));
        }
    } else {
        assert(t.take(i + 1).drop_last() =~= t.take(i));
        assert(t.take(i + 1).last() == t[i]);
        let phon = phoneme_indices(t.take(i));
        match t[i] {
            TokenView::Unknown { .. } => {
                lemma_renders_push_other(steps, Step::Warn(Warning::UnknownToken(i as usize)));
                lemma_plan_renders(t, i + 1, in_group, queue, steps.push(Step::Warn(Warning::UnknownToken(i as usize))));
            },
            TokenView::SyllableOpen { .. } => {
                if in_group {
                    lemma_renders_push_other(steps, Step::Warn(Warning::NestedOpen));
                    lemma_plan_renders(t, i + 1, in_group, queue, steps.push(Step::Warn(Warning::NestedOpen)));
                } else {
                    assert(renders(steps) + Seq::<usize>::empty() =~= renders(steps) + queue);
                    lemma_plan_renders(t, i + 1, true, Seq::empty(), steps);
                }
            },
            TokenView::SyllableClose { .. } => {
                if in_group {
                    lemma_renders_append(steps, flush(queue));
                    lemma_renders_flush(queue, queue.len() as usize);
                    assert(renders(steps + flush(queue)) + Seq::<usize>::empty() =~= renders(steps) + queue);
                    lemma_plan_renders(t, i + 1, false, Seq::empty(), steps + flush(queue));
                }
            },
            TokenView::Directive { .. } => {
                lemma_renders_push_other(steps, Step::Apply(i as usize));
                lemma_plan_renders(t, i + 1, in_group, queue, steps.push(Step::Apply(i as usize)));
            },
            TokenView::Pause { .. } => {
                lemma_renders_push_other(steps, Step::Apply(i as usize));
                lemma_plan_renders(t, i + 1, in_group, queue, steps.push(Step::Apply(i as usize)));
            },
            TokenView::Phoneme { .. } => {
                assert(phoneme_indices(t.take(i + 1)) == phon.push(i as usize));
                if in_group {
                    assert(renders(steps) + queue.push(i as usize) =~= (renders(steps) + queue).push(i as usize));
                    lemma_plan_renders(t, i + 1, in_group, queue.push(i as usize), steps);
                } else {
                    lemma_renders_push_render(steps, i as usize, Slot::Own);
                    assert(renders(steps).push(i as usize) + queue =~= (renders(steps) + queue).push(i as usize));
                    lemma_plan_renders(t, i + 1, in_group, queue, steps.push(Step::Render(i as usize, Slot::Own)));
                }
            },
        }
    }
}

/// A successful plan renders every phoneme token exactly once, in source
/// order: a syllable group delays its phonemes but neither drops, repeats
/// nor reorders them, and an unclosed group is still flushed at the end.
pub proof fn every_phoneme_rendered_once_in_order(t: Seq<TokenView>)
    requires
        t.len() <= usize::MAX,
    ensures
        plan_of(t) matches Ok(s) ==> renders(s) == phoneme_indices(t),
{
    assert(t.take(0) =~= Seq::<TokenView>::empty());
    assert(renders(Seq::<Step>::empty()) + Seq::<usize>::empty() =~= phoneme_indices(t.take(0)));
    lemma_plan_renders(t, 0, false, Seq::empty(), Seq::empty());
}

// ---------------------------------------------------------------------------
// Law: compilation fails exactly at the first unmatched `)`

/// Whether a syllable group is open after the first `n` tokens: a `(`
/// opens one (or leaves it open), a `)` closes it.
pub open spec fn group_open(t: Seq<TokenView>, n: int) -> bool
    decreases n,
{
    if n <= 0 || n > t.len() {
        false
    } else {
        match t[n - 1] {
            TokenView::SyllableOpen { .. } => true,
            TokenView::SyllableClose { .. } => false,
            _ => group_open(t, n - 1),
        }
    }
}

/// Token `i` is a `)` that comes with no group open.
pub open spec fn unmatched_close(t: Seq<TokenView>, i: int) -> bool {
    &&& 0 <= i < t.len()
    &&& t[i] is SyllableClose
    &&& !group_open(t, i)
}

proof fn lemma_plan_fails(t: Seq<TokenView>, i: int, in_group: bool, queue: Seq<usize>, steps: Seq<Step>)
    requires
        0 <= i <= t.len(),
        in_group == group_open(t, i),
        forall|j: int| 0 <= j < i ==> !unmatched_close(t, j),
    ensures
        plan_from(t, i, in_group, queue, steps) is Err <==> exists|j: int| unmatched_close(t, j),
        plan_from(t, i, in_group, queue, steps) matches Err(e) ==> exists|k: int| {
            &&& #[trigger] unmatched_close(t, k)
            &&& forall|j: int| 0 <= j < k ==> !unmatched_close(t, j)
            &&& e == CompileError::UnmatchedSyllableClose { span: t[k].span() }
        },
    decreases t.len() - i,
{
    if i == t.len() {
        assert forall|j: int| !unmatched_close(t, j) by {
            if 0 <= j < i {
            }
        }
    } else {
        let next_open = group_open(t, i + 1);
        match t[i] {
            TokenView::SyllableClose { span } => {
                if in_group {
                    assert(!unmatched_close(t, i));
                    assert(!next_open);
                    lemma_plan_fails(t, i + 1, false, Seq::empty(), steps + flush(queue));
                } else {
                    assert(unmatched_close(t, i));
                }
            },
            TokenView::SyllableOpen { .. } => {
                assert(!unmatched_close(t, i));
                if in_group {
                    lemma_plan_fails(t, i + 1, in_group, queue, steps.push(Step::Warn(Warning::NestedOpen)));
                } else {
                    lemma_plan_fails(t, i + 1, true, Seq::empty(), steps);
                }
            },
            TokenView::Unknown { .. } => {
                assert(!unmatched_close(t, i));
                lemma_plan_fails(t, i + 1, in_group, queue, steps.push(Step::Warn(Warning::UnknownToken(i as usize))));
            },
            TokenView::Directive { .. } => {
                assert(!unmatched_close(t, i));
                lemma_plan_fails(t, i + 1, in_group, queue, steps.push(Step::Apply(i as usize)));
            },
            TokenView::Pause { .. } => {
                assert(!unmatched_close(t, i));
                lemma_plan_fails(t, i + 1, in_group, queue, steps.push(Step::Apply(i as usize)));
            },
            TokenView::Phoneme { .. } => {
                assert(!unmatched_close(t, i));
                if in_group {
                    lemma_plan_fails(t, i + 1, in_group, queue.push(i as usize), steps);
                } else {
                    lemma_plan_fails(t, i + 1, in_group, queue, steps.push(Step::Render(i as usize, Slot::Own)));
                }
            },
        }
    }
}

/// Compilation fails exactly when some `)` comes with no group open, and
/// then it reports the first such `)`; an unclosed `(` is never an error.
pub proof fn plan_fails_exactly_at_first_unmatched_close(t: Seq<TokenView>)
    ensures
        plan_of(t) is Err <==> exists|i: int| unmatched_close(t, i),
        plan_of(t) matches Err(e) ==> exists|k: int| {
            &&& #[trigger] unmatched_close(t, k)
            &&& forall|j: int| 0 <= j < k ==> !unmatched_close(t, j)
            &&& e == CompileError::UnmatchedSyllableClose { span: t[k].span() }
        },
{
    lemma_plan_fails(t, 0, false, Seq::empty(), Seq::empty());
}

// ---------------------------------------------------------------------------
// Law: a plan's warnings about unknown tokens name unknown tokens

/// Every step's warning, if it names a token, names an unknown one.
pub open spec fn warnings_name_unknown(s: Seq<Step>, t: Seq<TokenView>) -> bool {
    forall|k: int| 0 <= k < s.len() ==> (#[trigger] s[k] matches Step::Warn(w) ==> warning_names_unknown(w, t))
}

proof fn lemma_flush_no_warnings(s: Seq<Step>, q: Seq<usize>, t: Seq<TokenView>)
    requires
        warnings_name_unknown(s, t),
    ensures
        warnings_name_unknown(s + flush(q), t),
{
    let r = s + flush(q);
    assert forall|k: int| 0 <= k < r.len() implies (#[trigger] r[k] matches Step::Warn(w) ==> warning_names_unknown(w, t)) by {
        if k >= s.len() {
            assert(r[k] == flush(q)[k - s.len()]);
        } else {
            assert(r[k] == s[k]);
        }
    }
}

proof fn lemma_push_keeps(s: Seq<Step>, x: Step, t: Seq<TokenView>)
    requires
        warnings_name_unknown(s, t),
        x matches Step::Warn(w) ==> warning_names_unknown(w, t),
    ensures
        warnings_name_unknown(s.push(x), t),
{
    let r = s.push(x);
    assert forall|k: int| 0 <= k < r.len() implies (#[trigger] r[k] matches Step::Warn(w) ==> warning_names_unknown(w, t)) by {
        if k < s.len() {
            assert(r[k] == s[k]);
        }
    }
}

proof fn lemma_plan_warnings(t: Seq<TokenView>, i: int, in_group: bool, queue: Seq<usize>, steps: Seq<Step>)
    requires
        0 <= i <= t.len() <= usize::MAX,
        warnings_name_unknown(steps, t),
    ensures
        plan_from(t, i, in_group, queue, steps) matches Ok(s) ==> warnings_name_unknown(s, t),
    decreases t.len() - i,
{
    if i == t.len() {
        if in_group {
            lemma_push_keeps(steps, Step::Warn(Warning::Unclosed), t);
            lemma_flush_no_warnings(steps.push(Step::Warn(Warning::Unclosed)), queue, t);
        }
    } else {
        match t[i] {
            TokenView::Unknown { .. } => {
                lemma_push_keeps(steps, Step::Warn(Warning::UnknownToken(i as usize)), t);
                lemma_plan_warnings(t, i + 1, in_group, queue, steps.push(Step::Warn(Warning::UnknownToken(i as usize))));
            },
            TokenView::SyllableOpen { .. } => {
                if in_group {
                    lemma_push_keeps(steps, Step::Warn(Warning::NestedOpen), t);
                    lemma_plan_warnings(t, i + 1, in_group, queue, steps.push(Step::Warn(Warning::NestedOpen)));
                } else {
                    lemma_plan_warnings(t, i + 1, true, Seq::empty(), steps);
                }
            },
            TokenView::SyllableClose { .. } => {
                if in_group {
                    lemma_flush_no_warnings(steps, queue, t);
                    lemma_plan_warnings(t, i + 1, false, Seq::empty(), steps + flush(queue));
                }
            },
            TokenView::Directive { .. } => {
                lemma_push_keeps(steps, Step::Apply(i as usize), t);
                lemma_plan_warnings(t, i + 1, in_group, queue, steps.push(Step::Apply(i as usize)));
            },
            TokenView::Pause { .. } => {
                lemma_push_keeps(steps, Step::Apply(i as usize), t);
                lemma_plan_warnings(t, i + 1, in_group, queue, steps.push(Step::Apply(i as usize)));
            },
            TokenView::Phoneme { .. } => {
                if in_group {
                    lemma_plan_warnings(t, i + 1, in_group, queue.push(i as usize), steps);
                } else {
                    lemma_push_keeps(steps, Step::Render(i as usize, Slot::Own), t);
                    lemma_plan_warnings(t, i + 1, in_group, queue, steps.push(Step::Render(i as usize, Slot::Own)));
                }
            },
        }
    }
}

/// A successful plan warns about unknown tokens only by naming a token of
/// the stream that is unknown, so every warning of the plan has its text.
pub proof fn plan_warnings_name_unknown_tokens(t: Seq<TokenView>)
    requires
        t.len() <= usize::MAX,
    ensures
        plan_of(t) matches Ok(s) ==> warnings_name_unknown(s, t),
{
    lemma_plan_warnings(t, 0, false, Seq::empty(), Seq::empty());
}

} // verus!
