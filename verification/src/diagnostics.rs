//! The mistakes of a file, as the editor is told of them.

use vstd::prelude::*;

use crate::position;
use crate::position::{Range, TextRange};
use crate::syntax;
use crate::syntax::{ErrorKind, SyntaxError};
use crate::text;

verus! {

/// How grave a diagnostic is.
#[derive(Clone, Copy, Debug, PartialEq, Eq, Structural)]
pub enum Severity {
    Error,
    Warning,
    Information,
    Hint,
}

/// A remark on a stretch of text.
#[derive(Debug, PartialEq, Eq)]
pub struct Diagnostic {
    pub range: Range,
    pub severity: Severity,
    pub message: String,
}

/// What a remark holds.
pub struct DiagnosticView {
    pub range: Range,
    pub severity: Severity,
    pub message: Seq<char>,
}

impl DeepView for Diagnostic {
    type V = DiagnosticView;

    open spec fn deep_view(&self) -> DiagnosticView {
        DiagnosticView { range: self.range, severity: self.severity, message: self.message@ }
    }
}

/// All the remarks on a file. They replace the ones published before.
#[derive(Debug, PartialEq, Eq)]
pub struct PublishDiagnostics {
    pub uri: String,
    pub diagnostics: Vec<Diagnostic>,
    pub version: Option<i32>,
}

/// The bytes that a mistake is shown at: those at fault, or the end of the file
/// if the file ends too soon. Other mistakes are not shown.
pub open spec fn shown_at(code: Seq<char>, kind: ErrorKind) -> Option<TextRange> {
    match kind {
        ErrorKind::Unexpected(range) => Some(range),
        ErrorKind::UnexpectedDoubleBind(range) => Some(range),
        ErrorKind::UnexpectedExtra(range) => Some(range),
        ErrorKind::UnexpectedWanted(range) => Some(range),
        ErrorKind::UnexpectedEof | ErrorKind::UnexpectedEofWanted => {
            let end = text::byte_len(code) as u32;
            Some(TextRange { start: end, end })
        },
        ErrorKind::Other => None,
    }
}

/// The remarks on a file: one for each mistake that is shown, in the order in
/// which the mistakes were found.
pub open spec fn remarks(code: Seq<char>, errors: Seq<syntax::SyntaxErrorView>) -> Seq<
    DiagnosticView,
>
    decreases errors.len(),
{
    if errors.len() == 0 {
        seq![]
    } else {
        let before = remarks(code, errors.drop_last());
        match shown_at(code, errors.last().kind) {
            Some(r) => before.push(
                DiagnosticView {
                    range: position::range_at(code, r),
                    severity: Severity::Error,
                    message: errors.last().message,
                },
            ),
            None => before,
        }
    }
}

/// The bytes that a mistake is shown at.
fn place_error(code: &str, kind: ErrorKind) -> (r: Option<TextRange>)
    requires
        text::measurable(code@),
    ensures
        r == shown_at(code@, kind),
{
    match kind {
        ErrorKind::Unexpected(range)
        | ErrorKind::UnexpectedDoubleBind(range)
        | ErrorKind::UnexpectedExtra(range)
        | ErrorKind::UnexpectedWanted(range) => Some(range),
        ErrorKind::UnexpectedEof | ErrorKind::UnexpectedEofWanted => {
            let end: u32 = text::byte_count(code) as u32;
            Some(TextRange { start: end, end })
        },
        ErrorKind::Other => None,
    }
}

/// What the editor is told of the mistakes of a file.
pub fn send_diagnostics(uri: String, code: &str, errors: &Vec<SyntaxError>) -> (r:
    PublishDiagnostics)
    requires
        text::measurable(code@),
    ensures
        r.uri@ == uri@,
        r.diagnostics.deep_view() == remarks(code@, errors.deep_view()),
        r.version is None,
{
    let mut diagnostics: Vec<Diagnostic> = Vec::with_capacity(errors.len());
    let mut i: usize = 0;
    assert(errors.deep_view().take(0) =~= seq![]);
    assert(diagnostics.deep_view() =~= seq![]);
    while i < errors.len()
        invariant
            i <= errors@.len(),
            text::measurable(code@),
            diagnostics.deep_view() == remarks(code@, errors.deep_view().take(i as int)),
        decreases errors.len() - i,
    {
        let error = &errors[i];
        let ghost before = diagnostics.deep_view();
        proof {
            let seen = errors.deep_view().take(i + 1);
            assert(seen.drop_last() =~= errors.deep_view().take(i as int));
            assert(seen.last() == error.deep_view());
        }
        if let Some(node_range) = place_error(code, error.kind) {
            let diagnostic = Diagnostic {
                range: position::range(code, node_range),
                severity: Severity::Error,
                message: error.message.clone(),
            };
            diagnostics.push(diagnostic);
            assert(diagnostics.deep_view() =~= before.push(diagnostic.deep_view()));
        }
        i = i + 1;
    }
    assert(errors.deep_view().take(errors@.len() as int) =~= errors.deep_view());
    PublishDiagnostics { uri, diagnostics, version: None }
}

/// Every mistake but those of no known place is shown, and none is shown twice:
/// where all mistakes have a place, there are as many remarks as mistakes, and
/// each carries the message of its mistake.
pub proof fn law_one_remark_per_mistake(code: Seq<char>, errors: Seq<syntax::SyntaxErrorView>)
    requires
        forall|i: int| 0 <= i < errors.len() ==> (#[trigger] errors[i]).kind != ErrorKind::Other,
    ensures
        remarks(code, errors).len() == errors.len(),
        forall|i: int|
            0 <= i < errors.len() ==> (#[trigger] remarks(code, errors)[i]).message
                == errors[i].message,
    decreases errors.len(),
{
    if errors.len() > 0 {
        law_one_remark_per_mistake(code, errors.drop_last());
        assert(shown_at(code, errors.last().kind) is Some);
    }
}

/// Remarks on mistakes come in the order of the mistakes: those on a list and
/// then another are those on the first and then those on the second.
pub proof fn law_remarks_keep_their_order(
    code: Seq<char>,
    a: Seq<syntax::SyntaxErrorView>,
    b: Seq<syntax::SyntaxErrorView>,
)
    ensures
        remarks(code, a + b) == remarks(code, a) + remarks(code, b),
    decreases b.len(),
{
    if b.len() == 0 {
        assert(a + b =~= a);
        assert(remarks(code, a) + seq![] =~= remarks(code, a));
    } else {
        assert((a + b).drop_last() =~= a + b.drop_last());
        law_remarks_keep_their_order(code, a, b.drop_last());
        assert(remarks(code, a + b) =~= remarks(code, a) + remarks(code, b));
    }
}

/// A mistake at known bytes is shown from the first to the last of them, an early
/// end of the file at the end of the file, and any other mistake not at all. It
/// is shown as an error, with its own message.
pub proof fn law_mistakes_are_shown_in_their_place(
    code: Seq<char>,
    error: syntax::SyntaxErrorView,
    place: TextRange,
)
    requires
        text::measurable(code),
    ensures
        ({
            let all = remarks(code, seq![error]);
            let end = position::position_at(code, text::byte_len(code) as int);
            let at_place = Range {
                start: position::position_at(code, place.start as int),
                end: position::position_at(code, place.end as int),
            };
            &&& error.kind == ErrorKind::Unexpected(place) || error.kind
                == ErrorKind::UnexpectedDoubleBind(place) || error.kind
                == ErrorKind::UnexpectedExtra(place) || error.kind == ErrorKind::UnexpectedWanted(
                place,
            ) ==> all == seq![
                DiagnosticView {
                    range: at_place,
                    severity: Severity::Error,
                    message: error.message,
                },
            ]
            &&& error.kind == ErrorKind::UnexpectedEof || error.kind
                == ErrorKind::UnexpectedEofWanted ==> all == seq![
                DiagnosticView {
                    range: Range { start: end, end },
                    severity: Severity::Error,
                    message: error.message,
                },
            ]
            &&& error.kind == ErrorKind::Other ==> all.len() == 0
        }),
{
    assert(seq![error].drop_last() =~= seq![]);
    assert(seq![error].last() == error);
    assert(remarks(code, seq![error].drop_last()) =~= seq![]);
}

} // verus!
