use vstd::prelude::*;
use crate::codemap::{CodeMap, Piece, message_pieces, paint, paint_error, realizes, lemma_realizes_concat, lemma_realizes_push};
use crate::model::ast::Span;
use crate::text::{append_decimal, append_str, decimal};

verus! {

/// One diagnostic: its message and the part of the source it is about.
pub struct FrontendError {
    pub err: String,
    pub span: Span,
}

pub type FrontendResult<T> = Result<T, Vec<FrontendError>>;

/// `Ok` when no error was collected, else all of them.
pub fn ok_if_no_error(errors: Vec<FrontendError>) -> (res: FrontendResult<()>)
    ensures
        errors@.len() == 0 ==> res is Ok,
        errors@.len() > 0 ==> (res matches Err(e) && e@ == errors@),
{
    if errors.len() == 0 {
        Ok(())
    } else {
        Err(errors)
    }
}

/// The errors that a result adds to a list of collected errors.
pub open spec fn errors_of(res: FrontendResult<()>) -> Seq<FrontendError> {
    match res {
        Ok(()) => Seq::empty(),
        Err(e) => e@,
    }
}

/// The messages for a list of errors, one after the other.
pub open spec fn errors_pieces(filename: Seq<char>, lines: Seq<Seq<char>>, errors: Seq<FrontendError>) -> Seq<Piece>
    decreases errors.len(),
{
    if errors.len() == 0 {
        Seq::empty()
    } else {
        errors_pieces(filename, lines, errors.drop_last()) + message_pieces(
            filename,
            lines,
            errors.last().span,
            errors.last().err@,
        )
    }
}

/// The closing line of an error report.
pub open spec fn summary_text(n: nat) -> Seq<char> {
    "\nFound "@ + decimal(n) + " error(s) in total."@
}

/// Every error's span runs forward.
pub open spec fn spans_ordered(errors: Seq<FrontendError>) -> bool {
    forall|i: int| 0 <= i < errors.len() ==> (#[trigger] errors[i]).span.0 <= errors[i].span.1
}

/// A report of all errors: each message in turn, then the painted count.
pub fn format_errors(codemap: &CodeMap, errors: &Vec<FrontendError>) -> (res: String)
    requires
        spans_ordered(errors@),
    ensures
        realizes(
            errors_pieces(codemap.spec_filename(), codemap.spec_lines(), errors@) + paint(summary_text(errors@.len())),
            res@,
        ),
{
    let ghost filename = codemap.spec_filename();
    let ghost lines = codemap.spec_lines();
    let mut result = String::new();
    let mut i: usize = 0;
    while i < errors.len()
        invariant
            spans_ordered(errors@),
            i <= errors@.len(),
            realizes(errors_pieces(filename, lines, errors@.take(i as int)), result@),
            filename == codemap.spec_filename(),
            lines == codemap.spec_lines(),
        decreases errors@.len() - i,
    {
        let e = &errors[i];
        assert(errors@[i as int].span.0 <= errors@[i as int].span.1);
        let msg = codemap.format_message(e.span, e.err.as_str());
        let ghost before = result@;
        result.append(msg.as_str());
        proof {
            lemma_realizes_concat(
                errors_pieces(filename, lines, errors@.take(i as int)),
                before,
                message_pieces(filename, lines, e.span, e.err@),
                msg@,
            );
            assert(errors@.take(i + 1).drop_last() =~= errors@.take(i as int));
        }
        i = i + 1;
    }
    proof {
        assert(errors@.take(errors@.len() as int) =~= errors@);
    }
    let mut summary = String::new();
    append_str(&mut summary, "\nFound ");
    append_decimal(&mut summary, errors.len() as u64);
    append_str(&mut summary, " error(s) in total.");
    proof {
        assert(summary@ =~= summary_text(errors@.len()));
    }
    let painted = paint_error(summary.as_str());
    let ghost before = result@;
    result.append(painted.as_str());
    proof {
        lemma_realizes_push(errors_pieces(filename, lines, errors@), before, (summary@, true), painted@);
        assert(errors_pieces(filename, lines, errors@).push((summary@, true)) =~= errors_pieces(filename, lines, errors@) + paint(summary_text(errors@.len())));
    }
    result
}

pub trait ErrorAccumulation: Sized {
    fn accumulate_errors_in(self, errors: &mut Vec<FrontendError>);
}

impl ErrorAccumulation for FrontendResult<()> {
    /// Appends the errors of this result, if any, to `errors`.
    fn accumulate_errors_in(self, errors: &mut Vec<FrontendError>)
        ensures
            final(errors)@ == old(errors)@ + errors_of(self),
    {
        match self {
            Ok(()) => {
                assert(errors@ =~= old(errors)@ + errors_of(self));
            },
            Err(mut err) => {
                errors.append(&mut err);
            },
        }
    }
}


/// Whether every error's span runs forward.
pub fn spans_are_ordered(errors: &Vec<FrontendError>) -> (res: bool)
    ensures
        res == spans_ordered(errors@),
{
    let mut i: usize = 0;
    while i < errors.len()
        invariant
            i <= errors@.len(),
            forall|j: int| 0 <= j < i ==> (#[trigger] errors@[j]).span.0 <= errors@[j].span.1,
        decreases errors@.len() - i,
    {
        if errors[i].span.0 > errors[i].span.1 {
            return false;
        }
        i = i + 1;
    }
    true
}

/// The errors with every span that runs backwards read forwards.
pub fn forward_spans(errors: Vec<FrontendError>) -> (res: Vec<FrontendError>)
    ensures
        spans_ordered(res@),
        res@.len() == errors@.len(),
        forall|i: int| 0 <= i < errors@.len() ==> (#[trigger] res@[i]).err@ == errors@[i].err@
            && (errors@[i].span.0 <= errors@[i].span.1 ==> res@[i].span == errors@[i].span)
            && (errors@[i].span.0 > errors@[i].span.1 ==> res@[i].span == (errors@[i].span.1, errors@[i].span.0)),
{
    let mut res: Vec<FrontendError> = Vec::new();
    let mut i: usize = 0;
    while i < errors.len()
        invariant
            i <= errors@.len(),
            res@.len() == i,
            forall|j: int| 0 <= j < i ==> (#[trigger] res@[j]).err@ == errors@[j].err@
                && (errors@[j].span.0 <= errors@[j].span.1 ==> res@[j].span == errors@[j].span)
                && (errors@[j].span.0 > errors@[j].span.1 ==> res@[j].span == (errors@[j].span.1, errors@[j].span.0)),
        decreases errors@.len() - i,
    {
        let e = &errors[i];
        let span = if e.span.0 <= e.span.1 { e.span } else { (e.span.1, e.span.0) };
        res.push(FrontendError { err: e.err.clone(), span });
        i = i + 1;
    }
    res
}

} // verus!
