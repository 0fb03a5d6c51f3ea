//! The tracing spans that JavaScript code opens and closes, innermost last.

use vstd::prelude::*;

verus! {

/// The spans that JavaScript has entered and not yet left, innermost last.
pub struct JavaScriptSpans<S> {
    spans: Vec<S>,
}

impl<S> JavaScriptSpans<S> {
    /// The open spans, outermost first.
    pub closed spec fn open_spans(&self) -> Seq<S> {
        self.spans@
    }

    pub fn new() -> (r: Self)
        ensures
            r.open_spans() == Seq::<S>::empty(),
    {
        JavaScriptSpans { spans: Vec::new() }
    }

    /// Records a span that JavaScript has entered.
    pub fn add_span(&mut self, span: S)
        ensures
            final(self).open_spans() == old(self).open_spans().push(span),
    {
        self.spans.push(span);
    }

    /// Takes the innermost open span, which the caller then leaves.
    pub fn pop_span(&mut self) -> (span: S)
        requires
            old(self).open_spans().len() > 0,
        ensures
            span == old(self).open_spans().last(),
            final(self).open_spans() == old(self).open_spans().drop_last(),
    {
        self.spans.pop().unwrap()
    }
}

/// The op that JavaScript calls when it leaves its innermost span: the span is
/// taken off the open spans, for the caller to leave.
pub fn op_tracing_span_finish<S>(spans: &mut JavaScriptSpans<S>) -> (span: S)
    requires
        old(spans).open_spans().len() > 0,
    ensures
        span == old(spans).open_spans().last(),
        final(spans).open_spans() == old(spans).open_spans().drop_last(),
{
    spans.pop_span()
}

/// Leaving the span last entered restores the spans as they were before it.
pub proof fn lemma_pop_undoes_add<S>(before: Seq<S>, span: S)
    ensures
        before.push(span).last() == span,
        before.push(span).drop_last() == before,
{
    assert(before.push(span).drop_last() =~= before);
}

} // verus!
