//! Sinks: places outside the document that its edits are mirrored to.
use vstd::prelude::*;

use crate::ir::{
    applied, verdict, DocModel, Document, Edit, EditModel, IrError, Mutation, MutationModel, Origin,
};
use crate::node::NodeId;
use crate::text::copy;

verus! {

/// A place that edits are mirrored to.
pub trait AuditSink {
    /// What a sink has of the edits that it was handed.
    type Kept;

    /// What the sink has kept so far. A sink that does not say has nothing to tell of its edits.
    open spec fn kept(&self) -> Self::Kept {
        arbitrary()
    }

    /// What is kept once an edit with this content has come behind all that came before.
    open spec fn noted(before: Self::Kept, e: EditModel) -> Self::Kept {
        before
    }

    /// Takes note of one edit. Called in commit order.
    fn record(&mut self, edit: &Edit)
        ensures
            final(self).kept() == Self::noted(old(self).kept(), edit@),
    ;
}

/// A sink that takes no note of anything.
#[derive(Debug, Default, Clone, Copy)]
pub struct NoopSink;

impl AuditSink for NoopSink {
    type Kept = ();

    open spec fn kept(&self) -> () {
        ()
    }

    open spec fn noted(before: (), e: EditModel) -> () {
        ()
    }

    fn record(&mut self, _edit: &Edit) {
    }
}

/// What a sink has kept after the first `n` edits of a log, each once and one after the other.
pub open spec fn streamed<S: AuditSink>(before: S::Kept, log: Seq<EditModel>, n: int) -> S::Kept
    decreases n,
{
    if n <= 0 {
        before
    } else {
        S::noted(streamed::<S>(before, log, n - 1), log[n - 1])
    }
}

impl Document {
    /// Hands every edit of the log to a sink, oldest first, each once and nothing else.
    pub fn replay_to<S: AuditSink>(&self, sink: &mut S)
        ensures
            final(sink).kept() == streamed::<S>(old(sink).kept(), self@.log, self@.log.len() as int),
    {
        let log = self.audit_log();
        let ghost before = sink.kept();
        let mut i: usize = 0;
        while i < log.len()
            invariant
                i <= log@.len(),
                crate::ir::edit_models(log@) == self@.log,
                sink.kept() == streamed::<S>(before, self@.log, i as int),
            decreases log.len() - i,
        {
            let e: &Edit = &log[i];
            assert(e@ == self@.log[i as int]);
            sink.record(e);
            i += 1;
        }
    }
}

/// A document together with a sink that sees every accepted edit as it commits.
pub struct AuditedDocument<'a, S: AuditSink> {
    doc: Document,
    sink: &'a mut S,
}

impl<'a, S: AuditSink> AuditedDocument<'a, S> {
    /// The document inside.
    pub closed spec fn model(self) -> DocModel {
        self.doc@
    }

    /// The sink, borrowed for as long as the two are joined.
    pub closed spec fn outlet(self) -> &'a mut S {
        self.sink
    }

    /// What the sink has kept so far.
    pub open spec fn mirrored(self) -> S::Kept {
        self.outlet().kept()
    }

    /// Joins a document and a sink.
    pub fn new(doc: Document, sink: &'a mut S) -> (r: Self)
        ensures
            r.model() == doc@,
            r.mirrored() == old(sink).kept(),
            *final(r.outlet()) == *final(sink),
    {
        AuditedDocument { doc, sink }
    }

    /// Applies a mutation to the document; an accepted one is handed to the sink, once and behind
    /// those before it, a refused one is not.
    pub fn apply_from(&mut self, origin: Origin, mutation: Mutation) -> (r: Result<(), IrError>)
        ensures
            r == verdict(old(self).model(), mutation@),
            final(self).model() == applied(old(self).model(), origin, mutation@),
            final(self).mirrored() == if r is Ok {
                S::noted(old(self).mirrored(), (EditModel { origin, mutation: mutation@ }))
            } else {
                old(self).mirrored()
            },
            *final(final(self).outlet()) == *final(old(self).outlet()),
    {
        let edit = Edit { origin, mutation };
        let copy = edit.clone();
        match self.doc.apply(edit) {
            Err(e) => Err(e),
            Ok(_) => {
                assert((&copy)@ == (EditModel { origin, mutation: mutation@ }));
                self.sink.record(&copy);
                Ok(())
            },
        }
    }

    /// An id that the document has not handed out before.
    pub fn fresh_id(&mut self) -> (r: NodeId)
        requires
            old(self).model().next_id < u64::MAX,
        ensures
            r == NodeId(old(self).model().next_id),
            final(self).model() == (DocModel {
                next_id: (old(self).model().next_id + 1) as u64,
                ..old(self).model()
            }),
            final(self).mirrored() == old(self).mirrored(),
            *final(final(self).outlet()) == *final(old(self).outlet()),
    {
        self.doc.fresh_id()
    }

    /// The document.
    pub fn document(&self) -> (r: &Document)
        ensures
            r@ == self.model(),
    {
        &self.doc
    }

    /// The document, without the sink.
    pub fn into_inner(self) -> (r: Document)
        ensures
            r@ == self.model(),
            *final(self.outlet()) == *self.outlet(),
    {
        self.doc
    }
}

proof fn lemma_streamed_same<S: AuditSink>(before: S::Kept, a: Seq<EditModel>, b: Seq<EditModel>, n: int)
    requires
        n <= a.len(),
        n <= b.len(),
        a.take(n) == b.take(n),
    ensures
        streamed::<S>(before, a, n) == streamed::<S>(before, b, n),
    decreases n,
{
    if n > 0 {
        assert(a[n - 1] == a.take(n)[n - 1]);
        assert(b[n - 1] == b.take(n)[n - 1]);
        assert(a.take(n - 1) =~= a.take(n).take(n - 1));
        assert(b.take(n - 1) =~= b.take(n).take(n - 1));
        lemma_streamed_same::<S>(before, a, b, n - 1);
    }
}

/// A sink that saw every edit as it committed has kept what one has that the whole log is replayed
/// to: where that was so before an edit, it is so after it, whether the edit is accepted or refused.
pub proof fn law_mirror_is_the_replayed_log<S: AuditSink>(
    before: S::Kept,
    kept: S::Kept,
    d: DocModel,
    origin: Origin,
    m: MutationModel,
)
    requires
        kept == streamed::<S>(before, d.log, d.log.len() as int),
    ensures
        (if verdict(d, m) is Ok {
            S::noted(kept, (EditModel { origin, mutation: m }))
        } else {
            kept
        }) == streamed::<S>(before, applied(d, origin, m).log, applied(d, origin, m).log.len() as int),
{
    let after = applied(d, origin, m).log;
    if verdict(d, m) is Ok {
        let n = d.log.len() as int;
        assert(after.take(n) =~= d.log.take(n));
        lemma_streamed_same::<S>(before, d.log, after, n);
    }
}

/// The output that a line-by-line log of edits is written to.
#[derive(Debug)]
pub struct JsonlSink<W> {
    out: W,
}

impl<W> JsonlSink<W> {
    /// The output.
    pub closed spec fn inner(self) -> W {
        self.out
    }

    /// A log that is written to `out`.
    pub fn new(out: W) -> (r: Self)
        ensures
            r.inner() == out,
    {
        JsonlSink { out }
    }

    /// The output, while the log is still written.
    pub fn output(&self) -> (r: &W)
        ensures
            *r == self.inner(),
    {
        &self.out
    }

    /// The output, given back.
    pub fn into_inner(self) -> (r: W)
        ensures
            r == self.inner(),
    {
        self.out
    }
}

/// The line that an edit, already in words, takes in a log.
pub fn log_line(edit: &str) -> (r: String)
    ensures
        r@ == edit@.push('\n'),
{
    let mut line = copy(edit);
    line.push('\n');
    line
}

} // verus!
