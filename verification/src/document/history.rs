//! Undo and redo: a pure history over snapshots.

use vstd::prelude::*;

use super::{Document, DocumentM, DocumentSnapshot, SnapshotM, spec_from_snapshot, spec_snapshot};

verus! {

/// Two stacks of snapshots: what undo restores, and what redo restores.
pub struct History {
    undo: Vec<DocumentSnapshot>,
    redo: Vec<DocumentSnapshot>,
}

/// The model of a history: both stacks, the top of each at its end.
pub struct HistoryM {
    pub undo: Seq<SnapshotM>,
    pub redo: Seq<SnapshotM>,
}

impl View for History {
    type V = HistoryM;

    closed spec fn view(&self) -> HistoryM {
        HistoryM {
            undo: self.undo@.map_values(|s: DocumentSnapshot| s@),
            redo: self.redo@.map_values(|s: DocumentSnapshot| s@),
        }
    }
}

/// The history after recording `d` before an applied operation.
pub open spec fn spec_record(h: HistoryM, d: DocumentM) -> HistoryM {
    HistoryM { undo: h.undo.push(spec_snapshot(d)), redo: Seq::empty() }
}

/// Undo with `current` installed: the new history and the document to
/// install, or nothing when there is nothing to undo.
pub open spec fn spec_undo(h: HistoryM, current: DocumentM) -> (HistoryM, Option<DocumentM>) {
    if h.undo.len() == 0 {
        (h, None)
    } else {
        (
            HistoryM { undo: h.undo.drop_last(), redo: h.redo.push(spec_snapshot(current)) },
            Some(spec_from_snapshot(h.undo.last())),
        )
    }
}

/// Redo with `current` installed: the mirror image of undo.
pub open spec fn spec_redo(h: HistoryM, current: DocumentM) -> (HistoryM, Option<DocumentM>) {
    if h.redo.len() == 0 {
        (h, None)
    } else {
        (
            HistoryM { undo: h.undo.push(spec_snapshot(current)), redo: h.redo.drop_last() },
            Some(spec_from_snapshot(h.redo.last())),
        )
    }
}

impl Default for History {
    fn default() -> (r: Self)
        ensures
            r@.undo.len() == 0,
            r@.redo.len() == 0,
    {
        History { undo: Vec::new(), redo: Vec::new() }
    }
}

impl History {
    /// Call before an operation that will return `Outcome::Applied`.
    pub fn record(&mut self, doc: &Document)
        ensures
            final(self)@ == spec_record(old(self)@, doc@),
    {
        let s = doc.snapshot();
        self.undo.push(s);
        self.redo.clear();
        proof {
            assert(final(self)@.undo =~= spec_record(old(self)@, doc@).undo);
            assert(final(self)@.redo =~= Seq::<SnapshotM>::empty());
        }
    }

    /// Restore the previous state, if any. Returns the document to install.
    pub fn undo(&mut self, current: &Document) -> (r: Option<Document>)
        ensures
            (final(self)@, match r {
                Some(d) => Some(d@),
                None => None,
            }) == spec_undo(old(self)@, current@),
    {
        match self.undo.pop() {
            None => None,
            Some(snap) => {
                let s = current.snapshot();
                self.redo.push(s);
                proof {
                    assert(final(self)@.undo =~= old(self)@.undo.drop_last());
                    assert(final(self)@.redo =~= old(self)@.redo.push(spec_snapshot(current@)));
                }
                Some(Document::from_snapshot(snap))
            },
        }
    }

    /// Restore the state that the last undo left, if any.
    pub fn redo(&mut self, current: &Document) -> (r: Option<Document>)
        ensures
            (final(self)@, match r {
                Some(d) => Some(d@),
                None => None,
            }) == spec_redo(old(self)@, current@),
    {
        match self.redo.pop() {
            None => None,
            Some(snap) => {
                let s = current.snapshot();
                self.undo.push(s);
                proof {
                    assert(final(self)@.redo =~= old(self)@.redo.drop_last());
                    assert(final(self)@.undo =~= old(self)@.undo.push(spec_snapshot(current@)));
                }
                Some(Document::from_snapshot(snap))
            },
        }
    }

    pub fn can_undo(&self) -> (r: bool)
        ensures
            r == (self@.undo.len() > 0),
    {
        self.undo.len() > 0
    }

    pub fn can_redo(&self) -> (r: bool)
        ensures
            r == (self@.redo.len() > 0),
    {
        self.redo.len() > 0
    }
}

/// Undo right after recording `d` gives back `d` as its snapshot restores
/// it, and leaves the undo stack as it was before the record.
pub proof fn lemma_record_then_undo(h: HistoryM, d: DocumentM, current: DocumentM)
    ensures
        spec_undo(spec_record(h, d), current).1 == Some(spec_from_snapshot(spec_snapshot(d))),
        spec_undo(spec_record(h, d), current).0.undo == h.undo,
        spec_undo(spec_record(h, d), current).0.redo == seq![spec_snapshot(current)],
{
    assert(spec_record(h, d).undo.drop_last() =~= h.undo);
    assert(Seq::<SnapshotM>::empty().push(spec_snapshot(current)) =~= seq![spec_snapshot(current)]);
}

/// Redo right after an undo gives back the document that was current at
/// the undo, and restores the undo stack.
pub proof fn lemma_undo_then_redo(h: HistoryM, current: DocumentM, restored: DocumentM)
    requires
        h.undo.len() > 0,
    ensures
        spec_redo(spec_undo(h, current).0, restored).1 == Some(
            spec_from_snapshot(spec_snapshot(current)),
        ),
        spec_redo(spec_undo(h, current).0, restored).0.redo == h.redo,
        spec_redo(spec_undo(h, current).0, restored).0.undo == h.undo.drop_last().push(
            spec_snapshot(restored),
        ),
{
    assert(h.redo.push(spec_snapshot(current)).drop_last() =~= h.redo);
}

/// Recording clears what redo could restore.
pub proof fn lemma_record_clears_redo(h: HistoryM, d: DocumentM, current: DocumentM)
    ensures
        spec_redo(spec_record(h, d), current).1 is None,
        spec_record(h, d).undo.len() == h.undo.len() + 1,
{
}

} // verus!
