//! Undo and redo history of the editor: snapshots of the text and caret,
//! coalescing runs of similar edits into one undo step.
use vstd::prelude::*;

verus! {

/// Most snapshots an edit keeps for undo.
pub const UNDO_MAX: usize = 200;

/// Edits of the same kind closer together than this many milliseconds
/// share one undo step.
pub const COALESCE_MS: u128 = 500;

/// Text and caret position saved for undo.
pub struct UndoSnapshot {
    pub text: String,
    pub cursor_line: usize,
    pub cursor_col: usize,
}

/// A snapshot as plain values.
pub open spec fn snap_view(s: UndoSnapshot) -> (Seq<char>, usize, usize) {
    (s.text@, s.cursor_line, s.cursor_col)
}

/// Snapshots as plain values.
pub open spec fn snaps_view(s: Seq<UndoSnapshot>) -> Seq<(Seq<char>, usize, usize)> {
    s.map_values(|x: UndoSnapshot| snap_view(x))
}

/// Kind of a text edit, for coalescing undo steps.
#[derive(Debug, Clone, Copy, PartialEq, Eq, Structural)]
pub enum EditKind {
    Insert,
    Backspace,
    Delete,
    Enter,
    Paste,
    Other,
}

/// An edit of kind `kind`, `elapsed_ms` after the previous edit of kind
/// `last`, starts a new undo step: a change of kind, a pause longer than
/// `COALESCE_MS`, or a line break or paste.
pub open spec fn starts_step(kind: EditKind, last: EditKind, elapsed_ms: u128) -> bool {
    kind != last || elapsed_ms > COALESCE_MS || kind == EditKind::Enter || kind == EditKind::Paste
}

/// Undo stack after pushing `s`: the oldest snapshot goes once the stack
/// holds more than `UNDO_MAX`.
pub open spec fn pushed(stack: Seq<(Seq<char>, usize, usize)>, s: (Seq<char>, usize, usize)) -> Seq<
    (Seq<char>, usize, usize),
> {
    if stack.len() + 1 > UNDO_MAX {
        stack.push(s).drop_first()
    } else {
        stack.push(s)
    }
}

/// Undo and redo stacks (most recent last) and the kind of the last edit.
pub struct UndoHistory {
    undo: Vec<UndoSnapshot>,
    redo: Vec<UndoSnapshot>,
    last_kind: EditKind,
}

/// The history as plain values: undo stack, redo stack, last edit kind.
pub type HistoryView = (Seq<(Seq<char>, usize, usize)>, Seq<(Seq<char>, usize, usize)>, EditKind);

impl View for UndoHistory {
    type V = HistoryView;

    closed spec fn view(&self) -> HistoryView {
        (snaps_view(self.undo@), snaps_view(self.redo@), self.last_kind)
    }
}

/// History and restored snapshot after an undo from the state `cur`: the
/// latest undo snapshot is restored and `cur` goes onto the redo stack;
/// with nothing to undo, nothing changes.
pub open spec fn undo_step(h: HistoryView, cur: (Seq<char>, usize, usize)) -> (
    HistoryView,
    Option<(Seq<char>, usize, usize)>,
) {
    if h.0.len() == 0 {
        (h, None)
    } else {
        ((h.0.drop_last(), h.1.push(cur), EditKind::Other), Some(h.0.last()))
    }
}

/// History and restored snapshot after a redo from the state `cur`: the
/// latest redo snapshot is restored and `cur` goes onto the undo stack;
/// with nothing to redo, nothing changes.
pub open spec fn redo_step(h: HistoryView, cur: (Seq<char>, usize, usize)) -> (
    HistoryView,
    Option<(Seq<char>, usize, usize)>,
) {
    if h.1.len() == 0 {
        (h, None)
    } else {
        ((h.0.push(cur), h.1.drop_last(), EditKind::Other), Some(h.1.last()))
    }
}

/// Redoing right after an undo restores the state the undo left and
/// brings the history back to where it was.
pub proof fn lemma_redo_after_undo(h: HistoryView, cur: (Seq<char>, usize, usize))
    requires
        h.0.len() > 0,
    ensures
        ({
            let (h1, s) = undo_step(h, cur);
            let (h2, back) = redo_step(h1, s.unwrap());
            &&& back == Some(cur)
            &&& h2.0 == h.0
            &&& h2.1 == h.1
        }),
{
    let (h1, s) = undo_step(h, cur);
    assert(h1.1.drop_last() =~= h.1);
    assert(h1.0.push(s.unwrap()) =~= h.0);
}

/// Undoing right after a redo restores the state the redo left and brings
/// the history back to where it was.
pub proof fn lemma_undo_after_redo(h: HistoryView, cur: (Seq<char>, usize, usize))
    requires
        h.1.len() > 0,
    ensures
        ({
            let (h1, s) = redo_step(h, cur);
            let (h2, back) = undo_step(h1, s.unwrap());
            &&& back == Some(cur)
            &&& h2.0 == h.0
            &&& h2.1 == h.1
        }),
{
    let (h1, s) = redo_step(h, cur);
    assert(h1.0.drop_last() =~= h.0);
    assert(h1.1.push(s.unwrap()) =~= h.1);
}

proof fn lemma_snaps_push(s: Seq<UndoSnapshot>, x: UndoSnapshot)
    ensures
        snaps_view(s.push(x)) == snaps_view(s).push(snap_view(x)),
{
    assert(snaps_view(s.push(x)) =~= snaps_view(s).push(snap_view(x)));
}

proof fn lemma_snaps_drop_last(s: Seq<UndoSnapshot>)
    requires
        s.len() > 0,
    ensures
        snaps_view(s.drop_last()) == snaps_view(s).drop_last(),
        snaps_view(s).last() == snap_view(s.last()),
{
    assert(snaps_view(s.drop_last()) =~= snaps_view(s).drop_last());
}

impl UndoHistory {
    /// Empty history; the last edit counts as `Other`.
    pub fn new() -> (r: Self)
        ensures
            r@.0.len() == 0,
            r@.1.len() == 0,
            r@.2 == EditKind::Other,
    {
        UndoHistory { undo: Vec::new(), redo: Vec::new(), last_kind: EditKind::Other }
    }

    /// Number of undo steps held.
    pub fn undo_len(&self) -> (r: usize)
        ensures
            r == self@.0.len(),
    {
        self.undo.len()
    }

    /// Number of redo steps held.
    pub fn redo_len(&self) -> (r: usize)
        ensures
            r == self@.1.len(),
    {
        self.redo.len()
    }

    /// Kind of the last recorded edit.
    pub fn last_kind(&self) -> (r: EditKind)
        ensures
            r == self@.2,
    {
        self.last_kind
    }

    /// Saves `snap` as an undo step, dropping the oldest beyond `UNDO_MAX`.
    pub fn push(&mut self, snap: UndoSnapshot)
        ensures
            final(self)@.0 == pushed(old(self)@.0, snap_view(snap)),
            final(self)@.1 == old(self)@.1,
            final(self)@.2 == old(self)@.2,
    {
        let ghost sv = snap_view(snap);
        let ghost u0 = self.undo@;
        self.undo.push(snap);
        proof {
            lemma_snaps_push(u0, self.undo@.last());
        }
        if self.undo.len() > UNDO_MAX {
            let ghost u1 = self.undo@;
            self.undo.remove(0);
            assert(snaps_view(self.undo@) =~= snaps_view(u1).drop_first());
        }
    }

    /// Forgets every redo step.
    pub fn clear_redo(&mut self)
        ensures
            final(self)@.0 == old(self)@.0,
            final(self)@.1.len() == 0,
            final(self)@.2 == old(self)@.2,
    {
        self.redo = Vec::new();
        assert(snaps_view(self.redo@) =~= Seq::<(Seq<char>, usize, usize)>::empty());
    }

    /// Records an edit of kind `kind`, `elapsed_ms` after the previous
    /// one, made from the state `before`: a new undo step saves `before`;
    /// the redo steps are dropped.  Returns whether a step was saved.
    pub fn record_edit(&mut self, kind: EditKind, elapsed_ms: u128, before: UndoSnapshot) -> (r:
        bool)
        ensures
            r == starts_step(kind, old(self)@.2, elapsed_ms),
            final(self)@.0 == if r {
                pushed(old(self)@.0, snap_view(before))
            } else {
                old(self)@.0
            },
            final(self)@.1.len() == 0,
            final(self)@.2 == kind,
    {
        let snap = kind != self.last_kind || elapsed_ms > COALESCE_MS || kind == EditKind::Enter
            || kind == EditKind::Paste;
        if snap {
            self.push(before);
        }
        self.last_kind = kind;
        self.clear_redo();
        snap
    }

    /// Undoes from the state `current`: returns the snapshot to restore,
    /// or `None` when there is nothing to undo.
    pub fn undo(&mut self, current: UndoSnapshot) -> (r: Option<UndoSnapshot>)
        ensures
            (final(self)@, match r {
                Some(s) => Some(snap_view(s)),
                None => None,
            }) == undo_step(old(self)@, snap_view(current)),
    {
        if self.undo.len() == 0 {
            return None;
        }
        let ghost r0 = self.redo@;
        let ghost u0 = self.undo@;
        self.redo.push(current);
        proof {
            lemma_snaps_push(r0, self.redo@.last());
            lemma_snaps_drop_last(u0);
        }
        let s = self.undo.pop();
        self.last_kind = EditKind::Other;
        assert(self.undo@ == u0.drop_last());
        s
    }

    /// Redoes from the state `current`: returns the snapshot to restore,
    /// or `None` when there is nothing to redo.
    pub fn redo(&mut self, current: UndoSnapshot) -> (r: Option<UndoSnapshot>)
        ensures
            (final(self)@, match r {
                Some(s) => Some(snap_view(s)),
                None => None,
            }) == redo_step(old(self)@, snap_view(current)),
    {
        if self.redo.len() == 0 {
            return None;
        }
        let ghost r0 = self.redo@;
        let ghost u0 = self.undo@;
        self.undo.push(current);
        proof {
            lemma_snaps_push(u0, self.undo@.last());
            lemma_snaps_drop_last(r0);
        }
        let s = self.redo.pop();
        self.last_kind = EditKind::Other;
        assert(self.redo@ == r0.drop_last());
        s
    }
}

} // verus!
