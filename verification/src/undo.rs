//! A bounded last-in-first-out history of file moves.

use vstd::prelude::*;

use crate::events::MoveAction;

verus! {

/// A single undoable move.
#[derive(Debug, Clone)]
pub struct UndoEntry {
    /// Where the file is now (in `selected/` or `rejected/`).
    pub current_path: String,
    /// Where it was before the move.
    pub original_path: String,
    /// Which action moved it.
    pub action: MoveAction,
}

/// A bounded stack of undoable moves; the most recent one is on top.
pub struct UndoStack {
    entries: Vec<UndoEntry>,
    capacity: usize,
}

/// The history after recording `entry` in a stack that holds at most `capacity`
/// entries: a full stack forgets its oldest entry first.
pub open spec fn pushed(history: Seq<UndoEntry>, capacity: nat, entry: UndoEntry) -> Seq<UndoEntry> {
    if history.len() >= capacity {
        history.drop_first().push(entry)
    } else {
        history.push(entry)
    }
}

impl View for UndoStack {
    type V = Seq<UndoEntry>;

    /// The recorded moves, oldest first.
    closed spec fn view(&self) -> Seq<UndoEntry> {
        self.entries@
    }
}

impl UndoStack {
    /// The most entries the stack retains.
    pub closed spec fn capacity(&self) -> nat {
        self.capacity as nat
    }

    /// The stack's invariant: a positive capacity that the history never exceeds.
    pub open spec fn wf(&self) -> bool {
        &&& 0 < self.capacity()
        &&& self@.len() <= self.capacity()
    }

    /// An empty stack retaining at most `capacity` entries.
    pub fn new(capacity: usize) -> (stack: Self)
        requires
            capacity > 0,
        ensures
            stack.wf(),
            stack@ == Seq::<UndoEntry>::empty(),
            stack.capacity() == capacity,
    {
        UndoStack { entries: Vec::with_capacity(capacity), capacity }
    }

    /// Record a move; when the stack is full the oldest entry is dropped.
    pub fn push(&mut self, entry: UndoEntry)
        requires
            old(self).wf(),
        ensures
            final(self).wf(),
            final(self)@ == pushed(old(self)@, old(self).capacity(), entry),
            final(self).capacity() == old(self).capacity(),
    {
        if self.entries.len() == self.capacity {
            self.entries.remove(0);
        }
        self.entries.push(entry);
    }

    /// Take the most recent entry, if any.
    pub fn pop(&mut self) -> (top: Option<UndoEntry>)
        requires
            old(self).wf(),
        ensures
            final(self).wf(),
            final(self).capacity() == old(self).capacity(),
            old(self)@.len() == 0 ==> top is None && final(self)@ == old(self)@,
            old(self)@.len() > 0 ==> top == Some(old(self)@.last()) && final(self)@
                == old(self)@.drop_last(),
    {
        self.entries.pop()
    }

    /// How many moves can be undone.
    pub fn len(&self) -> (n: usize)
        ensures
            n == self@.len(),
    {
        self.entries.len()
    }

    /// Whether there is nothing to undo.
    pub fn is_empty(&self) -> (b: bool)
        ensures
            b == (self@.len() == 0),
    {
        self.entries.len() == 0
    }

    /// Forget every recorded move.
    pub fn clear(&mut self)
        requires
            old(self).wf(),
        ensures
            final(self).wf(),
            final(self)@ == Seq::<UndoEntry>::empty(),
            final(self).capacity() == old(self).capacity(),
    {
        self.entries.clear();
    }
}

/// Undo gives back the move just recorded, and leaves the history as it was
/// before that move whenever the stack had room for it.
pub proof fn lemma_pop_returns_last_push(history: Seq<UndoEntry>, capacity: nat, entry: UndoEntry)
    requires
        0 < capacity,
        history.len() <= capacity,
    ensures
        pushed(history, capacity, entry).len() > 0,
        pushed(history, capacity, entry).last() == entry,
        history.len() < capacity ==> pushed(history, capacity, entry).drop_last() == history,
        history.len() == capacity ==> pushed(history, capacity, entry).drop_last()
            == history.drop_first(),
{
    assert(history.push(entry).drop_last() =~= history);
    if history.len() > 0 {
        assert(history.drop_first().push(entry).drop_last() =~= history.drop_first());
    }
}

/// Recording a move never makes the history exceed its capacity.
pub proof fn lemma_push_keeps_bound(history: Seq<UndoEntry>, capacity: nat, entry: UndoEntry)
    requires
        0 < capacity,
        history.len() <= capacity,
    ensures
        pushed(history, capacity, entry).len() <= capacity,
        pushed(history, capacity, entry).len() == if history.len() < capacity {
            history.len() + 1
        } else {
            capacity
        },
{
}

/// Entries older than the top keep their relative order when a move is recorded:
/// the new history is a suffix of the old one followed by the new entry.
pub proof fn lemma_push_keeps_recent_history(history: Seq<UndoEntry>, capacity: nat, entry: UndoEntry)
    requires
        0 < capacity,
        history.len() <= capacity,
    ensures
        ({
            let h = pushed(history, capacity, entry);
            let dropped = history.len() + 1 - h.len();
            &&& 0 <= dropped <= 1
            &&& h.drop_last() == history.subrange(dropped, history.len() as int)
        }),
{
    assert(history.push(entry).drop_last() =~= history.subrange(0, history.len() as int));
    if history.len() == capacity {
        assert(history.drop_first().push(entry).drop_last() =~= history.subrange(
            1,
            history.len() as int,
        ));
    }
}

/// The history after recording each of `entries` in turn, first to last.
pub open spec fn pushed_all(history: Seq<UndoEntry>, capacity: nat, entries: Seq<UndoEntry>) -> Seq<
    UndoEntry,
>
    decreases entries.len(),
{
    if entries.len() == 0 {
        history
    } else {
        pushed(pushed_all(history, capacity, entries.drop_last()), capacity, entries.last())
    }
}

/// The last `capacity` entries of `moves` (all of them when there are fewer).
pub open spec fn most_recent(moves: Seq<UndoEntry>, capacity: nat) -> Seq<UndoEntry> {
    if moves.len() <= capacity {
        moves
    } else {
        moves.skip(moves.len() - capacity)
    }
}

/// The stack remembers the most recent `capacity` moves: recording a run of
/// moves on a history within the bound leaves exactly the last `capacity` of
/// the history followed by the run, oldest first; older moves are forgotten.
pub proof fn lemma_history_keeps_most_recent(
    history: Seq<UndoEntry>,
    capacity: nat,
    entries: Seq<UndoEntry>,
)
    requires
        0 < capacity,
        history.len() <= capacity,
    ensures
        pushed_all(history, capacity, entries) == most_recent(history + entries, capacity),
    decreases entries.len(),
{
    if entries.len() == 0 {
        assert(history + entries =~= history);
    } else {
        let init = entries.drop_last();
        let x = entries.last();
        lemma_history_keeps_most_recent(history, capacity, init);
        let before = history + init;
        assert(history + entries =~= before.push(x));
        let m = most_recent(before, capacity);
        if before.len() >= capacity {
            assert(m.drop_first().push(x) =~= before.push(x).skip(before.len() + 1 - capacity));
        }
    }
}

/// How many moves of the history were made by `action`.
pub open spec fn moves_by(history: Seq<UndoEntry>, action: MoveAction) -> nat {
    history.filter(|e: UndoEntry| e.action == action).len()
}

/// No kind of move is counted more often than the history is long.
pub proof fn lemma_moves_by_bound(history: Seq<UndoEntry>, action: MoveAction)
    ensures
        moves_by(history, action) <= history.len(),
{
    history.lemma_filter_len(|e: UndoEntry| e.action == action);
}

/// Recording a move adds at most that move to the count of its kind (a full
/// stack may forget one), and no count exceeds the history's length.
pub proof fn lemma_moves_by_pushed(
    history: Seq<UndoEntry>,
    capacity: nat,
    entry: UndoEntry,
    action: MoveAction,
)
    requires
        0 < capacity,
        history.len() <= capacity,
    ensures
        moves_by(pushed(history, capacity, entry), action) <= moves_by(history, action) + if entry.action
            == action {
            1int
        } else {
            0int
        },
        moves_by(history, action) <= history.len(),
{
    let f = |e: UndoEntry| e.action == action;
    history.lemma_filter_len(f);
    if history.len() >= capacity {
        let rest = history.drop_first();
        assert(history =~= seq![history[0]] + rest);
        Seq::filter_distributes_over_add(seq![history[0]], rest, f);
        seq![history[0]].lemma_filter_len(f);
        rest.lemma_filter_push(entry, f);
    } else {
        history.lemma_filter_push(entry, f);
    }
}

/// Taking the last move off the history takes it off the count of its kind.
pub proof fn lemma_moves_by_pop(history: Seq<UndoEntry>, action: MoveAction)
    requires
        history.len() > 0,
    ensures
        moves_by(history, action) == moves_by(history.drop_last(), action) + if history.last().action
            == action {
            1int
        } else {
            0int
        },
{
    let f = |e: UndoEntry| e.action == action;
    assert(history.drop_last().push(history.last()) =~= history);
    history.drop_last().lemma_filter_push(history.last(), f);
}

} // verus!
