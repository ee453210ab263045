//! Change records, the rule that merges two changes of one slot, and the
//! pending log with its renumbering and compilation.

use vstd::prelude::*;

verus! {

/// What has to happen to the view of one slot at the next reconciliation.
#[derive(Debug, Clone, Copy, PartialEq, Eq, Structural)]
pub enum ChangeType {
    Unchanged,
    Add,
    Remove,
    Recreate,
    Update,
}

/// A sequence of changes that cannot follow one another, or a plan that does
/// not fit the views it is replayed against. Either one means that the
/// bookkeeping itself is broken; it is not an ordinary usage error.
#[derive(Debug, Clone, Copy, PartialEq, Eq, Structural)]
pub enum LogicError {
    /// `incoming` cannot follow `current` on one slot within one batch.
    UnexpectedChange { current: ChangeType, incoming: ChangeType },
    /// The plan needs a materialized view at `slot`, and there is none.
    MissingView { slot: usize },
    /// The plan needs an entry at `slot`, and there is none.
    MissingEntry { slot: usize },
    /// The plan can be replayed, but leaves `views` views for `entries`
    /// entries.
    OutOfLine { views: usize, entries: usize },
}

impl ChangeType {
    /// The merge of two changes of one slot, `self` first. `None` where the
    /// second cannot follow the first.
    pub open spec fn merge(self, other: ChangeType) -> Option<ChangeType> {
        match self {
            ChangeType::Unchanged => Some(other),
            ChangeType::Update => if other == ChangeType::Unchanged {
                Some(ChangeType::Update)
            } else {
                Some(other)
            },
            ChangeType::Add | ChangeType::Recreate => match other {
                ChangeType::Remove => Some(ChangeType::Remove),
                ChangeType::Update => Some(self),
                _ => None,
            },
            ChangeType::Remove => match other {
                ChangeType::Add => Some(ChangeType::Recreate),
                _ => None,
            },
        }
    }

    /// Merges `other` into `self`. An illegal combination leaves `self` as it
    /// was and is reported.
    pub fn apply(&mut self, other: ChangeType) -> (r: Result<(), LogicError>)
        ensures
            match old(self).merge(other) {
                Some(merged) => r is Ok && *final(self) == merged,
                None => r == Err::<(), LogicError>(
                    LogicError::UnexpectedChange { current: *old(self), incoming: other },
                ) && *final(self) == *old(self),
            },
    {
        match *self {
            ChangeType::Unchanged => {
                *self = other;
                Ok(())
            },
            ChangeType::Update => {
                match other {
                    ChangeType::Unchanged => {},
                    _ => {
                        *self = other;
                    },
                }
                Ok(())
            },
            ChangeType::Add | ChangeType::Recreate => {
                match other {
                    ChangeType::Remove => {
                        *self = ChangeType::Remove;
                        Ok(())
                    },
                    ChangeType::Update => Ok(()),
                    _ => Err(LogicError::UnexpectedChange { current: *self, incoming: other }),
                }
            },
            ChangeType::Remove => {
                match other {
                    ChangeType::Add => {
                        *self = ChangeType::Recreate;
                        Ok(())
                    },
                    _ => Err(LogicError::UnexpectedChange { current: *self, incoming: other }),
                }
            },
        }
    }
}

/// One recorded mutation: what happened, and at which slot.
#[derive(Debug, Clone, Copy, PartialEq, Eq, Structural)]
pub struct Change {
    pub ty: ChangeType,
    pub index: usize,
}

impl Change {
    pub fn new(index: usize, ty: ChangeType) -> (change: Self)
        ensures
            change == (Change { ty, index }),
    {
        Change { index, ty }
    }
}

/// `change` as it reads after `by` has been recorded behind it: an `Add` moves
/// every record at or behind its slot one slot back, a `Remove` moves every
/// record behind its slot one slot forward, anything else moves nothing.
pub open spec fn shift(change: Change, by: Change) -> Change {
    match by.ty {
        ChangeType::Add => if change.index >= by.index {
            Change { ty: change.ty, index: (change.index + 1) as usize }
        } else {
            change
        },
        ChangeType::Remove => if change.index > by.index {
            Change { ty: change.ty, index: (change.index - 1) as usize }
        } else {
            change
        },
        _ => change,
    }
}

/// The log with every record shifted by `by`.
pub open spec fn renumber(log: Seq<Change>, by: Change) -> Seq<Change> {
    Seq::new(log.len(), |k: int| shift(log[k], by))
}

/// The log after `change` has been recorded: the old records renumbered, the
/// new one at the end.
pub open spec fn record(log: Seq<Change>, change: Change) -> Seq<Change> {
    renumber(log, change).push(change)
}

/// Every record of the log names a slot of at most `limit`.
pub open spec fn fits(log: Seq<Change>, limit: int) -> bool {
    forall|k: int| 0 <= k < log.len() ==> (#[trigger] log[k]).index <= limit
}

/// A plan of `len` slots that changes nothing.
pub open spec fn blank(len: nat) -> Seq<ChangeType> {
    Seq::new(len, |slot: int| ChangeType::Unchanged)
}

/// `plan`, lengthened with unchanged slots until it has a slot `index`.
pub open spec fn grow(plan: Seq<ChangeType>, index: int) -> Seq<ChangeType> {
    if index < plan.len() {
        plan
    } else {
        plan + blank((index + 1 - plan.len()) as nat)
    }
}

/// `plan` with `change` merged into the slot it names.
pub open spec fn merge_into(plan: Seq<ChangeType>, change: Change) -> Result<
    Seq<ChangeType>,
    LogicError,
> {
    let grown = grow(plan, change.index as int);
    let current = grown[change.index as int];
    match current.merge(change.ty) {
        Some(merged) => Ok(grown.update(change.index as int, merged)),
        None => Err(LogicError::UnexpectedChange { current, incoming: change.ty }),
    }
}

/// The plan that a log compiles to for a collection of `len` entries: one
/// slot per entry and one behind the last, every record merged into its slot
/// in the order of the log. The first merge that is refused is the result.
pub open spec fn compile(log: Seq<Change>, len: nat) -> Result<Seq<ChangeType>, LogicError>
    decreases log.len(),
{
    if log.len() == 0 {
        Ok(blank(len + 1))
    } else {
        match compile(log.drop_last(), len) {
            Ok(plan) => merge_into(plan, log.last()),
            Err(e) => Err(e),
        }
    }
}

/// A refused merge among the first `k` records is the result for the whole log.
pub proof fn lemma_compile_error_stays(log: Seq<Change>, len: nat, k: int)
    requires
        0 <= k <= log.len(),
        compile(log.take(k), len) is Err,
    ensures
        compile(log, len) == compile(log.take(k), len),
    decreases log.len() - k,
{
    if k < log.len() {
        assert(log.take(k + 1).drop_last() =~= log.take(k));
        lemma_compile_error_stays(log, len, k + 1);
    } else {
        assert(log.take(k) =~= log);
    }
}

/// The changes recorded since the last reconciliation, oldest first.
pub struct ChangeLog {
    records: Vec<Change>,
}

impl View for ChangeLog {
    type V = Seq<Change>;

    closed spec fn view(&self) -> Seq<Change> {
        self.records@
    }
}

impl ChangeLog {
    pub fn new() -> (log: Self)
        ensures
            log@ == Seq::<Change>::empty(),
    {
        ChangeLog { records: Vec::new() }
    }

    /// A log that holds `records` as they are, oldest first.
    pub fn from_records(records: Vec<Change>) -> (log: Self)
        ensures
            log@ == records@,
    {
        ChangeLog { records }
    }

    /// The number of recorded changes.
    pub fn len(&self) -> (len: usize)
        ensures
            len == self@.len(),
    {
        self.records.len()
    }

    /// The `k`-th recorded change, if there are that many.
    pub fn get(&self, k: usize) -> (change: Option<Change>)
        ensures
            change == if k < self@.len() { Some(self@[k as int]) } else { None },
    {
        if k < self.records.len() {
            Some(self.records[k])
        } else {
            None
        }
    }

    /// Records `change` behind the changes already queued, after renumbering
    /// those so that each still names the slot it was recorded for.
    pub fn add_change(&mut self, change: Change)
        requires
            change.ty == ChangeType::Add ==> fits(old(self)@, usize::MAX - 1),
        ensures
            final(self)@ == record(old(self)@, change),
    {
        match change.ty {
            ChangeType::Add => {
                let mut k: usize = 0;
                while k < self.records.len()
                    invariant
                        k <= self.records@.len(),
                        self.records@.len() == old(self)@.len(),
                        change.ty == ChangeType::Add,
                        fits(old(self)@, usize::MAX - 1),
                        forall|j: int| 0 <= j < k ==> self.records@[j] == shift(old(self)@[j], change),
                        forall|j: int| k <= j < self.records@.len() ==> self.records@[j] == old(self)@[j],
                    decreases self.records@.len() - k,
                {
                    if self.records[k].index >= change.index {
                        self.records[k].index = self.records[k].index + 1;
                    }
                    k = k + 1;
                }
            },
            ChangeType::Remove => {
                let mut k: usize = 0;
                while k < self.records.len()
                    invariant
                        k <= self.records@.len(),
                        self.records@.len() == old(self)@.len(),
                        change.ty == ChangeType::Remove,
                        forall|j: int| 0 <= j < k ==> self.records@[j] == shift(old(self)@[j], change),
                        forall|j: int| k <= j < self.records@.len() ==> self.records@[j] == old(self)@[j],
                    decreases self.records@.len() - k,
                {
                    if self.records[k].index > change.index {
                        self.records[k].index = self.records[k].index - 1;
                    }
                    k = k + 1;
                }
            },
            _ => {},
        }
        assert(self.records@ =~= renumber(old(self)@, change));
        self.records.push(change);
    }

    /// Compiles the log into one decision per slot of a collection of `len`
    /// entries.
    pub fn compile_changes(&self, len: usize) -> (r: Result<Vec<ChangeType>, LogicError>)
        requires
            len < usize::MAX,
            fits(self@, usize::MAX - 1),
        ensures
            match compile(self@, len as nat) {
                Ok(plan) => r is Ok && r->Ok_0@ == plan,
                Err(e) => r == Err::<Vec<ChangeType>, LogicError>(e),
            },
    {
        let mut change_map: Vec<ChangeType> = Vec::new();
        while change_map.len() <= len
            invariant
                len < usize::MAX,
                change_map@.len() <= len + 1,
                change_map@ == blank(change_map@.len()),
            decreases len + 1 - change_map@.len(),
        {
            change_map.push(ChangeType::Unchanged);
            assert(change_map@ =~= blank(change_map@.len()));
        }
        assert(self@.take(0) =~= Seq::<Change>::empty());
        let mut k: usize = 0;
        while k < self.records.len()
            invariant
                k <= self.records@.len(),
                self.records@ == self@,
                fits(self@, usize::MAX - 1),
                compile(self@.take(k as int), len as nat) == Ok::<Seq<ChangeType>, LogicError>(
                    change_map@,
                ),
            decreases self.records@.len() - k,
        {
            let change = self.records[k];
            let ghost before = change_map@;
            while change_map.len() <= change.index
                invariant
                    change.index < usize::MAX,
                    change_map@.len() == before.len() || change_map@.len() <= change.index + 1,
                    before.len() <= change_map@.len(),
                    change_map@ == before + blank((change_map@.len() - before.len()) as nat),
                decreases change.index + 1 - change_map@.len(),
            {
                change_map.push(ChangeType::Unchanged);
                assert(change_map@ =~= before + blank((change_map@.len() - before.len()) as nat));
            }
            assert(change_map@ =~= grow(before, change.index as int));
            let applied = change_map[change.index].apply(change.ty);
            proof {
                assert(self@.take(k + 1).drop_last() =~= self@.take(k as int));
                assert(self@.take(k + 1).last() == change);
            }
            match applied {
                Ok(()) => {},
                Err(e) => {
                    proof {
                        lemma_compile_error_stays(self@, len as nat, k + 1);
                    }
                    return Err(e);
                },
            }
            k = k + 1;
        }
        assert(self@.take(k as int) =~= self@);
        Ok(change_map)
    }

    /// Forgets every recorded change.
    pub fn clear(&mut self)
        ensures
            final(self)@ == Seq::<Change>::empty(),
    {
        self.records.clear();
    }
}

} // verus!
