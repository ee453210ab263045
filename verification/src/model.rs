//! The mathematical model of the collection: what each mutation and the
//! reconciliation do to the data, the position handles, the materialized views
//! and the pending log.

use crate::change::{compile, fits, record, Change, ChangeType, LogicError};
use crate::dynamic_index::IndexKey;
use vstd::prelude::*;

verus! {

/// One call on the external view, in terms of the slot it concerns. The
/// operations of one reconciliation are meant to be carried out in order, each
/// against the views as the operations before it left them.
#[derive(Debug, Clone, Copy, PartialEq, Eq, Structural)]
pub enum ViewOp {
    /// Materialize the entry at `slot` and put its view at the front.
    PushFront { slot: usize },
    /// Materialize the entry at `slot` and put its view right behind the view
    /// that stands at `slot - 1`.
    InsertAfter { slot: usize },
    /// Refresh the view at `slot` from the entry at `slot`.
    Update { slot: usize },
    /// Take the view at `slot` away.
    Remove { slot: usize },
}

/// A materialized view as the model sees it: the handle it was built for and
/// the data it shows.
pub struct Materialized<T> {
    pub key: IndexKey,
    pub shown: T,
}

/// Where a new view for `slot` goes when `views_len` views stand already.
pub open spec fn placement(views_len: int, slot: int) -> ViewOp {
    if views_len == 0 || slot == 0 {
        ViewOp::PushFront { slot: slot as usize }
    } else {
        ViewOp::InsertAfter { slot: slot as usize }
    }
}

/// What the decision `change` for `slot` does to the materialized views, and
/// the view operations it takes.
pub open spec fn replay_slot<T>(
    change: ChangeType,
    slot: int,
    data: Seq<T>,
    keys: Seq<IndexKey>,
    views: Seq<Materialized<T>>,
) -> Result<(Seq<Materialized<T>>, Seq<ViewOp>), LogicError> {
    let fresh = Materialized { key: keys[slot], shown: data[slot] };
    match change {
        ChangeType::Unchanged => Ok((views, Seq::empty())),
        ChangeType::Add => if slot >= data.len() {
            Err(LogicError::MissingEntry { slot: slot as usize })
        } else if slot > views.len() {
            Err(LogicError::MissingView { slot: (slot - 1) as usize })
        } else {
            Ok((views.insert(slot, fresh), seq![placement(views.len() as int, slot)]))
        },
        ChangeType::Update => if slot >= data.len() {
            Err(LogicError::MissingEntry { slot: slot as usize })
        } else if slot >= views.len() {
            Err(LogicError::MissingView { slot: slot as usize })
        } else {
            Ok(
                (
                    views.update(slot, Materialized { key: views[slot].key, shown: data[slot] }),
                    seq![ViewOp::Update { slot: slot as usize }],
                ),
            )
        },
        ChangeType::Remove => if slot >= views.len() {
            Err(LogicError::MissingView { slot: slot as usize })
        } else {
            Ok((views.remove(slot), seq![ViewOp::Remove { slot: slot as usize }]))
        },
        ChangeType::Recreate => if slot >= views.len() {
            Err(LogicError::MissingView { slot: slot as usize })
        } else if slot >= data.len() {
            Err(LogicError::MissingEntry { slot: slot as usize })
        } else {
            Ok(
                (
                    views.remove(slot).insert(slot, fresh),
                    seq![
                        ViewOp::Remove { slot: slot as usize },
                        placement(views.len() - 1, slot),
                    ],
                ),
            )
        },
    }
}

/// The replay of `plan` from `slot` on, in ascending slot order: the views
/// it ends with and the view operations it takes, or the first step that
/// cannot be taken.
pub open spec fn replay_from<T>(
    plan: Seq<ChangeType>,
    data: Seq<T>,
    keys: Seq<IndexKey>,
    views: Seq<Materialized<T>>,
    slot: int,
) -> Result<(Seq<Materialized<T>>, Seq<ViewOp>), LogicError>
    decreases plan.len() - slot,
{
    if slot >= plan.len() {
        Ok((views, Seq::empty()))
    } else {
        match replay_slot(plan[slot], slot, data, keys, views) {
            Err(e) => Err(e),
            Ok((next, ops)) => match replay_from(plan, data, keys, next, slot + 1) {
                Err(e) => Err(e),
                Ok((last, rest)) => Ok((last, ops + rest)),
            },
        }
    }
}

/// `op` can be carried out where `views` views stand for `entries` elements:
/// the view it refreshes, removes or puts a new view behind is there, and so
/// is the element it shows.
pub open spec fn op_fits(op: ViewOp, views: int, entries: int) -> bool {
    match op {
        ViewOp::PushFront { slot } => slot == 0 && slot < entries,
        ViewOp::InsertAfter { slot } => 0 < slot <= views && slot < entries,
        ViewOp::Update { slot } => slot < views && slot < entries,
        ViewOp::Remove { slot } => slot < views,
    }
}

/// The number of views that stand after `op` was carried out on `views` views.
pub open spec fn views_after(op: ViewOp, views: int) -> int {
    match op {
        ViewOp::PushFront { .. } | ViewOp::InsertAfter { .. } => views + 1,
        ViewOp::Update { .. } => views,
        ViewOp::Remove { .. } => views - 1,
    }
}

/// The number of views that stand after `ops` were carried out in order.
pub open spec fn views_after_all(ops: Seq<ViewOp>, views: int) -> int
    decreases ops.len(),
{
    if ops.len() == 0 {
        views
    } else {
        views_after_all(ops.drop_first(), views_after(ops[0], views))
    }
}

/// `ops` can be carried out in order, each where the ones before it have left
/// the views.
pub open spec fn ops_fit(ops: Seq<ViewOp>, views: int, entries: int) -> bool
    decreases ops.len(),
{
    ops.len() == 0 || (op_fits(ops[0], views, entries) && ops_fit(
        ops.drop_first(),
        views_after(ops[0], views),
        entries,
    ))
}

/// Every record is of a kind that a mutation records.
pub open spec fn recorded_kinds(log: Seq<Change>) -> bool {
    forall|k: int|
        0 <= k < log.len() ==> {
            let ty = (#[trigger] log[k]).ty;
            ty == ChangeType::Add || ty == ChangeType::Remove || ty == ChangeType::Update
        }
}

/// The handle with this id belongs to one of the elements whose handles are
/// `keys`.
pub open spec fn is_live(keys: Seq<IndexKey>, positions: Seq<usize>, id: int) -> bool {
    &&& 0 <= id < positions.len()
    &&& positions[id] < keys.len()
    &&& keys[positions[id] as int].id == id
}

/// The handle of every element reads the element's slot.
pub open spec fn handles_match(keys: Seq<IndexKey>, positions: Seq<usize>) -> bool {
    forall|slot: int|
        0 <= slot < keys.len() ==> (#[trigger] keys[slot]).id < positions.len()
            && positions[keys[slot].id as int] == slot
}

/// The handles after every handle of an element at or behind `from` has
/// advanced by one. Handles of elements that left the collection stay.
pub open spec fn advanced(keys: Seq<IndexKey>, positions: Seq<usize>, from: int) -> Seq<usize> {
    Seq::new(
        positions.len(),
        |id: int|
            if is_live(keys, positions, id) && positions[id] >= from {
                (positions[id] + 1) as usize
            } else {
                positions[id]
            },
    )
}

/// The handles after every handle of an element behind `after` has retreated
/// by one. Handles of elements that left the collection stay.
pub open spec fn retreated(keys: Seq<IndexKey>, positions: Seq<usize>, after: int) -> Seq<usize> {
    Seq::new(
        positions.len(),
        |id: int|
            if is_live(keys, positions, id) && positions[id] > after {
                (positions[id] - 1) as usize
            } else {
                positions[id]
            },
    )
}

/// One mutation of a collection.
pub enum Mutation<T> {
    /// `value` is inserted at `index`; a push is an insertion at either end.
    Insert { index: int, value: T },
    /// The element at `index` is removed; a pop is a removal at either end.
    Remove { index: int },
    /// The element at `index` is handed out for mutation and left as `value`.
    Update { index: int, value: T },
}

/// The state of a collection.
#[verifier::ext_equal]
pub struct DequeModel<T> {
    /// The elements, in order.
    pub data: Seq<T>,
    /// The handle of each element, in the same order.
    pub keys: Seq<IndexKey>,
    /// What each handle that was ever handed out reads, by the handle's id.
    pub positions: Seq<usize>,
    /// The materialized views, in order. They lag behind the elements until
    /// the next reconciliation.
    pub views: Seq<Materialized<T>>,
    /// The changes recorded since the last reconciliation.
    pub pending: Seq<Change>,
}

impl<T> DequeModel<T> {
    pub open spec fn empty() -> Self {
        DequeModel {
            data: Seq::empty(),
            keys: Seq::empty(),
            positions: Seq::empty(),
            views: Seq::empty(),
            pending: Seq::empty(),
        }
    }

    pub open spec fn len(self) -> nat {
        self.data.len()
    }

    /// The handle with this id belongs to an element of the collection.
    pub open spec fn is_live(self, id: int) -> bool {
        is_live(self.keys, self.positions, id)
    }

    /// Every element has a handle that reads the element's slot, every record
    /// of the log names a slot of the collection or the one behind its last.
    pub open spec fn wf(self) -> bool {
        &&& self.keys.len() == self.data.len()
        &&& self.data.len() < usize::MAX
        &&& self.positions.len() <= usize::MAX
        &&& handles_match(self.keys, self.positions)
        &&& fits(self.pending, self.data.len() as int)
        &&& recorded_kinds(self.pending)
    }

    /// The handle that the next inserted element gets.
    pub open spec fn fresh_key(self) -> IndexKey {
        IndexKey { id: self.positions.len() as usize }
    }

    /// The collection after `value` was inserted at `index`: every handle of
    /// an element at or behind `index` advances, the new element's handle
    /// reads `index`, and an `Add` is recorded.
    pub open spec fn insert(self, index: int, value: T) -> Self {
        DequeModel {
            data: self.data.insert(index, value),
            keys: self.keys.insert(index, self.fresh_key()),
            positions: advanced(self.keys, self.positions, index).push(index as usize),
            views: self.views,
            pending: record(self.pending, Change { ty: ChangeType::Add, index: index as usize }),
        }
    }

    /// The collection after the element at `index` was removed: every handle
    /// of an element behind `index` retreats, the handle of the removed
    /// element keeps what it read last, and a `Remove` is recorded.
    pub open spec fn remove(self, index: int) -> Self {
        DequeModel {
            data: self.data.remove(index),
            keys: self.keys.remove(index),
            positions: retreated(self.keys, self.positions, index),
            views: self.views,
            pending: record(
                self.pending,
                Change { ty: ChangeType::Remove, index: index as usize },
            ),
        }
    }

    /// The collection after the element at `index` was handed out for
    /// mutation and left as `value`: an `Update` is recorded.
    pub open spec fn update(self, index: int, value: T) -> Self {
        DequeModel {
            data: self.data.update(index, value),
            keys: self.keys,
            positions: self.positions,
            views: self.views,
            pending: record(
                self.pending,
                Change { ty: ChangeType::Update, index: index as usize },
            ),
        }
    }

    /// The plan that the pending log compiles to.
    pub open spec fn plan(self) -> Result<Seq<ChangeType>, LogicError> {
        compile(self.pending, self.data.len())
    }

    /// The collection after `plan` was replayed against its views, and the
    /// view operations that the replay takes.
    pub open spec fn replay(self, plan: Seq<ChangeType>) -> Result<(Self, Seq<ViewOp>), LogicError> {
        match replay_from(plan, self.data, self.keys, self.views, 0) {
            Err(e) => Err(e),
            Ok((views, ops)) => Ok(
                (
                    DequeModel {
                        data: self.data,
                        keys: self.keys,
                        positions: self.positions,
                        views,
                        pending: self.pending,
                    },
                    ops,
                ),
            ),
        }
    }

    /// The collection after a reconciliation, and the view operations that
    /// the reconciliation takes: the pending log is compiled, the plan is
    /// replayed, and the log is cleared. A replay that would leave another
    /// number of views than there are elements is an error.
    pub open spec fn reconcile(self) -> Result<(Self, Seq<ViewOp>), LogicError> {
        match self.plan() {
            Err(e) => Err(e),
            Ok(plan) => match self.replay(plan) {
                Err(e) => Err(e),
                Ok((after, ops)) => if after.views.len() != self.data.len() {
                    Err(
                        LogicError::OutOfLine {
                            views: after.views.len() as usize,
                            entries: self.data.len() as usize,
                        },
                    )
                } else {
                    Ok(
                        (
                            DequeModel {
                                data: after.data,
                                keys: after.keys,
                                positions: after.positions,
                                views: after.views,
                                pending: Seq::empty(),
                            },
                            ops,
                        ),
                    )
                },
            },
        }
    }

    /// The views as they are when each element has its own view, showing the
    /// element as it is.
    pub open spec fn current_views(self) -> Seq<Materialized<T>> {
        Seq::new(
            self.data.len(),
            |slot: int| Materialized { key: self.keys[slot], shown: self.data[slot] },
        )
    }

    /// One reconciliation can be carried out and brings the views in line
    /// with the elements.
    pub open spec fn converges(self) -> bool {
        match self.reconcile() {
            Ok((after, _)) => after.views =~= self.current_views(),
            Err(_) => false,
        }
    }

    /// The slot `index` is not marked for removal, so that the element there
    /// can be handed out for mutation.
    pub open spec fn updatable(self, index: int) -> bool {
        match self.plan() {
            Ok(plan) => plan[index] != ChangeType::Remove,
            Err(_) => false,
        }
    }

    /// The slot `index` is not marked as added or for removal, and the slot
    /// behind it is marked with nothing, so that the element there can be
    /// removed.
    pub open spec fn removable(self, index: int) -> bool {
        match self.plan() {
            Ok(plan) => {
                &&& plan[index] == ChangeType::Unchanged || plan[index] == ChangeType::Update
                    || plan[index] == ChangeType::Recreate
                &&& plan[index + 1] == ChangeType::Unchanged
            },
            Err(_) => false,
        }
    }

    /// The collection after `mutation`.
    pub open spec fn apply(self, mutation: Mutation<T>) -> Self {
        match mutation {
            Mutation::Insert { index, value } => self.insert(index, value),
            Mutation::Remove { index } => self.remove(index),
            Mutation::Update { index, value } => self.update(index, value),
        }
    }

    /// `mutation` names a place of the collection, and the collection has
    /// room for it.
    pub open spec fn accepts(self, mutation: Mutation<T>) -> bool {
        match mutation {
            Mutation::Insert { index, value } => {
                &&& 0 <= index <= self.len()
                &&& self.len() + 1 < usize::MAX
                &&& self.positions.len() < usize::MAX
            },
            Mutation::Remove { index } => 0 <= index < self.len(),
            Mutation::Update { index, value } => 0 <= index < self.len(),
        }
    }

    /// `mutation` is accepted and keeps within what the change records can
    /// express: it does not remove an element that was added since the last
    /// reconciliation or whose slot is marked for removal, nor one in front
    /// of a slot that is marked in any way, and it does not hand out an
    /// element whose slot is marked for removal.
    pub open spec fn admits(self, mutation: Mutation<T>) -> bool {
        &&& self.accepts(mutation)
        &&& match mutation {
            Mutation::Insert { index, value } => true,
            Mutation::Remove { index } => self.removable(index),
            Mutation::Update { index, value } => self.updatable(index),
        }
    }

    /// Each mutation of `batch` is accepted by the collection as the
    /// mutations before it have left it.
    pub open spec fn accepts_all(self, batch: Seq<Mutation<T>>) -> bool
        decreases batch.len(),
    {
        batch.len() == 0 || (self.accepts(batch[0]) && self.apply(batch[0]).accepts_all(
            batch.drop_first(),
        ))
    }

    /// The collection after the mutations of `batch`, in order.
    pub open spec fn apply_all(self, batch: Seq<Mutation<T>>) -> Self
        decreases batch.len(),
    {
        if batch.len() == 0 {
            self
        } else {
            self.apply(batch[0]).apply_all(batch.drop_first())
        }
    }

    /// Each mutation of `batch` is admitted by the collection as the
    /// mutations before it have left it.
    pub open spec fn admits_all(self, batch: Seq<Mutation<T>>) -> bool
        decreases batch.len(),
    {
        batch.len() == 0 || (self.admits(batch[0]) && self.apply(batch[0]).admits_all(
            batch.drop_first(),
        ))
    }

    /// The views are in line with the elements and nothing is pending.
    pub open spec fn synced(self) -> bool {
        &&& self.views =~= self.current_views()
        &&& self.pending.len() == 0
    }
}

} // verus!
