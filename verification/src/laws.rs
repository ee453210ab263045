//! What holds of the collection whatever is done with it: position handles
//! stay correct, a reconciliation with nothing pending does nothing, and a
//! batch of mutations that keeps within the reach of the change records is
//! brought in line by one reconciliation.

use crate::change::{blank, Change, ChangeType, LogicError};
use crate::dynamic_index::IndexKey;
use crate::model::{
    op_fits, ops_fit, replay_from, replay_slot, views_after, views_after_all, DequeModel,
    Materialized, Mutation, ViewOp,
};
use vstd::prelude::*;

verus! {

/// In a well-formed collection the handle of every element reads the slot at
/// which the element stands, and belongs to that element alone.
pub proof fn lemma_positions_correct<T>(m: DequeModel<T>, slot: int)
    requires
        m.wf(),
        0 <= slot < m.len(),
    ensures
        m.is_live(m.keys[slot].id as int),
        m.positions[m.keys[slot].id as int] == slot,
        forall|other: int| 0 <= other < m.len() && other != slot ==> m.keys[other] != m.keys[slot],
{
    assert forall|other: int| 0 <= other < m.len() && other != slot implies m.keys[other]
        != m.keys[slot] by {
        assert(m.positions[m.keys[other].id as int] == other);
    }
}

/// An insertion keeps the collection well formed: afterwards every handle,
/// that of the new element too, reads its element's slot.
pub proof fn lemma_insert_wf<T>(m: DequeModel<T>, index: int, value: T)
    requires
        m.wf(),
        0 <= index <= m.len(),
        m.len() + 1 < usize::MAX,
        m.positions.len() < usize::MAX,
    ensures
        m.insert(index, value).wf(),
{
    let after = m.insert(index, value);
    assert forall|slot: int| 0 <= slot < after.keys.len() implies (#[trigger] after.keys[slot]).id
        < after.positions.len() && after.positions[after.keys[slot].id as int] == slot by {
        if slot < index {
            assert(after.keys[slot] == m.keys[slot]);
        } else if slot > index {
            assert(after.keys[slot] == m.keys[slot - 1]);
        }
    }
    let by = Change { ty: ChangeType::Add, index: index as usize };
    assert forall|k: int| 0 <= k < after.pending.len() implies (#[trigger] after.pending[k]).index
        <= after.data.len() by {
        if k < m.pending.len() {
            assert(m.pending[k].index <= m.data.len());
        }
    }
    assert forall|k: int| 0 <= k < after.pending.len() implies {
        let ty = (#[trigger] after.pending[k]).ty;
        ty == ChangeType::Add || ty == ChangeType::Remove || ty == ChangeType::Update
    } by {
        if k < m.pending.len() {
            assert(after.pending[k].ty == m.pending[k].ty);
        }
    }
}

/// A removal keeps the collection well formed: afterwards every handle of a
/// remaining element reads its element's slot.
pub proof fn lemma_remove_wf<T>(m: DequeModel<T>, index: int)
    requires
        m.wf(),
        0 <= index < m.len(),
    ensures
        m.remove(index).wf(),
{
    let after = m.remove(index);
    assert forall|slot: int| 0 <= slot < after.keys.len() implies (#[trigger] after.keys[slot]).id
        < after.positions.len() && after.positions[after.keys[slot].id as int] == slot by {
        if slot < index {
            assert(after.keys[slot] == m.keys[slot]);
        } else {
            assert(after.keys[slot] == m.keys[slot + 1]);
        }
    }
    assert forall|k: int| 0 <= k < after.pending.len() implies (#[trigger] after.pending[k]).index
        <= after.data.len() by {
        if k < m.pending.len() {
            assert(m.pending[k].index <= m.data.len());
        }
    }
    assert forall|k: int| 0 <= k < after.pending.len() implies {
        let ty = (#[trigger] after.pending[k]).ty;
        ty == ChangeType::Add || ty == ChangeType::Remove || ty == ChangeType::Update
    } by {
        if k < m.pending.len() {
            assert(after.pending[k].ty == m.pending[k].ty);
        }
    }
}

/// Handing an element out for mutation keeps the collection well formed.
pub proof fn lemma_update_wf<T>(m: DequeModel<T>, index: int, value: T)
    requires
        m.wf(),
        0 <= index < m.len(),
    ensures
        m.update(index, value).wf(),
{
    let after = m.update(index, value);
    assert forall|k: int| 0 <= k < after.pending.len() implies (#[trigger] after.pending[k]).index
        <= after.data.len() by {
        if k < m.pending.len() {
            assert(after.pending[k] == m.pending[k]);
        }
    }
    assert forall|k: int| 0 <= k < after.pending.len() implies {
        let ty = (#[trigger] after.pending[k]).ty;
        ty == ChangeType::Add || ty == ChangeType::Remove || ty == ChangeType::Update
    } by {
        if k < m.pending.len() {
            assert(after.pending[k] == m.pending[k]);
        }
    }
}

/// Whatever mutations a well-formed collection accepts, one after the
/// other, it stays well formed: the handle of every element that remains
/// reads the slot at which the element stands.
pub proof fn lemma_batch_wf<T>(m: DequeModel<T>, batch: Seq<Mutation<T>>)
    requires
        m.wf(),
        m.accepts_all(batch),
    ensures
        m.apply_all(batch).wf(),
    decreases batch.len(),
{
    if batch.len() > 0 {
        match batch[0] {
            Mutation::Insert { index, value } => {
                lemma_insert_wf(m, index, value);
            },
            Mutation::Remove { index } => {
                lemma_remove_wf(m, index);
            },
            Mutation::Update { index, value } => {
                lemma_update_wf(m, index, value);
            },
        }
        lemma_batch_wf(m.apply(batch[0]), batch.drop_first());
    }
}

/// Replaying a plan that changes nothing takes no operation and leaves the
/// views as they are.
pub proof fn lemma_replay_blank<T>(
    len: nat,
    data: Seq<T>,
    keys: Seq<IndexKey>,
    views: Seq<Materialized<T>>,
    slot: int,
)
    requires
        0 <= slot,
    ensures
        replay_from(blank(len), data, keys, views, slot) == Ok::<
            (Seq<Materialized<T>>, Seq<ViewOp>),
            LogicError,
        >((views, Seq::empty())),
    decreases len - slot,
{
    if slot < len {
        lemma_replay_blank(len, data, keys, views, slot + 1);
        assert(Seq::<ViewOp>::empty() + Seq::<ViewOp>::empty() =~= Seq::<ViewOp>::empty());
    }
}

/// With nothing pending and a view for every element, a reconciliation takes
/// no view operation and changes nothing.
pub proof fn lemma_nothing_pending<T>(m: DequeModel<T>)
    requires
        m.pending.len() == 0,
        m.views.len() == m.len(),
    ensures
        m.reconcile() == Ok::<(DequeModel<T>, Seq<ViewOp>), LogicError>((m, Seq::empty())),
{
    lemma_replay_blank(m.data.len() + 1, m.data, m.keys, m.views, 0);
    assert(m.pending =~= Seq::empty());
    let after = m.reconcile()->Ok_0.0;
    assert(after =~= m);
}

/// A second reconciliation right after a successful one takes no view
/// operation and changes nothing.
pub proof fn lemma_reconcile_twice<T>(m: DequeModel<T>)
    requires
        m.reconcile() is Ok,
    ensures
        ({
            let once = m.reconcile()->Ok_0.0;
            once.reconcile() == Ok::<(DequeModel<T>, Seq<ViewOp>), LogicError>(
                (once, Seq::empty()),
            )
        }),
{
    lemma_nothing_pending(m.reconcile()->Ok_0.0);
}

/// Operations that can be carried out one run after the other can be carried
/// out as one run.
pub proof fn lemma_ops_fit_joined(first: Seq<ViewOp>, then: Seq<ViewOp>, views: int, entries: int)
    requires
        ops_fit(first, views, entries),
        ops_fit(then, views_after_all(first, views), entries),
    ensures
        ops_fit(first + then, views, entries),
        views_after_all(first + then, views) == views_after_all(then, views_after_all(first, views)),
    decreases first.len(),
{
    if first.len() == 0 {
        assert(first + then =~= then);
    } else {
        lemma_ops_fit_joined(first.drop_first(), then, views_after(first[0], views), entries);
        assert((first + then).drop_first() =~= first.drop_first() + then);
    }
}

/// The operations of one step of a replay can be carried out in order, and
/// leave as many views as the step does.
pub proof fn lemma_replay_slot_ops_fit<T>(
    change: ChangeType,
    slot: int,
    data: Seq<T>,
    keys: Seq<IndexKey>,
    views: Seq<Materialized<T>>,
)
    requires
        0 <= slot <= usize::MAX,
        replay_slot(change, slot, data, keys, views) is Ok,
    ensures
        ({
            let (next, ops) = replay_slot(change, slot, data, keys, views)->Ok_0;
            &&& ops_fit(ops, views.len() as int, data.len() as int)
            &&& views_after_all(ops, views.len() as int) == next.len()
        }),
{
    reveal_with_fuel(ops_fit, 3);
    reveal_with_fuel(views_after_all, 3);
    let ops = replay_slot(change, slot, data, keys, views)->Ok_0.1;
    let standing = views.len() as int;
    match change {
        ChangeType::Unchanged => {},
        ChangeType::Add | ChangeType::Update | ChangeType::Remove => {
            assert(ops.len() == 1);
            assert(ops.drop_first().len() == 0);
            assert(op_fits(ops[0], standing, data.len() as int));
        },
        ChangeType::Recreate => {
            let tail = ops.drop_first();
            assert(ops.len() == 2);
            assert(tail.len() == 1);
            assert(tail[0] == ops[1]);
            assert(tail.drop_first().len() == 0);
            assert(op_fits(ops[0], standing, data.len() as int));
            assert(op_fits(ops[1], standing - 1, data.len() as int));
        },
    }
}

/// The operations of a replay can be carried out in the order in which they
/// are handed out: each one that refreshes or removes a view, or puts a new
/// view behind one, finds that view, each one that shows an element finds
/// the element, and a view is put at the front only for the first slot. What
/// stands in the end is as many views as the replay leaves.
pub proof fn lemma_replay_ops_fit<T>(
    plan: Seq<ChangeType>,
    data: Seq<T>,
    keys: Seq<IndexKey>,
    views: Seq<Materialized<T>>,
    slot: int,
)
    requires
        0 <= slot,
        plan.len() <= usize::MAX,
        replay_from(plan, data, keys, views, slot) is Ok,
    ensures
        ({
            let (last, ops) = replay_from(plan, data, keys, views, slot)->Ok_0;
            &&& ops_fit(ops, views.len() as int, data.len() as int)
            &&& views_after_all(ops, views.len() as int) == last.len()
        }),
    decreases plan.len() - slot,
{
    if slot < plan.len() {
        let (next, ops) = replay_slot(plan[slot], slot, data, keys, views)->Ok_0;
        let (last, rest) = replay_from(plan, data, keys, next, slot + 1)->Ok_0;
        lemma_replay_slot_ops_fit(plan[slot], slot, data, keys, views);
        lemma_replay_ops_fit(plan, data, keys, next, slot + 1);
        lemma_ops_fit_joined(ops, rest, views.len() as int, data.len() as int);
    }
}

} // verus!
