//! The collection itself: a double-ended sequence whose elements carry
//! position handles, with a log of pending changes and the materialized views
//! that the log is reconciled against.

use crate::change::{Change, ChangeLog, ChangeType, LogicError};
use crate::convergence::{
    lemma_insert_converges, lemma_remove_converges, lemma_synced_converges,
    lemma_update_converges,
};
use crate::dynamic_index::{DynamicIndex, IndexKey};
use crate::laws::{
    lemma_insert_wf, lemma_nothing_pending, lemma_remove_wf, lemma_replay_ops_fit,
    lemma_update_wf,
};
use crate::model::{
    advanced, handles_match, is_live, ops_fit, placement, replay_from, replay_slot, retreated,
    DequeModel, Materialized, ViewOp,
};
use std::collections::VecDeque;
use vstd::prelude::*;

verus! {

/// An index that no element of the collection has.
#[derive(Debug, Clone, Copy, PartialEq, Eq, Structural)]
pub struct OutOfRange {
    /// The index that was asked for.
    pub index: usize,
    /// The number of elements at that time.
    pub len: usize,
}

/// One element together with the key of its position handle.
struct IndexedData<T> {
    inner: T,
    key: IndexKey,
}

impl<T> IndexedData<T> {
    fn new(data: T, key: IndexKey) -> (entry: Self)
        ensures
            entry.inner == data,
            entry.key == key,
    {
        IndexedData { inner: data, key }
    }
}

/// What the collection keeps of one materialized view: the handle that the
/// view was built for and, for the proofs alone, the data that it shows.
struct Mounted<T> {
    key: IndexKey,
    shown: Ghost<T>,
}

/// A container similar to [`VecDeque`] that tracks, for an external view, what
/// has changed since the view was last brought in line.
pub struct FactoryVecDeque<T> {
    data: VecDeque<IndexedData<T>>,
    handles: Vec<DynamicIndex>,
    widgets: VecDeque<Mounted<T>>,
    changes: ChangeLog,
}

spec fn keys_of<T>(entries: Seq<IndexedData<T>>) -> Seq<IndexKey> {
    Seq::new(entries.len(), |slot: int| entries[slot].key)
}

spec fn data_of<T>(entries: Seq<IndexedData<T>>) -> Seq<T> {
    Seq::new(entries.len(), |slot: int| entries[slot].inner)
}

spec fn positions_of(handles: Seq<DynamicIndex>) -> Seq<usize> {
    Seq::new(handles.len(), |id: int| handles[id]@)
}

spec fn views_of<T>(widgets: Seq<Mounted<T>>) -> Seq<Materialized<T>> {
    Seq::new(
        widgets.len(),
        |slot: int| Materialized { key: widgets[slot].key, shown: widgets[slot].shown@ },
    )
}

/// Advances the handle of every entry that stands at or behind `from`.
fn advance_handles<T>(
    handles: &mut Vec<DynamicIndex>,
    entries: &VecDeque<IndexedData<T>>,
    from: usize,
)
    requires
        handles_match(keys_of(entries@), positions_of(old(handles)@)),
        entries@.len() < usize::MAX,
    ensures
        positions_of(final(handles)@) == advanced(
            keys_of(entries@),
            positions_of(old(handles)@),
            from as int,
        ),
{
    let ghost keys = keys_of(entries@);
    let ghost before = positions_of(handles@);
    let mut slot: usize = 0;
    while slot < entries.len()
        invariant
            slot <= entries@.len(),
            entries@.len() < usize::MAX,
            keys == keys_of(entries@),
            handles_match(keys, before),
            handles@.len() == before.len(),
            forall|id: int|
                0 <= id < before.len() ==> (#[trigger] handles@[id])@ == if is_live(keys, before, id)
                    && from <= before[id] < slot {
                    (before[id] + 1) as usize
                } else {
                    before[id]
                },
        decreases entries@.len() - slot,
    {
        let id = entries[slot].key.id;
        assert(keys[slot as int].id == id);
        if handles[id].current_index() >= from {
            handles[id].increment();
        }
        slot = slot + 1;
    }
    assert(positions_of(handles@) =~= advanced(keys, before, from as int));
}

/// Lets the handle of every entry that stands behind `after` retreat.
fn retreat_handles<T>(
    handles: &mut Vec<DynamicIndex>,
    entries: &VecDeque<IndexedData<T>>,
    after: usize,
)
    requires
        handles_match(keys_of(entries@), positions_of(old(handles)@)),
    ensures
        positions_of(final(handles)@) == retreated(
            keys_of(entries@),
            positions_of(old(handles)@),
            after as int,
        ),
{
    let ghost keys = keys_of(entries@);
    let ghost before = positions_of(handles@);
    let mut slot: usize = 0;
    while slot < entries.len()
        invariant
            slot <= entries@.len(),
            keys == keys_of(entries@),
            handles_match(keys, before),
            handles@.len() == before.len(),
            forall|id: int|
                0 <= id < before.len() ==> (#[trigger] handles@[id])@ == if is_live(keys, before, id)
                    && after < before[id] < slot {
                    (before[id] - 1) as usize
                } else {
                    before[id]
                },
        decreases entries@.len() - slot,
    {
        let id = entries[slot].key.id;
        assert(keys[slot as int].id == id);
        if handles[id].current_index() > after {
            handles[id].decrement();
        }
        slot = slot + 1;
    }
    assert(positions_of(handles@) =~= retreated(keys, before, after as int));
}

/// `VecDeque`'s `index_mut`, the `&mut entries[index]` of std: a mutable
/// reference to the element at `index`. The contract claims that the element
/// is the one at `index`, and that when the reference is given up the
/// collection differs from before only in that element. std panics for an
/// index that is out of bounds, which `requires` leaves out.
#[verifier::external_body]
fn deque_index_mut<T>(entries: &mut VecDeque<T>, index: usize) -> (element: &mut T)
    requires
        index < old(entries)@.len(),
    ensures
        *element == old(entries)@[index as int],
        final(entries)@ == old(entries)@.update(index as int, *final(element)),
{
    &mut entries[index]
}

/// The outcome of a replay that is still under way: the operations taken so
/// far, followed by what is left to do.
spec fn continued<T>(
    done: Seq<ViewOp>,
    rest: Result<(Seq<Materialized<T>>, Seq<ViewOp>), LogicError>,
) -> Result<(Seq<Materialized<T>>, Seq<ViewOp>), LogicError> {
    match rest {
        Ok((views, ops)) => Ok((views, done + ops)),
        Err(e) => Err(e),
    }
}

/// One step of a replay under way: the operations of the step join those
/// taken so far, and the rest goes on from the views that the step leaves.
proof fn lemma_replay_step<T>(
    plan: Seq<ChangeType>,
    data: Seq<T>,
    keys: Seq<IndexKey>,
    views: Seq<Materialized<T>>,
    slot: int,
    done: Seq<ViewOp>,
)
    requires
        0 <= slot < plan.len(),
    ensures
        match replay_slot(plan[slot], slot, data, keys, views) {
            Ok((next, ops)) => continued(done, replay_from(plan, data, keys, views, slot)) == continued(
                done + ops,
                replay_from(plan, data, keys, next, slot + 1),
            ),
            Err(e) => continued(done, replay_from(plan, data, keys, views, slot)) == Err::<
                (Seq<Materialized<T>>, Seq<ViewOp>),
                LogicError,
            >(e),
        },
{
    match replay_slot(plan[slot], slot, data, keys, views) {
        Ok((next, ops)) => {
            match replay_from(plan, data, keys, next, slot + 1) {
                Ok((last, rest)) => {
                    assert(done + (ops + rest) =~= (done + ops) + rest);
                },
                Err(_) => {},
            }
        },
        Err(_) => {},
    }
}

/// A copy of the materialized views, for a replay that may yet be given up.
fn copy_mounted<T>(widgets: &VecDeque<Mounted<T>>) -> (copy: VecDeque<Mounted<T>>)
    ensures
        views_of(copy@) == views_of(widgets@),
{
    let mut copy: VecDeque<Mounted<T>> = VecDeque::new();
    let mut slot: usize = 0;
    while slot < widgets.len()
        invariant
            slot <= widgets@.len(),
            copy@.len() == slot,
            forall|i: int|
                0 <= i < slot ==> (#[trigger] copy@[i]).key == widgets@[i].key && copy@[i].shown@
                    == widgets@[i].shown@,
        decreases widgets@.len() - slot,
    {
        let mounted = &widgets[slot];
        copy.push_back(Mounted { key: mounted.key, shown: Ghost(mounted.shown@) });
        slot = slot + 1;
    }
    assert(views_of(copy@) =~= views_of(widgets@));
    copy
}

impl<T> View for FactoryVecDeque<T> {
    type V = DequeModel<T>;

    closed spec fn view(&self) -> DequeModel<T> {
        DequeModel {
            data: data_of(self.data@),
            keys: keys_of(self.data@),
            positions: positions_of(self.handles@),
            views: views_of(self.widgets@),
            pending: self.changes@,
        }
    }
}

impl<T> Default for FactoryVecDeque<T> {
    fn default() -> (deque: Self)
        ensures
            deque@ == DequeModel::<T>::empty(),
            deque@.wf(),
            deque@.converges(),
    {
        FactoryVecDeque::new()
    }
}

impl<T> FactoryVecDeque<T> {
    /// Create a new [`FactoryVecDeque`].
    pub fn new() -> (deque: Self)
        ensures
            deque@ == DequeModel::<T>::empty(),
            deque@.wf(),
            deque@.converges(),
    {
        let deque = FactoryVecDeque {
            data: VecDeque::new(),
            handles: Vec::new(),
            widgets: VecDeque::new(),
            changes: ChangeLog::new(),
        };
        proof {
            assert(deque@ =~= DequeModel::<T>::empty());
            lemma_synced_converges(deque@);
        }
        deque
    }

    /// The number of elements.
    pub fn len(&self) -> (len: usize)
        ensures
            len == self@.len(),
    {
        self.data.len()
    }

    /// Insert an element at the end of a [`FactoryVecDeque`].
    pub fn push_back(&mut self, data: T)
        requires
            old(self)@.wf(),
            old(self)@.len() + 1 < usize::MAX,
        ensures
            final(self)@.wf(),
            final(self)@ == old(self)@.insert(old(self)@.len() as int, data),
            old(self)@.converges() ==> final(self)@.converges(),
    {
        let index = self.data.len();
        let _ = self.insert(index, data);
    }

    /// Remove an element at the end of a [`FactoryVecDeque`].
    pub fn pop_back(&mut self) -> (r: Option<T>)
        requires
            old(self)@.wf(),
        ensures
            final(self)@.wf(),
            old(self)@.len() > 0 ==> r == Some(old(self)@.data[old(self)@.len() - 1])
                && final(self)@ == old(self)@.remove(old(self)@.len() - 1),
            old(self)@.len() == 0 ==> r is None && final(self)@ == old(self)@,
            old(self)@.converges() && (old(self)@.len() > 0 ==> old(self)@.removable(
                old(self)@.len() - 1,
            )) ==> final(self)@.converges(),
    {
        let len = self.data.len();
        if len == 0 {
            return None;
        }
        self.remove(len - 1)
    }

    /// Adds an element at the front.
    pub fn push_front(&mut self, data: T)
        requires
            old(self)@.wf(),
            old(self)@.len() + 1 < usize::MAX,
        ensures
            final(self)@.wf(),
            final(self)@ == old(self)@.insert(0, data),
            old(self)@.converges() ==> final(self)@.converges(),
    {
        let _ = self.insert(0, data);
    }

    /// Removes an element from the front.
    pub fn pop_front(&mut self) -> (r: Option<T>)
        requires
            old(self)@.wf(),
        ensures
            final(self)@.wf(),
            old(self)@.len() > 0 ==> r == Some(old(self)@.data[0])
                && final(self)@ == old(self)@.remove(0),
            old(self)@.len() == 0 ==> r is None && final(self)@ == old(self)@,
            old(self)@.converges() && (old(self)@.len() > 0 ==> old(self)@.removable(0))
                ==> final(self)@.converges(),
    {
        self.remove(0)
    }

    /// Adds an element at a given index. All elements with indices greater
    /// than or equal to `index` are shifted towards the back.
    pub fn insert(&mut self, index: usize, data: T) -> (r: Result<(), OutOfRange>)
        requires
            old(self)@.wf(),
            old(self)@.len() + 1 < usize::MAX,
        ensures
            final(self)@.wf(),
            index <= old(self)@.len() ==> r is Ok && final(self)@ == old(self)@.insert(
                index as int,
                data,
            ),
            index > old(self)@.len() ==> r == Err::<(), OutOfRange>(
                OutOfRange { index, len: old(self)@.len() as usize },
            ) && final(self)@ == old(self)@,
            old(self)@.converges() ==> final(self)@.converges(),
    {
        let len = self.data.len();
        if index > len {
            return Err(OutOfRange { index, len });
        }
        advance_handles(&mut self.handles, &self.data, index);
        self.changes.add_change(Change::new(index, ChangeType::Add));
        let key = IndexKey { id: self.handles.len() };
        proof {
            assert(positions_of(self.handles@).len() == positions_of(old(self).handles@).len());
            assert(key == old(self)@.fresh_key());
        }
        self.handles.push(DynamicIndex::new(index));
        self.data.insert(index, IndexedData::new(data, key));
        proof {
            let before = old(self)@;
            let after = before.insert(index as int, data);
            assert(self.handles@.len() == self.handles.len());
            assert(self@.data =~= after.data);
            assert(self@.keys =~= after.keys);
            assert(self@.positions =~= after.positions);
            assert(self@ =~= after);
            lemma_insert_wf(before, index as int, data);
            if before.converges() {
                lemma_insert_converges(before, index as int, data);
            }
        }
        Ok(())
    }

    /// Removes an element at a given index. All elements behind it are
    /// shifted towards the front.
    pub fn remove(&mut self, index: usize) -> (r: Option<T>)
        requires
            old(self)@.wf(),
        ensures
            final(self)@.wf(),
            index < old(self)@.len() ==> r == Some(old(self)@.data[index as int]) && final(self)@
                == old(self)@.remove(index as int),
            index >= old(self)@.len() ==> r is None && final(self)@ == old(self)@,
            old(self)@.converges() && (index < old(self)@.len() ==> old(self)@.removable(
                index as int,
            )) ==> final(self)@.converges(),
    {
        if index >= self.data.len() {
            return None;
        }
        retreat_handles(&mut self.handles, &self.data, index);
        self.changes.add_change(Change::new(index, ChangeType::Remove));
        let entry = self.data.remove(index);
        proof {
            let before = old(self)@;
            let after = before.remove(index as int);
            assert(self@.data =~= after.data);
            assert(self@.keys =~= after.keys);
            assert(self@.positions =~= after.positions);
            assert(self@ =~= after);
            lemma_remove_wf(before, index as int);
            if before.converges() && before.removable(index as int) {
                lemma_remove_converges(before, index as int);
            }
        }
        match entry {
            Some(entry) => Some(entry.inner),
            None => None,
        }
    }

    /// Get a reference to data stored at `index`.
    pub fn get(&self, index: usize) -> (r: Result<&T, OutOfRange>)
        ensures
            index < self@.len() ==> r == Ok::<&T, OutOfRange>(&self@.data[index as int]),
            index >= self@.len() ==> r == Err::<&T, OutOfRange>(
                OutOfRange { index, len: self@.len() as usize },
            ),
    {
        let len = self.data.len();
        if index < len {
            Ok(&self.data[index].inner)
        } else {
            Err(OutOfRange { index, len })
        }
    }

    /// Get a mutable reference to data stored at `index`.
    ///
    /// Assumes that the data will be modified and the corresponding view
    /// needs to be updated.
    pub fn get_mut(&mut self, index: usize) -> (r: Result<&mut T, OutOfRange>)
        requires
            old(self)@.wf(),
        ensures
            final(self)@.wf(),
            match r {
                Ok(element) => index < old(self)@.len() && *element == old(self)@.data[index as int]
                    && final(self)@ == old(self)@.update(index as int, *final(element)),
                Err(e) => index >= old(self)@.len() && e == (OutOfRange {
                    index,
                    len: old(self)@.len() as usize,
                }) && final(self)@ == old(self)@,
            },
            old(self)@.converges() && (index < old(self)@.len() ==> old(self)@.updatable(
                index as int,
            )) ==> final(self)@.converges(),
    {
        let len = self.data.len();
        if index >= len {
            return Err(OutOfRange { index, len });
        }
        self.changes.add_change(Change::new(index, ChangeType::Update));
        proof {
            let before = old(self)@;
            let entries = self.data@;
            assert forall|value: T| #[trigger] before.update(index as int, value).wf() by {
                lemma_update_wf(before, index as int, value);
            }
            assert forall|value: T|
                before.converges() && before.updatable(index as int) implies #[trigger] before.update(
                index as int,
                value,
            ).converges() by {
                lemma_update_converges(before, index as int, value);
            }
            assert forall|entry: IndexedData<T>| entry.key == entries[index as int].key implies {
                let changed = #[trigger] entries.update(index as int, entry);
                &&& data_of(changed) =~= before.data.update(index as int, entry.inner)
                &&& keys_of(changed) =~= before.keys
            } by {}
        }
        let entry = deque_index_mut(&mut self.data, index);
        Ok(&mut entry.inner)
    }

    /// The key of the position handle of the element at `index`.
    pub fn key(&self, index: usize) -> (r: Option<IndexKey>)
        ensures
            r == if index < self@.len() {
                Some(self@.keys[index as int])
            } else {
                None
            },
    {
        if index < self.data.len() {
            Some(self.data[index].key)
        } else {
            None
        }
    }

    /// The position handle that `key` names, if this collection ever handed
    /// out such a key. The handle of an element that has left the collection
    /// still reads the slot the element had when it left.
    pub fn dynamic_index(&self, key: IndexKey) -> (r: Option<&DynamicIndex>)
        ensures
            key.id < self@.positions.len() ==> r is Some
                && r->Some_0@ == self@.positions[key.id as int],
            key.id >= self@.positions.len() ==> r is None,
    {
        if key.id < self.handles.len() {
            Some(&self.handles[key.id])
        } else {
            None
        }
    }

    /// The changes recorded since the last reconciliation, oldest first.
    pub fn pending(&self) -> (log: &ChangeLog)
        ensures
            log@ == self@.pending,
    {
        &self.changes
    }

    /// The plan that the pending changes compile to: one decision per slot
    /// and one for the slot behind the last.
    pub fn compile_changes(&self) -> (r: Result<Vec<ChangeType>, LogicError>)
        requires
            self@.wf(),
        ensures
            match self@.plan() {
                Ok(plan) => r is Ok && r->Ok_0@ == plan,
                Err(e) => r == Err::<Vec<ChangeType>, LogicError>(e),
            },
    {
        self.changes.compile_changes(self.data.len())
    }

    /// The views and the view operations that a replay of `change_map`
    /// leaves, without touching the views that stand.
    fn replayed(&self, change_map: &Vec<ChangeType>) -> (r: Result<
        (VecDeque<Mounted<T>>, Vec<ViewOp>),
        LogicError,
    >)
        ensures
            match replay_from(change_map@, self@.data, self@.keys, self@.views, 0) {
                Ok((views, ops)) => r is Ok && views_of(r->Ok_0.0@) == views && r->Ok_0.1@ == ops,
                Err(e) => r is Err && r->Err_0 == e,
            },
            r is Ok ==> ops_fit(r->Ok_0.1@, self@.views.len() as int, self@.len() as int),
    {
        let mut widgets = copy_mounted(&self.widgets);
        let mut ops: Vec<ViewOp> = Vec::new();
        let ghost plan = change_map@;
        let ghost data = self@.data;
        let ghost keys = self@.keys;
        let ghost goal = replay_from(plan, data, keys, self@.views, 0);
        assert(continued(ops@, goal) == goal) by {
            match goal {
                Ok((views, rest)) => {
                    assert(ops@ + rest =~= rest);
                },
                Err(_) => {},
            }
        }
        let mut index: usize = 0;
        while index < change_map.len()
            invariant
                index <= change_map@.len(),
                plan == change_map@,
                goal == replay_from(plan, data, keys, self@.views, 0),
                data == data_of(self.data@),
                keys == keys_of(self.data@),
                goal == continued(
                    ops@,
                    replay_from(plan, data, keys, views_of(widgets@), index as int),
                ),
            decreases change_map@.len() - index,
        {
            let ghost views = views_of(widgets@);
            let ghost done = ops@;
            proof {
                lemma_replay_step(plan, data, keys, views, index as int, done);
            }
            match change_map[index] {
                ChangeType::Unchanged => {
                    assert(done + Seq::<ViewOp>::empty() =~= done);
                },
                ChangeType::Add => {
                    if index >= self.data.len() {
                        return Err(LogicError::MissingEntry { slot: index });
                    }
                    if index > widgets.len() {
                        return Err(LogicError::MissingView { slot: index - 1 });
                    }
                    if widgets.len() == 0 || index == 0 {
                        ops.push(ViewOp::PushFront { slot: index });
                    } else {
                        ops.push(ViewOp::InsertAfter { slot: index });
                    }
                    let entry = &self.data[index];
                    widgets.insert(index, Mounted { key: entry.key, shown: Ghost(entry.inner) });
                    proof {
                        let fresh = Materialized {
                            key: keys[index as int],
                            shown: data[index as int],
                        };
                        assert(views_of(widgets@) =~= views.insert(index as int, fresh));
                        assert(ops@ =~= done + seq![placement(views.len() as int, index as int)]);
                    }
                },
                ChangeType::Update => {
                    if index >= self.data.len() {
                        return Err(LogicError::MissingEntry { slot: index });
                    }
                    if index >= widgets.len() {
                        return Err(LogicError::MissingView { slot: index });
                    }
                    ops.push(ViewOp::Update { slot: index });
                    let entry = &self.data[index];
                    let mounted = deque_index_mut(&mut widgets, index);
                    mounted.shown = Ghost(entry.inner);
                    proof {
                        let shown = Materialized {
                            key: views[index as int].key,
                            shown: data[index as int],
                        };
                        assert(views_of(widgets@) =~= views.update(index as int, shown));
                        assert(ops@ =~= done + seq![ViewOp::Update { slot: index }]);
                    }
                },
                ChangeType::Remove => {
                    if index >= widgets.len() {
                        return Err(LogicError::MissingView { slot: index });
                    }
                    ops.push(ViewOp::Remove { slot: index });
                    let _ = widgets.remove(index);
                    proof {
                        assert(views_of(widgets@) =~= views.remove(index as int));
                        assert(ops@ =~= done + seq![ViewOp::Remove { slot: index }]);
                    }
                },
                ChangeType::Recreate => {
                    if index >= widgets.len() {
                        return Err(LogicError::MissingView { slot: index });
                    }
                    if index >= self.data.len() {
                        return Err(LogicError::MissingEntry { slot: index });
                    }
                    ops.push(ViewOp::Remove { slot: index });
                    let _ = widgets.remove(index);
                    if widgets.len() == 0 || index == 0 {
                        ops.push(ViewOp::PushFront { slot: index });
                    } else {
                        ops.push(ViewOp::InsertAfter { slot: index });
                    }
                    let entry = &self.data[index];
                    widgets.insert(index, Mounted { key: entry.key, shown: Ghost(entry.inner) });
                    proof {
                        let fresh = Materialized {
                            key: keys[index as int],
                            shown: data[index as int],
                        };
                        assert(views_of(widgets@) =~= views.remove(index as int).insert(
                            index as int,
                            fresh,
                        ));
                        assert(ops@ =~= done + seq![
                            ViewOp::Remove { slot: index },
                            placement(views.len() - 1, index as int),
                        ]);
                    }
                },
            }
            index = index + 1;
        }
        proof {
            assert(ops@ + Seq::<ViewOp>::empty() =~= ops@);
            lemma_replay_ops_fit(plan, data, keys, self@.views, 0);
        }
        Ok((widgets, ops))
    }

    /// Replays `change_map` against the materialized views, slot by slot in
    /// ascending order, and returns the operations that do the same to the
    /// external view, in the order in which they are to be carried out.
    ///
    /// Where a step addresses a view or an entry that does not exist, the
    /// error is returned before anything has changed, and no operation is
    /// handed out.
    pub fn replay(&mut self, change_map: &Vec<ChangeType>) -> (r: Result<Vec<ViewOp>, LogicError>)
        requires
            old(self)@.wf(),
        ensures
            final(self)@.wf(),
            match old(self)@.replay(change_map@) {
                Ok((after, ops)) => r is Ok && r->Ok_0@ == ops && final(self)@ == after,
                Err(e) => r == Err::<Vec<ViewOp>, LogicError>(e) && final(self)@ == old(self)@,
            },
            r is Ok ==> ops_fit(
                r->Ok_0@,
                old(self)@.views.len() as int,
                old(self)@.len() as int,
            ),
    {
        let (widgets, ops) = match self.replayed(change_map) {
            Ok(replayed) => replayed,
            Err(e) => {
                return Err(e);
            },
        };
        self.widgets = widgets;
        proof {
            let after = old(self)@.replay(change_map@)->Ok_0.0;
            assert(self@ =~= after);
        }
        Ok(ops)
    }

    /// Brings the materialized views in line with the elements: compiles the
    /// pending changes, replays the plan, and clears the log. Returns the
    /// operations that do the same to the external view, in the order in
    /// which they are to be carried out.
    ///
    /// Where the pending changes do not compile, or the plan cannot be
    /// replayed or would not leave one view for each element, the error is
    /// returned before anything has changed, and no operation is handed out.
    pub fn reconcile(&mut self) -> (r: Result<Vec<ViewOp>, LogicError>)
        requires
            old(self)@.wf(),
        ensures
            final(self)@.wf(),
            match old(self)@.reconcile() {
                Ok((after, ops)) => r is Ok && r->Ok_0@ == ops && final(self)@ == after,
                Err(e) => r == Err::<Vec<ViewOp>, LogicError>(e) && final(self)@ == old(self)@,
            },
            old(self)@.converges() ==> r is Ok && final(self)@.synced()
                && final(self)@.converges(),
            r is Ok ==> final(self)@.views.len() == final(self)@.len()
                && final(self)@.pending.len() == 0,
            r is Ok ==> ops_fit(
                r->Ok_0@,
                old(self)@.views.len() as int,
                old(self)@.len() as int,
            ),
            old(self)@.pending.len() == 0 && old(self)@.views.len() == old(self)@.len() ==> r is Ok
                && r->Ok_0@.len() == 0 && final(self)@ == old(self)@,
    {
        proof {
            if self@.pending.len() == 0 && self@.views.len() == self@.len() {
                lemma_nothing_pending(self@);
            }
        }
        let change_map = match self.compile_changes() {
            Ok(change_map) => change_map,
            Err(e) => {
                return Err(e);
            },
        };
        let (widgets, ops) = match self.replayed(&change_map) {
            Ok(replayed) => replayed,
            Err(e) => {
                return Err(e);
            },
        };
        if widgets.len() != self.data.len() {
            return Err(LogicError::OutOfLine { views: widgets.len(), entries: self.data.len() });
        }
        self.widgets = widgets;
        self.changes.clear();
        proof {
            let after = old(self)@.reconcile()->Ok_0.0;
            assert(self@.pending =~= after.pending);
            assert(self@ =~= after);
            if old(self)@.converges() {
                lemma_synced_converges(after);
            }
        }
        Ok(ops)
    }

    /// The number of materialized views.
    pub fn views_len(&self) -> (len: usize)
        ensures
            len == self@.views.len(),
    {
        self.widgets.len()
    }

    /// The key of the handle that the view at `slot` was built for.
    pub fn view_key(&self, slot: usize) -> (r: Option<IndexKey>)
        ensures
            r == if slot < self@.views.len() {
                Some(self@.views[slot as int].key)
            } else {
                None
            },
    {
        if slot < self.widgets.len() {
            Some(self.widgets[slot].key)
        } else {
            None
        }
    }
}

} // verus!
