//! Why one reconciliation brings the views in line after a batch of
//! mutations: how each mutation changes the plan that the log compiles to, and
//! how the replay of the changed plan relates to the replay of the old one.

use crate::change::{
    blank, compile, fits, grow, merge_into, record, renumber, shift, Change, ChangeType,
    LogicError,
};
use crate::dynamic_index::IndexKey;
use crate::laws::{lemma_insert_wf, lemma_nothing_pending, lemma_remove_wf, lemma_update_wf};
use crate::model::{
    recorded_kinds, replay_from, replay_slot, DequeModel, Materialized, Mutation, ViewOp,
};
use vstd::prelude::*;

verus! {

/// A log whose records all name slots of the collection or the one behind its
/// last compiles, if at all, to a plan of one slot more than the collection
/// has entries.
pub proof fn lemma_compile_len(log: Seq<Change>, len: nat)
    requires
        fits(log, len as int),
    ensures
        compile(log, len) is Ok ==> compile(log, len)->Ok_0.len() == len + 1,
    decreases log.len(),
{
    if log.len() > 0 {
        lemma_compile_len(log.drop_last(), len);
    }
}

/// The plan after an `Add` at `index` was recorded is the old plan with a
/// slot marked `Add` put in at `index`; a log that did not compile before
/// fails in the same way.
pub proof fn lemma_compile_add(log: Seq<Change>, len: nat, index: int)
    requires
        fits(log, len as int),
        0 <= index <= len,
        len < usize::MAX,
    ensures
        ({
            let by = Change { ty: ChangeType::Add, index: index as usize };
            match compile(log, len) {
                Ok(plan) => compile(record(log, by), len + 1) == Ok::<Seq<ChangeType>, LogicError>(
                    plan.insert(index, ChangeType::Add),
                ),
                Err(e) => compile(record(log, by), len + 1) == Err::<Seq<ChangeType>, LogicError>(e),
            }
        }),
{
    let by = Change { ty: ChangeType::Add, index: index as usize };
    lemma_compile_renumbered_add(log, len, index);
    lemma_compile_len(log, len);
    assert(record(log, by).drop_last() =~= renumber(log, by));
    match compile(log, len) {
        Ok(plan) => {
            let moved = plan.insert(index, ChangeType::Unchanged);
            assert(grow(moved, index) == moved);
            assert(moved.update(index, ChangeType::Add) =~= plan.insert(index, ChangeType::Add));
        },
        Err(_) => {},
    }
}

/// The plan of a log renumbered for an `Add` at `index` is the plan of the
/// log with an unchanged slot put in at `index`.
proof fn lemma_compile_renumbered_add(log: Seq<Change>, len: nat, index: int)
    requires
        fits(log, len as int),
        0 <= index <= len,
        len < usize::MAX,
    ensures
        ({
            let by = Change { ty: ChangeType::Add, index: index as usize };
            match compile(log, len) {
                Ok(plan) => compile(renumber(log, by), len + 1) == Ok::<
                    Seq<ChangeType>,
                    LogicError,
                >(plan.insert(index, ChangeType::Unchanged)),
                Err(e) => compile(renumber(log, by), len + 1) == Err::<Seq<ChangeType>, LogicError>(
                    e,
                ),
            }
        }),
    decreases log.len(),
{
    let by = Change { ty: ChangeType::Add, index: index as usize };
    if log.len() == 0 {
        assert(blank(len + 2) =~= blank(len + 1).insert(index, ChangeType::Unchanged));
    } else {
        let front = log.drop_last();
        let last = log.last();
        lemma_compile_renumbered_add(front, len, index);
        lemma_compile_len(front, len);
        assert(renumber(log, by).drop_last() =~= renumber(front, by));
        assert(renumber(log, by).last() == shift(last, by));
        match compile(front, len) {
            Ok(plan) => {
                let moved = plan.insert(index, ChangeType::Unchanged);
                let at = last.index as int;
                let to = shift(last, by).index as int;
                assert(grow(plan, at) == plan);
                assert(grow(moved, to) == moved);
                assert(moved[to] == plan[at]);
                match plan[at].merge(last.ty) {
                    Some(merged) => {
                        assert(moved.update(to, merged) =~= plan.update(at, merged).insert(
                            index,
                            ChangeType::Unchanged,
                        ));
                    },
                    None => {},
                }
            },
            Err(_) => {},
        }
    }
}

/// The plan after an `Update` at `index` was recorded is the old plan with
/// the `Update` merged into the slot `index`.
pub proof fn lemma_compile_update(log: Seq<Change>, len: nat, index: int)
    requires
        0 <= index <= usize::MAX,
    ensures
        ({
            let by = Change { ty: ChangeType::Update, index: index as usize };
            match compile(log, len) {
                Ok(plan) => compile(record(log, by), len) == merge_into(plan, by),
                Err(e) => compile(record(log, by), len) == Err::<Seq<ChangeType>, LogicError>(e),
            }
        }),
{
    let by = Change { ty: ChangeType::Update, index: index as usize };
    assert(renumber(log, by) =~= log);
    assert(record(log, by).drop_last() =~= log);
}

/// A slot that the plan leaves unchanged has no record in the log.
pub proof fn lemma_unchanged_slot_has_no_record(log: Seq<Change>, len: nat, slot: int)
    requires
        fits(log, len as int),
        recorded_kinds(log),
        0 <= slot <= len,
        compile(log, len) is Ok,
        compile(log, len)->Ok_0[slot] == ChangeType::Unchanged,
    ensures
        forall|k: int| 0 <= k < log.len() ==> (#[trigger] log[k]).index != slot,
    decreases log.len(),
{
    if log.len() > 0 {
        let front = log.drop_last();
        let last = log.last();
        lemma_compile_len(front, len);
        let plan = compile(front, len)->Ok_0;
        assert(grow(plan, last.index as int) == plan);
        assert(last.index != slot);
        lemma_unchanged_slot_has_no_record(front, len, slot);
        assert forall|k: int| 0 <= k < log.len() implies (#[trigger] log[k]).index != slot by {
            if k < front.len() {
                assert(log[k] == front[k]);
            }
        }
    }
}

/// The plan after a `Remove` at `index` was recorded, where the slot behind
/// `index` had no record: the old plan without that slot, and with the
/// `Remove` merged into the slot `index`.
pub proof fn lemma_compile_remove(log: Seq<Change>, len: nat, index: int)
    requires
        fits(log, len as int),
        0 <= index < len,
        len <= usize::MAX,
        forall|k: int| 0 <= k < log.len() ==> (#[trigger] log[k]).index != index + 1,
    ensures
        ({
            let by = Change { ty: ChangeType::Remove, index: index as usize };
            match compile(log, len) {
                Ok(plan) => compile(record(log, by), (len - 1) as nat) == merge_into(
                    plan.remove(index + 1),
                    by,
                ),
                Err(e) => compile(record(log, by), (len - 1) as nat) == Err::<
                    Seq<ChangeType>,
                    LogicError,
                >(e),
            }
        }),
{
    let by = Change { ty: ChangeType::Remove, index: index as usize };
    lemma_compile_renumbered_remove(log, len, index);
    assert(record(log, by).drop_last() =~= renumber(log, by));
}

/// The plan of a log renumbered for a `Remove` at `index`, where the slot
/// behind `index` had no record, is the plan of the log without that slot.
proof fn lemma_compile_renumbered_remove(log: Seq<Change>, len: nat, index: int)
    requires
        fits(log, len as int),
        0 <= index < len,
        len <= usize::MAX,
        forall|k: int| 0 <= k < log.len() ==> (#[trigger] log[k]).index != index + 1,
    ensures
        ({
            let by = Change { ty: ChangeType::Remove, index: index as usize };
            match compile(log, len) {
                Ok(plan) => compile(renumber(log, by), (len - 1) as nat) == Ok::<
                    Seq<ChangeType>,
                    LogicError,
                >(plan.remove(index + 1)),
                Err(e) => compile(renumber(log, by), (len - 1) as nat) == Err::<
                    Seq<ChangeType>,
                    LogicError,
                >(e),
            }
        }),
    decreases log.len(),
{
    let by = Change { ty: ChangeType::Remove, index: index as usize };
    if log.len() == 0 {
        assert(blank(len) =~= blank(len + 1).remove(index + 1));
    } else {
        let front = log.drop_last();
        let last = log.last();
        assert forall|k: int| 0 <= k < front.len() implies (#[trigger] front[k]).index != index
            + 1 by {
            assert(front[k] == log[k]);
        }
        lemma_compile_renumbered_remove(front, len, index);
        lemma_compile_len(front, len);
        assert(renumber(log, by).drop_last() =~= renumber(front, by));
        assert(renumber(log, by).last() == shift(last, by));
        match compile(front, len) {
            Ok(plan) => {
                let moved = plan.remove(index + 1);
                let at = last.index as int;
                let to = shift(last, by).index as int;
                assert(at != index + 1);
                assert(grow(plan, at) == plan);
                assert(grow(moved, to) == moved);
                assert(moved[to] == plan[at]);
                match plan[at].merge(last.ty) {
                    Some(merged) => {
                        assert(moved.update(to, merged) =~= plan.update(at, merged).remove(
                            index + 1,
                        ));
                    },
                    None => {},
                }
            },
            Err(_) => {},
        }
    }
}

/// The views that one step of the replay leaves, if the step can be taken.
spec fn step_views<T>(
    change: ChangeType,
    slot: int,
    data: Seq<T>,
    keys: Seq<IndexKey>,
    views: Seq<Materialized<T>>,
) -> Option<Seq<Materialized<T>>> {
    match replay_slot(change, slot, data, keys, views) {
        Ok((next, _)) => Some(next),
        Err(_) => None,
    }
}

/// The views that the replay from `slot` on leaves, if it can be carried out.
spec fn run_views<T>(
    plan: Seq<ChangeType>,
    data: Seq<T>,
    keys: Seq<IndexKey>,
    views: Seq<Materialized<T>>,
    slot: int,
) -> Option<Seq<Materialized<T>>> {
    match replay_from(plan, data, keys, views, slot) {
        Ok((last, _)) => Some(last),
        Err(_) => None,
    }
}

/// One step of the replay, and the rest of it.
proof fn lemma_run_unfold<T>(
    plan: Seq<ChangeType>,
    data: Seq<T>,
    keys: Seq<IndexKey>,
    views: Seq<Materialized<T>>,
    slot: int,
)
    ensures
        run_views(plan, data, keys, views, slot) == if slot >= plan.len() {
            Some(views)
        } else {
            match step_views(plan[slot], slot, data, keys, views) {
                Some(next) => run_views(plan, data, keys, next, slot + 1),
                None => None,
            }
        },
{
}

/// Where fewer views stand than slots have been passed, a replay that can be
/// carried out changes no view any more.
proof fn lemma_run_short<T>(
    plan: Seq<ChangeType>,
    data: Seq<T>,
    keys: Seq<IndexKey>,
    views: Seq<Materialized<T>>,
    slot: int,
)
    requires
        0 <= slot,
        views.len() < slot,
        run_views(plan, data, keys, views, slot) is Some,
    ensures
        run_views(plan, data, keys, views, slot) == Some(views),
    decreases plan.len() - slot,
{
    lemma_run_unfold(plan, data, keys, views, slot);
    if slot < plan.len() {
        assert(plan[slot] == ChangeType::Unchanged);
        lemma_run_short(plan, data, keys, views, slot + 1);
    }
}

/// The replay from `slot` on leaves the views in front of `slot` alone.
proof fn lemma_run_keeps_front<T>(
    plan: Seq<ChangeType>,
    data: Seq<T>,
    keys: Seq<IndexKey>,
    views: Seq<Materialized<T>>,
    slot: int,
)
    requires
        0 <= slot <= views.len(),
        run_views(plan, data, keys, views, slot) is Some,
    ensures
        ({
            let last = run_views(plan, data, keys, views, slot)->Some_0;
            &&& last.len() >= slot
            &&& forall|j: int| 0 <= j < slot ==> last[j] == views[j]
        }),
    decreases plan.len() - slot,
{
    lemma_run_unfold(plan, data, keys, views, slot);
    if slot < plan.len() {
        let next = step_views(plan[slot], slot, data, keys, views)->Some_0;
        assert(next.len() >= slot);
        assert forall|j: int| 0 <= j < slot implies next[j] == views[j] by {}
        if next.len() >= slot + 1 {
            lemma_run_keeps_front(plan, data, keys, next, slot + 1);
        } else {
            lemma_run_short(plan, data, keys, next, slot + 1);
        }
    }
}

/// The second plan, data and keys are the first with one slot put in
/// somewhere in front of `from`.
spec fn moved_back<T>(
    pa: Seq<ChangeType>,
    da: Seq<T>,
    ka: Seq<IndexKey>,
    pb: Seq<ChangeType>,
    db: Seq<T>,
    kb: Seq<IndexKey>,
    from: int,
) -> bool {
    &&& pb.len() == pa.len() + 1
    &&& db.len() == da.len() + 1
    &&& forall|t: int| from <= t < pa.len() ==> pb[t + 1] == #[trigger] pa[t]
    &&& forall|t: int| from <= t < da.len() ==> db[t + 1] == #[trigger] da[t]
    &&& forall|t: int| from <= t < da.len() ==> kb[t + 1] == #[trigger] ka[t]
}

/// Two replays that differ by one slot put in at or in front of the slot
/// they stand at, and by one view put in at that place, go the same way: one
/// can be carried out if the other can, and they end with views that differ
/// by that one view.
proof fn lemma_run_moved_back<T>(
    pa: Seq<ChangeType>,
    da: Seq<T>,
    ka: Seq<IndexKey>,
    wa: Seq<Materialized<T>>,
    pb: Seq<ChangeType>,
    db: Seq<T>,
    kb: Seq<IndexKey>,
    wb: Seq<Materialized<T>>,
    at: int,
    extra: Materialized<T>,
    slot: int,
)
    requires
        0 <= at <= slot,
        at <= wa.len(),
        wb == wa.insert(at, extra),
        moved_back(pa, da, ka, pb, db, kb, slot),
    ensures
        run_views(pa, da, ka, wa, slot) is Some <==> run_views(pb, db, kb, wb, slot + 1) is Some,
        run_views(pa, da, ka, wa, slot) is Some ==> run_views(pb, db, kb, wb, slot + 1)->Some_0
            == run_views(pa, da, ka, wa, slot)->Some_0.insert(at, extra),
    decreases pa.len() - slot,
{
    lemma_run_unfold(pa, da, ka, wa, slot);
    lemma_run_unfold(pb, db, kb, wb, slot + 1);
    if slot < pa.len() {
        assert(pb[slot + 1] == pa[slot]);
        if slot < da.len() {
            assert(db[slot + 1] == da[slot]);
            assert(kb[slot + 1] == ka[slot]);
        }
        let sa = step_views(pa[slot], slot, da, ka, wa);
        let sb = step_views(pb[slot + 1], slot + 1, db, kb, wb);
        assert(sa is Some <==> sb is Some);
        if sa is Some {
            let na = sa->Some_0;
            let nb = sb->Some_0;
            assert(nb =~= na.insert(at, extra));
            lemma_run_moved_back(pa, da, ka, na, pb, db, kb, nb, at, extra, slot + 1);
        }
    }
}

/// The two plans, data and keys are the same from `from` on.
spec fn same_from<T>(
    pa: Seq<ChangeType>,
    da: Seq<T>,
    ka: Seq<IndexKey>,
    pb: Seq<ChangeType>,
    db: Seq<T>,
    kb: Seq<IndexKey>,
    from: int,
) -> bool {
    &&& pb.len() == pa.len()
    &&& db.len() == da.len()
    &&& forall|t: int| from <= t < pa.len() ==> pb[t] == #[trigger] pa[t]
    &&& forall|t: int| from <= t < da.len() ==> db[t] == #[trigger] da[t]
    &&& forall|t: int| from <= t < da.len() ==> kb[t] == #[trigger] ka[t]
}

/// A view in front of the slot a replay stands at does not matter to the
/// replay: replaced by another, it is found replaced in what the replay
/// leaves.
proof fn lemma_run_framed<T>(
    pa: Seq<ChangeType>,
    da: Seq<T>,
    ka: Seq<IndexKey>,
    wa: Seq<Materialized<T>>,
    pb: Seq<ChangeType>,
    db: Seq<T>,
    kb: Seq<IndexKey>,
    wb: Seq<Materialized<T>>,
    at: int,
    other: Materialized<T>,
    slot: int,
)
    requires
        0 <= at < slot,
        at < wa.len(),
        wb == wa.update(at, other),
        same_from(pa, da, ka, pb, db, kb, slot),
        run_views(pa, da, ka, wa, slot) is Some,
    ensures
        run_views(pb, db, kb, wb, slot) == Some(
            run_views(pa, da, ka, wa, slot)->Some_0.update(at, other),
        ),
    decreases pa.len() - slot,
{
    lemma_run_unfold(pa, da, ka, wa, slot);
    lemma_run_unfold(pb, db, kb, wb, slot);
    if slot < pa.len() {
        assert(pb[slot] == pa[slot]);
        if slot < da.len() {
            assert(db[slot] == da[slot]);
            assert(kb[slot] == ka[slot]);
        }
        let na = step_views(pa[slot], slot, da, ka, wa)->Some_0;
        let sb = step_views(pb[slot], slot, db, kb, wb);
        assert(sb is Some);
        let nb = sb->Some_0;
        assert(nb =~= na.update(at, other));
        lemma_run_framed(pa, da, ka, na, pb, db, kb, nb, at, other, slot + 1);
    }
}

/// The two plans, data and keys are the same in front of `until`, and both
/// reach as far as `until`.
spec fn same_until<T>(
    pa: Seq<ChangeType>,
    da: Seq<T>,
    ka: Seq<IndexKey>,
    pb: Seq<ChangeType>,
    db: Seq<T>,
    kb: Seq<IndexKey>,
    until: int,
) -> bool {
    &&& until <= pa.len()
    &&& until <= pb.len()
    &&& until <= da.len()
    &&& until <= db.len()
    &&& forall|t: int| 0 <= t < until ==> pb[t] == #[trigger] pa[t]
    &&& forall|t: int| 0 <= t < until ==> db[t] == #[trigger] da[t]
    &&& forall|t: int| 0 <= t < until ==> kb[t] == #[trigger] ka[t]
}

/// Two replays that are the same in front of `until` pass through the same
/// views when they reach `until`.
proof fn lemma_runs_meet<T>(
    pa: Seq<ChangeType>,
    da: Seq<T>,
    ka: Seq<IndexKey>,
    pb: Seq<ChangeType>,
    db: Seq<T>,
    kb: Seq<IndexKey>,
    views: Seq<Materialized<T>>,
    slot: int,
    until: int,
) -> (met: Seq<Materialized<T>>)
    requires
        0 <= slot <= until,
        same_until(pa, da, ka, pb, db, kb, until),
        run_views(pa, da, ka, views, slot) is Some,
    ensures
        run_views(pa, da, ka, met, until) == run_views(pa, da, ka, views, slot),
        run_views(pb, db, kb, met, until) == run_views(pb, db, kb, views, slot),
    decreases until - slot,
{
    if slot == until {
        views
    } else {
        lemma_run_unfold(pa, da, ka, views, slot);
        lemma_run_unfold(pb, db, kb, views, slot);
        assert(pb[slot] == pa[slot]);
        assert(db[slot] == da[slot]);
        assert(kb[slot] == ka[slot]);
        let next = step_views(pa[slot], slot, da, ka, views)->Some_0;
        assert(step_views(pb[slot], slot, db, kb, views) == Some(next));
        lemma_runs_meet(pa, da, ka, pb, db, kb, next, slot + 1, until)
    }
}

/// A collection whose views are in line, with nothing pending, stays so
/// under a reconciliation.
pub proof fn lemma_synced_converges<T>(m: DequeModel<T>)
    requires
        m.synced(),
    ensures
        m.converges(),
        m.reconcile() == Ok::<(DequeModel<T>, Seq<ViewOp>), LogicError>((m, Seq::empty())),
{
    lemma_nothing_pending(m);
}

/// Where one reconciliation brings the views in line, it leaves as many
/// views as there are elements, each built for the handle of the element at
/// its slot and showing that element, and nothing pending.
pub proof fn lemma_reconcile_brings_in_line<T>(m: DequeModel<T>)
    requires
        m.converges(),
    ensures
        m.reconcile() is Ok,
        ({
            let after = m.reconcile()->Ok_0.0;
            &&& after.synced()
            &&& after.data == m.data
            &&& after.keys == m.keys
            &&& after.positions == m.positions
            &&& after.views.len() == m.len()
            &&& forall|slot: int|
                0 <= slot < m.len() ==> (#[trigger] after.views[slot]) == (Materialized {
                    key: m.keys[slot],
                    shown: m.data[slot],
                })
        }),
{
}

/// Inserting an element keeps a collection within what one reconciliation
/// brings in line.
pub proof fn lemma_insert_converges<T>(m: DequeModel<T>, index: int, value: T)
    requires
        m.wf(),
        m.converges(),
        0 <= index <= m.len(),
        m.len() + 1 < usize::MAX,
    ensures
        m.insert(index, value).converges(),
{
    let len = m.len();
    let after = m.insert(index, value);
    let pa = m.plan()->Ok_0;
    lemma_compile_add(m.pending, len, index);
    lemma_compile_len(m.pending, len);
    let pb = pa.insert(index, ChangeType::Add);
    assert(after.plan() == Ok::<Seq<ChangeType>, LogicError>(pb));
    let (da, ka) = (m.data, m.keys);
    let (db, kb) = (after.data, after.keys);
    let target = m.current_views();
    assert(run_views(pa, da, ka, m.views, 0) == Some(target));
    let met = lemma_runs_meet(pa, da, ka, pb, db, kb, m.views, 0, index);
    if met.len() < index {
        lemma_run_short(pa, da, ka, met, index);
    }
    let extra = Materialized { key: m.fresh_key(), shown: value };
    let put = met.insert(index, extra);
    lemma_run_unfold(pb, db, kb, met, index);
    assert(step_views(pb[index], index, db, kb, met) == Some(put));
    lemma_run_moved_back(pa, da, ka, met, pb, db, kb, put, index, extra, index);
    assert(target.insert(index, extra) =~= after.current_views());
}

/// Handing an element out for mutation keeps a collection within what one
/// reconciliation brings in line, unless the element's slot is marked for
/// removal already.
pub proof fn lemma_update_converges<T>(m: DequeModel<T>, index: int, value: T)
    requires
        m.wf(),
        m.converges(),
        0 <= index < m.len(),
        m.updatable(index),
    ensures
        m.update(index, value).converges(),
{
    let len = m.len();
    let after = m.update(index, value);
    let pa = m.plan()->Ok_0;
    lemma_compile_update(m.pending, len, index);
    lemma_compile_len(m.pending, len);
    let by = Change { ty: ChangeType::Update, index: index as usize };
    assert(grow(pa, index) == pa);
    let pb = merge_into(pa, by)->Ok_0;
    assert(after.plan() == Ok::<Seq<ChangeType>, LogicError>(pb));
    let (da, ka) = (m.data, m.keys);
    let (db, kb) = (after.data, after.keys);
    let target = m.current_views();
    assert(run_views(pa, da, ka, m.views, 0) == Some(target));
    let met = lemma_runs_meet(pa, da, ka, pb, db, kb, m.views, 0, index);
    lemma_run_unfold(pa, da, ka, met, index);
    lemma_run_unfold(pb, db, kb, met, index);
    if pa[index] == ChangeType::Unchanged && met.len() < index + 1 {
        lemma_run_short(pa, da, ka, met, index + 1);
    }
    let na = step_views(pa[index], index, da, ka, met)->Some_0;
    let sb = step_views(pb[index], index, db, kb, met);
    assert(sb is Some);
    let nb = sb->Some_0;
    let other = Materialized { key: na[index].key, shown: value };
    assert(nb =~= na.update(index, other));
    lemma_run_framed(pa, da, ka, na, pb, db, kb, nb, index, other, index + 1);
    lemma_run_keeps_front(pa, da, ka, na, index + 1);
    assert(target[index] == na[index]);
    assert(target.update(index, other) =~= after.current_views());
}

/// Handing out an element whose slot is marked for removal makes the log one
/// that does not compile: the next reconciliation reports the update that
/// cannot follow the removal, and does nothing else.
pub proof fn lemma_update_of_removed_is_refused<T>(m: DequeModel<T>, index: int, value: T)
    requires
        m.wf(),
        0 <= index < m.len(),
        m.plan() is Ok,
        m.plan()->Ok_0[index] == ChangeType::Remove,
    ensures
        m.update(index, value).reconcile() == Err::<(DequeModel<T>, Seq<ViewOp>), LogicError>(
            LogicError::UnexpectedChange {
                current: ChangeType::Remove,
                incoming: ChangeType::Update,
            },
        ),
{
    lemma_compile_update(m.pending, m.len(), index);
    lemma_compile_len(m.pending, m.len());
    assert(grow(m.plan()->Ok_0, index) == m.plan()->Ok_0);
}

/// Removing an element keeps a collection within what one reconciliation
/// brings in line, where the element's slot is not marked as added or for
/// removal, and the slot behind it is marked with nothing.
pub proof fn lemma_remove_converges<T>(m: DequeModel<T>, index: int)
    requires
        m.wf(),
        m.converges(),
        0 <= index < m.len(),
        m.removable(index),
    ensures
        m.remove(index).converges(),
{
    let len = m.len();
    let after = m.remove(index);
    let pa = m.plan()->Ok_0;
    lemma_compile_len(m.pending, len);
    lemma_unchanged_slot_has_no_record(m.pending, len, index + 1);
    lemma_compile_remove(m.pending, len, index);
    let by = Change { ty: ChangeType::Remove, index: index as usize };
    let cut = pa.remove(index + 1);
    assert(grow(cut, index) == cut);
    assert(cut[index] == pa[index]);
    let pb = cut.update(index, ChangeType::Remove);
    assert(merge_into(cut, by) == Ok::<Seq<ChangeType>, LogicError>(pb));
    assert(after.plan() == Ok::<Seq<ChangeType>, LogicError>(pb));
    let (da, ka) = (m.data, m.keys);
    let (db, kb) = (after.data, after.keys);
    let target = m.current_views();
    assert(run_views(pa, da, ka, m.views, 0) == Some(target));
    let met = lemma_runs_meet(pa, da, ka, pb, db, kb, m.views, 0, index);
    lemma_run_unfold(pa, da, ka, met, index);
    let na = step_views(pa[index], index, da, ka, met)->Some_0;
    lemma_run_unfold(pa, da, ka, na, index + 1);
    assert(run_views(pa, da, ka, na, index + 2) == Some(target));
    if pa[index] == ChangeType::Unchanged && met.len() < index + 1 {
        lemma_run_short(pa, da, ka, met, index + 2);
    }
    assert(index < met.len());
    let taken = met.remove(index);
    lemma_run_unfold(pb, db, kb, met, index);
    assert(step_views(pb[index], index, db, kb, met) == Some(taken));
    let extra = na[index];
    assert(na =~= taken.insert(index, extra));
    lemma_run_moved_back(pb, db, kb, taken, pa, da, ka, na, index, extra, index + 1);
    let last = run_views(pb, db, kb, taken, index + 1)->Some_0;
    if taken.len() >= index + 1 {
        lemma_run_keeps_front(pb, db, kb, taken, index + 1);
    } else {
        lemma_run_short(pb, db, kb, taken, index + 1);
    }
    assert(last =~= last.insert(index, extra).remove(index));
    assert(target.remove(index) =~= after.current_views());
}

/// A batch of admitted mutations keeps a collection well formed and within
/// what one reconciliation brings in line.
pub proof fn lemma_batch_converges<T>(m: DequeModel<T>, batch: Seq<Mutation<T>>)
    requires
        m.wf(),
        m.converges(),
        m.admits_all(batch),
    ensures
        m.apply_all(batch).wf(),
        m.apply_all(batch).converges(),
    decreases batch.len(),
{
    if batch.len() > 0 {
        match batch[0] {
            Mutation::Insert { index, value } => {
                lemma_insert_wf(m, index, value);
                lemma_insert_converges(m, index, value);
            },
            Mutation::Remove { index } => {
                lemma_remove_wf(m, index);
                lemma_remove_converges(m, index);
            },
            Mutation::Update { index, value } => {
                lemma_update_wf(m, index, value);
                lemma_update_converges(m, index, value);
            },
        }
        lemma_batch_converges(m.apply(batch[0]), batch.drop_first());
    }
}

/// After any batch of admitted mutations of a collection whose views were
/// in line, one reconciliation can be carried out, and leaves as many views
/// as there are elements, each built for the handle of the element at its
/// slot and showing that element as it is.
pub proof fn lemma_reconcile_after_batch<T>(m: DequeModel<T>, batch: Seq<Mutation<T>>)
    requires
        m.wf(),
        m.synced(),
        m.admits_all(batch),
    ensures
        ({
            let changed = m.apply_all(batch);
            &&& changed.reconcile() is Ok
            &&& changed.reconcile()->Ok_0.0.synced()
            &&& changed.reconcile()->Ok_0.0.views.len() == changed.len()
            &&& forall|slot: int|
                0 <= slot < changed.len() ==> (#[trigger] changed.reconcile()->Ok_0.0.views[slot])
                    == (Materialized { key: changed.keys[slot], shown: changed.data[slot] })
        }),
{
    lemma_synced_converges(m);
    lemma_batch_converges(m, batch);
    lemma_reconcile_brings_in_line(m.apply_all(batch));
}

} // verus!
