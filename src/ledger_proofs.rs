use vstd::prelude::*;

use crate::executor_info::{ExecutorData, ExecutorHeartbeat, ExecutorMetadata};
use crate::executor_manager::{
    after_cancel, after_reserve, all_known, candidates, expired, ledger_ok, registered_slots,
    saved_heartbeats, without,
};
use crate::keyed::{
    has_key, index_of, lemma_keyed_push, lemma_keyed_update, unique_keys, upsert_seq, Keyed,
};
use crate::reservation::ExecutorReservation;
use crate::slots::{count_for, lemma_count_push, lemma_psum_nonneg, min, total_slots};

verus! {

/// Every executor's free slots and the reservations outstanding on it add up to its slots.
pub open spec fn conserved(l: Seq<ExecutorData>, outstanding: Seq<ExecutorReservation>) -> bool {
    forall|i: int|
        0 <= i < l.len() ==> (#[trigger] l[i]).available_task_slots + count_for(outstanding, l[i].executor_id@)
            == l[i].total_task_slots
}

/// No executor has fewer free slots than the reservations `r` take from it.
pub open spec fn covered(l: Seq<ExecutorData>, r: Seq<ExecutorReservation>) -> bool {
    forall|i: int|
        0 <= i < l.len() ==> count_for(r, (#[trigger] l[i]).executor_id@) <= l[i].available_task_slots
}

/// Free slots of the first `i` executors of the ledger.
pub open spec fn available_sum(l: Seq<ExecutorData>, i: int) -> int
    decreases i,
{
    if i <= 0 || i > l.len() {
        0
    } else {
        available_sum(l, i - 1) + l[i - 1].available_task_slots
    }
}

/// Reservations of `r` on the first `i` executors of the ledger.
pub open spec fn count_sum(l: Seq<ExecutorData>, r: Seq<ExecutorReservation>, i: int) -> int
    decreases i,
{
    if i <= 0 || i > l.len() {
        0
    } else {
        count_sum(l, r, i - 1) + count_for(r, l[i - 1].executor_id@)
    }
}

pub proof fn lemma_count_concat(a: Seq<ExecutorReservation>, b: Seq<ExecutorReservation>, id: Seq<char>)
    ensures
        count_for(a + b, id) == count_for(a, id) + count_for(b, id),
    decreases b.len(),
{
    if b.len() == 0 {
        assert(a + b =~= a);
    } else {
        let b0 = b.drop_last();
        lemma_count_concat(a, b0, id);
        assert(a + b =~= (a + b0).push(b.last()));
        assert(b =~= b0.push(b.last()));
        lemma_count_push(a + b0, b.last(), id);
        lemma_count_push(b0, b.last(), id);
    }
}

proof fn lemma_count_sum_step(l: Seq<ExecutorData>, r: Seq<ExecutorReservation>, x: ExecutorReservation, j: int, i: int)
    requires
        unique_keys(l),
        0 <= j < l.len(),
        l[j].executor_id@ == x.executor_id@,
        0 <= i <= l.len(),
    ensures
        count_sum(l, r.push(x), i) == count_sum(l, r, i) + if j < i { 1int } else { 0int },
    decreases i,
{
    if i > 0 {
        lemma_count_sum_step(l, r, x, j, i - 1);
        lemma_count_push(r, x, l[i - 1].executor_id@);
        if i - 1 != j {
            assert(l[i - 1].key() != l[j].key());
        }
    }
}

/// When every reservation is bound to an executor of the ledger, the ledger accounts for each once.
pub proof fn lemma_count_sum_all(l: Seq<ExecutorData>, r: Seq<ExecutorReservation>)
    requires
        unique_keys(l),
        all_known(l, r),
    ensures
        count_sum(l, r, l.len() as int) == r.len(),
    decreases r.len(),
{
    if r.len() == 0 {
        lemma_count_sum_zero(l, r, l.len() as int);
    } else {
        let r0 = r.drop_last();
        let x = r.last();
        assert(has_key(l, r[r.len() - 1].executor_id@));
        let j = index_of(l, x.executor_id@);
        assert forall|k: int| 0 <= k < r0.len() implies has_key(l, (#[trigger] r0[k]).executor_id@) by {
            assert(r0[k] == r[k]);
        }
        lemma_count_sum_all(l, r0);
        assert(r =~= r0.push(x));
        lemma_count_sum_step(l, r0, x, j, l.len() as int);
    }
}

proof fn lemma_count_sum_zero(l: Seq<ExecutorData>, r: Seq<ExecutorReservation>, i: int)
    requires
        r.len() == 0,
    ensures
        count_sum(l, r, i) == 0,
    decreases i,
{
    if i > 0 && i <= l.len() {
        lemma_count_sum_zero(l, r, i - 1);
    }
}

proof fn lemma_available_after_reserve(l: Seq<ExecutorData>, r: Seq<ExecutorReservation>, i: int)
    requires
        covered(l, r),
        0 <= i <= l.len(),
    ensures
        available_sum(after_reserve(l, r), i) == available_sum(l, i) - count_sum(l, r, i),
    decreases i,
{
    if i > 0 {
        lemma_available_after_reserve(l, r, i - 1);
        assert(count_for(r, l[i - 1].executor_id@) <= l[i - 1].available_task_slots);
    }
}

/// Taking reservations keeps every executor's slots, and the free slots with the
/// reservations outstanding still add up to them: nothing is lost or made up.
pub proof fn reserve_conserves_slots(
    l: Seq<ExecutorData>,
    outstanding: Seq<ExecutorReservation>,
    r: Seq<ExecutorReservation>,
)
    requires
        conserved(l, outstanding),
        covered(l, r),
    ensures
        after_reserve(l, r).len() == l.len(),
        forall|i: int|
            0 <= i < l.len() ==> (#[trigger] after_reserve(l, r)[i]).total_task_slots == l[i].total_task_slots,
        conserved(after_reserve(l, r), outstanding + r),
{
    let t = after_reserve(l, r);
    assert forall|i: int| 0 <= i < t.len() implies (#[trigger] t[i]).available_task_slots + count_for(
        outstanding + r,
        t[i].executor_id@,
    ) == t[i].total_task_slots by {
        lemma_count_concat(outstanding, r, l[i].executor_id@);
        assert(count_for(r, l[i].executor_id@) <= l[i].available_task_slots);
    }
}

/// Handing reservations back keeps every executor's slots, and the free slots with the
/// reservations still outstanding add up to them.
pub proof fn cancel_conserves_slots(
    l: Seq<ExecutorData>,
    outstanding: Seq<ExecutorReservation>,
    r: Seq<ExecutorReservation>,
)
    requires
        conserved(l, outstanding + r),
    ensures
        after_cancel(l, r).len() == l.len(),
        forall|i: int|
            0 <= i < l.len() ==> (#[trigger] after_cancel(l, r)[i]).total_task_slots == l[i].total_task_slots,
        conserved(after_cancel(l, r), outstanding),
{
    let t = after_cancel(l, r);
    assert forall|i: int| 0 <= i < t.len() implies (#[trigger] t[i]).available_task_slots + count_for(
        outstanding,
        t[i].executor_id@,
    ) == t[i].total_task_slots by {
        lemma_count_concat(outstanding, r, l[i].executor_id@);
        assert(l[i].available_task_slots + count_for(outstanding + r, l[i].executor_id@) == l[i].total_task_slots);
    }
}

/// Handing back the reservations just taken restores the ledger.
pub proof fn cancel_undoes_reserve(l: Seq<ExecutorData>, r: Seq<ExecutorReservation>)
    requires
        covered(l, r),
    ensures
        after_cancel(after_reserve(l, r), r) == l,
{
    let t = after_cancel(after_reserve(l, r), r);
    assert forall|i: int| 0 <= i < l.len() implies #[trigger] t[i] == l[i] by {
        assert(count_for(r, l[i].executor_id@) <= l[i].available_task_slots);
    }
    assert(t =~= l);
}

/// The free slots of the whole ledger drop by exactly the number of reservations taken,
/// so no more can be taken than are free.
pub proof fn reserve_takes_exactly(l: Seq<ExecutorData>, r: Seq<ExecutorReservation>)
    requires
        ledger_ok(l),
        covered(l, r),
        all_known(l, r),
    ensures
        available_sum(after_reserve(l, r), l.len() as int) == available_sum(l, l.len() as int) - r.len(),
        r.len() <= available_sum(l, l.len() as int),
{
    lemma_available_after_reserve(l, r, l.len() as int);
    lemma_count_sum_all(l, r);
    lemma_available_sum_nonneg(after_reserve(l, r), l.len() as int);
}

proof fn lemma_available_sum_nonneg(l: Seq<ExecutorData>, i: int)
    ensures
        available_sum(l, i) >= 0,
    decreases i,
{
    if i > 0 && i <= l.len() {
        lemma_available_sum_nonneg(l, i - 1);
    }
}

/// Asking for no slot takes none and leaves the ledger as it was.
pub proof fn reserve_nothing(l: Seq<ExecutorData>, hbs: Map<Seq<char>, ExecutorHeartbeat>, threshold: u64)
    ensures
        min(0, total_slots(candidates(l, hbs, threshold))) == 0,
        after_reserve(l, Seq::<ExecutorReservation>::empty()) == l,
{
    let c = candidates(l, hbs, threshold);
    lemma_psum_nonneg(c, c.len() as int);
    let t = after_reserve(l, Seq::<ExecutorReservation>::empty());
    assert forall|i: int| 0 <= i < l.len() implies #[trigger] t[i] == l[i] by {
        assert(count_for(Seq::<ExecutorReservation>::empty(), l[i].executor_id@) == 0);
    }
    assert(t =~= l);
}

/// An exact reservation of `n` slots when only `n - 1` are free takes nothing.
pub proof fn reserve_exact_short(l: Seq<ExecutorData>, hbs: Map<Seq<char>, ExecutorHeartbeat>, threshold: u64, n: u32)
    requires
        n >= 1,
        total_slots(candidates(l, hbs, threshold)) == n - 1,
    ensures
        (if total_slots(candidates(l, hbs, threshold)) >= n { n as int } else { 0 }) == 0,
        after_reserve(l, Seq::<ExecutorReservation>::empty()) == l,
{
    reserve_nothing(l, hbs, threshold);
}

/// Saving a heartbeat never moves back the time at which an executor was last seen.
pub proof fn heartbeat_never_regresses(m: Map<Seq<char>, ExecutorHeartbeat>, hb: ExecutorHeartbeat, id: Seq<char>)
    requires
        m.contains_key(id),
    ensures
        saved_heartbeats(m, hb).contains_key(id),
        saved_heartbeats(m, hb)[id].timestamp >= m[id].timestamp,
{
}

/// Once the expired executors are removed, none that remains is expired, so a second
/// expiry at the same time announces no loss again.
pub proof fn expiry_leaves_none_expired(
    m: Map<Seq<char>, ExecutorHeartbeat>,
    ids: Seq<Seq<char>>,
    now: u64,
    timeout: u64,
)
    requires
        forall|id: Seq<char>| #[trigger] ids.contains(id) <==> m.contains_key(id) && expired(m[id], now, timeout),
    ensures
        forall|id: Seq<char>| #[trigger]
            without(m, ids).contains_key(id) ==> !expired(without(m, ids)[id], now, timeout),
{
}

/// What was saved as an executor's metadata is what is then read back for its id.
pub proof fn metadata_round_trip(m: Map<Seq<char>, ExecutorMetadata>, metadata: ExecutorMetadata)
    ensures
        m.insert(metadata.id@, metadata).contains_key(metadata.id@),
        m.insert(metadata.id@, metadata)[metadata.id@] == metadata,
{
}

/// Registering the same executor twice leaves the metadata and the slot ledger as
/// registering it once does; the ledger entry holds all slots free without `reserve`,
/// and none free with it.
pub proof fn reregistration_is_idempotent(
    m: Map<Seq<char>, ExecutorMetadata>,
    l: Seq<ExecutorData>,
    metadata: ExecutorMetadata,
    total: u32,
    reserve: bool,
)
    requires
        unique_keys(l),
    ensures
        m.insert(metadata.id@, metadata).insert(metadata.id@, metadata) == m.insert(metadata.id@, metadata),
        upsert_seq(upsert_seq(l, registered_slots(metadata.id, total, reserve)), registered_slots(metadata.id, total, reserve))
            == upsert_seq(l, registered_slots(metadata.id, total, reserve)),
        registered_slots(metadata.id, total, reserve).total_task_slots == total,
        registered_slots(metadata.id, total, reserve).available_task_slots == if reserve { 0 } else { total },
{
    assert(m.insert(metadata.id@, metadata).insert(metadata.id@, metadata) =~= m.insert(metadata.id@, metadata));
    let e = registered_slots(metadata.id, total, reserve);
    let t = upsert_seq(l, e);
    let j = if has_key(l, e.key()) {
        index_of(l, e.key())
    } else {
        l.len() as int
    };
    if has_key(l, e.key()) {
        assert(l[j].key() == e.key());
        lemma_keyed_update(l, j, e);
    } else {
        lemma_keyed_push(l, e);
    }
    assert(t[j] == e);
    assert(has_key(t, e.key()));
    let q = index_of(t, e.key());
    assert(t[q].key() == e.key());
    assert(q == j);
    assert(t.update(j, e) =~= t);
}

} // verus!
