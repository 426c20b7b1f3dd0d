use vstd::prelude::*;

use crate::error::SchedulerError;
use crate::executor_info::{ExecutorData, ExecutorHeartbeat, ExecutorMetadata};
use crate::keyed::{
    find_key, has_key, index_of, keyed_map, lemma_keyed_at, lemma_keyed_key, lemma_keyed_len, remove_key, remove_seq, upsert,
    upsert_seq, unique_keys, Keyed,
};
use crate::reservation::ExecutorReservation;
use crate::slots::{
    bias_take, count_for, free_on, lemma_count_push, lemma_psum_mono, min, psum,
    reserve_slots_bias, reserve_slots_round_robin,
    taken, total_slots, AvailableTaskSlots, TaskDistribution,
};

verus! {

/// Seconds without a heartbeat after which an executor is no longer alive.
pub const DEFAULT_EXECUTOR_TIMEOUT_SECONDS: u64 = 60;

/// Heartbeats newer than this are alive at time `now`.
pub open spec fn alive_threshold(now: u64) -> u64 {
    if now >= DEFAULT_EXECUTOR_TIMEOUT_SECONDS {
        (now - DEFAULT_EXECUTOR_TIMEOUT_SECONDS) as u64
    } else {
        0
    }
}

/// Executor `id` was last seen after `threshold`.
pub open spec fn is_alive(hbs: Map<Seq<char>, ExecutorHeartbeat>, id: Seq<char>, threshold: u64) -> bool {
    hbs.contains_key(id) && hbs[id].timestamp > threshold
}

/// The free slots that a reservation may draw from, in ledger order: those of alive
/// executors, and none of the others.
pub open spec fn candidates(
    l: Seq<ExecutorData>,
    hbs: Map<Seq<char>, ExecutorHeartbeat>,
    threshold: u64,
) -> Seq<AvailableTaskSlots> {
    Seq::new(
        l.len(),
        |i: int|
            AvailableTaskSlots {
                executor_id: l[i].executor_id,
                slots: if is_alive(hbs, l[i].executor_id@, threshold) {
                    l[i].available_task_slots
                } else {
                    0
                },
            },
    )
}

/// The ledger after the reservations `r` were taken from it.
pub open spec fn after_reserve(l: Seq<ExecutorData>, r: Seq<ExecutorReservation>) -> Seq<ExecutorData> {
    Seq::new(
        l.len(),
        |i: int|
            ExecutorData {
                executor_id: l[i].executor_id,
                total_task_slots: l[i].total_task_slots,
                available_task_slots: (l[i].available_task_slots - count_for(r, l[i].executor_id@)) as u32,
            },
    )
}

/// The ledger after the reservations `r` were handed back to it.
pub open spec fn after_cancel(l: Seq<ExecutorData>, r: Seq<ExecutorReservation>) -> Seq<ExecutorData> {
    Seq::new(
        l.len(),
        |i: int|
            ExecutorData {
                executor_id: l[i].executor_id,
                total_task_slots: l[i].total_task_slots,
                available_task_slots: (l[i].available_task_slots + count_for(r, l[i].executor_id@)) as u32,
            },
    )
}

/// Every executor of the ledger has no more free slots than slots.
pub open spec fn ledger_ok(l: Seq<ExecutorData>) -> bool {
    unique_keys(l) && forall|i: int|
        0 <= i < l.len() ==> (#[trigger] l[i]).available_task_slots <= l[i].total_task_slots
}

/// Every reservation of `r` is bound to an executor of the ledger.
pub open spec fn all_known(l: Seq<ExecutorData>, r: Seq<ExecutorReservation>) -> bool {
    forall|k: int| 0 <= k < r.len() ==> has_key(l, (#[trigger] r[k]).executor_id@)
}

/// Handing `r` back leaves no executor with more free slots than slots.
pub open spec fn fits(l: Seq<ExecutorData>, r: Seq<ExecutorReservation>) -> bool {
    forall|i: int|
        0 <= i < l.len() ==> (#[trigger] l[i]).available_task_slots + count_for(r, l[i].executor_id@)
            <= l[i].total_task_slots
}

/// The heartbeats after `hb` was saved: it replaces the executor's previous one unless
/// that one is newer, so the last time an executor was seen never goes back.
pub open spec fn saved_heartbeats(
    m: Map<Seq<char>, ExecutorHeartbeat>,
    hb: ExecutorHeartbeat,
) -> Map<Seq<char>, ExecutorHeartbeat> {
    if m.contains_key(hb.executor_id@) && m[hb.executor_id@].timestamp > hb.timestamp {
        m
    } else {
        m.insert(hb.executor_id@, hb)
    }
}

/// At time `now`, the heartbeat is older than `timeout` seconds.
pub open spec fn expired(hb: ExecutorHeartbeat, now: u64, timeout: u64) -> bool {
    now > hb.timestamp && now - hb.timestamp > timeout
}

/// The ids that `r` holds, in order.
pub open spec fn id_views(r: Seq<String>) -> Seq<Seq<char>> {
    r.map_values(|s: String| s@)
}

/// `m` without the entries of the ids in `ids`.
pub open spec fn without<V>(m: Map<Seq<char>, V>, ids: Seq<Seq<char>>) -> Map<Seq<char>, V> {
    Map::new(|id: Seq<char>| m.contains_key(id) && !ids.contains(id), |id: Seq<char>| m[id])
}

/// The ids are pairwise distinct.
pub open spec fn distinct(ids: Seq<Seq<char>>) -> bool {
    forall|a: int, b: int| 0 <= a < ids.len() && 0 <= b < ids.len() && a != b ==> #[trigger] ids[a] != #[trigger] ids[b]
}

/// The ledger entry with which a registration leaves executor `id`: all of its slots
/// free, or all of them reserved.
pub open spec fn registered_slots(id: String, total: u32, reserve: bool) -> ExecutorData {
    ExecutorData { executor_id: id, total_task_slots: total, available_task_slots: if reserve { 0 } else { total } }
}

proof fn lemma_ledger_ok_upsert(l: Seq<ExecutorData>, e: ExecutorData)
    requires
        ledger_ok(l),
        unique_keys(upsert_seq(l, e)),
        e.available_task_slots <= e.total_task_slots,
    ensures
        ledger_ok(upsert_seq(l, e)),
{
    let t = upsert_seq(l, e);
    assert forall|i: int| 0 <= i < t.len() implies (#[trigger] t[i]).available_task_slots <= t[i].total_task_slots by {
        if has_key(l, e.key()) {
            if i != index_of(l, e.key()) {
                assert(t[i] == l[i]);
            }
        } else if i < l.len() {
            assert(t[i] == l[i]);
        }
    }
}

proof fn lemma_ledger_ok_remove(l: Seq<ExecutorData>, id: Seq<char>)
    requires
        ledger_ok(l),
        unique_keys(remove_seq(l, id)),
    ensures
        ledger_ok(remove_seq(l, id)),
{
    let t = remove_seq(l, id);
    if has_key(l, id) {
        let j = index_of(l, id);
        assert forall|i: int| 0 <= i < t.len() implies (#[trigger] t[i]).available_task_slots <= t[i].total_task_slots by {
            if i < j {
                assert(t[i] == l[i]);
            } else {
                assert(t[i] == l[i + 1]);
            }
        }
    }
}

/// `reserve_slots(n, d, now)` on manager `m0` returned `r` and left `m1`: the ledger lost exactly
/// `r`, as many as could be taken up to `n`, from alive executors only, as policy `d` spreads them.
pub open spec fn reserved(
    m0: ExecutorManager,
    m1: ExecutorManager,
    n: u32,
    d: TaskDistribution,
    now: u64,
    r: Seq<ExecutorReservation>,
) -> bool {
    let c = candidates(m0.ledger(), m0.heartbeat_map(), alive_threshold(now));
    &&& m1.wf()
    &&& ledger_ok(m1.ledger())
    &&& m1.metadata_map() == m0.metadata_map()
    &&& m1.heartbeat_map() == m0.heartbeat_map()
    &&& m1.ledger() == after_reserve(m0.ledger(), r)
    &&& r.len() == min(n as int, total_slots(c))
    &&& free_on(r, c)
    &&& forall|i: int| 0 <= i < m0.ledger().len() ==> count_for(r, #[trigger] m0.ledger()[i].executor_id@) <= c[i].slots
    &&& d == TaskDistribution::Bias ==> forall|i: int|
        0 <= i < m0.ledger().len() ==> count_for(r, #[trigger] m0.ledger()[i].executor_id@) == bias_take(c, n as int, i)
    &&& d == TaskDistribution::RoundRobin ==> forall|i: int, j: int|
        0 <= i < m0.ledger().len() && 0 <= j < m0.ledger().len() && is_alive(
            m0.heartbeat_map(),
            m0.ledger()[i].executor_id@,
            alive_threshold(now),
        ) && m1.ledger()[i].available_task_slots > 0 ==> #[trigger] count_for(r, m0.ledger()[j].executor_id@)
            <= #[trigger] count_for(r, m0.ledger()[i].executor_id@) + 1
}

/// Tracks executor metadata, heartbeats, liveness, and the ledger of task slots.
pub struct ExecutorManager {
    slots: Vec<ExecutorData>,
    metadata: Vec<ExecutorMetadata>,
    heartbeats: Vec<ExecutorHeartbeat>,
}

impl ExecutorManager {
    /// The slot ledger, one entry per registered executor, in registration order.
    pub closed spec fn ledger(&self) -> Seq<ExecutorData> {
        self.slots@
    }

    /// The saved metadata, by executor id.
    pub closed spec fn metadata_map(&self) -> Map<Seq<char>, ExecutorMetadata> {
        keyed_map(self.metadata@)
    }

    /// The latest heartbeat of each executor, by executor id.
    pub closed spec fn heartbeat_map(&self) -> Map<Seq<char>, ExecutorHeartbeat> {
        keyed_map(self.heartbeats@)
    }

    pub closed spec fn wf(&self) -> bool {
        ledger_ok(self.slots@) && unique_keys(self.metadata@) && unique_keys(self.heartbeats@)
    }

    /// A well-formed manager's ledger has unique executor ids and no executor with more free
    /// slots than slots.
    pub proof fn lemma_wf_ledger(&self)
        requires
            self.wf(),
        ensures
            ledger_ok(self.ledger()),
    {
    }

    /// A manager that knows no executor.
    pub fn new() -> (r: Self)
        ensures
            r.wf(),
            ledger_ok(r.ledger()),
            r.ledger().len() == 0,
            r.metadata_map().is_empty(),
            r.heartbeat_map().is_empty(),
    {
        let r = ExecutorManager { slots: Vec::new(), metadata: Vec::new(), heartbeats: Vec::new() };
        assert(r.metadata_map() =~= Map::empty());
        assert(r.heartbeat_map() =~= Map::empty());
        r
    }

    /// Whether executor `id` was last seen after `threshold`.
    pub fn is_alive_at(&self, id: &String, threshold: u64) -> (r: bool)
        requires
            self.wf(),
        ensures
            r == is_alive(self.heartbeat_map(), id@, threshold),
    {
        match find_key(&self.heartbeats, id) {
            Some(j) => {
                proof {
                    lemma_keyed_at(self.heartbeats@, j as int);
                }
                self.heartbeats[j].timestamp > threshold
            },
            None => false,
        }
    }

    fn build_candidates(&self, threshold: u64) -> (r: (Vec<AvailableTaskSlots>, Vec<bool>))
        requires
            self.wf(),
        ensures
            r.0@ == candidates(self.ledger(), self.heartbeat_map(), threshold),
            r.1@.len() == self.ledger().len(),
            forall|i: int|
                0 <= i < r.1@.len() ==> #[trigger] r.1@[i] == is_alive(
                    self.heartbeat_map(),
                    self.ledger()[i].executor_id@,
                    threshold,
                ),
    {
        let ghost c = candidates(self.ledger(), self.heartbeat_map(), threshold);
        let mut cands: Vec<AvailableTaskSlots> = Vec::new();
        let mut alive: Vec<bool> = Vec::new();
        let mut i: usize = 0;
        while i < self.slots.len()
            invariant
                self.wf(),
                c == candidates(self.ledger(), self.heartbeat_map(), threshold),
                0 <= i <= self.slots@.len(),
                cands@.len() == i,
                alive@.len() == i,
                forall|q: int| 0 <= q < i ==> #[trigger] cands@[q] == c[q],
                forall|q: int|
                    0 <= q < i ==> #[trigger] alive@[q] == is_alive(
                        self.heartbeat_map(),
                        self.ledger()[q].executor_id@,
                        threshold,
                    ),
            decreases self.slots@.len() - i,
        {
            let a = self.is_alive_at(&self.slots[i].executor_id, threshold);
            let free = if a {
                self.slots[i].available_task_slots
            } else {
                0
            };
            cands.push(AvailableTaskSlots { executor_id: self.slots[i].executor_id.clone(), slots: free });
            alive.push(a);
            i = i + 1;
        }
        assert(cands@ =~= c);
        (cands, alive)
    }

    /// Reserve up to `n` free task slots of the executors alive at `now_secs`, taking them
    /// out of the ledger. The ledger loses exactly the returned reservations; the bias
    /// policy drains executors in ledger order, round robin balances them.
    pub fn reserve_slots(&mut self, n: u32, distribution: TaskDistribution, now_secs: u64) -> (r: Vec<
        ExecutorReservation,
    >)
        requires
            old(self).wf(),
        ensures
            reserved(*old(self), *final(self), n, distribution, now_secs, r@),
    {
        let threshold = if now_secs >= DEFAULT_EXECUTOR_TIMEOUT_SECONDS {
            now_secs - DEFAULT_EXECUTOR_TIMEOUT_SECONDS
        } else {
            0
        };
        let (mut cands, alive) = self.build_candidates(threshold);
        self.take_from_candidates(&mut cands, &alive, n, distribution)
    }

    fn take_from_candidates(
        &mut self,
        cands: &mut Vec<AvailableTaskSlots>,
        alive: &Vec<bool>,
        n: u32,
        distribution: TaskDistribution,
    ) -> (r: Vec<ExecutorReservation>)
        requires
            old(self).wf(),
            old(cands)@.len() == old(self).ledger().len(),
            alive@.len() == old(self).ledger().len(),
            forall|i: int|
                0 <= i < old(cands)@.len() ==> (#[trigger] old(cands)@[i]).executor_id
                    == old(self).ledger()[i].executor_id && old(cands)@[i].slots == if alive@[i] {
                    old(self).ledger()[i].available_task_slots
                } else {
                    0
                },
        ensures
            final(self).wf(),
            final(self).metadata_map() == old(self).metadata_map(),
            final(self).heartbeat_map() == old(self).heartbeat_map(),
            final(self).ledger() == after_reserve(old(self).ledger(), r@),
            r@.len() == min(n as int, total_slots(old(cands)@)),
            free_on(r@, old(cands)@),
            forall|i: int|
                0 <= i < old(self).ledger().len() ==> count_for(r@, #[trigger] old(self).ledger()[i].executor_id@)
                    <= old(cands)@[i].slots,
            distribution == TaskDistribution::Bias ==> forall|i: int|
                0 <= i < old(self).ledger().len() ==> count_for(r@, #[trigger] old(self).ledger()[i].executor_id@)
                    == bias_take(old(cands)@, n as int, i),
            distribution == TaskDistribution::RoundRobin ==> forall|i: int, j: int|
                0 <= i < old(self).ledger().len() && 0 <= j < old(self).ledger().len() && alive@[i]
                    && final(self).ledger()[i].available_task_slots > 0 ==> #[trigger] count_for(
                    r@,
                    old(self).ledger()[j].executor_id@,
                ) <= #[trigger] count_for(r@, old(self).ledger()[i].executor_id@) + 1,
    {
        let ghost c0 = cands@;
        let ghost l0 = self.slots@;
        proof {
            assert forall|a: int, b: int|
                0 <= a < c0.len() && 0 <= b < c0.len() && a != b implies #[trigger] c0[a].executor_id@
                != #[trigger] c0[b].executor_id@ by {
                assert(l0[a].key() != l0[b].key());
            }
        }
        let r = match distribution {
            TaskDistribution::Bias => reserve_slots_bias(cands, n),
            TaskDistribution::RoundRobin => reserve_slots_round_robin(cands, n),
        };
        let ghost c1 = cands@;
        proof {
            assert forall|q: int| 0 <= q < l0.len() implies #[trigger] c1[q].slots <= c0[q].slots by {
                assert(c1[q].executor_id == c0[q].executor_id);
            }
            if distribution == TaskDistribution::Bias {
                assert forall|q: int| 0 <= q < l0.len() implies count_for(
                    r@,
                    #[trigger] l0[q].executor_id@,
                ) == bias_take(c0, n as int, q) by {
                    assert(c1[q].executor_id == c0[q].executor_id);
                    assert(c0[q].executor_id == l0[q].executor_id);
                }
            }
        }
        let mut i: usize = 0;
        while i < self.slots.len()
            invariant
                0 <= i <= self.slots@.len(),
                self.slots@.len() == l0.len(),
                cands@ == c1,
                c1.len() == l0.len(),
                c0.len() == l0.len(),
                alive@.len() == l0.len(),
                self.metadata == old(self).metadata,
                self.heartbeats == old(self).heartbeats,
                l0 == old(self).slots@,
                ledger_ok(l0),
                forall|q: int|
                    0 <= q < l0.len() ==> (#[trigger] c0[q]).executor_id == l0[q].executor_id
                        && c0[q].slots == if alive@[q] {
                        l0[q].available_task_slots
                    } else {
                        0
                    },
                forall|q: int| 0 <= q < l0.len() ==> #[trigger] c1[q].slots <= c0[q].slots,
                forall|q: int|
                    0 <= q < l0.len() ==> count_for(r@, #[trigger] c0[q].executor_id@) == c0[q].slots
                        - c1[q].slots,
                forall|q: int| i <= q < l0.len() ==> #[trigger] self.slots@[q] == l0[q],
                forall|q: int|
                    0 <= q < i ==> #[trigger] self.slots@[q] == after_reserve(l0, r@)[q],
            decreases l0.len() - i,
        {
            proof {
                assert(count_for(r@, c0[i as int].executor_id@) == c0[i as int].slots - c1[i as int].slots);
            }
            if alive[i] {
                let free = cands[i].slots;
                self.slots[i].available_task_slots = free;
            }
            proof {
                assert(self.slots@[i as int] == after_reserve(l0, r@)[i as int]);
            }
            i = i + 1;
        }
        proof {
            assert(self.slots@ =~= after_reserve(l0, r@));
            assert forall|q: int| 0 <= q < l0.len() implies count_for(
                r@,
                #[trigger] l0[q].executor_id@,
            ) <= c0[q].slots by {
                assert(c0[q].executor_id == l0[q].executor_id);
            }
            assert forall|a: int, b: int|
                0 <= a < self.slots@.len() && 0 <= b < self.slots@.len() && a != b implies (
                #[trigger] self.slots@[a]).key() != (#[trigger] self.slots@[b]).key() by {
                assert(l0[a].key() != l0[b].key());
            }
            assert forall|q: int| 0 <= q < self.slots@.len() implies (
            #[trigger] self.slots@[q]).available_task_slots <= self.slots@[q].total_task_slots by {
                assert(c0[q].executor_id == l0[q].executor_id);
            }
            if distribution == TaskDistribution::RoundRobin {
                assert forall|a: int, b: int|
                    0 <= a < l0.len() && 0 <= b < l0.len() && alive@[a]
                        && self.slots@[a].available_task_slots > 0 implies #[trigger] count_for(
                    r@,
                    l0[b].executor_id@,
                ) <= #[trigger] count_for(r@, l0[a].executor_id@) + 1 by {
                    assert(c0[a].executor_id == l0[a].executor_id);
                    assert(c0[b].executor_id == l0[b].executor_id);
                    assert(self.slots@[a] == after_reserve(l0, r@)[a]);
                    assert(c1[a].slots > 0);
                    assert(taken(c0, c1, b) <= taken(c0, c1, a) + 1);
                }
            }
        }
        r
    }
    /// Hand the reservations back to the ledger, all of them or none.
    /// Fails with `NotFound` when one names an executor that is not in the ledger, and
    /// with `Internal` when an executor would end up with more free slots than slots.
    pub fn cancel_reservations(&mut self, reservations: Vec<ExecutorReservation>) -> (r: Result<
        (),
        SchedulerError,
    >)
        requires
            old(self).wf(),
        ensures
            final(self).wf(),
            ledger_ok(final(self).ledger()),
            final(self).metadata_map() == old(self).metadata_map(),
            final(self).heartbeat_map() == old(self).heartbeat_map(),
            r == Err::<(), SchedulerError>(SchedulerError::NotFound) <==> !all_known(
                old(self).ledger(),
                reservations@,
            ),
            r == Err::<(), SchedulerError>(SchedulerError::Internal) <==> all_known(
                old(self).ledger(),
                reservations@,
            ) && !fits(old(self).ledger(), reservations@),
            r is Ok <==> all_known(old(self).ledger(), reservations@) && fits(
                old(self).ledger(),
                reservations@,
            ),
            r is Ok ==> final(self).ledger() == after_cancel(old(self).ledger(), reservations@),
            r is Err ==> final(self).ledger() == old(self).ledger(),
    {
        let ghost l0 = self.slots@;
        let ghost rs = reservations@;
        let mut counts: Vec<u64> = Vec::new();
        let mut q: usize = 0;
        while q < self.slots.len()
            invariant
                0 <= q <= l0.len(),
                self.slots@ == l0,
                counts@.len() == q,
                forall|a: int| 0 <= a < q ==> #[trigger] counts@[a] == 0,
            decreases l0.len() - q,
        {
            counts.push(0);
            q = q + 1;
        }
        let mut k: usize = 0;
        while k < reservations.len()
            invariant
                0 <= k <= rs.len(),
                rs == reservations@,
                self.slots@ == l0,
                self == old(self),
                old(self).wf(),
                ledger_ok(l0),
                counts@.len() == l0.len(),
                forall|a: int|
                    0 <= a < l0.len() ==> #[trigger] counts@[a] == count_for(rs.take(k as int), l0[a].executor_id@),
                forall|a: int| 0 <= a < l0.len() ==> #[trigger] counts@[a] <= k,
                forall|b: int| 0 <= b < k ==> has_key(l0, (#[trigger] rs[b]).executor_id@),
            decreases rs.len() - k,
        {
            match find_key(&self.slots, &reservations[k].executor_id) {
                None => {
                    return Err(SchedulerError::NotFound);
                },
                Some(j) => {
                    proof {
                        assert(rs.take(k as int + 1) =~= rs.take(k as int).push(rs[k as int]));
                        assert forall|a: int| 0 <= a < l0.len() implies count_for(
                            rs.take(k as int + 1),
                            #[trigger] l0[a].executor_id@,
                        ) == count_for(rs.take(k as int), l0[a].executor_id@) + if a == j {
                            1nat
                        } else {
                            0nat
                        } by {
                            lemma_count_push(rs.take(k as int), rs[k as int], l0[a].executor_id@);
                            if a != j {
                                assert(l0[a].key() != l0[j as int].key());
                            }
                        }
                    }
                    let c = counts[j];
                    counts.set(j, c + 1);
                },
            }
            k = k + 1;
        }
        proof {
            assert(rs.take(rs.len() as int) =~= rs);
        }
        let mut q: usize = 0;
        while q < self.slots.len()
            invariant
                0 <= q <= l0.len(),
                self.slots@ == l0,
                self == old(self),
                old(self).wf(),
                rs == reservations@,
                ledger_ok(l0),
                all_known(l0, rs),
                counts@.len() == l0.len(),
                forall|a: int| 0 <= a < l0.len() ==> #[trigger] counts@[a] == count_for(rs, l0[a].executor_id@),
                forall|a: int|
                    0 <= a < q ==> (#[trigger] l0[a]).available_task_slots + count_for(rs, l0[a].executor_id@)
                        <= l0[a].total_task_slots,
            decreases l0.len() - q,
        {
            let free = self.slots[q].available_task_slots;
            let total = self.slots[q].total_task_slots;
            if counts[q] > (total - free) as u64 {
                return Err(SchedulerError::Internal);
            }
            q = q + 1;
        }
        let mut q: usize = 0;
        while q < self.slots.len()
            invariant
                0 <= q <= l0.len(),
                self.slots@.len() == l0.len(),
                self.metadata == old(self).metadata,
                self.heartbeats == old(self).heartbeats,
                l0 == old(self).slots@,
                ledger_ok(l0),
                rs == reservations@,
                fits(l0, rs),
                counts@.len() == l0.len(),
                forall|a: int| 0 <= a < l0.len() ==> #[trigger] counts@[a] == count_for(rs, l0[a].executor_id@),
                forall|a: int| q <= a < l0.len() ==> #[trigger] self.slots@[a] == l0[a],
                forall|a: int| 0 <= a < q ==> #[trigger] self.slots@[a] == after_cancel(l0, rs)[a],
            decreases l0.len() - q,
        {
            let free = self.slots[q].available_task_slots;
            let add = counts[q] as u32;
            self.slots[q].available_task_slots = free + add;
            proof {
                assert(self.slots@[q as int] == after_cancel(l0, rs)[q as int]);
            }
            q = q + 1;
        }
        proof {
            assert(self.slots@ =~= after_cancel(l0, rs));
            assert forall|a: int, b: int|
                0 <= a < self.slots@.len() && 0 <= b < self.slots@.len() && a != b implies (
                #[trigger] self.slots@[a]).key() != (#[trigger] self.slots@[b]).key() by {
                assert(l0[a].key() != l0[b].key());
            }
        }
        Ok(())
    }

    /// Reserve exactly `n` free task slots of the executors alive at `now_secs`, or none
    /// at all when fewer are free.
    pub fn reserve_slots_exact(&mut self, n: u32, distribution: TaskDistribution, now_secs: u64) -> (r: Vec<
        ExecutorReservation,
    >)
        requires
            old(self).wf(),
        ensures
            final(self).wf(),
            ledger_ok(final(self).ledger()),
            final(self).metadata_map() == old(self).metadata_map(),
            final(self).heartbeat_map() == old(self).heartbeat_map(),
            final(self).ledger() == after_reserve(old(self).ledger(), r@),
            r@.len() == if total_slots(
                candidates(old(self).ledger(), old(self).heartbeat_map(), alive_threshold(now_secs)),
            ) >= n {
                n as int
            } else {
                0
            },
            free_on(r@, candidates(old(self).ledger(), old(self).heartbeat_map(), alive_threshold(now_secs))),
            forall|i: int|
                0 <= i < old(self).ledger().len() ==> count_for(r@, #[trigger] old(self).ledger()[i].executor_id@)
                    <= candidates(old(self).ledger(), old(self).heartbeat_map(), alive_threshold(now_secs))[i].slots,
            distribution == TaskDistribution::Bias ==> forall|i: int|
                0 <= i < old(self).ledger().len() ==> count_for(r@, #[trigger] old(self).ledger()[i].executor_id@)
                    == if r@.len() == 0 {
                    0
                } else {
                    bias_take(
                        candidates(old(self).ledger(), old(self).heartbeat_map(), alive_threshold(now_secs)),
                        n as int,
                        i,
                    )
                },
    {
        let threshold = if now_secs >= DEFAULT_EXECUTOR_TIMEOUT_SECONDS {
            now_secs - DEFAULT_EXECUTOR_TIMEOUT_SECONDS
        } else {
            0
        };
        let (mut cands, alive) = self.build_candidates(threshold);
        let ghost c = cands@;
        let mut acc: u64 = 0;
        let mut i: usize = 0;
        while i < cands.len() && acc < n as u64
            invariant
                0 <= i <= c.len(),
                cands@ == c,
                acc == psum(c, i as int),
            decreases c.len() - i,
        {
            acc = acc + cands[i].slots as u64;
            i = i + 1;
        }
        proof {
            lemma_psum_mono(c, i as int, c.len() as int);
        }
        if acc < n as u64 {
            let r: Vec<ExecutorReservation> = Vec::new();
            proof {
                assert(self.slots@ =~= after_reserve(self.slots@, r@));
            }
            r
        } else {
            self.take_from_candidates(&mut cands, &alive, n, distribution)
        }
    }
    /// Save the metadata of an executor, in place of what was saved for its id.
    pub fn save_executor_metadata(&mut self, metadata: ExecutorMetadata)
        requires
            old(self).wf(),
        ensures
            final(self).wf(),
            final(self).metadata_map() == old(self).metadata_map().insert(metadata.id@, metadata),
            final(self).heartbeat_map() == old(self).heartbeat_map(),
            final(self).ledger() == old(self).ledger(),
    {
        upsert(&mut self.metadata, metadata);
    }

    /// The metadata saved for `executor_id`; `NotFound` when there is none.
    pub fn get_executor_metadata(&self, executor_id: &String) -> (r: Result<ExecutorMetadata, SchedulerError>)
        requires
            self.wf(),
        ensures
            match r {
                Ok(m) => self.metadata_map().contains_key(executor_id@) && m == self.metadata_map()[executor_id@],
                Err(e) => !self.metadata_map().contains_key(executor_id@) && e == SchedulerError::NotFound,
            },
    {
        match find_key(&self.metadata, executor_id) {
            Some(j) => {
                proof {
                    lemma_keyed_at(self.metadata@, j as int);
                }
                Ok(self.metadata[j].clone())
            },
            None => Err(SchedulerError::NotFound),
        }
    }

    /// Record a heartbeat, unless a newer one of the same executor is already recorded.
    pub fn save_executor_heartbeat(&mut self, heartbeat: ExecutorHeartbeat)
        requires
            old(self).wf(),
        ensures
            final(self).wf(),
            final(self).heartbeat_map() == saved_heartbeats(old(self).heartbeat_map(), heartbeat),
            final(self).metadata_map() == old(self).metadata_map(),
            final(self).ledger() == old(self).ledger(),
    {
        match find_key(&self.heartbeats, &heartbeat.executor_id) {
            Some(j) => {
                proof {
                    lemma_keyed_at(self.heartbeats@, j as int);
                }
                if self.heartbeats[j].timestamp <= heartbeat.timestamp {
                    upsert(&mut self.heartbeats, heartbeat);
                }
            },
            None => {
                upsert(&mut self.heartbeats, heartbeat);
            },
        }
    }

    /// Register an executor that answered (`reachable`) the scheduler's ping at `now_secs`:
    /// save its metadata and a heartbeat, and put its `total_task_slots` in the ledger.
    /// With `reserve` all of them are reserved at once and handed back; otherwise all are free.
    /// An executor that did not answer is refused with `Connectivity`, and nothing changes.
    pub fn register_executor(
        &mut self,
        metadata: ExecutorMetadata,
        specification: ExecutorData,
        reserve: bool,
        now_secs: u64,
        reachable: bool,
    ) -> (r: Result<Vec<ExecutorReservation>, SchedulerError>)
        requires
            old(self).wf(),
        ensures
            final(self).wf(),
            ledger_ok(final(self).ledger()),
            !reachable ==> r == Err::<Vec<ExecutorReservation>, SchedulerError>(SchedulerError::Connectivity)
                && final(self).metadata_map() == old(self).metadata_map() && final(self).heartbeat_map()
                == old(self).heartbeat_map() && final(self).ledger() == old(self).ledger(),
            reachable ==> r is Ok,
            !reachable ==> *final(self) == *old(self),
            r is Ok ==> final(self).metadata_map() == old(self).metadata_map().insert(metadata.id@, metadata)
                && final(self).heartbeat_map() == saved_heartbeats(
                old(self).heartbeat_map(),
                (ExecutorHeartbeat { executor_id: metadata.id, timestamp: now_secs, state: None }),
            ) && final(self).ledger() == upsert_seq(
                old(self).ledger(),
                registered_slots(metadata.id, specification.total_task_slots, reserve),
            ),
            r matches Ok(rs) ==> rs@.len() == (if reserve { specification.total_task_slots as int } else { 0 })
                && forall|k: int|
                0 <= k < rs@.len() ==> (#[trigger] rs@[k]).executor_id == metadata.id && rs@[k].job_id.is_none(),
    {
        if !reachable {
            return Err(SchedulerError::Connectivity);
        }
        let id = metadata.id.clone();
        let total = specification.total_task_slots;
        self.save_executor_metadata(metadata);
        self.save_executor_heartbeat(ExecutorHeartbeat { executor_id: id.clone(), timestamp: now_secs, state: None });
        let entry = ExecutorData {
            executor_id: id.clone(),
            total_task_slots: total,
            available_task_slots: if reserve {
                0
            } else {
                total
            },
        };
        let ghost l = self.slots@;
        upsert(&mut self.slots, entry);
        proof {
            lemma_ledger_ok_upsert(l, entry);
        }
        let mut reservations: Vec<ExecutorReservation> = Vec::new();
        if reserve {
            let mut k: u32 = 0;
            while k < total
                invariant
                    0 <= k <= total,
                    reservations@.len() == k,
                    forall|q: int|
                        0 <= q < k ==> (#[trigger] reservations@[q]).executor_id == id
                            && reservations@[q].job_id.is_none(),
                decreases total - k,
            {
                reservations.push(ExecutorReservation::new_free(id.clone()));
                k = k + 1;
            }
        }
        Ok(reservations)
    }

    fn collect_ids(&self, threshold: u64, now: u64, timeout: u64, want_alive: bool) -> (r: Vec<String>)
        requires
            self.wf(),
        ensures
            distinct(id_views(r@)),
            forall|id: Seq<char>|
                #![trigger id_views(r@).contains(id)]
                id_views(r@).contains(id) <==> self.heartbeat_map().contains_key(id) && if want_alive {
                    self.heartbeat_map()[id].timestamp > threshold
                } else {
                    expired(self.heartbeat_map()[id], now, timeout)
                },
    {
        let ghost s = self.heartbeats@;
        let ghost m = self.heartbeat_map();
        let mut out: Vec<String> = Vec::new();
        let ghost mut src: Seq<int> = Seq::empty();
        let mut i: usize = 0;
        while i < self.heartbeats.len()
            invariant
                0 <= i <= s.len(),
                s == self.heartbeats@,
                m == self.heartbeat_map(),
                self.wf(),
                src.len() == out@.len(),
                forall|k: int| 0 <= k < src.len() ==> 0 <= #[trigger] src[k] < i,
                forall|k: int| 0 <= k < src.len() ==> (#[trigger] out@[k])@ == s[src[k]].key(),
                forall|a: int, b: int| 0 <= a < b < src.len() ==> #[trigger] src[a] < #[trigger] src[b],
                forall|q: int|
                    0 <= q < i && (if want_alive {
                        s[q].timestamp > threshold
                    } else {
                        expired(s[q], now, timeout)
                    }) ==> exists|k: int| 0 <= k < src.len() && #[trigger] src[k] == q,
                forall|k: int|
                    0 <= k < src.len() ==> if want_alive {
                        s[#[trigger] src[k]].timestamp > threshold
                    } else {
                        expired(s[#[trigger] src[k]], now, timeout)
                    },
            decreases s.len() - i,
        {
            let ts = self.heartbeats[i].timestamp;
            let keep = if want_alive {
                ts > threshold
            } else {
                now > ts && now - ts > timeout
            };
            let ghost src0 = src;
            if keep {
                proof {
                    src = src.push(i as int);
                }
                out.push(self.heartbeats[i].executor_id.clone());
            }
            proof {
                assert forall|q: int|
                    0 <= q <= i && (if want_alive {
                        s[q].timestamp > threshold
                    } else {
                        expired(s[q], now, timeout)
                    }) implies exists|k: int| 0 <= k < src.len() && #[trigger] src[k] == q by {
                    if q == i {
                        assert(src[src.len() - 1] == q);
                    } else {
                        let k = choose|k: int| 0 <= k < src0.len() && #[trigger] src0[k] == q;
                        assert(src[k] == q);
                    }
                }
            }
            i = i + 1;
        }
        proof {
            let v = id_views(out@);
            assert forall|a: int, b: int| 0 <= a < v.len() && 0 <= b < v.len() && a != b implies #[trigger] v[a]
                != #[trigger] v[b] by {
                assert(v[a] == s[src[a]].key());
                assert(v[b] == s[src[b]].key());
                assert(src[a] != src[b]);
            }
            assert forall|id: Seq<char>| #![trigger v.contains(id)] v.contains(id) <==> m.contains_key(id) && if want_alive {
                m[id].timestamp > threshold
            } else {
                expired(m[id], now, timeout)
            } by {
                if v.contains(id) {
                    let k = choose|k: int| 0 <= k < v.len() && v[k] == id;
                    assert(v[k] == s[src[k]].key());
                    lemma_keyed_at(s, src[k]);
                }
                if m.contains_key(id) && (if want_alive {
                    m[id].timestamp > threshold
                } else {
                    expired(m[id], now, timeout)
                }) {
                    let q = index_of(s, id);
                    lemma_keyed_at(s, q);
                    let k = choose|k: int| 0 <= k < src.len() && #[trigger] src[k] == q;
                    assert(v[k] == id);
                }
            }
        }
        out
    }

    /// The executors whose latest heartbeat is newer than `last_seen_ts_threshold`, each once.
    pub fn get_alive_executors(&self, last_seen_ts_threshold: u64) -> (r: Vec<String>)
        requires
            self.wf(),
        ensures
            distinct(id_views(r@)),
            forall|id: Seq<char>|
                #![trigger id_views(r@).contains(id)]
                id_views(r@).contains(id) <==> is_alive(self.heartbeat_map(), id, last_seen_ts_threshold),
    {
        self.collect_ids(last_seen_ts_threshold, 0, 0, true)
    }

    /// The executors seen within the last `window_secs` seconds before `now_secs`, each once.
    pub fn get_alive_executors_within(&self, now_secs: u64, window_secs: u64) -> (r: Vec<String>)
        requires
            self.wf(),
        ensures
            distinct(id_views(r@)),
            forall|id: Seq<char>|
                #![trigger id_views(r@).contains(id)]
                id_views(r@).contains(id) <==> is_alive(
                    self.heartbeat_map(),
                    id,
                    if now_secs >= window_secs { (now_secs - window_secs) as u64 } else { 0 },
                ),
    {
        let threshold = if now_secs >= window_secs {
            now_secs - window_secs
        } else {
            0
        };
        self.get_alive_executors(threshold)
    }

    /// The executors whose latest heartbeat is more than `timeout_secs` older than `now_secs`.
    pub fn get_expired_executors(&self, now_secs: u64, timeout_secs: u64) -> (r: Vec<String>)
        requires
            self.wf(),
        ensures
            distinct(id_views(r@)),
            forall|id: Seq<char>|
                #![trigger id_views(r@).contains(id)]
                id_views(r@).contains(id) <==> self.heartbeat_map().contains_key(id) && expired(
                    self.heartbeat_map()[id],
                    now_secs,
                    timeout_secs,
                ),
    {
        self.collect_ids(0, now_secs, timeout_secs, false)
    }

    /// Forget an executor: its slots, metadata and heartbeat. Tells whether it was known.
    pub fn remove_executor(&mut self, executor_id: &String) -> (r: bool)
        requires
            old(self).wf(),
        ensures
            final(self).wf(),
            ledger_ok(final(self).ledger()),
            r == (has_key(old(self).ledger(), executor_id@) || old(self).metadata_map().contains_key(executor_id@)
                || old(self).heartbeat_map().contains_key(executor_id@)),
            final(self).ledger() == remove_seq(old(self).ledger(), executor_id@),
            final(self).metadata_map() == old(self).metadata_map().remove(executor_id@),
            final(self).heartbeat_map() == old(self).heartbeat_map().remove(executor_id@),
    {
        let ghost l = self.slots@;
        let a = remove_key(&mut self.slots, executor_id);
        proof {
            lemma_ledger_ok_remove(l, executor_id@);
        }
        let b = remove_key(&mut self.metadata, executor_id);
        let c = remove_key(&mut self.heartbeats, executor_id);
        a || b || c
    }

    /// Remove every executor whose heartbeat has expired at `now_secs`, and return their ids,
    /// each once, so that the loss of each can be announced exactly once.
    pub fn expire_dead_executors(&mut self, now_secs: u64, timeout_secs: u64) -> (r: Vec<String>)
        requires
            old(self).wf(),
        ensures
            final(self).wf(),
            ledger_ok(final(self).ledger()),
            distinct(id_views(r@)),
            forall|id: Seq<char>|
                #![trigger id_views(r@).contains(id)]
                id_views(r@).contains(id) <==> old(self).heartbeat_map().contains_key(id) && expired(
                    old(self).heartbeat_map()[id],
                    now_secs,
                    timeout_secs,
                ),
            final(self).heartbeat_map() == without(old(self).heartbeat_map(), id_views(r@)),
            final(self).metadata_map() == without(old(self).metadata_map(), id_views(r@)),
            keyed_map(final(self).ledger()) == without(keyed_map(old(self).ledger()), id_views(r@)),
    {
        let ids = self.get_expired_executors(now_secs, timeout_secs);
        let ghost h0 = self.heartbeat_map();
        let ghost m0 = self.metadata_map();
        let ghost l0 = keyed_map(self.ledger());
        proof {
            assert(without(h0, id_views(ids@).take(0)) =~= h0);
            assert(without(m0, id_views(ids@).take(0)) =~= m0);
            assert(without(l0, id_views(ids@).take(0)) =~= l0);
        }
        let mut q: usize = 0;
        while q < ids.len()
            invariant
                0 <= q <= ids@.len(),
                self.wf(),
                self.heartbeat_map() == without(h0, id_views(ids@).take(q as int)),
                self.metadata_map() == without(m0, id_views(ids@).take(q as int)),
                keyed_map(self.ledger()) == without(l0, id_views(ids@).take(q as int)),
            decreases ids@.len() - q,
        {
            let ghost pre = id_views(ids@).take(q as int);
            let ghost post = id_views(ids@).take(q as int + 1);
            let ghost x = ids@[q as int]@;
            proof {
                assert(post =~= pre.push(x));
                assert forall|id: Seq<char>| post.contains(id) <==> pre.contains(id) || id == x by {
                    if post.contains(id) {
                        let k = choose|k: int| 0 <= k < post.len() && post[k] == id;
                        if k < pre.len() {
                            assert(pre[k] == id);
                        }
                    }
                    if pre.contains(id) {
                        let k = choose|k: int| 0 <= k < pre.len() && pre[k] == id;
                        assert(post[k] == id);
                    }
                    if id == x {
                        assert(post[q as int] == id);
                    }
                }
            }
            let ghost l = self.ledger();
            self.remove_executor(&ids[q]);
            proof {
                assert(self.heartbeat_map() =~= without(h0, post));
                assert(self.metadata_map() =~= without(m0, post));
                assert(keyed_map(l).remove(x) =~= without(l0, post));
                assert(keyed_map(remove_seq(l, x)) == keyed_map(l).remove(x)) by {
                    crate::keyed::lemma_remove_seq_map(l, x);
                }
            }
            q = q + 1;
        }
        proof {
            assert(id_views(ids@).take(ids@.len() as int) =~= id_views(ids@));
        }
        ids
    }
    /// The ledger entry of `executor_id`, if it is registered.
    pub fn slots_of(&self, executor_id: &String) -> (r: Option<ExecutorData>)
        requires
            self.wf(),
        ensures
            r == if has_key(self.ledger(), executor_id@) {
                Some(keyed_map(self.ledger())[executor_id@])
            } else {
                None::<ExecutorData>
            },
    {
        match find_key(&self.slots, executor_id) {
            Some(j) => {
                proof {
                    lemma_keyed_at(self.slots@, j as int);
                }
                Some(self.slots[j].clone())
            },
            None => None,
        }
    }

    /// Every executor with a recorded heartbeat, with its saved metadata and the time of
    /// that heartbeat; `NotFound` when one of them has no saved metadata.
    pub fn get_executor_state(&self) -> (r: Result<Vec<(ExecutorMetadata, u64)>, SchedulerError>)
        requires
            self.wf(),
        ensures
            r is Ok <==> forall|id: Seq<char>| #[trigger]
                self.heartbeat_map().contains_key(id) ==> self.metadata_map().contains_key(id),
            r matches Ok(v) ==> v@.len() == self.heartbeat_map().len() && forall|i: int|
                0 <= i < v@.len() ==> self.metadata_map().contains_key((#[trigger] v@[i]).0.id@)
                    && v@[i].0 == self.metadata_map()[v@[i].0.id@] && v@[i].1
                    == self.heartbeat_map()[v@[i].0.id@].timestamp,
            r matches Err(e) ==> e == SchedulerError::NotFound,
    {
        let ghost s = self.heartbeats@;
        let mut out: Vec<(ExecutorMetadata, u64)> = Vec::new();
        let mut i: usize = 0;
        while i < self.heartbeats.len()
            invariant
                self.wf(),
                s == self.heartbeats@,
                0 <= i <= s.len(),
                out@.len() == i,
                forall|q: int| 0 <= q < i ==> self.metadata_map().contains_key(#[trigger] s[q].key()),
                forall|q: int|
                    0 <= q < i ==> (#[trigger] out@[q]).0.id@ == s[q].key() && out@[q].0 == self.metadata_map()[s[q].key()]
                        && out@[q].1 == s[q].timestamp,
            decreases s.len() - i,
        {
            proof {
                lemma_keyed_at(s, i as int);
            }
            match self.get_executor_metadata(&self.heartbeats[i].executor_id) {
                Ok(m) => {
                    proof {
                        lemma_keyed_key(self.metadata@);
                    }
                    out.push((m, self.heartbeats[i].timestamp));
                },
                Err(e) => {
                    proof {
                        assert(self.heartbeat_map().contains_key(s[i as int].key()));
                    }
                    return Err(e);
                },
            }
            i = i + 1;
        }
        proof {
            assert forall|id: Seq<char>| #[trigger] self.heartbeat_map().contains_key(id) implies self.metadata_map().contains_key(id) by {
                let q = index_of(s, id);
                assert(s[q].key() == id);
            }
            assert forall|q: int| 0 <= q < out@.len() implies self.metadata_map().contains_key((#[trigger] out@[q]).0.id@)
                && out@[q].0 == self.metadata_map()[out@[q].0.id@] && out@[q].1
                == self.heartbeat_map()[out@[q].0.id@].timestamp by {
                lemma_keyed_at(s, q);
            }
            lemma_keyed_len(s);
        }
        Ok(out)
    }
    /// Load heartbeats read back from storage at start-up, as if each was saved in turn.
    /// No executor's last-seen time goes back, and each one loaded is at least as recent as
    /// its heartbeat in the list.
    pub fn init_executor_heartbeats(&mut self, heartbeats: Vec<ExecutorHeartbeat>)
        requires
            old(self).wf(),
        ensures
            final(self).wf(),
            final(self).metadata_map() == old(self).metadata_map(),
            final(self).ledger() == old(self).ledger(),
            forall|id: Seq<char>| #[trigger]
                old(self).heartbeat_map().contains_key(id) ==> final(self).heartbeat_map().contains_key(id)
                    && final(self).heartbeat_map()[id].timestamp >= old(self).heartbeat_map()[id].timestamp,
            forall|i: int|
                0 <= i < heartbeats@.len() ==> final(self).heartbeat_map().contains_key(
                    (#[trigger] heartbeats@[i]).executor_id@,
                ) && final(self).heartbeat_map()[heartbeats@[i].executor_id@].timestamp >= heartbeats@[i].timestamp,
    {
        let ghost all = heartbeats@;
        let mut rest = heartbeats;
        let ghost mut k: int = 0;
        while rest.len() > 0
            invariant
                self.wf(),
                self.metadata_map() == old(self).metadata_map(),
                self.ledger() == old(self).ledger(),
                rest@ == all.skip(k),
                0 <= k <= all.len(),
                forall|id: Seq<char>| #[trigger]
                    old(self).heartbeat_map().contains_key(id) ==> self.heartbeat_map().contains_key(id)
                        && self.heartbeat_map()[id].timestamp >= old(self).heartbeat_map()[id].timestamp,
                forall|i: int|
                    0 <= i < k ==> self.heartbeat_map().contains_key((#[trigger] all[i]).executor_id@)
                        && self.heartbeat_map()[all[i].executor_id@].timestamp >= all[i].timestamp,
            decreases rest@.len(),
        {
            let hb = rest.remove(0);
            proof {
                assert(hb == all[k]);
                assert(rest@ =~= all.skip(k + 1));
            }
            self.save_executor_heartbeat(hb);
            proof {
                k = k + 1;
            }
        }
    }
}

} // verus!
