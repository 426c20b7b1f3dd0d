use vstd::prelude::*;

use crate::reservation::ExecutorReservation;

verus! {

/// Method of distributing tasks to available executor slots.
#[derive(Debug, Clone, Copy, PartialEq, Eq, Structural)]
pub enum TaskDistribution {
    /// Fill each executor's free slots before moving on to the next one.
    Bias,
    /// Take one slot from each executor per pass, until enough slots are taken.
    RoundRobin,
}

/// The free slots of one executor that a reservation may draw from.
#[derive(Debug)]
pub struct AvailableTaskSlots {
    pub executor_id: String,
    pub slots: u32,
}

/// Sum of the free slots of the first `i` entries.
pub open spec fn psum(s: Seq<AvailableTaskSlots>, i: int) -> int
    decreases i,
{
    if i <= 0 || i > s.len() {
        0
    } else {
        psum(s, i - 1) + s[i - 1].slots
    }
}

/// Sum of the free slots of all entries.
pub open spec fn total_slots(s: Seq<AvailableTaskSlots>) -> int {
    psum(s, s.len() as int)
}

/// Number of reservations in `rs` that are bound to executor `id`.
pub open spec fn count_for(rs: Seq<ExecutorReservation>, id: Seq<char>) -> nat
    decreases rs.len(),
{
    if rs.len() == 0 {
        0
    } else {
        count_for(rs.drop_last(), id) + if rs.last().executor_id@ == id {
            1nat
        } else {
            0nat
        }
    }
}

/// Executor ids are pairwise distinct.
pub open spec fn unique_ids(s: Seq<AvailableTaskSlots>) -> bool {
    forall|i: int, j: int|
        0 <= i < s.len() && 0 <= j < s.len() && i != j ==> #[trigger] s[i].executor_id@
            != #[trigger] s[j].executor_id@
}

/// Every reservation is free and bound to one of the executors of `s`.
pub open spec fn free_on(rs: Seq<ExecutorReservation>, s: Seq<AvailableTaskSlots>) -> bool {
    forall|k: int|
        0 <= k < rs.len() ==> (#[trigger] rs[k]).job_id.is_none() && exists|i: int|
            0 <= i < s.len() && rs[k].executor_id@ == s[i].executor_id@
}

/// What the bias policy takes from entry `i` when `n` slots are asked for:
/// whatever the entries before it left of the demand, capped by its free slots.
pub open spec fn bias_take(s: Seq<AvailableTaskSlots>, n: int, i: int) -> int {
    let left = n - psum(s, i);
    if left <= 0 {
        0
    } else if left < s[i].slots {
        left
    } else {
        s[i].slots as int
    }
}

/// The reservations the bias policy returns, in order: for each entry in turn, as many free
/// reservations on its executor as it gives up.
pub open spec fn bias_order(s: Seq<AvailableTaskSlots>, n: int, i: int) -> Seq<ExecutorReservation>
    decreases i,
{
    if i <= 0 || i > s.len() {
        Seq::empty()
    } else {
        bias_order(s, n, i - 1) + Seq::new(
            bias_take(s, n, i - 1) as nat,
            |q: int| ExecutorReservation { executor_id: s[i - 1].executor_id, job_id: None },
        )
    }
}

pub open spec fn min(a: int, b: int) -> int {
    if a <= b {
        a
    } else {
        b
    }
}

pub proof fn lemma_psum_nonneg(s: Seq<AvailableTaskSlots>, i: int)
    ensures
        psum(s, i) >= 0,
    decreases i,
{
    if i > 0 && i <= s.len() {
        lemma_psum_nonneg(s, i - 1);
    }
}

/// Prefix sums grow with the prefix.
pub proof fn lemma_psum_mono(s: Seq<AvailableTaskSlots>, i: int, j: int)
    requires
        0 <= i <= j <= s.len(),
    ensures
        psum(s, i) <= psum(s, j),
    decreases j - i,
{
    if i < j {
        lemma_psum_mono(s, i, j - 1);
    }
}

/// Changing the free slots of entry `j` changes every prefix sum that covers it by the same amount.
pub proof fn lemma_psum_update(s: Seq<AvailableTaskSlots>, t: Seq<AvailableTaskSlots>, j: int, i: int)
    requires
        s.len() == t.len(),
        0 <= j < s.len(),
        forall|k: int| 0 <= k < s.len() && k != j ==> #[trigger] t[k].slots == s[k].slots,
    ensures
        0 <= i <= s.len() && i > j ==> psum(t, i) == psum(s, i) - s[j].slots + t[j].slots,
        0 <= i <= s.len() && i <= j ==> psum(t, i) == psum(s, i),
    decreases i,
{
    if i > 0 && i <= s.len() {
        lemma_psum_update(s, t, j, i - 1);
    }
}

/// Prefix sums of entry-wise equal sequences agree.
pub proof fn lemma_psum_same(s: Seq<AvailableTaskSlots>, t: Seq<AvailableTaskSlots>, i: int)
    requires
        s.len() == t.len(),
        forall|k: int| 0 <= k < s.len() ==> #[trigger] t[k].slots == s[k].slots,
    ensures
        psum(t, i) == psum(s, i),
    decreases i,
{
    if i > 0 && i <= s.len() {
        lemma_psum_same(s, t, i - 1);
    }
}

pub proof fn lemma_count_push(rs: Seq<ExecutorReservation>, r: ExecutorReservation, id: Seq<char>)
    ensures
        count_for(rs.push(r), id) == count_for(rs, id) + if r.executor_id@ == id {
            1nat
        } else {
            0nat
        },
{
    assert(rs.push(r).drop_last() =~= rs);
}

/// The bias policy: drain each executor in turn until `n` slots are taken.
/// Entry `i` loses exactly `bias_take(old, n, i)` slots, and the result holds that many
/// free reservations on its executor.
pub fn reserve_slots_bias(slots: &mut Vec<AvailableTaskSlots>, n: u32) -> (r: Vec<ExecutorReservation>)
    requires
        unique_ids(old(slots)@),
    ensures
        final(slots)@.len() == old(slots)@.len(),
        forall|i: int|
            0 <= i < old(slots)@.len() ==> #[trigger] final(slots)@[i].executor_id
                == old(slots)@[i].executor_id && final(slots)@[i].slots == old(slots)@[i].slots
                - bias_take(old(slots)@, n as int, i),
        r@.len() == min(n as int, total_slots(old(slots)@)),
        forall|i: int|
            0 <= i < old(slots)@.len() ==> count_for(r@, #[trigger] old(slots)@[i].executor_id@)
                == old(slots)@[i].slots - final(slots)@[i].slots,
        free_on(r@, old(slots)@),
        r@ == bias_order(old(slots)@, n as int, old(slots)@.len() as int),
{
    let ghost s0 = slots@;
    let mut reservations: Vec<ExecutorReservation> = Vec::new();
    let mut desired: u32 = n;
    let mut i: usize = 0;
    proof {
        lemma_psum_nonneg(s0, 0);
    }
    while i < slots.len()
        invariant
            0 <= i <= slots@.len(),
            slots@.len() == s0.len(),
            unique_ids(s0),
            desired == if psum(s0, i as int) >= n { 0 } else { n - psum(s0, i as int) },
            reservations@.len() == min(n as int, psum(s0, i as int)),
            forall|k: int|
                0 <= k < s0.len() ==> #[trigger] slots@[k].executor_id == s0[k].executor_id,
            forall|k: int|
                0 <= k < i ==> #[trigger] slots@[k].slots == s0[k].slots - bias_take(s0, n as int, k),
            forall|k: int| i <= k < s0.len() ==> #[trigger] slots@[k].slots == s0[k].slots,
            forall|k: int|
                0 <= k < s0.len() ==> count_for(reservations@, #[trigger] s0[k].executor_id@)
                    == s0[k].slots - slots@[k].slots,
            free_on(reservations@, s0),
            reservations@ == bias_order(s0, n as int, i as int),
        decreases s0.len() - i,
    {
        proof {
            lemma_psum_nonneg(s0, i as int);
        }
        let avail = slots[i].slots;
        let take = if avail < desired { avail } else { desired };
        let id = slots[i].executor_id.clone();
        let mut t: u32 = 0;
        while t < take
            invariant
                0 <= t <= take,
                take <= avail,
                take <= desired,
                i < s0.len(),
                avail == s0[i as int].slots,
                id == s0[i as int].executor_id,
                unique_ids(s0),
                reservations@.len() == min(n as int, psum(s0, i as int)) + t,
                forall|k: int|
                    0 <= k < s0.len() && k != i ==> count_for(reservations@, #[trigger] s0[k].executor_id@)
                        == s0[k].slots - slots@[k].slots,
                count_for(reservations@, s0[i as int].executor_id@) == t,
                forall|k: int| 0 <= k < s0.len() ==> #[trigger] slots@[k].executor_id == s0[k].executor_id,
                slots@[i as int].slots == s0[i as int].slots,
                slots@.len() == s0.len(),
                free_on(reservations@, s0),
                reservations@ == bias_order(s0, n as int, i as int) + Seq::new(
                    t as nat,
                    |q: int| ExecutorReservation { executor_id: s0[i as int].executor_id, job_id: None },
                ),
            decreases take - t,
        {
            let r = ExecutorReservation::new_free(id.clone());
            proof {
                assert forall|k: int| 0 <= k < s0.len() implies #[trigger] count_for(
                    reservations@.push(r),
                    s0[k].executor_id@,
                ) == count_for(reservations@, s0[k].executor_id@) + if k == i {
                    1nat
                } else {
                    0nat
                } by {
                    lemma_count_push(reservations@, r, s0[k].executor_id@);
                    if k != i {
                        assert(s0[k].executor_id@ != s0[i as int].executor_id@);
                    }
                }
                assert forall|m: int| 0 <= m < reservations@.push(r).len() implies (#[trigger] reservations@.push(r)[m]).job_id.is_none() && exists|q: int|
                    0 <= q < s0.len() && reservations@.push(r)[m].executor_id@ == s0[q].executor_id@ by {
                    if m == reservations@.len() {
                        assert(reservations@.push(r)[m].executor_id@ == s0[i as int].executor_id@);
                    } else {
                        assert(reservations@.push(r)[m] == reservations@[m]);
                    }
                }
            }
            let ghost prev = reservations@;
            reservations.push(r);
            proof {
                assert(reservations@ =~= bias_order(s0, n as int, i as int) + Seq::new(
                    (t + 1) as nat,
                    |q: int| ExecutorReservation { executor_id: s0[i as int].executor_id, job_id: None },
                ));
            }
            t = t + 1;
        }
        let ghost before = slots@;
        slots[i].slots = avail - take;
        desired = desired - take;
        proof {
            lemma_psum_nonneg(s0, i as int);
            assert(take == bias_take(s0, n as int, i as int));
            assert(reservations@ =~= bias_order(s0, n as int, i as int + 1));
            assert(psum(s0, i as int + 1) == psum(s0, i as int) + s0[i as int].slots);
        }
        i = i + 1;
    }
    reservations
}

/// Slots taken from entry `j` between `s0` and `s`.
pub open spec fn taken(s0: Seq<AvailableTaskSlots>, s: Seq<AvailableTaskSlots>, j: int) -> int {
    s0[j].slots - s[j].slots
}

/// No executor that keeps free slots gave up two slots fewer than another one did.
pub open spec fn balanced(s0: Seq<AvailableTaskSlots>, s: Seq<AvailableTaskSlots>) -> bool {
    forall|i: int, j: int|
        0 <= i < s.len() && 0 <= j < s.len() && s[i].slots > 0 ==> #[trigger] taken(s0, s, j)
            <= #[trigger] taken(s0, s, i) + 1
}

proof fn lemma_psum_zero(s: Seq<AvailableTaskSlots>, i: int)
    requires
        forall|k: int| 0 <= k < s.len() ==> #[trigger] s[k].slots == 0,
    ensures
        psum(s, i) == 0,
    decreases i,
{
    if i > 0 && i <= s.len() {
        lemma_psum_zero(s, i - 1);
    }
}

/// The round-robin policy: take one free slot from each executor per pass until `n` slots
/// are taken or none are left. As many slots are taken as can be, and the load is balanced.
pub fn reserve_slots_round_robin(slots: &mut Vec<AvailableTaskSlots>, n: u32) -> (r: Vec<
    ExecutorReservation,
>)
    requires
        unique_ids(old(slots)@),
    ensures
        final(slots)@.len() == old(slots)@.len(),
        forall|i: int|
            0 <= i < old(slots)@.len() ==> #[trigger] final(slots)@[i].executor_id
                == old(slots)@[i].executor_id && final(slots)@[i].slots <= old(slots)@[i].slots,
        r@.len() == min(n as int, total_slots(old(slots)@)),
        forall|i: int|
            0 <= i < old(slots)@.len() ==> count_for(r@, #[trigger] old(slots)@[i].executor_id@)
                == old(slots)@[i].slots - final(slots)@[i].slots,
        free_on(r@, old(slots)@),
        balanced(old(slots)@, final(slots)@),
{
    let ghost s0 = slots@;
    let ghost len = s0.len() as int;
    let mut reservations: Vec<ExecutorReservation> = Vec::new();
    let mut desired: u32 = n;
    let mut done = false;
    let ghost mut k: int = 0;
    proof {
        lemma_psum_same(s0, slots@, len);
    }
    while !done
        invariant
            slots@.len() == s0.len(),
            len == s0.len(),
            unique_ids(s0),
            k >= 0,
            reservations@.len() + desired == n,
            psum(slots@, len) + reservations@.len() == psum(s0, len),
            forall|j: int| 0 <= j < len ==> #[trigger] slots@[j].executor_id == s0[j].executor_id,
            forall|j: int| 0 <= j < len ==> #[trigger] slots@[j].slots <= s0[j].slots,
            !done ==> forall|j: int|
                0 <= j < len ==> #[trigger] taken(s0, slots@, j) == min(s0[j].slots as int, k),
            forall|j: int|
                0 <= j < len ==> count_for(reservations@, #[trigger] s0[j].executor_id@) == s0[j].slots
                    - slots@[j].slots,
            free_on(reservations@, s0),
            done ==> reservations@.len() == min(n as int, psum(s0, len)),
            done ==> balanced(s0, slots@),
        decreases psum(s0, len) - reservations@.len() + if done { 0int } else { 1int },
    {
        proof {
            lemma_psum_nonneg(slots@, len);
        }
        if desired == 0 {
            proof {
                assert forall|i: int, j: int|
                    0 <= i < len && 0 <= j < len && slots@[i].slots > 0 implies #[trigger] taken(s0, slots@, j)
                    <= #[trigger] taken(s0, slots@, i) + 1 by {
                    assert(taken(s0, slots@, i) == min(s0[i].slots as int, k));
                    assert(taken(s0, slots@, j) == min(s0[j].slots as int, k));
                }
            }
            done = true;
        } else {
            let ghost start = reservations@.len();
            let mut progress = false;
            let mut i: usize = 0;
            while i < slots.len() && desired > 0
                invariant
                    0 <= i <= len,
                    slots@.len() == s0.len(),
                    len == s0.len(),
                    unique_ids(s0),
                    k >= 0,
                    reservations@.len() + desired == n,
                    psum(slots@, len) + reservations@.len() == psum(s0, len),
                    forall|j: int| 0 <= j < len ==> #[trigger] slots@[j].executor_id == s0[j].executor_id,
                    forall|j: int| 0 <= j < len ==> #[trigger] slots@[j].slots <= s0[j].slots,
                    forall|j: int|
                        0 <= j < i ==> #[trigger] taken(s0, slots@, j) == min(s0[j].slots as int, k + 1),
                    forall|j: int|
                        i <= j < len ==> #[trigger] taken(s0, slots@, j) == min(s0[j].slots as int, k),
                    forall|j: int|
                        0 <= j < len ==> count_for(reservations@, #[trigger] s0[j].executor_id@)
                            == s0[j].slots - slots@[j].slots,
                    free_on(reservations@, s0),
                    progress <==> reservations@.len() > start,
                    reservations@.len() >= start,
                    progress <==> exists|j: int| 0 <= j < i && #[trigger] s0[j].slots > k,
                decreases len - i,
            {
                if slots[i].slots > 0 {
                    proof {
                        assert(taken(s0, slots@, i as int) == min(s0[i as int].slots as int, k));
                        assert(s0[i as int].slots > k);
                    }
                    let r = ExecutorReservation::new_free(slots[i].executor_id.clone());
                    proof {
                        assert forall|q: int| 0 <= q < len implies #[trigger] count_for(
                            reservations@.push(r),
                            s0[q].executor_id@,
                        ) == count_for(reservations@, s0[q].executor_id@) + if q == i {
                            1nat
                        } else {
                            0nat
                        } by {
                            lemma_count_push(reservations@, r, s0[q].executor_id@);
                            if q != i {
                                assert(s0[q].executor_id@ != s0[i as int].executor_id@);
                            }
                        }
                        assert forall|m: int| 0 <= m < reservations@.push(r).len() implies (
                        #[trigger] reservations@.push(r)[m]).job_id.is_none() && exists|q: int|
                            0 <= q < s0.len() && reservations@.push(r)[m].executor_id@
                                == s0[q].executor_id@ by {
                            if m == reservations@.len() {
                                assert(reservations@.push(r)[m].executor_id@ == s0[i as int].executor_id@);
                            } else {
                                assert(reservations@.push(r)[m] == reservations@[m]);
                            }
                        }
                    }
                    reservations.push(r);
                    let ghost before = slots@;
                    slots[i].slots = slots[i].slots - 1;
                    desired = desired - 1;
                    progress = true;
                    proof {
                        lemma_psum_update(before, slots@, i as int, len);
                        assert forall|j: int| 0 <= j < len && j != i implies #[trigger] taken(s0, slots@, j)
                            == taken(s0, before, j) by {
                            assert(slots@[j] == before[j]);
                        }
                        assert(taken(s0, slots@, i as int) == min(s0[i as int].slots as int, k + 1));
                    }
                } else {
                    proof {
                        assert(taken(s0, slots@, i as int) == s0[i as int].slots);
                        assert(!(s0[i as int].slots > k));
                    }
                }
                i = i + 1;
            }
            proof {
                lemma_psum_nonneg(slots@, len);
            }
            if !progress {
                proof {
                    assert forall|q: int| 0 <= q < len implies #[trigger] slots@[q].slots == 0 by {
                        assert(!(s0[q].slots > k));
                        assert(taken(s0, slots@, q) == min(s0[q].slots as int, k));
                    }
                    lemma_psum_zero(slots@, len);
                }
                done = true;
            } else if desired == 0 {
                proof {
                    assert forall|a: int, b: int|
                        0 <= a < len && 0 <= b < len && slots@[a].slots > 0 implies #[trigger] taken(s0, slots@, b)
                        <= #[trigger] taken(s0, slots@, a) + 1 by {
                        if a < i {
                            assert(taken(s0, slots@, a) == min(s0[a].slots as int, k + 1));
                        } else {
                            assert(taken(s0, slots@, a) == min(s0[a].slots as int, k));
                        }
                        if b < i {
                            assert(taken(s0, slots@, b) == min(s0[b].slots as int, k + 1));
                        } else {
                            assert(taken(s0, slots@, b) == min(s0[b].slots as int, k));
                        }
                    }
                }
                done = true;
            } else {
                proof {
                    k = k + 1;
                }
            }
        }
    }
    reservations
}

} // verus!
