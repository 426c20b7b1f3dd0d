use vstd::prelude::*;
use vstd::string::StringSliceAdditionalSpecFns;

verus! {

/// The namespaces of the state backend.
#[derive(Debug, Clone, Copy, PartialEq, Eq, Structural, Hash)]
pub enum Keyspace {
    Executors,
    JobStatus,
    ExecutionGraph,
    ActiveJobs,
    CompletedJobs,
    FailedJobs,
    Slots,
    Sessions,
    Heartbeats,
}

/// One write of a transaction: store a value, or delete the key.
#[derive(Debug, PartialEq, Eq, Hash)]
pub enum Operation {
    Put(Vec<u8>),
    Delete,
}

/// A change that a watch on the state backend observed.
#[derive(Debug, PartialEq, Eq)]
pub enum WatchEvent {
    /// The key was inserted or updated; carries the new value.
    Put(String, Vec<u8>),
    /// The key was deleted.
    Delete(String),
}

/// A lock on a key of the state backend, released by `unlock` or when dropped.
pub trait Lock {
    fn unlock(&mut self);
}

impl WatchEvent {
    /// The key that changed.
    pub fn key(&self) -> (r: &String)
        ensures
            *r == match self {
                WatchEvent::Put(k, _) => *k,
                WatchEvent::Delete(k) => *k,
            },
    {
        match self {
            WatchEvent::Put(k, _) => k,
            WatchEvent::Delete(k) => k,
        }
    }
}

/// Position of a keyspace in the order of the keyspaces' names.
pub open spec fn keyspace_rank(k: Keyspace) -> int {
    match k {
        Keyspace::ActiveJobs => 0,
        Keyspace::CompletedJobs => 1,
        Keyspace::ExecutionGraph => 2,
        Keyspace::Executors => 3,
        Keyspace::FailedJobs => 4,
        Keyspace::Heartbeats => 5,
        Keyspace::JobStatus => 6,
        Keyspace::Sessions => 7,
        Keyspace::Slots => 8,
    }
}

fn keyspace_rank_of(k: &Keyspace) -> (r: u8)
    ensures
        r == keyspace_rank(*k),
{
    match k {
        Keyspace::ActiveJobs => 0,
        Keyspace::CompletedJobs => 1,
        Keyspace::ExecutionGraph => 2,
        Keyspace::Executors => 3,
        Keyspace::FailedJobs => 4,
        Keyspace::Heartbeats => 5,
        Keyspace::JobStatus => 6,
        Keyspace::Sessions => 7,
        Keyspace::Slots => 8,
    }
}

/// `a` comes no later than `b` in byte-wise lexicographic order.
pub open spec fn bytes_le(a: Seq<u8>, b: Seq<u8>) -> bool
    decreases a.len(),
{
    if a.len() == 0 {
        true
    } else if b.len() == 0 {
        false
    } else if a[0] != b[0] {
        a[0] < b[0]
    } else {
        bytes_le(a.drop_first(), b.drop_first())
    }
}

pub proof fn lemma_bytes_le_total(a: Seq<u8>, b: Seq<u8>)
    ensures
        bytes_le(a, b) || bytes_le(b, a),
    decreases a.len(),
{
    if a.len() > 0 && b.len() > 0 && a[0] == b[0] {
        lemma_bytes_le_total(a.drop_first(), b.drop_first());
    }
}

pub proof fn lemma_bytes_le_trans(a: Seq<u8>, b: Seq<u8>, c: Seq<u8>)
    requires
        bytes_le(a, b),
        bytes_le(b, c),
    ensures
        bytes_le(a, c),
    decreases a.len(),
{
    if a.len() > 0 && b.len() > 0 && c.len() > 0 && a[0] == b[0] && b[0] == c[0] {
        lemma_bytes_le_trans(a.drop_first(), b.drop_first(), c.drop_first());
    }
}

/// The bytes that order a key: its UTF-8 encoding, whose byte order is the order of `String`s.
pub open spec fn key_bytes(key: String) -> Seq<u8> {
    vstd::utf8::encode_utf8(key@)
}

/// Lock `a` is taken no later than lock `b`: by keyspace, then by key.
pub open spec fn lock_le(a: (Keyspace, String), b: (Keyspace, String)) -> bool {
    keyspace_rank(a.0) < keyspace_rank(b.0) || (keyspace_rank(a.0) == keyspace_rank(b.0) && bytes_le(
        key_bytes(a.1),
        key_bytes(b.1),
    ))
}

pub proof fn lemma_lock_le_trans(a: (Keyspace, String), b: (Keyspace, String), c: (Keyspace, String))
    requires
        lock_le(a, b),
        lock_le(b, c),
    ensures
        lock_le(a, c),
{
    if keyspace_rank(a.0) == keyspace_rank(b.0) && keyspace_rank(b.0) == keyspace_rank(c.0) {
        lemma_bytes_le_trans(key_bytes(a.1), key_bytes(b.1), key_bytes(c.1));
    }
}

/// The locks are in the order in which they are taken.
pub open spec fn lock_sorted(s: Seq<(Keyspace, String)>) -> bool {
    forall|i: int, j: int| 0 <= i < j < s.len() ==> lock_le(#[trigger] s[i], #[trigger] s[j])
}

fn bytes_le_of(a: &[u8], b: &[u8]) -> (r: bool)
    ensures
        r == bytes_le(a@, b@),
{
    let mut i: usize = 0;
    proof {
        assert(a@.skip(0) =~= a@);
        assert(b@.skip(0) =~= b@);
    }
    while i < a.len() && i < b.len() && a[i] == b[i]
        invariant
            0 <= i <= a@.len(),
            i <= b@.len(),
            bytes_le(a@, b@) == bytes_le(a@.skip(i as int), b@.skip(i as int)),
        decreases a@.len() - i,
    {
        proof {
            assert(a@.skip(i as int).drop_first() =~= a@.skip(i as int + 1));
            assert(b@.skip(i as int).drop_first() =~= b@.skip(i as int + 1));
        }
        i = i + 1;
    }
    if i == a.len() {
        true
    } else if i == b.len() {
        false
    } else {
        a[i] < b[i]
    }
}

fn lock_le_of(a: &(Keyspace, String), b: &(Keyspace, String)) -> (r: bool)
    ensures
        r == lock_le(*a, *b),
{
    let ra = keyspace_rank_of(&a.0);
    let rb = keyspace_rank_of(&b.0);
    if ra != rb {
        ra < rb
    } else {
        bytes_le_of(a.1.as_str().as_bytes(), b.1.as_str().as_bytes())
    }
}

/// The locks on `ids` in the one order in which every caller takes them, by keyspace and
/// then by key, so that two callers never wait on each other.
pub fn lock_order(ids: Vec<(Keyspace, String)>) -> (r: Vec<(Keyspace, String)>)
    ensures
        lock_sorted(r@),
        r@.to_multiset() == ids@.to_multiset(),
{
    let ghost all = ids@;
    let mut rest = ids;
    let mut out: Vec<(Keyspace, String)> = Vec::new();
    let ghost mut k: int = 0;
    proof {
        assert(all.take(0) =~= Seq::<(Keyspace, String)>::empty());
    }
    while rest.len() > 0
        invariant
            0 <= k <= all.len(),
            rest@ == all.skip(k),
            lock_sorted(out@),
            out@.to_multiset() == all.take(k).to_multiset(),
        decreases rest@.len(),
    {
        let x = rest.remove(0);
        proof {
            assert(x == all[k]);
            assert(rest@ =~= all.skip(k + 1));
            assert(all.take(k + 1) =~= all.take(k).push(x));
        }
        let mut p: usize = 0;
        while p < out.len() && lock_le_of(&out[p], &x)
            invariant
                0 <= p <= out@.len(),
                forall|q: int| 0 <= q < p ==> lock_le(#[trigger] out@[q], x),
            decreases out@.len() - p,
        {
            p = p + 1;
        }
        let ghost before = out@;
        out.insert(p, x);
        proof {
            assert(out@ == before.insert(p as int, x));
            if p < before.len() {
                assert(!lock_le(before[p as int], x));
                lemma_bytes_le_total(key_bytes(before[p as int].1), key_bytes(x.1));
                assert(lock_le(x, before[p as int]));
            }
            assert forall|i: int, j: int| 0 <= i < j < out@.len() implies lock_le(#[trigger] out@[i], #[trigger] out@[j]) by {
                if j < p {
                    assert(out@[i] == before[i] && out@[j] == before[j]);
                } else if j == p {
                    assert(out@[i] == before[i]);
                } else if i == p {
                    assert(out@[j] == before[j - 1]);
                    if j - 1 > p {
                        assert(lock_le(before[p as int], before[j - 1]));
                        lemma_lock_le_trans(x, before[p as int], before[j - 1]);
                    }
                } else if i < p {
                    assert(out@[i] == before[i] && out@[j] == before[j - 1]);
                } else {
                    assert(out@[i] == before[i - 1] && out@[j] == before[j - 1]);
                }
            }
            vstd::seq_lib::to_multiset_insert(before, p as int, x);
            vstd::seq_lib::to_multiset_build(all.take(k), x);
            assert(all.take(k + 1) == all.take(k).push(x));
            k = k + 1;
        }
    }
    proof {
        assert(all.take(all.len() as int) =~= all);
    }
    out
}

} // verus!
