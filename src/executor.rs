use vstd::prelude::*;

use crate::executor_info::ExecutorSpecification;
use futures::future::AbortHandle;

verus! {

#[verifier::external_type_specification]
#[verifier::external_body]
pub struct ExAbortHandle(AbortHandle);

/// Relies on futures::future::AbortHandle::abort: marks the abortable task as aborted and
/// wakes it, so that its next poll ends with `Aborted`.
#[verifier::external_body]
fn abort_handle(handle: &AbortHandle) {
    handle.abort()
}

/// How an executor registers itself: its id, ports, slots, and optionally its host.
#[derive(Debug)]
pub struct ExecutorRegistration {
    pub id: String,
    pub port: u32,
    pub grpc_port: u32,
    pub specification: Option<ExecutorSpecification>,
    pub optional_host: Option<String>,
}

/// The task of partition `partition` of stage `stage_id` of job `job_id`.
pub open spec fn task_key(job_id: Seq<char>, stage_id: usize, partition: usize) -> (Seq<char>, usize, usize) {
    (job_id, stage_id, partition)
}

/// An executor: its registration, its working directory, and the abort handles of the
/// tasks it is running.
pub struct Executor {
    metadata: ExecutorRegistration,
    work_dir: String,
    abort_handles: Vec<(String, usize, usize, AbortHandle)>,
}

impl Executor {
    pub closed spec fn registration(&self) -> ExecutorRegistration {
        self.metadata
    }

    pub closed spec fn work_dir_view(&self) -> Seq<char> {
        self.work_dir@
    }

    /// The keys of the tasks that can be cancelled, in the order they were started.
    pub closed spec fn running(&self) -> Seq<(Seq<char>, usize, usize)> {
        self.abort_handles@.map_values(|e: (String, usize, usize, AbortHandle)| (e.0@, e.1, e.2))
    }

    pub closed spec fn wf(&self) -> bool {
        forall|a: int, b: int|
            0 <= a < self.running().len() && 0 <= b < self.running().len() && a != b ==> #[trigger] self.running()[a]
                != #[trigger] self.running()[b]
    }

    /// An executor that runs nothing yet.
    pub fn new(metadata: ExecutorRegistration, work_dir: &str) -> (r: Self)
        ensures
            r.wf(),
            r.running().len() == 0,
            r.work_dir_view() == work_dir@,
            r.registration() == metadata,
    {
        let r = Executor { metadata, work_dir: work_dir.to_owned(), abort_handles: Vec::new() };
        assert(r.running() =~= Seq::empty());
        r
    }

    /// How the executor registered itself.
    pub fn registration_ref(&self) -> (r: &ExecutorRegistration)
        ensures
            *r == self.registration(),
    {
        &self.metadata
    }

    /// Directory where the executor stores partial results.
    pub fn work_dir(&self) -> (r: &str)
        ensures
            r@ == self.work_dir_view(),
    {
        self.work_dir.as_str()
    }

    fn find_task(&self, job_id: &String, stage_id: usize, partition: usize) -> (r: Option<usize>)
        ensures
            match r {
                Some(i) => i < self.running().len() && self.running()[i as int] == task_key(job_id@, stage_id, partition),
                None => !self.running().contains(task_key(job_id@, stage_id, partition)),
            },
    {
        let ghost key = task_key(job_id@, stage_id, partition);
        let mut i: usize = 0;
        while i < self.abort_handles.len()
            invariant
                0 <= i <= self.abort_handles@.len(),
                self.running().len() == self.abort_handles@.len(),
                key == task_key(job_id@, stage_id, partition),
                forall|q: int| 0 <= q < i ==> #[trigger] self.running()[q] != key,
            decreases self.abort_handles@.len() - i,
        {
            let e = &self.abort_handles[i];
            proof {
                assert(self.running()[i as int] == (e.0@, e.1, e.2));
            }
            let same_job = e.0.eq(job_id);
            if same_job && e.1 == stage_id && e.2 == partition {
                return Some(i);
            }
            proof {
                assert(self.running()[i as int] != key);
            }
            i = i + 1;
        }
        None
    }

    /// Remember the abort handle of a task that starts running, in place of any handle
    /// kept for the same task.
    pub fn register_task(&mut self, job_id: String, stage_id: usize, partition: usize, handle: AbortHandle)
        requires
            old(self).wf(),
        ensures
            final(self).wf(),
            final(self).running().contains(task_key(job_id@, stage_id, partition)),
            forall|k: (Seq<char>, usize, usize)|
                k != task_key(job_id@, stage_id, partition) ==> (final(self).running().contains(k)
                    <==> old(self).running().contains(k)),
            final(self).registration() == old(self).registration(),
            final(self).work_dir_view() == old(self).work_dir_view(),
    {
        let ghost key = task_key(job_id@, stage_id, partition);
        let ghost before = self.running();
        match self.find_task(&job_id, stage_id, partition) {
            Some(i) => {
                self.abort_handles.set(i, (job_id, stage_id, partition, handle));
                proof {
                    assert(self.running() =~= before.update(i as int, key));
                    assert forall|k: (Seq<char>, usize, usize)| k != key implies (self.running().contains(k)
                        <==> before.contains(k)) by {
                        if before.contains(k) {
                            let q = choose|q: int| 0 <= q < before.len() && before[q] == k;
                            assert(self.running()[q] == k);
                        }
                        if self.running().contains(k) {
                            let q = choose|q: int| 0 <= q < self.running().len() && self.running()[q] == k;
                            assert(before[q] == k);
                        }
                    }
                    assert(self.running()[i as int] == key);
                }
            },
            None => {
                self.abort_handles.push((job_id, stage_id, partition, handle));
                proof {
                    assert(self.running() =~= before.push(key));
                    assert forall|k: (Seq<char>, usize, usize)| k != key implies (self.running().contains(k)
                        <==> before.contains(k)) by {
                        if before.contains(k) {
                            let q = choose|q: int| 0 <= q < before.len() && before[q] == k;
                            assert(self.running()[q] == k);
                        }
                        if self.running().contains(k) {
                            let q = choose|q: int| 0 <= q < self.running().len() && self.running()[q] == k;
                            assert(before[q] == k);
                        }
                    }
                    assert(self.running()[before.len() as int] == key);
                }
            },
        }
    }

    fn take_task(&mut self, job_id: &String, stage_id: usize, partition: usize) -> (r: Option<AbortHandle>)
        requires
            old(self).wf(),
        ensures
            final(self).wf(),
            r.is_some() == old(self).running().contains(task_key(job_id@, stage_id, partition)),
            !final(self).running().contains(task_key(job_id@, stage_id, partition)),
            forall|k: (Seq<char>, usize, usize)|
                k != task_key(job_id@, stage_id, partition) ==> (final(self).running().contains(k)
                    <==> old(self).running().contains(k)),
            final(self).registration() == old(self).registration(),
            final(self).work_dir_view() == old(self).work_dir_view(),
    {
        let ghost key = task_key(job_id@, stage_id, partition);
        let ghost before = self.running();
        match self.find_task(job_id, stage_id, partition) {
            Some(i) => {
                let e = self.abort_handles.remove(i);
                proof {
                    assert(self.running() =~= before.remove(i as int));
                    assert forall|q: int| 0 <= q < self.running().len() implies #[trigger] self.running()[q] == if q < i {
                        before[q]
                    } else {
                        before[q + 1]
                    } by {}
                    assert forall|k: (Seq<char>, usize, usize)| k != key implies (self.running().contains(k)
                        <==> before.contains(k)) by {
                        if before.contains(k) {
                            let q = choose|q: int| 0 <= q < before.len() && before[q] == k;
                            assert(q != i);
                            let t = if q < i { q } else { q - 1 };
                            assert(self.running()[t] == k);
                        }
                        if self.running().contains(k) {
                            let q = choose|q: int| 0 <= q < self.running().len() && self.running()[q] == k;
                            let t = if q < i { q } else { q + 1 };
                            assert(before[t] == k);
                        }
                    }
                    if self.running().contains(key) {
                        let q = choose|q: int| 0 <= q < self.running().len() && self.running()[q] == key;
                        let t = if q < i { q } else { q + 1 };
                        assert(before[t] == key);
                        assert(t != i);
                    }
                    assert forall|a: int, b: int|
                        0 <= a < self.running().len() && 0 <= b < self.running().len() && a != b implies #[trigger] self.running()[a]
                        != #[trigger] self.running()[b] by {
                        let ta = if a < i { a } else { a + 1 };
                        let tb = if b < i { b } else { b + 1 };
                        assert(before[ta] != before[tb]);
                    }
                }
                Some(e.3)
            },
            None => None,
        }
    }

    /// Forget the abort handle of a task that finished.
    pub fn finish_task(&mut self, job_id: &String, stage_id: usize, partition: usize) -> (r: bool)
        requires
            old(self).wf(),
        ensures
            final(self).wf(),
            r == old(self).running().contains(task_key(job_id@, stage_id, partition)),
            !final(self).running().contains(task_key(job_id@, stage_id, partition)),
            forall|k: (Seq<char>, usize, usize)|
                k != task_key(job_id@, stage_id, partition) ==> (final(self).running().contains(k)
                    <==> old(self).running().contains(k)),
    {
        self.take_task(job_id, stage_id, partition).is_some()
    }

    /// Abort the task if it is running here; tells whether it was. A task that was never
    /// registered, or already finished, is not cancelled.
    pub fn cancel_task(&mut self, job_id: &String, stage_id: usize, partition: usize) -> (r: bool)
        requires
            old(self).wf(),
        ensures
            final(self).wf(),
            r == old(self).running().contains(task_key(job_id@, stage_id, partition)),
            !final(self).running().contains(task_key(job_id@, stage_id, partition)),
            forall|k: (Seq<char>, usize, usize)|
                k != task_key(job_id@, stage_id, partition) ==> (final(self).running().contains(k)
                    <==> old(self).running().contains(k)),
    {
        match self.take_task(job_id, stage_id, partition) {
            Some(handle) => {
                abort_handle(&handle);
                true
            },
            None => false,
        }
    }
}

} // verus!
