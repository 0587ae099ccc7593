//! A cooperative task executor driven by wakeups: a task that suspends is
//! not run again until its wakeup handle fires.
use vstd::prelude::*;

verus! {

/// Where a task stands. A task's identifier is its index among all tasks
/// ever spawned, so identifiers are never reused.
#[derive(Clone, Copy, Debug, PartialEq, Eq, Structural)]
pub enum TaskState {
    /// In the run queue, waiting for its next step.
    Queued,
    /// Taking a step; `woken` records a wakeup that came meanwhile.
    Running { woken: bool },
    /// Parked until its wakeup handle fires.
    Suspended,
    /// Finished; it never runs again.
    Completed,
}

/// What one step of a task reports.
#[derive(Clone, Copy, Debug, PartialEq, Eq, Structural)]
pub enum StepOutcome {
    /// The task has finished.
    Done,
    /// The task waits for a wakeup.
    Pending,
}

/// The scheduler state: every task's state, and the run queue of the
/// identifiers of the runnable tasks, in the order they became runnable.
pub struct Executor {
    pub tasks: Vec<TaskState>,
    pub run_queue: Vec<usize>,
}

impl Executor {
    /// The run queue holds each queued task exactly once, and nothing else.
    pub open spec fn wf(&self) -> bool {
        &&& self.tasks@.len() <= usize::MAX
        &&& self.run_queue@.no_duplicates()
        &&& forall|k: int|
            0 <= k < self.run_queue@.len() ==> (#[trigger] self.run_queue@[k]) < self.tasks@.len()
        &&& forall|id: usize|
            id < self.tasks@.len() ==> (#[trigger] self.run_queue@.contains(id) <==> self.tasks@[id as int]
                == TaskState::Queued)
    }

    /// An executor with no task.
    pub fn new() -> (r: Self)
        ensures
            r.wf(),
            r.tasks@.len() == 0,
            r.run_queue@.len() == 0,
    {
        Executor { tasks: Vec::new(), run_queue: Vec::new() }
    }

    /// Adds a task under a fresh identifier and makes it runnable.
    pub fn spawn(&mut self) -> (id: usize)
        requires
            old(self).wf(),
            old(self).tasks@.len() < usize::MAX,
        ensures
            final(self).wf(),
            id == old(self).tasks@.len(),
            final(self).tasks@ == old(self).tasks@.push(TaskState::Queued),
            final(self).run_queue@ == old(self).run_queue@.push(id),
    {
        let id = self.tasks.len();
        self.tasks.push(TaskState::Queued);
        self.run_queue.push(id);
        proof {
            let old_q = old(self).run_queue@;
            assert(!old_q.contains(id));
            assert forall|x: usize| x < self.tasks@.len() implies (#[trigger] self.run_queue@.contains(x)
                <==> self.tasks@[x as int] == TaskState::Queued) by {
                if x != id {
                    assert(self.tasks@[x as int] == old(self).tasks@[x as int]);
                    if old_q.contains(x) {
                        let k = choose|k: int| 0 <= k < old_q.len() && old_q[k] == x;
                        assert(self.run_queue@[k] == x);
                    }
                    if self.run_queue@.contains(x) {
                        let k = choose|k: int| 0 <= k < self.run_queue@.len() && self.run_queue@[k] == x;
                        assert(old_q[k] == x);
                    }
                } else {
                    assert(self.run_queue@[old_q.len() as int] == id);
                }
            }
        }
        id
    }

    /// Takes the task at the front of the run queue and marks it running.
    /// Returns `None` when no task is runnable: the caller then waits for an
    /// interrupt.
    pub fn next_task(&mut self) -> (r: Option<usize>)
        requires
            old(self).wf(),
        ensures
            final(self).wf(),
            r is None <==> old(self).run_queue@.len() == 0,
            r is None ==> *final(self) == *old(self),
            match r {
                Some(id) => {
                    &&& id == old(self).run_queue@[0]
                    &&& old(self).tasks@[id as int] == TaskState::Queued
                    &&& final(self).tasks@ == old(self).tasks@.update(
                        id as int,
                        TaskState::Running { woken: false },
                    )
                    &&& final(self).run_queue@ == old(self).run_queue@.drop_first()
                },
                None => true,
            },
    {
        if self.run_queue.len() == 0 {
            return None;
        }
        let id = self.run_queue.remove(0);
        let ghost old_q = old(self).run_queue@;
        proof {
            assert(old_q.contains(id));
        }
        self.tasks.set(id, TaskState::Running { woken: false });
        proof {
            assert(self.run_queue@ =~= old_q.drop_first());
            assert forall|x: usize| x < self.tasks@.len() implies (#[trigger] self.run_queue@.contains(x)
                <==> self.tasks@[x as int] == TaskState::Queued) by {
                if self.run_queue@.contains(x) {
                    let k = choose|k: int| 0 <= k < self.run_queue@.len() && self.run_queue@[k] == x;
                    assert(old_q[k + 1] == x);
                    assert(old_q.contains(x));
                    assert(x != id);
                }
                if x != id && old_q.contains(x) {
                    let k = choose|k: int| 0 <= k < old_q.len() && old_q[k] == x;
                    assert(k != 0);
                    assert(self.run_queue@[k - 1] == x);
                }
            }
        }
        Some(id)
    }

    /// Records the outcome of the step that task `id` just took. A finished
    /// task completes; a pending one is suspended, or queued again at once if
    /// a wakeup came while it ran, so that no wakeup is missed.
    pub fn finish_step(&mut self, id: usize, outcome: StepOutcome)
        requires
            old(self).wf(),
            id < old(self).tasks@.len(),
            old(self).tasks@[id as int] is Running,
        ensures
            final(self).wf(),
            final(self).tasks@ == old(self).tasks@.update(
                id as int,
                match outcome {
                    StepOutcome::Done => TaskState::Completed,
                    StepOutcome::Pending => if old(self).tasks@[id as int] == (TaskState::Running { woken: true }) {
                        TaskState::Queued
                    } else {
                        TaskState::Suspended
                    },
                },
            ),
            final(self).run_queue@ == (if final(self).tasks@[id as int] == TaskState::Queued {
                old(self).run_queue@.push(id)
            } else {
                old(self).run_queue@
            }),
    {
        let woken = match self.tasks[id] {
            TaskState::Running { woken } => woken,
            _ => false,
        };
        let next = match outcome {
            StepOutcome::Done => TaskState::Completed,
            StepOutcome::Pending => if woken {
                TaskState::Queued
            } else {
                TaskState::Suspended
            },
        };
        self.tasks.set(id, next);
        let ghost old_q = old(self).run_queue@;
        proof {
            assert(!old_q.contains(id));
        }
        if woken && outcome == StepOutcome::Pending {
            self.run_queue.push(id);
        }
        proof {
            assert forall|x: usize| x < self.tasks@.len() implies (#[trigger] self.run_queue@.contains(x)
                <==> self.tasks@[x as int] == TaskState::Queued) by {
                if x != id {
                    if old_q.contains(x) {
                        let k = choose|k: int| 0 <= k < old_q.len() && old_q[k] == x;
                        assert(self.run_queue@[k] == x);
                    }
                    if self.run_queue@.contains(x) {
                        let k = choose|k: int| 0 <= k < self.run_queue@.len() && self.run_queue@[k] == x;
                        assert(old_q[k] == x);
                    }
                } else if self.tasks@[id as int] == TaskState::Queued {
                    assert(self.run_queue@[old_q.len() as int] == id);
                }
            }
        }
    }

    /// Fires the wakeup handle of task `id`: a suspended task becomes
    /// runnable and joins the back of the run queue once; a running task
    /// remembers the wakeup; any other task is left alone.
    pub fn wake(&mut self, id: usize)
        requires
            old(self).wf(),
        ensures
            final(self).wf(),
            id < old(self).tasks@.len() && old(self).tasks@[id as int] == TaskState::Suspended
                ==> final(self).tasks@ == old(self).tasks@.update(id as int, TaskState::Queued)
                && final(self).run_queue@ == old(self).run_queue@.push(id),
            id < old(self).tasks@.len() && old(self).tasks@[id as int] is Running
                ==> final(self).tasks@ == old(self).tasks@.update(
                id as int,
                TaskState::Running { woken: true },
            ) && final(self).run_queue@ == old(self).run_queue@,
            !(id < old(self).tasks@.len() && (old(self).tasks@[id as int] == TaskState::Suspended
                || old(self).tasks@[id as int] is Running)) ==> *final(self) == *old(self),
    {
        if id >= self.tasks.len() {
            return;
        }
        match self.tasks[id] {
            TaskState::Suspended => {
                self.tasks.set(id, TaskState::Queued);
                let ghost old_q = old(self).run_queue@;
                proof {
                    assert(!old_q.contains(id));
                }
                self.run_queue.push(id);
                proof {
                    assert forall|x: usize| x < self.tasks@.len() implies (#[trigger] self.run_queue@.contains(
                        x,
                    ) <==> self.tasks@[x as int] == TaskState::Queued) by {
                        if x != id {
                            if old_q.contains(x) {
                                let k = choose|k: int| 0 <= k < old_q.len() && old_q[k] == x;
                                assert(self.run_queue@[k] == x);
                            }
                            if self.run_queue@.contains(x) {
                                let k = choose|k: int|
                                    0 <= k < self.run_queue@.len() && self.run_queue@[k] == x;
                                assert(old_q[k] == x);
                            }
                        } else {
                            assert(self.run_queue@[old_q.len() as int] == id);
                        }
                    }
                }
            },
            TaskState::Running { woken: _ } => {
                self.tasks.set(id, TaskState::Running { woken: true });
            },
            _ => {},
        }
    }

    /// Whether some task has not completed yet.
    pub fn has_tasks(&self) -> (r: bool)
        ensures
            r == exists|id: int|
                0 <= id < self.tasks@.len() && self.tasks@[id] != TaskState::Completed,
    {
        let mut i: usize = 0;
        while i < self.tasks.len()
            invariant
                i <= self.tasks@.len(),
                forall|j: int| 0 <= j < i ==> self.tasks@[j] == TaskState::Completed,
            decreases self.tasks@.len() - i,
        {
            if self.tasks[i] != TaskState::Completed {
                return true;
            }
            i = i + 1;
        }
        false
    }

    /// Whether the executor should wait for an interrupt: tasks remain, but
    /// none of them is runnable.
    pub fn should_sleep(&self) -> (r: bool)
        ensures
            r == (self.run_queue@.len() == 0 && exists|id: int|
                0 <= id < self.tasks@.len() && self.tasks@[id] != TaskState::Completed),
    {
        self.run_queue.len() == 0 && self.has_tasks()
    }
}

/// The round-robin variant: every task that is pending is stepped again in
/// turn, with no wakeups. Correct, but it never lets the processor idle.
pub struct SimpleExecutor {
    pub task_queue: Vec<usize>,
    pub spawned: usize,
}

impl SimpleExecutor {
    /// An executor with no task.
    pub fn new() -> (r: Self)
        ensures
            r.task_queue@.len() == 0,
            r.spawned == 0,
    {
        SimpleExecutor { task_queue: Vec::new(), spawned: 0 }
    }

    /// Adds a task under a fresh identifier at the back of the queue.
    pub fn spawn(&mut self) -> (id: usize)
        requires
            old(self).spawned < usize::MAX,
        ensures
            id == old(self).spawned,
            final(self).spawned == old(self).spawned + 1,
            final(self).task_queue@ == old(self).task_queue@.push(id),
    {
        let id = self.spawned;
        self.spawned = self.spawned + 1;
        self.task_queue.push(id);
        id
    }

    /// Takes the task at the front of the queue, if any, to step it.
    pub fn next_task(&mut self) -> (r: Option<usize>)
        ensures
            final(self).spawned == old(self).spawned,
            r is None <==> old(self).task_queue@.len() == 0,
            r is None ==> final(self).task_queue@ == old(self).task_queue@,
            r is Some ==> r == Some(old(self).task_queue@[0])
                && final(self).task_queue@ == old(self).task_queue@.drop_first(),
    {
        if self.task_queue.len() == 0 {
            return None;
        }
        Some(self.task_queue.remove(0))
    }

    /// Records the outcome of a step: a pending task goes to the back of the
    /// queue, a finished one is dropped.
    pub fn finish_step(&mut self, id: usize, outcome: StepOutcome)
        ensures
            final(self).spawned == old(self).spawned,
            final(self).task_queue@ == (match outcome {
                StepOutcome::Done => old(self).task_queue@,
                StepOutcome::Pending => old(self).task_queue@.push(id),
            }),
    {
        if outcome == StepOutcome::Pending {
            self.task_queue.push(id);
        }
    }
}

/// Each wakeup of a suspended task makes it runnable exactly once, and no
/// task is run without one: a queued task stands in the run queue exactly
/// once, and a suspended, running or completed task not at all, so
/// `next_task` hands out a task once per time it became runnable (by `spawn`,
/// by `wake`, or by a wakeup during its step), and never otherwise.
pub proof fn lemma_resumed_once_per_wakeup(e: Executor, id: usize)
    requires
        e.wf(),
        id < e.tasks@.len(),
    ensures
        e.tasks@[id as int] == TaskState::Queued ==> e.run_queue@.to_multiset().count(id) == 1,
        e.tasks@[id as int] != TaskState::Queued ==> e.run_queue@.to_multiset().count(id) == 0,
{
    vstd::seq_lib::to_multiset_contains(e.run_queue@, id);
    e.run_queue@.lemma_multiset_has_no_duplicates();
    assert(e.run_queue@.contains(id) <==> e.tasks@[id as int] == TaskState::Queued);
}

} // verus!
