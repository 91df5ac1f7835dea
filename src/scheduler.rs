//! Round-robin scheduler over a FIFO queue of tasks, with sleeping tasks
//! skipped until their wake time.
use vstd::prelude::*;
use std::collections::VecDeque;
use crate::task::{FpuState, Task, TaskStatus, initial_fpu_byte, FPU_STATE_SIZE};

verus! {

/// Whether `task` may be selected at uptime `now`: it has not been killed,
/// and it is the idle task (identity 0) or its wake time has come.
pub open spec fn is_eligible(task: Task, now: u64) -> bool {
    task.status != TaskStatus::Killed && (task.id == 0 || now >= task.wake_at)
}

/// Index of the first task at or after `i` that may be selected at `now`.
pub open spec fn first_eligible_from(q: Seq<Task>, now: u64, i: int) -> Option<int>
    decreases q.len() - i,
{
    if i < 0 || i >= q.len() {
        None
    } else if is_eligible(q[i], now) {
        Some(i)
    } else {
        first_eligible_from(q, now, i + 1)
    }
}

/// Index of the first task of `q` that may be selected at `now`.
pub open spec fn first_eligible(q: Seq<Task>, now: u64) -> Option<int> {
    first_eligible_from(q, now, 0)
}

/// `q` once the task at `i` is taken out and the tasks before it are moved,
/// in order, to the back.
pub open spec fn rotate_out(q: Seq<Task>, i: int) -> Seq<Task> {
    q.subrange(i + 1, q.len() as int) + q.subrange(0, i)
}

/// The queue once the running task, if any, is saved at its back with the
/// stack pointer `sp`.
pub open spec fn queue_after_save(q: Seq<Task>, current: Option<Task>, sp: u64) -> Seq<Task> {
    match current {
        Some(t) => q.push(Task { stack_pointer: sp, ..t }),
        None => q,
    }
}

proof fn lemma_first_eligible_skip(q: Seq<Task>, now: u64, j: int)
    requires
        0 <= j <= q.len(),
        forall|k: int| 0 <= k < j ==> !is_eligible(#[trigger] q[k], now),
    ensures
        first_eligible(q, now) == first_eligible_from(q, now, j),
    decreases j,
{
    if j > 0 {
        lemma_first_eligible_skip(q, now, j - 1);
    }
}

proof fn lemma_first_eligible_found(q: Seq<Task>, now: u64, i: int)
    requires
        0 <= i,
        first_eligible_from(q, now, i) is Some,
    ensures
        ({
            let j = first_eligible_from(q, now, i)->0;
            &&& i <= j < q.len()
            &&& is_eligible(q[j], now)
            &&& forall|k: int| i <= k < j ==> !is_eligible(#[trigger] q[k], now)
        }),
    decreases q.len() - i,
{
    if i < q.len() && !is_eligible(q[i], now) {
        lemma_first_eligible_found(q, now, i + 1);
    }
}

proof fn lemma_first_eligible_none(q: Seq<Task>, now: u64, i: int)
    requires
        0 <= i,
        first_eligible_from(q, now, i) is None,
    ensures
        forall|k: int| i <= k < q.len() ==> !is_eligible(#[trigger] q[k], now),
    decreases q.len() - i,
{
    if i < q.len() {
        lemma_first_eligible_none(q, now, i + 1);
    }
}

/// The ready queue and the running task.
pub struct Scheduler {
    pub tasks: VecDeque<Task>,
    pub current_task: Option<Task>,
}

/// `after` is `before` once `schedule(sp)` at uptime `now` returned `r`: the
/// running task is saved at the back of the queue with `sp`; the first task
/// of the queue that may run is taken out and runs, and the tasks skipped
/// over move to the back in order; `r` is its saved stack pointer. With no
/// task that may run, nothing runs and `r` is `sp`.
pub open spec fn scheduled(before: Scheduler, after: Scheduler, sp: u64, now: u64, r: u64) -> bool {
    let q = queue_after_save(before.tasks@, before.current_task, sp);
    match first_eligible(q, now) {
        Some(i) => {
            &&& after.current_task == Some(q[i])
            &&& after.tasks@ == rotate_out(q, i)
            &&& r == q[i].stack_pointer
        },
        None => {
            &&& after.current_task is None
            &&& after.tasks@ == q
            &&& r == sp
        },
    }
}

impl Scheduler {
    pub fn new() -> (r: Scheduler)
        ensures
            r.tasks@.len() == 0,
            r.current_task is None,
    {
        Scheduler { tasks: VecDeque::new(), current_task: None }
    }

    /// Queues `task` at the back.
    pub fn add_task(&mut self, task: Task)
        ensures
            final(self).tasks@ == old(self).tasks@.push(task),
            final(self).current_task == old(self).current_task,
    {
        self.tasks.push_back(task);
    }

    /// Scans the queue once from the front and takes out the first task
    /// that may run at `now`; the tasks skipped over move to the back.
    pub fn get_next_task(&mut self, now: u64) -> (r: Option<Task>)
        ensures
            final(self).current_task == old(self).current_task,
            match first_eligible(old(self).tasks@, now) {
                Some(i) => r == Some(old(self).tasks@[i]) && final(self).tasks@ == rotate_out(
                    old(self).tasks@,
                    i,
                ),
                None => r is None && final(self).tasks@ == old(self).tasks@,
            },
    {
        let ghost q = self.tasks@;
        let n = self.tasks.len();
        let mut j: usize = 0;
        while j < n
            invariant
                n == q.len(),
                j <= n,
                self.tasks@ == q.subrange(j as int, n as int) + q.subrange(0, j as int),
                self.current_task == old(self).current_task,
                q == old(self).tasks@,
                forall|k: int| 0 <= k < j ==> !is_eligible(#[trigger] q[k], now),
            decreases n - j,
        {
            let task = match self.tasks.pop_front() {
                Some(t) => t,
                None => {
                    return None;
                },
            };
            assert(task == q[j as int]);
            if task.status != TaskStatus::Killed && (task.id == 0 || now >= task.wake_at) {
                proof {
                    lemma_first_eligible_skip(q, now, j as int);
                    assert(self.tasks@ =~= rotate_out(q, j as int));
                }
                return Some(task);
            }
            self.tasks.push_back(task);
            proof {
                assert(self.tasks@ =~= q.subrange(j + 1, n as int) + q.subrange(0, j + 1));
            }
            j += 1;
        }
        proof {
            lemma_first_eligible_skip(q, now, n as int);
            assert(self.tasks@ =~= q);
        }
        None
    }

    /// Identity of the running task; 0 when none runs.
    pub fn get_current_task_id(&self) -> (r: u64)
        ensures
            r == match self.current_task {
                Some(t) => t.id,
                None => 0,
            },
    {
        match &self.current_task {
            Some(t) => t.id,
            None => 0,
        }
    }

    /// The rotation run on every timer tick and on a fatal fault: saves the
    /// running task at the back of the queue with `stack_pointer`, then
    /// selects the first task that may run at `now` and returns its saved
    /// stack pointer, or `stack_pointer` itself when none may.
    pub fn schedule(&mut self, stack_pointer: u64, now: u64) -> (r: u64)
        ensures
            scheduled(*old(self), *final(self), stack_pointer, now, r),
    {
        if let Some(mut task) = self.current_task.take() {
            task.stack_pointer = stack_pointer;
            self.tasks.push_back(task);
        }
        let ghost q = self.tasks@;
        proof {
            assert(q =~= queue_after_save(old(self).tasks@, old(self).current_task, stack_pointer));
        }
        let n = self.tasks.len();
        let mut j: usize = 0;
        while j < n
            invariant
                n == q.len(),
                j <= n,
                self.tasks@ == q.subrange(j as int, n as int) + q.subrange(0, j as int),
                self.current_task is None,
                q == queue_after_save(old(self).tasks@, old(self).current_task, stack_pointer),
                forall|k: int| 0 <= k < j ==> !is_eligible(#[trigger] q[k], now),
            decreases n - j,
        {
            if let Some(task) = self.tasks.pop_front() {
                assert(task == q[j as int]);
                if task.status != TaskStatus::Killed && (task.id == 0 || now >= task.wake_at) {
                    let next_sp = task.stack_pointer;
                    self.current_task = Some(task);
                    proof {
                        lemma_first_eligible_skip(q, now, j as int);
                        assert(self.tasks@ =~= rotate_out(q, j as int));
                    }
                    return next_sp;
                }
                self.tasks.push_back(task);
                proof {
                    assert(self.tasks@ =~= q.subrange(j + 1, n as int) + q.subrange(0, j + 1));
                }
            }
            j += 1;
        }
        proof {
            lemma_first_eligible_skip(q, now, n as int);
            assert(self.tasks@ =~= q);
        }
        stack_pointer
    }
}

/// A selected task may run: it has not been killed, and it is the idle task
/// or its wake time has come.
pub proof fn lemma_selection_respects_wake_time(
    before: Scheduler,
    after: Scheduler,
    sp: u64,
    now: u64,
    r: u64,
)
    requires
        scheduled(before, after, sp, now, r),
        after.current_task is Some,
    ensures
        ({
            let t = after.current_task->0;
            &&& t.status != TaskStatus::Killed
            &&& t.id == 0 || now >= t.wake_at
        }),
{
    let q = queue_after_save(before.tasks@, before.current_task, sp);
    if first_eligible(q, now) is Some {
        lemma_first_eligible_found(q, now, 0);
    }
}

/// While the idle task (identity 0) is queued or running and not killed, a
/// rotation always selects a task, whatever the idle task's wake time.
pub proof fn lemma_idle_keeps_rotation_alive(
    before: Scheduler,
    after: Scheduler,
    sp: u64,
    now: u64,
    r: u64,
    idle: int,
)
    requires
        scheduled(before, after, sp, now, r),
        0 <= idle < queue_after_save(before.tasks@, before.current_task, sp).len(),
        queue_after_save(before.tasks@, before.current_task, sp)[idle].id == 0,
        queue_after_save(before.tasks@, before.current_task, sp)[idle].status
            != TaskStatus::Killed,
    ensures
        after.current_task is Some,
{
    let q = queue_after_save(before.tasks@, before.current_task, sp);
    if first_eligible(q, now) is None {
        lemma_first_eligible_none(q, now, 0);
        assert(is_eligible(q[idle], now));
    }
}

/// `task` may run at every uptime of `nows`.
pub open spec fn always_eligible(task: Task, nows: Seq<u64>) -> bool {
    forall|j: int| 0 <= j < nows.len() ==> is_eligible(task, #[trigger] nows[j])
}

/// One rotation with an eligible task at the front of the queue runs that
/// task and keeps every task eligible.
proof fn lemma_rotation_takes_front(
    prev: Scheduler,
    next: Scheduler,
    sp: u64,
    now: u64,
    r: u64,
    nows: Seq<u64>,
)
    requires
        scheduled(prev, next, sp, now, r),
        prev.tasks@.len() >= 1,
        is_eligible(prev.tasks@[0], now),
        forall|k: int| 0 <= k < prev.tasks@.len() ==> always_eligible(#[trigger] prev.tasks@[k], nows),
        prev.current_task is Some ==> always_eligible(prev.current_task->0, nows),
    ensures
        next.current_task == Some(prev.tasks@[0]),
        next.tasks@.len() + 1 >= prev.tasks@.len(),
        forall|k: int| 0 <= k < prev.tasks@.len() - 1 ==> #[trigger] next.tasks@[k] == prev.tasks@[k + 1],
        forall|k: int| 0 <= k < next.tasks@.len() ==> always_eligible(#[trigger] next.tasks@[k], nows),
        always_eligible(prev.tasks@[0], nows),
{
    let q = queue_after_save(prev.tasks@, prev.current_task, sp);
    assert(q[0] == prev.tasks@[0]);
    assert(first_eligible(q, now) == Some(0int));
    assert forall|k: int| 0 <= k < q.len() implies always_eligible(#[trigger] q[k], nows) by {
        if k < prev.tasks@.len() {
            assert(q[k] == prev.tasks@[k]);
        } else {
            let c = prev.current_task->0;
            assert(q[k] == Task { stack_pointer: sp, ..c });
            assert forall|j: int| 0 <= j < nows.len() implies is_eligible(q[k], #[trigger] nows[j]) by {
                assert(is_eligible(c, nows[j]));
            }
        }
    }
    assert(next.tasks@ =~= q.subrange(1, q.len() as int));
    assert forall|k: int| 0 <= k < next.tasks@.len() implies always_eligible(
        #[trigger] next.tasks@[k],
        nows,
    ) by {
        assert(next.tasks@[k] == q[k + 1]);
    }
}

proof fn lemma_round_robin_step(
    states: Seq<Scheduler>,
    sps: Seq<u64>,
    nows: Seq<u64>,
    rs: Seq<u64>,
    i: int,
)
    requires
        states.len() == sps.len() + 1,
        nows.len() == sps.len(),
        rs.len() == sps.len(),
        forall|k: int|
            0 <= k < sps.len() ==> scheduled(
                #[trigger] states[k],
                states[k + 1],
                sps[k],
                nows[k],
                rs[k],
            ),
        forall|k: int|
            0 <= k < states[0].tasks@.len() ==> always_eligible(
                #[trigger] states[0].tasks@[k],
                nows,
            ),
        states[0].current_task is Some ==> always_eligible(states[0].current_task->0, nows),
        0 <= i <= sps.len(),
        i <= states[0].tasks@.len(),
    ensures
        states[i].tasks@.len() + i >= states[0].tasks@.len(),
        forall|k: int|
            0 <= k < states[0].tasks@.len() - i ==> #[trigger] states[i].tasks@[k]
                == states[0].tasks@[k + i],
        forall|k: int|
            0 <= k < states[i].tasks@.len() ==> always_eligible(
                #[trigger] states[i].tasks@[k],
                nows,
            ),
        states[i].current_task is Some ==> always_eligible(states[i].current_task->0, nows),
        i >= 1 ==> states[i].current_task == Some(states[0].tasks@[i - 1]),
    decreases i,
{
    if i > 0 {
        lemma_round_robin_step(states, sps, nows, rs, i - 1);
        let prev = states[i - 1];
        assert(scheduled(prev, states[i], sps[i - 1], nows[i - 1], rs[i - 1]));
        assert(prev.tasks@[0] == states[0].tasks@[i - 1]);
        assert(always_eligible(prev.tasks@[0], nows));
        assert(is_eligible(prev.tasks@[0], nows[i - 1]));
        lemma_rotation_takes_front(prev, states[i], sps[i - 1], nows[i - 1], rs[i - 1], nows);
        assert forall|k: int| 0 <= k < states[0].tasks@.len() - i implies #[trigger] states[i].tasks@[k]
            == states[0].tasks@[k + i] by {
            assert(states[i].tasks@[k] == prev.tasks@[k + 1]);
        }
    }
}

/// Round robin: while every queued and running task may run, successive
/// rotations select the queued tasks in queue order, so each of the `N`
/// queued tasks runs within `N` rotations.
pub proof fn lemma_round_robin(
    states: Seq<Scheduler>,
    sps: Seq<u64>,
    nows: Seq<u64>,
    rs: Seq<u64>,
)
    requires
        states.len() == sps.len() + 1,
        nows.len() == sps.len(),
        rs.len() == sps.len(),
        forall|k: int|
            0 <= k < sps.len() ==> scheduled(
                #[trigger] states[k],
                states[k + 1],
                sps[k],
                nows[k],
                rs[k],
            ),
        forall|k: int|
            0 <= k < states[0].tasks@.len() ==> always_eligible(
                #[trigger] states[0].tasks@[k],
                nows,
            ),
        states[0].current_task is Some ==> always_eligible(states[0].current_task->0, nows),
    ensures
        forall|k: int|
            0 <= k < sps.len() && k < states[0].tasks@.len() ==> #[trigger] states[k
                + 1].current_task == Some(states[0].tasks@[k]),
{
    assert forall|k: int|
        0 <= k < sps.len() && k < states[0].tasks@.len() implies #[trigger] states[k
        + 1].current_task == Some(states[0].tasks@[k]) by {
        lemma_round_robin_step(states, sps, nows, rs, k + 1);
    }
}

/// The scheduler at the start of multitasking: the queue is empty and the
/// code running now is the running task, with identity 0. Its stack
/// pointer is filled in at the first switch.
pub fn init_multitasking() -> (r: Scheduler)
    ensures
        r.tasks@.len() == 0,
        r.current_task is Some,
        r.current_task->0.id == 0,
        r.current_task->0.stack_pointer == 0,
        r.current_task->0.wake_at == 0,
        r.current_task->0.status == TaskStatus::Ready,
        r.current_task->0.fpu_state.data@.len() == FPU_STATE_SIZE,
        forall|i: int|
            0 <= i < FPU_STATE_SIZE ==> #[trigger] r.current_task->0.fpu_state.data@[i]
                == initial_fpu_byte(i),
{
    let mut scheduler = Scheduler::new();
    let main_task = Task {
        id: 0,
        stack_pointer: 0,
        wake_at: 0,
        status: TaskStatus::Ready,
        fpu_state: FpuState::new(),
    };
    scheduler.current_task = Some(main_task);
    scheduler
}

} // verus!
