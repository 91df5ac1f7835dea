use kernel_core::interrupts::{exception_handler, CpuUsage, InterruptStackFrame, KernelState};
use kernel_core::scheduler::{init_multitasking, Scheduler};
use kernel_core::task::{FpuState, Task, TaskContext, TaskStatus};
use kernel_core::timer::{sleep_ms, timer_divisor, Timer};

fn task(id: u64, wake_at: u64) -> Task {
    let mut t = Task::new(id, 0x40_0000 + id, 0x100_0000 + id * 0x1000);
    t.wake_at = wake_at;
    t
}

fn frame(vector: u64) -> InterruptStackFrame {
    InterruptStackFrame {
        rax: 0,
        rbx: 0,
        rcx: 0,
        rdx: 0,
        rsi: 0,
        rdi: 0,
        rbp: 0,
        r8: 0,
        r9: 0,
        r10: 0,
        r11: 0,
        r12: 0,
        r13: 0,
        r14: 0,
        r15: 0,
        interrupt_number: vector,
        error_code: 0,
        rip: 0x1234,
        cs: 0x28,
        rflags: 0x202,
        rsp: 0x8000,
        ss: 0x30,
    }
}

fn state_with(scheduler: Scheduler) -> KernelState {
    KernelState {
        scheduler: Some(scheduler),
        scheduler_locked: false,
        display_locked: false,
        timer: Timer::new(),
        usage: CpuUsage::new(),
    }
}

#[test]
fn new_task_starts_from_seeded_frame() {
    let t = Task::new(7, 0xdead_beef, 0x10000);
    assert_eq!(t.id, 7);
    assert_eq!(t.stack_pointer, 0x11000 - 176);
    assert_eq!(t.wake_at, 0);
    assert_eq!(t.status, TaskStatus::Ready);
    let c = TaskContext::initial(0xdead_beef, 0x10000);
    assert_eq!(c.instruction_pointer, 0xdead_beef);
    assert_eq!(c.stack_pointer, 0x11000);
    assert_eq!(c.rbp, 0x11000);
    assert_eq!(c.code_segment, 0x28);
    assert_eq!(c.stack_segment, 0x30);
    assert_eq!(c.cpu_flags, 0x202);
    assert_eq!(c.rax, 0);
}

#[test]
fn unaligned_stack_top_is_rounded_down() {
    let t = Task::new(1, 0, 0x10008);
    assert_eq!(t.stack_pointer, 0x11000 - 176);
}

#[test]
fn fpu_state_sets_default_control_word() {
    let f = FpuState::default();
    assert_eq!(f.data.len(), 512);
    assert_eq!(&f.data[24..28], &0x1f80u32.to_le_bytes());
    assert_eq!(f.data.iter().map(|b| *b as u32).sum::<u32>(), 0x80 + 0x1f);
}

#[test]
fn multitasking_starts_with_main_task_running() {
    let s = init_multitasking();
    assert_eq!(s.get_current_task_id(), 0);
    assert_eq!(s.tasks.len(), 0);
    assert_eq!(Scheduler::new().get_current_task_id(), 0);
}

#[test]
fn schedule_saves_current_and_picks_front() {
    let mut s = init_multitasking();
    s.add_task(task(1, 0));
    s.add_task(task(2, 0));
    let sp1 = s.tasks[0].stack_pointer;
    let r = s.schedule(0xAAAA, 0);
    assert_eq!(r, sp1);
    assert_eq!(s.get_current_task_id(), 1);
    assert_eq!(s.tasks.len(), 2);
    assert_eq!(s.tasks[0].id, 2);
    assert_eq!(s.tasks[1].id, 0);
    assert_eq!(s.tasks[1].stack_pointer, 0xAAAA);
}

#[test]
fn round_robin_visits_every_ready_task() {
    let mut s = Scheduler::new();
    s.add_task(task(0, 0));
    for id in 1..=4 {
        s.add_task(task(id, 0));
    }
    let mut order = Vec::new();
    for i in 0..10 {
        s.schedule(0x1000 + i, 5);
        order.push(s.get_current_task_id());
    }
    assert_eq!(order, vec![0, 1, 2, 3, 4, 0, 1, 2, 3, 4]);
}

#[test]
fn sleeping_tasks_are_skipped_until_wake_time() {
    // Uptime 0: three tasks wake at 0, 100 and 200, plus the idle task.
    let mut s = Scheduler::new();
    s.add_task(task(1, 0));
    s.add_task(task(2, 100));
    s.add_task(task(3, 200));
    s.add_task(task(0, 5000));
    s.schedule(0, 0);
    let first = s.get_current_task_id();
    assert!(first == 0 || first == 1);
    let mut saw_100 = false;
    for i in 0..12 {
        s.schedule(i, 150);
        let id = s.get_current_task_id();
        assert_ne!(id, 3);
        if id == 2 {
            saw_100 = true;
        }
    }
    assert!(saw_100);
    let mut saw_200 = false;
    for i in 0..12 {
        s.schedule(i, 200);
        if s.get_current_task_id() == 3 {
            saw_200 = true;
        }
    }
    assert!(saw_200);
}

#[test]
fn nothing_eligible_resumes_unchanged() {
    let mut s = Scheduler::new();
    s.add_task(task(1, 100));
    s.add_task(task(2, 100));
    assert_eq!(s.schedule(0x5555, 10), 0x5555);
    assert_eq!(s.get_current_task_id(), 0);
    assert!(s.current_task.is_none());
    assert_eq!(s.tasks.len(), 2);
    assert_eq!(s.tasks[0].id, 1);
}

#[test]
fn get_next_task_takes_first_awake() {
    let mut s = Scheduler::new();
    s.add_task(task(1, 100));
    s.add_task(task(2, 0));
    s.add_task(task(3, 0));
    let t = s.get_next_task(50).unwrap();
    assert_eq!(t.id, 2);
    assert_eq!(s.tasks.iter().map(|t| t.id).collect::<Vec<_>>(), vec![3, 1]);
    let mut empty = Scheduler::new();
    assert!(empty.get_next_task(0).is_none());
}

#[test]
fn sleep_sets_wake_time_of_running_task() {
    let mut s = init_multitasking();
    sleep_ms(&mut s, 40, 16);
    assert_eq!(s.current_task.as_ref().unwrap().wake_at, 56);
    sleep_ms(&mut s, u64::MAX - 1, 16);
    assert_eq!(s.current_task.as_ref().unwrap().wake_at, u64::MAX);
    let mut none = Scheduler::new();
    sleep_ms(&mut none, 0, 10);
    assert!(none.current_task.is_none());
}

#[test]
fn timer_counts_milliseconds() {
    let mut t = Timer::new();
    for _ in 0..1500 {
        t.tick();
    }
    assert_eq!(t.get_uptime_ms(), 1500);
    let mut w = Timer { ticks: u64::MAX };
    assert_eq!(w.get_uptime_ms(), u64::MAX);
    w.tick();
    assert_eq!(w.ticks, 0);
    assert_eq!(timer_divisor(), 1193);
}

#[test]
fn fault_kills_task_and_frees_display_lock() {
    let mut s = init_multitasking();
    s.add_task(task(4, 0));
    s.schedule(0x100, 0); // task 4 runs
    assert_eq!(s.get_current_task_id(), 4);
    let mut state = state_with(s);
    state.display_locked = true;
    let action = exception_handler(&mut state, &frame(14), 0x9000);
    assert!(!action.halt);
    assert!(action.log_fault);
    assert!(!action.eoi_primary);
    assert!(!state.display_locked);
    let sched = state.scheduler.as_ref().unwrap();
    assert_eq!(sched.get_current_task_id(), 0);
    assert_eq!(action.stack_pointer, 0x100);
    let killed = sched.tasks.iter().find(|t| t.id == 4).unwrap();
    assert_eq!(killed.status, TaskStatus::Killed);
    // The killed task is never selected again.
    for _ in 0..5 {
        exception_handler(&mut state, &frame(32), 0x9000);
        assert_eq!(state.scheduler.as_ref().unwrap().get_current_task_id(), 0);
    }
}

#[test]
fn fault_while_scheduler_locked_halts() {
    let mut state = state_with(init_multitasking());
    state.scheduler_locked = true;
    let action = exception_handler(&mut state, &frame(13), 0x9000);
    assert!(action.halt);
    assert_eq!(action.stack_pointer, 0x9000);
    let mut none = state_with(Scheduler::new());
    assert!(exception_handler(&mut none, &frame(8), 0x9000).halt);
}

#[test]
fn timer_tick_rotates_and_acknowledges() {
    let mut s = init_multitasking();
    s.add_task(task(1, 0));
    let sp1 = s.tasks[0].stack_pointer;
    let mut state = state_with(s);
    let action = exception_handler(&mut state, &frame(32), 0x7000);
    assert_eq!(state.timer.ticks, 1);
    assert_eq!(action.stack_pointer, sp1);
    assert!(action.eoi_primary);
    assert!(!action.eoi_secondary);
    assert!(!action.halt);
    assert_eq!(state.scheduler.as_ref().unwrap().get_current_task_id(), 1);
}

#[test]
fn timer_tick_with_locked_scheduler_defers_rotation() {
    let mut state = state_with(init_multitasking());
    state.scheduler_locked = true;
    let action = exception_handler(&mut state, &frame(32), 0x7000);
    assert_eq!(action.stack_pointer, 0x7000);
    assert_eq!(state.timer.ticks, 1);
}

#[test]
fn keyboard_and_secondary_irqs() {
    let mut state = state_with(init_multitasking());
    let k = exception_handler(&mut state, &frame(33), 0x7000);
    assert!(k.read_keyboard);
    assert!(k.eoi_primary && !k.eoi_secondary);
    assert_eq!(k.stack_pointer, 0x7000);
    let d = exception_handler(&mut state, &frame(44), 0x7000);
    assert!(d.eoi_primary && d.eoi_secondary);
    assert!(!d.read_keyboard);
}

#[test]
fn cpu_usage_is_busy_share_and_resets() {
    let mut u = CpuUsage::new();
    assert_eq!(u.get_cpu_usage(), 0);
    for i in 0..8 {
        u.record_tick(i % 4 != 0);
    }
    assert_eq!(u.get_cpu_usage(), 75);
    assert_eq!(u.total_ticks, 0);
    u.record_tick(false);
    u.record_tick(false);
    u.record_tick(true);
    assert_eq!(u.get_cpu_usage(), 33);
}

#[test]
fn timer_ticks_count_busy_time() {
    let mut s = init_multitasking();
    s.add_task(task(1, 0));
    let mut state = state_with(s);
    exception_handler(&mut state, &frame(32), 0x7000); // main task (0) was running
    exception_handler(&mut state, &frame(32), 0x7000); // task 1 was running
    assert_eq!(state.usage.get_cpu_usage(), 50);
}
