//! Tasks: the unit of scheduling, and the register frame a new task starts
//! from.
use vstd::prelude::*;

verus! {

/// Size of each task's stack in bytes.
pub const TASK_STACK_SIZE: u64 = 0x1000;

/// Size of the saved register frame (`TaskContext`) in bytes.
pub const CONTEXT_SIZE: u64 = 176;

/// Size of the saved floating-point/SIMD register block in bytes.
pub const FPU_STATE_SIZE: usize = 512;

/// Kernel code segment selector a new task starts in.
pub const TASK_CODE_SEGMENT: u64 = 0x28;

/// Kernel stack segment selector a new task starts with.
pub const TASK_STACK_SEGMENT: u64 = 0x30;

/// Flags a new task starts with: interrupts enabled.
pub const TASK_CPU_FLAGS: u64 = 0x202;

#[derive(Clone, Copy, Debug, PartialEq, Eq, Structural)]
pub enum TaskStatus {
    Ready,
    Running,
    Killed,
    Waiting,
}

/// The saved floating-point/SIMD register block, in the layout the CPU's
/// save instruction writes.
#[derive(Debug)]
pub struct FpuState {
    pub data: Vec<u8>,
}

/// The initial block: all zero but the control/status register, set to its
/// default 0x1f80 (little-endian, at bytes 24..28) so that no exception is
/// unmasked.
pub open spec fn initial_fpu_byte(i: int) -> u8 {
    if i == 24 {
        0x80
    } else if i == 25 {
        0x1f
    } else {
        0
    }
}

impl FpuState {
    pub fn new() -> (r: FpuState)
        ensures
            r.data@.len() == FPU_STATE_SIZE,
            forall|i: int| 0 <= i < FPU_STATE_SIZE ==> #[trigger] r.data@[i] == initial_fpu_byte(i),
    {
        let mut data: Vec<u8> = Vec::new();
        let mut i: usize = 0;
        while i < FPU_STATE_SIZE
            invariant
                i <= FPU_STATE_SIZE,
                data@.len() == i,
                forall|k: int| 0 <= k < i ==> #[trigger] data@[k] == initial_fpu_byte(k),
            decreases FPU_STATE_SIZE - i,
        {
            let b: u8 = if i == 24 {
                0x80
            } else if i == 25 {
                0x1f
            } else {
                0
            };
            data.push(b);
            i += 1;
        }
        FpuState { data }
    }
}

impl Default for FpuState {
    fn default() -> (r: FpuState)
        ensures
            r.data@.len() == FPU_STATE_SIZE,
            forall|i: int| 0 <= i < FPU_STATE_SIZE ==> #[trigger] r.data@[i] == initial_fpu_byte(i),
    {
        FpuState::new()
    }
}

/// A schedulable unit of execution.
#[derive(Debug)]
pub struct Task {
    pub id: u64,
    /// Saved stack pointer; meaningful only while the task is not running.
    pub stack_pointer: u64,
    /// Uptime in milliseconds from which the task may run; 0 means always.
    pub wake_at: u64,
    pub status: TaskStatus,
    pub fpu_state: FpuState,
}

/// The register frame the interrupt return path pops, in the order the
/// entry stub pushes it.
#[derive(Clone, Copy, Debug, PartialEq, Eq, Structural)]
pub struct TaskContext {
    pub r15: u64,
    pub r14: u64,
    pub r13: u64,
    pub r12: u64,
    pub r11: u64,
    pub r10: u64,
    pub r9: u64,
    pub r8: u64,
    pub rbp: u64,
    pub rdi: u64,
    pub rsi: u64,
    pub rdx: u64,
    pub rcx: u64,
    pub rbx: u64,
    pub rax: u64,
    pub interrupt_number: u64,
    pub error_code: u64,
    pub instruction_pointer: u64,
    pub code_segment: u64,
    pub cpu_flags: u64,
    pub stack_pointer: u64,
    pub stack_segment: u64,
}

/// Top of a task stack that starts at `stack_base`, aligned down to 16.
pub open spec fn aligned_stack_top(stack_base: u64) -> int {
    let top = stack_base + TASK_STACK_SIZE;
    top - top % 16
}

fn stack_top(stack_base: u64) -> (r: u64)
    requires
        stack_base + TASK_STACK_SIZE <= u64::MAX,
    ensures
        r == aligned_stack_top(stack_base),
        r >= CONTEXT_SIZE,
{
    let top = stack_base + TASK_STACK_SIZE;
    top - top % 16
}

impl TaskContext {
    /// The frame a new task starts from: execution begins at `entry_point`
    /// in kernel mode, interrupts enabled, on an empty aligned stack.
    pub fn initial(entry_point: u64, stack_base: u64) -> (r: TaskContext)
        requires
            stack_base + TASK_STACK_SIZE <= u64::MAX,
        ensures
            r.instruction_pointer == entry_point,
            r.code_segment == TASK_CODE_SEGMENT,
            r.cpu_flags == TASK_CPU_FLAGS,
            r.stack_pointer == aligned_stack_top(stack_base),
            r.rbp == aligned_stack_top(stack_base),
            r.stack_segment == TASK_STACK_SEGMENT,
            r.rax == 0 && r.rbx == 0 && r.rcx == 0 && r.rdx == 0 && r.rsi == 0 && r.rdi == 0,
            r.r8 == 0 && r.r9 == 0 && r.r10 == 0 && r.r11 == 0,
            r.r12 == 0 && r.r13 == 0 && r.r14 == 0 && r.r15 == 0,
            r.interrupt_number == 0 && r.error_code == 0,
    {
        let top = stack_top(stack_base);
        TaskContext {
            r15: 0,
            r14: 0,
            r13: 0,
            r12: 0,
            r11: 0,
            r10: 0,
            r9: 0,
            r8: 0,
            rbp: top,
            rdi: 0,
            rsi: 0,
            rdx: 0,
            rcx: 0,
            rbx: 0,
            rax: 0,
            interrupt_number: 0,
            error_code: 0,
            instruction_pointer: entry_point,
            code_segment: TASK_CODE_SEGMENT,
            cpu_flags: TASK_CPU_FLAGS,
            stack_pointer: top,
            stack_segment: TASK_STACK_SEGMENT,
        }
    }
}

impl Task {
    /// A ready task with the stack that starts at `stack_base`. Its saved
    /// stack pointer points at the initial register frame
    /// (`TaskContext::initial`), placed just below the aligned stack top.
    pub fn new(id: u64, entry_point: u64, stack_base: u64) -> (r: Task)
        requires
            stack_base + TASK_STACK_SIZE <= u64::MAX,
        ensures
            r.id == id,
            r.stack_pointer == aligned_stack_top(stack_base) - CONTEXT_SIZE,
            r.wake_at == 0,
            r.status == TaskStatus::Ready,
            r.fpu_state.data@.len() == FPU_STATE_SIZE,
            forall|i: int|
                0 <= i < FPU_STATE_SIZE ==> #[trigger] r.fpu_state.data@[i] == initial_fpu_byte(i),
    {
        let top = stack_top(stack_base);
        Task {
            id,
            stack_pointer: top - CONTEXT_SIZE,
            wake_at: 0,
            status: TaskStatus::Ready,
            fpu_state: FpuState::new(),
        }
    }
}

} // verus!
