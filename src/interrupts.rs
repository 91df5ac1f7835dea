//! Interrupt descriptor table entries and the dispatch decision taken on
//! every interrupt or exception.
use vstd::prelude::*;
use crate::scheduler::{Scheduler, scheduled};
use crate::task::{Task, TaskStatus};
use crate::timer::{Timer, uptime_ms};

verus! {

/// Entries in the interrupt descriptor table.
pub const IDT_ENTRIES: usize = 256;

/// Vectors that get a handler stub: the 32 exceptions and 16 remapped IRQs.
pub const HANDLED_VECTORS: usize = 48;

/// Present, ring 0, 64-bit interrupt gate.
pub const INTERRUPT_GATE: u8 = 0x8E;

/// First vector that is a hardware IRQ rather than a CPU exception.
pub const FIRST_IRQ_VECTOR: u64 = 32;

/// Vector of the timer IRQ.
pub const TIMER_VECTOR: u64 = 32;

/// Vector of the keyboard IRQ.
pub const KEYBOARD_VECTOR: u64 = 33;

/// First vector served by the secondary interrupt controller.
pub const SECONDARY_PIC_VECTOR: u64 = 40;

/// One 16-byte gate descriptor in the hardware's layout.
#[derive(Clone, Copy, Debug, PartialEq, Eq, Structural)]
pub struct IdtEntry {
    pub offset_low: u16,
    pub selector: u16,
    pub ist: u8,
    pub attributes: u8,
    pub offset_mid: u16,
    pub offset_high: u32,
    pub reserved: u32,
}

/// The handler address a descriptor holds, reassembled from its pieces.
pub open spec fn handler_address(e: IdtEntry) -> u64 {
    (e.offset_low as u64) | ((e.offset_mid as u64) << 16u64) | ((e.offset_high as u64) << 32u64)
}

/// A descriptor installed for a handler at `addr` in `code_segment`.
pub open spec fn is_gate_for(e: IdtEntry, addr: u64, code_segment: u16) -> bool {
    &&& handler_address(e) == addr
    &&& e.selector == code_segment
    &&& e.attributes == INTERRUPT_GATE
    &&& e.ist == 0
    &&& e.reserved == 0
}

/// A descriptor with every field zero: no handler.
pub open spec fn is_missing(e: IdtEntry) -> bool {
    e == IdtEntry {
        offset_low: 0,
        selector: 0,
        ist: 0,
        attributes: 0,
        offset_mid: 0,
        offset_high: 0,
        reserved: 0,
    }
}

impl IdtEntry {
    /// A descriptor with no handler.
    pub fn missing() -> (r: IdtEntry)
        ensures
            is_missing(r),
    {
        IdtEntry {
            offset_low: 0,
            selector: 0,
            ist: 0,
            attributes: 0,
            offset_mid: 0,
            offset_high: 0,
            reserved: 0,
        }
    }

    /// Installs the handler at `handler_addr`, run in `code_segment` as a
    /// present ring-0 interrupt gate.
    pub fn set_handler(&mut self, handler_addr: u64, code_segment: u16)
        ensures
            is_gate_for(*final(self), handler_addr, code_segment),
            final(self).offset_low == handler_addr as u16,
            final(self).offset_mid == (handler_addr >> 16u64) as u16,
            final(self).offset_high == (handler_addr >> 32u64) as u32,
    {
        self.offset_low = handler_addr as u16;
        self.offset_mid = (handler_addr >> 16) as u16;
        self.offset_high = (handler_addr >> 32) as u32;
        self.selector = code_segment;
        self.attributes = INTERRUPT_GATE;
        self.ist = 0;
        self.reserved = 0;
        proof {
            let lo = handler_addr as u16;
            let mid = (handler_addr >> 16u64) as u16;
            let hi = (handler_addr >> 32u64) as u32;
            assert((lo as u64) | ((mid as u64) << 16u64) | ((hi as u64) << 32u64) == handler_addr)
                by (bit_vector)
                requires
                    lo == handler_addr as u16,
                    mid == (handler_addr >> 16u64) as u16,
                    hi == (handler_addr >> 32u64) as u32,
            ;
        }
    }
}

/// The operand of the instruction that loads the descriptor table.
#[derive(Clone, Copy, Debug, PartialEq, Eq, Structural)]
pub struct IdtPointer {
    pub limit: u16,
    pub base: u64,
}

impl IdtPointer {
    /// Describes a full 256-entry table at `base`: its limit is its size in
    /// bytes less one.
    pub fn new(base: u64) -> (r: IdtPointer)
        ensures
            r.base == base,
            r.limit == IDT_ENTRIES * 16 - 1,
    {
        IdtPointer { limit: (IDT_ENTRIES * 16 - 1) as u16, base }
    }
}

/// Builds the descriptor table: vector `i` below 48 gets the stub at
/// `stubs[i]` in `code_segment`, every other vector none.
pub fn build_idt(stubs: &Vec<u64>, code_segment: u16) -> (r: Vec<IdtEntry>)
    requires
        stubs@.len() == HANDLED_VECTORS,
    ensures
        r@.len() == IDT_ENTRIES,
        forall|i: int|
            0 <= i < HANDLED_VECTORS ==> is_gate_for(#[trigger] r@[i], stubs@[i], code_segment),
        forall|i: int| HANDLED_VECTORS <= i < IDT_ENTRIES ==> is_missing(#[trigger] r@[i]),
{
    let mut table: Vec<IdtEntry> = Vec::new();
    let mut i: usize = 0;
    while i < IDT_ENTRIES
        invariant
            i <= IDT_ENTRIES,
            stubs@.len() == HANDLED_VECTORS,
            table@.len() == i,
            forall|k: int|
                0 <= k < i && k < HANDLED_VECTORS ==> is_gate_for(
                    #[trigger] table@[k],
                    stubs@[k],
                    code_segment,
                ),
            forall|k: int| HANDLED_VECTORS <= k < i ==> is_missing(#[trigger] table@[k]),
        decreases IDT_ENTRIES - i,
    {
        let mut entry = IdtEntry::missing();
        if i < HANDLED_VECTORS {
            entry.set_handler(stubs[i], code_segment);
        }
        table.push(entry);
        i += 1;
    }
    table
}

/// The register snapshot the entry stub builds on every interrupt, in
/// memory order.
#[derive(Clone, Copy, Debug, PartialEq, Eq, Structural)]
pub struct InterruptStackFrame {
    pub rax: u64,
    pub rbx: u64,
    pub rcx: u64,
    pub rdx: u64,
    pub rsi: u64,
    pub rdi: u64,
    pub rbp: u64,
    pub r8: u64,
    pub r9: u64,
    pub r10: u64,
    pub r11: u64,
    pub r12: u64,
    pub r13: u64,
    pub r14: u64,
    pub r15: u64,
    pub interrupt_number: u64,
    pub error_code: u64,
    pub rip: u64,
    pub cs: u64,
    pub rflags: u64,
    pub rsp: u64,
    pub ss: u64,
}

/// Busy and total timer ticks since the last reading.
#[derive(Clone, Copy, Debug, PartialEq, Eq, Structural)]
pub struct CpuUsage {
    pub busy_ticks: u64,
    pub total_ticks: u64,
}

impl CpuUsage {
    pub open spec fn wf(&self) -> bool {
        self.busy_ticks <= self.total_ticks
    }

    pub fn new() -> (r: CpuUsage)
        ensures
            r.wf(),
            r.busy_ticks == 0,
            r.total_ticks == 0,
    {
        CpuUsage { busy_ticks: 0, total_ticks: 0 }
    }

    /// Counts one timer tick, busy when a task other than the idle task was
    /// running. The counters stop at `u64::MAX` ticks.
    pub fn record_tick(&mut self, busy: bool)
        requires
            old(self).wf(),
        ensures
            final(self).wf(),
            old(self).total_ticks < u64::MAX ==> final(self).total_ticks == old(self).total_ticks
                + 1 && final(self).busy_ticks == old(self).busy_ticks + if busy {
                1int
            } else {
                0int
            },
            old(self).total_ticks == u64::MAX ==> *final(self) == *old(self),
    {
        if self.total_ticks < u64::MAX {
            self.total_ticks = self.total_ticks + 1;
            if busy {
                self.busy_ticks = self.busy_ticks + 1;
            }
        }
    }

    /// Percentage of busy ticks since the last reading, rounded down (0
    /// when no tick was counted); both counters restart from zero.
    pub fn get_cpu_usage(&mut self) -> (r: u32)
        requires
            old(self).wf(),
        ensures
            final(self).wf(),
            final(self).busy_ticks == 0,
            final(self).total_ticks == 0,
            r == if old(self).total_ticks == 0 {
                0
            } else {
                (old(self).busy_ticks as int) * 100 / (old(self).total_ticks as int)
            },
            r <= 100,
    {
        let total = self.total_ticks;
        let busy = self.busy_ticks;
        self.total_ticks = 0;
        self.busy_ticks = 0;
        if total == 0 {
            return 0;
        }
        let pct = (busy as u128) * 100 / (total as u128);
        proof {
            assert((busy as int) * 100 / (total as int) <= 100) by (nonlinear_arith)
                requires
                    busy <= total,
                    total > 0,
            ;
        }
        pct as u32
    }
}

/// What the interrupt entry stub and its callers must do once the dispatch
/// decision is taken.
#[derive(Clone, Copy, Debug, PartialEq, Eq, Structural)]
pub struct DispatchAction {
    /// The stack pointer whose saved registers are restored on return.
    pub stack_pointer: u64,
    /// Dump the faulting register state to the low-level channel.
    pub log_fault: bool,
    /// The fault cannot be isolated to a task: stop the machine.
    pub halt: bool,
    /// Read one scan code from the keyboard controller and queue it.
    pub read_keyboard: bool,
    /// Acknowledge the interrupt at the primary controller.
    pub eoi_primary: bool,
    /// Acknowledge the interrupt at the secondary controller too.
    pub eoi_secondary: bool,
}

/// The state the dispatcher reads and changes: the scheduler (absent until
/// multitasking starts), whether the interrupted code holds its lock or the
/// display writer's lock, the tick counter and the usage counters.
pub struct KernelState {
    pub scheduler: Option<Scheduler>,
    pub scheduler_locked: bool,
    pub display_locked: bool,
    pub timer: Timer,
    pub usage: CpuUsage,
}

/// `s` with its running task marked killed.
pub open spec fn with_current_killed(s: Scheduler) -> Scheduler {
    Scheduler {
        tasks: s.tasks,
        current_task: match s.current_task {
            Some(t) => Some(Task { status: TaskStatus::Killed, ..t }),
            None => None,
        },
    }
}

/// Whether the scheduler can be taken for a switch: it exists, the
/// interrupted code does not hold it.
pub open spec fn scheduler_free(state: KernelState) -> bool {
    !state.scheduler_locked && state.scheduler is Some
}

/// Whether a task other than the idle task (identity 0) is running.
pub open spec fn running_task_is_busy(state: KernelState) -> bool {
    match state.scheduler {
        Some(s) => match s.current_task {
            Some(t) => t.id != 0,
            None => false,
        },
        None => false,
    }
}

/// The dispatch routine every vector funnels through. `frame_address` is
/// where the entry stub saved the interrupted registers; the result says
/// which saved registers to resume, and what else to do.
///
/// A CPU exception (vector below 32) is fatal to the running task only: if
/// the scheduler is free and a task runs, that task is killed, the display
/// lock it may hold is released, and the next task is selected; otherwise
/// the machine halts. The timer (vector 32) counts a tick and, if the
/// scheduler is free, rotates. The keyboard (vector 33) asks for a scan code
/// to be read. Every hardware IRQ is acknowledged; exceptions never are.
pub fn exception_handler(state: &mut KernelState, frame: &InterruptStackFrame, frame_address: u64) -> (r:
    DispatchAction)
    requires
        old(state).usage.wf(),
    ensures
        final(state).usage.wf(),
        ({
            let num = frame.interrupt_number;
            let before = *old(state);
            let after = *final(state);
            &&& r.log_fault == (num < FIRST_IRQ_VECTOR)
            &&& r.read_keyboard == (num == KEYBOARD_VECTOR)
            &&& r.eoi_primary == (num >= FIRST_IRQ_VECTOR)
            &&& r.eoi_secondary == (num >= SECONDARY_PIC_VECTOR)
            &&& after.scheduler_locked == before.scheduler_locked
            &&& if num < FIRST_IRQ_VECTOR {
                if scheduler_free(before) && before.scheduler->0.current_task is Some {
                    &&& !r.halt
                    &&& !after.display_locked
                    &&& after.timer == before.timer
                    &&& after.usage == before.usage
                    &&& after.scheduler is Some
                    &&& scheduled(
                        with_current_killed(before.scheduler->0),
                        after.scheduler->0,
                        frame_address,
                        uptime_ms(before.timer.ticks) as u64,
                        r.stack_pointer,
                    )
                } else {
                    &&& r.halt
                    &&& r.stack_pointer == frame_address
                    &&& after == before
                }
            } else {
                &&& !r.halt
                &&& after.display_locked == before.display_locked
                &&& if num == TIMER_VECTOR {
                    &&& after.timer.ticks == if before.timer.ticks == u64::MAX {
                        0
                    } else {
                        before.timer.ticks + 1
                    }
                    &&& before.usage.total_ticks < u64::MAX ==> after.usage.total_ticks
                        == before.usage.total_ticks + 1 && after.usage.busy_ticks
                        == before.usage.busy_ticks + if running_task_is_busy(before) {
                        1int
                    } else {
                        0int
                    }
                    &&& before.usage.total_ticks == u64::MAX ==> after.usage == before.usage
                    &&& if scheduler_free(before) {
                        &&& after.scheduler is Some
                        &&& scheduled(
                            before.scheduler->0,
                            after.scheduler->0,
                            frame_address,
                            uptime_ms(after.timer.ticks) as u64,
                            r.stack_pointer,
                        )
                    } else {
                        &&& r.stack_pointer == frame_address
                        &&& after.scheduler == before.scheduler
                    }
                } else {
                    &&& r.stack_pointer == frame_address
                    &&& after == before
                }
            }
        }),
{
    let num = frame.interrupt_number;
    let mut action = DispatchAction {
        stack_pointer: frame_address,
        log_fault: num < FIRST_IRQ_VECTOR,
        halt: false,
        read_keyboard: num == KEYBOARD_VECTOR,
        eoi_primary: num >= FIRST_IRQ_VECTOR,
        eoi_secondary: num >= SECONDARY_PIC_VECTOR,
    };
    if num < FIRST_IRQ_VECTOR {
        if !state.scheduler_locked {
            let now = state.timer.get_uptime_ms();
            match &mut state.scheduler {
                Some(sched) => {
                    match &mut sched.current_task {
                        Some(task) => {
                            task.status = TaskStatus::Killed;
                            state.display_locked = false;
                            action.stack_pointer = sched.schedule(frame_address, now);
                            return action;
                        },
                        None => {},
                    }
                },
                None => {},
            }
        }
        action.halt = true;
        return action;
    }
    if num == TIMER_VECTOR {
        let busy = match &state.scheduler {
            Some(sched) => sched.get_current_task_id() != 0,
            None => false,
        };
        state.usage.record_tick(busy);
        state.timer.tick();
        if !state.scheduler_locked {
            let now = state.timer.get_uptime_ms();
            match &mut state.scheduler {
                Some(sched) => {
                    action.stack_pointer = sched.schedule(frame_address, now);
                },
                None => {},
            }
        }
    }
    action
}

/// One byte written to an I/O port.
#[derive(Clone, Copy, Debug, PartialEq, Eq, Structural)]
pub struct PortWrite {
    pub port: u16,
    pub value: u8,
}

/// Command port of the primary interrupt controller.
pub const PIC1_COMMAND: u16 = 0x20;
/// Data port of the primary interrupt controller.
pub const PIC1_DATA: u16 = 0x21;
/// Command port of the secondary interrupt controller.
pub const PIC2_COMMAND: u16 = 0xA0;
/// Data port of the secondary interrupt controller.
pub const PIC2_DATA: u16 = 0xA1;

/// The writes that reprogram the two interrupt controllers: IRQs 0-7 to
/// vectors 32-39 and IRQs 8-15 to vectors 40-47, the secondary cascaded on
/// IRQ 2, 8086 mode, and every line masked but the timer (IRQ 0) and the
/// keyboard (IRQ 1).
pub fn pic_init_sequence() -> (r: Vec<PortWrite>)
    ensures
        r@ == seq![
            PortWrite { port: PIC1_COMMAND, value: 0x11 },
            PortWrite { port: PIC2_COMMAND, value: 0x11 },
            PortWrite { port: PIC1_DATA, value: 0x20 },
            PortWrite { port: PIC2_DATA, value: 0x28 },
            PortWrite { port: PIC1_DATA, value: 4 },
            PortWrite { port: PIC2_DATA, value: 2 },
            PortWrite { port: PIC1_DATA, value: 0x01 },
            PortWrite { port: PIC2_DATA, value: 0x01 },
            PortWrite { port: PIC1_DATA, value: 0xFC },
            PortWrite { port: PIC2_DATA, value: 0xFF },
        ],
{
    let mut r: Vec<PortWrite> = Vec::new();
    // Start initialisation.
    r.push(PortWrite { port: PIC1_COMMAND, value: 0x11 });
    r.push(PortWrite { port: PIC2_COMMAND, value: 0x11 });
    // Vector offsets.
    r.push(PortWrite { port: PIC1_DATA, value: 0x20 });
    r.push(PortWrite { port: PIC2_DATA, value: 0x28 });
    // Wiring: secondary on line 2, and its identity.
    r.push(PortWrite { port: PIC1_DATA, value: 4 });
    r.push(PortWrite { port: PIC2_DATA, value: 2 });
    // 8086 mode.
    r.push(PortWrite { port: PIC1_DATA, value: 0x01 });
    r.push(PortWrite { port: PIC2_DATA, value: 0x01 });
    // Masks.
    r.push(PortWrite { port: PIC1_DATA, value: 0xFC });
    r.push(PortWrite { port: PIC2_DATA, value: 0xFF });
    assert(r@ =~= seq![
        PortWrite { port: PIC1_COMMAND, value: 0x11 },
        PortWrite { port: PIC2_COMMAND, value: 0x11 },
        PortWrite { port: PIC1_DATA, value: 0x20 },
        PortWrite { port: PIC2_DATA, value: 0x28 },
        PortWrite { port: PIC1_DATA, value: 4 },
        PortWrite { port: PIC2_DATA, value: 2 },
        PortWrite { port: PIC1_DATA, value: 0x01 },
        PortWrite { port: PIC2_DATA, value: 0x01 },
        PortWrite { port: PIC1_DATA, value: 0xFC },
        PortWrite { port: PIC2_DATA, value: 0xFF },
    ]);
    r
}

} // verus!
