//! What the kernel decides when a trap arrives: whether it was an interrupt
//! or an exception, what to do about it, and where execution resumes.

pub mod exceptions;
pub mod interrupts;

use vstd::prelude::*;

pub use exceptions::{
    exception_outcome,
    handle_exception,
    ExceptionHandlingError,
    ExceptionType,
};
pub use interrupts::{
    handle_UART_interrupts,
    handle_interrupt,
    interrupt_action,
    sort_external_interrupts,
    ExternalInterruptSource,
    InterruptAction,
    InterruptType,
};

verus! {

/// The registers of the hart saved when a trap cut a computation short,
/// and the stack that the trap handler runs on.
#[derive(Debug, Clone, Copy)]
pub struct TrapFrame {
    pub regs: [usize; 32],
    pub fregs: [usize; 32],
    pub satp: usize,
    pub mstatus: usize,
    pub mepc: usize,
    pub mie: usize,
    pub mcause: usize,
    pub mtval: usize,
    pub trap_stack: [usize; 10],
}

/// The bit of `mcause` that is set for an interrupt and clear for an
/// exception: the highest bit of the register.
pub open spec fn async_bit() -> usize {
    1usize << ((usize::BITS - 1) as usize)
}

/// The cause number held in `mcause`: the register without its interrupt
/// bit.
pub open spec fn trap_cause(mcause: usize) -> usize {
    mcause & !async_bit()
}

/// The cause number held in `mcause`.
pub fn cause_of(mcause: usize) -> (c: usize)
    ensures
        c == trap_cause(mcause),
{
    mcause & !(1usize << (usize::BITS - 1))
}

impl TrapFrame {
    /// A trap frame with every register and stack slot zero.
    pub fn zero() -> (t: TrapFrame)
        ensures
            forall|i: int| 0 <= i < 32 ==> #[trigger] t.regs@[i] == 0 && t.fregs@[i] == 0,
            forall|i: int| 0 <= i < 10 ==> #[trigger] t.trap_stack@[i] == 0,
            t.satp == 0,
            t.mstatus == 0,
            t.mepc == 0,
            t.mie == 0,
            t.mcause == 0,
            t.mtval == 0,
    {
        TrapFrame {
            regs: [0usize; 32],
            fregs: [0usize; 32],
            satp: 0,
            mstatus: 0,
            mepc: 0,
            mie: 0,
            mcause: 0,
            mtval: 0,
            trap_stack: [0usize; 10],
        }
    }
}

/// Whether the trap was an interrupt: the interrupt bit of `mcause` is set.
pub fn check_if_interrupt(trapframe: &TrapFrame) -> (b: bool)
    ensures
        b == (trapframe.mcause >= async_bit()),
{
    let mcause_value = trapframe.mcause;
    let async_sync_bit = mcause_value >> (usize::BITS - 1);
    assert(async_sync_bit == 1 <==> mcause_value >= (1usize << ((usize::BITS - 1) as usize)))
        by (bit_vector)
        requires
            async_sync_bit == mcause_value >> ((usize::BITS - 1) as u32),
    ;
    async_sync_bit == 1
}

/// Whether the trap was an exception: the interrupt bit of `mcause` is
/// clear.
pub fn check_if_exception(trapframe: &TrapFrame) -> (b: bool)
    ensures
        b == (trapframe.mcause < async_bit()),
{
    let mcause_value = trapframe.mcause;
    let async_sync_bit = mcause_value >> (usize::BITS - 1);
    assert(async_sync_bit == 0 <==> mcause_value < (1usize << ((usize::BITS - 1) as usize)))
        by (bit_vector)
        requires
            async_sync_bit == mcause_value >> ((usize::BITS - 1) as u32),
    ;
    async_sync_bit == 0
}

/// What the trap handler does with a trap.
pub enum TrapDecision {
    /// An interrupt: carry out `action`, then resume where the interrupted
    /// computation stopped.
    Interrupt { action: InterruptAction, resume_at: usize },
    /// An exception the kernel recovered from: resume at this address.
    Resume(usize),
    /// An exception the kernel cannot recover from: shut the machine down.
    Shutdown(ExceptionHandlingError),
}

/// The decision for a trap whose state is saved in `trapframe`, where
/// `mtime` is the current machine time.
pub open spec fn trap_decision(trapframe: TrapFrame, mtime: usize) -> TrapDecision {
    if trapframe.mcause >= async_bit() {
        TrapDecision::Interrupt {
            action: interrupt_action(trap_cause(trapframe.mcause), mtime),
            resume_at: trapframe.mepc,
        }
    } else {
        match exception_outcome(trapframe) {
            Ok(address) => TrapDecision::Resume(address),
            Err(e) => TrapDecision::Shutdown(e),
        }
    }
}

/// Decides what to do with the trap saved in `trapframe`: an interrupt is
/// handed to `handle_interrupt` and execution resumes at `mepc`; an
/// exception is handed to `handle_exception`, and the machine resumes at
/// the address it gives or shuts down.
pub fn rust_trap_handler(trapframe: &mut TrapFrame, mtime: usize) -> (d: TrapDecision)
    requires
        trapframe_is_handled(*old(trapframe), mtime),
    ensures
        *final(trapframe) == *old(trapframe),
        d == trap_decision(*old(trapframe), mtime),
{
    let was_interrupt = check_if_interrupt(trapframe);
    if was_interrupt {
        let action = handle_interrupt(trapframe, mtime);
        TrapDecision::Interrupt { action, resume_at: trapframe.mepc }
    } else {
        match handle_exception(trapframe) {
            Ok(address) => TrapDecision::Resume(address),
            Err(e) => TrapDecision::Shutdown(e),
        }
    }
}

/// Whether the handler deals with the trap saved in `trapframe` at machine
/// time `mtime` without failing.
pub fn trap_is_handled(trapframe: &TrapFrame, mtime: usize) -> (b: bool)
    ensures
        b == trapframe_is_handled(*trapframe, mtime),
{
    let cause = cause_of(trapframe.mcause);
    if check_if_interrupt(trapframe) {
        !((cause == 5 || cause == 7) && mtime > usize::MAX - interrupts::TIMER_INTERVAL)
    } else {
        let known = cause <= 9 || cause == 11 || cause == 12 || cause == 13 || cause == 15;
        known && !(cause == 3 && trapframe.mepc > usize::MAX - 4) && !((cause == 8 || cause == 9)
            && trapframe.regs[1] > usize::MAX - 4)
    }
}

/// The traps that the handler deals with without failing: an interrupt
/// whose timer deadline fits in a register, or an exception of a known
/// cause whose resume address fits in a register.
pub open spec fn trapframe_is_handled(trapframe: TrapFrame, mtime: usize) -> bool {
    if trapframe.mcause >= async_bit() {
        interrupts::interrupt_is_handled(trap_cause(trapframe.mcause), mtime)
    } else {
        exceptions::exception_is_handled(trapframe)
    }
}

/// A machine or supervisor timer interrupt, `mcause` with its top bit set
/// over cause 7 or 5, is answered by setting the timer ten million ticks
/// after `mtime` and resuming at `mepc`.
pub proof fn lemma_timer_interrupt_decision(trapframe: TrapFrame, mtime: usize, cause: usize)
    requires
        cause == 5 || cause == 7,
        trapframe.mcause == async_bit() | cause,
        mtime + 10_000_000 <= usize::MAX,
    ensures
        trapframe_is_handled(trapframe, mtime),
        trap_decision(trapframe, mtime) == (TrapDecision::Interrupt {
            action: InterruptAction::SetTimer((mtime + 10_000_000) as usize),
            resume_at: trapframe.mepc,
        }),
{
    let t = async_bit();
    let mc = trapframe.mcause;
    assert(mc >= t && mc & !t == cause) by (bit_vector)
        requires
            t == 1usize << ((usize::BITS - 1) as usize),
            mc == t | cause,
            cause == 5 || cause == 7,
    ;
    interrupts::lemma_timer_deadline(cause, mtime);
}

/// What each trap is answered with, by its `mcause`. An interrupt (top bit
/// set) resumes at `mepc`: the timer interrupts 5 and 7 set the next
/// deadline ten million ticks ahead, the external interrupts 8, 9 and 11
/// go to the interrupt controller, and every other interrupt is only
/// reported. An exception (top bit clear) resumes four bytes past `mepc`
/// for a breakpoint (3), four bytes past the return address in `x1` for an
/// environment call from user or supervisor mode (8, 9), and shuts the
/// machine down for every other cause.
pub proof fn lemma_trap_decision_by_cause(trapframe: TrapFrame, mtime: usize)
    requires
        trapframe_is_handled(trapframe, mtime),
    ensures
        ({
            let c = trapframe.mcause;
            let cause = c & !async_bit();
            let d = trap_decision(trapframe, mtime);
            &&& c >= async_bit() && (cause == 5 || cause == 7) ==> d == TrapDecision::Interrupt {
                action: InterruptAction::SetTimer((mtime + 10_000_000) as usize),
                resume_at: trapframe.mepc,
            } && mtime + 10_000_000 <= usize::MAX
            &&& c >= async_bit() && (cause == 8 || cause == 9 || cause == 11) ==> d
                == TrapDecision::Interrupt {
                action: InterruptAction::SortExternal,
                resume_at: trapframe.mepc,
            }
            &&& c >= async_bit() && !(cause == 5 || cause == 7 || cause == 8 || cause == 9 || cause
                == 11) ==> d == TrapDecision::Interrupt {
                action: InterruptAction::Report,
                resume_at: trapframe.mepc,
            }
            &&& c == 3 ==> d == TrapDecision::Resume((trapframe.mepc + 4) as usize)
                && trapframe.mepc + 4 <= usize::MAX
            &&& (c == 8 || c == 9) ==> d == TrapDecision::Resume((trapframe.regs@[1] + 4) as usize)
                && trapframe.regs@[1] + 4 <= usize::MAX
            &&& c < async_bit() && c != 3 && c != 8 && c != 9 ==> d is Shutdown
        }),
{
    let t = async_bit();
    let c = trapframe.mcause;
    assert(c < t ==> c & !t == c) by (bit_vector)
        requires
            t == 1usize << ((usize::BITS - 1) as usize),
    ;
    assert(t > 9) by (bit_vector)
        requires
            t == 1usize << ((usize::BITS - 1) as usize),
    ;
}

/// Every trap is either an interrupt or an exception, never both:
/// `check_if_interrupt` and `check_if_exception` always disagree.
pub proof fn lemma_interrupt_or_exception(trapframe: TrapFrame)
    ensures
        (trapframe.mcause >= async_bit()) != (trapframe.mcause < async_bit()),
{
}

} // verus!
