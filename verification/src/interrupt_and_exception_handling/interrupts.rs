//! Interrupts: the traps that arrive from outside the instruction stream.

use vstd::prelude::*;

use super::{cause_of, trap_cause, TrapFrame};
use crate::drivers::uart::UartInterrupt;

verus! {

/// The interrupt causes of the RISC-V privileged architecture.
#[derive(Debug, Clone, Copy)]
pub enum InterruptType {
    UserSoftwareInterrupt,
    SupervisorSoftwareInterrupt,
    MachineSoftwareInterrupt,
    UserTimerInterrupt,
    SupervisorTimerInterrupt,
    MachineTimerInterrupt,
    UserExternalInterrupt,
    SupervisorExternalInterrupt,
    MachineExternalInterrupt,
    UnknownAsync(usize),
}

/// The time between two timer interrupts, in ticks of `mtime`.
pub const TIMER_INTERVAL: usize = 10_000_000;

/// What an interrupt asks of the kernel beyond reporting it.
#[derive(Debug, Clone, Copy, PartialEq, Eq, Structural)]
pub enum InterruptAction {
    /// Nothing: the interrupt is only reported.
    Report,
    /// Set the timer compare register to this deadline.
    SetTimer(usize),
    /// Ask the interrupt controller which device interrupted.
    SortExternal,
}

/// The action for interrupt cause `cause` at machine time `mtime`: the
/// supervisor and machine timer interrupts set the next deadline one
/// interval ahead, the three external interrupts go to the interrupt
/// controller, and every other cause is only reported.
pub open spec fn interrupt_action(cause: usize, mtime: usize) -> InterruptAction {
    if cause == 5 || cause == 7 {
        InterruptAction::SetTimer((mtime + TIMER_INTERVAL) as usize)
    } else if cause == 8 || cause == 9 || cause == 11 {
        InterruptAction::SortExternal
    } else {
        InterruptAction::Report
    }
}

/// The interrupts that the handler deals with: for a timer interrupt, the
/// next deadline fits in a register.
pub open spec fn interrupt_is_handled(cause: usize, mtime: usize) -> bool {
    (cause == 5 || cause == 7) ==> mtime + TIMER_INTERVAL <= usize::MAX
}

/// Handles the interrupt saved in `trapframe` at machine time `mtime`:
/// gives what the kernel has to do about it.
pub fn handle_interrupt(trapframe: &mut TrapFrame, mtime: usize) -> (a: InterruptAction)
    requires
        interrupt_is_handled(trap_cause(old(trapframe).mcause), mtime),
    ensures
        *final(trapframe) == *old(trapframe),
        a == interrupt_action(trap_cause(old(trapframe).mcause), mtime),
{
    let cause = cause_of(trapframe.mcause);
    match cause {
        5 | 7 => InterruptAction::SetTimer(mtime + TIMER_INTERVAL),
        8 | 9 | 11 => InterruptAction::SortExternal,
        _ => InterruptAction::Report,
    }
}

/// A timer interrupt, supervisor or machine, sets the next deadline ten
/// million ticks after the current machine time, computed on the whole
/// register: the deadline is `mtime + 10_000_000` as integers, so it lies
/// strictly after `mtime`, whenever it fits in a register.
pub proof fn lemma_timer_deadline(cause: usize, mtime: usize)
    requires
        cause == 5 || cause == 7,
        mtime + 10_000_000 <= usize::MAX,
    ensures
        interrupt_action(cause, mtime) is SetTimer,
        interrupt_action(cause, mtime)->SetTimer_0 == mtime + 10_000_000,
        interrupt_action(cause, mtime)->SetTimer_0 > mtime,
{
}

/// The device behind an external interrupt.
#[derive(Debug, Clone, Copy, PartialEq, Eq, Structural)]
pub enum ExternalInterruptSource {
    /// One of the eight VirtIO slots, by interrupt ID.
    Virtio(u32),
    /// The UART.
    Uart,
}

/// Sorts the external interrupt with ID `interrupt_id`, as the interrupt
/// controller gave it: IDs 1 to 8 belong to the VirtIO slots and ID 10 to
/// the UART.
pub fn sort_external_interrupts(interrupt_id: u32) -> (s: ExternalInterruptSource)
    requires
        1 <= interrupt_id <= 8 || interrupt_id == 10,
    ensures
        1 <= interrupt_id <= 8 ==> s == ExternalInterruptSource::Virtio(interrupt_id),
        interrupt_id == 10 ==> s == ExternalInterruptSource::Uart,
{
    if interrupt_id == 10 {
        ExternalInterruptSource::Uart
    } else {
        ExternalInterruptSource::Virtio(interrupt_id)
    }
}

/// The kinds of UART interrupt that the kernel handles, by the low four
/// bits of the interrupt status register: 2 (transmit holding register
/// empty), 4 (received data ready) and 12 (character timeout).
pub open spec fn handled_uart_status(status: u8) -> bool {
    let kind = status & 0b0000_1111u8;
    kind == 2 || kind == 4 || kind == 12
}

/// Sorts a UART interrupt by the interrupt status register `status`: an
/// empty transmit register means the output buffer can be flushed; data
/// ready and a character timeout both mean input is waiting.
#[allow(non_snake_case)]
pub fn handle_UART_interrupts(status: u8) -> (k: UartInterrupt)
    requires
        handled_uart_status(status),
    ensures
        (status & 0b0000_1111u8) == 2 ==> k == UartInterrupt::BufferEmpty,
        (status & 0b0000_1111u8) == 4 ==> k == UartInterrupt::DataReady,
        (status & 0b0000_1111u8) == 12 ==> k == UartInterrupt::DataReady,
{
    let masked_reg_value = status & 0b0000_1111;
    if masked_reg_value == 0b0000_0010 {
        UartInterrupt::BufferEmpty
    } else {
        UartInterrupt::DataReady
    }
}

} // verus!
