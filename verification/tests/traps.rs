use hobo_os::drivers::uart::UartInterrupt;
use hobo_os::interrupt_and_exception_handling::{
    check_if_exception, check_if_interrupt, handle_UART_interrupts, handle_exception,
    handle_interrupt, rust_trap_handler, sort_external_interrupts, ExceptionHandlingError,
    ExternalInterruptSource, InterruptAction, TrapDecision, TrapFrame,
};

const INTERRUPT: usize = 1usize << (usize::BITS - 1);

fn frame(mcause: usize, mepc: usize, ra: usize) -> TrapFrame {
    let mut t = TrapFrame::zero();
    t.mcause = mcause;
    t.mepc = mepc;
    t.regs[1] = ra;
    t
}

#[test]
fn a_zero_frame_is_all_zero() {
    let t = TrapFrame::zero();
    assert!(t.regs.iter().all(|r| *r == 0));
    assert!(t.fregs.iter().all(|r| *r == 0));
    assert!(t.trap_stack.iter().all(|r| *r == 0));
    assert_eq!((t.satp, t.mstatus, t.mepc, t.mie, t.mcause, t.mtval), (0, 0, 0, 0, 0, 0));
}

#[test]
fn the_top_bit_of_mcause_tells_interrupts_from_exceptions() {
    let i = frame(INTERRUPT | 7, 0, 0);
    let e = frame(7, 0, 0);
    assert!(check_if_interrupt(&i) && !check_if_exception(&i));
    assert!(!check_if_interrupt(&e) && check_if_exception(&e));
}

#[test]
fn a_breakpoint_resumes_at_the_next_instruction() {
    let mut t = frame(3, 0x8000_0100, 0);
    assert_eq!(handle_exception(&mut t).unwrap(), 0x8000_0104);
}

#[test]
fn an_environment_call_resumes_after_the_return_address() {
    let mut t = frame(8, 0x8000_0100, 0x8000_2000);
    assert_eq!(handle_exception(&mut t).unwrap(), 0x8000_2004);
    let mut t = frame(9, 0x8000_0100, 0x8000_3000);
    assert_eq!(handle_exception(&mut t).unwrap(), 0x8000_3004);
}

#[test]
fn other_exceptions_cannot_be_recovered_from() {
    let expected = [
        (0usize, "Instruction Address Misaligned Excption occured "),
        (1, "InstructionAccessFault occured "),
        (2, "IllegalInstruction occured "),
        (4, "LoadAddressMisaligned occured "),
        (5, "LoadAccessFault occured "),
        (6, "StoreAddressMisaligned occured "),
        (7, "StoreAccessFault occured "),
        (11, "MachineEnvironmentCall occured "),
        (12, "InstructionPageFault occured "),
        (13, "LoadPageFault occured "),
        (15, "StorePageFault occured "),
    ];
    for (cause, message) in expected {
        let mut t = frame(cause, 0x8000_0100, 0);
        match handle_exception(&mut t) {
            Err(ExceptionHandlingError::UnableToRecoverFromException(m)) => assert_eq!(m, message),
            Ok(_) => panic!("cause {} should not be recovered from", cause),
        }
    }
}

#[test]
fn timer_interrupts_set_the_next_deadline() {
    let mut t = frame(INTERRUPT | 7, 0, 0);
    assert_eq!(handle_interrupt(&mut t, 5_000), InterruptAction::SetTimer(10_005_000));
    let mut t = frame(INTERRUPT | 5, 0, 0);
    assert_eq!(handle_interrupt(&mut t, 0), InterruptAction::SetTimer(10_000_000));
}

#[test]
fn external_interrupts_go_to_the_controller() {
    for cause in [8usize, 9, 11] {
        let mut t = frame(INTERRUPT | cause, 0, 0);
        assert_eq!(handle_interrupt(&mut t, 0), InterruptAction::SortExternal);
    }
    for cause in [0usize, 1, 3, 4, 16] {
        let mut t = frame(INTERRUPT | cause, 0, 0);
        assert_eq!(handle_interrupt(&mut t, 0), InterruptAction::Report);
    }
}

#[test]
fn external_interrupts_are_sorted_by_id() {
    assert_eq!(sort_external_interrupts(1), ExternalInterruptSource::Virtio(1));
    assert_eq!(sort_external_interrupts(8), ExternalInterruptSource::Virtio(8));
    assert_eq!(sort_external_interrupts(10), ExternalInterruptSource::Uart);
}

#[test]
fn uart_interrupts_are_sorted_by_status() {
    assert_eq!(handle_UART_interrupts(0b1100_0010), UartInterrupt::BufferEmpty);
    assert_eq!(handle_UART_interrupts(0b0000_0100), UartInterrupt::DataReady);
    assert_eq!(handle_UART_interrupts(0b0000_1100), UartInterrupt::DataReady);
}

#[test]
fn the_trap_handler_decides_by_kind() {
    let mut t = frame(INTERRUPT | 7, 0x8000_0040, 0);
    match rust_trap_handler(&mut t, 100) {
        TrapDecision::Interrupt { action, resume_at } => {
            assert_eq!(action, InterruptAction::SetTimer(10_000_100));
            assert_eq!(resume_at, 0x8000_0040);
        }
        _ => panic!("an interrupt was expected"),
    }
    let mut t = frame(3, 0x8000_0040, 0);
    assert!(matches!(rust_trap_handler(&mut t, 0), TrapDecision::Resume(0x8000_0044)));
    let mut t = frame(13, 0x8000_0040, 0);
    assert!(matches!(
        rust_trap_handler(&mut t, 0),
        TrapDecision::Shutdown(ExceptionHandlingError::UnableToRecoverFromException("LoadPageFault occured "))
    ));
}
