//! Exceptions: the traps that an instruction causes.

use vstd::prelude::*;

use super::{cause_of, trap_cause, TrapFrame};

verus! {

/// The exception causes of the RISC-V privileged architecture.
#[derive(Debug, Clone, Copy)]
pub enum ExceptionType {
    InstructionAddressMisaligned,
    InstructionAccessFault,
    IllegalInstruction,
    Breakpoint,
    LoadAddressMisaligned,
    LoadAccessFault,
    StoreAddressMisaligned,
    StoreAccessFault,
    UserEnvironmentCall,
    SupervisorEnvironmentCall,
    MachineEnvironmentCall,
    InstructionPageFault,
    LoadPageFault,
    StorePageFault,
    UnknownSync(usize),
}

/// Why the kernel could not go on after an exception.
#[derive(Debug, Clone, Copy)]
pub enum ExceptionHandlingError {
    UnableToRecoverFromException(&'static str),
}

/// The exception causes that the kernel knows: 0 to 9, 11, 12, 13 and 15.
pub open spec fn known_exception(cause: usize) -> bool {
    cause <= 9 || cause == 11 || cause == 12 || cause == 13 || cause == 15
}

/// The exceptions that the handler deals with: a known cause, and for those
/// it recovers from, a resume address that fits in a register.
pub open spec fn exception_is_handled(trapframe: TrapFrame) -> bool {
    let cause = trap_cause(trapframe.mcause);
    &&& known_exception(cause)
    &&& cause == 3 ==> trapframe.mepc + 4 <= usize::MAX
    &&& (cause == 8 || cause == 9) ==> trapframe.regs@[1] + 4 <= usize::MAX
}

/// The message that an exception the kernel cannot recover from is reported
/// with.
pub open spec fn unrecoverable_message(cause: usize) -> &'static str {
    if cause == 0 {
        "Instruction Address Misaligned Excption occured "
    } else if cause == 1 {
        "InstructionAccessFault occured "
    } else if cause == 2 {
        "IllegalInstruction occured "
    } else if cause == 4 {
        "LoadAddressMisaligned occured "
    } else if cause == 5 {
        "LoadAccessFault occured "
    } else if cause == 6 {
        "StoreAddressMisaligned occured "
    } else if cause == 7 {
        "StoreAccessFault occured "
    } else if cause == 11 {
        "MachineEnvironmentCall occured "
    } else if cause == 12 {
        "InstructionPageFault occured "
    } else if cause == 13 {
        "LoadPageFault occured "
    } else {
        "StorePageFault occured "
    }
}

/// What handling an exception gives: a breakpoint resumes at the
/// instruction after it, an environment call from user or supervisor mode
/// resumes four bytes past the return address in `x1`, and every other
/// known exception is one the kernel cannot recover from.
pub open spec fn exception_outcome(trapframe: TrapFrame) -> Result<usize, ExceptionHandlingError> {
    let cause = trap_cause(trapframe.mcause);
    if cause == 3 {
        Ok((trapframe.mepc + 4) as usize)
    } else if cause == 8 || cause == 9 {
        Ok((trapframe.regs@[1] + 4) as usize)
    } else {
        Err(ExceptionHandlingError::UnableToRecoverFromException(unrecoverable_message(cause)))
    }
}

/// Handles the exception saved in `trapframe`: gives the address to resume
/// at, or the error for an exception the kernel cannot recover from.
pub fn handle_exception(trapframe: &mut TrapFrame) -> (r: Result<usize, ExceptionHandlingError>)
    requires
        exception_is_handled(*old(trapframe)),
    ensures
        *final(trapframe) == *old(trapframe),
        r == exception_outcome(*old(trapframe)),
{
    let cause = cause_of(trapframe.mcause);
    match cause {
        0 => Err(
            ExceptionHandlingError::UnableToRecoverFromException(
                "Instruction Address Misaligned Excption occured ",
            ),
        ),
        1 => Err(ExceptionHandlingError::UnableToRecoverFromException("InstructionAccessFault occured ")),
        2 => Err(ExceptionHandlingError::UnableToRecoverFromException("IllegalInstruction occured ")),
        3 => Ok(trapframe.mepc + 4),
        4 => Err(ExceptionHandlingError::UnableToRecoverFromException("LoadAddressMisaligned occured ")),
        5 => Err(ExceptionHandlingError::UnableToRecoverFromException("LoadAccessFault occured ")),
        6 => Err(ExceptionHandlingError::UnableToRecoverFromException("StoreAddressMisaligned occured ")),
        7 => Err(ExceptionHandlingError::UnableToRecoverFromException("StoreAccessFault occured ")),
        8 | 9 => Ok(trapframe.regs[1] + 4),
        11 => Err(ExceptionHandlingError::UnableToRecoverFromException("MachineEnvironmentCall occured ")),
        12 => Err(ExceptionHandlingError::UnableToRecoverFromException("InstructionPageFault occured ")),
        13 => Err(ExceptionHandlingError::UnableToRecoverFromException("LoadPageFault occured ")),
        _ => Err(ExceptionHandlingError::UnableToRecoverFromException("StorePageFault occured ")),
    }
}

} // verus!
