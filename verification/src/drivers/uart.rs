//! The UART's error and interrupt kinds.

use vstd::prelude::*;

verus! {

/// Why a UART transfer did not happen.
#[derive(Debug, Clone, Copy, PartialEq, Eq, Structural)]
pub enum UartError {
    /// The UART was not ready to be written to.
    UnableToWriteToBuffer,
    /// The UART had no data to be read.
    UnableToReadBuffer,
    Others,
}

/// The kinds of interrupt that the UART raises.
#[derive(Debug, Clone, Copy, PartialEq, Eq, Structural)]
pub enum UartInterrupt {
    /// Received data is waiting to be read.
    DataReady,
    /// The transmit register is empty and can be written to.
    BufferEmpty,
    /// A transmission error: framing, parity or lost data.
    ReceiverLineStatus,
    /// Any other interrupt, such as a modem status change.
    ArbitraryInterrupt,
}

} // verus!
