//! The platform-level interrupt controller of hart 0: which values go into
//! its registers and what the values read from them mean. The register
//! accesses themselves are made by the caller.

use vstd::prelude::*;

verus! {

/// The priority registers, one 32-bit word per interrupt ID.
pub const PLIC_PRIORITY: usize = 0x0c00_0000;

/// The pending bits, one per interrupt ID.
pub const PLIC_PENDING: usize = 0x0c00_1000;

/// The enable bits of hart 0, one per interrupt ID.
pub const PLIC_INT_ENABLE: usize = 0x0c00_2000;

/// The priority threshold of hart 0.
pub const PLIC_THRESHOLD: usize = 0x0c20_0000;

/// The claim and completion register of hart 0.
pub const PLIC_BUFFER: usize = 0x0c20_0004;

/// Why a value was refused for a controller register.
#[allow(non_camel_case_types)]
#[derive(Debug, PartialEq)]
pub enum PlicError {
    Invalid_Interrupt_ID(&'static str),
    Invalid_Threshold_Value(&'static str),
    Invalid_Priority_Value(&'static str),
}

/// The interrupt ID in the claim register value `raw`: none when it is zero.
#[allow(non_snake_case)]
pub fn read_ID_from_buffer(raw: u32) -> (r: Option<u32>)
    ensures
        raw == 0 ==> r is None,
        raw != 0 ==> r == Some(raw),
{
    if raw == 0 {
        None
    } else {
        Some(raw)
    }
}

/// The value to write to the claim register to report interrupt
/// `interrupt_id` as handled; ID zero names no interrupt and is refused.
#[allow(non_snake_case)]
pub fn write_ID_to_buffer(interrupt_id: u32) -> (r: Result<u32, PlicError>)
    ensures
        interrupt_id == 0 ==> r == Err::<u32, PlicError>(
            PlicError::Invalid_Interrupt_ID(
                "There was an attempt to write an ID that was 0 or out of range",
            ),
        ),
        interrupt_id != 0 ==> r == Ok::<u32, PlicError>(interrupt_id),
{
    if interrupt_id == 0 {
        return Err(
            PlicError::Invalid_Interrupt_ID(
                "There was an attempt to write an ID that was 0 or out of range",
            ),
        );
    }
    Ok(interrupt_id)
}

/// The value to write to the threshold register for threshold `limit`;
/// thresholds run from 0 to 7.
pub fn threshold_write(limit: u8) -> (r: Result<u32, PlicError>)
    ensures
        limit > 7 ==> r == Err::<u32, PlicError>(
            PlicError::Invalid_Threshold_Value(
                "Threshold value was either less than zero or more than 7",
            ),
        ),
        limit <= 7 ==> r == Ok::<u32, PlicError>(limit as u32),
{
    if limit > 7 {
        return Err(
            PlicError::Invalid_Threshold_Value(
                "Threshold value was either less than zero or more than 7",
            ),
        );
    }
    Ok(limit as u32)
}

/// The enable word after enabling interrupt `interrupt_id` in the enable
/// word `enabled`: its bit is set and the others stay.
pub fn enable_interrupt(interrupt_id: u32, enabled: u32) -> (r: u32)
    requires
        interrupt_id < 32,
    ensures
        r == enabled | (1u32 << interrupt_id),
{
    enabled | (1u32 << interrupt_id)
}

/// The address of the priority register of interrupt `interrupt_id`.
pub fn priority_address(interrupt_id: u32) -> (a: usize)
    requires
        PLIC_PRIORITY + 4 * interrupt_id <= usize::MAX,
    ensures
        a == PLIC_PRIORITY + 4 * interrupt_id,
{
    PLIC_PRIORITY + 4 * (interrupt_id as usize)
}

/// The register address and value that set the priority of interrupt
/// `interrupt_id` to `priority_value`; priorities run from 0 to 7.
pub fn priority_write(interrupt_id: u32, priority_value: u8) -> (r: Result<(usize, u32), PlicError>)
    requires
        PLIC_PRIORITY + 4 * interrupt_id <= usize::MAX,
    ensures
        priority_value > 7 ==> r == Err::<(usize, u32), PlicError>(
            PlicError::Invalid_Priority_Value(
                "Priority value was either less than zero or more than 7",
            ),
        ),
        priority_value <= 7 ==> r == Ok::<(usize, u32), PlicError>(
            ((PLIC_PRIORITY + 4 * interrupt_id) as usize, priority_value as u32),
        ),
{
    if priority_value > 7 {
        return Err(
            PlicError::Invalid_Priority_Value(
                "Priority value was either less than zero or more than 7",
            ),
        );
    }
    Ok((priority_address(interrupt_id), priority_value as u32))
}

/// Whether interrupt `id` is pending in the pending word `pend_ids`: its
/// bit is set.
pub fn is_pending(id: u32, pend_ids: u32) -> (b: bool)
    requires
        id < 32,
    ensures
        b == ((pend_ids >> id) & 1u32 == 1u32),
{
    let actual_id: u32 = 1u32 << id;
    assert((actual_id & pend_ids != 0) == ((pend_ids >> id) & 1u32 == 1u32)) by (bit_vector)
        requires
            id < 32,
            actual_id == 1u32 << id,
    ;
    actual_id & pend_ids != 0
}

} // verus!
