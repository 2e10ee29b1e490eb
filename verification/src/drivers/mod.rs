//! The device drivers' decisions: the interrupt controller's register
//! values, the UART's interrupt kinds, and the set-up of VirtIO devices.

pub mod plic;
pub mod uart;

use vstd::prelude::*;

verus! {

/// The first VirtIO slot's registers.
pub const MMIO_VIRTIO_START: usize = 0x1000_1000;

/// The last VirtIO slot's registers.
pub const MMIO_VIRTIO_END: usize = 0x1000_8000;

/// The distance between two VirtIO slots.
pub const MMIO_VIRTIO_STRIDE: usize = 0x1000;

/// The value of every VirtIO device's magic register: "virt" read as a
/// little-endian word.
pub const MMIO_VIRTIO_MAGIC: u32 = 0x74_72_69_76;

/// The kinds of VirtIO device, by device ID.
#[derive(Debug, Clone, Copy, PartialEq, Eq, Structural)]
pub enum VirtioDeviceKind {
    Network,
    Block,
    Entropy,
    Gpu,
    Input,
    Unknown(u32),
}

/// What probing a VirtIO slot finds.
#[derive(Debug, Clone, Copy, PartialEq, Eq, Structural)]
pub enum ProbeResult {
    /// The magic register does not hold the VirtIO magic value.
    NotVirtio,
    /// A VirtIO slot with no device attached: device ID zero.
    NotConnected,
    /// A device of this kind is attached.
    Found(VirtioDeviceKind),
}

/// The kind of VirtIO device with ID `deviceid`: 1 network, 2 block,
/// 4 entropy, 16 GPU, 18 input.
pub open spec fn device_kind(deviceid: u32) -> VirtioDeviceKind {
    if deviceid == 1 {
        VirtioDeviceKind::Network
    } else if deviceid == 2 {
        VirtioDeviceKind::Block
    } else if deviceid == 4 {
        VirtioDeviceKind::Entropy
    } else if deviceid == 16 {
        VirtioDeviceKind::Gpu
    } else if deviceid == 18 {
        VirtioDeviceKind::Input
    } else {
        VirtioDeviceKind::Unknown(deviceid)
    }
}

/// What a VirtIO slot holds, from its magic register `magicvalue` and its
/// device ID register `deviceid`.
pub fn probe_slot(magicvalue: u32, deviceid: u32) -> (r: ProbeResult)
    ensures
        magicvalue != MMIO_VIRTIO_MAGIC ==> r == ProbeResult::NotVirtio,
        magicvalue == MMIO_VIRTIO_MAGIC && deviceid == 0 ==> r == ProbeResult::NotConnected,
        magicvalue == MMIO_VIRTIO_MAGIC && deviceid != 0 ==> r == ProbeResult::Found(
            device_kind(deviceid),
        ),
{
    if MMIO_VIRTIO_MAGIC != magicvalue {
        ProbeResult::NotVirtio
    } else if deviceid == 0 {
        ProbeResult::NotConnected
    } else {
        let kind = match deviceid {
            1 => VirtioDeviceKind::Network,
            2 => VirtioDeviceKind::Block,
            4 => VirtioDeviceKind::Entropy,
            16 => VirtioDeviceKind::Gpu,
            18 => VirtioDeviceKind::Input,
            _ => VirtioDeviceKind::Unknown(deviceid),
        };
        ProbeResult::Found(kind)
    }
}

/// The addresses of the VirtIO slots, in the order they are probed.
pub fn probe_addresses() -> (v: Vec<usize>)
    ensures
        v@.len() == 8,
        forall|i: int| 0 <= i < 8 ==> #[trigger] v@[i] == MMIO_VIRTIO_START + i * MMIO_VIRTIO_STRIDE,
{
    let mut v: Vec<usize> = Vec::new();
    let mut addr = MMIO_VIRTIO_START;
    while addr <= MMIO_VIRTIO_END
        invariant
            MMIO_VIRTIO_START <= addr <= MMIO_VIRTIO_END + MMIO_VIRTIO_STRIDE,
            (addr - MMIO_VIRTIO_START) % (MMIO_VIRTIO_STRIDE as int) == 0,
            v@.len() == (addr - MMIO_VIRTIO_START) / (MMIO_VIRTIO_STRIDE as int),
            forall|i: int|
                0 <= i < v@.len() ==> #[trigger] v@[i] == MMIO_VIRTIO_START + i * MMIO_VIRTIO_STRIDE,
        decreases MMIO_VIRTIO_END + MMIO_VIRTIO_STRIDE - addr,
    {
        v.push(addr);
        addr = addr + MMIO_VIRTIO_STRIDE;
    }
    v
}

/// The index of the VirtIO slot whose registers start at `addr`.
pub fn virtio_slot(addr: usize) -> (idx: usize)
    requires
        MMIO_VIRTIO_START <= addr,
    ensures
        idx == (addr - MMIO_VIRTIO_START) / 4096,
{
    let offset = addr - MMIO_VIRTIO_START;
    let idx = offset >> 12;
    assert(idx == offset / 4096) by (bit_vector)
        requires
            idx == offset >> 12,
    ;
    idx
}

/// Sets up the VirtIO network device whose registers start at `address`.
/// Network devices are not supported: the set-up always fails.
pub fn setup_network_device(_address: usize) -> (ok: bool)
    ensures
        !ok,
{
    false
}

/// Sets up the VirtIO GPU device whose registers start at `address`. GPU
/// devices are not supported: the set-up always fails.
pub fn setup_gpu_device(_address: usize) -> (ok: bool)
    ensures
        !ok,
{
    false
}

/// Sets up the VirtIO input device whose registers start at `address`.
/// Input devices are not supported: the set-up always fails.
pub fn setup_input_device(_address: usize) -> (ok: bool)
    ensures
        !ok,
{
    false
}

/// Sets up the VirtIO entropy device whose registers start at `address`.
/// Entropy devices are not supported: the set-up always fails.
pub fn setup_entropy_device(_address: usize) -> (ok: bool)
    ensures
        !ok,
{
    false
}

} // verus!
