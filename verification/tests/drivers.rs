use hobo_os::drivers::plic::{
    enable_interrupt, is_pending, priority_address, priority_write, read_ID_from_buffer,
    threshold_write, write_ID_to_buffer, PlicError, PLIC_PRIORITY,
};
use hobo_os::drivers::{
    probe_addresses, probe_slot, setup_entropy_device, setup_gpu_device, setup_input_device,
    setup_network_device, virtio_slot, ProbeResult, VirtioDeviceKind, MMIO_VIRTIO_MAGIC,
};

#[test]
fn claim_register_zero_means_no_interrupt() {
    assert_eq!(read_ID_from_buffer(0), None);
    assert_eq!(read_ID_from_buffer(10), Some(10));
}

#[test]
fn completing_interrupt_zero_is_refused() {
    assert_eq!(
        write_ID_to_buffer(0),
        Err(PlicError::Invalid_Interrupt_ID(
            "There was an attempt to write an ID that was 0 or out of range"
        ))
    );
    assert_eq!(write_ID_to_buffer(10), Ok(10));
}

#[test]
fn thresholds_run_from_zero_to_seven() {
    assert_eq!(threshold_write(7), Ok(7));
    assert_eq!(threshold_write(0), Ok(0));
    assert_eq!(
        threshold_write(8),
        Err(PlicError::Invalid_Threshold_Value(
            "Threshold value was either less than zero or more than 7"
        ))
    );
}

#[test]
fn priorities_run_from_zero_to_seven() {
    assert_eq!(priority_write(10, 6), Ok((PLIC_PRIORITY + 40, 6)));
    assert_eq!(priority_address(10), 0x0c00_0028);
    assert_eq!(
        priority_write(10, 9),
        Err(PlicError::Invalid_Priority_Value(
            "Priority value was either less than zero or more than 7"
        ))
    );
}

#[test]
fn enable_and_pending_bits_are_by_id() {
    assert_eq!(enable_interrupt(10, 0), 1 << 10);
    assert_eq!(enable_interrupt(1, 0b100), 0b110);
    assert!(is_pending(10, 1 << 10));
    assert!(!is_pending(9, 1 << 10));
}

#[test]
fn probing_reads_magic_then_device_id() {
    assert_eq!(probe_slot(0, 2), ProbeResult::NotVirtio);
    assert_eq!(probe_slot(MMIO_VIRTIO_MAGIC, 0), ProbeResult::NotConnected);
    assert_eq!(probe_slot(MMIO_VIRTIO_MAGIC, 1), ProbeResult::Found(VirtioDeviceKind::Network));
    assert_eq!(probe_slot(MMIO_VIRTIO_MAGIC, 2), ProbeResult::Found(VirtioDeviceKind::Block));
    assert_eq!(probe_slot(MMIO_VIRTIO_MAGIC, 4), ProbeResult::Found(VirtioDeviceKind::Entropy));
    assert_eq!(probe_slot(MMIO_VIRTIO_MAGIC, 16), ProbeResult::Found(VirtioDeviceKind::Gpu));
    assert_eq!(probe_slot(MMIO_VIRTIO_MAGIC, 18), ProbeResult::Found(VirtioDeviceKind::Input));
    assert_eq!(probe_slot(MMIO_VIRTIO_MAGIC, 3), ProbeResult::Found(VirtioDeviceKind::Unknown(3)));
}

#[test]
fn the_eight_virtio_slots() {
    let v = probe_addresses();
    assert_eq!(v.len(), 8);
    assert_eq!(v[0], 0x1000_1000);
    assert_eq!(v[7], 0x1000_8000);
    assert_eq!(virtio_slot(0x1000_1000), 0);
    assert_eq!(virtio_slot(0x1000_8000), 7);
}

#[test]
fn unsupported_devices_fail_to_set_up() {
    assert!(!setup_network_device(0x1000_1000));
    assert!(!setup_gpu_device(0x1000_1000));
    assert!(!setup_input_device(0x1000_1000));
    assert!(!setup_entropy_device(0x1000_1000));
}
