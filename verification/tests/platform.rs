use laplacianos::exceptions::{
    affinity_id, classify_data_abort, exception_class, exception_syndrome, irq_route, sync_route, watchdog_due,
    IrqRoute, SyncRoute,
};
use laplacianos::identity_map::{mmu_enabled, translation_control, MAIR_VALUE};
use laplacianos::pointer::UsedElement;
use laplacianos::virtqueue::{
    block_chain, block_request_allowed, block_request_type, capacity_sectors, device_buffer, fill_tx_buffer,
    is_modern_transport, mac_present, negotiate_features, post_available, queue_size, received_frames,
    return_buffers, status_accepted, tx_descriptor, used_window, Descriptor, DESC_DEVICE_WRITES,
    DESC_NEXT, NET_BUFFER_SIZE, NET_F_MAC, STATUS_FEATURES_OK,
};

#[test]
fn transport_handshake_decisions() {
    assert!(is_modern_transport(0x7472_6976, 2));
    assert!(!is_modern_transport(0x7472_6976, 1));
    assert!(!is_modern_transport(0, 2));
    assert_eq!(negotiate_features(0xffff_ffff, 0, NET_F_MAC), None);
    assert_eq!(negotiate_features(0x0000_00ff, 1, NET_F_MAC), Some((0x20, 1)));
    assert_eq!(negotiate_features(0x0000_00ff, 3, 0), Some((0, 1)));
    assert!(status_accepted(0x0b, STATUS_FEATURES_OK));
    assert!(!status_accepted(0x03, STATUS_FEATURES_OK));
}

#[test]
fn queue_size_is_capped_and_a_power_of_two() {
    assert_eq!(queue_size(256, 64), Some(64));
    assert_eq!(queue_size(16, 64), Some(16));
    assert_eq!(queue_size(0, 8), None);
    assert_eq!(queue_size(24, 64), None);
    assert_eq!(queue_size(8, 8), Some(8));
}

#[test]
fn block_request_descriptor_chain() {
    let read = block_chain(0x1000, 0x1010, 0x1210, false);
    assert_eq!(read[0], Descriptor { address: 0x1000, length: 16, flags: DESC_NEXT, next: 1 });
    assert_eq!(read[1], Descriptor { address: 0x1010, length: 512, flags: DESC_NEXT | DESC_DEVICE_WRITES, next: 2 });
    assert_eq!(read[2], Descriptor { address: 0x1210, length: 1, flags: DESC_DEVICE_WRITES, next: 0 });
    let write = block_chain(0x1000, 0x1010, 0x1210, true);
    assert_eq!(write[1].flags, DESC_NEXT);
    assert_eq!((block_request_type(true), block_request_type(false)), (1, 0));
    assert!(block_request_allowed(3, 4, 0x0a00_0000));
    assert!(!block_request_allowed(4, 4, 0x0a00_0000));
    assert!(!block_request_allowed(0, 4, 0));
    assert_eq!(capacity_sectors(0x10, 0x2), 0x2_0000_0010);
    assert_eq!(device_buffer(0x5000, 8), Descriptor { address: 0x5000, length: 8, flags: DESC_DEVICE_WRITES, next: 0 });
}

#[test]
fn available_ring_wraps_at_its_size() {
    let mut ring = [0u16; 8];
    assert_eq!(post_available(&mut ring, 9, 5), 10);
    assert_eq!(ring[1], 5);
    assert_eq!(post_available(&mut ring, u16::MAX, 3), 0);
    assert_eq!(ring[7], 3);
}

#[test]
fn network_frames_in_and_out() {
    assert_eq!(tx_descriptor(0x8000, 0), None);
    assert_eq!(tx_descriptor(0x8000, 1515), None);
    assert_eq!(tx_descriptor(0x8000, 60), Some(Descriptor { address: 0x8000, length: 70, flags: 0, next: 0 }));
    let mut buffer = vec![0xaau8; NET_BUFFER_SIZE];
    fill_tx_buffer(&mut buffer, &[1, 2, 3]);
    assert_eq!(&buffer[..13], &[0, 0, 0, 0, 0, 0, 0, 0, 0, 0, 1, 2, 3]);
    assert_eq!(buffer[13], 0xaa);
    assert_eq!(device_buffer(0x9000, NET_BUFFER_SIZE as u32).length, 1524);
    assert!(!mac_present([0; 6]));
    assert!(mac_present([0, 0, 0, 0, 0, 1]));

    let mut ring = [UsedElement { id: 0, length: 0 }; 64];
    ring[63] = UsedElement { id: 4, length: 74 };
    ring[0] = UsedElement { id: 70, length: 100 };
    ring[1] = UsedElement { id: 5, length: 10 };
    ring[2] = UsedElement { id: 6, length: 4000 };
    let window = used_window(&ring, 0xffff, 3);
    assert_eq!(window.len(), 4);
    assert_eq!(window[0], UsedElement { id: 4, length: 74 });
    let frames = received_frames(&window);
    assert_eq!(frames, vec![(4, 64), (6, 1514)]);
    let mut avail = [0u16; 64];
    assert_eq!(return_buffers(&mut avail, 63, &frames), 65);
    assert_eq!((avail[63], avail[0]), (4, 6));
    assert!(used_window(&ring, 7, 7).is_empty());
}

#[test]
fn exception_routing() {
    let svc = 0x15u64 << 26 | 0x0200_0000;
    assert_eq!(exception_class(svc), 0x15);
    assert_eq!(exception_syndrome(0xffff_ffff), 0x01ff_ffff);
    assert_eq!(sync_route(svc, true), SyncRoute::Syscall);
    assert_eq!(sync_route(svc, false), SyncRoute::Fatal);
    assert_eq!(sync_route(0x24u64 << 26, true), SyncRoute::DataAbort);
    assert_eq!(sync_route(0x25u64 << 26, false), SyncRoute::DataAbort);
    assert_eq!(sync_route(0x25u64 << 26, true), SyncRoute::Fatal);
    assert_eq!(classify_data_abort(0x24u64 << 26 | 0x05), Some(0));
    assert_eq!(classify_data_abort(0x24u64 << 26 | 0x47), Some(2));
    assert_eq!(classify_data_abort(0x0f), Some(1));
    assert_eq!(classify_data_abort(0x4d), Some(3));
    assert_eq!(classify_data_abort(0x10), None);
    assert_eq!(classify_data_abort(0x43), None);
}

#[test]
fn interrupt_routing_and_cpu_identity() {
    assert_eq!(irq_route(1023), IrqRoute::Spurious);
    assert_eq!(irq_route(27), IrqRoute::Timer);
    assert_eq!(irq_route(79), IrqRoute::Device(79));
    assert_eq!(irq_route(300), IrqRoute::Unrouted);
    assert!(watchdog_due(1000));
    assert!(!watchdog_due(1001));
    assert_eq!(affinity_id(0x0000_00ab_8102_0304), 0xab02_0304);
    assert_eq!(MAIR_VALUE, 0x04ff);
    assert_eq!(translation_control(0x5), 0x5_0080_3510);
    assert_eq!(mmu_enabled(0x30d0_0800), 0x30d0_180d);
}
