use laplacianos::identity_map::{
    identity_blocks, kernel_page_attrs, kernel_pages, map_2m, split_1g_block, split_2m_block, table_descriptor,
    validate, BootstrapResult, AP_KERNEL_RO, DEVICE_BLOCK, NORMAL_BLOCK, PXN as BLOCK_PXN, UXN,
};
use laplacianos::block::{backend_name, block_count, read, write_count, Ramdisk, BLOCK_SIZE};
use laplacianos::context::CpuContext;
use laplacianos::fdt::Region;
use laplacianos::keyboard::{has_pending_key, push, try_read_key, KeyInput, KeyboardQueue, KEY_QUEUE_CAPACITY};
use laplacianos::paging::{encode_leaf, entry_address, NO_EXECUTE, PXN, USER, WRITABLE};
use laplacianos::pci::{
    bus_count, config_address, device_info, enable_bus_master, find_device, for_each_device, function_count,
    merge_u16, read_u16, read_u8, PciDeviceInfo, PciLocation,
};
use laplacianos::pointer::{
    consume_used, decode_input_event, input_has_pending_event, input_try_read_event, irq_line, scale_absolute,
    set_input_display_bounds, InputEvent, InputState, MouseButton, PointerEvent, PointerRing, UsedElement,
    POINTER_RING_SIZE,
};
use laplacianos::timer::{delay_ticks, handle_irq, init_periodic, rearm_interval, still_waiting, ticks, TickCounter};
use laplacianos::usb_hid::{decode_hid_usage, handle_kbd_report, is_present, is_xhci, probe_driver, UsbHidState};
use laplacianos::virtio::{
    discovered_slots, find_device as find_virtio, probe_block_driver, probe_entropy_driver, ProbeResult, VirtioSlot,
    DEVICE_ID_BLOCK, DEVICE_ID_ENTROPY, VIRTIO_MAGIC,
};

#[test]
fn keyboard_keys_come_out_in_order() {
    let mut queue = KeyboardQueue::new();
    assert!(!has_pending_key(&queue));
    push(&mut queue, KeyInput::Char(b'a'));
    push(&mut queue, KeyInput::Enter);
    assert!(has_pending_key(&queue));
    assert_eq!(try_read_key(&mut queue), Some(KeyInput::Char(b'a')));
    assert_eq!(try_read_key(&mut queue), Some(KeyInput::Enter));
    assert_eq!(try_read_key(&mut queue), None);
}

#[test]
fn keyboard_full_queue_drops_the_oldest_key() {
    let mut queue = KeyboardQueue::new();
    for i in 0..KEY_QUEUE_CAPACITY + 1 {
        push(&mut queue, KeyInput::Char(i as u8));
    }
    assert_eq!(try_read_key(&mut queue), Some(KeyInput::Char(1)));
}

#[test]
fn pointer_ring_drops_new_events_when_full() {
    let mut ring = PointerRing::new();
    for i in 0..POINTER_RING_SIZE {
        ring.push(PointerEvent::Absolute { x: i as i32, y: 0 });
    }
    assert_eq!(ring.pop(), Some(PointerEvent::Absolute { x: 0, y: 0 }));
    let mut last = None;
    while let Some(event) = ring.pop() {
        last = Some(event);
    }
    assert_eq!(last, Some(PointerEvent::Absolute { x: (POINTER_RING_SIZE - 2) as i32, y: 0 }));
    assert!(ring.is_empty());
}

#[test]
fn absolute_axis_scales_onto_the_display() {
    assert_eq!(scale_absolute(0, 1024), 0);
    assert_eq!(scale_absolute(32767, 1024), 1023);
    assert_eq!(scale_absolute(16384, 1024), 511);
    assert_eq!(scale_absolute(-5, 1024), 0);
    assert_eq!(scale_absolute(40000, 768), 767);
    assert_eq!(scale_absolute(1000, 0), 0);
}

#[test]
fn evdev_events_become_pointer_events() {
    let mut state = InputState::new();
    decode_input_event(&mut state, InputEvent { event_type: 1, code: 0x110, value: 1 });
    decode_input_event(&mut state, InputEvent { event_type: 2, code: 0, value: 100_000 });
    decode_input_event(&mut state, InputEvent { event_type: 2, code: 1, value: (-3i32) as u32 });
    decode_input_event(&mut state, InputEvent { event_type: 3, code: 0, value: 32767 });
    decode_input_event(&mut state, InputEvent { event_type: 3, code: 5, value: 1 });
    decode_input_event(&mut state, InputEvent { event_type: 1, code: 0x120, value: 1 });
    assert!(input_has_pending_event(&state));
    assert_eq!(
        input_try_read_event(&mut state),
        Some(PointerEvent::Button { button: MouseButton::Left, pressed: true })
    );
    assert_eq!(input_try_read_event(&mut state), Some(PointerEvent::Move { dx: i16::MAX, dy: 0 }));
    assert_eq!(input_try_read_event(&mut state), Some(PointerEvent::Move { dx: 0, dy: -3 }));
    assert_eq!(input_try_read_event(&mut state), Some(PointerEvent::Absolute { x: 1023, y: 384 }));
    assert_eq!(input_try_read_event(&mut state), None);
    assert_eq!(irq_line(), None);
}

#[test]
fn display_bounds_pull_the_pointer_inside() {
    let mut state = InputState::new();
    set_input_display_bounds(&mut state, 100, 0);
    decode_input_event(&mut state, InputEvent { event_type: 3, code: 1, value: 0 });
    assert_eq!(input_try_read_event(&mut state), Some(PointerEvent::Absolute { x: 99, y: 0 }));
}

#[test]
fn used_ring_entries_naming_no_buffer_are_skipped() {
    let mut state = InputState::new();
    let mut events = [InputEvent { event_type: 0, code: 0, value: 0 }; 64];
    events[3] = InputEvent { event_type: 1, code: 0x111, value: 0 };
    let used = [UsedElement { id: 99, length: 8 }, UsedElement { id: 3, length: 4 }, UsedElement { id: 3, length: 8 }];
    assert!(consume_used(&mut state, &used, &events));
    assert_eq!(
        input_try_read_event(&mut state),
        Some(PointerEvent::Button { button: MouseButton::Right, pressed: false })
    );
    assert_eq!(input_try_read_event(&mut state), None);
    assert!(!consume_used(&mut state, &used[..2], &events));
}

#[test]
fn hid_usages_decode_on_a_us_layout() {
    assert_eq!(decode_hid_usage(0x04, false), Some(KeyInput::Char(b'a')));
    assert_eq!(decode_hid_usage(0x1d, true), Some(KeyInput::Char(b'Z')));
    assert_eq!(decode_hid_usage(0x1e, false), Some(KeyInput::Char(b'1')));
    assert_eq!(decode_hid_usage(0x27, false), Some(KeyInput::Char(b'0')));
    assert_eq!(decode_hid_usage(0x1f, true), Some(KeyInput::Char(b'@')));
    assert_eq!(decode_hid_usage(0x31, false), Some(KeyInput::Char(b'\\')));
    assert_eq!(decode_hid_usage(0x34, true), Some(KeyInput::Char(b'"')));
    assert_eq!(decode_hid_usage(0x2b, true), Some(KeyInput::Tab { shift: true }));
    assert_eq!(decode_hid_usage(0x28, false), Some(KeyInput::Enter));
    assert_eq!(decode_hid_usage(0x52, false), Some(KeyInput::Up));
    assert_eq!(decode_hid_usage(0x32, false), None);
}

#[test]
fn keyboard_reports_emit_only_new_presses() {
    let mut hid = UsbHidState::new();
    let mut queue = KeyboardQueue::new();
    handle_kbd_report(&mut hid, &mut queue, &[0, 0, 0x04, 0x05, 0, 0, 0, 0]);
    handle_kbd_report(&mut hid, &mut queue, &[0x02, 0, 0x04, 0x05, 0x06, 0, 0, 0]);
    assert_eq!(try_read_key(&mut queue), Some(KeyInput::Char(b'a')));
    assert_eq!(try_read_key(&mut queue), Some(KeyInput::Char(b'b')));
    assert_eq!(try_read_key(&mut queue), Some(KeyInput::Char(b'C')));
    assert_eq!(try_read_key(&mut queue), None);
    assert_eq!(hid.previous_keys, [0x04, 0x05, 0x06, 0, 0, 0]);
}

fn pci(bus: u8, slot: u8, class_code: u8, subclass: u8, prog_if: u8) -> PciDeviceInfo {
    PciDeviceInfo {
        location: PciLocation { bus, slot, func: 0 },
        vendor_id: 0x1b36,
        device_id: 0x000d,
        class_code,
        subclass,
        prog_if,
        irq_line: 0,
    }
}

#[test]
fn xhci_probe_binds_the_first_controller_with_a_bar() {
    let devices = [pci(0, 1, 0x02, 0, 0), pci(0, 2, 0x0c, 0x03, 0x30), pci(0, 3, 0x0c, 0x03, 0x30)];
    assert!(is_xhci(&devices[1]));
    let mut state = UsbHidState::new();
    assert_eq!(probe_driver(&mut state, &devices, &[0x1000_0004, 0x0000_000f, 0x2000_0004]), ProbeResult::Bound);
    assert!(is_present(&state));
    assert_eq!(state.mmio_base, 0x2000_0000);
    let mut other = UsbHidState::new();
    assert_eq!(probe_driver(&mut other, &devices[..1], &[0x1000_0000]), ProbeResult::NoMatch);
    assert!(!is_present(&other));
}

#[test]
fn virtio_probes_find_the_first_live_transport() {
    let slots = [
        VirtioSlot { base: 0x1000, magic: 0, device_id: DEVICE_ID_BLOCK, version: 2 },
        VirtioSlot { base: 0x2000, magic: VIRTIO_MAGIC, device_id: DEVICE_ID_BLOCK, version: 2 },
        VirtioSlot { base: 0x3000, magic: VIRTIO_MAGIC, device_id: 0, version: 2 },
    ];
    assert_eq!(find_virtio(&slots, DEVICE_ID_BLOCK), Some(0x2000));
    assert_eq!(find_virtio(&slots, DEVICE_ID_ENTROPY), None);
    assert_eq!(probe_block_driver(&slots, |base| base == 0x2000), ProbeResult::Bound);
    assert_eq!(probe_block_driver(&slots, |_| false), ProbeResult::Failed);
    assert_eq!(probe_entropy_driver(&slots, |_| true), ProbeResult::NoMatch);
    assert_eq!(discovered_slots(&slots), vec![slots[1]]);
}

#[test]
fn pci_configuration_words_and_registers() {
    let ecam = Region { base: 0x4010_0000_0000, size: 0x1000_0000 };
    assert_eq!(config_address(ecam, 1, 2, 3, 0x3e), Some(0x4010_0000_0000 + 0x10_0000 + 0x1_0000 + 0x3000 + 0x3c));
    assert_eq!(config_address(ecam, 0, 32, 0, 0), None);
    assert_eq!(config_address(Region { base: 0, size: 0x1000 }, 1, 0, 0, 0), None);
    assert_eq!(read_u8(0x1122_3344, 1), 0x33);
    assert_eq!(read_u8(0x1122_3344, 7), 0x11);
    assert_eq!(read_u16(0x1122_3344, 2), 0x1122);
    assert_eq!(read_u16(0x1122_3344, 0), 0x3344);
    assert_eq!(merge_u16(0x1122_3344, 2, 0xabcd), 0xabcd_3344);
    assert_eq!(enable_bus_master(0x0010_0000), 0x0010_0007);
    assert_eq!(bus_count(ecam), 256);
    assert_eq!(bus_count(Region { base: 0, size: 0x30_0000 }), 3);
    assert_eq!(function_count(0x80), 8);
    assert_eq!(function_count(0x00), 1);
    let info = device_info(PciLocation { bus: 0, slot: 1, func: 0 }, 0x8086, 0x100e, 0x0200_0001, 11);
    assert_eq!((info.class_code, info.subclass, info.prog_if), (0x02, 0x00, 0x00));
}

#[test]
fn pci_scan_lists_present_functions_in_order() {
    // Bus 0: slot 1 single-function, slot 2 multi-function with function 3 present.
    let read = |bus: u8, slot: u8, func: u8, offset: u8| -> u32 {
        let present = bus == 0 && ((slot == 1 && func == 0) || (slot == 2 && (func == 0 || func == 3)));
        if !present {
            return u32::MAX;
        }
        match offset & 0xfc {
            0x00 => 0x1234_8086 + func as u32,
            0x08 => 0x0c03_3000,
            0x0c => if slot == 2 { 0x0080_0000 } else { 0 },
            0x3c => 0x0000_0009,
            _ => 0,
        }
    };
    let devices = for_each_device(Some(Region { base: 0, size: 0x10_0000 }), read);
    let locations: Vec<(u8, u8, u8)> = devices.iter().map(|d| (d.location.bus, d.location.slot, d.location.func)).collect();
    assert_eq!(locations, vec![(0, 1, 0), (0, 2, 0), (0, 2, 3)]);
    assert_eq!(devices[2].vendor_id, 0x8089);
    assert_eq!(devices[2].device_id, 0x1234);
    assert_eq!(devices[0].irq_line, 9);
    assert!(devices.iter().all(|d| is_xhci(d)));
    assert_eq!(find_device(&devices, 0x8089, 0x1234).map(|d| d.location.func), Some(3));
    assert_eq!(find_device(&devices, 1, 1), None);
    assert!(for_each_device(None, read).is_empty());
}

#[test]
fn ramdisk_reads_back_what_was_written() {
    let mut disk = Ramdisk::new();
    let mut data = [0u8; BLOCK_SIZE];
    data[0] = 7;
    data[511] = 9;
    assert!(laplacianos::block::write(&mut disk, 3, &data));
    let mut out = [1u8; BLOCK_SIZE];
    assert!(read(&disk, 3, &mut out));
    assert_eq!(out, data);
    assert!(read(&disk, 2, &mut out));
    assert_eq!(out, [0u8; BLOCK_SIZE]);
    assert!(!laplacianos::block::write(&mut disk, block_count(), &data));
    assert!(!read(&disk, block_count(), &mut out));
    assert_eq!(write_count(&disk), 1);
    assert_eq!(backend_name(false), "volatile-ramdisk");
    assert_eq!(backend_name(true), "virtio-blk");
}

#[test]
fn timer_arithmetic() {
    let mut counter = TickCounter::new();
    handle_irq(&mut counter);
    handle_irq(&mut counter);
    assert_eq!(ticks(&counter), 2);
    init_periodic(&mut counter);
    assert_eq!(ticks(&counter), 0);
    let mut wrapped = TickCounter { count: u64::MAX };
    handle_irq(&mut wrapped);
    assert_eq!(ticks(&wrapped), 0);
    assert_eq!(rearm_interval(62_500_000), 62_500);
    assert_eq!(rearm_interval(500), 1);
    assert_eq!(delay_ticks(62_500_000, 10), 620);
    assert_eq!(delay_ticks(u64::MAX, u64::MAX), u64::MAX);
    assert!(still_waiting(5, u64::MAX - 1, 10));
    assert!(!still_waiting(20, 5, 10));
}

#[test]
fn saved_context_resumes_with_interrupts_enabled() {
    let mut context = CpuContext::new_kernel(0x1000, 0x8000, 0x2000, 0x3000);
    assert_eq!((context.x19, context.sp, context.x30, context.pc), (0x1000, 0x8000, 0x2000, 0x3000));
    context.daif = 0x3c0;
    context.enable_interrupts();
    assert_eq!(context.daif, 0x300);
    assert_eq!(CpuContext::zero().sp, 0);
}

#[test]
fn leaf_descriptors_keep_permissions_and_never_let_users_run_kernel_code() {
    let user_leaf = encode_leaf(0x4000_0000, USER | WRITABLE);
    assert_eq!(entry_address(user_leaf), 0x4000_0000);
    assert_ne!(user_leaf & PXN, 0);
    assert_eq!(user_leaf & (USER | WRITABLE), USER | WRITABLE);
    let kernel_leaf = encode_leaf(0x8000_1000, 0);
    assert_ne!(kernel_leaf & NO_EXECUTE, 0);
    assert_eq!(kernel_leaf & PXN, 0);
}

#[test]
fn boot_identity_map_blocks_and_validation() {
    let (entries, mapped) = identity_blocks(0x8000_0001).unwrap();
    assert_eq!(mapped, 0xc000_0000);
    assert_eq!(entries, vec![DEVICE_BLOCK, 0x4000_0000 | NORMAL_BLOCK, 0x8000_0000 | NORMAL_BLOCK]);
    assert!(identity_blocks(0).is_none());
    assert!(identity_blocks(1 << 49).is_none());
    assert!(identity_blocks(513 << 30).is_none());
    let result = BootstrapResult { pml4_phys: 0x4008_0000, frames_used: 2, mapped_bytes: mapped };
    assert_eq!(validate(&result, table_descriptor(0x4008_1000), &entries), 0);
    let mut broken = entries.clone();
    broken[1] = 0;
    assert_eq!(validate(&result, table_descriptor(0x4008_1000), &broken), 1);
    assert_eq!(validate(&BootstrapResult { pml4_phys: 0x4008_0010, ..result }, 3, &entries), 1);
    let split = split_1g_block(0x4000_0000 | NORMAL_BLOCK, 0x4123_4567);
    assert_eq!(split.len(), 512);
    assert_eq!(split[3], (0x4000_0000 + 3 * 0x20_0000) | NORMAL_BLOCK);
    let pages = split_2m_block(0x4020_0000 | NORMAL_BLOCK, 0x4020_1000);
    assert_eq!(pages[1], (0x4020_0000 + 0x1000) | NORMAL_BLOCK | 2);
    assert_eq!(map_2m(0, 0x0900_1234), (true, Some(0x0900_0000 | DEVICE_BLOCK)));
    assert_eq!(map_2m(0x0900_0000 | DEVICE_BLOCK, 0x0900_1234), (true, None));
    assert_eq!(map_2m(0x0a00_0000 | DEVICE_BLOCK, 0x0900_1234), (false, None));
    let text = kernel_page_attrs(0x1000, 0x2000, 0x3000, 0x4000);
    assert_eq!((text & AP_KERNEL_RO != 0, text & BLOCK_PXN == 0), (true, true));
    let data = kernel_page_attrs(0x5000, 0x2000, 0x3000, 0x4000);
    assert_eq!((data & AP_KERNEL_RO == 0, data & BLOCK_PXN != 0, data & UXN != 0), (true, true, true));
    assert_eq!(kernel_pages(0x1234, 0x5001), (0x1000, 0x6000));
}
