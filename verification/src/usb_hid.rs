//! USB HID over xHCI: finding the controller among the PCI functions, and
//! turning boot-keyboard reports into key inputs, emitting only the keys
//! newly pressed since the previous report.

use vstd::prelude::*;
use crate::keyboard::{KeyInput, KeyboardQueue, push};
use crate::pci::PciDeviceInfo;
use crate::virtio::ProbeResult;

verus! {

pub const XHCI_CLASS: u8 = 0x0c;
pub const XHCI_SUBCLASS: u8 = 0x03;
pub const XHCI_PROG_IF: u8 = 0x30;
/// Left and right shift in the report's modifier byte.
pub const SHIFT_MODIFIERS: u8 = 0x22;

pub struct UsbHidState {
    pub present: bool,
    pub mmio_base: u64,
    pub previous_keys: [u8; 6],
}

impl UsbHidState {
    pub fn new() -> (r: Self)
        ensures
            !r.present,
            r.mmio_base == 0,
            r.previous_keys@ == seq![0u8, 0, 0, 0, 0, 0],
    {
        let r = UsbHidState { present: false, mmio_base: 0, previous_keys: [0; 6] };
        assert(r.previous_keys@ =~= seq![0u8, 0, 0, 0, 0, 0]);
        r
    }
}

/// Whether a PCI function is an xHCI controller.
pub open spec fn is_xhci_spec(info: PciDeviceInfo) -> bool {
    info.class_code == XHCI_CLASS && info.subclass == XHCI_SUBCLASS && info.prog_if == XHCI_PROG_IF
}

pub fn is_xhci(info: &PciDeviceInfo) -> (r: bool)
    ensures
        r == is_xhci_spec(*info),
{
    info.class_code == XHCI_CLASS && info.subclass == XHCI_SUBCLASS && info.prog_if == XHCI_PROG_IF
}

/// The MMIO base a memory BAR holds: its low flag bits cleared.
pub open spec fn bar_base(bar0: u32) -> u64 {
    (bar0 - bar0 % 16) as u64
}

/// The MMIO base of the first xHCI controller, among the first `n`
/// functions, whose BAR0 is not zero.
pub open spec fn first_xhci(devices: Seq<PciDeviceInfo>, bars: Seq<u32>, n: int) -> u64
    decreases n,
{
    if n <= 0 {
        0
    } else {
        let before = first_xhci(devices, bars, n - 1);
        if before == 0 && is_xhci_spec(devices[n - 1]) {
            bar_base(bars[n - 1])
        } else {
            before
        }
    }
}

/// Bind to the first xHCI controller among `devices`; `bars[i]` is the
/// BAR0 word of `devices[i]`.
pub fn probe_driver(state: &mut UsbHidState, devices: &[PciDeviceInfo], bars: &[u32]) -> (r: ProbeResult)
    requires
        devices.len() == bars.len(),
    ensures
        ({
            let found = first_xhci(devices@, bars@, devices.len() as int);
            &&& found == 0 ==> r == ProbeResult::NoMatch && *final(state) == *old(state)
            &&& found != 0 ==> r == ProbeResult::Bound && final(state).present && final(state).mmio_base == found
                && final(state).previous_keys == old(state).previous_keys
        }),
{
    let mut found: u64 = 0;
    let mut i: usize = 0;
    while i < devices.len()
        invariant
            i <= devices.len(),
            devices.len() == bars.len(),
            found == first_xhci(devices@, bars@, i as int),
        decreases devices.len() - i,
    {
        if found == 0 && is_xhci(&devices[i]) {
            let bar = bars[i];
            let masked = bar & !0xfu32;
            assert(masked == bar - bar % 16) by (bit_vector)
                requires masked == bar & !0xfu32;
            found = masked as u64;
        }
        i += 1;
    }
    if found == 0 {
        return ProbeResult::NoMatch;
    }
    state.present = true;
    state.mmio_base = found;
    ProbeResult::Bound
}

pub fn is_present(state: &UsbHidState) -> (r: bool)
    ensures
        r == state.present,
{
    state.present
}

/// The shifted digit row of a US keyboard, `1` through `0`.
pub open spec fn shifted_digit(index: int) -> u8 {
    seq![0x21u8, 0x40u8, 0x23u8, 0x24u8, 0x25u8, 0x5eu8, 0x26u8, 0x2au8, 0x28u8, 0x29u8][index]
}

/// The character a HID usage types on a US layout, if it types one.
pub open spec fn usage_char(usage: u8, shift: bool) -> Option<u8> {
    if 0x04 <= usage <= 0x1d {
        Some((if shift { 0x41u8 + usage - 0x04 } else { 0x61u8 + usage - 0x04 }) as u8)
    } else if 0x1e <= usage <= 0x27 {
        if shift {
            Some(shifted_digit(usage - 0x1e))
        } else if usage == 0x27 {
            Some(0x30u8)
        } else {
            Some((0x31u8 + usage - 0x1e) as u8)
        }
    } else if usage == 0x2c {
        Some(0x20u8)
    } else if usage == 0x2d {
        Some(if shift { 0x5fu8 } else { 0x2du8 })
    } else if usage == 0x2e {
        Some(if shift { 0x2bu8 } else { 0x3du8 })
    } else if usage == 0x2f {
        Some(if shift { 0x7bu8 } else { 0x5bu8 })
    } else if usage == 0x30 {
        Some(if shift { 0x7du8 } else { 0x5du8 })
    } else if usage == 0x31 {
        Some(if shift { 0x7cu8 } else { 0x5cu8 })
    } else if usage == 0x33 {
        Some(if shift { 0x3au8 } else { 0x3bu8 })
    } else if usage == 0x34 {
        Some(if shift { 0x22u8 } else { 0x27u8 })
    } else if usage == 0x35 {
        Some(if shift { 0x7eu8 } else { 0x60u8 })
    } else if usage == 0x36 {
        Some(if shift { 0x3cu8 } else { 0x2cu8 })
    } else if usage == 0x37 {
        Some(if shift { 0x3eu8 } else { 0x2eu8 })
    } else if usage == 0x38 {
        Some(if shift { 0x3fu8 } else { 0x2fu8 })
    } else {
        None
    }
}

/// The key input a HID keyboard usage stands for.
pub open spec fn decode_usage(usage: u8, shift: bool) -> Option<KeyInput> {
    match usage_char(usage, shift) {
        Some(c) => Some(KeyInput::Char(c)),
        None => if usage == 0x28 {
            Some(KeyInput::Enter)
        } else if usage == 0x2a {
            Some(KeyInput::Backspace)
        } else if usage == 0x2b {
            Some(KeyInput::Tab { shift })
        } else if usage == 0x4f {
            Some(KeyInput::Right)
        } else if usage == 0x50 {
            Some(KeyInput::Left)
        } else if usage == 0x51 {
            Some(KeyInput::Down)
        } else if usage == 0x52 {
            Some(KeyInput::Up)
        } else {
            None
        },
    }
}

fn usage_character(usage: u8, shift: bool) -> (r: Option<u8>)
    ensures
        r == usage_char(usage, shift),
{
    if 0x04 <= usage && usage <= 0x1d {
        let value = 0x61u8 + usage - 0x04;
        Some(if shift { value - 32 } else { value })
    } else if 0x1e <= usage && usage <= 0x27 {
        let normal: [u8; 10] = [0x31u8, 0x32u8, 0x33u8, 0x34u8, 0x35u8, 0x36u8, 0x37u8, 0x38u8, 0x39u8, 0x30u8];
        let shifted: [u8; 10] = [0x21u8, 0x40u8, 0x23u8, 0x24u8, 0x25u8, 0x5eu8, 0x26u8, 0x2au8, 0x28u8, 0x29u8];
        let index = (usage - 0x1e) as usize;
        assert(shifted@ =~= seq![0x21u8, 0x40u8, 0x23u8, 0x24u8, 0x25u8, 0x5eu8, 0x26u8, 0x2au8, 0x28u8, 0x29u8]);
        Some(if shift { shifted[index] } else { normal[index] })
    } else if usage == 0x2c {
        Some(0x20u8)
    } else if usage == 0x2d {
        Some(if shift { 0x5fu8 } else { 0x2du8 })
    } else if usage == 0x2e {
        Some(if shift { 0x2bu8 } else { 0x3du8 })
    } else if usage == 0x2f {
        Some(if shift { 0x7bu8 } else { 0x5bu8 })
    } else if usage == 0x30 {
        Some(if shift { 0x7du8 } else { 0x5du8 })
    } else if usage == 0x31 {
        Some(if shift { 0x7cu8 } else { 0x5cu8 })
    } else if usage == 0x33 {
        Some(if shift { 0x3au8 } else { 0x3bu8 })
    } else if usage == 0x34 {
        Some(if shift { 0x22u8 } else { 0x27u8 })
    } else if usage == 0x35 {
        Some(if shift { 0x7eu8 } else { 0x60u8 })
    } else if usage == 0x36 {
        Some(if shift { 0x3cu8 } else { 0x2cu8 })
    } else if usage == 0x37 {
        Some(if shift { 0x3eu8 } else { 0x2eu8 })
    } else if usage == 0x38 {
        Some(if shift { 0x3fu8 } else { 0x2fu8 })
    } else {
        None
    }
}

/// Decode one HID keyboard usage.
pub fn decode_hid_usage(usage: u8, shift: bool) -> (r: Option<KeyInput>)
    ensures
        r == decode_usage(usage, shift),
{
    if let Some(character) = usage_character(usage, shift) {
        return Some(KeyInput::Char(character));
    }
    if usage == 0x28 {
        Some(KeyInput::Enter)
    } else if usage == 0x2a {
        Some(KeyInput::Backspace)
    } else if usage == 0x2b {
        Some(KeyInput::Tab { shift })
    } else if usage == 0x4f {
        Some(KeyInput::Right)
    } else if usage == 0x50 {
        Some(KeyInput::Left)
    } else if usage == 0x51 {
        Some(KeyInput::Down)
    } else if usage == 0x52 {
        Some(KeyInput::Up)
    } else {
        None
    }
}

/// A key queued as the keyboard queue does: the oldest key makes room when full.
pub open spec fn queue_key(queue: Seq<KeyInput>, input: KeyInput) -> Seq<KeyInput> {
    if queue.len() == crate::keyboard::KEY_QUEUE_CAPACITY {
        queue.drop_first().push(input)
    } else {
        queue.push(input)
    }
}

/// The keys the first `n` key slots of a report add to `queue`: each
/// nonzero usage that was not held in the previous report and that decodes.
pub open spec fn report_keys(queue: Seq<KeyInput>, keys: Seq<u8>, previous: Seq<u8>, shift: bool, n: int) -> Seq<
    KeyInput,
>
    decreases n,
{
    if n <= 0 {
        queue
    } else {
        let before = report_keys(queue, keys, previous, shift, n - 1);
        let usage = keys[n - 1];
        if usage != 0 && !previous.contains(usage) && decode_usage(usage, shift) is Some {
            queue_key(before, decode_usage(usage, shift).unwrap())
        } else {
            before
        }
    }
}

/// Whether either shift key is held in a report's modifier byte.
pub open spec fn shift_held(modifiers: u8) -> bool {
    modifiers & SHIFT_MODIFIERS != 0
}

fn contains_key(keys: &[u8; 6], usage: u8) -> (r: bool)
    ensures
        r == keys@.contains(usage),
{
    let mut i: usize = 0;
    while i < 6
        invariant
            i <= 6,
            forall|k: int| 0 <= k < i ==> keys@[k] != usage,
        decreases 6 - i,
    {
        if keys[i] == usage {
            assert(keys@[i as int] == usage);
            return true;
        }
        i += 1;
    }
    false
}

/// Process a boot-keyboard report: queue the keys newly pressed since the
/// previous report, then remember this report's keys.
pub fn handle_kbd_report(state: &mut UsbHidState, queue: &mut KeyboardQueue, report: &[u8; 8])
    requires
        old(queue).wf(),
    ensures
        final(queue).wf(),
        final(queue)@ == report_keys(old(queue)@, report@.subrange(2, 8), old(state).previous_keys@, shift_held(report@[0]), 6),
        final(state).previous_keys@ == report@.subrange(2, 8),
        final(state).present == old(state).present,
        final(state).mmio_base == old(state).mmio_base,
{
    let shift = report[0] & SHIFT_MODIFIERS != 0;
    let ghost keys = report@.subrange(2, 8);
    let ghost previous = state.previous_keys@;
    let ghost start = queue@;
    let ghost present = state.present;
    let ghost base = state.mmio_base;
    let mut i: usize = 0;
    while i < 6
        invariant
            i <= 6,
            queue.wf(),
            keys == report@.subrange(2, 8),
            previous == state.previous_keys@,
            shift == shift_held(report@[0]),
            queue@ == report_keys(start, keys, previous, shift, i as int),
            state.present == present,
            state.mmio_base == base,
        decreases 6 - i,
    {
        let keycode = report[i + 2];
        assert(keycode == keys[i as int]);
        if keycode != 0 && !contains_key(&state.previous_keys, keycode) {
            if let Some(input) = decode_hid_usage(keycode, shift) {
                push(queue, input);
            }
        }
        i += 1;
    }
    let mut j: usize = 0;
    while j < 6
        invariant
            j <= 6,
            forall|k: int| 0 <= k < j ==> state.previous_keys@[k] == report@[k + 2],
            state.present == present,
            state.mmio_base == base,
        decreases 6 - j,
    {
        state.previous_keys[j] = report[j + 2];
        j += 1;
    }
    assert(state.previous_keys@ =~= report@.subrange(2, 8));
}

} // verus!
