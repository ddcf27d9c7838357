use kernel::arch::idt::{
    decode_scancode, key_goes_to_shell, keyboard_byte_waiting, mouse_byte_waiting, ring_next, Entry,
    Pointer, IDT,
};
use kernel::drivers::mouse::enable_ports_config;
use kernel::gdt::{GDTPtr, TaskStateSegment, GDT};
use kernel::idt::scancode_hex;

fn blank_idt() -> IDT {
    IDT {
        entries: [Entry {
            offset_low: 0,
            code_selector: 0,
            ist_and_flags: 0,
            offset_mid: 0,
            offset_high: 0,
            reserved: 0,
        }; 256],
    }
}

#[test]
fn idt_entry_splits_handler() {
    let mut idt = blank_idt();
    idt.set_entry(14, 0x1234_5678_9ABC_DEF0);
    let e = idt.entries[14];
    assert_eq!(e.offset_low, 0xDEF0);
    assert_eq!(e.offset_mid, 0x9ABC);
    assert_eq!(e.offset_high, 0x1234_5678);
    assert_eq!(e.code_selector, 0x08);
    assert_eq!(e.ist_and_flags, 0x8E00);
    assert_eq!(e.reserved, 0);
    let back = (e.offset_low as u64) | ((e.offset_mid as u64) << 16) | ((e.offset_high as u64) << 32);
    assert_eq!(back, 0x1234_5678_9ABC_DEF0);
    assert_eq!(idt.entries[13].ist_and_flags, 0);
}

#[test]
fn idt_pointer() {
    let p = Pointer::for_table(0xABC);
    assert_eq!((p.limit, p.base), (4095, 0xABC));
}

#[test]
fn gdt_initial_entries() {
    let g = GDT::new();
    let e: Vec<u64> = g.entries().iter().map(|e| e.0).collect();
    assert_eq!(
        e,
        vec![0, 0x00AF9A000000FFFF, 0x00CF92000000FFFF, 0x00CFF2000000FFFF, 0x00AFFA000000FFFF, 0, 0]
    );
}

#[test]
fn gdt_tss_descriptor() {
    let mut g = GDT::new();
    g.set_tss(0x1234_5678_9ABC_DEF0);
    let e: Vec<u64> = g.entries().iter().map(|e| e.0).collect();
    assert_eq!(e[5], 0x9A00_89BC_DEF0_0067);
    let low = e[5];
    assert_eq!(low & 0xFFFF, 103);
    assert_eq!((low >> 16) & 0xFFFFFF, 0xBC_DEF0);
    assert_eq!((low >> 40) & 0xFF, 0x89);
    assert_eq!((low >> 48) & 0xFF, 0);
    assert_eq!(low >> 56, 0x9A);
    assert_eq!(e[6], 0x1234_5678);
    assert_eq!(e[1], 0x00AF9A000000FFFF);
}

#[test]
fn gdt_pointer_and_tss() {
    let p = GDTPtr::for_table(0x5000);
    assert_eq!((p.limit, p.base), (55, 0x5000));
    let t = TaskStateSegment::new();
    assert_eq!({ t.iomap_base }, 104);
    assert_eq!({ t.rsp }, [0, 0, 0]);
}

#[test]
fn scancodes() {
    let e = decode_scancode(0x9E);
    assert_eq!((e.make_code, e.pressed), (0x1E, false));
    let e = decode_scancode(0x1E);
    assert_eq!((e.make_code, e.pressed), (0x1E, true));
    assert!(key_goes_to_shell(e, false));
    assert!(!key_goes_to_shell(e, true));
    assert!(!key_goes_to_shell(decode_scancode(0x9E), false));
    assert_eq!(scancode_hex(0x1E), (b'1', b'E'));
    assert_eq!(scancode_hex(0xA0), (b'A', b'0'));
}

#[test]
fn controller_status() {
    assert!(keyboard_byte_waiting(0x01));
    assert!(!keyboard_byte_waiting(0x21));
    assert!(!keyboard_byte_waiting(0x00));
    assert!(mouse_byte_waiting(0x21));
    assert!(!mouse_byte_waiting(0x01));
    assert_eq!(ring_next(255, 256), 0);
    assert_eq!(ring_next(3, 256), 4);
}

#[test]
fn mouse_config_byte() {
    assert_eq!(enable_ports_config(0x30), 0x03);
    assert_eq!(enable_ports_config(0xC4), 0xC7);
}
