use kernel_core::interrupts::{build_idt, pic_init_sequence, IdtEntry, IdtPointer};
use kernel_core::log_buffer::{log_print, LogQueue, LogTarget, LOG_BUFFER_SIZE};

#[test]
fn handler_address_is_split_across_fields() {
    let mut e = IdtEntry::missing();
    assert_eq!(e.offset_low, 0);
    e.set_handler(0x1234_5678_9abc_def0, 0x28);
    assert_eq!(e.offset_low, 0xdef0);
    assert_eq!(e.offset_mid, 0x9abc);
    assert_eq!(e.offset_high, 0x1234_5678);
    assert_eq!(e.selector, 0x28);
    assert_eq!(e.attributes, 0x8E);
    assert_eq!(e.ist, 0);
    assert_eq!(e.reserved, 0);
}

#[test]
fn idt_installs_first_48_vectors() {
    let stubs: Vec<u64> = (0..48).map(|i| 0xffff_8000_0000_1000 + i * 16).collect();
    let idt = build_idt(&stubs, 0x28);
    assert_eq!(idt.len(), 256);
    for (i, e) in idt.iter().enumerate() {
        if i < 48 {
            let addr = (e.offset_low as u64) | ((e.offset_mid as u64) << 16) | ((e.offset_high as u64) << 32);
            assert_eq!(addr, stubs[i]);
            assert_eq!(e.attributes, 0x8E);
        } else {
            assert_eq!(*e, IdtEntry::missing());
        }
    }
    let p = IdtPointer::new(0x5000);
    assert_eq!(p.limit, 4095);
    assert_eq!(p.base, 0x5000);
}

#[test]
fn log_queue_is_fifo() {
    let mut q = LogQueue::new();
    assert_eq!(q.pop_char(), None);
    q.push_char(b'a');
    q.push_char(b'b');
    assert_eq!(q.pop_char(), Some(b'a'));
    assert_eq!(q.pop_char(), Some(b'b'));
    assert_eq!(q.pop_char(), None);
}

#[test]
fn full_log_queue_drops_oldest() {
    let mut q = LogQueue::new();
    for i in 0..LOG_BUFFER_SIZE {
        q.push_char((i % 251) as u8);
    }
    // One slot stays empty: the first byte was overwritten.
    assert_eq!(q.pop_char(), Some(1));
    let mut n = 1;
    while q.pop_char().is_some() {
        n += 1;
    }
    assert_eq!(n, LOG_BUFFER_SIZE - 1);
}

#[test]
fn log_print_routes_by_target() {
    let mut display = LogQueue::new();
    let mut serial = LogQueue::new();
    log_print(b"hi", LogTarget::Display, &mut display, &mut serial);
    log_print(b"s", LogTarget::Serial, &mut display, &mut serial);
    log_print(b"!", LogTarget::Both, &mut display, &mut serial);
    let drain = |q: &mut LogQueue| {
        let mut v = Vec::new();
        while let Some(c) = q.pop_char() {
            v.push(c);
        }
        v
    };
    assert_eq!(drain(&mut display), b"hi!".to_vec());
    assert_eq!(drain(&mut serial), b"s!".to_vec());
}

#[test]
fn pic_remap_unmasks_only_timer_and_keyboard() {
    let seq = pic_init_sequence();
    assert_eq!(seq.len(), 10);
    assert_eq!((seq[2].port, seq[2].value), (0x21, 0x20));
    assert_eq!((seq[3].port, seq[3].value), (0xA1, 0x28));
    assert_eq!((seq[8].port, seq[8].value), (0x21, 0xFC));
    assert_eq!((seq[9].port, seq[9].value), (0xA1, 0xFF));
}
