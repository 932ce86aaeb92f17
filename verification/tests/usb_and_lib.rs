use lib::libcosinus::line::{LineAction, LineReader, ReadOutcome};
use lib::libcosinus::alloc_impl::{HeapAlloc, HeapFree, UserHeap};
use lib::libcosinus::collections::{CosBox, CosString, CosVec};
use lib::libcosinus::fmt::{
    bool_to_str, i64_to_str, num_buf, u32_to_str, u64_to_hex, u64_to_hex_pad, u64_to_str, usize_to_str, FmtBuf,
};
use lib::usb::hid::{
    audio_reset, classify, hid_audio, hid_dispatch, hid_kb, hid_mouse, mouse_reset_delta, parse_config_descriptor,
    usage_char, AudioState, DevClass, DeviceTable, HidInput, Keyboard, Mouse, UsbDevice, AUDIO_MUTE, AUDIO_VOL_DOWN,
    AUDIO_VOL_UP, MAX_USB_DEVICES,
};
use lib::usb::port::{
    next_usb_addr, port_enum_step, xhci_enum_step, HcKind, PortAction, PortEnum, PortEvent, PortStage, XhciAction,
    XhciEnum, XhciEvent, OHCI_PORT_SET_PRS, SETUP_GET_CONFIG9, SETUP_GET_DEVICE, SETUP_SET_BOOT_PROTOCOL,
    SETUP_SET_CONFIG1, SETUP_SET_IDLE, SETUP_XHCI_SET_CONFIG1,
};
use lib::usb::xhci::{EvtRing, Trb, RSIZ};

// ── Formatting ───────────────────────────────────────────────────────────────

#[test]
fn decimal_text() {
    let mut b = num_buf();
    assert_eq!(u64_to_str(0, &mut b), "0");
    let mut b = num_buf();
    assert_eq!(u64_to_str(12345, &mut b), "12345");
    assert_eq!(&b[19..], b"12345");
    let mut b = num_buf();
    assert_eq!(u64_to_str(u64::MAX, &mut b), "18446744073709551615");
    let mut b = num_buf();
    assert_eq!(i64_to_str(-42, &mut b), "-42");
    let mut b = num_buf();
    assert_eq!(i64_to_str(i64::MIN, &mut b), "-9223372036854775808");
    let mut b = num_buf();
    assert_eq!(u32_to_str(7, &mut b), "7");
    let mut b = num_buf();
    assert_eq!(usize_to_str(1000, &mut b), "1000");
}

#[test]
fn hex_text() {
    let mut b = num_buf();
    assert_eq!(u64_to_hex(0, &mut b), "0x0");
    let mut b = num_buf();
    assert_eq!(u64_to_hex(0xBEEF, &mut b), "0xbeef");
    let mut b = num_buf();
    assert_eq!(u64_to_hex_pad(0xBEEF, 8, &mut b), "0x0000beef");
    let mut b = num_buf();
    assert_eq!(u64_to_hex_pad(0x12345, 2, &mut b), "0x45");
    assert_eq!(bool_to_str(true), "true");
    assert_eq!(bool_to_str(false), "false");
}

#[test]
fn fmt_buffer_cuts_off() {
    let mut f: FmtBuf<16> = FmtBuf::new();
    assert!(f.is_empty());
    f.push_str("n=").push_u64(42).push_char(' ').push_i64(-7);
    assert_eq!(f.as_str(), "n=42 -7");
    f.push_str(" ").push_hex(255).push_bool(true);
    assert_eq!(f.as_str(), "n=42 -7 0xfftrue");
    assert_eq!(f.len(), 16);
    f.push_str("more");
    assert_eq!(f.len(), 16);
    f.clear();
    f.push_usize(3);
    assert_eq!(f.as_str(), "3");
}

// ── Collections ──────────────────────────────────────────────────────────────

#[test]
fn cos_vec() {
    let mut v: CosVec<u32> = CosVec::new();
    assert_eq!(v.capacity(), 0);
    assert!(v.push(1).is_ok());
    assert_eq!(v.capacity(), 4);
    for i in 2..=5 {
        assert!(v.push(i).is_ok());
    }
    assert_eq!(v.capacity(), 8);
    assert_eq!(v.len(), 5);
    assert_eq!(v.as_slice(), &[1, 2, 3, 4, 5]);
    assert_eq!(v.get(1), Some(&2));
    assert_eq!(v.get(9), None);
    assert_eq!(v.pop(), Some(5));
    v.truncate(2);
    assert_eq!(v.iter().copied().collect::<Vec<_>>(), vec![1, 2]);
    v.clear();
    assert!(v.is_empty());
    assert_eq!(v.capacity(), 8);
    let w: CosVec<u8> = CosVec::with_capacity(10).unwrap();
    assert_eq!(w.capacity(), 10);
}

#[test]
fn cos_string() {
    let mut s = CosString::from_str("  hello ").unwrap();
    assert_eq!(s.len(), 8);
    assert_eq!(s.trim(), "hello");
    assert!(s.contains("ell"));
    assert!(!s.contains("xyz"));
    assert!(s.contains(""));
    assert!(s.starts_with("  h"));
    assert!(s.ends_with("o "));
    assert!(!s.ends_with("hello world"));
    assert!(s.push_str("wörld").is_ok());
    assert!(s.push_char('!').is_ok());
    assert_eq!(s.as_str(), "  hello wörld!");
    assert_eq!(s.as_bytes().len(), 15);
    s.clear();
    assert!(s.is_empty());
    assert_eq!(CosString::new().as_str(), "");
    let b = CosBox::new(41u32).unwrap();
    assert_eq!(b.into_inner(), 41);
}

// ── USB HID ──────────────────────────────────────────────────────────────────

fn config(interfaces: &[(u8, u8, u8)], endpoint: Option<(u8, u8, u16, u8)>) -> Vec<u8> {
    let mut b = vec![9, 2, 0, 0, 1, 1, 0, 0x80, 50];
    for &(class, sub, proto) in interfaces {
        b.extend_from_slice(&[9, 4, 0, 0, 1, class, sub, proto, 0]);
    }
    if let Some((addr, attr, mps, interval)) = endpoint {
        b.extend_from_slice(&[7, 5, addr, attr, (mps & 0xFF) as u8, (mps >> 8) as u8, interval]);
    }
    b
}

#[test]
fn parse_and_classify_configs() {
    let kb = parse_config_descriptor(&config(&[(3, 1, 1)], Some((0x81, 3, 8, 10))));
    assert_eq!((kb.class, kb.subclass, kb.protocol), (3, 1, 1));
    assert_eq!((kb.ep_in, kb.ep_mps, kb.ep_interval), (1, 8, 10));
    assert_eq!(classify(&kb, 3), DevClass::Keyboard);
    let mouse = parse_config_descriptor(&config(&[(3, 1, 2)], Some((0x82, 3, 4, 10))));
    assert_eq!(classify(&mouse, 3), DevClass::Mouse);
    let audio = parse_config_descriptor(&config(&[(1, 1, 0), (3, 0, 0)], None));
    assert!(audio.has_audio);
    assert_eq!(classify(&audio, 3), DevClass::AudioControl);
    // Out endpoints and bulk endpoints are not taken as the interrupt IN endpoint.
    let out_ep = parse_config_descriptor(&config(&[(3, 1, 1)], Some((0x02, 3, 8, 10))));
    assert_eq!(out_ep.ep_in, 0);
    let blank = parse_config_descriptor(&[]);
    assert_eq!(classify(&blank, 1), DevClass::Keyboard);
    assert_eq!(classify(&blank, 3), DevClass::Mouse);
    let other = parse_config_descriptor(&config(&[(8, 6, 0x50)], None));
    assert_eq!(classify(&other, 3), DevClass::Mouse);
    // A zero-length descriptor ends the walk.
    let cut = parse_config_descriptor(&[0, 4, 9, 4, 0, 0, 1, 3, 1, 1, 0]);
    assert_eq!(cut.class, 0);
}

#[test]
fn device_table() {
    let mut t = DeviceTable::new();
    assert_eq!(t.hid_device_count(), 0);
    assert_eq!(t.dev_alloc(5), Some(0));
    assert_eq!(t.dev_alloc(6), Some(1));
    assert_eq!(t.hid_device_count(), 2);
    t.dev_free(5);
    assert_eq!(t.hid_device_count(), 1);
    assert!(!t.devs[0].active);
    assert_eq!(t.dev_alloc(7), Some(0));
    assert_eq!(t.devs[0].slot, 7);
    t.dev_free(99);
    assert_eq!(t.hid_device_count(), 2);
    for s in 0..(MAX_USB_DEVICES as u8 - 2) {
        assert!(t.dev_alloc(10 + s).is_some());
    }
    assert_eq!(t.dev_alloc(200), None);
}

#[test]
fn usage_table() {
    assert_eq!(usage_char(0x04, false), b'a');
    assert_eq!(usage_char(0x04, true), b'A');
    assert_eq!(usage_char(0x1E, false), b'1');
    assert_eq!(usage_char(0x1E, true), b'!');
    assert_eq!(usage_char(0x27, false), b'0');
    assert_eq!(usage_char(0x28, false), b'\n');
    assert_eq!(usage_char(0x2C, false), b' ');
}

#[test]
fn keyboard_reports() {
    let mut kb = Keyboard::new();
    assert_eq!(hid_kb(&mut kb, &[0, 0, 0x0B, 0, 0, 0, 0, 0]), b"h".to_vec());
    // The same report again: nothing new.
    assert_eq!(hid_kb(&mut kb, &[0, 0, 0x0B, 0, 0, 0, 0, 0]), Vec::<u8>::new());
    // h still held, i newly pressed.
    assert_eq!(hid_kb(&mut kb, &[0, 0, 0x0B, 0x0C, 0, 0, 0, 0]), b"i".to_vec());
    // Left shift.
    assert_eq!(hid_kb(&mut kb, &[0x02, 0, 0x04, 0, 0, 0, 0, 0]), b"A".to_vec());
    // Ctrl+C.
    assert_eq!(hid_kb(&mut kb, &[0x01, 0, 0x06, 0, 0, 0, 0, 0]), vec![3]);
    // Error roll-over codes are ignored.
    assert_eq!(hid_kb(&mut kb, &[0, 0, 0x01, 0x01, 0x01, 0x01, 0x01, 0x01]), Vec::<u8>::new());
    assert_eq!(kb.prev, [0, 0, 1, 1, 1, 1, 1, 1]);
}

#[test]
fn mouse_reports() {
    let mut m = Mouse::default();
    hid_mouse(&mut m, &[1, 5, 0xFB, 2]);
    assert_eq!((m.buttons, m.dx, m.dy, m.scroll), (1, 5, -5, 2));
    assert_eq!((m.x, m.y), (5, -5));
    assert!(m.changed);
    hid_mouse(&mut m, &[0, 3]);
    assert_eq!(m.x, 5);
    mouse_reset_delta(&mut m);
    assert_eq!((m.dx, m.dy, m.scroll, m.changed), (0, 0, 0, false));
    assert_eq!(m.x, 5);
    m.x = i16::MAX - 1;
    hid_mouse(&mut m, &[0, 100, 0]);
    assert_eq!(m.x, i16::MAX);
}

#[test]
fn audio_reports() {
    let mut a = AudioState::default();
    let up = AUDIO_VOL_UP.to_le_bytes();
    hid_audio(&mut a, &up);
    assert_eq!(a.volume, 5);
    assert!(a.changed);
    hid_audio(&mut a, &AUDIO_MUTE.to_le_bytes());
    assert!(a.muted);
    for _ in 0..40 {
        hid_audio(&mut a, &AUDIO_VOL_DOWN.to_le_bytes());
    }
    assert_eq!(a.volume, i8::MIN);
    hid_audio(&mut a, &[0x00, 0x01]);
    assert!(!a.changed);
    hid_audio(&mut a, &[0xCD]);
    assert!(!a.play_pause);
    hid_audio(&mut a, &[0xCD, 0x00]);
    assert!(a.play_pause);
    audio_reset(&mut a);
    assert!(!a.play_pause && !a.changed && a.muted);
}

#[test]
fn dispatch_by_class() {
    let mut st = HidInput { kb: Keyboard::new(), mouse: Mouse::default(), audio: AudioState::default() };
    let mut dev = UsbDevice::empty();
    dev.class = DevClass::Keyboard;
    assert_eq!(hid_dispatch(&mut st, &dev, &[0, 0, 0x05, 0, 0, 0, 0, 0, 99]), b"b".to_vec());
    assert_eq!(hid_dispatch(&mut st, &dev, &[0, 0, 0x06]), Vec::<u8>::new());
    dev.class = DevClass::Mouse;
    assert!(hid_dispatch(&mut st, &dev, &[0, 1, 1]).is_empty());
    assert_eq!(st.mouse.x, 1);
    dev.class = DevClass::AudioControl;
    hid_dispatch(&mut st, &dev, &AUDIO_VOL_UP.to_le_bytes());
    assert_eq!(st.audio.volume, 5);
    dev.class = DevClass::Hub;
    assert!(hid_dispatch(&mut st, &dev, &[1, 2, 3]).is_empty());
}

// ── xHCI ─────────────────────────────────────────────────────────────────────

#[test]
fn trb_fields() {
    let t = Trb { param: 0, status: 0x0100_0000, ctrl: (3 << 24) | (32 << 10) | 1 };
    assert_eq!(t.typ(), 32);
    assert!(t.cycle());
    assert_eq!(t.slot(), 3);
    assert_eq!(t.cc(), 1);
}

#[test]
fn event_ring_consumes_in_cycle() {
    let mut r = EvtRing { phys: 0x10_0000, erst: 0x20_0000, deq: 0, ccs: true };
    assert_eq!(r.erdp(), 0x10_0000);
    let stale = Trb { param: 0, status: 0, ctrl: 0 };
    assert!(r.pop_entry(stale).is_none());
    assert_eq!(r.deq, 0);
    let fresh = Trb { param: 7, status: 0, ctrl: 1 };
    assert_eq!(r.pop_entry(fresh).unwrap().param, 7);
    assert_eq!(r.deq, 1);
    assert_eq!(r.erdp(), 0x10_0010);
    r.deq = RSIZ - 1;
    assert!(r.pop_entry(fresh).is_some());
    assert_eq!(r.deq, 0);
    assert!(!r.ccs);
    assert!(r.pop_entry(fresh).is_none());
}

// ── Port enumeration ─────────────────────────────────────────────────────────

fn step(s: &mut PortEnum, ev: PortEvent) -> PortAction {
    let (n, a) = port_enum_step(s, &ev);
    *s = n;
    a
}

fn keyboard_config() -> Vec<u8> {
    let mut c = vec![9u8, 2, 34, 0, 1, 1, 0, 0xA0, 50];
    c.extend_from_slice(&[9, 4, 0, 0, 1, 3, 1, 1, 0]);
    c.extend_from_slice(&[9, 0x21, 0x11, 1, 0, 1, 0x22, 63, 0]);
    c.extend_from_slice(&[7, 5, 0x81, 3, 8, 0, 10]);
    c
}

#[test]
fn next_address_wraps() {
    assert_eq!(next_usb_addr(1), 2);
    assert_eq!(next_usb_addr(125), 126);
    assert_eq!(next_usb_addr(126), 1);
}

#[test]
fn ehci_enumerates_a_high_speed_keyboard() {
    let mut s = PortEnum::start(HcKind::Ehci, 2, 5);
    // Connected, line state SE0: high speed, reset first.
    assert_eq!(step(&mut s, PortEvent::Status(0x1001)), PortAction::Reset { portsc: 0x1101 });
    assert_eq!(step(&mut s, PortEvent::Status(0x1005)), PortAction::PowerOn { portsc: 0x1005 });
    assert_eq!(s.next_addr, 6);
    assert_eq!(
        step(&mut s, PortEvent::Done),
        PortAction::Control { addr: 0, setup: SETUP_GET_DEVICE, len: 18, dir_in: true }
    );
    let mut dev = vec![0u8; 18];
    dev[7] = 64;
    dev[8] = 0x6d;
    dev[9] = 0x04;
    dev[10] = 0x1c;
    dev[11] = 0xc3;
    assert_eq!(
        step(&mut s, PortEvent::Data { ok: true, bytes: dev }),
        PortAction::Control { addr: 0, setup: 0x0000_0005_0000_0005, len: 0, dir_in: false }
    );
    assert_eq!(
        step(&mut s, PortEvent::Done),
        PortAction::Control { addr: 5, setup: SETUP_GET_CONFIG9, len: 9, dir_in: true }
    );
    let cfg = keyboard_config();
    assert_eq!(
        step(&mut s, PortEvent::Data { ok: true, bytes: cfg[..9].to_vec() }),
        PortAction::Control { addr: 5, setup: 0x0022_0000_0200_0680, len: 34, dir_in: true }
    );
    assert_eq!(
        step(&mut s, PortEvent::Data { ok: true, bytes: cfg }),
        PortAction::Control { addr: 5, setup: SETUP_SET_CONFIG1, len: 0, dir_in: false }
    );
    assert_eq!(
        step(&mut s, PortEvent::Done),
        PortAction::Control { addr: 5, setup: SETUP_SET_BOOT_PROTOCOL, len: 0, dir_in: false }
    );
    assert_eq!(
        step(&mut s, PortEvent::Done),
        PortAction::Control { addr: 5, setup: SETUP_SET_IDLE, len: 0, dir_in: false }
    );
    match step(&mut s, PortEvent::Done) {
        PortAction::Configured(d) => {
            assert_eq!(d.slot, 2);
            assert_eq!(d.class, DevClass::Keyboard);
            assert_eq!(d.speed, 3);
            assert_eq!(d.addr, 5);
            assert_eq!(d.ep_in, 1);
            assert_eq!(d.ep_mps, 8);
            assert_eq!((d.vid, d.pid), (0x046d, 0xc31c));
            assert_eq!((d.subclass, d.protocol), (1, 1));
        }
        a => panic!("unexpected {:?}", a),
    }
    assert_eq!(step(&mut s, PortEvent::Done), PortAction::Abandon);
}

#[test]
fn ehci_hands_slow_devices_to_the_companion() {
    let mut s = PortEnum::start(HcKind::Ehci, 0, 1);
    assert_eq!(step(&mut s, PortEvent::Status(0)), PortAction::Abandon);
    let mut s = PortEnum::start(HcKind::Ehci, 0, 1);
    // Line state K: low speed.
    assert_eq!(step(&mut s, PortEvent::Status(0x0401)), PortAction::HandToCompanion { portsc: 0x2401 });
    let mut s = PortEnum::start(HcKind::Ehci, 0, 1);
    assert_eq!(step(&mut s, PortEvent::Status(0x0801)), PortAction::Reset { portsc: 0x0901 });
    // Not enabled after the reset: full speed.
    assert_eq!(step(&mut s, PortEvent::Status(0x0001)), PortAction::HandToCompanion { portsc: 0x2001 });
    assert_eq!(s.next_addr, 1);
    assert!(PortEnum::start(HcKind::Ehci, 16, 1).stage == PortStage::Done);
}

#[test]
fn ohci_enumerates_a_low_speed_mouse_without_config() {
    let mut s = PortEnum::start(HcKind::Ohci, 1, 126);
    assert_eq!(step(&mut s, PortEvent::Status(0x1)), PortAction::Reset { portsc: OHCI_PORT_SET_PRS });
    assert_eq!(
        step(&mut s, PortEvent::Status(0x201)),
        PortAction::Control { addr: 0, setup: SETUP_GET_DEVICE, len: 18, dir_in: true }
    );
    assert_eq!(s.next_addr, 1);
    assert_eq!(
        step(&mut s, PortEvent::Data { ok: false, bytes: Vec::new() }),
        PortAction::Control { addr: 0, setup: 0x0000_007E_0000_0005, len: 0, dir_in: false }
    );
    assert_eq!(
        step(&mut s, PortEvent::Done),
        PortAction::Control { addr: 126, setup: SETUP_GET_CONFIG9, len: 9, dir_in: true }
    );
    // The configuration descriptor cannot be read: low speed counts as a keyboard.
    assert_eq!(
        step(&mut s, PortEvent::Data { ok: false, bytes: Vec::new() }),
        PortAction::Control { addr: 126, setup: SETUP_SET_CONFIG1, len: 0, dir_in: false }
    );
    assert_eq!(s.class, DevClass::Keyboard);
    assert_eq!(s.ep_mps, 8);
    step(&mut s, PortEvent::Done);
    step(&mut s, PortEvent::Done);
    match step(&mut s, PortEvent::Done) {
        PortAction::Configured(d) => {
            assert_eq!(d.slot, 65);
            assert_eq!(d.speed, 1);
            assert_eq!((d.vid, d.pid), (0, 0));
        }
        a => panic!("unexpected {:?}", a),
    }
}

fn xstep(s: &mut XhciEnum, ev: XhciEvent) -> XhciAction {
    let (n, a) = xhci_enum_step(s, &ev);
    *s = n;
    a
}

#[test]
fn xhci_enumerates_a_full_speed_mouse() {
    let mut s = XhciEnum::start(3);
    assert_eq!(xstep(&mut s, XhciEvent::Status(0x2_0001)), XhciAction::Reset { portsc: 0x11 });
    // Speed code 1 (full speed): packets of 8 bytes on endpoint 0.
    assert_eq!(xstep(&mut s, XhciEvent::Status(0x0401)), XhciAction::EnableSlot { ack: 0x20_0401 });
    assert_eq!(
        xstep(&mut s, XhciEvent::Slot(Some(2))),
        XhciAction::AddressDevice { slot: 2, port: 4, speed: 1, ep: 1, mps: 8, bsr: true, new_ring: true }
    );
    assert_eq!(
        xstep(&mut s, XhciEvent::Command(true)),
        XhciAction::Control { slot: 2, setup: SETUP_GET_DEVICE, len: 18, dir_in: true }
    );
    let mut dev = vec![0u8; 18];
    dev[7] = 16;
    assert_eq!(
        xstep(&mut s, XhciEvent::Data { ok: true, bytes: dev }),
        XhciAction::AddressDevice { slot: 2, port: 4, speed: 1, ep: 1, mps: 16, bsr: false, new_ring: false }
    );
    assert_eq!(
        xstep(&mut s, XhciEvent::Command(true)),
        XhciAction::Control { slot: 2, setup: SETUP_GET_CONFIG9, len: 9, dir_in: true }
    );
    let mut cfg = vec![9u8, 2, 25, 0, 1, 1, 0, 0xA0, 50];
    cfg.extend_from_slice(&[9, 4, 0, 0, 1, 3, 1, 2, 0]);
    cfg.extend_from_slice(&[7, 5, 0x82, 3, 4, 0, 10]);
    assert_eq!(
        xstep(&mut s, XhciEvent::Data { ok: true, bytes: cfg[..9].to_vec() }),
        XhciAction::Control { slot: 2, setup: 0x0019_0000_0200_0680, len: 25, dir_in: true }
    );
    assert_eq!(
        xstep(&mut s, XhciEvent::Data { ok: true, bytes: cfg }),
        XhciAction::Control { slot: 2, setup: SETUP_XHCI_SET_CONFIG1, len: 0, dir_in: false }
    );
    xstep(&mut s, XhciEvent::Command(true));
    xstep(&mut s, XhciEvent::Command(true));
    assert_eq!(
        xstep(&mut s, XhciEvent::Command(true)),
        XhciAction::AddressDevice { slot: 2, port: 4, speed: 1, ep: 2, mps: 4, bsr: false, new_ring: true }
    );
    match xstep(&mut s, XhciEvent::Command(false)) {
        XhciAction::Configured(d) => {
            assert_eq!(d.slot, 2);
            assert_eq!(d.class, DevClass::Mouse);
            assert_eq!((d.ep_in, d.ep_mps), (2, 4));
        }
        a => panic!("unexpected {:?}", a),
    }
}

#[test]
fn xhci_gives_up_without_a_slot() {
    let mut s = XhciEnum::start(0);
    assert_eq!(xstep(&mut s, XhciEvent::Status(0)), XhciAction::Abandon);
    let mut s = XhciEnum::start(0);
    xstep(&mut s, XhciEvent::Status(1));
    xstep(&mut s, XhciEvent::Status(0x0C01));
    assert_eq!(s.mps0, 64);
    assert_eq!(xstep(&mut s, XhciEvent::Slot(Some(32))), XhciAction::Abandon);
    let mut s = XhciEnum::start(0);
    xstep(&mut s, XhciEvent::Status(1));
    xstep(&mut s, XhciEvent::Status(0x1001));
    assert_eq!(s.mps0, 512);
    xstep(&mut s, XhciEvent::Slot(Some(1)));
    assert_eq!(xstep(&mut s, XhciEvent::Command(false)), XhciAction::Abandon);
}

#[test]
fn cos_vec_retain_keeps_order() {
    let mut v: CosVec<u32> = CosVec::new();
    for x in [1u32, 2, 3, 4, 5, 6] {
        v.push(x).unwrap();
    }
    let cap = v.capacity();
    v.retain(|x| x % 2 == 0);
    assert_eq!(v.as_slice(), &[2, 4, 6]);
    assert_eq!(v.capacity(), cap);
    v.retain(|_| false);
    assert!(v.is_empty());
}

#[test]
fn user_heap_classes_and_pages() {
    assert_eq!(UserHeap::class_for(1), Some(0));
    assert_eq!(UserHeap::class_for(24), Some(2));
    assert_eq!(UserHeap::class_for(2048), Some(8));
    assert_eq!(UserHeap::class_for(2049), None);
    assert_eq!(UserHeap::object_size(5), 256);
    let mut h = UserHeap::new();
    assert_eq!(h.alloc_block(0, 0), HeapAlloc::Null);
    assert_eq!(h.alloc_block(100, 8), HeapAlloc::NeedPage { class: 4 });
    h.grow(4, 0x10_0000);
    // The page's first slot comes out first, then the next.
    assert_eq!(h.alloc_block(100, 8), HeapAlloc::Slot(0x10_0000));
    assert_eq!(h.alloc_block(128, 1), HeapAlloc::Slot(0x10_0080));
    assert_eq!(h.dealloc(0x10_0000, 100, 8), HeapFree::Done);
    assert_eq!(h.alloc_block(120, 4), HeapAlloc::Slot(0x10_0000));
    assert_eq!(h.alloc_block(5000, 8), HeapAlloc::MapPages { bytes: 8192 });
    assert_eq!(h.dealloc(0x20_0000, 5000, 8), HeapFree::Unmap { bytes: 8192 });
    assert_eq!(h.dealloc(0, 5000, 8), HeapFree::Done);
    // Alignment counts as size.
    assert_eq!(h.alloc_block(8, 4096), HeapAlloc::MapPages { bytes: 4096 });
}

#[test]
fn cos_string_trim_unicode_white_space() {
    let s = CosString::from_str("\u{3000}\u{a0} zażółć\u{2009}\t\n").unwrap();
    assert_eq!(s.trim(), "zażółć");
    let e = CosString::from_str(" \u{85} ").unwrap();
    assert_eq!(e.trim(), "");
    let k = CosString::from_str("a b").unwrap();
    assert_eq!(k.trim(), "a b");
}

#[test]
fn trb_default_is_all_zero() {
    let t = Trb::default();
    assert_eq!((t.param, t.status, t.ctrl), (0, 0, 0));
    assert!(!t.cycle());
}

#[test]
fn line_reader_stops_at_newline_end_or_full_buffer() {
    let mut r = LineReader::new(8);
    assert!(r.step(ReadOutcome::Again) == LineAction::Retry);
    assert!(r.step(ReadOutcome::Byte(b'h')) == LineAction::More);
    assert!(r.step(ReadOutcome::Byte(b'i')) == LineAction::More);
    assert!(r.step(ReadOutcome::Byte(b'\n')) == LineAction::Done);
    assert_eq!(r.bytes, b"hi\n".to_vec());
    assert!(r.step(ReadOutcome::Byte(b'x')) == LineAction::Done);
    assert_eq!(r.bytes.len(), 3);
    let mut e = LineReader::new(8);
    assert!(e.step(ReadOutcome::Byte(b'a')) == LineAction::More);
    assert!(e.step(ReadOutcome::End) == LineAction::Done);
    assert_eq!(e.bytes, b"a".to_vec());
    let mut f = LineReader::new(2);
    assert!(f.step(ReadOutcome::Byte(b'a')) == LineAction::More);
    assert!(f.step(ReadOutcome::Byte(b'b')) == LineAction::Done);
    assert!(f.complete());
}
