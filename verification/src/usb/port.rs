//! Enumeration of a device on a root-hub port of an EHCI, OHCI or xHCI
//! controller: the decisions between the register accesses, commands and
//! transfers the driver makes. The driver reads the port status and runs the control
//! transfers; each step here takes what it saw and names the next thing to
//! do, up to the configured device.
use vstd::prelude::*;
use crate::usb::hid::{DevClass, ParsedConfig, parse_from, empty_config, parse_config_descriptor, classify};

verus! {

/// EHCI port status bits.
pub const EPRT_CCS: u32 = 0x1;
pub const EPRT_PEN: u32 = 0x4;
pub const EPRT_PRST: u32 = 0x100;
pub const EPRT_PP: u32 = 0x1000;
pub const EPRT_OWN: u32 = 0x2000;

/// OHCI root-hub port status bits.
pub const OHCI_PORT_CCS: u32 = 0x1;
pub const OHCI_PORT_SET_PRS: u32 = 0x10;
pub const OHCI_PORT_LSDA: u32 = 0x200;

/// Root-hub ports a controller driver looks at.
pub const MAX_PORTS: u8 = 16;

/// Standard requests of the enumeration, as 8-byte setup packets.
pub const SETUP_GET_DEVICE: u64 = 0x0012_0000_0100_0680;
pub const SETUP_SET_ADDRESS: u64 = 0x0000_0000_0000_0005;
pub const SETUP_GET_CONFIG9: u64 = 0x0009_0000_0200_0680;
pub const SETUP_GET_CONFIG: u64 = 0x0000_0000_0200_0680;
pub const SETUP_SET_CONFIG1: u64 = 0x0000_0000_0001_0009;
pub const SETUP_SET_BOOT_PROTOCOL: u64 = 0x0000_0000_000B_2100;
pub const SETUP_SET_IDLE: u64 = 0x0000_0000_000A_2100;

/// Longest configuration descriptor that is read whole.
pub const MAX_CONFIG_LEN: u16 = 512;

/// The kind of host controller the port belongs to.
#[derive(Copy, Clone, PartialEq, Eq, Structural, Debug)]
pub enum HcKind {
    Ehci,
    Ohci,
}

/// Where an enumeration stands.
#[derive(Copy, Clone, PartialEq, Eq, Structural, Debug)]
pub enum PortStage {
    /// The port status is to be read.
    Attach,
    /// The port was reset; its status is to be read again.
    AfterReset,
    /// The port was powered (EHCI).
    Powered,
    /// The device descriptor was asked for.
    DevDesc,
    /// The address was sent.
    SetAddress,
    /// The first nine bytes of the configuration descriptor were asked for.
    Config9,
    /// The whole configuration descriptor was asked for.
    ConfigFull,
    /// Configuration 1 was selected.
    SetConfig,
    /// The boot protocol was selected.
    SetProtocol,
    /// The idle rate was set.
    SetIdle,
    /// Nothing more to do.
    Done,
}

/// An enumeration in progress.
#[derive(Copy, Clone, PartialEq, Eq, Structural, Debug)]
pub struct PortEnum {
    pub kind: HcKind,
    pub port: u8,
    pub stage: PortStage,
    /// 1 = low, 2 = full, 3 = high speed.
    pub speed: u8,
    /// The address the device answers at (0 until it has its own).
    pub addr: u8,
    /// The address the device is given.
    pub assigned: u8,
    /// The controller's next free address.
    pub next_addr: u8,
    pub vid: u16,
    pub pid: u16,
    /// Length of the whole configuration descriptor.
    pub total: u16,
    pub class: DevClass,
    pub ep_in: u8,
    pub ep_mps: u16,
    pub subclass: u8,
    pub protocol: u8,
}

/// A configured device, as the driver records it.
#[derive(Copy, Clone, PartialEq, Eq, Structural, Debug)]
pub struct PortDevice {
    /// Device-table slot: the port (EHCI) or the port plus 64 (OHCI).
    pub slot: u8,
    pub class: DevClass,
    pub speed: u8,
    pub addr: u8,
    pub ep_in: u8,
    pub ep_mps: u16,
    pub vid: u16,
    pub pid: u16,
    pub subclass: u8,
    pub protocol: u8,
}

/// What the driver saw since the last step.
pub enum PortEvent {
    /// The port status register read this value.
    Status(u32),
    /// The last action was carried out.
    Done,
    /// The last control transfer ended (`ok`: without error); `bytes` is
    /// the start of its data buffer, which was zero before the transfer.
    Data { ok: bool, bytes: Vec<u8> },
}

/// What the driver does next.
#[derive(Copy, Clone, PartialEq, Eq, Structural, Debug)]
pub enum PortAction {
    /// Nothing is attached, or the enumeration is over: stop.
    Abandon,
    /// Write `portsc` to the port status register, handing the port to the
    /// companion controller; stop.
    HandToCompanion { portsc: u32 },
    /// Reset the port, starting with a write of `portsc` to its status
    /// register; then report the status.
    Reset { portsc: u32 },
    /// Write `portsc` to the port status register to power the port.
    PowerOn { portsc: u32 },
    /// Run a control transfer on endpoint 0 of address `addr`.
    Control { addr: u8, setup: u64, len: u16, dir_in: bool },
    /// The device is configured: record it and start polling it.
    Configured(PortDevice),
}

/// The controller's next address after `a`: addresses run from 1 to 126
/// and wrap.
pub open spec fn next_addr_of(a: u8) -> u8 {
    (a % 126 + 1) as u8
}

/// Law: the addresses a controller hands out stay between 1 and 126; they
/// count up and wrap from 126 to 1.
pub proof fn law_next_addr_in_range(a: u8)
    ensures
        1 <= next_addr_of(a) <= 126,
        1 <= a <= 125 ==> next_addr_of(a) == a + 1,
        a == 126 ==> next_addr_of(a) == 1,
{
}

/// The next address after `a`.
pub fn next_usb_addr(a: u8) -> (r: u8)
    ensures
        r == next_addr_of(a),
        r as int == a % 126 + 1,
{
    a % 126 + 1
}

/// Byte `i` of a buffer that was zero before `b` was written to its start.
pub open spec fn byte_at(b: Seq<u8>, i: int) -> u8 {
    if 0 <= i < b.len() {
        b[i]
    } else {
        0
    }
}

/// The little-endian 16-bit word at `i`.
pub open spec fn le16(b: Seq<u8>, i: int) -> u16 {
    (byte_at(b, i) as u16) | ((byte_at(b, i + 1) as u16) << 8u16)
}

/// Whether a transfer ended well, and its data.
pub open spec fn data_of(ev: PortEvent) -> (bool, Seq<u8>) {
    match ev {
        PortEvent::Data { ok, bytes } => (ok, bytes@),
        _ => (false, Seq::empty()),
    }
}

/// A control transfer to the device's address.
pub open spec fn control(s: PortEnum, setup: u64, len: u16, dir_in: bool) -> PortAction {
    PortAction::Control { addr: s.addr, setup, len, dir_in }
}

/// The device as recorded once configured.
pub open spec fn device_of(s: PortEnum) -> PortDevice {
    PortDevice {
        slot: if s.kind == HcKind::Ehci { s.port } else { (s.port + 64) as u8 },
        class: s.class,
        speed: s.speed,
        addr: s.addr,
        ep_in: s.ep_in,
        ep_mps: s.ep_mps,
        vid: s.vid,
        pid: s.pid,
        subclass: if s.kind == HcKind::Ehci { s.subclass } else { 0 },
        protocol: if s.kind == HcKind::Ehci { s.protocol } else { 0 },
    }
}

/// After the configuration descriptor `cfg` was read: the class and the
/// interrupt IN endpoint (endpoint 1 and packets of 64 bytes for EHCI, 8
/// for OHCI when none is described), then configuration 1 is selected.
pub open spec fn configured_from(s: PortEnum, cfg: Seq<u8>) -> (PortEnum, PortAction) {
    let p = parse_from(cfg, 0, empty_config());
    let t = PortEnum {
        stage: PortStage::SetConfig,
        class: class_of(p, s.speed),
        ep_in: if p.ep_in != 0 { p.ep_in } else { 1 },
        ep_mps: if p.ep_mps != 0 { p.ep_mps } else if s.kind == HcKind::Ehci { 64 } else { 8 },
        subclass: p.subclass,
        protocol: p.protocol,
        ..s
    };
    (t, control(t, SETUP_SET_CONFIG1, 0, false))
}

/// The class `classify` gives.
pub open spec fn class_of(cfg: ParsedConfig, speed: u8) -> DevClass {
    if cfg.has_audio {
        DevClass::AudioControl
    } else if cfg.class == crate::usb::hid::USB_CLASS_HID && cfg.protocol == crate::usb::hid::USB_PROTO_KB {
        DevClass::Keyboard
    } else if cfg.class == crate::usb::hid::USB_CLASS_HID && cfg.protocol == crate::usb::hid::USB_PROTO_MOUSE {
        DevClass::Mouse
    } else if cfg.class == 0 && cfg.subclass == 0 && cfg.protocol == 0 {
        if speed == 1 || speed == 2 {
            DevClass::Keyboard
        } else {
            DevClass::Mouse
        }
    } else {
        DevClass::Unknown
    }
}

/// The enumeration sequence: from the state `s` and what the driver saw,
/// the next state and what the driver does.
///
/// EHCI: a port with nothing attached is left; a low-speed device (line
/// state K) goes to the companion controller; otherwise the port is reset,
/// and if it is not enabled then (a full-speed device) it goes to the
/// companion too; an enabled port is powered and gets the next address.
/// OHCI: the port is reset and the speed read from the low-speed bit.
/// Then, for both: the device descriptor (vendor and product), the address,
/// the first nine bytes of the configuration descriptor and, when its
/// total length is between 1 and 512, the whole of it; configuration 1;
/// for a keyboard or mouse the boot protocol and the idle rate; and the
/// device is configured.
pub open spec fn port_enum_next(s: PortEnum, ev: PortEvent) -> (PortEnum, PortAction) {
    let done = PortEnum { stage: PortStage::Done, ..s };
    match s.stage {
        PortStage::Attach => match ev {
            PortEvent::Status(psc) => if s.kind == HcKind::Ehci {
                if psc & EPRT_CCS == 0 {
                    (done, PortAction::Abandon)
                } else if (psc >> 10u32) & 3 == 1 {
                    (PortEnum { speed: 1, ..done }, PortAction::HandToCompanion { portsc: psc | EPRT_OWN })
                } else {
                    (
                        PortEnum {
                            stage: PortStage::AfterReset,
                            speed: if (psc >> 10u32) & 3 == 0 { 3 } else { 2 },
                            ..s
                        },
                        PortAction::Reset { portsc: (psc & !EPRT_PEN) | EPRT_PRST },
                    )
                }
            } else {
                if psc & OHCI_PORT_CCS == 0 {
                    (done, PortAction::Abandon)
                } else {
                    (PortEnum { stage: PortStage::AfterReset, ..s }, PortAction::Reset { portsc: OHCI_PORT_SET_PRS })
                }
            },
            _ => (done, PortAction::Abandon),
        },
        PortStage::AfterReset => match ev {
            PortEvent::Status(psc) => if s.kind == HcKind::Ehci {
                if psc & EPRT_PEN == 0 {
                    (done, PortAction::HandToCompanion { portsc: psc | EPRT_OWN })
                } else {
                    (
                        PortEnum {
                            stage: PortStage::Powered,
                            addr: 0,
                            next_addr: next_addr_of(s.next_addr),
                            assigned: s.next_addr,
                            ep_in: 1,
                            ep_mps: 64,
                            ..s
                        },
                        PortAction::PowerOn { portsc: psc | EPRT_PP },
                    )
                }
            } else {
                let t = PortEnum {
                    stage: PortStage::DevDesc,
                    speed: if psc & OHCI_PORT_LSDA != 0 { 1 } else { 2 },
                    addr: 0,
                    next_addr: next_addr_of(s.next_addr),
                    assigned: s.next_addr,
                    ..s
                };
                (t, control(t, SETUP_GET_DEVICE, 18, true))
            },
            _ => (done, PortAction::Abandon),
        },
        PortStage::Powered => {
            let t = PortEnum { stage: PortStage::DevDesc, ..s };
            (t, control(t, SETUP_GET_DEVICE, 18, true))
        },
        PortStage::DevDesc => {
            let (ok, b) = data_of(ev);
            let t = PortEnum {
                stage: PortStage::SetAddress,
                vid: if ok { le16(b, 8) } else { 0 },
                pid: if ok { le16(b, 10) } else { 0 },
                ..s
            };
            (t, control(t, ((s.assigned as u64) << 32u64) | SETUP_SET_ADDRESS, 0, false))
        },
        PortStage::SetAddress => {
            let t = PortEnum { stage: PortStage::Config9, addr: s.assigned, ..s };
            (t, control(t, SETUP_GET_CONFIG9, 9, true))
        },
        PortStage::Config9 => {
            let (ok, b) = data_of(ev);
            let total: u16 = if ok { le16(b, 2) } else { 0 };
            if total > 0 && total <= MAX_CONFIG_LEN {
                let t = PortEnum { stage: PortStage::ConfigFull, total, ..s };
                (t, control(t, SETUP_GET_CONFIG | ((total as u64) << 48u64), total, true))
            } else {
                configured_from(PortEnum { total: 0, ..s }, Seq::empty())
            }
        },
        PortStage::ConfigFull => {
            let b = data_of(ev).1;
            configured_from(s, b.take(if b.len() < s.total { b.len() as int } else { s.total as int }))
        },
        PortStage::SetConfig => if s.class == DevClass::Keyboard || s.class == DevClass::Mouse {
            let t = PortEnum { stage: PortStage::SetProtocol, ..s };
            (t, control(t, SETUP_SET_BOOT_PROTOCOL, 0, false))
        } else {
            (done, PortAction::Configured(device_of(s)))
        },
        PortStage::SetProtocol => {
            let t = PortEnum { stage: PortStage::SetIdle, ..s };
            (t, control(t, SETUP_SET_IDLE, 0, false))
        },
        PortStage::SetIdle => (done, PortAction::Configured(device_of(s))),
        PortStage::Done => (s, PortAction::Abandon),
    }
}

impl PortEnum {
    /// A new enumeration of port `port` of a controller of kind `kind`
    /// whose next free address is `next_addr`; a port past the ones the
    /// driver looks at is not enumerated.
    pub fn start(kind: HcKind, port: u8, next_addr: u8) -> (r: Self)
        ensures
            r == (PortEnum {
                kind,
                port,
                stage: if port < MAX_PORTS { PortStage::Attach } else { PortStage::Done },
                speed: 0,
                addr: 0,
                assigned: 0,
                next_addr,
                vid: 0,
                pid: 0,
                total: 0,
                class: DevClass::Unknown,
                ep_in: 0,
                ep_mps: 0,
                subclass: 0,
                protocol: 0,
            }),
    {
        PortEnum {
            kind,
            port,
            stage: if port < MAX_PORTS { PortStage::Attach } else { PortStage::Done },
            speed: 0,
            addr: 0,
            assigned: 0,
            next_addr,
            vid: 0,
            pid: 0,
            total: 0,
            class: DevClass::Unknown,
            ep_in: 0,
            ep_mps: 0,
            subclass: 0,
            protocol: 0,
        }
    }
}

fn byte_at_exec(b: &[u8], i: usize) -> (r: u8)
    ensures
        r == byte_at(b@, i as int),
{
    if i < b.len() {
        b[i]
    } else {
        0
    }
}

fn le16_exec(b: &[u8], i: usize) -> (r: u16)
    requires
        i < usize::MAX,
    ensures
        r == le16(b@, i as int),
{
    (byte_at_exec(b, i) as u16) | ((byte_at_exec(b, i + 1) as u16) << 8u16)
}

fn configured_exec(s: &PortEnum, cfg: &[u8]) -> (r: (PortEnum, PortAction))
    ensures
        r == configured_from(*s, cfg@),
{
    let p = parse_config_descriptor(cfg);
    let class = classify(&p, s.speed);
    let t = PortEnum {
        stage: PortStage::SetConfig,
        class,
        ep_in: if p.ep_in != 0 { p.ep_in } else { 1 },
        ep_mps: if p.ep_mps != 0 {
            p.ep_mps
        } else if s.kind == HcKind::Ehci {
            64
        } else {
            8
        },
        subclass: p.subclass,
        protocol: p.protocol,
        ..*s
    };
    (t, PortAction::Control { addr: t.addr, setup: SETUP_SET_CONFIG1, len: 0, dir_in: false })
}

fn device_exec(s: &PortEnum) -> (r: PortDevice)
    requires
        s.port < MAX_PORTS,
    ensures
        r == device_of(*s),
{
    PortDevice {
        slot: if s.kind == HcKind::Ehci { s.port } else { s.port + 64 },
        class: s.class,
        speed: s.speed,
        addr: s.addr,
        ep_in: s.ep_in,
        ep_mps: s.ep_mps,
        vid: s.vid,
        pid: s.pid,
        subclass: if s.kind == HcKind::Ehci { s.subclass } else { 0 },
        protocol: if s.kind == HcKind::Ehci { s.protocol } else { 0 },
    }
}

/// One step of the enumeration: what `port_enum_next` says.
pub fn port_enum_step(s: &PortEnum, ev: &PortEvent) -> (r: (PortEnum, PortAction))
    requires
        s.port < MAX_PORTS || s.stage == PortStage::Done,
    ensures
        r == port_enum_next(*s, *ev),
        r.0.port == s.port && r.0.kind == s.kind,
{
    let done = PortEnum { stage: PortStage::Done, ..*s };
    match s.stage {
        PortStage::Attach => match ev {
            PortEvent::Status(psc) => {
                let psc = *psc;
                if s.kind == HcKind::Ehci {
                    if psc & EPRT_CCS == 0 {
                        (done, PortAction::Abandon)
                    } else if (psc >> 10u32) & 3 == 1 {
                        (PortEnum { speed: 1, ..done }, PortAction::HandToCompanion { portsc: psc | EPRT_OWN })
                    } else {
                        (
                            PortEnum {
                                stage: PortStage::AfterReset,
                                speed: if (psc >> 10u32) & 3 == 0 { 3 } else { 2 },
                                ..*s
                            },
                            PortAction::Reset { portsc: (psc & !EPRT_PEN) | EPRT_PRST },
                        )
                    }
                } else {
                    if psc & OHCI_PORT_CCS == 0 {
                        (done, PortAction::Abandon)
                    } else {
                        (PortEnum { stage: PortStage::AfterReset, ..*s }, PortAction::Reset { portsc: OHCI_PORT_SET_PRS })
                    }
                }
            },
            _ => (done, PortAction::Abandon),
        },
        PortStage::AfterReset => match ev {
            PortEvent::Status(psc) => {
                let psc = *psc;
                if s.kind == HcKind::Ehci {
                    if psc & EPRT_PEN == 0 {
                        (done, PortAction::HandToCompanion { portsc: psc | EPRT_OWN })
                    } else {
                        (
                            PortEnum {
                                stage: PortStage::Powered,
                                addr: 0,
                                next_addr: next_usb_addr(s.next_addr),
                                assigned: s.next_addr,
                                ep_in: 1,
                                ep_mps: 64,
                                ..*s
                            },
                            PortAction::PowerOn { portsc: psc | EPRT_PP },
                        )
                    }
                } else {
                    let t = PortEnum {
                        stage: PortStage::DevDesc,
                        speed: if psc & OHCI_PORT_LSDA != 0 { 1 } else { 2 },
                        addr: 0,
                        next_addr: next_usb_addr(s.next_addr),
                        assigned: s.next_addr,
                        ..*s
                    };
                    (t, PortAction::Control { addr: t.addr, setup: SETUP_GET_DEVICE, len: 18, dir_in: true })
                }
            },
            _ => (done, PortAction::Abandon),
        },
        PortStage::Powered => {
            let t = PortEnum { stage: PortStage::DevDesc, ..*s };
            (t, PortAction::Control { addr: t.addr, setup: SETUP_GET_DEVICE, len: 18, dir_in: true })
        },
        PortStage::DevDesc => {
            let (vid, pid) = match ev {
                PortEvent::Data { ok, bytes } => if *ok {
                    (le16_exec(bytes.as_slice(), 8), le16_exec(bytes.as_slice(), 10))
                } else {
                    (0, 0)
                },
                _ => (0, 0),
            };
            let t = PortEnum { stage: PortStage::SetAddress, vid, pid, ..*s };
            (
                t,
                PortAction::Control {
                    addr: t.addr,
                    setup: ((s.assigned as u64) << 32u64) | SETUP_SET_ADDRESS,
                    len: 0,
                    dir_in: false,
                },
            )
        },
        PortStage::SetAddress => {
            let t = PortEnum { stage: PortStage::Config9, addr: s.assigned, ..*s };
            (t, PortAction::Control { addr: t.addr, setup: SETUP_GET_CONFIG9, len: 9, dir_in: true })
        },
        PortStage::Config9 => {
            let total: u16 = match ev {
                PortEvent::Data { ok, bytes } => if *ok {
                    le16_exec(bytes.as_slice(), 2)
                } else {
                    0
                },
                _ => 0,
            };
            if total > 0 && total <= MAX_CONFIG_LEN {
                let t = PortEnum { stage: PortStage::ConfigFull, total, ..*s };
                (
                    t,
                    PortAction::Control {
                        addr: t.addr,
                        setup: SETUP_GET_CONFIG | ((total as u64) << 48u64),
                        len: total,
                        dir_in: true,
                    },
                )
            } else {
                let empty: [u8; 0] = [];
                let r = configured_exec(&PortEnum { total: 0, ..*s }, &empty);
                assert(empty@ =~= Seq::<u8>::empty());
                r
            }
        },
        PortStage::ConfigFull => {
            match ev {
                PortEvent::Data { bytes, .. } => {
                    let n = if bytes.len() < s.total as usize { bytes.len() } else { s.total as usize };
                    let cfg = slice_prefix(bytes.as_slice(), n);
                    configured_exec(s, cfg)
                },
                _ => {
                    let empty: [u8; 0] = [];
                    assert(empty@ =~= Seq::<u8>::empty().take(0));
                    configured_exec(s, &empty)
                },
            }
        },
        PortStage::SetConfig => if s.class == DevClass::Keyboard || s.class == DevClass::Mouse {
            let t = PortEnum { stage: PortStage::SetProtocol, ..*s };
            (t, PortAction::Control { addr: t.addr, setup: SETUP_SET_BOOT_PROTOCOL, len: 0, dir_in: false })
        } else {
            (done, PortAction::Configured(device_exec(s)))
        },
        PortStage::SetProtocol => {
            let t = PortEnum { stage: PortStage::SetIdle, ..*s };
            (t, PortAction::Control { addr: t.addr, setup: SETUP_SET_IDLE, len: 0, dir_in: false })
        },
        PortStage::SetIdle => (done, PortAction::Configured(device_exec(s))),
        PortStage::Done => (*s, PortAction::Abandon),
    }
}

fn slice_prefix(b: &[u8], n: usize) -> (r: &[u8])
    requires
        n <= b@.len(),
    ensures
        r@ == b@.take(n as int),
{
    let r = &b[0..n];
    assert(r@ =~= b@.take(n as int));
    r
}

// ── xHCI ─────────────────────────────────────────────────────────────────────

/// xHCI port status bits.
pub const PRTSC_CCS: u32 = 0x1;
pub const PRTSC_PR: u32 = 0x10;
pub const PRTSC_SPD: u32 = 0x3C00;
pub const PRTSC_CSC: u32 = 0x2_0000;
pub const PRTSC_PRC: u32 = 0x20_0000;

/// Device slots the driver keeps.
pub const MAX_SLOTS: u8 = 32;

/// Selecting configuration 1 as the xHCI driver writes it.
pub const SETUP_XHCI_SET_CONFIG1: u64 = 0x0000_0001_0000_0009;

/// Where an xHCI enumeration stands.
#[derive(Copy, Clone, PartialEq, Eq, Structural, Debug)]
pub enum XhciStage {
    Attach,
    AfterReset,
    EnableSlot,
    AddressBsr,
    DevDesc,
    Address,
    Config9,
    ConfigFull,
    SetConfig,
    SetProtocol,
    SetIdle,
    FinalAddress,
    Done,
}

/// An xHCI enumeration in progress.
#[derive(Copy, Clone, PartialEq, Eq, Structural, Debug)]
pub struct XhciEnum {
    pub port: u8,
    pub stage: XhciStage,
    /// The port speed code of the status register.
    pub speed: u8,
    /// Packet size of endpoint 0 the speed suggests.
    pub mps0: u16,
    /// Packet size of endpoint 0 the device descriptor gives.
    pub mps: u16,
    pub slot: u8,
    pub vid: u16,
    pub pid: u16,
    pub total: u16,
    pub class: DevClass,
    pub ep_in: u8,
    pub ep_mps: u16,
    pub subclass: u8,
    pub protocol: u8,
}

/// What the xHCI driver saw since the last step.
pub enum XhciEvent {
    /// The port status register read this value.
    Status(u32),
    /// The Enable Slot command ended with this slot, or failed.
    Slot(Option<u8>),
    /// The last command ended (`true`: successfully).
    Command(bool),
    /// The last control transfer ended; `bytes` is the start of its data
    /// buffer, which was zero before the transfer.
    Data { ok: bool, bytes: Vec<u8> },
}

/// What the xHCI driver does next.
#[derive(Copy, Clone, PartialEq, Eq, Structural, Debug)]
pub enum XhciAction {
    /// Stop; a slot taken so far is given up.
    Abandon,
    /// Reset the port, starting with a write of `portsc`; then report the
    /// status.
    Reset { portsc: u32 },
    /// Acknowledge the reset by writing `ack`, then enable a slot.
    EnableSlot { ack: u32 },
    /// Address the device of `slot` (root port `port`, with `speed`) with
    /// endpoint `ep` of packet size `mps` on a new transfer ring when
    /// `new_ring`; `bsr`: without sending the address to the device.
    AddressDevice { slot: u8, port: u8, speed: u8, ep: u8, mps: u16, bsr: bool, new_ring: bool },
    /// Run a control transfer on endpoint 0 of `slot`.
    Control { slot: u8, setup: u64, len: u16, dir_in: bool },
    /// The device is configured: record it and queue the first IN
    /// transfer.
    Configured(PortDevice),
}

/// Packet size of endpoint 0 for a port speed code (super speed 512, high
/// speed 64, otherwise 8).
pub open spec fn mps0_of(speed: u8) -> u16 {
    if speed == 4 {
        512
    } else if speed == 3 {
        64
    } else {
        8
    }
}

pub open spec fn xdata_of(ev: XhciEvent) -> (bool, Seq<u8>) {
    match ev {
        XhciEvent::Data { ok, bytes } => (ok, bytes@),
        _ => (false, Seq::empty()),
    }
}

pub open spec fn xcontrol(s: XhciEnum, setup: u64, len: u16, dir_in: bool) -> XhciAction {
    XhciAction::Control { slot: s.slot, setup, len, dir_in }
}

/// The device as recorded once configured (an xHCI device keeps no
/// address of its own in the record).
pub open spec fn xdevice_of(s: XhciEnum) -> PortDevice {
    PortDevice {
        slot: s.slot,
        class: s.class,
        speed: s.speed,
        addr: 0,
        ep_in: s.ep_in,
        ep_mps: s.ep_mps,
        vid: s.vid,
        pid: s.pid,
        subclass: s.subclass,
        protocol: s.protocol,
    }
}

/// After the configuration descriptor `cfg` was read: the class and the
/// interrupt IN endpoint (endpoint 1 and the endpoint-0 packet size when
/// none is described), then configuration 1 is selected.
pub open spec fn xconfigured_from(s: XhciEnum, cfg: Seq<u8>) -> (XhciEnum, XhciAction) {
    let p = parse_from(cfg, 0, empty_config());
    let t = XhciEnum {
        stage: XhciStage::SetConfig,
        class: class_of(p, s.speed),
        ep_in: if p.ep_in != 0 { p.ep_in } else { 1 },
        ep_mps: if p.ep_mps != 0 { p.ep_mps } else { s.mps },
        subclass: p.subclass,
        protocol: p.protocol,
        ..s
    };
    (t, xcontrol(t, SETUP_XHCI_SET_CONFIG1, 0, false))
}

/// The last address command: the interrupt IN endpoint on its own ring.
pub open spec fn xfinal_address(s: XhciEnum) -> (XhciEnum, XhciAction) {
    (
        XhciEnum { stage: XhciStage::FinalAddress, ..s },
        XhciAction::AddressDevice {
            slot: s.slot,
            port: (s.port + 1) as u8,
            speed: s.speed,
            ep: s.ep_in,
            mps: s.ep_mps,
            bsr: false,
            new_ring: true,
        },
    )
}

/// The xHCI enumeration sequence: a port with nothing attached is left;
/// otherwise the port is reset, the speed read (and with it the packet
/// size of endpoint 0), a slot enabled (one from 1 to 31) and addressed
/// without a request to the device; the device descriptor gives vendor,
/// product and the real packet size, with which the slot is addressed
/// again. Then the first nine bytes of the configuration descriptor and,
/// when its total length is between 1 and 512, the whole of it;
/// configuration 1; for a keyboard or mouse the boot protocol and the
/// idle rate; a last address command with the interrupt IN endpoint; and
/// the device is configured. A failed slot or address command ends it.
pub open spec fn xhci_enum_next(s: XhciEnum, ev: XhciEvent) -> (XhciEnum, XhciAction) {
    let done = XhciEnum { stage: XhciStage::Done, ..s };
    match s.stage {
        XhciStage::Attach => match ev {
            XhciEvent::Status(psc) => if psc & PRTSC_CCS == 0 {
                (done, XhciAction::Abandon)
            } else {
                (XhciEnum { stage: XhciStage::AfterReset, ..s }, XhciAction::Reset { portsc: (psc & !PRTSC_CSC) | PRTSC_PR })
            },
            _ => (done, XhciAction::Abandon),
        },
        XhciStage::AfterReset => match ev {
            XhciEvent::Status(psc) => {
                let speed = ((psc & PRTSC_SPD) >> 10u32) as u8;
                (
                    XhciEnum { stage: XhciStage::EnableSlot, speed, mps0: mps0_of(speed), ..s },
                    XhciAction::EnableSlot { ack: psc | PRTSC_PRC },
                )
            },
            _ => (done, XhciAction::Abandon),
        },
        XhciStage::EnableSlot => match ev {
            XhciEvent::Slot(Some(slot)) => if 0 < slot && slot < MAX_SLOTS {
                (
                    XhciEnum { stage: XhciStage::AddressBsr, slot, ..s },
                    XhciAction::AddressDevice {
                        slot,
                        port: (s.port + 1) as u8,
                        speed: s.speed,
                        ep: 1,
                        mps: s.mps0,
                        bsr: true,
                        new_ring: true,
                    },
                )
            } else {
                (done, XhciAction::Abandon)
            },
            _ => (done, XhciAction::Abandon),
        },
        XhciStage::AddressBsr => match ev {
            XhciEvent::Command(true) => {
                let t = XhciEnum { stage: XhciStage::DevDesc, ..s };
                (t, xcontrol(t, SETUP_GET_DEVICE, 18, true))
            },
            _ => (done, XhciAction::Abandon),
        },
        XhciStage::DevDesc => {
            let (ok, b) = xdata_of(ev);
            let t = XhciEnum {
                stage: XhciStage::Address,
                vid: if ok { le16(b, 8) } else { 0 },
                pid: if ok { le16(b, 10) } else { 0 },
                mps: if ok { byte_at(b, 7) as u16 } else { s.mps0 },
                ..s
            };
            (
                t,
                XhciAction::AddressDevice {
                    slot: s.slot,
                    port: (s.port + 1) as u8,
                    speed: s.speed,
                    ep: 1,
                    mps: t.mps,
                    bsr: false,
                    new_ring: false,
                },
            )
        },
        XhciStage::Address => match ev {
            XhciEvent::Command(true) => {
                let t = XhciEnum { stage: XhciStage::Config9, ..s };
                (t, xcontrol(t, SETUP_GET_CONFIG9, 9, true))
            },
            _ => (done, XhciAction::Abandon),
        },
        XhciStage::Config9 => {
            let (ok, b) = xdata_of(ev);
            let total: u16 = if ok { le16(b, 2) } else { 0 };
            if total > 0 && total <= MAX_CONFIG_LEN {
                let t = XhciEnum { stage: XhciStage::ConfigFull, total, ..s };
                (t, xcontrol(t, SETUP_GET_CONFIG | ((total as u64) << 48u64), total, true))
            } else {
                xconfigured_from(XhciEnum { total: 0, ..s }, Seq::empty())
            }
        },
        XhciStage::ConfigFull => {
            let b = xdata_of(ev).1;
            xconfigured_from(s, b.take(if b.len() < s.total { b.len() as int } else { s.total as int }))
        },
        XhciStage::SetConfig => if s.class == DevClass::Keyboard || s.class == DevClass::Mouse {
            let t = XhciEnum { stage: XhciStage::SetProtocol, ..s };
            (t, xcontrol(t, SETUP_SET_BOOT_PROTOCOL, 0, false))
        } else {
            xfinal_address(s)
        },
        XhciStage::SetProtocol => {
            let t = XhciEnum { stage: XhciStage::SetIdle, ..s };
            (t, xcontrol(t, SETUP_SET_IDLE, 0, false))
        },
        XhciStage::SetIdle => xfinal_address(s),
        XhciStage::FinalAddress => (done, XhciAction::Configured(xdevice_of(s))),
        XhciStage::Done => (s, XhciAction::Abandon),
    }
}

impl XhciEnum {
    /// A new enumeration of root port `port` (counted from 0).
    pub fn start(port: u8) -> (r: Self)
        ensures
            r == (XhciEnum {
                port,
                stage: if port < 255 { XhciStage::Attach } else { XhciStage::Done },
                speed: 0,
                mps0: 0,
                mps: 0,
                slot: 0,
                vid: 0,
                pid: 0,
                total: 0,
                class: DevClass::Unknown,
                ep_in: 0,
                ep_mps: 0,
                subclass: 0,
                protocol: 0,
            }),
    {
        XhciEnum {
            port,
            stage: if port < 255 { XhciStage::Attach } else { XhciStage::Done },
            speed: 0,
            mps0: 0,
            mps: 0,
            slot: 0,
            vid: 0,
            pid: 0,
            total: 0,
            class: DevClass::Unknown,
            ep_in: 0,
            ep_mps: 0,
            subclass: 0,
            protocol: 0,
        }
    }
}

fn mps0_exec(speed: u8) -> (r: u16)
    ensures
        r == mps0_of(speed),
{
    if speed == 4 {
        512
    } else if speed == 3 {
        64
    } else {
        8
    }
}

fn xconfigured_exec(s: &XhciEnum, cfg: &[u8]) -> (r: (XhciEnum, XhciAction))
    ensures
        r == xconfigured_from(*s, cfg@),
{
    let p = parse_config_descriptor(cfg);
    let class = classify(&p, s.speed);
    let t = XhciEnum {
        stage: XhciStage::SetConfig,
        class,
        ep_in: if p.ep_in != 0 { p.ep_in } else { 1 },
        ep_mps: if p.ep_mps != 0 { p.ep_mps } else { s.mps },
        subclass: p.subclass,
        protocol: p.protocol,
        ..*s
    };
    (t, XhciAction::Control { slot: t.slot, setup: SETUP_XHCI_SET_CONFIG1, len: 0, dir_in: false })
}

fn xfinal_exec(s: &XhciEnum) -> (r: (XhciEnum, XhciAction))
    requires
        s.port < 255,
    ensures
        r == xfinal_address(*s),
{
    (
        XhciEnum { stage: XhciStage::FinalAddress, ..*s },
        XhciAction::AddressDevice {
            slot: s.slot,
            port: s.port + 1,
            speed: s.speed,
            ep: s.ep_in,
            mps: s.ep_mps,
            bsr: false,
            new_ring: true,
        },
    )
}

/// One step of the xHCI enumeration: what `xhci_enum_next` says.
pub fn xhci_enum_step(s: &XhciEnum, ev: &XhciEvent) -> (r: (XhciEnum, XhciAction))
    requires
        s.port < 255 || s.stage == XhciStage::Done,
    ensures
        r == xhci_enum_next(*s, *ev),
        r.0.port == s.port,
{
    let done = XhciEnum { stage: XhciStage::Done, ..*s };
    match s.stage {
        XhciStage::Attach => match ev {
            XhciEvent::Status(psc) => {
                let psc = *psc;
                if psc & PRTSC_CCS == 0 {
                    (done, XhciAction::Abandon)
                } else {
                    (
                        XhciEnum { stage: XhciStage::AfterReset, ..*s },
                        XhciAction::Reset { portsc: (psc & !PRTSC_CSC) | PRTSC_PR },
                    )
                }
            },
            _ => (done, XhciAction::Abandon),
        },
        XhciStage::AfterReset => match ev {
            XhciEvent::Status(psc) => {
                let psc = *psc;
                let speed = ((psc & PRTSC_SPD) >> 10u32) as u8;
                (
                    XhciEnum { stage: XhciStage::EnableSlot, speed, mps0: mps0_exec(speed), ..*s },
                    XhciAction::EnableSlot { ack: psc | PRTSC_PRC },
                )
            },
            _ => (done, XhciAction::Abandon),
        },
        XhciStage::EnableSlot => match ev {
            XhciEvent::Slot(Some(slot)) => {
                let slot = *slot;
                if 0 < slot && slot < MAX_SLOTS {
                    (
                        XhciEnum { stage: XhciStage::AddressBsr, slot, ..*s },
                        XhciAction::AddressDevice {
                            slot,
                            port: s.port + 1,
                            speed: s.speed,
                            ep: 1,
                            mps: s.mps0,
                            bsr: true,
                            new_ring: true,
                        },
                    )
                } else {
                    (done, XhciAction::Abandon)
                }
            },
            _ => (done, XhciAction::Abandon),
        },
        XhciStage::AddressBsr => match ev {
            XhciEvent::Command(true) => {
                let t = XhciEnum { stage: XhciStage::DevDesc, ..*s };
                (t, XhciAction::Control { slot: t.slot, setup: SETUP_GET_DEVICE, len: 18, dir_in: true })
            },
            _ => (done, XhciAction::Abandon),
        },
        XhciStage::DevDesc => {
            let (vid, pid, mps) = match ev {
                XhciEvent::Data { ok, bytes } => if *ok {
                    (
                        le16_exec(bytes.as_slice(), 8),
                        le16_exec(bytes.as_slice(), 10),
                        byte_at_exec(bytes.as_slice(), 7) as u16,
                    )
                } else {
                    (0, 0, s.mps0)
                },
                _ => (0, 0, s.mps0),
            };
            let t = XhciEnum { stage: XhciStage::Address, vid, pid, mps, ..*s };
            (
                t,
                XhciAction::AddressDevice {
                    slot: s.slot,
                    port: s.port + 1,
                    speed: s.speed,
                    ep: 1,
                    mps: t.mps,
                    bsr: false,
                    new_ring: false,
                },
            )
        },
        XhciStage::Address => match ev {
            XhciEvent::Command(true) => {
                let t = XhciEnum { stage: XhciStage::Config9, ..*s };
                (t, XhciAction::Control { slot: t.slot, setup: SETUP_GET_CONFIG9, len: 9, dir_in: true })
            },
            _ => (done, XhciAction::Abandon),
        },
        XhciStage::Config9 => {
            let total: u16 = match ev {
                XhciEvent::Data { ok, bytes } => if *ok {
                    le16_exec(bytes.as_slice(), 2)
                } else {
                    0
                },
                _ => 0,
            };
            if total > 0 && total <= MAX_CONFIG_LEN {
                let t = XhciEnum { stage: XhciStage::ConfigFull, total, ..*s };
                (
                    t,
                    XhciAction::Control {
                        slot: t.slot,
                        setup: SETUP_GET_CONFIG | ((total as u64) << 48u64),
                        len: total,
                        dir_in: true,
                    },
                )
            } else {
                let empty: [u8; 0] = [];
                let r = xconfigured_exec(&XhciEnum { total: 0, ..*s }, &empty);
                assert(empty@ =~= Seq::<u8>::empty());
                r
            }
        },
        XhciStage::ConfigFull => match ev {
            XhciEvent::Data { bytes, .. } => {
                let n = if bytes.len() < s.total as usize { bytes.len() } else { s.total as usize };
                let cfg = slice_prefix(bytes.as_slice(), n);
                xconfigured_exec(s, cfg)
            },
            _ => {
                let empty: [u8; 0] = [];
                assert(empty@ =~= Seq::<u8>::empty().take(0));
                xconfigured_exec(s, &empty)
            },
        },
        XhciStage::SetConfig => if s.class == DevClass::Keyboard || s.class == DevClass::Mouse {
            let t = XhciEnum { stage: XhciStage::SetProtocol, ..*s };
            (t, XhciAction::Control { slot: t.slot, setup: SETUP_SET_BOOT_PROTOCOL, len: 0, dir_in: false })
        } else {
            xfinal_exec(s)
        },
        XhciStage::SetProtocol => {
            let t = XhciEnum { stage: XhciStage::SetIdle, ..*s };
            (t, XhciAction::Control { slot: t.slot, setup: SETUP_SET_IDLE, len: 0, dir_in: false })
        },
        XhciStage::SetIdle => xfinal_exec(s),
        XhciStage::FinalAddress => (
            done,
            XhciAction::Configured(
                PortDevice {
                    slot: s.slot,
                    class: s.class,
                    speed: s.speed,
                    addr: 0,
                    ep_in: s.ep_in,
                    ep_mps: s.ep_mps,
                    vid: s.vid,
                    pid: s.pid,
                    subclass: s.subclass,
                    protocol: s.protocol,
                },
            ),
        ),
        XhciStage::Done => (*s, XhciAction::Abandon),
    }
}

} // verus!
