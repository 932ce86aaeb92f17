//! USB HID: configuration descriptor parsing, device classification, and
//! translation of keyboard, mouse and consumer-control reports.
use vstd::prelude::*;

verus! {

pub const USB_CLASS_HID: u8 = 0x03;
pub const USB_CLASS_AUDIO: u8 = 0x01;
pub const USB_SUB_BOOT: u8 = 0x01;
pub const USB_PROTO_KB: u8 = 0x01;
pub const USB_PROTO_MOUSE: u8 = 0x02;

pub const DESC_DEVICE: u8 = 0x01;
pub const DESC_CONFIG: u8 = 0x02;
pub const DESC_STRING: u8 = 0x03;
pub const DESC_INTERFACE: u8 = 0x04;
pub const DESC_ENDPOINT: u8 = 0x05;
pub const DESC_HID: u8 = 0x21;
pub const DESC_REPORT: u8 = 0x22;

pub const REQ_GET_DESCRIPTOR: u8 = 0x06;
pub const REQ_SET_CONFIGURATION: u8 = 0x09;
pub const REQ_SET_INTERFACE: u8 = 0x0B;
pub const REQ_HID_SET_PROTO: u8 = 0x0B;
pub const REQ_HID_SET_IDLE: u8 = 0x0A;
pub const REQ_HID_GET_REPORT: u8 = 0x01;

/// Most devices tracked at once.
pub const MAX_USB_DEVICES: usize = 16;

#[derive(Copy, Clone, PartialEq, Eq, Structural, Debug)]
pub enum DevClass {
    Unknown,
    Keyboard,
    Mouse,
    /// HID volume and mute controls.
    AudioControl,
    Hub,
}

#[derive(Copy, Clone)]
pub struct UsbDevice {
    /// xHCI slot or EHCI port index.
    pub slot: u8,
    pub class: DevClass,
    /// 1 = low, 2 = full, 3 = high, 4 = super speed.
    pub speed: u8,
    pub addr: u8,
    pub ep_in: u8,
    pub ep_in_mps: u16,
    pub active: bool,
    pub vid: u16,
    pub pid: u16,
    pub subclass: u8,
    pub protocol: u8,
}

impl UsbDevice {
    pub open spec fn empty_spec() -> Self {
        UsbDevice {
            slot: 0,
            class: DevClass::Unknown,
            speed: 0,
            addr: 0,
            ep_in: 0,
            ep_in_mps: 8,
            active: false,
            vid: 0,
            pid: 0,
            subclass: 0,
            protocol: 0,
        }
    }

    pub fn empty() -> (r: Self)
        ensures
            r == Self::empty_spec(),
            r == (UsbDevice {
                slot: 0,
                class: DevClass::Unknown,
                speed: 0,
                addr: 0,
                ep_in: 0,
                ep_in_mps: 8,
                active: false,
                vid: 0,
                pid: 0,
                subclass: 0,
                protocol: 0,
            }),
    {
        UsbDevice {
            slot: 0,
            class: DevClass::Unknown,
            speed: 0,
            addr: 0,
            ep_in: 0,
            ep_in_mps: 8,
            active: false,
            vid: 0,
            pid: 0,
            subclass: 0,
            protocol: 0,
        }
    }
}

/// What a configuration descriptor says about the device.
#[derive(Copy, Clone)]
pub struct ParsedConfig {
    pub class: u8,
    pub subclass: u8,
    pub protocol: u8,
    pub ep_in: u8,
    pub ep_mps: u16,
    pub ep_interval: u8,
    pub has_audio: bool,
}

pub open spec fn empty_config() -> ParsedConfig {
    ParsedConfig { class: 0, subclass: 0, protocol: 0, ep_in: 0, ep_mps: 0, ep_interval: 0, has_audio: false }
}

impl Default for ParsedConfig {
    fn default() -> (r: Self)
        ensures
            r == empty_config(),
    {
        ParsedConfig { class: 0, subclass: 0, protocol: 0, ep_in: 0, ep_mps: 0, ep_interval: 0, has_audio: false }
    }
}

/// The effect of one descriptor `d` (of type `typ`) on the parse so far.
pub open spec fn apply_descriptor(r: ParsedConfig, d: Seq<u8>, typ: u8) -> ParsedConfig {
    let len = d.len();
    if typ == DESC_INTERFACE && len >= 9 {
        let ic = d[5];
        let r1 = if ic == USB_CLASS_HID {
            ParsedConfig { class: ic, subclass: d[6], protocol: d[7], ..r }
        } else {
            r
        };
        if ic == USB_CLASS_AUDIO {
            ParsedConfig { has_audio: true, ..r1 }
        } else {
            r1
        }
    } else if typ == DESC_ENDPOINT && len >= 7 {
        let addr = d[2];
        let attr = d[3];
        if attr & 3 == 3 && addr & 0x80 != 0 && r.ep_in == 0 {
            ParsedConfig { ep_in: addr & 0x0f, ep_mps: (d[4] as u16 | ((d[5] as u16) << 8u16)) as u16, ep_interval: d[6], ..r }
        } else {
            r
        }
    } else {
        r
    }
}

/// Walk the descriptors from offset `i`: each starts with its length and
/// type; the walk stops at a zero length or a descriptor running past the
/// buffer.
pub open spec fn parse_from(buf: Seq<u8>, i: int, r: ParsedConfig) -> ParsedConfig
    decreases buf.len() - i,
{
    if i < 0 || i + 2 > buf.len() {
        r
    } else {
        let len = buf[i] as int;
        if len == 0 || i + len > buf.len() {
            r
        } else {
            parse_from(buf, i + len, apply_descriptor(r, buf.subrange(i, i + len), buf[i + 1]))
        }
    }
}

/// Parse a raw configuration descriptor: the HID interface's class,
/// subclass and protocol, whether an audio interface is present, and the
/// first interrupt IN endpoint with its packet size and interval.
pub fn parse_config_descriptor(buf: &[u8]) -> (r: ParsedConfig)
    ensures
        r == parse_from(buf@, 0, empty_config()),
{
    let mut r = ParsedConfig::default();
    let mut i: usize = 0;
    let n = buf.len();
    let mut done = false;
    while !done && i < n && n - i >= 2
        invariant
            n == buf@.len(),
            i <= n,
            done ==> parse_from(buf@, i as int, r) == r,
            parse_from(buf@, i as int, r) == parse_from(buf@, 0, empty_config()),
        decreases n - i, (if done { 0int } else { 1int }),
    {
        let len = buf[i] as usize;
        let typ = buf[i + 1];
        if len == 0 || len > n - i {
            done = true;
        } else {
            let ghost d = buf@.subrange(i as int, (i + len) as int);
            let ghost r0 = r;
            if typ == DESC_INTERFACE && len >= 9 {
                let ic = buf[i + 5];
                let isc = buf[i + 6];
                let ipr = buf[i + 7];
                if ic == USB_CLASS_HID {
                    r.class = ic;
                    r.subclass = isc;
                    r.protocol = ipr;
                }
                if ic == USB_CLASS_AUDIO {
                    r.has_audio = true;
                }
            } else if typ == DESC_ENDPOINT && len >= 7 {
                let addr = buf[i + 2];
                let attr = buf[i + 3];
                let mps = (buf[i + 4] as u16) | ((buf[i + 5] as u16) << 8);
                let interval = buf[i + 6];
                if (attr & 0x03) == 0x03 && (addr & 0x80) != 0 && r.ep_in == 0 {
                    r.ep_in = addr & 0x0F;
                    r.ep_mps = mps;
                    r.ep_interval = interval;
                }
            }
            assert(r == apply_descriptor(r0, d, typ));
            i = i + len;
        }
    }
    r
}

/// Device class for a parsed configuration; when nothing was parsed the
/// link speed decides (low and full speed: keyboard, otherwise mouse).
pub fn classify(cfg: &ParsedConfig, speed: u8) -> (r: DevClass)
    ensures
        r == if cfg.has_audio {
            DevClass::AudioControl
        } else if cfg.class == USB_CLASS_HID && cfg.protocol == USB_PROTO_KB {
            DevClass::Keyboard
        } else if cfg.class == USB_CLASS_HID && cfg.protocol == USB_PROTO_MOUSE {
            DevClass::Mouse
        } else if cfg.class == 0 && cfg.subclass == 0 && cfg.protocol == 0 {
            if speed == 1 || speed == 2 {
                DevClass::Keyboard
            } else {
                DevClass::Mouse
            }
        } else {
            DevClass::Unknown
        },
{
    if cfg.has_audio {
        return DevClass::AudioControl;
    }
    match (cfg.class, cfg.subclass, cfg.protocol) {
        (USB_CLASS_HID, USB_SUB_BOOT, USB_PROTO_KB) => DevClass::Keyboard,
        (USB_CLASS_HID, USB_SUB_BOOT, USB_PROTO_MOUSE) => DevClass::Mouse,
        (USB_CLASS_HID, _, USB_PROTO_KB) => DevClass::Keyboard,
        (USB_CLASS_HID, _, USB_PROTO_MOUSE) => DevClass::Mouse,
        (0, 0, 0) => match speed {
            1 | 2 => DevClass::Keyboard,
            _ => DevClass::Mouse,
        },
        _ => DevClass::Unknown,
    }
}

// ── Device table ─────────────────────────────────────────────────────────────

/// The attached devices: a fixed table of `MAX_USB_DEVICES` entries and
/// the number of active ones.
pub struct DeviceTable {
    pub devs: Vec<UsbDevice>,
    pub ndev: usize,
}

pub open spec fn count_active(s: Seq<UsbDevice>) -> nat
    decreases s.len(),
{
    if s.len() == 0 {
        0
    } else {
        count_active(s.drop_last()) + if s.last().active { 1nat } else { 0nat }
    }
}

proof fn lemma_count_active_bound(s: Seq<UsbDevice>)
    ensures
        count_active(s) <= s.len(),
    decreases s.len(),
{
    if s.len() > 0 {
        lemma_count_active_bound(s.drop_last());
    }
}

proof fn lemma_count_active_update(s: Seq<UsbDevice>, i: int, d: UsbDevice)
    requires
        0 <= i < s.len(),
    ensures
        count_active(s.update(i, d)) == count_active(s) - (if s[i].active { 1int } else { 0int }) + (
        if d.active { 1int } else { 0int }),
    decreases s.len(),
{
    let t = s.update(i, d);
    if i == s.len() - 1 {
        assert(t.drop_last() =~= s.drop_last());
    } else {
        lemma_count_active_update(s.drop_last(), i, d);
        assert(t.drop_last() =~= s.drop_last().update(i, d));
    }
}

pub open spec fn first_free(s: Seq<UsbDevice>, i: int) -> bool {
    0 <= i < s.len() && !s[i].active && forall|j: int| 0 <= j < i ==> s[j].active
}

pub open spec fn first_with_slot(s: Seq<UsbDevice>, slot: u8, i: int) -> bool {
    0 <= i < s.len() && s[i].active && s[i].slot == slot && forall|j: int|
        0 <= j < i ==> !(#[trigger] s[j].active && s[j].slot == slot)
}

impl DeviceTable {
    /// Every entry holds the count of the active entries.
    pub open spec fn wf(&self) -> bool {
        self.devs@.len() == MAX_USB_DEVICES && self.ndev == count_active(self.devs@)
    }

    pub fn new() -> (r: Self)
        ensures
            r.wf(),
            r.ndev == 0,
            forall|i: int| 0 <= i < MAX_USB_DEVICES ==> r.devs@[i] == UsbDevice::empty_spec(),
    {
        let mut devs: Vec<UsbDevice> = Vec::new();
        let mut k: usize = 0;
        while k < MAX_USB_DEVICES
            invariant
                k <= MAX_USB_DEVICES,
                devs@.len() == k,
                count_active(devs@) == 0,
                forall|i: int| 0 <= i < k ==> devs@[i] == UsbDevice::empty_spec(),
            decreases MAX_USB_DEVICES - k,
        {
            let ghost before = devs@;
            devs.push(UsbDevice::empty());
            assert(devs@.drop_last() =~= before);
            k = k + 1;
        }
        DeviceTable { devs, ndev: 0 }
    }

    /// Number of active devices.
    pub fn hid_device_count(&self) -> (r: usize)
        ensures
            r == self.ndev,
    {
        self.ndev
    }

    /// Take the first free entry for `slot`: it is reset, given the slot and
    /// marked active; `None` when all entries are in use.
    pub fn dev_alloc(&mut self, slot: u8) -> (r: Option<usize>)
        requires
            old(self).wf(),
        ensures
            final(self).wf(),
            match r {
                Some(i) => first_free(old(self).devs@, i as int) && final(self).devs@ == old(self).devs@.update(
                    i as int,
                    UsbDevice { slot, active: true, ..UsbDevice::empty_spec() },
                ) && final(self).ndev == old(self).ndev + 1,
                None => (forall|j: int| 0 <= j < MAX_USB_DEVICES ==> old(self).devs@[j].active) && *final(self)
                    == *old(self),
            },
    {
        let mut i: usize = 0;
        while i < MAX_USB_DEVICES
            invariant
                i <= MAX_USB_DEVICES,
                self.wf(),
                *self == *old(self),
                forall|j: int| 0 <= j < i ==> self.devs@[j].active,
            decreases MAX_USB_DEVICES - i,
        {
            if !self.devs[i].active {
                let mut d = UsbDevice::empty();
                d.slot = slot;
                d.active = true;
                proof {
                    lemma_count_active_update(self.devs@, i as int, d);
                    lemma_count_active_bound(self.devs@);
                }
                self.devs.set(i, d);
                self.ndev = self.ndev + 1;
                return Some(i);
            }
            i = i + 1;
        }
        None
    }

    /// Mark the first active entry with `slot` inactive; nothing happens
    /// when there is none.
    pub fn dev_free(&mut self, slot: u8)
        requires
            old(self).wf(),
        ensures
            final(self).wf(),
            (exists|i: int| first_with_slot(old(self).devs@, slot, i)) ==> exists|i: int|
                first_with_slot(old(self).devs@, slot, i) && final(self).devs@ == old(self).devs@.update(
                    i,
                    UsbDevice { active: false, ..old(self).devs@[i] },
                ) && final(self).ndev == old(self).ndev - 1,
            !(exists|i: int| first_with_slot(old(self).devs@, slot, i)) ==> *final(self) == *old(self),
    {
        let mut i: usize = 0;
        while i < MAX_USB_DEVICES
            invariant
                i <= MAX_USB_DEVICES,
                self.wf(),
                *self == *old(self),
                forall|j: int| 0 <= j < i ==> !(#[trigger] self.devs@[j].active && self.devs@[j].slot == slot),
            decreases MAX_USB_DEVICES - i,
        {
            if self.devs[i].active && self.devs[i].slot == slot {
                let mut d = self.devs[i];
                d.active = false;
                proof {
                    lemma_count_active_update(self.devs@, i as int, d);
                    assert(first_with_slot(old(self).devs@, slot, i as int));
                }
                self.devs.set(i, d);
                if self.ndev > 0 {
                    self.ndev = self.ndev - 1;
                }
                return;
            }
            i = i + 1;
        }
        proof {
            assert forall|k: int| !first_with_slot(old(self).devs@, slot, k) by {
                if first_with_slot(old(self).devs@, slot, k) {
                    assert(!(old(self).devs@[k].active && old(self).devs@[k].slot == slot));
                }
            }
        }
    }
}

// ── Keyboard: boot-protocol report ───────────────────────────────────────────

/// Number of usage ids in the translation tables.
pub const HID_KEYS: u8 = 104;

/// ASCII for a keyboard usage id, without shift (0: no character).
pub open spec fn usage_norm(k: u8) -> u8 {
    if 0x04 <= k <= 0x1D {
        (0x61u8 + (k - 0x04)) as u8
    } else if 0x1E <= k <= 0x26 {
        (0x31u8 + (k - 0x1E)) as u8
    } else {
        match k {
            0x27 => 0x30u8,
            0x28 => 0x0au8,
            0x29 => 0x1bu8,
            0x2A => 0x08u8,
            0x2B => 0x09u8,
            0x2C => 0x20u8,
            0x2D => 0x2du8,
            0x2E => 0x3du8,
            0x2F => 0x5bu8,
            0x30 => 0x5du8,
            0x31 => 0x5cu8,
            0x33 => 0x3bu8,
            0x34 => 0x27u8,
            0x35 => 0x60u8,
            0x36 => 0x2cu8,
            0x37 => 0x2eu8,
            0x38 => 0x2fu8,
            _ => 0u8,
        }
    }
}

/// ASCII for a keyboard usage id with shift held (0: no character).
pub open spec fn usage_shift(k: u8) -> u8 {
    if 0x04 <= k <= 0x1D {
        (0x41u8 + (k - 0x04)) as u8
    } else {
        match k {
            0x1E => 0x21u8,
            0x1F => 0x40u8,
            0x20 => 0x23u8,
            0x21 => 0x24u8,
            0x22 => 0x25u8,
            0x23 => 0x5eu8,
            0x24 => 0x26u8,
            0x25 => 0x2au8,
            0x26 => 0x28u8,
            0x27 => 0x29u8,
            0x28 => 0x0au8,
            0x29 => 0x1bu8,
            0x2A => 0x08u8,
            0x2B => 0x09u8,
            0x2C => 0x20u8,
            0x2D => 0x5fu8,
            0x2E => 0x2bu8,
            0x2F => 0x7bu8,
            0x30 => 0x7du8,
            0x31 => 0x7cu8,
            0x33 => 0x3au8,
            0x34 => 0x22u8,
            0x35 => 0x7eu8,
            0x36 => 0x3cu8,
            0x37 => 0x3eu8,
            0x38 => 0x3fu8,
            _ => 0u8,
        }
    }
}

/// Translate a usage id to ASCII (0: no character).
pub fn usage_char(k: u8, shift: bool) -> (r: u8)
    ensures
        r == if shift { usage_shift(k) } else { usage_norm(k) },
{
    if 0x04 <= k && k <= 0x1D {
        return if shift { 0x41u8 + (k - 0x04) } else { 0x61u8 + (k - 0x04) };
    }
    if !shift && 0x1E <= k && k <= 0x26 {
        return 0x31u8 + (k - 0x1E);
    }
    if shift {
        match k {
            0x1E => 0x21u8,
            0x1F => 0x40u8,
            0x20 => 0x23u8,
            0x21 => 0x24u8,
            0x22 => 0x25u8,
            0x23 => 0x5eu8,
            0x24 => 0x26u8,
            0x25 => 0x2au8,
            0x26 => 0x28u8,
            0x27 => 0x29u8,
            0x28 => 0x0au8,
            0x29 => 0x1b,
            0x2A => 0x08,
            0x2B => 0x09u8,
            0x2C => 0x20u8,
            0x2D => 0x5fu8,
            0x2E => 0x2bu8,
            0x2F => 0x7bu8,
            0x30 => 0x7du8,
            0x31 => 0x7cu8,
            0x33 => 0x3au8,
            0x34 => 0x22u8,
            0x35 => 0x7eu8,
            0x36 => 0x3cu8,
            0x37 => 0x3eu8,
            0x38 => 0x3fu8,
            _ => 0,
        }
    } else {
        match k {
            0x27 => 0x30u8,
            0x28 => 0x0au8,
            0x29 => 0x1b,
            0x2A => 0x08,
            0x2B => 0x09u8,
            0x2C => 0x20u8,
            0x2D => 0x2du8,
            0x2E => 0x3du8,
            0x2F => 0x5bu8,
            0x30 => 0x5du8,
            0x31 => 0x5cu8,
            0x33 => 0x3bu8,
            0x34 => 0x27u8,
            0x35 => 0x60u8,
            0x36 => 0x2cu8,
            0x37 => 0x2eu8,
            0x38 => 0x2fu8,
            _ => 0,
        }
    }
}

/// Keys held in the previous report (bytes 2..8).
pub open spec fn was_held(prev: Seq<u8>, k: u8) -> bool {
    exists|j: int| 2 <= j < 8 && prev[j] == k
}

/// What one key of a new report produces: nothing for reserved ids, keys
/// already held and ids past the tables; with Ctrl, C, D and H give the
/// control codes 3, 4 and 8; otherwise its character, if it has one.
pub open spec fn key_output(prev: Seq<u8>, mods: u8, k: u8) -> Seq<u8> {
    let shift = mods & 0x22 != 0;
    let ctrl = mods & 0x11 != 0;
    if k < 4 || was_held(prev, k) || k >= HID_KEYS {
        Seq::empty()
    } else if ctrl && k == 0x06 {
        seq![3u8]
    } else if ctrl && k == 0x07 {
        seq![4u8]
    } else if ctrl && k == 0x08 {
        seq![8u8]
    } else {
        let c = if shift { usage_shift(k) } else { usage_norm(k) };
        if c != 0 {
            seq![c]
        } else {
            Seq::empty()
        }
    }
}

/// Output of the keys in bytes 2..j of `rep`, in order.
pub open spec fn report_output(prev: Seq<u8>, rep: Seq<u8>, j: int) -> Seq<u8>
    decreases j,
{
    if j <= 2 {
        Seq::empty()
    } else {
        report_output(prev, rep, j - 1) + key_output(prev, rep[0], rep[j - 1])
    }
}

/// Keyboard state: the last report seen.
pub struct Keyboard {
    pub prev: [u8; 8],
}

impl Keyboard {
    pub fn new() -> (r: Self)
        ensures
            r.prev@ == seq![0u8; 8],
    {
        Keyboard { prev: [0u8; 8] }
    }
}

fn held_in(prev: &[u8; 8], k: u8) -> (r: bool)
    ensures
        r == was_held(prev@, k),
{
    let mut j: usize = 2;
    while j < 8
        invariant
            2 <= j <= 8,
            forall|t: int| 2 <= t < j ==> prev@[t] != k,
        decreases 8 - j,
    {
        if prev[j] == k {
            return true;
        }
        j = j + 1;
    }
    false
}

fn same_report(a: &[u8; 8], b: &[u8; 8]) -> (r: bool)
    ensures
        r == (a@ == b@),
{
    let mut j: usize = 0;
    while j < 8
        invariant
            j <= 8,
            a@.len() == 8 && b@.len() == 8,
            forall|t: int| 0 <= t < j ==> a@[t] == b@[t],
        decreases 8 - j,
    {
        if a[j] != b[j] {
            return false;
        }
        j = j + 1;
    }
    assert(a@ =~= b@);
    true
}

/// Apply a boot-protocol keyboard report and return the characters it
/// types: a report equal to the last one types nothing; otherwise each
/// newly pressed key (bytes 2..8, in order) gives its character and the
/// report becomes the last one.
pub fn hid_kb(kb: &mut Keyboard, rep: &[u8; 8]) -> (out: Vec<u8>)
    ensures
        rep@ == old(kb).prev@ ==> out@ == Seq::<u8>::empty() && final(kb).prev@ == old(kb).prev@,
        rep@ != old(kb).prev@ ==> out@ == report_output(old(kb).prev@, rep@, 8) && final(kb).prev@ == rep@,
{
    let mut out: Vec<u8> = Vec::new();
    if same_report(rep, &kb.prev) {
        return out;
    }
    let mods = rep[0];
    let shift = mods & 0x22 != 0;
    let ctrl = mods & 0x11 != 0;
    let mut j: usize = 2;
    while j < 8
        invariant
            2 <= j <= 8,
            rep@.len() == 8,
            mods == rep@[0],
            shift == (mods & 0x22 != 0),
            ctrl == (mods & 0x11 != 0),
            *kb == *old(kb),
            out@ == report_output(kb.prev@, rep@, j as int),
        decreases 8 - j,
    {
        let k = rep[j];
        let ghost before = out@;
        if k >= 4 && !held_in(&kb.prev, k) && k < HID_KEYS {
            if ctrl && k == 0x06 {
                out.push(3);
            } else if ctrl && k == 0x07 {
                out.push(4);
            } else if ctrl && k == 0x08 {
                out.push(8);
            } else {
                let c = usage_char(k, shift);
                if c != 0 {
                    out.push(c);
                }
            }
        }
        assert(out@ =~= before + key_output(kb.prev@, mods, k));
        j = j + 1;
    }
    kb.prev = *rep;
    out
}

// ── Mouse and consumer-control reports ───────────────────────────────────────

#[derive(Copy, Clone)]
pub struct Mouse {
    pub buttons: u8,
    /// Accumulated position.
    pub x: i16,
    pub y: i16,
    /// Last movement.
    pub dx: i8,
    pub dy: i8,
    pub scroll: i8,
    pub changed: bool,
}

impl Default for Mouse {
    fn default() -> (r: Self)
        ensures
            r == (Mouse { buttons: 0, x: 0, y: 0, dx: 0, dy: 0, scroll: 0, changed: false }),
    {
        Mouse { buttons: 0, x: 0, y: 0, dx: 0, dy: 0, scroll: 0, changed: false }
    }
}

/// `a + b` clamped to the range of `i16`.
pub open spec fn sat_i16(a: int) -> i16 {
    if a > i16::MAX {
        i16::MAX
    } else if a < i16::MIN {
        i16::MIN
    } else {
        a as i16
    }
}

/// `a` clamped to the range of `i8`.
pub open spec fn sat_i8(a: int) -> i8 {
    if a > i8::MAX {
        i8::MAX
    } else if a < i8::MIN {
        i8::MIN
    } else {
        a as i8
    }
}

fn saturating_add_i16(a: i16, b: i16) -> (r: i16)
    ensures
        r == sat_i16(a + b),
{
    let s = a as i32 + b as i32;
    if s > i16::MAX as i32 {
        i16::MAX
    } else if s < i16::MIN as i32 {
        i16::MIN
    } else {
        s as i16
    }
}

fn saturating_add_i8(a: i8, b: i8) -> (r: i8)
    ensures
        r == sat_i8(a + b),
{
    let s = a as i16 + b as i16;
    if s > i8::MAX as i16 {
        i8::MAX
    } else if s < i8::MIN as i16 {
        i8::MIN
    } else {
        s as i8
    }
}

/// Apply a boot-protocol mouse report (buttons, dx, dy, optional wheel);
/// reports shorter than three bytes are ignored.
pub fn hid_mouse(m: &mut Mouse, rep: &[u8])
    ensures
        rep@.len() < 3 ==> *final(m) == *old(m),
        rep@.len() >= 3 ==> *final(m) == (Mouse {
            buttons: rep@[0],
            dx: rep@[1] as i8,
            dy: rep@[2] as i8,
            scroll: if rep@.len() > 3 { rep@[3] as i8 } else { 0 },
            x: sat_i16(old(m).x + (rep@[1] as i8)),
            y: sat_i16(old(m).y + (rep@[2] as i8)),
            changed: true,
        }),
{
    if rep.len() < 3 {
        return;
    }
    m.buttons = rep[0];
    m.dx = rep[1] as i8;
    m.dy = rep[2] as i8;
    m.scroll = if rep.len() > 3 { rep[3] as i8 } else { 0 };
    m.x = saturating_add_i16(m.x, m.dx as i16);
    m.y = saturating_add_i16(m.y, m.dy as i16);
    m.changed = true;
}

/// Clear the movement of the last report.
pub fn mouse_reset_delta(m: &mut Mouse)
    ensures
        *final(m) == (Mouse { dx: 0, dy: 0, scroll: 0, changed: false, ..*old(m) }),
{
    m.dx = 0;
    m.dy = 0;
    m.scroll = 0;
    m.changed = false;
}

pub const AUDIO_MUTE: u16 = 0x00E2;
pub const AUDIO_VOL_UP: u16 = 0x00E9;
pub const AUDIO_VOL_DOWN: u16 = 0x00EA;
pub const AUDIO_PLAY_PAUSE: u16 = 0x00CD;
pub const AUDIO_NEXT_TRACK: u16 = 0x00B5;
pub const AUDIO_PREV_TRACK: u16 = 0x00B6;
pub const AUDIO_STOP: u16 = 0x00B7;

#[derive(Copy, Clone)]
pub struct AudioState {
    /// Volume change, in steps of 5.
    pub volume: i8,
    pub muted: bool,
    pub play_pause: bool,
    pub next: bool,
    pub prev: bool,
    pub stop: bool,
    pub changed: bool,
}

impl Default for AudioState {
    fn default() -> (r: Self)
        ensures
            r == (AudioState {
                volume: 0,
                muted: false,
                play_pause: false,
                next: false,
                prev: false,
                stop: false,
                changed: false,
            }),
    {
        AudioState { volume: 0, muted: false, play_pause: false, next: false, prev: false, stop: false, changed: false }
    }
}

/// The consumer-control state after report `rep`.
pub open spec fn audio_after(o: AudioState, rep: Seq<u8>) -> AudioState {
    if rep.len() < 2 {
        o
    } else {
        let usage = (rep[0] as u16 | ((rep[1] as u16) << 8u16)) as u16;
        if usage == AUDIO_MUTE {
            AudioState { muted: !o.muted, changed: true, ..o }
        } else if usage == AUDIO_VOL_UP {
            AudioState { volume: sat_i8(o.volume + 5), changed: true, ..o }
        } else if usage == AUDIO_VOL_DOWN {
            AudioState { volume: sat_i8(o.volume - 5), changed: true, ..o }
        } else if usage == AUDIO_PLAY_PAUSE {
            AudioState { play_pause: true, changed: true, ..o }
        } else if usage == AUDIO_NEXT_TRACK {
            AudioState { next: true, changed: true, ..o }
        } else if usage == AUDIO_PREV_TRACK {
            AudioState { prev: true, changed: true, ..o }
        } else if usage == AUDIO_STOP {
            AudioState { stop: true, changed: true, ..o }
        } else {
            AudioState { changed: false, ..o }
        }
    }
}

/// Apply a consumer-control report (a little-endian usage id); reports
/// shorter than two bytes are ignored, unknown usages clear `changed`.
pub fn hid_audio(a: &mut AudioState, rep: &[u8])
    ensures
        *final(a) == audio_after(*old(a), rep@),
{
    if rep.len() < 2 {
        return;
    }
    let usage = (rep[0] as u16) | ((rep[1] as u16) << 8);
    a.changed = true;
    if usage == AUDIO_MUTE {
        a.muted = !a.muted;
    } else if usage == AUDIO_VOL_UP {
        a.volume = saturating_add_i8(a.volume, 5);
    } else if usage == AUDIO_VOL_DOWN {
        a.volume = saturating_add_i8(a.volume, -5);
    } else if usage == AUDIO_PLAY_PAUSE {
        a.play_pause = true;
    } else if usage == AUDIO_NEXT_TRACK {
        a.next = true;
    } else if usage == AUDIO_PREV_TRACK {
        a.prev = true;
    } else if usage == AUDIO_STOP {
        a.stop = true;
    } else {
        a.changed = false;
    }
}

/// Clear the one-shot flags of the consumer controls.
pub fn audio_reset(a: &mut AudioState)
    ensures
        *final(a) == (AudioState { play_pause: false, next: false, prev: false, stop: false, changed: false, ..*old(a) }),
{
    a.play_pause = false;
    a.next = false;
    a.prev = false;
    a.stop = false;
    a.changed = false;
}


// ── Dispatch ─────────────────────────────────────────────────────────────────

/// Input state fed by the HID reports.
pub struct HidInput {
    pub kb: Keyboard,
    pub mouse: Mouse,
    pub audio: AudioState,
}

fn first_eight(data: &[u8]) -> (r: [u8; 8])
    requires
        data@.len() >= 8,
    ensures
        r@ == data@.subrange(0, 8),
{
    let mut a = [0u8; 8];
    let mut i: usize = 0;
    while i < 8
        invariant
            i <= 8,
            data@.len() >= 8,
            a@.len() == 8,
            forall|t: int| 0 <= t < i ==> a@[t] == data@[t],
        decreases 8 - i,
    {
        a[i] = data[i];
        i = i + 1;
    }
    assert(a@ =~= data@.subrange(0, 8));
    a
}

/// Hand a report to the handler of the device's class: keyboards take the
/// first eight bytes (shorter reports are dropped), mice and consumer
/// controls the whole report; other classes ignore it. Returns the
/// characters typed.
pub fn hid_dispatch(st: &mut HidInput, dev: &UsbDevice, data: &[u8]) -> (out: Vec<u8>)
    ensures
        dev.class == DevClass::Keyboard && data@.len() >= 8 ==> {
            let rep = data@.subrange(0, 8);
            &&& final(st).mouse == old(st).mouse && final(st).audio == old(st).audio
            &&& rep == old(st).kb.prev@ ==> out@ == Seq::<u8>::empty() && final(st).kb.prev@ == old(st).kb.prev@
            &&& rep != old(st).kb.prev@ ==> out@ == report_output(old(st).kb.prev@, rep, 8) && final(st).kb.prev@ == rep
        },
        dev.class == DevClass::Mouse ==> out@ == Seq::<u8>::empty() && final(st).kb == old(st).kb && final(st).audio
            == old(st).audio && (data@.len() < 3 ==> final(st).mouse == old(st).mouse) && (data@.len() >= 3
            ==> final(st).mouse == (Mouse {
            buttons: data@[0],
            dx: data@[1] as i8,
            dy: data@[2] as i8,
            scroll: if data@.len() > 3 { data@[3] as i8 } else { 0 },
            x: sat_i16(old(st).mouse.x + (data@[1] as i8)),
            y: sat_i16(old(st).mouse.y + (data@[2] as i8)),
            changed: true,
        })),
        dev.class == DevClass::AudioControl ==> out@ == Seq::<u8>::empty() && final(st).kb == old(st).kb
            && final(st).mouse == old(st).mouse && final(st).audio == audio_after(old(st).audio, data@),
        (dev.class == DevClass::Keyboard && data@.len() < 8) || dev.class == DevClass::Unknown || dev.class
            == DevClass::Hub ==> out@ == Seq::<u8>::empty() && *final(st) == *old(st),
{
    match dev.class {
        DevClass::Keyboard => {
            if data.len() >= 8 {
                let rep = first_eight(data);
                hid_kb(&mut st.kb, &rep)
            } else {
                Vec::new()
            }
        },
        DevClass::Mouse => {
            hid_mouse(&mut st.mouse, data);
            Vec::new()
        },
        DevClass::AudioControl => {
            hid_audio(&mut st.audio, data);
            Vec::new()
        },
        _ => Vec::new(),
    }
}

/// Law: usage ids follow the HID keyboard usage table: 0x04..=0x1D are the
/// letters a..z, upper case with shift; 0x1E..=0x26 the digits 1..9 and
/// 0x27 the digit 0; 0x28..=0x2C Enter, Escape, Backspace, Tab and Space,
/// the same control characters with or without shift; a usage past 0x38
/// or below 0x04 types nothing.
pub proof fn law_usage_table(k: u8)
    ensures
        0x04 <= k <= 0x1D ==> usage_norm(k) == 0x61 + (k - 0x04) && usage_shift(k) == usage_norm(k) - 0x20,
        0x1E <= k <= 0x26 ==> usage_norm(k) == 0x31 + (k - 0x1E),
        usage_norm(0x27) == 0x30,
        usage_norm(0x28) == 0x0a && usage_norm(0x29) == 0x1b && usage_norm(0x2A) == 0x08 && usage_norm(0x2B)
            == 0x09 && usage_norm(0x2C) == 0x20,
        0x28 <= k <= 0x2C ==> usage_shift(k) == usage_norm(k),
        k < 0x04 || k > 0x38 ==> usage_norm(k) == 0 && usage_shift(k) == 0,
{
}

/// Law: two different keys never type the same character, with or without
/// shift.
pub proof fn law_usage_distinct(a: u8, b: u8)
    ensures
        a != b && usage_norm(a) != 0 ==> usage_norm(a) != usage_norm(b),
        a != b && usage_shift(a) != 0 ==> usage_shift(a) != usage_shift(b),
{
}

} // verus!
