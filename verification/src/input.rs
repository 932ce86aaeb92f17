//! PS/2 keyboard input: translation of scan code set 1 with Shift and
//! Ctrl, and the ring of typed characters read by the console. Reading the
//! controller's ports is the caller's.
use vstd::prelude::*;

verus! {

/// Slots of the character ring; one stays empty, so it holds at most 63.
pub const KB_BUF: usize = 64;

/// Scan codes with a table entry.
pub const SC1_LEN: usize = 59;

/// Scan code set 1 to ASCII without Shift (0: no character).
pub open spec fn sc1_norm() -> Seq<u8> {
    seq![
        0u8, 0x1b, 0x31, 0x32, 0x33, 0x34, 0x35, 0x36, 0x37, 0x38, 0x39, 0x30, 0x2d, 0x3d, 0x08,
        0x09, 0x71, 0x77, 0x65, 0x72, 0x74, 0x79, 0x75, 0x69, 0x6f, 0x70, 0x5b, 0x5d, 0x0a,
        0, 0x61, 0x73, 0x64, 0x66, 0x67, 0x68, 0x6a, 0x6b, 0x6c, 0x3b, 0x27, 0x60,
        0, 0x5c, 0x7a, 0x78, 0x63, 0x76, 0x62, 0x6e, 0x6d, 0x2c, 0x2e, 0x2f,
        0, 0x2a, 0, 0x20, 0,
    ]
}

/// Scan code set 1 to ASCII with Shift (0: no character).
pub open spec fn sc1_shft() -> Seq<u8> {
    seq![
        0u8, 0x1b, 0x21, 0x40, 0x23, 0x24, 0x25, 0x5e, 0x26, 0x2a, 0x28, 0x29, 0x5f, 0x2b, 0x08,
        0x09, 0x51, 0x57, 0x45, 0x52, 0x54, 0x59, 0x55, 0x49, 0x4f, 0x50, 0x7b, 0x7d, 0x0a,
        0, 0x41, 0x53, 0x44, 0x46, 0x47, 0x48, 0x4a, 0x4b, 0x4c, 0x3a, 0x22, 0x7e,
        0, 0x7c, 0x5a, 0x58, 0x43, 0x56, 0x42, 0x4e, 0x4d, 0x3c, 0x3e, 0x3f,
        0, 0x2a, 0, 0x20, 0,
    ]
}

/// The table entry of scan code `idx`.
pub fn sc1_char(idx: usize, shift: bool) -> (r: u8)
    requires
        idx < SC1_LEN,
    ensures
        r == if shift { sc1_shft()[idx as int] } else { sc1_norm()[idx as int] },
{
    let norm: [u8; 59] = [
        0, 0x1b, 0x31, 0x32, 0x33, 0x34, 0x35, 0x36, 0x37, 0x38, 0x39, 0x30, 0x2d, 0x3d, 0x08,
        0x09, 0x71, 0x77, 0x65, 0x72, 0x74, 0x79, 0x75, 0x69, 0x6f, 0x70, 0x5b, 0x5d, 0x0a,
        0, 0x61, 0x73, 0x64, 0x66, 0x67, 0x68, 0x6a, 0x6b, 0x6c, 0x3b, 0x27, 0x60,
        0, 0x5c, 0x7a, 0x78, 0x63, 0x76, 0x62, 0x6e, 0x6d, 0x2c, 0x2e, 0x2f,
        0, 0x2a, 0, 0x20, 0,
    ];
    let shft: [u8; 59] = [
        0, 0x1b, 0x21, 0x40, 0x23, 0x24, 0x25, 0x5e, 0x26, 0x2a, 0x28, 0x29, 0x5f, 0x2b, 0x08,
        0x09, 0x51, 0x57, 0x45, 0x52, 0x54, 0x59, 0x55, 0x49, 0x4f, 0x50, 0x7b, 0x7d, 0x0a,
        0, 0x41, 0x53, 0x44, 0x46, 0x47, 0x48, 0x4a, 0x4b, 0x4c, 0x3a, 0x22, 0x7e,
        0, 0x7c, 0x5a, 0x58, 0x43, 0x56, 0x42, 0x4e, 0x4d, 0x3c, 0x3e, 0x3f,
        0, 0x2a, 0, 0x20, 0,
    ];
    assert(norm@ =~= sc1_norm());
    assert(shft@ =~= sc1_shft());
    if shift {
        shft[idx]
    } else {
        norm[idx]
    }
}

/// What a scan code types, given Shift and Ctrl: nothing for a release
/// or a code past the table; with Ctrl, a letter gives its control code
/// (1 for A); otherwise the table's character, when it has one.
pub open spec fn typed(sc: u8, shift: bool, ctrl: bool) -> Option<char> {
    if sc & 0x80 != 0 || sc as int >= SC1_LEN {
        None
    } else {
        let base = if shift { sc1_shft()[sc as int] } else { sc1_norm()[sc as int] };
        if ctrl && 0x61 <= base <= 0x7a {
            Some((base - 0x61 + 1) as char)
        } else if ctrl && 0x41 <= base <= 0x5a {
            Some((base - 0x41 + 1) as char)
        } else if base != 0 {
            Some(base as char)
        } else {
            None
        }
    }
}

/// Keyboard state and the ring of typed characters.
pub struct Input {
    shift: bool,
    ctrl: bool,
    data: Vec<char>,
    head: usize,
    tail: usize,
}

impl Input {
    pub closed spec fn wf(&self) -> bool {
        self.data@.len() == KB_BUF && self.head < KB_BUF && self.tail < KB_BUF
    }

    /// Whether a Shift key is held.
    pub closed spec fn shift_down(&self) -> bool {
        self.shift
    }

    /// Whether the Ctrl key is held.
    pub closed spec fn ctrl_down(&self) -> bool {
        self.ctrl
    }

    /// The characters waiting, oldest first.
    pub closed spec fn pending(&self) -> Seq<char> {
        let n = (self.head + KB_BUF - self.tail) as int % KB_BUF as int;
        Seq::new(n as nat, |k: int| self.data@[(self.tail + k) % KB_BUF as int])
    }

    pub fn new() -> (r: Self)
        ensures
            r.wf(),
            !r.shift_down() && !r.ctrl_down(),
            r.pending() == Seq::<char>::empty(),
    {
        let mut data: Vec<char> = Vec::new();
        let mut i: usize = 0;
        while i < KB_BUF
            invariant
                i <= KB_BUF,
                data@.len() == i,
            decreases KB_BUF - i,
        {
            data.push('\0');
            i = i + 1;
        }
        let r = Input { shift: false, ctrl: false, data, head: 0, tail: 0 };
        assert(r.pending() =~= Seq::<char>::empty());
        r
    }

    /// Queue a character; dropped when the ring is full.
    pub fn input_push(&mut self, c: char)
        requires
            old(self).wf(),
        ensures
            final(self).wf(),
            final(self).shift_down() == old(self).shift_down() && final(self).ctrl_down() == old(self).ctrl_down(),
            old(self).pending().len() < KB_BUF - 1 ==> final(self).pending() == old(self).pending().push(c),
            old(self).pending().len() >= KB_BUF - 1 ==> final(self).pending() == old(self).pending(),
    {
        let next = (self.head + 1) % KB_BUF;
        if next != self.tail {
            let ghost p0 = self.pending();
            self.data.set(self.head, c);
            self.head = next;
            assert(self.pending() =~= p0.push(c));
        }
    }

    /// Take the oldest waiting character.
    pub fn input_poll(&mut self) -> (r: Option<char>)
        requires
            old(self).wf(),
        ensures
            final(self).wf(),
            final(self).shift_down() == old(self).shift_down() && final(self).ctrl_down() == old(self).ctrl_down(),
            old(self).pending().len() == 0 ==> r is None && final(self).pending() == old(self).pending(),
            old(self).pending().len() > 0 ==> r == Some(old(self).pending()[0]) && final(self).pending() == old(
                self,
            ).pending().drop_first(),
    {
        if self.head == self.tail {
            return None;
        }
        let ghost p0 = self.pending();
        let c = self.data[self.tail];
        self.tail = (self.tail + 1) % KB_BUF;
        assert(self.pending() =~= p0.drop_first());
        Some(c)
    }

    /// Handle one scan code: the Shift and Ctrl keys change their state;
    /// anything else queues what it types.
    pub fn kbd_scancode(&mut self, sc: u8)
        requires
            old(self).wf(),
        ensures
            final(self).wf(),
            sc == 0x2A || sc == 0x36 ==> final(self).shift_down() && final(self).ctrl_down() == old(self).ctrl_down() && final(self).pending()
                == old(self).pending(),
            sc == 0xAA || sc == 0xB6 ==> !final(self).shift_down() && final(self).ctrl_down() == old(self).ctrl_down()
                && final(self).pending() == old(self).pending(),
            sc == 0x1D ==> final(self).ctrl_down() && final(self).shift_down() == old(self).shift_down() && final(self).pending() == old(
                self,
            ).pending(),
            sc == 0x9D ==> !final(self).ctrl_down() && final(self).shift_down() == old(self).shift_down() && final(self).pending() == old(
                self,
            ).pending(),
            !(sc == 0x2A || sc == 0x36 || sc == 0xAA || sc == 0xB6 || sc == 0x1D || sc == 0x9D) ==> {
                &&& final(self).shift_down() == old(self).shift_down()
                &&& final(self).ctrl_down() == old(self).ctrl_down()
                &&& final(self).pending() == match typed(sc, old(self).shift_down(), old(self).ctrl_down()) {
                    Some(c) => if old(self).pending().len() < KB_BUF - 1 {
                        old(self).pending().push(c)
                    } else {
                        old(self).pending()
                    },
                    None => old(self).pending(),
                }
            },
    {
        if sc == 0x2A || sc == 0x36 {
            self.shift = true;
            return;
        }
        if sc == 0xAA || sc == 0xB6 {
            self.shift = false;
            return;
        }
        if sc == 0x1D {
            self.ctrl = true;
            return;
        }
        if sc == 0x9D {
            self.ctrl = false;
            return;
        }
        if sc & 0x80 != 0 {
            return;
        }
        let idx = sc as usize;
        if idx >= SC1_LEN {
            return;
        }
        if self.ctrl {
            let base = sc1_char(idx, self.shift);
            if base >= 0x61 && base <= 0x7a {
                self.input_push((base - 0x61 + 1) as char);
                return;
            }
            if base >= 0x41 && base <= 0x5a {
                self.input_push((base - 0x41 + 1) as char);
                return;
            }
        }
        let c = sc1_char(idx, self.shift);
        if c != 0 {
            self.input_push(c as char);
        }
    }
}

/// The controller configuration written at start-up: port 1 interrupt and
/// scan code translation on, port 2 interrupt off.
pub fn ps2_config(cfg: u8) -> (r: u8)
    ensures
        r == (cfg | 0x41) & !0x02u8,
{
    (cfg | 0x41) & !0x02
}

/// Reply of the keyboard to a command.
#[derive(Copy, Clone, PartialEq, Eq, Structural, Debug)]
pub enum KbdReply {
    Ack,
    Resend,
    Other,
}

/// Classify a reply byte: 0xFA acknowledges, 0xFE asks to resend.
pub fn kbd_reply(r: u8) -> (k: KbdReply)
    ensures
        k == if r == 0xFA { KbdReply::Ack } else if r == 0xFE { KbdReply::Resend } else { KbdReply::Other },
{
    if r == 0xFA {
        KbdReply::Ack
    } else if r == 0xFE {
        KbdReply::Resend
    } else {
        KbdReply::Other
    }
}

} // verus!
