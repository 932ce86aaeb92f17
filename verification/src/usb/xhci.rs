//! xHCI transfer request blocks and event ring dequeue pointer.
use vstd::prelude::*;

verus! {

/// Size of a transfer or event ring in entries.
pub const RSIZ: usize = 255;

/// Transfer request block.
#[derive(Copy, Clone)]
pub struct Trb {
    pub param: u64,
    pub status: u32,
    pub ctrl: u32,
}

impl Default for Trb {
    /// The all-zero block.
    fn default() -> (r: Self)
        ensures
            r.param == 0 && r.status == 0 && r.ctrl == 0,
    {
        Trb { param: 0, status: 0, ctrl: 0 }
    }
}

impl Trb {
    /// Entry type: bits 10..15 of the control word.
    pub fn typ(self) -> (r: u32)
        ensures
            r == (self.ctrl >> 10u32) & 0x3f,
    {
        (self.ctrl >> 10) & 0x3F
    }

    /// Cycle bit: bit 0 of the control word.
    pub fn cycle(self) -> (r: bool)
        ensures
            r == (self.ctrl & 1 != 0),
    {
        self.ctrl & 1 != 0
    }

    /// Slot id: bits 24..31 of the control word.
    pub fn slot(self) -> (r: usize)
        ensures
            r == (self.ctrl >> 24u32) as usize,
            r < 256,
    {
        let c = self.ctrl;
        proof {
            assert(c >> 24u32 < 256) by (bit_vector);
        }
        (self.ctrl >> 24) as usize
    }

    /// Completion code: bits 24..31 of the status word.
    pub fn cc(self) -> (r: u32)
        ensures
            r == (self.status >> 24u32) & 0xff,
    {
        (self.status >> 24) & 0xFF
    }
}

/// Event ring position: its physical base and dequeue index.
pub struct EvtRing {
    pub phys: u64,
    pub erst: u64,
    pub deq: usize,
    pub ccs: bool,
}

impl EvtRing {
    /// Physical address of the dequeue entry (16 bytes per entry).
    pub fn erdp(&self) -> (r: u64)
        requires
            self.phys + self.deq * 16 <= u64::MAX,
        ensures
            r == self.phys + self.deq * 16,
    {
        self.phys + self.deq as u64 * 16
    }

    /// Consume `t` if its cycle bit matches the consumer cycle state: the
    /// dequeue index advances and wraps at the ring size, flipping the
    /// state; `None` (and no change) when the entry is not yet produced.
    pub fn pop_entry(&mut self, t: Trb) -> (r: Option<Trb>)
        requires
            old(self).deq < RSIZ,
        ensures
            final(self).deq < RSIZ,
            final(self).phys == old(self).phys && final(self).erst == old(self).erst,
            (t.ctrl & 1 != 0) != old(self).ccs ==> r is None && final(self).deq == old(self).deq && final(self).ccs
                == old(self).ccs,
            (t.ctrl & 1 != 0) == old(self).ccs ==> r == Some(t) && (if old(self).deq + 1 >= RSIZ {
                final(self).deq == 0 && final(self).ccs == !old(self).ccs
            } else {
                final(self).deq == old(self).deq + 1 && final(self).ccs == old(self).ccs
            }),
    {
        if t.cycle() != self.ccs {
            return None;
        }
        self.deq = self.deq + 1;
        if self.deq >= RSIZ {
            self.deq = 0;
            self.ccs = !self.ccs;
        }
        Some(t)
    }
}

} // verus!
