//! The VGA text console: 80x25 cells of character and colour, a cursor,
//! line wrap and scrolling. The cells are held here; copying them to the
//! screen memory and moving the hardware cursor are the caller's.
use vstd::prelude::*;
use vstd::string::StringSliceAdditionalSpecFns;
use crate::libcosinus::fmt::{
    dec_digits, u64_to_str, utf8_str, lemma_ascii_valid_utf8, ascii_bytes, lemma_dec_digits_ascii, lemma_u64_dec_len,
};

verus! {

pub const VGA_W: usize = 80;

pub const VGA_H: usize = 25;

/// Cells on the screen.
pub const CELLS: usize = 2000;

/// White on black.
pub const WHITE: u8 = 0x0F;

/// The cell showing `b` in colour `color`: the colour in the high byte.
pub open spec fn cell(color: u8, b: u16) -> u16 {
    ((color as u16) << 8u16) | b
}

/// A blank cell in colour `color`.
pub open spec fn blank(color: u8) -> u16 {
    cell(color, 0x20)
}

/// The screen moved up one row, the last row blank.
pub open spec fn scrolled(s: Seq<u16>, color: u8) -> Seq<u16> {
    Seq::new(CELLS as nat, |i: int| if i < CELLS - VGA_W { s[i + VGA_W] } else { blank(color) })
}

/// Colour attribute from a foreground and a background colour.
pub fn attr(fg: u8, bg: u8) -> (r: u8)
    ensures
        r == (bg << 4u8) | (fg & 0xF),
{
    (bg << 4) | (fg & 0xF)
}

fn blank_cell(color: u8) -> (r: u16)
    ensures
        r == blank(color),
{
    ((color as u16) << 8) | 0x20
}

/// The console: cells, cursor and current colour.
pub struct Console {
    cells: Vec<u16>,
    x: usize,
    y: usize,
    color: u8,
}

/// Which variant of the control characters a console follows.
#[derive(Copy, Clone, PartialEq, Eq, Structural, Debug)]
pub enum TabStyle {
    /// Tabs to multiples of 8; Backspace blanks the cell it steps back to;
    /// only the low byte of a character is shown.
    Kernel,
    /// Tabs to multiples of 4; Backspace only steps back; the character
    /// is shown as its low 16 bits.
    Boot,
}

/// Where the cursor goes and what is written before wrapping: the new
/// column and row (not yet wrapped) and the cell write, if any.
pub open spec fn step(x: int, y: int, c: char, style: TabStyle, color: u8) -> (int, int, Option<(int, u16)>) {
    if c == '\n' {
        (0, y + 1, None)
    } else if c == '\r' {
        (0, y, None)
    } else if c == '\t' {
        if style == TabStyle::Kernel {
            ((x + 8) / 8 * 8, y, None)
        } else {
            ((x + 4) / 4 * 4, y, None)
        }
    } else if c == '\x08' {
        if x > 0 {
            if style == TabStyle::Kernel {
                (x - 1, y, Some((y * VGA_W + x - 1, blank(color))))
            } else {
                (x - 1, y, None)
            }
        } else {
            (x, y, None)
        }
    } else {
        let code = c as u32;
        let shown = if style == TabStyle::Kernel { code % 256 } else { code % 65536 };
        (x + 1, y, Some((y * VGA_W + x, cell(color, shown as u16))))
    }
}

impl Console {
    pub closed spec fn wf(&self) -> bool {
        self.cells@.len() == CELLS && self.x < VGA_W && self.y < VGA_H
    }

    /// The cells, row by row.
    pub closed spec fn screen(&self) -> Seq<u16> {
        self.cells@
    }

    /// The colour new text is written in.
    pub closed spec fn colour(&self) -> u8 {
        self.color
    }

    pub closed spec fn col(&self) -> int {
        self.x as int
    }

    pub closed spec fn row(&self) -> int {
        self.y as int
    }

    /// The screen after writing `c`: the step, wrapping past the last
    /// column, scrolling past the last row.
    pub open spec fn after(&self, c: char, style: TabStyle) -> (Seq<u16>, int, int) {
        let (x1, y1, w) = step(self.col(), self.row(), c, style, self.colour());
        let s1 = match w {
            Some((i, v)) => self.screen().update(i, v),
            None => self.screen(),
        };
        let (x2, y2) = if x1 >= VGA_W { (0int, y1 + 1) } else { (x1, y1) };
        if y2 >= VGA_H {
            (scrolled(s1, self.colour()), x2, VGA_H - 1)
        } else {
            (s1, x2, y2)
        }
    }

    /// A blank screen in white on black, the cursor at the top left.
    pub fn new() -> (r: Self)
        ensures
            r.wf(),
            r.screen() == Seq::new(CELLS as nat, |i: int| blank(WHITE)),
            r.col() == 0 && r.row() == 0,
            r.colour() == WHITE,
    {
        let mut cells: Vec<u16> = Vec::new();
        let mut i: usize = 0;
        while i < CELLS
            invariant
                i <= CELLS,
                cells@ == Seq::new(i as nat, |k: int| blank(WHITE)),
            decreases CELLS - i,
        {
            cells.push(blank_cell(WHITE));
            i = i + 1;
            assert(cells@ =~= Seq::new(i as nat, |k: int| blank(WHITE)));
        }
        Console { cells, x: 0, y: 0, color: WHITE }
    }

    /// Blank the screen in the current colour and home the cursor.
    pub fn cls(&mut self)
        requires
            old(self).wf(),
        ensures
            final(self).wf(),
            final(self).screen() == Seq::new(CELLS as nat, |i: int| blank(old(self).colour())),
            final(self).col() == 0 && final(self).row() == 0,
            final(self).colour() == old(self).colour(),
    {
        let b = blank_cell(self.color);
        let mut i: usize = 0;
        while i < CELLS
            invariant
                i <= CELLS,
                self.cells@.len() == CELLS,
                b == blank(self.color),
                self.color == old(self).color,
                forall|k: int| 0 <= k < i ==> #[trigger] self.cells@[k] == b,
            decreases CELLS - i,
        {
            self.cells.set(i, b);
            i = i + 1;
        }
        self.x = 0;
        self.y = 0;
        assert(self.cells@ =~= Seq::new(CELLS as nat, |k: int| blank(old(self).color)));
    }

    /// Move every row up and blank the last one.
    fn scroll(&mut self)
        requires
            old(self).cells@.len() == CELLS,
        ensures
            final(self).cells@ == scrolled(old(self).cells@, old(self).color),
            final(self).x == old(self).x,
            final(self).y == old(self).y,
            final(self).colour() == old(self).colour(),
    {
        let mut i: usize = 0;
        while i < CELLS - VGA_W
            invariant
                i <= CELLS - VGA_W,
                self.cells@.len() == CELLS,
                self.x == old(self).x && self.y == old(self).y && self.color == old(self).color,
                forall|k: int| 0 <= k < i ==> #[trigger] self.cells@[k] == old(self).cells@[k + VGA_W],
                forall|k: int| i <= k < CELLS ==> #[trigger] self.cells@[k] == old(self).cells@[k],
            decreases CELLS - VGA_W - i,
        {
            let v = self.cells[i + VGA_W];
            self.cells.set(i, v);
            i = i + 1;
        }
        let b = blank_cell(self.color);
        let mut j: usize = 0;
        while j < VGA_W
            invariant
                j <= VGA_W,
                self.cells@.len() == CELLS,
                b == blank(self.color),
                self.x == old(self).x && self.y == old(self).y && self.color == old(self).color,
                forall|k: int| 0 <= k < CELLS - VGA_W ==> #[trigger] self.cells@[k] == old(self).cells@[k + VGA_W],
                forall|k: int| CELLS - VGA_W <= k < CELLS - VGA_W + j ==> #[trigger] self.cells@[k] == b,
            decreases VGA_W - j,
        {
            self.cells.set(CELLS - VGA_W + j, b);
            j = j + 1;
        }
        assert(self.cells@ =~= scrolled(old(self).cells@, old(self).color));
    }

    /// Write one character: newline, carriage return, tab and Backspace
    /// move the cursor; anything else is shown at the cursor, which moves
    /// right. Past the last column the cursor goes to the next line; past
    /// the last line the screen scrolls.
    pub fn put(&mut self, c: char, style: TabStyle)
        requires
            old(self).wf(),
        ensures
            final(self).wf(),
            final(self).colour() == old(self).colour(),
            (final(self).screen(), final(self).col(), final(self).row()) == old(self).after(c, style),
    {
        let ghost pre = *self;
        if c == '\n' {
            self.x = 0;
            self.y = self.y + 1;
        } else if c == '\r' {
            self.x = 0;
        } else if c == '\t' {
            if style == TabStyle::Kernel {
                self.x = (self.x + 8) / 8 * 8;
            } else {
                self.x = (self.x + 4) / 4 * 4;
            }
        } else if c == '\x08' {
            if self.x > 0 {
                self.x = self.x - 1;
                if style == TabStyle::Kernel {
                    let b = blank_cell(self.color);
                    self.cells.set(self.y * VGA_W + self.x, b);
                }
            }
        } else {
            let code = c as u32;
            let shown: u32 = if style == TabStyle::Kernel { code % 256 } else { code % 65536 };
            let v: u16 = ((self.color as u16) << 8) | (shown as u16);
            self.cells.set(self.y * VGA_W + self.x, v);
            self.x = self.x + 1;
        }
        if self.x >= VGA_W {
            self.x = 0;
            self.y = self.y + 1;
        }
        if self.y >= VGA_H {
            self.scroll();
            self.y = VGA_H - 1;
        }
        assert((self.cells@, self.x as int, self.y as int) == pre.after(c, style));
    }

    /// The colour new text is written in.
    pub fn color(&self) -> (r: u8)
        ensures
            r == self.colour(),
    {
        self.color
    }

    /// Write new text in colour `c`.
    pub fn set_col(&mut self, c: u8)
        requires
            old(self).wf(),
        ensures
            final(self).wf(),
            final(self).colour() == c,
            final(self).screen() == old(self).screen(),
            final(self).col() == old(self).col() && final(self).row() == old(self).row(),
    {
        self.color = c;
    }

    /// Hardware cursor position: row times width plus column.
    pub fn cursor_pos(&self) -> (r: u16)
        requires
            self.wf(),
        ensures
            r == self.row() * VGA_W + self.col(),
    {
        (self.y * VGA_W + self.x) as u16
    }

    /// The cell at position `i`.
    pub fn cell_at(&self, i: usize) -> (r: u16)
        requires
            self.wf(),
            i < CELLS,
        ensures
            r == self.screen()[i as int],
    {
        self.cells[i]
    }
}

// ── Numbers for the console ─────────────────────────────────────────────────

/// `16^k`.
pub open spec fn pow16(k: nat) -> nat
    decreases k,
{
    if k == 0 {
        1
    } else {
        16 * pow16((k - 1) as nat)
    }
}

/// Upper-case hexadecimal digit.
pub open spec fn hex_upper(d: int) -> u8 {
    if d < 10 {
        (48 + d) as u8
    } else {
        (55 + d) as u8
    }
}

/// `"0x"` and the sixteen nibbles of `v`, most significant first, in upper
/// case.
pub open spec fn hex16(v: u64) -> Seq<u8> {
    seq![48u8, 120u8] + Seq::new(16, |k: int| hex_upper(((v as nat) / pow16((15 - k) as nat)) as int % 16))
}

fn hex_digit(d: u64) -> (r: u8)
    requires
        d < 16,
    ensures
        r == hex_upper(d as int),
{
    let h: [u8; 16] = [0x30, 0x31, 0x32, 0x33, 0x34, 0x35, 0x36, 0x37, 0x38, 0x39, 0x41, 0x42, 0x43, 0x44, 0x45, 0x46];
    assert(h@ =~= Seq::new(16, |k: int| hex_upper(k)));
    h[d as usize]
}

/// `v` as `"0x"` and sixteen upper-case hexadecimal digits, written over
/// the whole buffer.
pub fn hex_str<'a>(v: u64, buf: &'a mut [u8; 18]) -> (r: &'a str)
    ensures
        r.spec_bytes() == hex16(v),
        final(buf)@ == hex16(v),
{
    buf[0] = 48;
    buf[1] = 120;
    let mut w = v;
    let mut i: usize = 18;
    assert(pow16(0) == 1);
    assert((v as nat) / pow16((18 - i) as nat) == v as nat) by {
        assert((18 - i) as nat == 0);
        vstd::arithmetic::div_mod::lemma_div_basics(v as int);
    }
    while i > 2
        invariant
            2 <= i <= 18,
            buf@.len() == 18,
            buf@[0] == 48u8 && buf@[1] == 120u8,
            w as nat == (v as nat) / pow16((18 - i) as nat),
            forall|k: int| i <= k < 18 ==> #[trigger] buf@[k] == hex_upper(((v as nat) / pow16((17 - k) as nat)) as int % 16),
        decreases i,
    {
        let ghost j = (18 - i) as nat;
        i = i - 1;
        buf[i] = hex_digit(w % 16);
        proof {
            assert(pow16(j + 1) == pow16(j) * 16);
            assert(pow16(j) > 0) by {
                lemma_pow16_pos(j);
            }
            vstd::arithmetic::div_mod::lemma_div_denominator(v as int, pow16(j) as int, 16);
        }
        w = w / 16;
    }
    proof {
        assert(buf@ =~= hex16(v));
        assert(ascii_bytes(buf@)) by {
            assert forall|k: int| 0 <= k < 18 implies #[trigger] buf@[k] < 128 by {
                if k >= 2 {
                    let d = ((v as nat) / pow16((17 - k) as nat)) as int % 16;
                    assert(0 <= d < 16);
                }
            }
        }
        lemma_ascii_valid_utf8(buf@);
    }
    let s: &'a [u8] = buf;
    match utf8_str(s) {
        Some(t) => t,
        None => "?",
    }
}

proof fn lemma_pow16_pos(k: nat)
    ensures
        pow16(k) > 0,
    decreases k,
{
    if k > 0 {
        lemma_pow16_pos((k - 1) as nat);
    }
}

/// Append `"0x"` and the sixteen upper-case hexadecimal digits of `v` to
/// `out`.
pub fn put_hex(out: &mut Vec<u8>, v: u64)
    ensures
        final(out)@ == old(out)@ + hex16(v),
{
    let mut buf = [0u8; 18];
    let t = hex_str(v, &mut buf);
    crate::libcosinus::fmt::put_str(out, t);
}

/// The boot console's name for `hex_str`.
pub fn u64_hex<'a>(v: u64, buf: &'a mut [u8; 18]) -> (r: &'a str)
    ensures
        r.spec_bytes() == hex16(v),
        final(buf)@ == hex16(v),
{
    hex_str(v, buf)
}

/// Decimal text of `v`, written into the tail of the buffer.
pub fn num_str<'a>(v: usize, buf: &'a mut [u8; 24]) -> (r: &'a str)
    ensures
        r.spec_bytes() == dec_digits(v as nat),
{
    if v == 0 {
        buf[23] = 48;
        proof {
            assert(buf@.subrange(23, 24) =~= dec_digits(0));
            assert(ascii_bytes(dec_digits(0)));
            lemma_ascii_valid_utf8(dec_digits(0));
        }
        let s: &'a [u8] = &buf[23..24];
        return match utf8_str(s) {
            Some(t) => t,
            None => "?",
        };
    }
    u64_to_str(v as u64, buf)
}

/// Decimal text of `v`, written into the tail of a 20-byte buffer, which
/// holds every `usize`.
pub fn usize_str<'a>(v: usize, buf: &'a mut [u8; 20]) -> (r: &'a str)
    ensures
        r.spec_bytes() == dec_digits(v as nat),
        final(buf)@.subrange(20 - dec_digits(v as nat).len(), 20) == dec_digits(v as nat),
{
    let ghost orig = v as nat;
    proof {
        lemma_u64_dec_len(v as u64);
        lemma_dec_digits_ascii(orig);
    }
    let mut w = v;
    let mut i: usize = 20;
    if v == 0 {
        buf[19] = 48;
        i = 19;
        assert(buf@.subrange(19, 20) =~= dec_digits(0));
    } else {
        while w > 0 && i > 0
            invariant
                0 <= i <= 20,
                buf@.len() == 20,
                orig == v as nat,
                v > 0,
                dec_digits(orig).len() <= 20,
                w > 0 ==> dec_digits(orig) == dec_digits(w as nat) + buf@.subrange(i as int, 20),
                w > 0 ==> dec_digits(w as nat).len() + (20 - i) == dec_digits(orig).len(),
                w == 0 ==> dec_digits(orig) == buf@.subrange(i as int, 20),
            decreases w,
        {
            let ghost wn = w as nat;
            let ghost old_buf = buf@;
            i = i - 1;
            let d = (w % 10) as u8;
            buf[i] = 48 + d;
            w = w / 10;
            proof {
                assert(buf@.subrange(i as int, 20) =~= seq![(48 + wn % 10) as u8] + old_buf.subrange(i + 1, 20));
                if wn >= 10 {
                    assert(dec_digits(wn) == dec_digits(wn / 10).push((48 + wn % 10) as u8));
                    assert(dec_digits(wn) + old_buf.subrange(i + 1, 20) =~= dec_digits(wn / 10) + buf@.subrange(
                        i as int,
                        20,
                    ));
                } else {
                    assert(dec_digits(wn) + old_buf.subrange(i + 1, 20) =~= buf@.subrange(i as int, 20));
                }
            }
        }
        assert(w == 0);
    }
    proof {
        lemma_ascii_valid_utf8(dec_digits(orig));
    }
    let s: &'a [u8] = &buf[i..20];
    match utf8_str(s) {
        Some(t) => t,
        None => "?",
    }
}

} // verus!
