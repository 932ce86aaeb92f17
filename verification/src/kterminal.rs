//! The kernel's debug terminal: line editing of what the keyboard or the
//! serial port types, decoding of the entered command, and the decisions
//! behind the commands. Printing and reading registers are the caller's.
use vstd::prelude::*;
use vstd::string::StringSliceAdditionalSpecFns;
use crate::threading::{Threads, Thread, TS, MAX_THREADS, first_zero};
use crate::libcosinus::fmt::{dec_digits, put_bytes, put_str, put_dec};
use crate::console::{hex16, put_hex};

verus! {

/// Characters a line holds.
pub const LINE_MAX: usize = 255;

/// Timer ticks per second.
pub const TICKS_PER_SEC: u64 = 100;

/// The terminal's commands.
#[derive(Copy, Clone, PartialEq, Eq, Structural, Debug)]
pub enum Command {
    Help,
    Mem,
    Threads,
    Userspace,
    Ticks,
    Uptime,
    Cr3,
    Regs,
    Usb,
    Clear,
    Panic,
    /// A blank line.
    Empty,
    Unknown,
}

/// ASCII white space as `u8::is_ascii_whitespace` has it.
pub open spec fn is_ascii_ws(b: u8) -> bool {
    b == 0x20 || b == 0x09 || b == 0x0a || b == 0x0c || b == 0x0d
}

/// First index from `i` on that holds no white space (or the length).
pub open spec fn lead_end(s: Seq<u8>, i: int) -> int
    decreases s.len() - i,
{
    if i >= s.len() || !is_ascii_ws(s[i]) {
        i
    } else {
        lead_end(s, i + 1)
    }
}

/// Index after the last byte before `j` that is no white space (or 0).
pub open spec fn trail_start(s: Seq<u8>, j: int) -> int
    decreases j,
{
    if j <= 0 || !is_ascii_ws(s[j - 1]) {
        if j <= 0 { 0 } else { j }
    } else {
        trail_start(s, j - 1)
    }
}

/// The line without leading and trailing ASCII white space.
pub open spec fn trim_ascii(s: Seq<u8>) -> Seq<u8> {
    let a = lead_end(s, 0);
    let b = trail_start(s, s.len() as int);
    if a < b { s.subrange(a, b) } else { Seq::empty() }
}

/// The command a trimmed line names.
pub open spec fn command_of(t: Seq<u8>) -> Command {
    if t == seq![0x68u8, 0x65, 0x6c, 0x70] {
        Command::Help
    } else if t == seq![0x6du8, 0x65, 0x6d] {
        Command::Mem
    } else if t == seq![0x74u8, 0x68, 0x72, 0x65, 0x61, 0x64, 0x73] {
        Command::Threads
    } else if t == seq![0x75u8, 0x73, 0x65, 0x72, 0x73, 0x70, 0x61, 0x63, 0x65] {
        Command::Userspace
    } else if t == seq![0x74u8, 0x69, 0x63, 0x6b, 0x73] {
        Command::Ticks
    } else if t == seq![0x75u8, 0x70, 0x74, 0x69, 0x6d, 0x65] {
        Command::Uptime
    } else if t == seq![0x63u8, 0x72, 0x33] {
        Command::Cr3
    } else if t == seq![0x72u8, 0x65, 0x67, 0x73] {
        Command::Regs
    } else if t == seq![0x75u8, 0x73, 0x62] {
        Command::Usb
    } else if t == seq![0x63u8, 0x6c, 0x65, 0x61, 0x72] {
        Command::Clear
    } else if t == seq![0x70u8, 0x61, 0x6e, 0x69, 0x63] {
        Command::Panic
    } else if t.len() == 0 {
        Command::Empty
    } else {
        Command::Unknown
    }
}

fn ascii_ws(b: u8) -> (r: bool)
    ensures
        r == is_ascii_ws(b),
{
    b == 0x20 || b == 0x09 || b == 0x0a || b == 0x0c || b == 0x0d
}

/// Whether `line[a..b]` is the word `w`.
fn is_word(line: &[u8], a: usize, b: usize, w: &[u8]) -> (r: bool)
    requires
        a <= b <= line@.len(),
    ensures
        r == (line@.subrange(a as int, b as int) == w@),
{
    if b - a != w.len() {
        assert(line@.subrange(a as int, b as int).len() != w@.len());
        return false;
    }
    let mut k: usize = 0;
    while k < w.len()
        invariant
            a <= b <= line@.len(),
            b - a == w@.len(),
            k <= w@.len(),
            forall|j: int| 0 <= j < k ==> line@[a + j] == w@[j],
        decreases w@.len() - k,
    {
        if line[a + k] != w[k] {
            assert(line@.subrange(a as int, b as int)[k as int] != w@[k as int]);
            return false;
        }
        k = k + 1;
    }
    assert(line@.subrange(a as int, b as int) =~= w@);
    true
}

/// The bounds of the line without its surrounding white space.
fn trim_bounds(line: &[u8]) -> (r: (usize, usize))
    ensures
        r.0 == lead_end(line@, 0),
        r.1 == trail_start(line@, line@.len() as int),
        r.1 <= line@.len(),
{
    let mut a: usize = 0;
    while a < line.len() && ascii_ws(line[a])
        invariant
            a <= line@.len(),
            lead_end(line@, a as int) == lead_end(line@, 0),
        decreases line@.len() - a,
    {
        a = a + 1;
    }
    let mut b: usize = line.len();
    while b > 0 && ascii_ws(line[b - 1])
        invariant
            b <= line@.len(),
            trail_start(line@, b as int) == trail_start(line@, line@.len() as int),
        decreases b,
    {
        b = b - 1;
    }
    (a, b)
}

/// Decode an entered line: surrounding white space is ignored; a blank
/// line is `Empty`, a word the terminal does not know `Unknown`.
pub fn parse_cmd(line: &[u8]) -> (r: Command)
    ensures
        r == command_of(trim_ascii(line@)),
{
    let (a, b) = trim_bounds(line);
    if a >= b {
        assert(trim_ascii(line@) =~= Seq::<u8>::empty());
        return Command::Empty;
    }
    let ghost t = line@.subrange(a as int, b as int);
    assert(trim_ascii(line@) == t);
    let help: [u8; 4] = [0x68, 0x65, 0x6c, 0x70];
    let mem: [u8; 3] = [0x6d, 0x65, 0x6d];
    let threads: [u8; 7] = [0x74, 0x68, 0x72, 0x65, 0x61, 0x64, 0x73];
    let userspace: [u8; 9] = [0x75, 0x73, 0x65, 0x72, 0x73, 0x70, 0x61, 0x63, 0x65];
    let ticks: [u8; 5] = [0x74, 0x69, 0x63, 0x6b, 0x73];
    let uptime: [u8; 6] = [0x75, 0x70, 0x74, 0x69, 0x6d, 0x65];
    let cr3: [u8; 3] = [0x63, 0x72, 0x33];
    let regs: [u8; 4] = [0x72, 0x65, 0x67, 0x73];
    let usb: [u8; 3] = [0x75, 0x73, 0x62];
    let clear: [u8; 5] = [0x63, 0x6c, 0x65, 0x61, 0x72];
    let panic: [u8; 5] = [0x70, 0x61, 0x6e, 0x69, 0x63];
    assert(help@ =~= seq![0x68u8, 0x65, 0x6c, 0x70]);
    assert(mem@ =~= seq![0x6du8, 0x65, 0x6d]);
    assert(threads@ =~= seq![0x74u8, 0x68, 0x72, 0x65, 0x61, 0x64, 0x73]);
    assert(userspace@ =~= seq![0x75u8, 0x73, 0x65, 0x72, 0x73, 0x70, 0x61, 0x63, 0x65]);
    assert(ticks@ =~= seq![0x74u8, 0x69, 0x63, 0x6b, 0x73]);
    assert(uptime@ =~= seq![0x75u8, 0x70, 0x74, 0x69, 0x6d, 0x65]);
    assert(cr3@ =~= seq![0x63u8, 0x72, 0x33]);
    assert(regs@ =~= seq![0x72u8, 0x65, 0x67, 0x73]);
    assert(usb@ =~= seq![0x75u8, 0x73, 0x62]);
    assert(clear@ =~= seq![0x63u8, 0x6c, 0x65, 0x61, 0x72]);
    assert(panic@ =~= seq![0x70u8, 0x61, 0x6e, 0x69, 0x63]);
    if is_word(line, a, b, &help) {
        Command::Help
    } else if is_word(line, a, b, &mem) {
        Command::Mem
    } else if is_word(line, a, b, &threads) {
        Command::Threads
    } else if is_word(line, a, b, &userspace) {
        Command::Userspace
    } else if is_word(line, a, b, &ticks) {
        Command::Ticks
    } else if is_word(line, a, b, &uptime) {
        Command::Uptime
    } else if is_word(line, a, b, &cr3) {
        Command::Cr3
    } else if is_word(line, a, b, &regs) {
        Command::Regs
    } else if is_word(line, a, b, &usb) {
        Command::Usb
    } else if is_word(line, a, b, &clear) {
        Command::Clear
    } else if is_word(line, a, b, &panic) {
        Command::Panic
    } else {
        Command::Unknown
    }
}

/// What a typed character asks of the screen.
#[derive(Copy, Clone, PartialEq, Eq, Structural, Debug)]
pub enum KeyAction {
    /// The line was entered; it held this command and is now empty.
    Submit(Command),
    /// The last character was erased: step the cursor back over a blank.
    Erase,
    /// The character was added: show it.
    Echo(char),
    /// Nothing changes.
    Ignore,
}

/// The line being typed.
pub struct LineEditor {
    buf: Vec<u8>,
}

impl LineEditor {
    /// The bytes typed so far.
    pub closed spec fn line(&self) -> Seq<u8> {
        self.buf@
    }

    pub fn new() -> (r: Self)
        ensures
            r.line() == Seq::<u8>::empty(),
    {
        LineEditor { buf: Vec::new() }
    }

    /// The bytes typed so far.
    pub fn text(&self) -> (r: &[u8])
        ensures
            r@ == self.line(),
    {
        self.buf.as_slice()
    }

    /// Take one character: Enter or Return submits the line, Backspace
    /// erases the last character, a printable ASCII character is added
    /// while the line has room; anything else is ignored.
    pub fn handle_char(&mut self, c: char) -> (r: KeyAction)
        requires
            old(self).line().len() <= LINE_MAX,
        ensures
            final(self).line().len() <= LINE_MAX,
            c == '\n' || c == '\r' ==> r == KeyAction::Submit(command_of(trim_ascii(old(self).line())))
                && final(self).line() == Seq::<u8>::empty(),
            c == '\x08' && old(self).line().len() > 0 ==> r == KeyAction::Erase && final(self).line()
                == old(self).line().drop_last(),
            0x20 <= c as u32 && (c as u32) < 0x7f && old(self).line().len() < LINE_MAX ==> r
                == KeyAction::Echo(c) && final(self).line() == old(self).line().push(c as u8),
            !(c == '\n' || c == '\r') && !(c == '\x08' && old(self).line().len() > 0) && !(0x20 <= c as u32
                && (c as u32) < 0x7f && old(self).line().len() < LINE_MAX) ==> r == KeyAction::Ignore
                && final(self).line() == old(self).line(),
    {
        if c == '\n' || c == '\r' {
            let cmd = parse_cmd(self.buf.as_slice());
            self.buf = Vec::new();
            return KeyAction::Submit(cmd);
        }
        if c == '\x08' {
            if self.buf.len() > 0 {
                self.buf.pop();
                return KeyAction::Erase;
            }
            return KeyAction::Ignore;
        }
        let code = c as u32;
        if code >= 0x20 && code < 0x7f && self.buf.len() < LINE_MAX {
            self.buf.push(code as u8);
            assert(code as u8 == c as u8);
            return KeyAction::Echo(c);
        }
        KeyAction::Ignore
    }
}

/// Whole seconds since start-up for a tick count.
pub fn uptime_secs(tick: u64) -> (r: u64)
    ensures
        r == tick / TICKS_PER_SEC,
{
    tick / TICKS_PER_SEC
}

/// Whether a thread is alive and named `name` (the bytes before its
/// first NUL).
pub open spec fn alive_named(t: Thread, name: Seq<u8>) -> bool {
    t.state != TS::Dead && t.name@.subrange(0, t.name_end()) == name
}

/// First slot from `i` on that holds a live thread named `name`, or
/// `MAX_THREADS`.
pub open spec fn first_named_from(s: Seq<Thread>, name: Seq<u8>, i: int) -> int
    decreases MAX_THREADS - i,
{
    if i >= MAX_THREADS || alive_named(s[i], name) {
        i
    } else {
        first_named_from(s, name, i + 1)
    }
}

fn name_is(t: &Thread, name: &[u8]) -> (r: bool)
    ensures
        r == (t.name@.subrange(0, t.name_end()) == name@),
{
    let mut end: usize = 0;
    while end < 16 && t.name[end] != 0
        invariant
            end <= 16,
            crate::threading::first_zero_from(t.name@, end as int) == t.name_end(),
        decreases 16 - end,
    {
        end = end + 1;
    }
    is_word(&t.name, 0, end, name)
}

/// The first live thread named `name`.
pub fn find_named(th: &Threads, name: &[u8]) -> (r: Option<usize>)
    requires
        th.wf(),
    ensures
        r is None <==> first_named_from(th.t@, name@, 0) == MAX_THREADS,
        r matches Some(i) ==> i == first_named_from(th.t@, name@, 0) && i < MAX_THREADS,
{
    let mut i: usize = 0;
    while i < MAX_THREADS
        invariant
            th.wf(),
            i <= MAX_THREADS,
            first_named_from(th.t@, name@, i as int) == first_named_from(th.t@, name@, 0),
        decreases MAX_THREADS - i,
    {
        let t = &th.t[i];
        if t.state != TS::Dead && name_is(t, name) {
            return Some(i);
        }
        i = i + 1;
    }
    None
}

/// What the `userspace` command does.
#[derive(Copy, Clone, PartialEq, Eq, Structural, Debug)]
pub enum UserspaceAction {
    /// A thread of that name runs in this slot.
    Running(usize),
    /// Start a thread at this entry point.
    Launch(u64),
    /// No program was loaded.
    NotLoaded,
}

/// The name of the user program's thread.
pub open spec fn userspace_name() -> Seq<u8> {
    seq![0x75u8, 0x73, 0x65, 0x72, 0x73, 0x70, 0x61, 0x63, 0x65]
}

/// Decide the `userspace` command: report a running thread of that name,
/// else start one at the loaded entry point, if there is one (0: none).
pub fn userspace_action(th: &Threads, entry: u64) -> (r: UserspaceAction)
    requires
        th.wf(),
    ensures
        first_named_from(th.t@, userspace_name(), 0) < MAX_THREADS ==> r == UserspaceAction::Running(
            first_named_from(th.t@, userspace_name(), 0) as usize,
        ),
        first_named_from(th.t@, userspace_name(), 0) == MAX_THREADS ==> r == if entry != 0 {
            UserspaceAction::Launch(entry)
        } else {
            UserspaceAction::NotLoaded
        },
{
    let name: [u8; 9] = [0x75, 0x73, 0x65, 0x72, 0x73, 0x70, 0x61, 0x63, 0x65];
    assert(name@ =~= userspace_name());
    match find_named(th, &name) {
        Some(i) => UserspaceAction::Running(i),
        None => if entry != 0 {
            UserspaceAction::Launch(entry)
        } else {
            UserspaceAction::NotLoaded
        },
    }
}

// ── Replies ─────────────────────────────────────────────────────────────────

/// Colours of the terminal's replies.
pub const YELLOW: u8 = 0x0E;
pub const LGREEN: u8 = 0x0A;
pub const LCYAN: u8 = 0x0B;
pub const LRED: u8 = 0x0C;

/// A stretch of reply text and the colour it is written in (`None`: the
/// console's current colour).
pub struct Piece {
    pub color: Option<u8>,
    pub text: Vec<u8>,
}

/// A piece as plain values.
pub open spec fn piece_view(p: Piece) -> (Option<u8>, Seq<u8>) {
    (p.color, p.text@)
}

/// The plain text of a string literal.
pub open spec fn lit(s: &str) -> Seq<u8> {
    s.spec_bytes()
}

/// What the replies report that only the machine knows.
#[derive(Copy, Clone)]
pub struct Readings {
    pub free_kb: u64,
    pub used_kb: u64,
    pub total_kb: u64,
    pub tick: u64,
    pub rsp: u64,
    pub rbp: u64,
    pub cr3: u64,
    pub cr2: u64,
    pub rflags: u64,
    pub usb_ok: bool,
    pub hid_count: u64,
}

/// The help text below its title.
pub open spec fn help_body() -> Seq<u8> {
    lit("  help       - ta pomoc\n") + lit("  mem        - pamiec fizyczna\n") + lit("  threads    - lista watkow\n")
        + lit("  userspace  - uruchom/sprawdz userspace\n") + lit("  ticks      - licznik tickow\n") + lit(
        "  uptime     - czas pracy\n",
    ) + lit("  cr3        - aktualny CR3\n") + lit("  regs       - rejestry CPU\n") + lit("  usb        - status USB/HID\n")
        + lit("  clear      - wyczysc ekran\n") + lit("  panic      - test kernel panic\n")
}

/// The reply to a command whose trimmed text is `t`, after the line break
/// that ends the input; `threads` and `userspace` answer through their own
/// replies, `clear` and `panic` act without one.
pub open spec fn body_of(c: Command, t: Seq<u8>, r: Readings) -> Seq<(Option<u8>, Seq<u8>)> {
    match c {
        Command::Help => seq![(Some(YELLOW), lit("=== CosinusOS Kernel Terminal ===\n")), (None, help_body())],
        Command::Mem => seq![
            (Some(YELLOW), lit("=== Pamiec ===\n")),
            (
                None,
                lit("  Wolne: ") + dec_digits(r.free_kb as nat) + lit(" KB\n") + lit("  Uzyte: ") + dec_digits(
                    r.used_kb as nat,
                ) + lit(" KB\n") + lit("  Razem: ") + dec_digits(r.total_kb as nat) + lit(" KB\n"),
            ),
        ],
        Command::Ticks => seq![(None, lit("Ticks: ") + dec_digits(r.tick as nat) + lit("\n"))],
        Command::Uptime => seq![
            (
                None,
                lit("Uptime: ") + dec_digits((r.tick / TICKS_PER_SEC) as nat) + lit("s (") + dec_digits(r.tick as nat)
                    + lit(" ticks)\n"),
            ),
        ],
        Command::Cr3 => seq![(None, lit("CR3=") + hex16(r.cr3) + lit("\n"))],
        Command::Regs => seq![
            (Some(YELLOW), lit("=== Rejestry ===\n")),
            (
                None,
                lit("  RSP=") + hex16(r.rsp) + lit("  RBP=") + hex16(r.rbp) + lit("\n") + lit("  CR3=") + hex16(r.cr3)
                    + lit("  CR2=") + hex16(r.cr2) + lit("\n") + lit("  RFLAGS=") + hex16(r.rflags) + lit("\n"),
            ),
        ],
        Command::Usb => seq![
            (Some(YELLOW), lit("=== USB/HID ===\n")),
            (None, lit("  Kontroler: ")),
            if r.usb_ok { (Some(LGREEN), lit("OK\n")) } else { (Some(LRED), lit("brak\n")) },
            (None, lit("  HID devices: ") + dec_digits(r.hid_count as nat) + lit("\n")),
        ],
        Command::Unknown => seq![(Some(LRED), lit("Nieznana komenda: ")), (None, t + lit("\nWpisz 'help'\n"))],
        _ => seq![],
    }
}

/// The reply to an entered line whose trimmed text is `t`: a line break,
/// then what the command answers.
pub open spec fn reply_of(t: Seq<u8>, r: Readings) -> Seq<(Option<u8>, Seq<u8>)> {
    seq![(None::<u8>, lit("\n"))] + body_of(command_of(t), t, r)
}

/// The pieces as plain values.
pub open spec fn pieces_view(v: Seq<Piece>) -> Seq<(Option<u8>, Seq<u8>)> {
    v.map_values(|p: Piece| piece_view(p))
}

fn text_of(s: &str) -> (r: Vec<u8>)
    ensures
        r@ == lit(s),
{
    let mut v: Vec<u8> = Vec::new();
    put_str(&mut v, s);
    assert(v@ =~= lit(s));
    v
}

fn one(color: Option<u8>, text: Vec<u8>) -> (r: Vec<Piece>)
    ensures
        pieces_view(r@) == seq![(color, text@)],
{
    let mut v: Vec<Piece> = Vec::new();
    v.push(Piece { color, text });
    assert(pieces_view(v@) =~= seq![(color, text@)]);
    v
}

fn two(c1: Option<u8>, t1: Vec<u8>, c2: Option<u8>, t2: Vec<u8>) -> (r: Vec<Piece>)
    ensures
        pieces_view(r@) == seq![(c1, t1@), (c2, t2@)],
{
    let mut v: Vec<Piece> = Vec::new();
    v.push(Piece { color: c1, text: t1 });
    v.push(Piece { color: c2, text: t2 });
    assert(pieces_view(v@) =~= seq![(c1, t1@), (c2, t2@)]);
    v
}

fn help_reply() -> (out: Vec<Piece>)
    ensures
        pieces_view(out@) == body_of(Command::Help, Seq::empty(), arbitrary()),
{
    let mut b: Vec<u8> = Vec::new();
    put_str(&mut b, "  help       - ta pomoc\n");
    put_str(&mut b, "  mem        - pamiec fizyczna\n");
    put_str(&mut b, "  threads    - lista watkow\n");
    put_str(&mut b, "  userspace  - uruchom/sprawdz userspace\n");
    put_str(&mut b, "  ticks      - licznik tickow\n");
    put_str(&mut b, "  uptime     - czas pracy\n");
    put_str(&mut b, "  cr3        - aktualny CR3\n");
    put_str(&mut b, "  regs       - rejestry CPU\n");
    put_str(&mut b, "  usb        - status USB/HID\n");
    put_str(&mut b, "  clear      - wyczysc ekran\n");
    put_str(&mut b, "  panic      - test kernel panic\n");
    assert(b@ =~= help_body());
    two(Some(YELLOW), text_of("=== CosinusOS Kernel Terminal ===\n"), None, b)
}

fn mem_reply(r: &Readings) -> (out: Vec<Piece>)
    ensures
        pieces_view(out@) == body_of(Command::Mem, Seq::empty(), *r),
{
    let mut b: Vec<u8> = Vec::new();
    put_str(&mut b, "  Wolne: ");
    put_dec(&mut b, r.free_kb);
    put_str(&mut b, " KB\n");
    put_str(&mut b, "  Uzyte: ");
    put_dec(&mut b, r.used_kb);
    put_str(&mut b, " KB\n");
    put_str(&mut b, "  Razem: ");
    put_dec(&mut b, r.total_kb);
    put_str(&mut b, " KB\n");
    assert(b@ =~= lit("  Wolne: ") + dec_digits(r.free_kb as nat) + lit(" KB\n") + lit("  Uzyte: ") + dec_digits(
        r.used_kb as nat,
    ) + lit(" KB\n") + lit("  Razem: ") + dec_digits(r.total_kb as nat) + lit(" KB\n"));
    two(Some(YELLOW), text_of("=== Pamiec ===\n"), None, b)
}

fn ticks_reply(r: &Readings) -> (out: Vec<Piece>)
    ensures
        pieces_view(out@) == body_of(Command::Ticks, Seq::empty(), *r),
{
    let mut b: Vec<u8> = Vec::new();
    put_str(&mut b, "Ticks: ");
    put_dec(&mut b, r.tick);
    put_str(&mut b, "\n");
    assert(b@ =~= lit("Ticks: ") + dec_digits(r.tick as nat) + lit("\n"));
    one(None, b)
}

fn uptime_reply(r: &Readings) -> (out: Vec<Piece>)
    ensures
        pieces_view(out@) == body_of(Command::Uptime, Seq::empty(), *r),
{
    let mut b: Vec<u8> = Vec::new();
    put_str(&mut b, "Uptime: ");
    put_dec(&mut b, uptime_secs(r.tick));
    put_str(&mut b, "s (");
    put_dec(&mut b, r.tick);
    put_str(&mut b, " ticks)\n");
    assert(b@ =~= lit("Uptime: ") + dec_digits((r.tick / TICKS_PER_SEC) as nat) + lit("s (") + dec_digits(
        r.tick as nat,
    ) + lit(" ticks)\n"));
    one(None, b)
}

fn cr3_reply(r: &Readings) -> (out: Vec<Piece>)
    ensures
        pieces_view(out@) == body_of(Command::Cr3, Seq::empty(), *r),
{
    let mut b: Vec<u8> = Vec::new();
    put_str(&mut b, "CR3=");
    put_hex(&mut b, r.cr3);
    put_str(&mut b, "\n");
    assert(b@ =~= lit("CR3=") + hex16(r.cr3) + lit("\n"));
    one(None, b)
}

fn regs_reply(r: &Readings) -> (out: Vec<Piece>)
    ensures
        pieces_view(out@) == body_of(Command::Regs, Seq::empty(), *r),
{
    let mut b: Vec<u8> = Vec::new();
    put_str(&mut b, "  RSP=");
    put_hex(&mut b, r.rsp);
    put_str(&mut b, "  RBP=");
    put_hex(&mut b, r.rbp);
    put_str(&mut b, "\n");
    put_str(&mut b, "  CR3=");
    put_hex(&mut b, r.cr3);
    put_str(&mut b, "  CR2=");
    put_hex(&mut b, r.cr2);
    put_str(&mut b, "\n");
    put_str(&mut b, "  RFLAGS=");
    put_hex(&mut b, r.rflags);
    put_str(&mut b, "\n");
    assert(b@ =~= lit("  RSP=") + hex16(r.rsp) + lit("  RBP=") + hex16(r.rbp) + lit("\n") + lit("  CR3=") + hex16(
        r.cr3,
    ) + lit("  CR2=") + hex16(r.cr2) + lit("\n") + lit("  RFLAGS=") + hex16(r.rflags) + lit("\n"));
    two(Some(YELLOW), text_of("=== Rejestry ===\n"), None, b)
}

fn usb_reply(r: &Readings) -> (out: Vec<Piece>)
    ensures
        pieces_view(out@) == body_of(Command::Usb, Seq::empty(), *r),
{
    let mut b: Vec<u8> = Vec::new();
    put_str(&mut b, "  HID devices: ");
    put_dec(&mut b, r.hid_count);
    put_str(&mut b, "\n");
    let (sc, st) = if r.usb_ok {
        (Some(LGREEN), text_of("OK\n"))
    } else {
        (Some(LRED), text_of("brak\n"))
    };
    let ghost stv = st@;
    let ghost bv = b@;
    let mut out: Vec<Piece> = Vec::new();
    out.push(Piece { color: Some(YELLOW), text: text_of("=== USB/HID ===\n") });
    out.push(Piece { color: None, text: text_of("  Kontroler: ") });
    out.push(Piece { color: sc, text: st });
    out.push(Piece { color: None, text: b });
    assert(bv =~= lit("  HID devices: ") + dec_digits(r.hid_count as nat) + lit("\n"));
    assert(pieces_view(out@) =~= seq![
        (Some(YELLOW), lit("=== USB/HID ===\n")),
        (None, lit("  Kontroler: ")),
        (sc, stv),
        (None, bv),
    ]);
    out
}

fn unknown_reply(line: &[u8]) -> (out: Vec<Piece>)
    ensures
        pieces_view(out@) == body_of(Command::Unknown, trim_ascii(line@), arbitrary()),
{
    let (a, e) = trim_bounds(line);
    let mut b: Vec<u8> = Vec::new();
    if a < e {
        put_bytes(&mut b, &line[a..e]);
    }
    put_str(&mut b, "\nWpisz 'help'\n");
    assert(b@ =~= trim_ascii(line@) + lit("\nWpisz 'help'\n"));
    two(Some(LRED), text_of("Nieznana komenda: "), None, b)
}

/// The reply to the entered line `line`, as pieces of coloured text.
pub fn reply(line: &[u8], r: &Readings) -> (out: Vec<Piece>)
    ensures
        pieces_view(out@) == reply_of(trim_ascii(line@), *r),
{
    let cmd = parse_cmd(line);
    let mut body: Vec<Piece> = match cmd {
        Command::Help => help_reply(),
        Command::Mem => mem_reply(r),
        Command::Ticks => ticks_reply(r),
        Command::Uptime => uptime_reply(r),
        Command::Cr3 => cr3_reply(r),
        Command::Regs => regs_reply(r),
        Command::Usb => usb_reply(r),
        Command::Unknown => unknown_reply(line),
        _ => Vec::new(),
    };
    let ghost bv = body@;
    assert(pieces_view(bv) == body_of(cmd, trim_ascii(line@), *r));
    let mut out = one(None, text_of("\n"));
    let ghost ov = out@;
    out.append(&mut body);
    assert(pieces_view(out@) =~= pieces_view(ov) + pieces_view(bv));
    out
}

/// How a thread's state is shown, and in which colour.
pub open spec fn state_label(st: TS) -> (Option<u8>, Seq<u8>) {
    match st {
        TS::Run => (Some(LGREEN), lit(" RUN  ")),
        TS::Ready => (Some(LCYAN), lit(" READY")),
        TS::Block => (Some(YELLOW), lit(" BLOCK")),
        TS::Dead => (Some(0x08u8), lit(" DEAD ")),
    }
}

/// The listing line of the live thread in slot `i`: a mark for the
/// current one, its slot, name, state and tick count.
pub open spec fn thread_line(t: Thread, i: int, cur: int) -> Seq<(Option<u8>, Seq<u8>)> {
    seq![
        (
            None,
            (if i == cur { lit("  * #") } else { lit("    #") }) + dec_digits(i as nat) + lit(" ") + t.name@.subrange(
                0,
                t.name_end(),
            ),
        ),
        state_label(t.state),
        (None, lit(" ticks=") + dec_digits(t.ticks as nat) + lit("\n")),
    ]
}

/// The listing lines of the live threads among the first `n` slots.
pub open spec fn thread_lines(s: Seq<Thread>, cur: int, n: int) -> Seq<(Option<u8>, Seq<u8>)>
    decreases n,
{
    if n <= 0 {
        Seq::empty()
    } else if s[n - 1].state == TS::Dead {
        thread_lines(s, cur, n - 1)
    } else {
        thread_lines(s, cur, n - 1) + thread_line(s[n - 1], n - 1, cur)
    }
}

/// The reply to `threads`: a title and a line for each live thread.
pub fn threads_reply(th: &Threads) -> (out: Vec<Piece>)
    requires
        th.wf(),
    ensures
        pieces_view(out@) == seq![(Some(YELLOW), lit("=== Watki ===\n"))] + thread_lines(th.t@, th.cur as int, MAX_THREADS as int),
{
    let mut out = one(Some(YELLOW), text_of("=== Watki ===\n"));
    let ghost head = pieces_view(out@);
    let mut i: usize = 0;
    while i < MAX_THREADS
        invariant
            th.wf(),
            i <= MAX_THREADS,
            head == seq![(Some(YELLOW), lit("=== Watki ===\n"))],
            pieces_view(out@) == head + thread_lines(th.t@, th.cur as int, i as int),
        decreases MAX_THREADS - i,
    {
        let t = th.t[i];
        if t.state != TS::Dead {
            let mut b: Vec<u8> = Vec::new();
            if i == th.cur {
                put_str(&mut b, "  * #");
            } else {
                put_str(&mut b, "    #");
            }
            put_dec(&mut b, i as u64);
            put_str(&mut b, " ");
            let end = first_zero(&t.name);
            put_bytes(&mut b, &t.name[0..end]);
            let (sc, st) = match t.state {
                TS::Run => (Some(LGREEN), text_of(" RUN  ")),
                TS::Ready => (Some(LCYAN), text_of(" READY")),
                TS::Block => (Some(YELLOW), text_of(" BLOCK")),
                TS::Dead => (Some(0x08u8), text_of(" DEAD ")),
            };
            let mut c: Vec<u8> = Vec::new();
            put_str(&mut c, " ticks=");
            put_dec(&mut c, t.ticks);
            put_str(&mut c, "\n");
            let ghost bv = b@;
            let ghost stv = st@;
            let ghost cv = c@;
            let ghost before = out@;
            out.push(Piece { color: None, text: b });
            out.push(Piece { color: sc, text: st });
            out.push(Piece { color: None, text: c });
            proof {
                assert(bv =~= (if i == th.cur { lit("  * #") } else { lit("    #") }) + dec_digits(i as nat) + lit(" ")
                    + t.name@.subrange(0, t.name_end()));
                assert(cv =~= lit(" ticks=") + dec_digits(t.ticks as nat) + lit("\n"));
                assert((sc, stv) == state_label(t.state));
                assert(pieces_view(out@) =~= pieces_view(before) + thread_line(t, i as int, th.cur as int));
            }
        }
        i = i + 1;
    }
    out
}

/// The reply to `userspace` before anything is started: the thread that
/// runs it, the entry point about to be started, or that nothing is loaded.
pub open spec fn userspace_text(a: UserspaceAction) -> Seq<(Option<u8>, Seq<u8>)> {
    match a {
        UserspaceAction::Running(i) => seq![
            (Some(LGREEN), lit("Userspace dziala jako watek #")),
            (None, dec_digits(i as nat) + lit("\n")),
        ],
        UserspaceAction::Launch(entry) => seq![
            (Some(LCYAN), lit("Uruchamiam userspace @ ")),
            (None, hex16(entry) + lit("\n")),
        ],
        UserspaceAction::NotLoaded => seq![(Some(LRED), lit("Brak zaladowanego userspace\n"))],
    }
}

/// How a start of the user program ended: the new thread's slot, or no
/// free slot (a negative `tid`).
pub open spec fn spawn_text(tid: i32) -> Seq<(Option<u8>, Seq<u8>)> {
    if tid >= 0 {
        seq![(Some(LGREEN), lit("  Watek #")), (None, dec_digits(tid as nat) + lit(" OK\n"))]
    } else {
        seq![(Some(LRED), lit("  Brak slotow!\n"))]
    }
}

/// The reply to `userspace` for the decision `a`.
pub fn userspace_reply(a: UserspaceAction) -> (out: Vec<Piece>)
    ensures
        pieces_view(out@) == userspace_text(a),
{
    match a {
        UserspaceAction::Running(i) => {
            let mut b: Vec<u8> = Vec::new();
            put_dec(&mut b, i as u64);
            put_str(&mut b, "\n");
            assert(b@ =~= dec_digits(i as nat) + lit("\n"));
            two(Some(LGREEN), text_of("Userspace dziala jako watek #"), None, b)
        },
        UserspaceAction::Launch(entry) => {
            let mut b: Vec<u8> = Vec::new();
            put_hex(&mut b, entry);
            put_str(&mut b, "\n");
            assert(b@ =~= hex16(entry) + lit("\n"));
            two(Some(LCYAN), text_of("Uruchamiam userspace @ "), None, b)
        },
        UserspaceAction::NotLoaded => one(Some(LRED), text_of("Brak zaladowanego userspace\n")),
    }
}

/// The reply after starting the user program as thread `tid` (negative:
/// no free slot).
pub fn spawn_reply(tid: i32) -> (out: Vec<Piece>)
    ensures
        pieces_view(out@) == spawn_text(tid),
{
    if tid >= 0 {
        let mut b: Vec<u8> = Vec::new();
        put_dec(&mut b, tid as u64);
        put_str(&mut b, " OK\n");
        assert(b@ =~= dec_digits(tid as nat) + lit(" OK\n"));
        two(Some(LGREEN), text_of("  Watek #"), None, b)
    } else {
        one(Some(LRED), text_of("  Brak slotow!\n"))
    }
}

} // verus!
