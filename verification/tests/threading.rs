use lib::input::{kbd_reply, ps2_config, sc1_char, Input, KbdReply};
use lib::ipc::{IpcQueues, MsgQueue, RecvStep};
use lib::kterminal::{
    find_named, parse_cmd, reply, spawn_reply, threads_reply, uptime_secs, userspace_action, userspace_reply, Command,
    KeyAction, LineEditor, Piece, Readings, UserspaceAction, LGREEN, LRED,
};
use lib::syscall_api::err;
use lib::syscall_api::IpcMsg;
use lib::threading::{
    init_thread_stack, kernel_stack_base, set_name, user_stack_base, SchedAction, Thread, Threads, KERNEL_STACK_SIZE, TS,
    USER_STACK_SIZE,
};

const K_P4: u64 = 0x9000;

fn table() -> Threads {
    let mut th = Threads::new();
    let (i, w) = th.spawn_k("idle", 0x1000, 7, K_P4, 0x2000);
    assert_eq!(i, 0);
    assert_eq!(w.len(), 7);
    th
}

// ── Threads ──────────────────────────────────────────────────────────────────

#[test]
fn stack_bases() {
    assert_eq!(kernel_stack_base(0), 0x0200_1000);
    assert_eq!(kernel_stack_base(1), 0x0200_1000 + 0x9000);
    assert_eq!(user_stack_base(1), 0x0400_6000);
}

#[test]
fn new_thread_is_dead_slot() {
    let t = Thread::new();
    assert!(t.state == TS::Dead);
    assert_eq!(t.prio, 10);
    assert_eq!(t.cwd[0], b'/');
    assert_eq!(t.cwd[1], 0);
    assert_eq!(t.name_str(), "");
}

#[test]
fn set_name_truncates_to_fifteen_bytes() {
    let mut t = Thread::new();
    set_name(&mut t, "kterminal");
    assert_eq!(t.name_str(), "kterminal");
    set_name(&mut t, "a-very-long-thread-name");
    assert_eq!(t.name_str(), "a-very-long-thr");
}

#[test]
fn initial_frames() {
    let mut t = Thread::new();
    let w = init_thread_stack(&mut t, 0x10_0000, 0x20_0000, 0x401000, 9, true, 0x3000, 0x4000);
    assert_eq!(w, vec![0x23, 0x20_0000, 0x202, 0x1B, 0x401000, 0x3000, 0, 0, 0, 0x20_0000, 0x401000, 9]);
    assert_eq!(t.krsp, 0x10_0000 - 8 * 12);
    let w = init_thread_stack(&mut t, 0x10_0000, 0x10_0000, 0x1000, 1, false, 0x3000, 0x4000);
    assert_eq!(w, vec![0x4000, 0, 0, 0, 0x10_0000, 0x1000, 1]);
    assert_eq!(t.krsp, 0x10_0000 - 8 * 7);
}

#[test]
fn spawn_kernel_thread() {
    let th = table();
    let t = &th.t[0];
    assert!(t.state == TS::Ready);
    assert_eq!(t.prio, 10);
    assert_eq!(t.cr3, K_P4);
    assert_eq!(t.ktop, kernel_stack_base(0) + KERNEL_STACK_SIZE as u64);
    assert_eq!(t.name_str(), "idle");
    assert_eq!(th.nthreads, 1);
    assert_eq!(th.find_dead(), Some(1));
}

#[test]
fn spawn_user_thread() {
    let mut th = table();
    let (i, w) = th.spawn_user_on_cr3("userspace", 0x40_0000, 3, 0x5000, 0x3000);
    assert_eq!(i, 1);
    assert_eq!(w.len(), 12);
    assert_eq!(w[0], 0x23);
    let t = &th.t[1];
    assert_eq!(t.prio, 5);
    assert_eq!(t.cr3, 0x5000);
    assert_eq!(t.utop, user_stack_base(1) + USER_STACK_SIZE as u64);
    assert_eq!(th.nthreads, 2);
}

#[test]
fn spawn_fails_when_full() {
    let mut th = Threads::new();
    for _ in 0..64 {
        th.spawn_k("w", 0x1000, 0, K_P4, 0x2000);
    }
    let (i, w) = th.spawn_k("x", 0x1000, 0, K_P4, 0x2000);
    assert_eq!(i, -1);
    assert!(w.is_empty());
    assert_eq!(th.find_dead(), None);
}

#[test]
fn schedule_round_robin() {
    let mut th = table();
    th.spawn_user_on_cr3("u", 0x40_0000, 0, 0x5000, 0x3000);
    let a = th.schedule(1, K_P4);
    assert_eq!(a, SchedAction::Switch { cur: 0, next: 1, kernel_rsp0: false, user: true });
    assert!(th.t[1].state == TS::Run);
    assert_eq!(th.t[1].ticks, 1);
    let b = th.schedule(2, K_P4);
    assert_eq!(b, SchedAction::Switch { cur: 1, next: 0, kernel_rsp0: true, user: false });
    assert!(th.t[1].state == TS::Ready);
    assert_eq!(th.cur, 0);
}

#[test]
fn schedule_stays_alone_and_wakes_sleepers() {
    let mut th = table();
    th.spawn_k("sleeper", 0x1000, 0, K_P4, 0x2000);
    th.schedule(1, K_P4);
    assert_eq!(th.cur, 1);
    th.schedule(2, K_P4);
    assert_eq!(th.cur, 0);
    th.t[1].state = TS::Block;
    th.t[1].wake_tick = 50;
    assert_eq!(th.schedule(49, K_P4), SchedAction::Stay);
    assert!(th.t[1].state == TS::Block);
    let s = th.schedule(50, K_P4);
    assert_eq!(s, SchedAction::Switch { cur: 0, next: 1, kernel_rsp0: true, user: false });
    assert_eq!(th.t[1].wake_tick, 0);
}

#[test]
fn schedule_prefers_lower_priority_value() {
    let mut th = table();
    th.t[0].state = TS::Run;
    th.spawn_k("k", 0x1000, 0, K_P4, 0x2000);
    th.spawn_user_on_cr3("u", 0x40_0000, 0, 0x5000, 0x3000);
    assert_eq!(th.t[1].prio, 10);
    assert_eq!(th.t[2].prio, 5);
    let a = th.schedule(1, K_P4);
    assert_eq!(a, SchedAction::Switch { cur: 0, next: 2, kernel_rsp0: false, user: true });
    assert!(th.t[0].state == TS::Ready);
    // Slots 0 and 1 share priority 10: the first one after slot 2, cyclically, wins.
    let b = th.schedule(2, K_P4);
    assert_eq!(b, SchedAction::Switch { cur: 2, next: 0, kernel_rsp0: true, user: false });
    let c = th.schedule(3, K_P4);
    assert_eq!(c, SchedAction::Switch { cur: 0, next: 2, kernel_rsp0: false, user: true });
}

#[test]
fn jump_pick_takes_best_priority() {
    let mut th = table();
    th.spawn_user_on_cr3("u", 0x40_0000, 0, 0x5000, 0x3000);
    let best = th.jump_pick();
    assert_eq!(best, 1);
    assert!(th.t[1].state == TS::Run);
    assert_eq!(th.cur, 1);
}

#[test]
fn exit_current_kills_the_thread() {
    let mut th = table();
    th.exit_current();
    assert!(th.t[0].state == TS::Dead);
    assert_eq!(th.nthreads, 0);
    assert_eq!(th.find_dead(), Some(0));
}

// ── IPC ──────────────────────────────────────────────────────────────────────

fn msg(to: u32, tag: u32) -> IpcMsg {
    IpcMsg { from: 99, to, tag, _pad: 5, data: [1, 2, 3, 4], ptr: 0, len: 0, _pad2: 6 }
}

#[test]
fn queue_is_fifo() {
    let mut q = MsgQueue::new();
    assert!(q.is_empty());
    assert!(q.push(&msg(1, 10)));
    assert!(q.push(&msg(1, 11)));
    assert_eq!(q.len(), 2);
    assert_eq!(q.pop().unwrap().tag, 10);
    let m = q.pop().unwrap();
    assert_eq!(m.tag, 11);
    assert_eq!(m._pad, 0);
    assert!(q.pop().is_none());
}

#[test]
fn queue_holds_fifteen() {
    let mut q = MsgQueue::new();
    for i in 0..15 {
        assert!(q.push(&msg(0, i)));
    }
    assert!(q.is_full());
    assert!(!q.push(&msg(0, 99)));
    assert_eq!(q.len(), 15);
}

#[test]
fn send_and_receive() {
    let mut th = table();
    th.spawn_k("peer", 0x1000, 0, K_P4, 0x2000);
    let mut q = IpcQueues::new();
    assert_eq!(q.sys_ipc_send(&mut th, true, &msg(1, 42)), err::OK);
    assert!(q.k_has_msgs(1));
    assert!(!q.k_has_msgs(0));
    th.cur = 1;
    assert_eq!(q.sys_ipc_poll(&th), 1);
    match q.sys_ipc_recv_step(&mut th, true, false) {
        RecvStep::Got(m) => {
            assert_eq!(m.tag, 42);
            assert_eq!(m.from, 0);
            assert_eq!(m.data, [1, 2, 3, 4]);
        },
        _ => panic!("expected a message"),
    }
    assert_eq!(q.sys_ipc_poll(&th), 0);
}

#[test]
fn send_errors() {
    let mut th = table();
    let mut q = IpcQueues::new();
    assert_eq!(q.sys_ipc_send(&mut th, false, &msg(0, 1)), err::FAULT);
    assert_eq!(q.sys_ipc_send(&mut th, true, &msg(64, 1)), err::INVAL);
    assert_eq!(q.sys_ipc_send(&mut th, true, &msg(5, 1)), err::INVAL);
    for i in 0..15 {
        assert_eq!(q.sys_ipc_send(&mut th, true, &msg(0, i)), err::OK);
    }
    assert_eq!(q.sys_ipc_send(&mut th, true, &msg(0, 15)), err::AGAIN);
}

#[test]
fn receive_empty_blocks_or_fails() {
    let mut th = table();
    let mut q = IpcQueues::new();
    assert!(matches!(q.sys_ipc_recv_step(&mut th, false, true), RecvStep::Fail(e) if e == err::FAULT));
    assert!(matches!(q.sys_ipc_recv_step(&mut th, true, false), RecvStep::Fail(e) if e == err::AGAIN));
    assert!(matches!(q.sys_ipc_recv_step(&mut th, true, true), RecvStep::Blocked));
    assert!(th.t[0].state == TS::Block);
    // A message for a blocked thread makes it ready.
    assert!(q.k_send(&mut th, 0, 7, [0; 4]));
    assert!(th.t[0].state == TS::Ready);
    assert!(!q.k_send(&mut th, 9, 7, [0; 4]));
}

// ── Keyboard ─────────────────────────────────────────────────────────────────

#[test]
fn scan_code_table() {
    assert_eq!(sc1_char(0x1E, false), b'a');
    assert_eq!(sc1_char(0x1E, true), b'A');
    assert_eq!(sc1_char(0x02, true), b'!');
    assert_eq!(sc1_char(0x39, false), b' ');
    assert_eq!(sc1_char(0x1D, false), 0);
}

#[test]
fn keyboard_types_and_shifts() {
    let mut k = Input::new();
    k.kbd_scancode(0x23); // h
    k.kbd_scancode(0x2A); // shift down
    k.kbd_scancode(0x17); // I
    k.kbd_scancode(0xAA); // shift up
    k.kbd_scancode(0x97); // release of i: ignored
    k.kbd_scancode(0x02); // 1
    assert_eq!(k.input_poll(), Some('h'));
    assert_eq!(k.input_poll(), Some('I'));
    assert_eq!(k.input_poll(), Some('1'));
    assert_eq!(k.input_poll(), None);
}

#[test]
fn keyboard_ctrl_letters() {
    let mut k = Input::new();
    k.kbd_scancode(0x1D); // ctrl down
    k.kbd_scancode(0x2E); // c
    k.kbd_scancode(0x02); // 1: no letter, typed as is
    k.kbd_scancode(0x9D); // ctrl up
    k.kbd_scancode(0x2E);
    assert_eq!(k.input_poll(), Some('\u{3}'));
    assert_eq!(k.input_poll(), Some('1'));
    assert_eq!(k.input_poll(), Some('c'));
}

#[test]
fn keyboard_ring_drops_when_full() {
    let mut k = Input::new();
    for _ in 0..70 {
        k.input_push('x');
    }
    let mut n = 0;
    while k.input_poll().is_some() {
        n += 1;
    }
    assert_eq!(n, 63);
}

#[test]
fn ps2_helpers() {
    assert_eq!(ps2_config(0x00), 0x41);
    assert_eq!(ps2_config(0xFF), 0xFD);
    assert_eq!(kbd_reply(0xFA), KbdReply::Ack);
    assert_eq!(kbd_reply(0xFE), KbdReply::Resend);
    assert_eq!(kbd_reply(0x00), KbdReply::Other);
}

// ── Terminal ─────────────────────────────────────────────────────────────────

#[test]
fn parse_commands() {
    assert_eq!(parse_cmd(b"help"), Command::Help);
    assert_eq!(parse_cmd(b"  mem \t"), Command::Mem);
    assert_eq!(parse_cmd(b"threads"), Command::Threads);
    assert_eq!(parse_cmd(b"userspace\r\n"), Command::Userspace);
    assert_eq!(parse_cmd(b"uptime"), Command::Uptime);
    assert_eq!(parse_cmd(b"clear"), Command::Clear);
    assert_eq!(parse_cmd(b""), Command::Empty);
    assert_eq!(parse_cmd(b"   "), Command::Empty);
    assert_eq!(parse_cmd(b"hel p"), Command::Unknown);
    assert_eq!(parse_cmd(b"HELP"), Command::Unknown);
}

#[test]
fn line_editor() {
    let mut ed = LineEditor::new();
    assert_eq!(ed.handle_char('m'), KeyAction::Echo('m'));
    assert_eq!(ed.handle_char('e'), KeyAction::Echo('e'));
    assert_eq!(ed.handle_char('x'), KeyAction::Echo('x'));
    assert_eq!(ed.handle_char('\x08'), KeyAction::Erase);
    assert_eq!(ed.handle_char('m'), KeyAction::Echo('m'));
    assert_eq!(ed.handle_char('\u{1}'), KeyAction::Ignore);
    assert_eq!(ed.handle_char('\n'), KeyAction::Submit(Command::Mem));
    assert_eq!(ed.handle_char('\r'), KeyAction::Submit(Command::Empty));
    assert_eq!(ed.handle_char('\x08'), KeyAction::Ignore);
}

#[test]
fn line_editor_holds_255() {
    let mut ed = LineEditor::new();
    for _ in 0..255 {
        assert_eq!(ed.handle_char('a'), KeyAction::Echo('a'));
    }
    assert_eq!(ed.handle_char('a'), KeyAction::Ignore);
    assert_eq!(ed.handle_char('\n'), KeyAction::Submit(Command::Unknown));
}

#[test]
fn uptime_and_userspace() {
    assert_eq!(uptime_secs(250), 2);
    let mut th = table();
    assert_eq!(userspace_action(&th, 0), UserspaceAction::NotLoaded);
    assert_eq!(userspace_action(&th, 0x40_0000), UserspaceAction::Launch(0x40_0000));
    th.spawn_user_on_cr3("userspace", 0x40_0000, 0, 0x5000, 0x3000);
    assert_eq!(userspace_action(&th, 0x40_0000), UserspaceAction::Running(1));
    assert_eq!(find_named(&th, b"idle"), Some(0));
    assert_eq!(find_named(&th, b"user"), None);
    th.t[1].state = TS::Dead;
    assert_eq!(find_named(&th, b"userspace"), None);
}

// ── Terminal replies ─────────────────────────────────────────────────────────

fn readings() -> Readings {
    Readings {
        free_kb: 1024,
        used_kb: 512,
        total_kb: 1536,
        tick: 12345,
        rsp: 0x1000,
        rbp: 0x2000,
        cr3: 0x9000,
        cr2: 0,
        rflags: 0x202,
        usb_ok: false,
        hid_count: 0,
    }
}

fn flat(p: &[Piece]) -> String {
    p.iter().map(|x| String::from_utf8(x.text.clone()).unwrap()).collect()
}

#[test]
fn reply_to_unknown_command() {
    let r = reply(b"  foo ", &readings());
    assert_eq!(flat(&r), "\nNieznana komenda: foo\nWpisz 'help'\n");
    assert_eq!(r[1].color, Some(LRED));
    assert_eq!(r[2].color, None);
}

#[test]
fn reply_to_numbers() {
    assert_eq!(flat(&reply(b"uptime", &readings())), "\nUptime: 123s (12345 ticks)\n");
    assert_eq!(flat(&reply(b"ticks", &readings())), "\nTicks: 12345\n");
    assert_eq!(flat(&reply(b"mem", &readings())), "\n=== Pamiec ===\n  Wolne: 1024 KB\n  Uzyte: 512 KB\n  Razem: 1536 KB\n");
    assert_eq!(flat(&reply(b"cr3", &readings())), "\nCR3=0x0000000000009000\n");
    assert_eq!(flat(&reply(b"usb", &readings())), "\n=== USB/HID ===\n  Kontroler: brak\n  HID devices: 0\n");
    assert_eq!(flat(&reply(b"", &readings())), "\n");
    let help = flat(&reply(b"help", &readings()));
    assert!(help.starts_with("\n=== CosinusOS Kernel Terminal ===\n  help       - ta pomoc\n"));
    assert!(help.ends_with("  panic      - test kernel panic\n"));
}

#[test]
fn reply_listing_threads() {
    let mut th = table();
    th.t[0].state = TS::Run;
    th.spawn_k("kterminal", 0x1000, 0, K_P4, 0x2000);
    let out = threads_reply(&th);
    assert_eq!(
        flat(&out),
        "=== Watki ===\n  * #0 idle RUN   ticks=0\n    #1 kterminal READY ticks=0\n"
    );
    assert_eq!(out[2].color, Some(LGREEN));
    assert_eq!(flat(&userspace_reply(UserspaceAction::NotLoaded)), "Brak zaladowanego userspace\n");
    assert_eq!(flat(&userspace_reply(UserspaceAction::Running(3))), "Userspace dziala jako watek #3\n");
    assert_eq!(flat(&spawn_reply(4)), "  Watek #4 OK\n");
    assert_eq!(flat(&spawn_reply(-1)), "  Brak slotow!\n");
}
