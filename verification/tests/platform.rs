use lib::arch::{gdt_entries, phys_to_virt, pit_divisor, virt_to_phys, GdtE, IdtE, Tss, PHYS_OFFSET, TF, TSS_SIZE};
use lib::console::{attr, hex_str, num_str, u64_hex, usize_str, Console, TabStyle, CELLS, VGA_W, WHITE};
use lib::devspace::{
    drive_bits, poll_bsy_step, poll_drq_step, sector_addr, setup_lba28, AtaDriver, DiskRequestType, DiskResponse,
};
use lib::input::Input;
use lib::mm::pmm::Pmm;
use lib::mm::PAGE_SIZE;
use lib::root_policy::PolicyEngine;
use lib::syscall_api::{err, nr};
use lib::syscalls::{
    fb_layout, handler_for, read_keys, set_result, sys_debug_print_check, sys_exit, sys_read_check, sys_sleep,
    sys_thread_id, sys_time, sys_write_check, syscall_dispatch_v2, Handler, Transfer, FB_USER_VADDR,
};
use lib::threading::{Threads, TS};
use lib::vmm::tables::TableMem;
use lib::vmm::{PTE_U, PTE_W};

// ── Console ──────────────────────────────────────────────────────────────────

fn blank() -> u16 {
    (u16::from(WHITE) << 8) | 0x20
}

#[test]
fn console_starts_blank() {
    let c = Console::new();
    assert_eq!(c.cursor_pos(), 0);
    assert_eq!(c.color(), WHITE);
    assert_eq!(c.cell_at(0), blank());
    assert_eq!(c.cell_at(CELLS - 1), blank());
}

#[test]
fn console_put_shows_and_advances() {
    let mut c = Console::new();
    c.put('A', TabStyle::Kernel);
    assert_eq!(c.cell_at(0), 0x0F41);
    assert_eq!(c.cursor_pos(), 1);
    c.set_col(attr(4, 1));
    c.put('b', TabStyle::Kernel);
    assert_eq!(c.cell_at(1), 0x1462);
}

#[test]
fn console_control_characters() {
    let mut c = Console::new();
    c.put('x', TabStyle::Kernel);
    c.put('\t', TabStyle::Kernel);
    assert_eq!(c.cursor_pos(), 8);
    c.put('\n', TabStyle::Kernel);
    assert_eq!(c.cursor_pos(), VGA_W as u16);
    c.put('y', TabStyle::Kernel);
    c.put('\r', TabStyle::Kernel);
    assert_eq!(c.cursor_pos(), VGA_W as u16);
    let mut b = Console::new();
    b.put('x', TabStyle::Boot);
    b.put('\t', TabStyle::Boot);
    assert_eq!(b.cursor_pos(), 4);
}

#[test]
fn console_backspace_styles() {
    let mut c = Console::new();
    c.put('q', TabStyle::Kernel);
    c.put('\x08', TabStyle::Kernel);
    assert_eq!(c.cursor_pos(), 0);
    assert_eq!(c.cell_at(0), blank());
    let mut b = Console::new();
    b.put('q', TabStyle::Boot);
    b.put('\x08', TabStyle::Boot);
    assert_eq!(b.cursor_pos(), 0);
    assert_eq!(b.cell_at(0), 0x0F71);
    // Nothing happens at the first column.
    b.put('\x08', TabStyle::Boot);
    assert_eq!(b.cursor_pos(), 0);
}

#[test]
fn console_wide_character_styles() {
    let mut c = Console::new();
    c.put('\u{263A}', TabStyle::Kernel);
    assert_eq!(c.cell_at(0), 0x0F3A);
    let mut b = Console::new();
    b.put('\u{263A}', TabStyle::Boot);
    assert_eq!(b.cell_at(0), 0x0F00 | 0x263A);
}

#[test]
fn console_wraps_and_scrolls() {
    let mut c = Console::new();
    for _ in 0..VGA_W {
        c.put('a', TabStyle::Kernel);
    }
    assert_eq!(c.cursor_pos(), VGA_W as u16);
    c.cls();
    c.put('T', TabStyle::Kernel);
    for _ in 0..25 {
        c.put('\n', TabStyle::Kernel);
    }
    // The first line scrolled off; the cursor is on the last line.
    assert_eq!(c.cell_at(0), blank());
    assert_eq!(c.cursor_pos(), (24 * VGA_W) as u16);
}

#[test]
fn console_scroll_keeps_text_one_row_up() {
    let mut c = Console::new();
    c.put('\n', TabStyle::Kernel);
    c.put('Z', TabStyle::Kernel);
    for _ in 0..24 {
        c.put('\n', TabStyle::Kernel);
    }
    assert_eq!(c.cell_at(0), 0x0F5A);
}

#[test]
fn console_cls_uses_current_colour() {
    let mut c = Console::new();
    c.put('k', TabStyle::Kernel);
    c.set_col(0x1F);
    c.cls();
    assert_eq!(c.cursor_pos(), 0);
    assert_eq!(c.cell_at(0), 0x1F20);
}

#[test]
fn attr_packs_colours() {
    assert_eq!(attr(0xF, 0x0), 0x0F);
    assert_eq!(attr(0x1F, 0x2), 0x2F);
}

#[test]
fn hex_and_decimal_text() {
    let mut buf = [0u8; 18];
    assert_eq!(hex_str(0xDEAD_BEEF, &mut buf), "0x00000000DEADBEEF");
    let mut buf2 = [0u8; 18];
    assert_eq!(u64_hex(u64::MAX, &mut buf2), "0xFFFFFFFFFFFFFFFF");
    let mut d = [0u8; 24];
    assert_eq!(num_str(0, &mut d), "0");
    let mut d2 = [0u8; 24];
    assert_eq!(num_str(1234567, &mut d2), "1234567");
    let mut u = [0u8; 20];
    assert_eq!(usize_str(0, &mut u), "0");
    let mut u2 = [0u8; 20];
    assert_eq!(usize_str(usize::MAX, &mut u2), "18446744073709551615");
    let mut u3 = [0u8; 20];
    assert_eq!(usize_str(42, &mut u3), "42");
}

// ── Processor structures ─────────────────────────────────────────────────────

#[test]
fn tss_defaults_and_stack() {
    let mut t = Tss::new();
    assert_eq!(t.iomap, TSS_SIZE);
    assert_eq!(t.rsp0, 0);
    t.set_rsp0(0xFFFF_8000_0010_0000);
    assert_eq!(t.rsp0, 0xFFFF_8000_0010_0000);
}

#[test]
fn gdt_layout() {
    let (e, hi) = gdt_entries(0x1234_5678_9ABC_DEF0, 103);
    assert_eq!(e[0], GdtE::null());
    assert_eq!(e[1], GdtE { ll: 0xFFFF, lb: 0, mb: 0, acc: 0x9A, gr: 0x2F, hb: 0 });
    assert_eq!(e[4].acc, 0xF2);
    assert_eq!(e[5], GdtE { ll: 103, lb: 0xDEF0, mb: 0xBC, acc: 0x89, gr: 0, hb: 0x9A });
    assert_eq!(hi, 0x1234_5678);
}

#[test]
fn idt_entry_fields() {
    let g = IdtE::new(0xFFFF_8000_1234_5678, 0x08, 3, 1);
    assert_eq!(g.lo, 0x5678);
    assert_eq!(g.mi, 0x1234);
    assert_eq!(g.hi, 0xFFFF_8000);
    assert_eq!(g.attr, 0xEE);
    assert_eq!(g.ist, 1);
    assert_eq!(IdtE::null().attr, 0);
}

#[test]
fn timer_and_offsets() {
    assert_eq!(pit_divisor(100), 11931);
    assert_eq!(phys_to_virt(0x1000), PHYS_OFFSET + 0x1000);
    assert_eq!(virt_to_phys(PHYS_OFFSET + 0xB8000), 0xB8000);
}

// ── Disk driver ──────────────────────────────────────────────────────────────

#[test]
fn disk_request_codes() {
    assert_eq!(DiskRequestType::Read.code(), 1);
    assert_eq!(DiskRequestType::Flush.code(), 4);
    assert_eq!(DiskRequestType::from_code(3), Some(DiskRequestType::Identify));
    assert_eq!(DiskRequestType::from_code(0), None);
    assert_eq!(DiskRequestType::from_code(5), None);
    let r = DiskResponse::ok(9);
    assert_eq!((r.req_id, r.status), (9, 0));
}

#[test]
fn status_polling() {
    assert_eq!(poll_bsy_step(0x80), None);
    assert_eq!(poll_bsy_step(0x50), Some(true));
    assert_eq!(poll_bsy_step(0x51), Some(false));
    assert_eq!(poll_drq_step(0x88), None);
    assert_eq!(poll_drq_step(0x09), Some(false));
    assert_eq!(poll_drq_step(0x58), Some(true));
    assert_eq!(poll_drq_step(0x50), None);
}

#[test]
fn lba28_registers() {
    assert_eq!(drive_bits(0), 0xE0);
    assert_eq!(drive_bits(1), 0xF0);
    assert_eq!(setup_lba28(0x0ABC_DEF1, 0, 4), [0xEA, 4, 0xF1, 0xDE, 0xBC]);
    assert_eq!(setup_lba28(0x10, 1, 1), [0xF0, 1, 0x10, 0, 0]);
    assert_eq!(sector_addr(0x10_0000, 3), 0x10_0600);
}

#[test]
fn identify_sector_count() {
    let mut a = AtaDriver::new();
    assert_eq!(a.lba28_total, 0);
    let mut w = [0u16; 256];
    assert!(!a.apply_identify(&w));
    w[60] = 0x5678;
    w[61] = 0x0012;
    assert!(a.apply_identify(&w));
    assert_eq!(a.lba28_total, 0x0012_5678);
    assert_eq!(a.identify_buf[120], 0x78);
    assert_eq!(a.identify_buf[123], 0x00);
}

// ── System calls ─────────────────────────────────────────────────────────────

const USER_CS: u64 = 0x1B;

fn frame(rax: u64) -> TF {
    TF {
        r15: 0,
        r14: 0,
        r13: 0,
        r12: 0,
        r11: 0,
        r10: 0,
        r9: 0,
        r8: 0,
        rdi: 1,
        rsi: 2,
        rdx: 3,
        rcx: 0,
        rbx: 0,
        rbp: 0,
        rax,
        rip: 0x40_0000,
        cs: USER_CS,
        rflags: 0x202,
        rsp: 0x7000,
        ss: 0x23,
    }
}

#[test]
fn handlers_by_number() {
    assert_eq!(handler_for(nr::EXIT), Handler::Exit);
    assert_eq!(handler_for(nr::WRITE), Handler::Write);
    assert_eq!(handler_for(nr::GET_FB_INFO), Handler::GetFbInfo);
    assert_eq!(handler_for(999), Handler::NoSys);
}

#[test]
fn dispatch_outcomes() {
    let mut p = PolicyEngine::new();
    let mut tf = frame(nr::WRITE);
    assert_eq!(syscall_dispatch_v2(&mut p, &mut tf, 1, 5), Some(Handler::Write));
    assert_eq!(tf.rax, nr::WRITE);
    let mut tf = frame(999);
    assert_eq!(syscall_dispatch_v2(&mut p, &mut tf, 1, 5), None);
    assert_eq!(tf.rax, err::NOSYS as u64);
    assert_eq!(tf.rdi, 1);
    let mut q = PolicyEngine::new();
    q.init();
    let mut tf = frame(nr::SPAWN);
    assert_eq!(syscall_dispatch_v2(&mut q, &mut tf, 2, 5), None);
    assert_eq!(tf.rax, err::PERM as u64);
    let mut tf = frame(0);
    set_result(&mut tf, -3);
    assert_eq!(tf.rax, (-3i64) as u64);
}

fn space() -> (TableMem, u64) {
    let mut p = Pmm::new();
    p.mm_init(0x10_0000, 32 * PAGE_SIZE);
    let mut t = TableMem::new();
    let p4 = p.mm_alloc();
    t.add_table(p4);
    let f = p.mm_alloc();
    assert_eq!(t.vmap(&mut p, p4, 0x40_0000, f, PTE_W | PTE_U), 0);
    (t, p4)
}

#[test]
fn write_argument_checks() {
    let (t, p4) = space();
    assert_eq!(sys_write_check(&t, p4, 3, 0x40_0000, 5), Transfer::Done(err::INVAL));
    assert_eq!(sys_write_check(&t, p4, 1, 0x40_0000, 0), Transfer::Done(err::OK));
    assert_eq!(sys_write_check(&t, p4, 1, 0x40_0000, 65537), Transfer::Done(err::INVAL));
    assert_eq!(sys_write_check(&t, p4, 2, 0x50_0000, 5), Transfer::Done(err::FAULT));
    assert_eq!(sys_write_check(&t, p4, 1, 0x40_0ff0, 0x10), Transfer::Move(0x10));
    assert_eq!(sys_write_check(&t, p4, 1, 0x40_0ff0, 0x11), Transfer::Done(err::FAULT));
}

#[test]
fn read_and_debug_print_checks() {
    let (t, p4) = space();
    assert_eq!(sys_read_check(&t, p4, 1, 0x40_0000, 5), Transfer::Done(err::INVAL));
    assert_eq!(sys_read_check(&t, p4, 0, 0x40_0000, 0), Transfer::Done(err::OK));
    assert_eq!(sys_read_check(&t, p4, 0, 0x40_0000, 8), Transfer::Move(8));
    assert_eq!(sys_read_check(&t, p4, 0, 0x60_0000, 8), Transfer::Done(err::FAULT));
    assert_eq!(sys_debug_print_check(&t, p4, 0x40_0000, 0), Transfer::Done(err::OK));
    assert_eq!(sys_debug_print_check(&t, p4, 0x40_0000, 4097), Transfer::Done(err::INVAL));
    assert_eq!(sys_debug_print_check(&t, p4, 0x40_0000, 4096), Transfer::Move(4096));
}

#[test]
fn read_keys_stops_after_newline() {
    let mut i = Input::new();
    for c in "ab\ncd".chars() {
        i.input_push(c);
    }
    assert_eq!(read_keys(&mut i, 10), b"ab\n".to_vec());
    assert_eq!(read_keys(&mut i, 1), b"c".to_vec());
    assert_eq!(read_keys(&mut i, 10), b"d".to_vec());
    assert_eq!(read_keys(&mut i, 10), Vec::<u8>::new());
}

fn threads() -> Threads {
    let mut th = Threads::new();
    let (i, _) = th.spawn_k("sh", 0x1000, 0, 0x9000, 0x2000);
    assert_eq!(i, 0);
    th
}

#[test]
fn sleep_and_exit() {
    let mut th = threads();
    assert_eq!(sys_sleep(&mut th, 100, 0), err::OK);
    assert_eq!(th.t[0].wake_tick, 0);
    assert_eq!(sys_sleep(&mut th, 100, 25), err::OK);
    assert_eq!(th.t[0].wake_tick, 125);
    assert_eq!(th.t[0].state, TS::Block);
    assert_eq!(sys_exit(&mut th), err::OK);
    assert_eq!(th.t[0].state, TS::Dead);
}

#[test]
fn thread_id_and_time_records() {
    let (t, p4) = space();
    let th = threads();
    let (r, info) = sys_thread_id(&t, &th, p4, 0);
    assert_eq!(r, th.t[0].id as i64);
    assert!(info.is_none());
    let (r, info) = sys_thread_id(&t, &th, p4, 0x40_0010);
    assert_eq!(r, th.t[0].id as i64);
    let info = info.unwrap();
    assert_eq!((info.tid, info.prio), (th.t[0].id, th.t[0].prio));
    assert_eq!(sys_thread_id(&t, &th, p4, 0x70_0000).0, err::FAULT);
    let (r, ti) = sys_time(&t, p4, 0x40_0020, 1234);
    assert_eq!(r, 1234);
    let ti = ti.unwrap();
    assert_eq!((ti.ticks, ti.uptime), (1234, 12));
    let (r, ti) = sys_time(&t, p4, 0, 7);
    assert_eq!(r, 7);
    assert!(ti.is_none());
    assert_eq!(sys_time(&t, p4, 0x70_0000, 7).0, err::FAULT);
}

#[test]
fn framebuffer_record() {
    let (t, p4) = space();
    assert_eq!(fb_layout(&t, p4, 0x70_0000, 0xFD00_0000, 800, 600, 3200, 32).err(), Some(err::FAULT));
    assert_eq!(fb_layout(&t, p4, 0x40_0000, 0, 800, 600, 3200, 32).err(), Some(err::INVAL));
    assert_eq!(fb_layout(&t, p4, 0x40_0000, 0xFD00_0000, 0, 600, 3200, 32).err(), Some(err::INVAL));
    let (info, pages) = fb_layout(&t, p4, 0x40_0000, 0xFD00_0000, 800, 600, 3200, 32).unwrap();
    assert_eq!(info.virt_addr, FB_USER_VADDR);
    assert_eq!(info.phys_addr, 0xFD00_0000);
    assert_eq!(info.size, 3200 * 600);
    assert_eq!(pages, (3200 * 600 + 4095) / 4096);
}
