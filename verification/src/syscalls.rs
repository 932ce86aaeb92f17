//! The system call layer: the policy check and the choice of handler for
//! a call number, the argument checks of the calls that touch user
//! memory, and the effects of the calls on the thread table and the
//! keyboard ring. Copying bytes to and from user memory, printing and
//! switching threads are the caller's.
use vstd::prelude::*;
use crate::arch::TF;
use crate::input::Input;
use crate::root_policy::{PolicyEngine, syscall_verdict, ring_of, spec_ring_syscall_mask};
use crate::root_policy::audit::ViolationKind;
use crate::root_policy::policy::mask_allows;
use crate::root_policy::thread_cap::MAX_THREADS as CAP_SLOTS;
use crate::syscall_api::{err, nr, ThreadInfo, TimeInfo, FbInfo};
use crate::threading::{Threads, Thread, TS};
use crate::vmm::tables::{TableMem, user_ok, buf_pages, buf_page};

verus! {

/// The handler a call number selects.
#[derive(Copy, Clone, PartialEq, Eq, Structural, Debug)]
pub enum Handler {
    Exit,
    Write,
    Read,
    Yield,
    Spawn,
    Sleep,
    MemAlloc,
    MemFree,
    IpcSend,
    IpcRecv,
    IpcPoll,
    ThreadId,
    Time,
    DebugPrint,
    GetFbInfo,
    /// No such call.
    NoSys,
}

pub open spec fn spec_handler_for(num: u64) -> Handler {
    if num == nr::EXIT {
        Handler::Exit
    } else if num == nr::WRITE {
        Handler::Write
    } else if num == nr::READ {
        Handler::Read
    } else if num == nr::YIELD {
        Handler::Yield
    } else if num == nr::SPAWN {
        Handler::Spawn
    } else if num == nr::SLEEP {
        Handler::Sleep
    } else if num == nr::MEM_ALLOC {
        Handler::MemAlloc
    } else if num == nr::MEM_FREE {
        Handler::MemFree
    } else if num == nr::IPC_SEND {
        Handler::IpcSend
    } else if num == nr::IPC_RECV {
        Handler::IpcRecv
    } else if num == nr::IPC_POLL {
        Handler::IpcPoll
    } else if num == nr::THREAD_ID {
        Handler::ThreadId
    } else if num == nr::TIME {
        Handler::Time
    } else if num == nr::DEBUG_PRINT {
        Handler::DebugPrint
    } else if num == nr::GET_FB_INFO {
        Handler::GetFbInfo
    } else {
        Handler::NoSys
    }
}

/// The handler of call number `num`.
pub fn handler_for(num: u64) -> (r: Handler)
    ensures
        r == spec_handler_for(num),
{
    match num {
        nr::EXIT => Handler::Exit,
        nr::WRITE => Handler::Write,
        nr::READ => Handler::Read,
        nr::YIELD => Handler::Yield,
        nr::SPAWN => Handler::Spawn,
        nr::SLEEP => Handler::Sleep,
        nr::MEM_ALLOC => Handler::MemAlloc,
        nr::MEM_FREE => Handler::MemFree,
        nr::IPC_SEND => Handler::IpcSend,
        nr::IPC_RECV => Handler::IpcRecv,
        nr::IPC_POLL => Handler::IpcPoll,
        nr::THREAD_ID => Handler::ThreadId,
        nr::TIME => Handler::Time,
        nr::DEBUG_PRINT => Handler::DebugPrint,
        nr::GET_FB_INFO => Handler::GetFbInfo,
        _ => Handler::NoSys,
    }
}

/// Put a call's result where user space finds it.
pub fn set_result(tf: &mut TF, ret: i64)
    ensures
        *final(tf) == (TF { rax: ret as u64, ..*old(tf) }),
{
    tf.rax = ret as u64;
}

/// Entry of every system call from thread `tid` at `tick`: the call
/// number is in `rax`. A call the policy refuses gets `err::PERM` in
/// `rax` and no handler; an unknown number gets `err::NOSYS`; otherwise
/// the handler to run.
pub fn syscall_dispatch_v2(policy: &mut PolicyEngine, tf: &mut TF, tid: usize, tick: u64) -> (r: Option<Handler>)
    requires
        old(policy).active && mask_allows(spec_ring_syscall_mask(ring_of(old(tf).cs)), old(tf).rax) ==> tid
            < CAP_SLOTS && old(policy).cap_table@[tid as int].wf(),
    ensures
        syscall_verdict(old(policy), old(tf).rax, old(tf).cs, tid) != ViolationKind::NoViolation ==> r is None
            && final(tf).rax == err::PERM as u64,
        syscall_verdict(old(policy), old(tf).rax, old(tf).cs, tid) == ViolationKind::NoViolation ==> {
            &&& spec_handler_for(old(tf).rax) == Handler::NoSys ==> r is None && final(tf).rax == err::NOSYS as u64
            &&& spec_handler_for(old(tf).rax) != Handler::NoSys ==> r == Some(spec_handler_for(old(tf).rax))
                && *final(tf) == *old(tf)
        },
        final(tf).rbx == old(tf).rbx && final(tf).rdi == old(tf).rdi && final(tf).rsi == old(tf).rsi
            && final(tf).rdx == old(tf).rdx && final(tf).cs == old(tf).cs,
{
    let num = tf.rax;
    let cs = tf.cs;
    match policy.check_syscall(num, cs, tid, tick) {
        Err(e) => {
            set_result(tf, e);
            None
        },
        Ok(()) => {
            let h = handler_for(num);
            if h == Handler::NoSys {
                set_result(tf, err::NOSYS);
                return None;
            }
            Some(h)
        },
    }
}

/// What a call that moves bytes does next.
#[derive(Copy, Clone, PartialEq, Eq, Structural, Debug)]
pub enum Transfer {
    /// Return this value without touching user memory.
    Done(i64),
    /// Move this many bytes at the user pointer, then finish the call.
    Move(usize),
}

/// The user buffer of `len` bytes at `ptr` is mapped for user code.
pub open spec fn user_buf(t: &TableMem, p4: u64, ptr: u64, len: usize) -> bool {
    len == 0 || forall|k: int| 0 <= k < buf_pages(ptr, len as u64) ==> #[trigger] user_ok(t@, p4, buf_page(ptr, k))
}

/// WRITE(fd, ptr, len): only to 1 and 2, at most 64 KiB, from a mapped
/// user buffer; writing nothing succeeds at once. The bytes are shown,
/// then `len` is returned.
pub fn sys_write_check(t: &TableMem, p4: u64, fd: u64, ptr: u64, len: usize) -> (r: Transfer)
    requires
        t.wf(),
        (fd == 1 || fd == 2) && 0 < len <= 65536 ==> ptr + len <= 0xFFFF_FFFF_FFFF_F000u64,
    ensures
        r == if fd != 1 && fd != 2 {
            Transfer::Done(err::INVAL)
        } else if len == 0 {
            Transfer::Done(err::OK)
        } else if len > 65536 {
            Transfer::Done(err::INVAL)
        } else if !user_buf(t, p4, ptr, len) {
            Transfer::Done(err::FAULT)
        } else {
            Transfer::Move(len)
        },
{
    if fd != 1 && fd != 2 {
        return Transfer::Done(err::INVAL);
    }
    if len == 0 {
        return Transfer::Done(err::OK);
    }
    if len > 65536 {
        return Transfer::Done(err::INVAL);
    }
    if !t.valid_buf(p4, ptr, len) {
        return Transfer::Done(err::FAULT);
    }
    Transfer::Move(len)
}

/// READ(fd, ptr, len): only from 0, into a mapped user buffer; reading
/// nothing succeeds at once. Otherwise keyboard characters are moved.
pub fn sys_read_check(t: &TableMem, p4: u64, fd: u64, ptr: u64, len: usize) -> (r: Transfer)
    requires
        t.wf(),
        fd == 0 && len > 0 ==> ptr + len <= 0xFFFF_FFFF_FFFF_F000u64,
    ensures
        r == if fd != 0 {
            Transfer::Done(err::INVAL)
        } else if len == 0 {
            Transfer::Done(err::OK)
        } else if !user_buf(t, p4, ptr, len) {
            Transfer::Done(err::FAULT)
        } else {
            Transfer::Move(len)
        },
{
    if fd != 0 {
        return Transfer::Done(err::INVAL);
    }
    if len == 0 {
        return Transfer::Done(err::OK);
    }
    if !t.valid_buf(p4, ptr, len) {
        return Transfer::Done(err::FAULT);
    }
    Transfer::Move(len)
}

/// DEBUG_PRINT(ptr, len): at most 4 KiB from a mapped user buffer;
/// printing nothing succeeds at once. The bytes go to the serial port
/// when they are UTF-8, and `len` is returned.
pub fn sys_debug_print_check(t: &TableMem, p4: u64, ptr: u64, len: usize) -> (r: Transfer)
    requires
        t.wf(),
        0 < len <= 4096 ==> ptr + len <= 0xFFFF_FFFF_FFFF_F000u64,
    ensures
        r == if len == 0 {
            Transfer::Done(err::OK)
        } else if len > 4096 {
            Transfer::Done(err::INVAL)
        } else if !user_buf(t, p4, ptr, len) {
            Transfer::Done(err::FAULT)
        } else {
            Transfer::Move(len)
        },
{
    if len == 0 {
        return Transfer::Done(err::OK);
    }
    if len > 4096 {
        return Transfer::Done(err::INVAL);
    }
    if !t.valid_buf(p4, ptr, len) {
        return Transfer::Done(err::FAULT);
    }
    Transfer::Move(len)
}

/// Characters a read of `len` takes from the waiting ones, counting from
/// `k`: up to `len`, up to what is waiting, and up to a newline included.
pub open spec fn read_count(p: Seq<char>, len: int, k: int) -> int
    decreases len - k,
{
    if k >= len || k >= p.len() {
        k
    } else if p[k] == '\n' {
        k + 1
    } else {
        read_count(p, len, k + 1)
    }
}

proof fn lemma_read_count(p: Seq<char>, len: int, k: int)
    requires
        0 <= k <= len,
        k <= p.len(),
    ensures
        k <= read_count(p, len, k) <= len,
        read_count(p, len, k) <= p.len(),
    decreases len - k,
{
    if k < len && k < p.len() && p[k] != '\n' {
        lemma_read_count(p, len, k + 1);
    }
}

/// The byte a character is stored as in a read buffer: its low byte.
pub open spec fn low_byte(c: char) -> u8 {
    (c as u32 % 256) as u8
}

/// Take the characters of a read of `len` bytes from the keyboard ring,
/// as bytes; the call returns their number, or `err::AGAIN` for none.
pub fn read_keys(input: &mut Input, len: usize) -> (out: Vec<u8>)
    requires
        old(input).wf(),
    ensures
        final(input).wf(),
        ({
            let p = old(input).pending();
            let n = read_count(p, len as int, 0);
            &&& out@ == p.subrange(0, n).map_values(|c: char| low_byte(c))
            &&& final(input).pending() == p.subrange(n, p.len() as int)
        }),
{
    let ghost p = input.pending();
    let mut out: Vec<u8> = Vec::new();
    let mut n: usize = 0;
    let mut done = false;
    proof {
        lemma_read_count(p, len as int, 0);
    }
    while !done && n < len
        invariant
            input.wf(),
            n <= len,
            n <= p.len(),
            read_count(p, len as int, n as int) == read_count(p, len as int, 0) || done,
            done ==> n == read_count(p, len as int, 0),
            out@ == p.subrange(0, n as int).map_values(|c: char| low_byte(c)),
            input.pending() == p.subrange(n as int, p.len() as int),
        decreases len - n, (if done { 0int } else { 1int }),
    {
        match input.input_poll() {
            Some(c) => {
                out.push((c as u32 % 256) as u8);
                n = n + 1;
                proof {
                    assert(out@ =~= p.subrange(0, n as int).map_values(|c: char| low_byte(c)));
                    assert(input.pending() =~= p.subrange(n as int, p.len() as int));
                }
                if c == '\n' {
                    done = true;
                }
            },
            None => {
                done = true;
            },
        }
    }
    proof {
        lemma_read_count(p, len as int, n as int);
    }
    out
}

/// SLEEP(ticks) at `tick`: the current thread waits until `tick + ticks`;
/// no wait for 0. The caller then yields.
pub fn sys_sleep(th: &mut Threads, tick: u64, ticks: u64) -> (r: i64)
    requires
        old(th).wf(),
        tick + ticks <= u64::MAX,
    ensures
        final(th).wf(),
        r == err::OK,
        final(th).cur == old(th).cur && final(th).nthreads == old(th).nthreads,
        ticks == 0 ==> final(th).t@ == old(th).t@,
        ticks != 0 ==> final(th).t@ == old(th).t@.update(
            old(th).cur as int,
            Thread { wake_tick: (tick + ticks) as u64, state: TS::Block, ..old(th).t@[old(th).cur as int] },
        ),
{
    if ticks == 0 {
        return err::OK;
    }
    let c = th.cur;
    let mut t = th.t[c];
    t.wake_tick = tick + ticks;
    t.state = TS::Block;
    th.t.set(c, t);
    err::OK
}

/// EXIT: the current thread is dead; the caller then schedules.
pub fn sys_exit(th: &mut Threads) -> (r: i64)
    requires
        old(th).wf(),
    ensures
        final(th).wf(),
        r == err::OK,
        final(th).cur == old(th).cur,
        final(th).t@ == old(th).t@.update(old(th).cur as int, Thread { state: TS::Dead, ..old(th).t@[old(th).cur as int] }),
{
    th.exit_current();
    err::OK
}

/// THREAD_ID(ptr): the current thread's id; its id and priority also go
/// into the record at `ptr` when it is not null, which must be mapped.
pub fn sys_thread_id(t: &TableMem, th: &Threads, p4: u64, ptr: u64) -> (r: (i64, Option<ThreadInfo>))
    requires
        t.wf(),
        th.wf(),
        ptr != 0 ==> ptr + 8 <= 0xFFFF_FFFF_FFFF_F000u64,
    ensures
        ({
            let cur = th.t@[th.cur as int];
            if ptr != 0 && !user_buf(t, p4, ptr, 8) {
                r.0 == err::FAULT && r.1 is None
            } else {
                &&& r.0 == cur.id as i64
                &&& ptr == 0 ==> r.1 is None
                &&& ptr != 0 ==> (r.1 matches Some(info) && info.tid == cur.id && info.prio == cur.prio
                    && info._pad@ == seq![0u8, 0u8, 0u8])
            }
        }),
{
    let c = th.cur;
    let id = th.t[c].id;
    if ptr != 0 {
        if !t.valid_buf(p4, ptr, 8) {
            return (err::FAULT, None);
        }
        let info = ThreadInfo { tid: id, prio: th.t[c].prio, _pad: [0; 3] };
        assert(info._pad@ =~= seq![0u8, 0u8, 0u8]);
        return (id as i64, Some(info));
    }
    (id as i64, None)
}

/// TIME(ptr) at `tick`: the tick count; the count and the whole seconds
/// since start-up also go into the record at `ptr` when it is not null,
/// which must be mapped.
pub fn sys_time(t: &TableMem, p4: u64, ptr: u64, tick: u64) -> (r: (i64, Option<TimeInfo>))
    requires
        t.wf(),
        ptr != 0 ==> ptr + 16 <= 0xFFFF_FFFF_FFFF_F000u64,
    ensures
        ptr != 0 && !user_buf(t, p4, ptr, 16) ==> r.0 == err::FAULT && r.1 is None,
        !(ptr != 0 && !user_buf(t, p4, ptr, 16)) ==> r.0 == tick as i64 && (ptr == 0 ==> r.1 is None),
        !(ptr != 0 && !user_buf(t, p4, ptr, 16)) && ptr != 0 ==> (r.1 matches Some(info) && info.ticks == tick
            && info.uptime == tick / 100),
{
    if ptr != 0 {
        if !t.valid_buf(p4, ptr, 16) {
            return (err::FAULT, None);
        }
        return (tick as i64, Some(TimeInfo { ticks: tick, uptime: tick / 100 }));
    }
    (tick as i64, None)
}

/// Fixed user address of the framebuffer mapping.
pub const FB_USER_VADDR: u64 = 0x0000_6000_0000_0000;

/// Bytes of the framebuffer record.
pub const FB_INFO_SIZE: usize = 40;

/// GET_FB_INFO(ptr): the record must be mapped and a framebuffer known
/// (non-null, with a size). Returns the record to fill in and the number
/// of pages to map at `FB_USER_VADDR`, writable and user-accessible.
pub fn fb_layout(
    t: &TableMem,
    p4: u64,
    ptr: u64,
    phys: u64,
    width: u32,
    height: u32,
    pitch: u32,
    bpp: u32,
) -> (r: Result<(FbInfo, u64), i64>)
    requires
        t.wf(),
        ptr + FB_INFO_SIZE <= 0xFFFF_FFFF_FFFF_F000u64,
    ensures
        !user_buf(t, p4, ptr, FB_INFO_SIZE) ==> r == Err::<(FbInfo, u64), i64>(err::FAULT),
        user_buf(t, p4, ptr, FB_INFO_SIZE) && (phys == 0 || width == 0 || height == 0) ==> r == Err::<
            (FbInfo, u64),
            i64,
        >(err::INVAL),
        user_buf(t, p4, ptr, FB_INFO_SIZE) && !(phys == 0 || width == 0 || height == 0) ==> (r matches Ok((info, pages))
            && info.virt_addr == FB_USER_VADDR && info.phys_addr == phys && info.width == width && info.height == height
            && info.pitch == pitch && info.bpp == bpp && info.size == pitch * height && pages == (pitch * height + 4095)
            / 4096),
{
    if !t.valid_buf(p4, ptr, FB_INFO_SIZE) {
        return Err(err::FAULT);
    }
    if phys == 0 || width == 0 || height == 0 {
        return Err(err::INVAL);
    }
    assert(pitch * height <= 0xFFFF_FFFF * 0xFFFF_FFFFu64) by (nonlinear_arith)
        requires
            pitch <= 0xFFFF_FFFF,
            height <= 0xFFFF_FFFF,
    ;
    let fb_bytes = pitch as u64 * height as u64;
    let fb_pages = (fb_bytes + 4095) / 4096;
    Ok(
        (
            FbInfo {
                virt_addr: FB_USER_VADDR,
                phys_addr: phys,
                width,
                height,
                pitch,
                bpp,
                size: fb_bytes,
            },
            fb_pages,
        ),
    )
}

/// Law: each call number reaches the handler of the same name, every
/// number past the last known one reaches no handler, and two different
/// numbers never reach the same handler.
pub proof fn law_handler_names(a: u64, b: u64)
    ensures
        spec_handler_for(nr::EXIT) == Handler::Exit,
        spec_handler_for(nr::WRITE) == Handler::Write,
        spec_handler_for(nr::READ) == Handler::Read,
        spec_handler_for(nr::YIELD) == Handler::Yield,
        spec_handler_for(nr::SPAWN) == Handler::Spawn,
        spec_handler_for(nr::SLEEP) == Handler::Sleep,
        spec_handler_for(nr::MEM_ALLOC) == Handler::MemAlloc,
        spec_handler_for(nr::MEM_FREE) == Handler::MemFree,
        spec_handler_for(nr::IPC_SEND) == Handler::IpcSend,
        spec_handler_for(nr::IPC_RECV) == Handler::IpcRecv,
        spec_handler_for(nr::IPC_POLL) == Handler::IpcPoll,
        spec_handler_for(nr::THREAD_ID) == Handler::ThreadId,
        spec_handler_for(nr::TIME) == Handler::Time,
        spec_handler_for(nr::DEBUG_PRINT) == Handler::DebugPrint,
        spec_handler_for(nr::GET_FB_INFO) == Handler::GetFbInfo,
        (spec_handler_for(a) == Handler::NoSys) <==> a > nr::GET_FB_INFO,
        a != b && spec_handler_for(a) != Handler::NoSys ==> spec_handler_for(a) != spec_handler_for(b),
{
}

} // verus!
