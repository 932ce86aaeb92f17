//! Thread table and scheduler decisions: thread slots, stack layout, the
//! initial kernel stack frame, round-robin selection with sleeping threads
//! woken by tick, and the choice of the first thread at boot. Mapping the
//! stacks, writing the frames and switching contexts are the caller's.
use vstd::prelude::*;
use vstd::string::StringSliceAdditionalSpecFns;
use vstd::utf8::valid_utf8;
use crate::libcosinus::fmt::utf8_str;

verus! {

pub const MAX_THREADS: usize = 64;

/// Bytes of a kernel stack.
pub const KERNEL_STACK_SIZE: usize = 0x8000;

/// Bytes of a user stack.
pub const USER_STACK_SIZE: usize = 0x4000;

/// Page size in bytes.
pub const PAGE: u64 = 0x1000;

/// Thread state.
#[derive(Copy, Clone, PartialEq, Eq, Structural, Debug)]
pub enum TS {
    Run,
    Ready,
    Block,
    Dead,
}

/// Thread control block.
#[derive(Copy, Clone)]
pub struct Thread {
    /// Tick at which a sleeping thread wakes (0: not sleeping).
    pub wake_tick: u64,
    pub id: u32,
    pub state: TS,
    /// Priority: lower runs first.
    pub prio: u8,
    /// Saved kernel stack pointer.
    pub krsp: u64,
    /// Top of the kernel stack.
    pub ktop: u64,
    /// Top of the user stack.
    pub utop: u64,
    /// Page table root.
    pub cr3: u64,
    pub name: [u8; 16],
    /// Scheduler ticks consumed.
    pub ticks: u64,
    pub sig_handlers: [u64; 32],
    pub sig_pending: u64,
    /// Working directory, NUL-terminated.
    pub cwd: [u8; 256],
}

impl Thread {
    /// An unused slot: dead, priority 10, working directory "/".
    pub fn new() -> (r: Self)
        ensures
            r.id == 0 && r.state == TS::Dead && r.prio == 10,
            r.krsp == 0 && r.ktop == 0 && r.utop == 0 && r.cr3 == 0,
            r.ticks == 0 && r.wake_tick == 0 && r.sig_pending == 0,
            r.name@ == seq![0u8; 16],
            r.sig_handlers@ == seq![0u64; 32],
            r.cwd@ == seq![0x2fu8].add(seq![0u8; 255]),
    {
        let mut cwd = [0u8; 256];
        cwd[0] = 0x2f;
        let r = Thread {
            id: 0,
            state: TS::Dead,
            prio: 10,
            krsp: 0,
            ktop: 0,
            utop: 0,
            cr3: 0,
            name: [0; 16],
            ticks: 0,
            wake_tick: 0,
            sig_handlers: [0u64; 32],
            sig_pending: 0,
            cwd,
        };
        assert(r.cwd@ =~= seq![0x2fu8].add(seq![0u8; 255]));
        assert(r.name@ =~= seq![0u8; 16]);
        assert(r.sig_handlers@ =~= seq![0u64; 32]);
        r
    }

    /// End of the name: the first NUL, or 16.
    pub open spec fn name_end(&self) -> int {
        first_zero_from(self.name@, 0)
    }

    /// The name as text: the bytes before the first NUL; empty when they
    /// are not UTF-8.
    pub fn name_str(&self) -> (r: &str)
        ensures
            valid_utf8(self.name@.subrange(0, self.name_end())) ==> r.spec_bytes() == self.name@.subrange(
                0,
                self.name_end(),
            ),
            !valid_utf8(self.name@.subrange(0, self.name_end())) ==> r@ == Seq::<char>::empty(),
    {
        let end = first_zero(&self.name);
        match utf8_str(&self.name[0..end]) {
            Some(s) => s,
            None => {
                proof {
                    reveal_strlit("");
                }
                ""
            },
        }
    }
}

/// Index of the first zero byte of `s` from `j` on, or 16.
pub open spec fn first_zero_from(s: Seq<u8>, j: int) -> int
    decreases 16 - j,
{
    if j >= 16 || s[j] == 0 {
        j
    } else {
        first_zero_from(s, j + 1)
    }
}

pub(crate) fn first_zero(name: &[u8; 16]) -> (r: usize)
    ensures
        r == first_zero_from(name@, 0),
        r <= 16,
{
    let mut end: usize = 0;
    while end < 16
        invariant
            end <= 16,
            first_zero_from(name@, end as int) == first_zero_from(name@, 0),
        decreases 16 - end,
    {
        if name[end] == 0 {
            return end;
        }
        end = end + 1;
    }
    end
}

/// Copy up to 15 bytes of `name` into the thread's name; the rest stays.
pub fn set_name(t: &mut Thread, name: &str)
    ensures
        forall|j: int|
            0 <= j < 16 ==> #[trigger] final(t).name@[j] == if j < 15 && j < name.spec_bytes().len() {
                name.spec_bytes()[j]
            } else {
                old(t).name@[j]
            },
        final(t).state == old(t).state,
        final(t).id == old(t).id,
        final(t).krsp == old(t).krsp,
        final(t).ktop == old(t).ktop,
        final(t).utop == old(t).utop,
        final(t).cr3 == old(t).cr3,
        final(t).prio == old(t).prio,
        final(t).ticks == old(t).ticks,
        final(t).wake_tick == old(t).wake_tick,
{
    let b = name.as_bytes();
    let n = if b.len() < 15 { b.len() } else { 15 };
    let mut j: usize = 0;
    while j < n
        invariant
            j <= n,
            n <= 15,
            n <= b@.len(),
            b@ == name.spec_bytes(),
            t.name@.len() == 16,
            forall|k: int| 0 <= k < 16 ==> #[trigger] t.name@[k] == if k < j { b@[k] } else { old(t).name@[k] },
            t.state == old(t).state,
            t.id == old(t).id,
            t.krsp == old(t).krsp,
            t.ktop == old(t).ktop,
            t.utop == old(t).utop,
            t.cr3 == old(t).cr3,
            t.prio == old(t).prio,
            t.ticks == old(t).ticks,
            t.wake_tick == old(t).wake_tick,
        decreases n - j,
    {
        t.name[j] = b[j];
        j = j + 1;
    }
}

/// Bottom of the kernel stack of slot `i` (a guard page sits below it).
pub open spec fn kstack_base(i: int) -> int {
    0x0200_0000 + i * (KERNEL_STACK_SIZE + PAGE) + PAGE
}

/// Bottom of the user stack of slot `i` (a guard page sits below it).
pub open spec fn ustack_base(i: int) -> int {
    0x0400_0000 + i * (USER_STACK_SIZE + PAGE) + PAGE
}

/// Kernel stack of slot `i`.
pub fn kernel_stack_base(i: usize) -> (r: u64)
    requires
        i < MAX_THREADS,
    ensures
        r == kstack_base(i as int),
{
    assert(i * (KERNEL_STACK_SIZE + PAGE) <= 64 * 0x9000) by (nonlinear_arith)
        requires
            i < 64,
    ;
    0x0200_0000u64 + i as u64 * (KERNEL_STACK_SIZE as u64 + PAGE) + PAGE
}

/// User stack of slot `i`.
pub fn user_stack_base(i: usize) -> (r: u64)
    requires
        i < MAX_THREADS,
    ensures
        r == ustack_base(i as int),
{
    assert(i * (USER_STACK_SIZE + PAGE) <= 64 * 0x5000) by (nonlinear_arith)
        requires
            i < 64,
    ;
    0x0400_0000u64 + i as u64 * (USER_STACK_SIZE as u64 + PAGE) + PAGE
}

/// The initial kernel stack of a thread, from the top down: for a user
/// thread the iretq frame (SS 0x23, user stack top, RFLAGS 0x202, CS 0x1B,
/// entry) and the user trampoline, for a kernel thread the kernel
/// trampoline; then rbx, rbp, r12 (0), r13 (user stack top), r14 (entry)
/// and r15 (argument), which the first switch pops.
pub open spec fn initial_frame(ut: u64, entry: u64, arg: u64, user: bool, tramp_u: u64, tramp_k: u64) -> Seq<u64> {
    let head = if user {
        seq![0x23u64, ut, 0x202u64, 0x1Bu64, entry, tramp_u]
    } else {
        seq![tramp_k]
    };
    head + seq![0u64, 0u64, 0u64, ut, entry, arg]
}

/// Build the initial stack frame of `t` below `kt`: returns the words to
/// write from `kt - 8` downward and sets the saved stack pointer below the
/// last of them.
pub fn init_thread_stack(
    t: &mut Thread,
    kt: u64,
    ut: u64,
    entry: u64,
    arg: u64,
    user: bool,
    tramp_u: u64,
    tramp_k: u64,
) -> (words: Vec<u64>)
    requires
        kt >= 96,
    ensures
        words@ == initial_frame(ut, entry, arg, user, tramp_u, tramp_k),
        final(t).krsp == kt - 8 * words@.len(),
        final(t).state == old(t).state,
        final(t).id == old(t).id,
        final(t).name == old(t).name,
        final(t).ktop == old(t).ktop,
        final(t).utop == old(t).utop,
        final(t).cr3 == old(t).cr3,
        final(t).prio == old(t).prio,
        final(t).ticks == old(t).ticks,
        final(t).wake_tick == old(t).wake_tick,
{
    let mut w: Vec<u64> = Vec::new();
    if user {
        w.push(0x23);
        w.push(ut);
        w.push(0x202);
        w.push(0x1B);
        w.push(entry);
        w.push(tramp_u);
    } else {
        w.push(tramp_k);
    }
    w.push(0);
    w.push(0);
    w.push(0);
    w.push(ut);
    w.push(entry);
    w.push(arg);
    assert(w@ =~= initial_frame(ut, entry, arg, user, tramp_u, tramp_k));
    t.krsp = kt - 8 * w.len() as u64;
    w
}

// ── The thread table ─────────────────────────────────────────────────────────

/// All thread slots, the running one and the number of live threads.
pub struct Threads {
    pub t: Vec<Thread>,
    pub cur: usize,
    pub nthreads: usize,
}

/// First slot from `i` on whose thread is dead, or `MAX_THREADS`.
pub open spec fn first_dead_from(s: Seq<Thread>, i: int) -> int
    decreases MAX_THREADS - i,
{
    if i >= MAX_THREADS || s[i].state == TS::Dead {
        i
    } else {
        first_dead_from(s, i + 1)
    }
}

/// The slot `d` steps after `cur` (cyclically).
pub open spec fn slot_after(cur: int, d: int) -> int {
    (cur + d) % (MAX_THREADS as int)
}

/// Among the distances `1..=k` after `cur`, the one whose slot holds the
/// ready thread with the lowest priority value, the nearest among equals;
/// 0 when none of those slots is ready.
pub open spec fn best_distance(s: Seq<Thread>, cur: int, k: int) -> int
    decreases k,
{
    if k <= 0 {
        0
    } else {
        let b = best_distance(s, cur, k - 1);
        let t = s[slot_after(cur, k)];
        if t.state == TS::Ready && (b == 0 || t.prio < s[slot_after(cur, b)].prio) {
            k
        } else {
            b
        }
    }
}

/// What `best_distance` picks, said without recursion: a ready slot of
/// the lowest priority value, no ready slot of that value nearer after
/// `cur`; 0 exactly when no slot in range is ready.
pub proof fn lemma_best_distance(s: Seq<Thread>, cur: int, k: int)
    requires
        0 <= k,
    ensures
        ({
            let b = best_distance(s, cur, k);
            &&& 0 <= b <= k
            &&& b == 0 <==> forall|e: int| 1 <= e <= k ==> (#[trigger] s[slot_after(cur, e)]).state != TS::Ready
            &&& b > 0 ==> {
                &&& s[slot_after(cur, b)].state == TS::Ready
                &&& forall|e: int|
                    1 <= e <= k && (#[trigger] s[slot_after(cur, e)]).state == TS::Ready ==> s[slot_after(cur, b)].prio
                        <= s[slot_after(cur, e)].prio
                &&& forall|e: int|
                    1 <= e < b && (#[trigger] s[slot_after(cur, e)]).state == TS::Ready ==> s[slot_after(cur, e)].prio
                        > s[slot_after(cur, b)].prio
            }
        }),
    decreases k,
{
    if k > 0 {
        lemma_best_distance(s, cur, k - 1);
    }
}

/// The thread table after waking the sleepers whose tick has come.
pub open spec fn woken(s: Seq<Thread>, tick: u64) -> Seq<Thread> {
    Seq::new(
        s.len(),
        |i: int|
            if s[i].state == TS::Block && s[i].wake_tick != 0 && tick >= s[i].wake_tick {
                Thread { wake_tick: 0, state: TS::Ready, ..s[i] }
            } else {
                s[i]
            },
    )
}

/// What the caller does after a scheduling decision.
#[derive(Copy, Clone, PartialEq, Eq, Structural, Debug)]
pub enum SchedAction {
    /// Keep running the current thread.
    Stay,
    /// Switch from `cur` to `next`; `kernel_rsp0` says whether the next
    /// thread's kernel stack top (rather than the interrupt stack) goes into
    /// the TSS, and `user` whether it is entered in user space.
    Switch { cur: usize, next: usize, kernel_rsp0: bool, user: bool },
}

impl Threads {
    pub open spec fn wf(&self) -> bool {
        self.t@.len() == MAX_THREADS && self.cur < MAX_THREADS
    }

    /// An empty table: every slot dead, slot 0 current.
    pub fn new() -> (r: Self)
        ensures
            r.wf(),
            r.cur == 0,
            r.nthreads == 0,
            forall|i: int| 0 <= i < MAX_THREADS ==> (#[trigger] r.t@[i]).state == TS::Dead,
    {
        let mut t: Vec<Thread> = Vec::new();
        let mut i: usize = 0;
        while i < MAX_THREADS
            invariant
                i <= MAX_THREADS,
                t@.len() == i,
                forall|k: int| 0 <= k < i ==> (#[trigger] t@[k]).state == TS::Dead,
            decreases MAX_THREADS - i,
        {
            t.push(Thread::new());
            i = i + 1;
        }
        Threads { t, cur: 0, nthreads: 0 }
    }

    /// First dead slot, if any.
    pub fn find_dead(&self) -> (r: Option<usize>)
        requires
            self.wf(),
        ensures
            r is None <==> first_dead_from(self.t@, 0) == MAX_THREADS,
            r matches Some(i) ==> i == first_dead_from(self.t@, 0) && i < MAX_THREADS,
    {
        let mut i: usize = 0;
        while i < MAX_THREADS
            invariant
                self.wf(),
                i <= MAX_THREADS,
                first_dead_from(self.t@, i as int) == first_dead_from(self.t@, 0),
            decreases MAX_THREADS - i,
        {
            if self.t[i].state == TS::Dead {
                return Some(i);
            }
            i = i + 1;
        }
        None
    }

    /// Take a dead slot for a kernel thread: kernel stack of its slot,
    /// priority 10, the kernel page table, the initial frame, the name;
    /// counted and made ready. Returns the slot (or -1 when none is free)
    /// and the frame words to write below the stack top once the stack is
    /// mapped.
    pub fn spawn_k(&mut self, name: &str, entry: u64, arg: u64, k_p4: u64, tramp_k: u64) -> (r: (i32, Vec<u64>))
        requires
            old(self).wf(),
            old(self).nthreads < usize::MAX,
        ensures
            final(self).wf(),
            final(self).cur == old(self).cur,
            first_dead_from(old(self).t@, 0) == MAX_THREADS ==> r.0 == -1 && r.1@.len() == 0 && *final(self)
                == *old(self),
            first_dead_from(old(self).t@, 0) < MAX_THREADS ==> {
                let i = first_dead_from(old(self).t@, 0);
                let kt = (kstack_base(i) + KERNEL_STACK_SIZE) as u64;
                let th = final(self).t@[i];
                &&& r.0 == i
                &&& r.1@ == initial_frame(kt, entry, arg, false, 0, tramp_k)
                &&& th.id == i && th.prio == 10 && th.ktop == kt && th.utop == kt && th.cr3 == k_p4 && th.ticks
                    == 0 && th.state == TS::Ready
                &&& th.krsp == kt - 8 * r.1@.len()
                &&& final(self).nthreads == old(self).nthreads + 1
                &&& forall|k: int| 0 <= k < MAX_THREADS && k != i ==> #[trigger] final(self).t@[k] == old(self).t@[k]
            },
    {
        let slot = self.find_dead();
        match slot {
            None => (-1, Vec::new()),
            Some(i) => {
                let ks = kernel_stack_base(i);
                let kt = ks + KERNEL_STACK_SIZE as u64;
                let mut th = self.t[i];
                th.id = i as u32;
                th.prio = 10;
                th.ktop = kt;
                th.utop = kt;
                th.cr3 = k_p4;
                th.ticks = 0;
                let words = init_thread_stack(&mut th, kt, kt, entry, arg, false, 0, tramp_k);
                set_name(&mut th, name);
                self.nthreads = self.nthreads + 1;
                th.state = TS::Ready;
                self.t.set(i, th);
                (i as i32, words)
            },
        }
    }

    /// Take a dead slot for a user thread in address space `cr3`: kernel
    /// and user stacks of its slot, priority 5, the initial user frame, the
    /// name; made ready and counted. Returns the slot (or -1) and the frame
    /// words to write below the kernel stack top.
    pub fn spawn_user_on_cr3(
        &mut self,
        name: &str,
        entry: u64,
        arg: u64,
        cr3: u64,
        tramp_u: u64,
    ) -> (r: (i32, Vec<u64>))
        requires
            old(self).wf(),
            old(self).nthreads < usize::MAX,
        ensures
            final(self).wf(),
            final(self).cur == old(self).cur,
            first_dead_from(old(self).t@, 0) == MAX_THREADS ==> r.0 == -1 && r.1@.len() == 0 && *final(self)
                == *old(self),
            first_dead_from(old(self).t@, 0) < MAX_THREADS ==> {
                let i = first_dead_from(old(self).t@, 0);
                let kt = (kstack_base(i) + KERNEL_STACK_SIZE) as u64;
                let ut = (ustack_base(i) + USER_STACK_SIZE) as u64;
                let th = final(self).t@[i];
                &&& r.0 == i
                &&& r.1@ == initial_frame(ut, entry, arg, true, tramp_u, 0)
                &&& th.id == i && th.prio == 5 && th.ktop == kt && th.utop == ut && th.cr3 == cr3 && th.ticks == 0
                    && th.state == TS::Ready
                &&& th.krsp == kt - 8 * r.1@.len()
                &&& final(self).nthreads == old(self).nthreads + 1
                &&& forall|k: int| 0 <= k < MAX_THREADS && k != i ==> #[trigger] final(self).t@[k] == old(self).t@[k]
            },
    {
        let slot = self.find_dead();
        match slot {
            None => (-1, Vec::new()),
            Some(i) => {
                let ks = kernel_stack_base(i);
                let kt = ks + KERNEL_STACK_SIZE as u64;
                let us = user_stack_base(i);
                let ut = us + USER_STACK_SIZE as u64;
                let mut th = self.t[i];
                th.id = i as u32;
                th.prio = 5;
                th.ktop = kt;
                th.utop = ut;
                th.cr3 = cr3;
                th.ticks = 0;
                let words = init_thread_stack(&mut th, kt, ut, entry, arg, true, tramp_u, 0);
                set_name(&mut th, name);
                th.state = TS::Ready;
                self.nthreads = self.nthreads + 1;
                self.t.set(i, th);
                (i as i32, words)
            },
        }
    }

    /// Wake the sleeping threads whose tick has come.
    fn wake_sleepers(&mut self, tick: u64)
        requires
            old(self).wf(),
        ensures
            final(self).wf(),
            final(self).t@ == woken(old(self).t@, tick),
            final(self).cur == old(self).cur,
            final(self).nthreads == old(self).nthreads,
    {
        let mut i: usize = 0;
        while i < MAX_THREADS
            invariant
                self.wf(),
                old(self).wf(),
                i <= MAX_THREADS,
                self.cur == old(self).cur,
                self.nthreads == old(self).nthreads,
                forall|k: int|
                    0 <= k < MAX_THREADS ==> #[trigger] self.t@[k] == if k < i {
                        woken(old(self).t@, tick)[k]
                    } else {
                        old(self).t@[k]
                    },
            decreases MAX_THREADS - i,
        {
            let th = self.t[i];
            if th.state == TS::Block && th.wake_tick != 0 && tick >= th.wake_tick {
                let mut nt = th;
                nt.wake_tick = 0;
                nt.state = TS::Ready;
                self.t.set(i, nt);
            }
            assert(self.t@[i as int] == woken(old(self).t@, tick)[i as int]);
            i = i + 1;
        }
        assert(self.t@ =~= woken(old(self).t@, tick));
    }

    /// The ready slot of the lowest priority value, the first after `cur`
    /// among equals (cyclically, `cur` itself last); `cur` when none is
    /// ready.
    fn pick_next(&self, cur: usize) -> (next: usize)
        requires
            self.wf(),
            cur < MAX_THREADS,
        ensures
            next == slot_after(cur as int, best_distance(self.t@, cur as int, MAX_THREADS as int)),
            next < MAX_THREADS,
    {
        let mut best_d: usize = 0;
        let mut best_prio: u8 = 0;
        let mut k: usize = 1;
        while k <= MAX_THREADS
            invariant
                self.wf(),
                cur < MAX_THREADS,
                1 <= k <= MAX_THREADS + 1,
                best_d < k,
                best_d == best_distance(self.t@, cur as int, k - 1),
                best_d > 0 ==> best_prio == self.t@[slot_after(cur as int, best_d as int)].prio,
            decreases MAX_THREADS + 1 - k,
        {
            let slot = (cur + k) % MAX_THREADS;
            let t = self.t[slot];
            if t.state == TS::Ready && (best_d == 0 || t.prio < best_prio) {
                best_d = k;
                best_prio = t.prio;
            }
            k = k + 1;
        }
        proof {
            lemma_best_distance(self.t@, cur as int, MAX_THREADS as int);
        }
        (cur + best_d) % MAX_THREADS
    }

    /// Priority round-robin decision at tick `tick`: wake the sleepers whose
    /// tick has come, then take, among the ready threads, one with the
    /// lowest priority value, the first after the current slot among equals
    /// (the current one itself when none is ready). Staying is chosen when
    /// that is the current, running thread; otherwise a running current
    /// thread becomes ready, the chosen one runs, its tick count grows and
    /// it becomes current.
    pub fn schedule(&mut self, tick: u64, k_p4: u64) -> (r: SchedAction)
        requires
            old(self).wf(),
            forall|i: int| 0 <= i < MAX_THREADS ==> (#[trigger] old(self).t@[i]).ticks < u64::MAX,
        ensures
            final(self).wf(),
            final(self).nthreads == old(self).nthreads,
            ({
                let w = woken(old(self).t@, tick);
                let c = old(self).cur as int;
                let d = best_distance(w, c, MAX_THREADS as int);
                let next = slot_after(c, d);
                if next == c && w[c].state == TS::Run {
                    r == SchedAction::Stay && final(self).t@ == w && final(self).cur == c
                } else {
                    let w1 = if w[c].state == TS::Run { w.update(c, Thread { state: TS::Ready, ..w[c] }) } else { w };
                    let nt = Thread { state: TS::Run, ticks: (w1[next].ticks + 1) as u64, ..w1[next] };
                    &&& final(self).t@ == w1.update(next, nt)
                    &&& final(self).cur == next
                    &&& r == SchedAction::Switch {
                        cur: c as usize,
                        next: next as usize,
                        kernel_rsp0: nt.cr3 == k_p4 || nt.cr3 == 0,
                        user: nt.cr3 != 0 && nt.cr3 != k_p4,
                    }
                }
            }),
            ({
                let w = woken(old(self).t@, tick);
                let c = old(self).cur as int;
                let d = best_distance(w, c, MAX_THREADS as int);
                &&& d == 0 <==> forall|e: int|
                    1 <= e <= MAX_THREADS ==> (#[trigger] w[slot_after(c, e)]).state != TS::Ready
                &&& d > 0 ==> {
                    &&& w[slot_after(c, d)].state == TS::Ready
                    &&& forall|e: int|
                        1 <= e <= MAX_THREADS && (#[trigger] w[slot_after(c, e)]).state == TS::Ready
                            ==> w[slot_after(c, d)].prio <= w[slot_after(c, e)].prio
                    &&& forall|e: int|
                        1 <= e < d && (#[trigger] w[slot_after(c, e)]).state == TS::Ready ==> w[slot_after(c, e)].prio
                            > w[slot_after(c, d)].prio
                }
            }),
    {
        proof {
            lemma_best_distance(woken(old(self).t@, tick), old(self).cur as int, MAX_THREADS as int);
        }
        self.wake_sleepers(tick);
        let cur = self.cur;
        let next = self.pick_next(cur);
        if next == cur && self.t[cur].state == TS::Run {
            return SchedAction::Stay;
        }
        if self.t[cur].state == TS::Run {
            let mut c = self.t[cur];
            c.state = TS::Ready;
            self.t.set(cur, c);
        }
        let mut n = self.t[next];
        n.state = TS::Run;
        n.ticks = n.ticks + 1;
        self.t.set(next, n);
        self.cur = next;
        SchedAction::Switch { cur, next, kernel_rsp0: n.cr3 == k_p4 || n.cr3 == 0, user: n.cr3 != 0 && n.cr3 != k_p4 }
    }

    /// The first thread at boot: among the ready threads, the one with the
    /// lowest priority value, the last slot among equals; slot 0 when none
    /// is ready. It runs, its tick count grows and it becomes current.
    pub fn jump_pick(&mut self) -> (best: usize)
        requires
            old(self).wf(),
            forall|i: int| 0 <= i < MAX_THREADS ==> (#[trigger] old(self).t@[i]).ticks < u64::MAX,
        ensures
            final(self).wf(),
            best < MAX_THREADS,
            (forall|j: int| 0 <= j < MAX_THREADS ==> (#[trigger] old(self).t@[j]).state != TS::Ready) ==> best == 0,
            (exists|j: int| 0 <= j < MAX_THREADS && (#[trigger] old(self).t@[j]).state == TS::Ready) ==> {
                &&& old(self).t@[best as int].state == TS::Ready
                &&& forall|j: int|
                    0 <= j < MAX_THREADS && (#[trigger] old(self).t@[j]).state == TS::Ready ==> old(self).t@[best as int].prio
                        <= old(self).t@[j].prio
                &&& forall|j: int|
                    best < j < MAX_THREADS && (#[trigger] old(self).t@[j]).state == TS::Ready ==> old(self).t@[j].prio
                        > old(self).t@[best as int].prio
            },
            final(self).t@ == old(self).t@.update(
                best as int,
                Thread { state: TS::Run, ticks: (old(self).t@[best as int].ticks + 1) as u64, ..old(self).t@[best as int] },
            ),
            final(self).cur == best,
            final(self).nthreads == old(self).nthreads,
    {
        let mut best: usize = usize::MAX;
        let mut best_prio: u8 = u8::MAX;
        let mut i: usize = 0;
        while i < MAX_THREADS
            invariant
                self.wf(),
                *self == *old(self),
                i <= MAX_THREADS,
                best == usize::MAX ==> best_prio == u8::MAX,
                best == usize::MAX ==> forall|j: int| 0 <= j < i ==> (#[trigger] self.t@[j]).state != TS::Ready,
                best != usize::MAX ==> {
                    &&& best < i
                    &&& self.t@[best as int].state == TS::Ready
                    &&& best_prio == self.t@[best as int].prio
                    &&& forall|j: int| 0 <= j < i && (#[trigger] self.t@[j]).state == TS::Ready ==> best_prio <= self.t@[j].prio
                    &&& forall|j: int| best < j < i && (#[trigger] self.t@[j]).state == TS::Ready ==> self.t@[j].prio > best_prio
                },
            decreases MAX_THREADS - i,
        {
            if self.t[i].state == TS::Ready && self.t[i].prio <= best_prio {
                best_prio = self.t[i].prio;
                best = i;
            }
            i = i + 1;
        }
        if best == usize::MAX {
            best = 0;
        }
        let mut th = self.t[best];
        th.state = TS::Run;
        th.ticks = th.ticks + 1;
        self.t.set(best, th);
        self.cur = best;
        best
    }

    /// The current thread ends: it is dead and no longer counted (the
    /// counter wraps below zero, as an atomic decrement does).
    pub fn exit_current(&mut self)
        requires
            old(self).wf(),
        ensures
            final(self).wf(),
            final(self).cur == old(self).cur,
            final(self).t@ == old(self).t@.update(
                old(self).cur as int,
                Thread { state: TS::Dead, ..old(self).t@[old(self).cur as int] },
            ),
            final(self).nthreads == if old(self).nthreads > 0 { (old(self).nthreads - 1) as usize } else { usize::MAX },
    {
        let c = self.cur;
        let mut th = self.t[c];
        th.state = TS::Dead;
        self.t.set(c, th);
        self.nthreads = if self.nthreads > 0 { self.nthreads - 1 } else { usize::MAX };
    }
}

} // verus!
