//! Message passing between threads: a first-in first-out ring of messages
//! per thread, and the send, receive and poll system calls on it. Copying
//! messages from and to user memory, and blocking, are the caller's.
use vstd::prelude::*;
use crate::syscall_api::IpcMsg;
use crate::syscall_api::err;
use crate::threading::{Threads, TS, MAX_THREADS};

verus! {

/// Slots of a queue; one stays empty, so a queue holds at most 15.
pub const IPC_QUEUE_DEPTH: usize = 16;

/// A ring of messages from `tail` (oldest) to `head` (next free slot).
pub struct MsgQueue {
    msgs: Vec<IpcMsg>,
    head: usize,
    tail: usize,
}

/// `m` as a queue stores it: the padding cleared.
pub open spec fn stored(m: IpcMsg) -> IpcMsg {
    IpcMsg { _pad: 0, _pad2: 0, ..m }
}

impl MsgQueue {
    pub closed spec fn wf(&self) -> bool {
        self.msgs@.len() == IPC_QUEUE_DEPTH && self.head < IPC_QUEUE_DEPTH && self.tail < IPC_QUEUE_DEPTH
    }

    /// Number of queued messages.
    pub closed spec fn count(&self) -> int {
        (self.head + IPC_QUEUE_DEPTH - self.tail) as int % IPC_QUEUE_DEPTH as int
    }

    /// The queued messages, oldest first.
    pub closed spec fn view(&self) -> Seq<IpcMsg> {
        Seq::new(self.count() as nat, |k: int| self.msgs@[(self.tail + k) % IPC_QUEUE_DEPTH as int])
    }

    pub fn new() -> (r: Self)
        ensures
            r.wf(),
            r.view() == Seq::<IpcMsg>::empty(),
    {
        let mut msgs: Vec<IpcMsg> = Vec::new();
        let mut i: usize = 0;
        while i < IPC_QUEUE_DEPTH
            invariant
                i <= IPC_QUEUE_DEPTH,
                msgs@.len() == i,
            decreases IPC_QUEUE_DEPTH - i,
        {
            msgs.push(IpcMsg { from: 0, to: 0, tag: 0, _pad: 0, data: [0u64; 4], ptr: 0, len: 0, _pad2: 0 });
            i = i + 1;
        }
        let r = MsgQueue { msgs, head: 0, tail: 0 };
        assert(r.view() =~= Seq::<IpcMsg>::empty());
        r
    }

    pub fn len(&self) -> (r: usize)
        requires
            self.wf(),
        ensures
            r == self.view().len(),
            r < IPC_QUEUE_DEPTH,
    {
        (self.head + IPC_QUEUE_DEPTH - self.tail) % IPC_QUEUE_DEPTH
    }

    pub fn is_empty(&self) -> (r: bool)
        requires
            self.wf(),
        ensures
            r == (self.view().len() == 0),
    {
        self.head == self.tail
    }

    pub fn is_full(&self) -> (r: bool)
        requires
            self.wf(),
        ensures
            r == (self.view().len() == IPC_QUEUE_DEPTH - 1),
    {
        (self.head + 1) % IPC_QUEUE_DEPTH == self.tail
    }

    /// Append `msg` (padding cleared); `false`, with nothing changed, when
    /// the queue is full.
    pub fn push(&mut self, msg: &IpcMsg) -> (r: bool)
        requires
            old(self).wf(),
        ensures
            final(self).wf(),
            r == (old(self).view().len() < IPC_QUEUE_DEPTH - 1),
            r ==> final(self).view() == old(self).view().push(stored(*msg)),
            !r ==> final(self).view() == old(self).view(),
    {
        if self.is_full() {
            return false;
        }
        let ghost v0 = self.view();
        let h = self.head;
        let m = IpcMsg {
            from: msg.from,
            to: msg.to,
            tag: msg.tag,
            _pad: 0,
            data: msg.data,
            ptr: msg.ptr,
            len: msg.len,
            _pad2: 0,
        };
        self.msgs.set(h, m);
        self.head = (h + 1) % IPC_QUEUE_DEPTH;
        proof {
            assert(self.view() =~= v0.push(stored(*msg)));
        }
        true
    }

    /// Take the oldest message; `None`, with nothing changed, when the
    /// queue is empty.
    pub fn pop(&mut self) -> (r: Option<IpcMsg>)
        requires
            old(self).wf(),
        ensures
            final(self).wf(),
            old(self).view().len() == 0 ==> r is None && final(self).view() == old(self).view(),
            old(self).view().len() > 0 ==> r == Some(stored(old(self).view()[0])) && final(self).view() == old(
                self,
            ).view().drop_first(),
    {
        if self.is_empty() {
            return None;
        }
        let ghost v0 = self.view();
        let src = self.msgs[self.tail];
        let m = IpcMsg {
            from: src.from,
            to: src.to,
            tag: src.tag,
            _pad: 0,
            data: src.data,
            ptr: src.ptr,
            len: src.len,
            _pad2: 0,
        };
        self.tail = (self.tail + 1) % IPC_QUEUE_DEPTH;
        proof {
            assert(self.view() =~= v0.drop_first());
        }
        Some(m)
    }
}

/// One queue per thread.
pub struct IpcQueues {
    pub q: Vec<MsgQueue>,
}

/// Outcome of one attempt to receive.
#[derive(Copy, Clone)]
pub enum RecvStep {
    /// A message was taken; copy it to the caller's buffer, return `OK`.
    Got(IpcMsg),
    /// Return the code (`FAULT` or `AGAIN`).
    Fail(i64),
    /// The thread is now blocked: yield, then try again.
    Blocked,
}

impl IpcQueues {
    pub open spec fn wf(&self) -> bool {
        &&& self.q@.len() == MAX_THREADS
        &&& forall|i: int| 0 <= i < MAX_THREADS ==> (#[trigger] self.q@[i]).wf()
    }

    pub fn new() -> (r: Self)
        ensures
            r.wf(),
            forall|i: int| 0 <= i < MAX_THREADS ==> (#[trigger] r.q@[i]).view() == Seq::<IpcMsg>::empty(),
    {
        let mut q: Vec<MsgQueue> = Vec::new();
        let mut i: usize = 0;
        while i < MAX_THREADS
            invariant
                i <= MAX_THREADS,
                q@.len() == i,
                forall|k: int| 0 <= k < i ==> (#[trigger] q@[k]).wf() && q@[k].view() == Seq::<IpcMsg>::empty(),
            decreases MAX_THREADS - i,
        {
            q.push(MsgQueue::new());
            i = i + 1;
        }
        IpcQueues { q }
    }

    /// Queue `msg` for thread `to`, waking it if it is blocked. `false` when
    /// `to` is out of range or dead, or its queue is full.
    fn deliver(&mut self, th: &mut Threads, to: usize, msg: &IpcMsg) -> (r: bool)
        requires
            old(self).wf(),
            old(th).wf(),
            to < MAX_THREADS,
            old(th).t@[to as int].state != TS::Dead,
        ensures
            final(self).wf(),
            final(th).wf(),
            final(th).cur == old(th).cur,
            final(th).nthreads == old(th).nthreads,
            r == (old(self).q@[to as int].view().len() < 15),
            r ==> final(self).q@[to as int].view() == old(self).q@[to as int].view().push(stored(*msg)),
            !r ==> final(self).q@[to as int].view() == old(self).q@[to as int].view(),
            forall|k: int| 0 <= k < MAX_THREADS && k != to ==> #[trigger] final(self).q@[k] == old(self).q@[k],
            final(th).t@ == if r && old(th).t@[to as int].state == TS::Block {
                old(th).t@.update(to as int, crate::threading::Thread { state: TS::Ready, ..old(th).t@[to as int] })
            } else {
                old(th).t@
            },
    {
        let ghost q0 = self.q@;
        let ok = self.q[to].push(msg);
        proof {
            assert forall|i: int| 0 <= i < MAX_THREADS implies (#[trigger] self.q@[i]).wf() by {
                if i != to {
                    assert(self.q@[i] == q0[i]);
                }
            }
        }
        if ok && th.t[to].state == TS::Block {
            let mut t = th.t[to];
            t.state = TS::Ready;
            th.t.set(to, t);
        }
        ok
    }

    /// IPC_SEND of `msg` by the current thread (`buf_ok`: the caller's
    /// buffer is readable): `FAULT` for a bad buffer, `INVAL` for a target
    /// out of range or dead, `AGAIN` when its queue is full, else `OK` with
    /// the message queued (sender set to the current thread's id) and a
    /// blocked target woken.
    pub fn sys_ipc_send(&mut self, th: &mut Threads, buf_ok: bool, msg: &IpcMsg) -> (r: i64)
        requires
            old(self).wf(),
            old(th).wf(),
        ensures
            final(self).wf(),
            final(th).wf(),
            !buf_ok ==> r == err::FAULT && *final(self) == *old(self) && *final(th) == *old(th),
            buf_ok && (msg.to >= MAX_THREADS || old(th).t@[msg.to as int].state == TS::Dead) ==> r == err::INVAL
                && *final(self) == *old(self) && *final(th) == *old(th),
            buf_ok && msg.to < MAX_THREADS && old(th).t@[msg.to as int].state != TS::Dead ==> {
                let to = msg.to as int;
                let sent = IpcMsg { from: old(th).t@[old(th).cur as int].id, ..*msg };
                &&& r == if old(self).q@[to].view().len() < 15 { err::OK } else { err::AGAIN }
                &&& r == err::OK ==> final(self).q@[to].view() == old(self).q@[to].view().push(stored(sent))
                &&& r == err::AGAIN ==> final(self).q@[to].view() == old(self).q@[to].view()
                &&& forall|k: int| 0 <= k < MAX_THREADS && k != to ==> #[trigger] final(self).q@[k] == old(self).q@[k]
                &&& final(th).t@ == if r == err::OK && old(th).t@[to].state == TS::Block {
                    old(th).t@.update(to, crate::threading::Thread { state: TS::Ready, ..old(th).t@[to] })
                } else {
                    old(th).t@
                }
            },
    {
        if !buf_ok {
            return err::FAULT;
        }
        let to = msg.to as usize;
        if to >= MAX_THREADS {
            return err::INVAL;
        }
        if th.t[to].state == TS::Dead {
            return err::INVAL;
        }
        let from = th.t[th.cur].id;
        let local = IpcMsg {
            from,
            to: msg.to,
            tag: msg.tag,
            _pad: 0,
            data: msg.data,
            ptr: msg.ptr,
            len: msg.len,
            _pad2: 0,
        };
        let ok = self.deliver(th, to, &local);
        if !ok {
            return err::AGAIN;
        }
        err::OK
    }

    /// One attempt of IPC_RECV by the current thread: `FAULT` for a bad
    /// buffer; the oldest message when there is one; `AGAIN` when there is
    /// none and `block` is false; otherwise the thread is marked blocked and
    /// the caller yields and tries again.
    pub fn sys_ipc_recv_step(&mut self, th: &mut Threads, buf_ok: bool, block: bool) -> (r: RecvStep)
        requires
            old(self).wf(),
            old(th).wf(),
        ensures
            final(self).wf(),
            final(th).wf(),
            !buf_ok ==> r == RecvStep::Fail(err::FAULT) && *final(self) == *old(self) && *final(th) == *old(th),
            buf_ok ==> {
                let c = old(th).cur as int;
                let v = old(self).q@[c].view();
                &&& forall|k: int| 0 <= k < MAX_THREADS && k != c ==> #[trigger] final(self).q@[k] == old(self).q@[k]
                &&& v.len() > 0 ==> r == RecvStep::Got(stored(v[0])) && final(self).q@[c].view() == v.drop_first()
                    && *final(th) == *old(th)
                &&& v.len() == 0 && !block ==> r == RecvStep::Fail(err::AGAIN) && final(self).q@[c].view() == v
                    && *final(th) == *old(th)
                &&& v.len() == 0 && block ==> r == RecvStep::Blocked && final(self).q@[c].view() == v && final(th).t@
                    == old(th).t@.update(c, crate::threading::Thread { state: TS::Block, ..old(th).t@[c] })
                    && final(th).cur == old(th).cur
            },
    {
        if !buf_ok {
            return RecvStep::Fail(err::FAULT);
        }
        let c = th.cur;
        let ghost q0 = self.q@;
        let got = self.q[c].pop();
        proof {
            assert forall|i: int| 0 <= i < MAX_THREADS implies (#[trigger] self.q@[i]).wf() by {
                if i != c {
                    assert(self.q@[i] == q0[i]);
                }
            }
        }
        match got {
            Some(m) => RecvStep::Got(m),
            None => {
                if !block {
                    return RecvStep::Fail(err::AGAIN);
                }
                let mut t = th.t[c];
                t.state = TS::Block;
                th.t.set(c, t);
                RecvStep::Blocked
            },
        }
    }

    /// IPC_POLL: the number of messages queued for the current thread.
    pub fn sys_ipc_poll(&self, th: &Threads) -> (r: i64)
        requires
            self.wf(),
            th.wf(),
        ensures
            r == self.q@[th.cur as int].view().len(),
    {
        self.q[th.cur].len() as i64
    }

    /// Send a message from the kernel (sender 0) to thread `to`; `false`
    /// when `to` is out of range or dead, or its queue is full.
    pub fn k_send(&mut self, th: &mut Threads, to: usize, tag: u32, data: [u64; 4]) -> (r: bool)
        requires
            old(self).wf(),
            old(th).wf(),
        ensures
            final(self).wf(),
            final(th).wf(),
            to >= MAX_THREADS || old(th).t@[to as int].state == TS::Dead ==> !r && *final(self) == *old(self) && *final(th)
                == *old(th),
            to < MAX_THREADS && old(th).t@[to as int].state != TS::Dead ==> {
                let m = IpcMsg { from: 0, to: to as u32, tag, _pad: 0, data, ptr: 0, len: 0, _pad2: 0 };
                &&& r == (old(self).q@[to as int].view().len() < 15)
                &&& r ==> final(self).q@[to as int].view() == old(self).q@[to as int].view().push(m)
                &&& !r ==> final(self).q@[to as int].view() == old(self).q@[to as int].view()
                &&& forall|k: int| 0 <= k < MAX_THREADS && k != to ==> #[trigger] final(self).q@[k] == old(self).q@[k]
                &&& final(th).t@ == if r && old(th).t@[to as int].state == TS::Block {
                    old(th).t@.update(to as int, crate::threading::Thread { state: TS::Ready, ..old(th).t@[to as int] })
                } else {
                    old(th).t@
                }
            },
    {
        if to >= MAX_THREADS || th.t[to].state == TS::Dead {
            return false;
        }
        let msg = IpcMsg { from: 0, to: to as u32, tag, _pad: 0, data, ptr: 0, len: 0, _pad2: 0 };
        self.deliver(th, to, &msg)
    }

    /// Whether thread `tid` has messages waiting (`false` out of range).
    pub fn k_has_msgs(&self, tid: usize) -> (r: bool)
        requires
            self.wf(),
        ensures
            r == (tid < MAX_THREADS && self.q@[tid as int].view().len() > 0),
    {
        if tid >= MAX_THREADS {
            return false;
        }
        !self.q[tid].is_empty()
    }
}

// ── Laws ─────────────────────────────────────────────────────────────────────

/// Queues are first in, first out: after a message is pushed onto a queue
/// that has room, popping gives back the oldest message before it, or the
/// pushed one (padding cleared) when the queue was empty.
pub proof fn law_queue_fifo(v0: Seq<IpcMsg>, v1: Seq<IpcMsg>, m: IpcMsg)
    requires
        v1 == v0.push(stored(m)),
    ensures
        v1.len() > 0,
        v0.len() == 0 ==> stored(v1[0]) == stored(m),
        v0.len() > 0 ==> v1[0] == v0[0],
        v1.drop_first().len() == v0.len(),
{
}

/// Law: a queue keeps every field of a message but the padding: what is
/// stored for `m` has its sender, receiver, tag, data words, pointer and
/// length, and zero padding.
pub proof fn law_stored_keeps_fields(m: IpcMsg)
    ensures
        stored(m).from == m.from,
        stored(m).to == m.to,
        stored(m).tag == m.tag,
        stored(m).data == m.data,
        stored(m).ptr == m.ptr,
        stored(m).len == m.len,
        stored(m)._pad == 0,
        stored(m)._pad2 == 0,
{
}

/// Law: a message pushed onto an empty queue and popped again comes back
/// with every field but the padding as it was sent.
pub proof fn law_push_pop_roundtrip(v0: Seq<IpcMsg>, v1: Seq<IpcMsg>, m: IpcMsg, r: IpcMsg)
    requires
        v0.len() == 0,
        v1 == v0.push(stored(m)),
        r == stored(v1[0]),
    ensures
        r.from == m.from,
        r.to == m.to,
        r.tag == m.tag,
        r.data == m.data,
        r.ptr == m.ptr,
        r.len == m.len,
{
    assert(v1[0] == stored(m));
}

} // verus!
