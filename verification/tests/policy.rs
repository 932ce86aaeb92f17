use lib::root_policy::audit::{LogEntry, PolicyLog, ViolationKind};
use lib::root_policy::policy::cap;
use lib::root_policy::policy::{default_ring_caps, ring_caps_of, ring_grant_cap, ring_revoke_cap, ring_set_max_mem, RingCaps};
use lib::root_policy::thread_cap::tcap;
use lib::root_policy::thread_cap::{clear_thread_cap, init_cap_table, init_thread_cap, mem_limit, ThreadCap, MAX_THREADS};
use lib::root_policy::{ring_syscall_mask, PolicyEngine, RING0_SYSCALL_MASK, RING1_SYSCALL_MASK, RING3_SYSCALL_MASK};
use lib::syscall_api::{err, nr};

const USER_CS: u64 = 0x1B;
const KERNEL_CS: u64 = 0x08;
const DEV_CS: u64 = 0x29;

fn engine() -> PolicyEngine {
    let mut e = PolicyEngine::new();
    e.init();
    e
}

#[test]
fn ring_masks() {
    assert_eq!(ring_syscall_mask(0), RING0_SYSCALL_MASK);
    assert_eq!(ring_syscall_mask(1), RING1_SYSCALL_MASK);
    assert_eq!(ring_syscall_mask(3), RING3_SYSCALL_MASK);
    assert_eq!(ring_syscall_mask(2), 0);
    assert_ne!(RING3_SYSCALL_MASK & (1 << nr::DEBUG_PRINT), 0);
    assert_eq!(RING3_SYSCALL_MASK & (1 << nr::SPAWN), 0);
    assert_ne!(RING1_SYSCALL_MASK & (1 << nr::SPAWN), 0);
}

#[test]
fn inactive_policy_allows_everything() {
    let mut e = PolicyEngine::new();
    assert_eq!(e.check_syscall(nr::SPAWN, USER_CS, 5, 1), Ok(()));
    assert_eq!(e.violation_count(), 0);
}

#[test]
fn user_syscalls() {
    let mut e = engine();
    assert_eq!(e.check_syscall(nr::WRITE, USER_CS, 2, 10), Ok(()));
    assert_eq!(e.check_syscall(nr::SPAWN, USER_CS, 2, 11), Err(err::PERM));
    assert_eq!(e.violation_count(), 1);
    let d = e.dump_recent(5);
    assert_eq!(d.len(), 1);
    assert!(d[0].kind == ViolationKind::SyscallDenied);
    assert_eq!(d[0].tid, 2);
    assert_eq!(d[0].ring, 3);
    assert_eq!(d[0].detail, nr::SPAWN);
    assert_eq!(d[0].tick, 11);
}

#[test]
fn ring_two_gets_nothing() {
    let mut e = engine();
    assert_eq!(e.check_syscall(nr::EXIT, 0x12, 3, 1), Err(err::PERM));
    // Numbers past the mask width are not filtered by it.
    assert_eq!(e.check_syscall(70, 0x12, 3, 1), Ok(()));
}

#[test]
fn revoked_thread_refused() {
    let mut e = engine();
    e.revoke_thread(2);
    assert_eq!(e.check_syscall(nr::WRITE, USER_CS, 2, 1), Err(err::PERM));
    assert!(e.dump_recent(1)[0].kind == ViolationKind::ThreadRevoked);
    // Granting to a revoked thread changes nothing.
    e.grant_cap(2, tcap::ELEVATED_IPC);
    assert!(e.cap_table[2].is_revoked());
}

#[test]
fn denied_syscall_refused() {
    let mut e = engine();
    e.deny_syscall(3, nr::READ);
    assert_eq!(e.check_syscall(nr::READ, USER_CS, 3, 1), Err(err::PERM));
    assert!(e.dump_recent(1)[0].kind == ViolationKind::ThreadDenied);
    assert_eq!(e.check_syscall(nr::WRITE, USER_CS, 3, 1), Ok(()));
}

#[test]
fn ring_cap_table_denies() {
    let mut e = engine();
    e.ring_caps[3].syscall_mask = 0;
    assert_eq!(e.check_syscall(nr::WRITE, USER_CS, 2, 1), Err(err::PERM));
    assert!(e.dump_recent(1)[0].kind == ViolationKind::RingCapDenied);
}

#[test]
fn resource_checks() {
    let mut e = engine();
    assert_eq!(e.check_spawn_kernel(KERNEL_CS, 0, 1), Ok(()));
    assert_eq!(e.check_spawn_kernel(USER_CS, 2, 2), Err(err::PERM));
    assert_eq!(e.check_io_access(DEV_CS, 0x1F0, 4, 3), Ok(()));
    assert_eq!(e.check_io_access(USER_CS, 0x1F0, 2, 4), Err(err::PERM));
    assert_eq!(e.check_phys_map(KERNEL_CS, 0xB8000, 0, 5), Ok(()));
    assert_eq!(e.check_phys_map(DEV_CS, 0xB8000, 4, 6), Err(err::PERM));
    assert_eq!(e.check_irq_control(KERNEL_CS, 0, 7), Ok(()));
    assert_eq!(e.check_irq_control(DEV_CS, 4, 8), Err(err::PERM));
    assert_eq!(e.violation_count(), 4);
    let d = e.dump_recent(10);
    assert_eq!(d.len(), 4);
    assert!(d[0].kind == ViolationKind::IrqDenied);
    assert!(d[1].kind == ViolationKind::PhysMapDenied);
    assert_eq!(d[1].detail, 0xB8000);
    assert!(d[2].kind == ViolationKind::IoDenied);
    assert_eq!(d[2].detail, 0x1F0);
    assert!(d[3].kind == ViolationKind::KernelSpawnDenied);
}

#[test]
fn violation_names() {
    assert_eq!(ViolationKind::NoViolation.as_str(), "none");
    assert_eq!(ViolationKind::SyscallDenied.as_str(), "syscall_denied");
    assert_eq!(ViolationKind::PolicyAdminDenied.as_str(), "policy_admin_denied");
}

#[test]
fn log_ring_keeps_the_newest() {
    let mut log = PolicyLog::new();
    for t in 0..300u64 {
        log.record(ViolationKind::IoDenied, 1, 4, t, t);
    }
    assert_eq!(log.total_violations(), 300);
    let d = log.dump_recent(3);
    assert_eq!(d.iter().map(|e| e.tick).collect::<Vec<_>>(), vec![299, 298, 297]);
    assert_eq!(log.dump_recent(1000).len(), 256);
    log.clear();
    assert_eq!(log.total_violations(), 0);
    assert!(log.dump_recent(5).is_empty());
    let z = LogEntry::empty();
    assert!(z.kind == ViolationKind::NoViolation);
}

#[test]
fn ring_capability_table() {
    let mut t = default_ring_caps();
    assert!(t[0].can_io && t[0].can_phys_map);
    assert!(t[1].can_io && !t[1].can_phys_map);
    assert!(!t[3].can_io);
    assert!(t[3].has_cap(cap::DEBUG_SERIAL));
    assert!(t[3].allows_syscall(nr::WRITE));
    assert!(!t[3].allows_syscall(nr::SPAWN));
    assert!(t[3].allows_syscall(64));
    assert!(t[3].allows_mem_alloc(128));
    assert!(!t[3].allows_mem_alloc(129));
    ring_grant_cap(&mut t, 3, cap::IO_ACCESS);
    assert!(t[3].can_io);
    ring_revoke_cap(&mut t, 3, cap::IO_ACCESS);
    assert!(!t[3].can_io);
    ring_set_max_mem(&mut t, 3, 64);
    assert_eq!(t[3].max_mem_pages, 64);
    assert!(ring_caps_of(&t, 4).is_none());
    assert_eq!(ring_caps_of(&t, 1).unwrap().max_threads, 16);
    let r = RingCaps::new(2, cap::PHYS_MAP, 0, 1, 2);
    assert!(r.can_phys_map && !r.can_io);
}

#[test]
fn thread_caps() {
    let mut c = ThreadCap::new_user();
    assert!(c.has(tcap::TRUST_SPAWN));
    assert!(!c.has(tcap::ELEVATED_IPC));
    c.grant(tcap::ELEVATED_IPC);
    assert!(c.has(tcap::ELEVATED_IPC));
    c.revoke(tcap::ELEVATED_IPC);
    assert!(!c.has(tcap::ELEVATED_IPC));
    assert!(c.allows_mem_alloc(128));
    assert!(!c.allows_mem_alloc(129));
    c.set_mem_limit(0);
    assert!(c.allows_mem_alloc(100_000));
    c.add_deny(nr::READ);
    c.add_deny(nr::WRITE);
    assert!(c.denies(nr::READ) && c.denies(nr::WRITE));
    c.remove_deny(nr::READ);
    assert!(!c.denies(nr::READ) && c.denies(nr::WRITE));
    c.revoke_all();
    assert!(c.is_revoked());
    assert!(!ThreadCap::new_kernel().is_revoked());
    assert!(ThreadCap::new_devspace().has(tcap::ELEVATED_IPC));
}

#[test]
fn deny_list_is_bounded() {
    let mut c = ThreadCap::new_empty();
    for n in 0..20u64 {
        c.add_deny(n);
    }
    assert!(c.denies(15));
    assert!(!c.denies(16));
}

#[test]
fn thread_cap_table() {
    let mut table = [ThreadCap::new_empty(); MAX_THREADS];
    init_cap_table(&mut table);
    assert!(table[0].has(tcap::ELEVATED_MEM));
    init_thread_cap(&mut table, 9, 1);
    assert!(table[9].has(tcap::ELEVATED_IPC));
    let rings = default_ring_caps();
    assert_eq!(mem_limit(&table, &rings, 9, 1), 256);
    assert_eq!(mem_limit(&table, &rings, 9, 3), 128);
    assert_eq!(mem_limit(&table, &rings, 64, 3), 0);
    clear_thread_cap(&mut table, 9);
    assert!(!table[9].has(tcap::ELEVATED_IPC));
    assert_eq!(mem_limit(&table, &rings, 9, 3), 128);
}

#[test]
fn record_returns_the_serial_line() {
    let mut log = PolicyLog::new();
    let line = log.record(ViolationKind::SyscallDenied, 3, 7, 0xff, 42);
    assert_eq!(String::from_utf8(line).unwrap(), "[POLICY] syscall_denied ring=3 tid=7 detail=0x00000000000000FF\n");
    assert_eq!(
        String::from_utf8(log.last_line()).unwrap(),
        "[POLICY] syscall_denied ring=3 tid=7 detail=0x00000000000000FF\n"
    );
}

#[test]
fn dump_text_lists_newest_first() {
    let mut log = PolicyLog::new();
    log.record(ViolationKind::IoDenied, 1, 4, 0x60, 10);
    log.record(ViolationKind::IrqDenied, 3, 9, 0, 11);
    let text = String::from_utf8(log.dump_text(5)).unwrap();
    assert_eq!(
        text,
        "[POLICY] === recent violations ===\n\
         \x20 [11] irq_denied ring=3 tid=9 detail=0x0000000000000000\n\
         \x20 [10] io_denied ring=1 tid=4 detail=0x0000000000000060\n\
         [POLICY] total=2\n"
    );
    let empty = String::from_utf8(PolicyLog::new().dump_text(3)).unwrap();
    assert_eq!(empty, "[POLICY] === recent violations ===\n[POLICY] total=0\n");
}

#[test]
fn remove_deny_undoes_add_deny() {
    let mut t = ThreadCap::new_user();
    t.add_deny(7);
    t.add_deny(9);
    let before = t;
    t.add_deny(11);
    assert!(t.denies(11));
    t.remove_deny(11);
    assert_eq!(t.deny_count, before.deny_count);
    assert!(!t.denies(11));
    assert!(t.denies(7) && t.denies(9));
    assert_eq!(t.deny_list[..2], before.deny_list[..2]);
}
