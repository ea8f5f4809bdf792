use erhino_kernel::bytes::{i64_bytes, i64s_bytes, u64_bytes, u64s_bytes};
use erhino_kernel::hart::{
    awake_idle, mark_idle, send_ipi, send_ipi_all, start_all, succeeded, ApplicationHart, HartKind, HartStatus, HartTable,
};
use erhino_kernel::path::Path;
use erhino_kernel::peripheral::aclint::Aclint;
use erhino_kernel::rng::{LcGenerator, RandomGenerator};
use erhino_kernel::rt::rescue_size;
use erhino_kernel::sbi::{SbiCall, SbiError};
use erhino_kernel::sync::optimistic::OptimisticLock;
use erhino_kernel::sync::InteriorLock;
use erhino_kernel::timer::{HartTimer, TICKS_PER_SEC};

fn call(eid: usize, fid: usize, arg0: usize, arg1: usize, arg2: usize, legacy: bool) -> SbiCall {
    SbiCall { eid, fid, arg0, arg1, arg2, legacy }
}

#[test]
fn lcg_sequence() {
    let mut g = LcGenerator::new(1);
    assert_eq!(g.next(), 25214903917);
    assert_eq!(g.next(), 205749139540585);
    let mut h = LcGenerator::new(12345);
    assert_eq!(h.next(), 29803012144709);
}

#[test]
fn lcg_zero_seed_stays_zero() {
    let mut g = LcGenerator::new(0);
    assert_eq!(g.next(), 0);
    assert_eq!(g.next(), 0);
}

#[test]
fn timer_conversions() {
    let t = HartTimer::new(0, 10_000_000);
    assert_eq!(t.tick_freq(), TICKS_PER_SEC);
    assert_eq!(t.uptime(10_000_000), 100);
    assert_eq!(t.uptime(150_000), 1);
    assert_eq!(t.interval(1), 100_000);
    assert_eq!(t.interval(25), 2_500_000);
}

#[test]
fn timer_events_pick_extension() {
    let t = HartTimer::new(3, 1_000_000);
    assert_eq!(t.set_next_event(2, true), call(0x54494D45, 0, 20_000, 0, 0, false));
    assert_eq!(t.set_next_event(2, false), call(0, 0, 20_000, 0, 0, true));
}

#[test]
fn hart_status_answers() {
    let hart = ApplicationHart::new(2, (), ());
    assert_eq!(hart.id(), 2);
    assert_eq!(hart.status_request(), call(0x48534D, 2, 2, 0, 0, false));
    assert_eq!(hart.get_status(Ok(0)), Some(HartStatus::Started));
    assert_eq!(hart.get_status(Ok(2)), Some(HartStatus::Started));
    assert_eq!(hart.get_status(Ok(6)), Some(HartStatus::Started));
    assert_eq!(hart.get_status(Ok(1)), Some(HartStatus::Stopped));
    assert_eq!(hart.get_status(Ok(3)), Some(HartStatus::Stopped));
    assert_eq!(hart.get_status(Ok(4)), Some(HartStatus::Suspended));
    assert_eq!(hart.get_status(Ok(5)), None);
    assert_eq!(hart.get_status(Err(SbiError::Failed)), None);
    assert_eq!(hart.start(0x8020_0000, 9), call(0x48534D, 0, 2, 0x8020_0000, 9, false));
    assert_eq!(hart.suspend(0x8020_0000, 9), call(0x48534D, 3, 0, 0x8020_0000, 9, false));
}

#[test]
fn ipi_calls() {
    assert!(succeeded(&Ok(0)));
    assert!(!succeeded(&Err(SbiError::Denied)));
    assert_eq!(send_ipi(0b110), call(0x735049, 0, 0b110, 0, 0, false));
    assert_eq!(send_ipi_all(), call(0x735049, 0, 0, usize::MAX, 0, false));
    let idle = mark_idle(mark_idle(0, 1), 3);
    assert_eq!(idle, 0b1010);
    assert_eq!(awake_idle(idle), call(0x735049, 0, 0b1010, 0, 0, false));
}

#[test]
fn hart_table_fills_gaps() {
    let mut table: HartTable<u32> = HartTable::new();
    assert_eq!(table.len(), 0);
    table.register(2, 20);
    assert_eq!(table.len(), 3);
    assert!(matches!(table.get_hart(0), HartKind::Disabled));
    assert!(matches!(table.get_hart(1), HartKind::Disabled));
    assert!(matches!(table.get_hart(2), HartKind::Application(20)));
    table.register(3, 30);
    assert_eq!(table.len(), 4);
    assert_eq!(table.application_ids(), vec![2, 3]);
}

#[test]
fn paths_parse() {
    let p = Path::from("/Processes/12/Pid").unwrap();
    assert!(p.is_absolute());
    assert_eq!(p.len(), 3);
    assert_eq!(p.name_at(0), "Processes");
    assert_eq!(p.filename(), "Pid");
    let q = Path::from("a//b/").unwrap();
    assert!(!q.is_absolute());
    assert_eq!(q.len(), 2);
    assert_eq!(q.name_at(1), "b");
    let root = Path::from("/").unwrap();
    assert!(root.is_absolute());
    assert_eq!(root.len(), 0);
    assert_eq!(root.filename(), "");
    assert!(root.parent().is_none());
}

#[test]
fn path_operations() {
    let p = Path::from("/a/b/c").unwrap();
    let parent = p.parent().unwrap();
    assert_eq!(parent.len(), 2);
    assert_eq!(parent.filename(), "b");
    let suffix = p.suffix(1);
    assert!(suffix.is_absolute());
    assert_eq!(suffix.len(), 2);
    assert_eq!(suffix.name_at(0), "b");
    let rel = Path::from("x/y").unwrap();
    let pre = rel.prepend_root(&String::from("root"));
    assert!(pre.is_absolute());
    assert_eq!(pre.len(), 3);
    assert_eq!(pre.name_at(0), "root");
    assert_eq!(pre.name_at(2), "y");
    let named = Path::from_names(false, vec![String::from("k")]);
    assert!(!named.is_absolute());
    assert_eq!(named.filename(), "k");
}

#[test]
fn native_bytes() {
    assert_eq!(u64_bytes(0x0102030405060708), 0x0102030405060708u64.to_ne_bytes().to_vec());
    assert_eq!(i64_bytes(-2), (-2i64).to_ne_bytes().to_vec());
    let mut expected = 7u64.to_ne_bytes().to_vec();
    expected.extend_from_slice(&9u64.to_ne_bytes());
    assert_eq!(u64s_bytes(&vec![7, 9]), expected);
    let mut signed = (-1i64).to_ne_bytes().to_vec();
    signed.extend_from_slice(&5i64.to_ne_bytes());
    assert_eq!(i64s_bytes(&vec![-1, 5]), signed);
    assert!(u64s_bytes(&vec![]).is_empty());
}

#[test]
fn aclint_registers() {
    let a = Aclint::new(0x0200_0000, 0x0200_4000, 0x0200_bff8);
    assert_eq!(a.msip_address(0), Some(0x0200_0000));
    assert_eq!(a.msip_address(3), Some(0x0200_000c));
    assert_eq!(a.mtimecmp_address(2), Some(0x0200_4010));
    assert_eq!(a.msip_address(usize::MAX / 4), None);
    let top = Aclint::new(usize::MAX - 7, usize::MAX - 7, 0);
    assert_eq!(top.msip_address(1), Some(usize::MAX - 3));
    assert_eq!(top.msip_address(2), None);
    assert_eq!(top.mtimecmp_address(0), Some(usize::MAX - 7));
    assert_eq!(top.mtimecmp_address(1), None);
    assert_eq!(a.mtime_address(), 0x0200_bff8);
    assert_eq!(Aclint::deadline(1000, 500), 1500);
    assert_eq!(Aclint::never(), u64::MAX);
}

#[test]
fn heap_rescue_sizes() {
    assert_eq!(rescue_size(0), 1);
    assert_eq!(rescue_size(4096), 1);
    assert_eq!(rescue_size(4097), 2);
    assert_eq!(rescue_size(3 * 4096), 4);
    assert_eq!(rescue_size(8 * 4096), 8);
    assert_eq!(rescue_size(8 * 4096 + 1), 16);
}

#[test]
fn optimistic_lock_never_waits() {
    let mut lock = OptimisticLock::new();
    assert!(!lock.is_locked());
    lock.lock();
    assert!(!lock.is_locked());
    assert!(lock.try_lock());
    lock.unlock();
    assert!(!lock.is_locked());
}

#[test]
fn start_all_starts_stopped_harts() {
    let mut table: HartTable<ApplicationHart<(), ()>> = HartTable::new();
    table.register(1, ApplicationHart::new(1, (), ()));
    table.register(3, ApplicationHart::new(3, (), ()));
    table.register(4, ApplicationHart::new(4, (), ()));
    let answers = vec![Err(SbiError::Failed), Ok(1), Err(SbiError::Failed), Ok(0), Ok(3)];
    assert_eq!(
        start_all(&table, &answers, 0x8020_0000, 7),
        vec![call(0x48534D, 0, 1, 0x8020_0000, 7, false), call(0x48534D, 0, 4, 0x8020_0000, 7, false)]
    );
    let none_stopped = vec![Ok(0), Ok(0), Ok(4), Ok(2), Err(SbiError::Denied)];
    assert!(start_all(&table, &none_stopped, 0, 0).is_empty());
}
