use os::mm::address::{PhysAddr, VirtPageNum};
use os::mm::memory::PhysMemory;
use os::mm::page_tale::{translated_refmut, PTE_R, PTE_U, PTE_V, PTE_W, PTE_X};
use os::syscall::process::{sys_exec, sys_get_time, sys_mmap, sys_munmap, sys_task_info, sys_yield, TimeVal};
use os::task::{current_user_token, do_sys_mmap, do_sys_munmap, get_task_info, reocrd_sys_call, TaskManager, TaskStatus};

fn setup() -> (PhysMemory, TaskManager) {
    let mut mem = PhysMemory::new(0x80000, 64);
    let m = TaskManager::new(&mut mem, 2);
    (mem, m)
}

fn flags_of(m: &TaskManager, mem: &PhysMemory, vpn: u64) -> Option<u8> {
    m.task(m.get_current()).memory_set.translate(mem, VirtPageNum(vpn)).map(|e| e.bits as u8)
}

#[test]
fn mmap_maps_each_page() {
    let (mut mem, mut m) = setup();
    assert_eq!(sys_mmap(&mut m, &mut mem, 0x10000, 0x3000, 3), 0);
    let mut ppns = Vec::new();
    for vpn in 0x10..0x13 {
        let e = m.task(0).memory_set.translate(&mem, VirtPageNum(vpn)).unwrap();
        assert!(e.is_valid());
        assert_eq!(e.bits as u8, PTE_V | PTE_U | PTE_R | PTE_W | PTE_X);
        assert!(!ppns.contains(&e.ppn()));
        ppns.push(e.ppn());
    }
    assert_eq!(flags_of(&m, &mem, 0x13).map(|f| f & PTE_V), Some(0));
    // the other task's space is untouched
    assert_eq!(m.task(1).memory_set.translate(&mem, VirtPageNum(0x10)), None);
}

#[test]
fn mmap_partial_page_length_rounds_up() {
    let (mut mem, mut m) = setup();
    assert_eq!(sys_mmap(&mut m, &mut mem, 0x10000, 1, 1), 0);
    assert_eq!(flags_of(&m, &mem, 0x10), Some(PTE_V | PTE_U | PTE_R));
    assert_eq!(flags_of(&m, &mem, 0x11).map(|f| f & PTE_V), Some(0));
}

#[test]
fn mmap_permission_bits() {
    let (mut mem, mut m) = setup();
    assert_eq!(sys_mmap(&mut m, &mut mem, 0x10000, 0x1000, 2), 0);
    assert_eq!(flags_of(&m, &mem, 0x10), Some(PTE_V | PTE_U | PTE_W));
    assert_eq!(sys_mmap(&mut m, &mut mem, 0x20000, 0x1000, 4), 0);
    assert_eq!(flags_of(&m, &mem, 0x20), Some(PTE_V | PTE_U));
    assert_eq!(sys_mmap(&mut m, &mut mem, 0x30000, 0x1000, 7), 0);
    assert_eq!(flags_of(&m, &mem, 0x30), Some(PTE_V | PTE_U | PTE_R | PTE_W | PTE_X));
}

#[test]
fn mmap_rejects_bad_port() {
    let (mut mem, mut m) = setup();
    assert_eq!(do_sys_mmap(&mut m, &mut mem, 0x10000, 0x1000, 0), -1);
    assert_eq!(do_sys_mmap(&mut m, &mut mem, 0x10000, 0x1000, 8), -1);
    assert_eq!(do_sys_mmap(&mut m, &mut mem, 0x10000, 0x1000, 0x11), -1);
    assert_eq!(m.task(0).memory_set.translate(&mem, VirtPageNum(0x10)), None);
}

#[test]
fn mmap_rejects_unaligned_start() {
    let (mut mem, mut m) = setup();
    assert_eq!(sys_mmap(&mut m, &mut mem, 0x10001, 0x1000, 3), -1);
    assert_eq!(m.task(0).memory_set.translate(&mem, VirtPageNum(0x10)), None);
}

#[test]
fn mmap_twice_fails() {
    let (mut mem, mut m) = setup();
    assert_eq!(sys_mmap(&mut m, &mut mem, 0x10000, 0x2000, 3), 0);
    assert_eq!(sys_mmap(&mut m, &mut mem, 0x10000, 0x2000, 1), -1);
    assert_eq!(sys_mmap(&mut m, &mut mem, 0x11000, 0x1000, 1), -1);
    assert_eq!(sys_mmap(&mut m, &mut mem, 0x12000, 0x1000, 1), 0);
}

#[test]
fn munmap_after_mmap_succeeds_and_clears() {
    let (mut mem, mut m) = setup();
    assert_eq!(sys_mmap(&mut m, &mut mem, 0x10000, 0x3000, 3), 0);
    assert_eq!(sys_munmap(&mut m, &mut mem, 0x11000, 0x1000), 0);
    assert_eq!(flags_of(&m, &mem, 0x11), Some(0));
    assert!(m.task(0).memory_set.translate(&mem, VirtPageNum(0x10)).unwrap().is_valid());
    assert!(m.task(0).memory_set.translate(&mem, VirtPageNum(0x12)).unwrap().is_valid());
    // the range has a hole now
    assert_eq!(do_sys_munmap(&mut m, &mut mem, 0x10000, 0x3000), -1);
    assert_eq!(sys_munmap(&mut m, &mut mem, 0x11000, 0x1000), -1);
    assert_eq!(sys_munmap(&mut m, &mut mem, 0x10000, 0x1000), 0);
    // and it can be mapped again
    assert_eq!(sys_mmap(&mut m, &mut mem, 0x10000, 0x2000, 1), 0);
}

#[test]
fn munmap_rejects_unaligned_or_unmapped() {
    let (mut mem, mut m) = setup();
    assert_eq!(sys_munmap(&mut m, &mut mem, 0x10000, 0x1000), -1);
    assert_eq!(sys_mmap(&mut m, &mut mem, 0x10000, 0x1000, 3), 0);
    assert_eq!(sys_munmap(&mut m, &mut mem, 0x10008, 0x1000), -1);
    assert_eq!(sys_munmap(&mut m, &mut mem, 0x10000, 0), 0);
}

#[test]
fn get_time_writes_time_val() {
    let (mut mem, mut m) = setup();
    assert_eq!(sys_mmap(&mut m, &mut mem, 0x10000, 0x1000, 3), 0);
    let pa = translated_refmut::<TimeVal>(&mem, current_user_token(&m), 0x10010).unwrap();
    let before = mem.read_byte(PhysAddr(pa.0 - 1));
    assert_eq!(sys_get_time(&m, &mut mem, 0x10010, 3_250_000), 0);
    let bytes: Vec<u8> = (0..16).map(|k| mem.read_byte(PhysAddr(pa.0 + k))).collect();
    let sec = u64::from_le_bytes(bytes[0..8].try_into().unwrap());
    let usec = u64::from_le_bytes(bytes[8..16].try_into().unwrap());
    assert_eq!((sec, usec), (3, 250_000));
    assert_eq!(mem.read_byte(PhysAddr(pa.0 - 1)), before);
    assert_eq!(mem.read_byte(PhysAddr(pa.0 + 16)), 0);
    assert_eq!(sys_get_time(&m, &mut mem, 0x10010, 999_999), 0);
    assert_eq!(mem.read_byte(PhysAddr(pa.0)), 0);
    assert_eq!(mem.read_byte(PhysAddr(pa.0 + 8)), (999_999u64 & 0xff) as u8);
}

#[test]
fn get_time_unmapped_pointer_fails() {
    let (mut mem, m) = setup();
    let free = mem.free_frames();
    assert_eq!(sys_get_time(&m, &mut mem, 0x10010, 5), -1);
    assert_eq!(mem.free_frames(), free);
}

#[test]
fn task_info_reports_current_task() {
    let (mut mem, mut m) = setup();
    assert_eq!(sys_mmap(&mut m, &mut mem, 0x10000, 0x2000, 3), 0);
    reocrd_sys_call(&mut m, 222);
    reocrd_sys_call(&mut m, 410);
    reocrd_sys_call(&mut m, 410);
    let (r, w) = sys_task_info(&m, &mem, 0x11000, 1234);
    assert_eq!(r, 0);
    let (pa, info) = w.unwrap();
    assert_eq!(Some(pa), translated_refmut::<u8>(&mem, current_user_token(&m), 0x11000));
    assert_eq!(info.status, TaskStatus::Ready);
    assert_eq!(info.time, 1234);
    assert_eq!(info.syscall_times[222], 1);
    assert_eq!(info.syscall_times[410], 2);
    assert_eq!(info.syscall_times[0], 0);
}

#[test]
fn task_info_unmapped_pointer_still_returns_zero() {
    let (mem, m) = setup();
    let (r, w) = sys_task_info(&m, &mem, 0x11000, 1234);
    assert_eq!(r, 0);
    assert!(w.is_none());
    assert!(get_task_info(&m, &mem, 0x11000, 1).is_none());
}

#[test]
fn yield_switches_to_next_ready_task() {
    let (_mem, mut m) = setup();
    assert_eq!(sys_yield(&mut m, 40), 0);
    assert_eq!(m.get_current(), 1);
    assert_eq!(m.task(0).task_status, TaskStatus::Ready);
    assert_eq!(m.task(1).task_status, TaskStatus::Running);
    assert_eq!(m.task(1).time, 40);
    assert_eq!(sys_yield(&mut m, 50), 0);
    assert_eq!(m.get_current(), 0);
    assert_eq!(m.task(1).task_status, TaskStatus::Ready);
    assert_eq!(m.task(0).time, 50);
    // a task keeps the time it was first scheduled
    assert_eq!(sys_yield(&mut m, 60), 0);
    assert_eq!(m.task(1).time, 40);
}

#[test]
fn get_time_pointer_check_uses_physical_address() {
    let (mut mem, mut m) = setup();
    assert_eq!(sys_mmap(&mut m, &mut mem, 0x20000, 0x1000, 3), 0);
    let pa: PhysAddr = translated_refmut::<TimeVal>(&mem, current_user_token(&m), 0x20fe0).unwrap();
    assert_eq!(pa.page_offset(), 0xfe0);
    assert_eq!(sys_get_time(&m, &mut mem, 0x20fe0, 7_000_001), 0);
    assert_eq!(mem.read_byte(PhysAddr(pa.0)), 7);
    assert_eq!(mem.read_byte(PhysAddr(pa.0 + 8)), 1);
}

#[test]
fn exec_finds_app_by_name() {
    let (mut mem, mut m) = setup();
    assert_eq!(sys_mmap(&mut m, &mut mem, 0x10000, 0x1000, 3), 0);
    let pa = translated_refmut::<u8>(&mem, current_user_token(&m), 0x10040).unwrap();
    for (k, b) in b"ch5_spawn1\0".iter().enumerate() {
        mem.write_byte(PhysAddr(pa.0 + k as u64), *b);
    }
    let names = vec![String::from("initproc"), String::from("ch5_spawn1"), String::from("ch5_spawn1")];
    assert_eq!(sys_exec(&m, &mem, 0x10040, &names), (0, Some(1)));
    let others = vec![String::from("initproc"), String::from("ch5_spawn")];
    assert_eq!(sys_exec(&m, &mem, 0x10040, &others), (-1, None));
    // an empty name matches no app
    assert_eq!(sys_exec(&m, &mem, 0x10050, &names), (-1, None));
    // with no task current, exec fails
    let mut m2 = TaskManager::new(&mut mem, 1);
    assert_eq!(m2.run_next_task(1), None);
    assert!(!m2.has_current_task());
    assert_eq!(sys_exec(&m2, &mem, 0x10040, &names), (-1, None));
}

#[test]
fn mmap_takes_one_frame_per_page_plus_missing_tables() {
    let (mut mem, mut m) = setup();
    let before = mem.free_frames();
    // a fresh space: one middle and one leaf table, and two data frames
    assert_eq!(sys_mmap(&mut m, &mut mem, 0x10000, 0x2000, 3), 0);
    assert_eq!(mem.free_frames(), before - 4);
    // the tables exist now: one frame for one page
    assert_eq!(sys_mmap(&mut m, &mut mem, 0x12000, 0x1000, 3), 0);
    assert_eq!(mem.free_frames(), before - 5);
}

#[test]
fn mmap_with_exactly_enough_frames() {
    // 2 root tables plus 3 frames: enough for one page of a fresh space
    let mut mem = PhysMemory::new(0x80000, 5);
    let mut m = TaskManager::new(&mut mem, 2);
    assert_eq!(mem.free_frames(), 3);
    assert_eq!(sys_mmap(&mut m, &mut mem, 0x10000, 0x1000, 1), 0);
    assert_eq!(mem.free_frames(), 0);
    // unmapping gives the data frame back, and mapping it again needs only it
    assert_eq!(sys_munmap(&mut m, &mut mem, 0x10000, 0x1000), 0);
    assert_eq!(mem.free_frames(), 1);
    assert_eq!(sys_mmap(&mut m, &mut mem, 0x10000, 0x1000, 2), 0);
    assert_eq!(mem.free_frames(), 0);
}

#[test]
fn munmap_gives_frames_back() {
    let (mut mem, mut m) = setup();
    let before = mem.free_frames();
    assert_eq!(sys_mmap(&mut m, &mut mem, 0x10000, 0x3000, 3), 0);
    assert_eq!(sys_munmap(&mut m, &mut mem, 0x10000, 0x3000), 0);
    // only the two page tables stay
    assert_eq!(mem.free_frames(), before - 2);
}

#[test]
fn mmapped_pages_start_zeroed() {
    let (mut mem, mut m) = setup();
    assert_eq!(sys_mmap(&mut m, &mut mem, 0x10000, 0x1000, 3), 0);
    let pa = translated_refmut::<u8>(&mem, current_user_token(&m), 0x10000).unwrap();
    mem.write_byte(PhysAddr(pa.0 + 5), 9);
    assert_eq!(sys_munmap(&mut m, &mut mem, 0x10000, 0x1000), 0);
    assert_eq!(sys_mmap(&mut m, &mut mem, 0x10000, 0x1000, 3), 0);
    let pa2 = translated_refmut::<u8>(&mem, current_user_token(&m), 0x10000).unwrap();
    assert_eq!(mem.read_byte(PhysAddr(pa2.0 + 5)), 0);
}

#[test]
fn get_time_object_may_end_at_page_end() {
    let (mut mem, mut m) = setup();
    assert_eq!(sys_mmap(&mut m, &mut mem, 0x20000, 0x1000, 3), 0);
    let pa: PhysAddr = translated_refmut::<TimeVal>(&mem, current_user_token(&m), 0x20ff0).unwrap();
    assert_eq!(pa.page_offset(), 0xff0);
    assert_eq!(sys_get_time(&m, &mut mem, 0x20ff0, 2_000_003), 0);
    assert_eq!(mem.read_byte(PhysAddr(pa.0)), 2);
    assert_eq!(mem.read_byte(PhysAddr(pa.0 + 8)), 3);
}
