use os::mm::address::VirtPageNum;
use os::mm::memory::PhysMemory;
use os::task::{
    current_user_token, do_sys_mmap, exit_current_and_run_next, reocrd_sys_call, suspend_current_and_run_next,
    TaskManager, TaskStatus, MAX_SYSCALL_NUM,
};

#[test]
fn new_manager_tasks_ready() {
    let mut mem = PhysMemory::new(0x80000, 8);
    let m = TaskManager::new(&mut mem, 3);
    assert_eq!(m.get_num_app(), 3);
    assert_eq!(m.get_current(), 0);
    for i in 0..3 {
        let t = m.task(i);
        assert_eq!(t.task_status, TaskStatus::Ready);
        assert_eq!(t.time, 0);
        assert_eq!(t.syscall_times, [0u32; MAX_SYSCALL_NUM]);
    }
    assert_ne!(m.task(0).get_user_token(), m.task(1).get_user_token());
    assert_eq!(current_user_token(&m), m.task(0).get_user_token());
    assert_eq!(m.ready_queue(), &vec![1, 2]);
    for i in 0..3 {
        assert_eq!(m.task(i).parent, None);
        assert!(m.task(i).children.is_empty());
    }
    assert_eq!(m.get_current_token(), m.task(0).get_user_token());
}

#[test]
fn find_next_goes_round() {
    let mut mem = PhysMemory::new(0x80000, 8);
    let mut m = TaskManager::new(&mut mem, 3);
    // all ready: the next after 0 is 1
    assert_eq!(m.find_next_taks(), Some(1));
    m.mark_current_exited();
    assert_eq!(m.task(0).task_status, TaskStatus::Exited);
    assert_eq!(m.find_next_taks(), Some(1));
}

#[test]
fn find_next_wraps_to_current() {
    let mut mem = PhysMemory::new(0x80000, 8);
    let mut m = TaskManager::new(&mut mem, 1);
    assert_eq!(m.find_next_taks(), Some(0));
    m.mark_current_exited();
    assert_eq!(m.find_next_taks(), None);
    m.mark_current_suspended();
    assert_eq!(m.task(0).task_status, TaskStatus::Ready);
    assert_eq!(m.find_next_taks(), Some(0));
}

#[test]
fn reocrd_sys_call_counts() {
    let mut mem = PhysMemory::new(0x80000, 8);
    let mut m = TaskManager::new(&mut mem, 2);
    reocrd_sys_call(&mut m, 64);
    reocrd_sys_call(&mut m, 64);
    reocrd_sys_call(&mut m, 499);
    assert_eq!(m.task(0).syscall_times[64], 2);
    assert_eq!(m.task(0).syscall_times[499], 1);
    assert_eq!(m.task(0).syscall_times[63], 0);
    assert_eq!(m.task(1).syscall_times[64], 0);
}

#[test]
fn run_next_task_marks_running() {
    let mut mem = PhysMemory::new(0x80000, 8);
    let mut m = TaskManager::new(&mut mem, 3);
    assert_eq!(m.run_next_task(7), Some(1));
    assert_eq!(m.get_current(), 1);
    assert_eq!(m.task(1).task_status, TaskStatus::Running);
    assert_eq!(m.task(1).time, 7);
    assert_eq!(m.task(0).task_status, TaskStatus::Ready);
}

#[test]
fn suspend_alone_comes_back_to_itself() {
    let mut mem = PhysMemory::new(0x80000, 8);
    let mut m = TaskManager::new(&mut mem, 1);
    assert_eq!(suspend_current_and_run_next(&mut m, 3), 0);
    assert_eq!(m.task(0).task_status, TaskStatus::Running);
}

#[test]
fn exit_skips_finished_tasks() {
    let mut mem = PhysMemory::new(0x80000, 8);
    let mut m = TaskManager::new(&mut mem, 3);
    assert_eq!(suspend_current_and_run_next(&mut m, 0), 1);
    assert_eq!(m.ready_queue(), &vec![2, 0]);
    assert_eq!(exit_current_and_run_next(&mut m, &mut mem, 5, 1), Some(2));
    assert_eq!(m.task(1).task_status, TaskStatus::Zombie);
    assert_eq!(m.task(1).exit_code, 5);
    assert_eq!(m.ready_queue(), &vec![0]);
    assert_eq!(exit_current_and_run_next(&mut m, &mut mem, -1, 2), Some(0));
    assert!(m.has_current_task());
    assert_eq!(m.get_current(), 0);
    assert!(m.ready_queue().is_empty());
    assert_eq!(m.task(2).task_status, TaskStatus::Zombie);
    assert_eq!(m.task(2).exit_code, -1);
    // the exited tasks never come back: the initial task yields to itself
    assert_eq!(suspend_current_and_run_next(&mut m, 3), 0);
}

#[test]
fn suspend_goes_round_past_zombies() {
    let mut mem = PhysMemory::new(0x80000, 8);
    let mut m = TaskManager::new(&mut mem, 4);
    assert_eq!(suspend_current_and_run_next(&mut m, 0), 1);
    assert_eq!(exit_current_and_run_next(&mut m, &mut mem, 0, 1), Some(2));
    assert_eq!(suspend_current_and_run_next(&mut m, 2), 3);
    assert_eq!(suspend_current_and_run_next(&mut m, 3), 0);
    assert_eq!(suspend_current_and_run_next(&mut m, 4), 2);
    assert_eq!(suspend_current_and_run_next(&mut m, 5), 3);
    assert_eq!(m.task(1).task_status, TaskStatus::Zombie);
}

#[test]
fn no_tasks_none_ready() {
    let mut mem = PhysMemory::new(0x80000, 8);
    let mut m = TaskManager::new(&mut mem, 0);
    assert_eq!(m.get_num_app(), 0);
    assert!(!m.has_current_task());
    assert_eq!(m.find_next_taks(), None);
    assert_eq!(m.run_next_task(1), None);
}

#[test]
fn exit_of_last_task_leaves_no_current_task() {
    let mut mem = PhysMemory::new(0x80000, 8);
    let mut m = TaskManager::new(&mut mem, 2);
    assert_eq!(m.run_next_task(1), Some(1));
    assert!(m.ready_queue().is_empty());
    assert_eq!(exit_current_and_run_next(&mut m, &mut mem, 3, 1), None);
    assert!(!m.has_current_task());
    assert_eq!(m.task(1).task_status, TaskStatus::Zombie);
    // the zombie is never picked again
    assert_eq!(m.run_next_task(2), None);
}

#[test]
fn exit_releases_data_pages() {
    let mut mem = PhysMemory::new(0x80000, 32);
    let mut m = TaskManager::new(&mut mem, 2);
    assert_eq!(suspend_current_and_run_next(&mut m, 0), 1);
    assert_eq!(do_sys_mmap(&mut m, &mut mem, 0x10000, 0x3000, 3), 0);
    let before = mem.free_frames();
    assert_eq!(exit_current_and_run_next(&mut m, &mut mem, 0, 1), Some(0));
    // the three data frames are free again; the page tables stay
    assert_eq!(mem.free_frames(), before + 3);
    for vpn in 0x10..0x13 {
        let e = m.task(1).memory_set.translate(&mem, VirtPageNum(vpn)).unwrap();
        assert!(!e.is_valid());
    }
    // the other task can map the released frames
    assert_eq!(do_sys_mmap(&mut m, &mut mem, 0x10000, 0x3000, 3), 0);
}

#[test]
fn exit_hands_children_to_init_task() {
    let mut mem = PhysMemory::new(0x80000, 8);
    let mut m = TaskManager::new(&mut mem, 5);
    m.add_child(0, 1);
    m.add_child(1, 2);
    m.add_child(1, 3);
    m.add_child(0, 4);
    assert_eq!(m.task(1).children, vec![2, 3]);
    assert_eq!(m.task(2).parent, Some(1));
    assert_eq!(suspend_current_and_run_next(&mut m, 0), 1);
    assert_eq!(exit_current_and_run_next(&mut m, &mut mem, 7, 1), Some(2));
    // the children of task 1 are appended, in order, to those of the initial task
    assert_eq!(m.task(0).children, vec![1, 4, 2, 3]);
    assert_eq!(m.task(2).parent, Some(0));
    assert_eq!(m.task(3).parent, Some(0));
    assert!(m.task(1).children.is_empty());
    assert_eq!(m.task(1).parent, Some(0));
    assert_eq!(m.task(4).parent, Some(0));
}

#[test]
fn yield_puts_task_at_back_of_queue() {
    let mut mem = PhysMemory::new(0x80000, 8);
    let mut m = TaskManager::new(&mut mem, 3);
    assert_eq!(suspend_current_and_run_next(&mut m, 5), 1);
    assert_eq!(m.ready_queue(), &vec![2, 0]);
    assert_eq!(m.task(0).task_status, TaskStatus::Ready);
    assert_eq!(m.task(1).task_status, TaskStatus::Running);
    assert_eq!(suspend_current_and_run_next(&mut m, 6), 2);
    assert_eq!(m.ready_queue(), &vec![0, 1]);
}
