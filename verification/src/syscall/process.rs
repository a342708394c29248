//! Process-related system calls.
use vstd::prelude::*;
use crate::mm::address::PhysAddr;
use crate::mm::memory::PhysMemory;
use crate::mm::page_tale::{
    entry, get_mut, law_token_round_trip, pte_ppn, translated_refmut, lookup, object_in_page, str_end, translated_str, user_obj_pa,
    user_page_valid, user_pa, user_str,
};
use crate::mm::address::VA_LIMIT;
use crate::task::{
    area_aligned, area_hi, area_lo, suspend_current_and_run_next, switched_to,
    with_status, current_root, current_user_token, mmapped, munmapped,
    do_sys_mmap, do_sys_munmap, get_task_info, lemma_data_write, mmap_ok, mmap_port_ok,
    TaskManager, TaskStatus, MAX_SYSCALL_NUM,
};

verus! {

/// A point in time: seconds and microseconds.
#[derive(Clone, Copy, PartialEq, Eq, Structural, Debug)]
pub struct TimeVal {
    pub sec: usize,
    pub usec: usize,
}

/// What `sys_task_info` reports of the current task.
#[derive(Clone, Copy, Debug)]
pub struct TaskInfo {
    pub status: TaskStatus,
    pub syscall_times: [u32; MAX_SYSCALL_NUM],
    pub time: usize,
}


/// `yield`: the current task gives up the processor; as
/// `suspend_current_and_run_next`, it becomes ready and goes to the back of
/// the ready queue, and the task at the front (itself, when no other was
/// waiting) becomes current and running. Returns 0.
pub fn sys_yield(manager: &mut TaskManager, now_ms: usize) -> (r: isize)
    requires
        old(manager).queue_ok(),
        old(manager).has_current(),
    ensures
        r == 0,
        final(manager).num_app() == old(manager).num_app(),
        forall|m: PhysMemory| #[trigger] old(manager).wf(m) ==> final(manager).wf(m),
        final(manager).queue_ok(),
        old(manager).family_wf() ==> final(manager).family_wf(),
        ({
            let mid = old(manager).tasks().update(
                old(manager).current(),
                with_status(old(manager).cur(), TaskStatus::Ready),
            );
            let q = old(manager).ready().push(old(manager).current() as usize);
            &&& final(manager).current() == q[0]
            &&& final(manager).ready() == q.drop_first()
            &&& switched_to(mid, *final(manager), final(manager).current(), now_ms)
        }),
{
    suspend_current_and_run_next(manager, now_ms);
    0
}

/// The time `us` microseconds split into seconds and microseconds.
pub open spec fn time_val_of(us: usize) -> TimeVal {
    TimeVal { sec: us / 1_000_000, usec: us % 1_000_000 }
}

/// What storing `tv` at physical address `pa` leaves in memory: `sec`, then
/// `usec`, each as eight little-endian bytes, from `pa` on; every other byte
/// and the free frames as in `m_old`.
pub open spec fn time_val_stored(m_old: PhysMemory, m_new: PhysMemory, pa: u64, tv: TimeVal) -> bool {
    &&& forall|k: u64| k < 8 ==> #[trigger] m_new.byte((pa + k) as u64) == ((tv.sec as u64) >> (8 * k)) as u8
    &&& forall|k: u64| k < 8 ==> #[trigger] m_new.byte((pa + 8 + k) as u64) == ((tv.usec as u64) >> (8 * k)) as u8
    &&& forall|q: u64| !(pa <= q < pa + 16) ==> #[trigger] m_new.byte(q) == m_old.byte(q)
    &&& m_new.free_set() == m_old.free_set()
}

/// `get_time`: store the time `now_us`, split into seconds and microseconds,
/// in the current task's `TimeVal` at user address `ts` (16 bytes, which must
/// lie in one page). Returns 0, or -1, changing nothing, when `ts` does not
/// translate or translates to the null address.
pub fn sys_get_time(manager: &TaskManager, mem: &mut PhysMemory, ts: usize, now_us: usize) -> (r: isize)
    requires
        manager.wf(*old(mem)),
        ts + 16 <= u64::MAX,
        user_pa(*old(mem), current_root(*manager), ts as u64) is Some ==> object_in_page(ts as u64, 16),
        user_obj_pa(*old(mem), current_root(*manager), ts as u64) is Some ==> user_page_valid(
            *old(mem),
            current_root(*manager),
            ts as u64,
        ),
    ensures
        manager.wf(*final(mem)),
        match user_obj_pa(*old(mem), current_root(*manager), ts as u64) {
            Some(pa) => r == 0 && time_val_stored(*old(mem), *final(mem), pa, time_val_of(now_us)),
            None => r == -1 && *final(mem) == *old(mem),
        },
{
    proof {
        manager.cur().memory_set.lemma_frames(*mem);
        law_token_round_trip(current_root(*manager));
    }
    match translated_refmut::<TimeVal>(mem, current_user_token(manager), ts as u64) {
        Some(pa) => {
            let us = now_us;
            let tv = TimeVal { sec: us / 1_000_000, usec: us % 1_000_000 };
            let ghost m0 = *mem;
            let ghost root = current_root(*manager);
            let ghost t = ts as u64;
            let ghost e = lookup(m0, root, (t % VA_LIMIT) / 4096)->0;
            let ghost q = pte_ppn(e);
            let ghost off = (t % VA_LIMIT) % 4096;
            proof {
                assert(off + 16 <= 4096);
                crate::mm::page_tale::lemma_pte_ppn_bound(e);
                assert(q * 4096 + off < 0x1_0000_0000_0000_0000) by (nonlinear_arith)
                    requires
                        q <= 0xfff_ffff_ffff,
                        off < 4096,
                ;
                assert(pa.0 == q * 4096 + off);
                assert(pa.0 / 4096 == q && pa.0 % 4096 == off) by (nonlinear_arith)
                    requires
                        pa.0 == q * 4096 + off,
                        off < 4096,
                ;
                assert(entry(m0, root, (t % VA_LIMIT) / 4096) == e);
                assert(manager.cur().memory_set.entry(m0, (t % VA_LIMIT) / 4096) == e);
                assert(manager.cur().memory_set.data().contains(q));
            }
            mem.write_u64_le(pa, tv.sec as u64);
            let ghost m1 = *mem;
            let hi = PhysAddr(pa.0 + 8);
            assert(hi.0 / 4096 == q && hi.0 % 4096 == off + 8) by (nonlinear_arith)
                requires
                    hi.0 == q * 4096 + off + 8,
                    off + 16 <= 4096,
            ;
            mem.write_u64_le(hi, tv.usec as u64);
            proof {
                lemma_data_write(*manager, m0, *mem, q);
                assert forall|k: u64| k < 8 implies #[trigger] mem.byte((pa.0 + k) as u64) == ((tv.sec
                    as u64) >> (8 * k)) as u8 by {
                    assert(m1.byte((pa.0 + k) as u64) == ((tv.sec as u64) >> (8 * k)) as u8);
                }
                assert forall|q2: u64| !(pa.0 <= q2 < pa.0 + 16) implies #[trigger] mem.byte(q2) == m0.byte(q2) by {
                    assert(m1.byte(q2) == m0.byte(q2));
                }
                assert forall|k: u64| k < 8 implies #[trigger] mem.byte((pa.0 + 8 + k) as u64) == ((tv.usec
                    as u64) >> (8 * k)) as u8 by {
                    assert(mem.byte((hi.0 + k) as u64) == ((tv.usec as u64) >> (8 * k)) as u8);
                }
            }
            0
        },
        None => -1,
    }
}

/// `task_info`: where the current task's `TaskInfo` at user address `ti`
/// lives and what to write there at time `now_ms` (nothing when `ti` does
/// not translate). Returns 0.
pub fn sys_task_info(manager: &TaskManager, mem: &PhysMemory, ti: usize, now_ms: usize) -> (r: (
    isize,
    Option<(PhysAddr, TaskInfo)>,
))
    requires
        manager.wf(*mem),
        ti + vstd::layout::size_of::<TaskInfo>() <= u64::MAX,
        user_pa(*mem, current_root(*manager), ti as u64) is Some ==> object_in_page(
            ti as u64,
            vstd::layout::size_of::<TaskInfo>() as int,
        ),
        user_obj_pa(*mem, current_root(*manager), ti as u64) is Some ==> now_ms >= manager.cur().time,
    ensures
        r.0 == 0,
        r.1 == match user_obj_pa(*mem, current_root(*manager), ti as u64) {
            Some(pa) => Some(
                (
                    PhysAddr(pa),
                    (TaskInfo {
                        status: manager.cur().task_status,
                        syscall_times: manager.cur().syscall_times,
                        time: (now_ms - manager.cur().time) as usize,
                    }),
                ),
            ),
            None => None,
        },
{
    let info = get_task_info(manager, mem, ti as u64, now_ms);
    (0, info)
}

/// `mmap`: see `do_sys_mmap`.
pub fn sys_mmap(manager: &mut TaskManager, mem: &mut PhysMemory, start: usize, len: usize, port: usize) -> (r: isize)
    requires
        old(manager).wf(*old(mem)),
        mmap_port_ok(port) && area_aligned(start) ==> start + len <= usize::MAX,
        mmap_ok(*old(manager), *old(mem), start, len, port) ==> old(mem).free_count()
            >= old(manager).cur().memory_set.frames_needed(*old(mem), area_lo(start), area_hi(start, len)),
    ensures
        r == if mmap_ok(*old(manager), *old(mem), start, len, port) {
            0isize
        } else {
            -1isize
        },
        r == -1 ==> *final(manager) == *old(manager) && *final(mem) == *old(mem),
        final(manager).wf(*final(mem)),
        r == 0 ==> mmapped(*old(manager), *final(manager), *old(mem), *final(mem), start, len, port),
        old(manager).queue_ok() ==> final(manager).queue_ok(),
        old(manager).family_wf() ==> final(manager).family_wf(),
{
    do_sys_mmap(manager, mem, start, len, port)
}

/// `munmap`: see `do_sys_munmap`.
pub fn sys_munmap(manager: &mut TaskManager, mem: &mut PhysMemory, start: usize, len: usize) -> (r: isize)
    requires
        old(manager).wf(*old(mem)),
        area_aligned(start) ==> start + len <= usize::MAX,
    ensures
        r == if area_aligned(start) && crate::task::current_range_all_mapped(
            *old(manager),
            *old(mem),
            area_lo(start),
            area_hi(start, len),
        ) {
            0isize
        } else {
            -1isize
        },
        r == -1 ==> *final(manager) == *old(manager) && *final(mem) == *old(mem),
        final(manager).wf(*final(mem)),
        r == 0 ==> munmapped(*old(manager), *final(manager), *old(mem), *final(mem), start, len),
        old(manager).queue_ok() ==> final(manager).queue_ok(),
        old(manager).family_wf() ==> final(manager).family_wf(),
{
    do_sys_munmap(manager, mem, start, len)
}


/// The index of the first app named `name`, if any.
fn find_app_by_name(app_names: &Vec<String>, name: &String) -> (r: Option<usize>)
    ensures
        match r {
            Some(i) => {
                &&& i < app_names@.len()
                &&& app_names@[i as int]@ == name@
                &&& forall|j: int| 0 <= j < i ==> (#[trigger] app_names@[j])@ != name@
            },
            None => forall|j: int| 0 <= j < app_names@.len() ==> (#[trigger] app_names@[j])@ != name@,
        },
{
    let mut i: usize = 0;
    while i < app_names.len()
        invariant
            i <= app_names@.len(),
            forall|j: int| 0 <= j < i ==> (#[trigger] app_names@[j])@ != name@,
        decreases app_names@.len() - i,
    {
        if app_names[i] == *name {
            return Some(i);
        }
        i = i + 1;
    }
    None
}

/// `exec`: read the program name at user address `path` of the current task
/// and find the app of that name among `app_names`. Returns 0 and the app's
/// index (to be loaded into the current task), or -1 and `None` when no
/// task is current or no app has that name.
pub fn sys_exec(manager: &TaskManager, mem: &PhysMemory, path: usize, app_names: &Vec<String>) -> (r: (
    isize,
    Option<usize>,
))
    requires
        manager.wf(*mem),
        exists|n: nat|
            path + n <= u64::MAX && #[trigger] str_end(*mem, current_root(*manager), (path + n) as u64),
    ensures
        match r.1 {
            Some(i) => {
                &&& r.0 == 0
                &&& manager.has_current()
                &&& i < app_names@.len()
                &&& app_names@[i as int]@ == user_str(*mem, current_root(*manager), path as u64)
                &&& forall|j: int|
                    0 <= j < i ==> (#[trigger] app_names@[j])@ != user_str(
                        *mem,
                        current_root(*manager),
                        path as u64,
                    )
            },
            None => {
                &&& r.0 == -1
                &&& manager.has_current() ==> forall|j: int|
                    0 <= j < app_names@.len() ==> (#[trigger] app_names@[j])@ != user_str(
                        *mem,
                        current_root(*manager),
                        path as u64,
                    )
            },
        },
{
    proof {
        manager.cur().memory_set.lemma_frames(*mem);
        law_token_round_trip(current_root(*manager));
    }
    if !manager.has_current_task() {
        return (-1, None);
    }
    let token = current_user_token(manager);
    let path = translated_str(mem, token, path as u64);
    match find_app_by_name(app_names, &path) {
        Some(i) => (0, Some(i)),
        None => (-1, None),
    }
}

/// The split of a time into seconds and microseconds loses nothing: the
/// microseconds are below one second and add back up to the time.
pub proof fn law_time_split(us: usize)
    ensures
        time_val_of(us).usec < 1_000_000,
        time_val_of(us).sec * 1_000_000 + time_val_of(us).usec == us,
{
    assert((us / 1_000_000) * 1_000_000 + us % 1_000_000 == us) by (nonlinear_arith);
}

/// Time read later is never earlier: for `us1 <= us2`, the split of `us1`
/// comes before or equals that of `us2`, seconds first.
pub proof fn law_time_monotone(us1: usize, us2: usize)
    requires
        us1 <= us2,
    ensures
        time_val_of(us1).sec < time_val_of(us2).sec || (time_val_of(us1).sec == time_val_of(us2).sec
            && time_val_of(us1).usec <= time_val_of(us2).usec),
{
    law_time_split(us1);
    law_time_split(us2);
    let s1 = us1 / 1_000_000;
    let s2 = us2 / 1_000_000;
    assert(s1 <= s2) by (nonlinear_arith)
        requires
            us1 <= us2,
            s1 == us1 / 1_000_000,
            s2 == us2 / 1_000_000,
    ;
}

} // verus!
