//! Tasks and the task manager.
use vstd::prelude::*;
use crate::mm::memory::{changed_only, PhysMemory};
use crate::mm::address::{vpn_index, same_slot, lemma_same_slot_mod, VirtAddr, VirtPageNum, VA_LIMIT};
use crate::mm::memory_set::{
    area_pages, end_page, first_page, frames_needed, in_pages, MapPermission, MemorySet, MAP_R, MAP_U, MAP_W,
    MAP_X, SLOTS,
};
use crate::mm::page_tale::{
    dirs, leaf_key, leaves, zeroed, get_mut, law_token_round_trip, lookup, object_in_page, pte_ppn, pte_valid, token_root, user_obj_pa, user_pa, PTE_R, PTE_U, PTE_V, PTE_W, PTE_X,
};
use crate::mm::address::{PhysAddr, PPN_LIMIT};
use crate::syscall::process::TaskInfo;

verus! {

/// Number of system-call numbers counted per task.
pub const MAX_SYSCALL_NUM: usize = 500;

/// The scheduling state of a task.
#[derive(Clone, Copy, PartialEq, Eq, Structural, Debug)]
pub enum TaskStatus {
    Ready,
    Running,
    Exited,
    Zombie,
}


/// The task that adopts the children of a task that exits.
pub const INIT_TASK: usize = 0;

/// A task: its scheduling state, how often it made each system call, when
/// it was first scheduled, its address space, the code it exited with, and
/// its place in the process tree (its parent and its children, by index).
pub struct TaskControlBlock {
    pub task_status: TaskStatus,
    pub syscall_times: [u32; MAX_SYSCALL_NUM],
    pub time: usize,
    pub memory_set: MemorySet,
    pub exit_code: i32,
    pub parent: Option<usize>,
    pub children: Vec<usize>,
}

impl TaskControlBlock {
    /// The `satp` value of the task's address space.
    pub fn get_user_token(&self) -> (r: u64)
        ensures
            r == 0x8000_0000_0000_0000u64 | self.memory_set.page_table().root(),
    {
        self.memory_set.token()
    }
}

/// The tasks of the system, which of them is current, and the queue of
/// ready tasks waiting to run (front first); `running` is false when no task
/// is current (after the last ready task exited).
pub struct TaskManager {
    num_app: usize,
    tasks: Vec<TaskControlBlock>,
    current_task: usize,
    running: bool,
    ready: Vec<usize>,
}

/// The address spaces of tasks `i` and `j` share no frame.
pub open spec fn frames_disjoint(tasks: Seq<TaskControlBlock>, i: int, j: int) -> bool {
    tasks[i].memory_set.frames().disjoint(tasks[j].memory_set.frames())
}

impl TaskManager {
    pub closed spec fn tasks(&self) -> Seq<TaskControlBlock> {
        self.tasks@
    }

    pub closed spec fn current(&self) -> int {
        self.current_task as int
    }

    pub closed spec fn num_app(&self) -> int {
        self.num_app as int
    }

    /// Whether some task is current.
    pub closed spec fn has_current(&self) -> bool {
        self.running
    }

    /// The ready queue, front first.
    pub closed spec fn ready(&self) -> Seq<usize> {
        self.ready@
    }

    /// The ready queue holds each task at most once, only ready tasks and
    /// never the current one; the current task, if any, is ready or running.
    pub open spec fn queue_ok(&self) -> bool {
        &&& self.tasks().len() == self.num_app()
        &&& self.ready().no_duplicates()
        &&& forall|k: int|
            0 <= k < self.ready().len() ==> (#[trigger] self.ready()[k]) < self.num_app()
                && self.tasks()[self.ready()[k] as int].task_status == TaskStatus::Ready
        &&& self.has_current() ==> {
            &&& 0 <= self.current() < self.num_app()
            &&& !self.ready().contains(self.current() as usize)
            &&& self.cur().task_status == TaskStatus::Ready || self.cur().task_status
                == TaskStatus::Running
        }
    }

    /// Every child of a task is a task whose parent is that task.
    pub open spec fn family_wf(&self) -> bool {
        family_ok(self.tasks())
    }

    /// The current task.
    pub open spec fn cur(&self) -> TaskControlBlock {
        self.tasks()[self.current()]
    }

    /// The current index names a task, every address space is well formed
    /// in `mem`, and no two address spaces share a frame.
    pub open spec fn wf(&self, mem: PhysMemory) -> bool {
        &&& mem.wf()
        &&& self.tasks().len() == self.num_app()
        &&& 0 <= self.current() < self.num_app()
        &&& forall|i: int|
            0 <= i < self.tasks().len() ==> (#[trigger] self.tasks()[i]).memory_set.wf(mem)
        &&& forall|i: int, j: int|
            0 <= i < self.tasks().len() && 0 <= j < self.tasks().len() && i != j
                ==> #[trigger] frames_disjoint(self.tasks(), i, j)
    }

    /// `num_app` ready tasks, each with an empty address space; the first is
    /// current.
    pub fn new(mem: &mut PhysMemory, num_app: usize) -> (r: TaskManager)
        requires
            old(mem).wf(),
            old(mem).free_count() >= num_app,
        ensures
            final(mem).wf(),
            num_app > 0 ==> r.wf(*final(mem)),
            r.num_app() == num_app,
            r.tasks().len() == num_app,
            r.current() == 0,
            r.has_current() == (num_app > 0),
            r.queue_ok(),
            r.family_wf(),
            r.ready() == Seq::new(if num_app > 0 { (num_app - 1) as nat } else { 0 }, |k: int| (k + 1) as usize),
            forall|i: int|
                0 <= i < num_app ==> {
                    &&& (#[trigger] r.tasks()[i]).task_status == TaskStatus::Ready
                    &&& r.tasks()[i].parent is None
                    &&& r.tasks()[i].children@.len() == 0
                    &&& r.tasks()[i].time == 0
                    &&& forall|k: int| 0 <= k < MAX_SYSCALL_NUM ==> r.tasks()[i].syscall_times[k] == 0
                    &&& forall|v: u64| #[trigger] r.tasks()[i].memory_set.entry(*final(mem), v) == 0
                },
    {
        let mut tasks: Vec<TaskControlBlock> = Vec::new();
        let mut i: usize = 0;
        while i < num_app
            invariant
                mem.wf(),
                i <= num_app,
                tasks@.len() == i,
                mem.free_count() + i >= old(mem).free_count(),
                old(mem).free_count() >= num_app,
                forall|j: int|
                    0 <= j < i ==> {
                        &&& (#[trigger] tasks@[j]).memory_set.wf(*mem)
                        &&& tasks@[j].task_status == TaskStatus::Ready
                        &&& tasks@[j].parent is None
                        &&& tasks@[j].children@.len() == 0
                        &&& tasks@[j].time == 0
                        &&& forall|k: int| 0 <= k < MAX_SYSCALL_NUM ==> tasks@[j].syscall_times[k] == 0
                        &&& forall|v: u64| #[trigger] tasks@[j].memory_set.entry(*mem, v) == 0
                    },
                forall|a: int, b: int|
                    0 <= a < i && 0 <= b < i && a != b ==> #[trigger] frames_disjoint(tasks@, a, b),
            decreases num_app - i,
        {
            let ghost m0 = *mem;
            let ghost t0 = tasks@;
            let memory_set = MemorySet::new_bare(mem);
            let tcb = TaskControlBlock {
                task_status: TaskStatus::Ready,
                syscall_times: [0u32; MAX_SYSCALL_NUM],
                time: 0,
                memory_set,
                exit_code: 0,
                parent: None,
                children: Vec::new(),
            };
            tasks.push(tcb);
            proof {
                assert forall|j: int| 0 <= j < i implies {
                    &&& (#[trigger] tasks@[j]).memory_set.wf(*mem)
                    &&& forall|v: u64| #[trigger] tasks@[j].memory_set.entry(*mem, v) == 0
                } by {
                    assert(tasks@[j] == t0[j]);
                    t0[j].memory_set.lemma_frames(m0);
                    assert(t0[j].memory_set.frames().disjoint(Set::<u64>::empty()));
                    t0[j].memory_set.lemma_unaffected(m0, *mem, Set::<u64>::empty());
                    assert forall|v: u64| #[trigger] tasks@[j].memory_set.entry(*mem, v) == 0 by {
                        assert(t0[j].memory_set.entry(m0, v) == 0);
                    }
                }
                assert forall|a: int, b: int|
                    0 <= a < i + 1 && 0 <= b < i + 1 && a != b implies #[trigger] frames_disjoint(tasks@, a, b) by {
                    if a == i {
                        t0[b].memory_set.lemma_frames(m0);
                        assert(tasks@[b] == t0[b]);
                    } else if b == i {
                        t0[a].memory_set.lemma_frames(m0);
                        assert(tasks@[a] == t0[a]);
                    } else {
                        assert(tasks@[a] == t0[a]);
                        assert(tasks@[b] == t0[b]);
                        assert(frames_disjoint(t0, a, b));
                    }
                }
            }
            i = i + 1;
        }
        let mut ready: Vec<usize> = Vec::new();
        let mut k: usize = 1;
        while k < num_app
            invariant
                1 <= k,
                k <= num_app || num_app == 0,
                num_app == 0 ==> k == 1,
                ready@ == Seq::new((k - 1) as nat, |j: int| (j + 1) as usize),
            decreases num_app - k,
        {
            ready.push(k);
            k = k + 1;
            assert(ready@ =~= Seq::new((k - 1) as nat, |j: int| (j + 1) as usize));
        }
        assert(num_app > 0 ==> k == num_app);
        assert(ready@ =~= Seq::new(if num_app > 0 { (num_app - 1) as nat } else { 0 }, |j: int| (j + 1) as usize)) by {
            if num_app == 0 {
                assert(ready@.len() == 0);
            }
        }
        TaskManager { num_app, tasks, current_task: 0, running: num_app > 0, ready }
    }

    /// `self` is `old` with the current task's status set to `status`.
    pub open spec fn status_set(&self, old: TaskManager, status: TaskStatus) -> bool {
        &&& self.num_app() == old.num_app()
        &&& self.current() == old.current()
        &&& self.has_current() == old.has_current()
        &&& self.tasks().len() == old.tasks().len()
        &&& self.ready() == old.ready()
        &&& self.cur() == with_status(old.cur(), status)
        &&& forall|i: int|
            0 <= i < self.tasks().len() && i != self.current() ==> #[trigger] self.tasks()[i]
                == old.tasks()[i]
    }

    fn set_current_status(&mut self, status: TaskStatus)
        requires
            0 <= old(self).current() < old(self).tasks().len(),
        ensures
            final(self).status_set(*old(self), status),
    {
        let current = self.current_task;
        self.tasks[current].task_status = status;
    }

    /// Number of tasks.
    pub fn get_num_app(&self) -> (r: usize)
        ensures
            r == self.num_app(),
    {
        self.num_app
    }

    /// Whether some task is current.
    pub fn has_current_task(&self) -> (r: bool)
        ensures
            r == self.has_current(),
    {
        self.running
    }

    /// Record `child` as a new child of `parent`: the bookkeeping of the
    /// process tree that creating a task by fork does. The child must have
    /// no parent yet.
    pub fn add_child(&mut self, parent: usize, child: usize)
        requires
            parent < old(self).tasks().len(),
            child < old(self).tasks().len(),
            old(self).tasks()[child as int].parent is None,
        ensures
            final(self).num_app() == old(self).num_app(),
            final(self).current() == old(self).current(),
            final(self).has_current() == old(self).has_current(),
            final(self).ready() == old(self).ready(),
            final(self).tasks().len() == old(self).tasks().len(),
            final(self).tasks()[parent as int].children@ == old(self).tasks()[parent as int].children@.push(child),
            final(self).tasks()[child as int].parent == Some(parent),
            forall|i: int|
                0 <= i < old(self).tasks().len() ==> {
                    &&& (#[trigger] final(self).tasks()[i]).task_status == old(self).tasks()[i].task_status
                    &&& final(self).tasks()[i].memory_set == old(self).tasks()[i].memory_set
                    &&& final(self).tasks()[i].syscall_times == old(self).tasks()[i].syscall_times
                    &&& final(self).tasks()[i].time == old(self).tasks()[i].time
                    &&& final(self).tasks()[i].exit_code == old(self).tasks()[i].exit_code
                    &&& (i != parent ==> final(self).tasks()[i].children == old(self).tasks()[i].children)
                    &&& (i != child ==> final(self).tasks()[i].parent == old(self).tasks()[i].parent)
                },
            forall|m: PhysMemory| #[trigger] old(self).wf(m) ==> final(self).wf(m),
            old(self).queue_ok() ==> final(self).queue_ok(),
            old(self).family_wf() ==> final(self).family_wf(),
    {
        let ghost t0 = self.tasks@;
        let mut nc: Vec<usize> = Vec::new();
        let n = self.tasks[parent].children.len();
        let mut j: usize = 0;
        while j < n
            invariant
                j <= n,
                parent < t0.len(),
                self.tasks@ == t0,
                n == t0[parent as int].children@.len(),
                nc@ == t0[parent as int].children@.subrange(0, j as int),
            decreases n - j,
        {
            nc.push(self.tasks[parent].children[j]);
            j = j + 1;
            assert(nc@ =~= t0[parent as int].children@.subrange(0, j as int));
        }
        nc.push(child);
        assert(nc@ =~= t0[parent as int].children@.push(child));
        let ghost old_self = *self;
        self.tasks[parent].children = nc;
        self.tasks[child].parent = Some(parent);
        proof {
            assert forall|m: PhysMemory| #[trigger] old_self.wf(m) implies self.wf(m) by {
                lemma_same_spaces(old_self, *self);
            }
            let t1 = self.tasks@;
            if old_self.queue_ok() {
                assert forall|k: int| 0 <= k < self.ready().len() implies (#[trigger] self.ready()[k])
                    < self.num_app() && self.tasks()[self.ready()[k] as int].task_status == TaskStatus::Ready by {
                    assert(old_self.ready()[k] < old_self.num_app());
                }
            }
            if old_self.family_wf() {
                assert forall|i: int, k: int|
                    0 <= i < t1.len() && 0 <= k < t1[i].children@.len() implies {
                        let c = #[trigger] t1[i].children@[k];
                        &&& c < t1.len()
                        &&& t1[c as int].parent == Some(i as usize)
                    } by {
                    let c = t1[i].children@[k];
                    if i == parent as int && k == t0[i].children@.len() {
                        assert(c == child);
                    } else {
                        assert(c == t0[i].children@[k]);
                        assert(t0[c as int].parent == Some(i as usize));
                        assert(c != child);
                    }
                }
            }
        }
    }

    /// The ready queue, front first.
    pub fn ready_queue(&self) -> (r: &Vec<usize>)
        ensures
            r@ == self.ready(),
    {
        &self.ready
    }

    /// Index of the current task.
    pub fn get_current(&self) -> (r: usize)
        ensures
            r == self.current(),
    {
        self.current_task
    }

    /// Task `i`.
    pub fn task(&self, i: usize) -> (r: &TaskControlBlock)
        requires
            i < self.tasks().len(),
        ensures
            *r == self.tasks()[i as int],
    {
        &self.tasks[i]
    }


    /// Mark the current task ready to run again.
    pub fn mark_current_suspended(&mut self)
        requires
            0 <= old(self).current() < old(self).tasks().len(),
        ensures
            final(self).status_set(*old(self), TaskStatus::Ready),
    {
        self.set_current_status(TaskStatus::Ready);
    }

    /// Mark the current task exited.
    pub fn mark_current_exited(&mut self)
        requires
            0 <= old(self).current() < old(self).tasks().len(),
        ensures
            final(self).status_set(*old(self), TaskStatus::Exited),
    {
        self.set_current_status(TaskStatus::Exited);
    }

    /// The task after the current one, going round, that is ready: the
    /// first of tasks `current + 1, current + 2, ..., current + num_app`
    /// (modulo `num_app`) whose status is `Ready`.
    pub fn find_next_taks(&self) -> (r: Option<usize>)
        requires
            self.tasks().len() == self.num_app(),
            self.num_app() == 0 || self.current() < self.num_app(),
            self.current() + self.num_app() + 1 <= usize::MAX,
        ensures
            match r {
                Some(id) => is_next_ready(self.tasks(), self.current(), self.num_app(), id as int),
                None => none_ready(self.tasks(), self.num_app()),
            },
    {
        let current = self.current_task;
        let n = self.num_app;
        let mut id = current + 1;
        while id < current + n + 1
            invariant
                current == self.current(),
                n == self.num_app(),
                self.tasks().len() == n,
                n == 0 || current < n,
                current + n + 1 <= usize::MAX,
                current + 1 <= id <= current + n + 1,
                forall|k: int|
                    1 <= k < id - current ==> (#[trigger] self.tasks()[(current + k) % (n as int)]).task_status
                        != TaskStatus::Ready,
            decreases current + n + 1 - id,
        {
            let j = id % n;
            if self.tasks[j].task_status == TaskStatus::Ready {
                proof {
                    lemma_rr_distance(current as int, id - current, n as int);
                }
                return Some(j);
            }
            id = id + 1;
        }
        proof {
            assert forall|i: int| 0 <= i < n implies (#[trigger] self.tasks()[i]).task_status != TaskStatus::Ready by {
                assert(current < n);
                lemma_rr_cover(current as int, i, n as int);
                let k = rr_distance(current as int, i, n as int);
                assert(self.tasks()[(current + k) % (n as int)].task_status != TaskStatus::Ready);
            }
        }
        None
    }

    /// The `satp` value of the current task's address space.
    pub fn get_current_token(&self) -> (r: u64)
        requires
            0 <= self.current() < self.tasks().len(),
        ensures
            r == 0x8000_0000_0000_0000u64 | self.cur().memory_set.page_table().root(),
    {
        self.tasks[self.current_task].get_user_token()
    }
}

/// Task `id` is the first ready task after `cur`, going round the `n` tasks
/// (coming back to `cur` itself last).
pub open spec fn is_next_ready(tasks: Seq<TaskControlBlock>, cur: int, n: int, id: int) -> bool {
    &&& 0 <= id < n
    &&& tasks[id].task_status == TaskStatus::Ready
    &&& forall|k: int|
        1 <= k < rr_distance(cur, id, n) ==> (#[trigger] tasks[(cur + k) % n]).task_status
            != TaskStatus::Ready
}

/// None of the `n` tasks is ready.
pub open spec fn none_ready(tasks: Seq<TaskControlBlock>, n: int) -> bool {
    forall|i: int| 0 <= i < n ==> (#[trigger] tasks[i]).task_status != TaskStatus::Ready
}

/// How many steps forward from `cur` task `id` is, going round `n` tasks
/// (between 1 and `n`).
pub open spec fn rr_distance(cur: int, id: int, n: int) -> int {
    if id > cur {
        id - cur
    } else {
        id + n - cur
    }
}

proof fn lemma_rr_distance(cur: int, k: int, n: int)
    requires
        0 <= cur < n,
        1 <= k <= n,
    ensures
        rr_distance(cur, (cur + k) % n, n) == k,
        0 <= (cur + k) % n < n,
{
    if cur + k < n {
        assert((cur + k) % n == cur + k) by (nonlinear_arith)
            requires 0 <= cur + k < n;
    } else {
        assert((cur + k) % n == cur + k - n) by (nonlinear_arith)
            requires n <= cur + k < 2 * n;
    }
}

proof fn lemma_rr_cover(cur: int, i: int, n: int)
    requires
        0 <= cur < n,
        0 <= i < n,
    ensures
        1 <= rr_distance(cur, i, n) <= n,
        (cur + rr_distance(cur, i, n)) % n == i,
{
    let k = rr_distance(cur, i, n);
    lemma_rr_distance(cur, k, n);
    if i > cur {
        assert((cur + k) % n == i) by (nonlinear_arith)
            requires cur + k == i, 0 <= i < n;
    } else {
        assert((cur + k) % n == i) by (nonlinear_arith)
            requires cur + k == i + n, 0 <= i < n;
    }
}

/// The `satp` value of the current task's address space.
pub fn current_user_token(manager: &TaskManager) -> (r: u64)
    requires
        0 <= manager.current() < manager.tasks().len(),
    ensures
        r == 0x8000_0000_0000_0000u64 | manager.cur().memory_set.page_table().root(),
{
    manager.get_current_token()
}

/// Count one more call of system call `sys_call_id` by the current task.
pub fn reocrd_sys_call(manager: &mut TaskManager, sys_call_id: usize)
    requires
        0 <= old(manager).current() < old(manager).tasks().len(),
        sys_call_id < MAX_SYSCALL_NUM,
        old(manager).cur().syscall_times[sys_call_id as int] < u32::MAX,
    ensures
        final(manager).num_app() == old(manager).num_app(),
        final(manager).current() == old(manager).current(),
        final(manager).has_current() == old(manager).has_current(),
        final(manager).tasks().len() == old(manager).tasks().len(),
        final(manager).ready() == old(manager).ready(),
        final(manager).cur() == (TaskControlBlock {
            syscall_times: final(manager).cur().syscall_times,
            ..old(manager).cur()
        }),
        old(manager).queue_ok() ==> final(manager).queue_ok(),
        old(manager).family_wf() ==> final(manager).family_wf(),
        final(manager).cur().syscall_times@ == old(manager).cur().syscall_times@.update(
            sys_call_id as int,
            (old(manager).cur().syscall_times[sys_call_id as int] + 1) as u32,
        ),
        forall|i: int|
            0 <= i < final(manager).tasks().len() && i != final(manager).current()
                ==> #[trigger] final(manager).tasks()[i] == old(manager).tasks()[i],
{
    let ghost m0 = *manager;
    manager.count_call(sys_call_id);
    proof {
        lemma_cur_fields_changed(m0, *manager);
    }
}

impl TaskManager {
    fn count_call(&mut self, id: usize)
        requires
            0 <= old(self).current() < old(self).tasks().len(),
            id < MAX_SYSCALL_NUM,
            old(self).cur().syscall_times[id as int] < u32::MAX,
        ensures
            final(self).num_app() == old(self).num_app(),
            final(self).current() == old(self).current(),
            final(self).has_current() == old(self).has_current(),
            final(self).tasks().len() == old(self).tasks().len(),
            final(self).ready() == old(self).ready(),
            final(self).cur() == (TaskControlBlock { syscall_times: final(self).cur().syscall_times, ..old(self).cur() }),
            final(self).cur().syscall_times@ == old(self).cur().syscall_times@.update(
                id as int,
                (old(self).cur().syscall_times[id as int] + 1) as u32,
            ),
            forall|i: int|
                0 <= i < final(self).tasks().len() && i != final(self).current()
                    ==> #[trigger] final(self).tasks()[i] == old(self).tasks()[i],
    {
        let current = self.current_task;
        let c = self.tasks[current].syscall_times[id];
        self.tasks[current].syscall_times[id] = c + 1;
    }
}


/// `new` is `old` with only the current task's address space replaced; the
/// new space's frames came from the old space's frames or free frames, and
/// memory changed only in the two spaces' frames and in free frames.
pub open spec fn current_space_replaced(
    old: TaskManager,
    new: TaskManager,
    m_old: PhysMemory,
    m_new: PhysMemory,
) -> bool {
    &&& new.num_app() == old.num_app()
    &&& new.current() == old.current()
    &&& new.has_current() == old.has_current()
    &&& new.tasks().len() == old.tasks().len()
    &&& new.ready() == old.ready()
    &&& new.cur() == (TaskControlBlock { memory_set: new.cur().memory_set, ..old.cur() })
    &&& forall|i: int|
        0 <= i < new.tasks().len() && i != new.current() ==> #[trigger] new.tasks()[i]
            == old.tasks()[i]
    &&& new.cur().memory_set.frames().subset_of(
        old.cur().memory_set.frames().union(m_old.free_set()),
    )
    &&& changed_only(
        m_old,
        m_new,
        old.cur().memory_set.frames().union(new.cur().memory_set.frames()),
    )
}

/// A change of the current task that keeps its status and its place in the
/// process tree, and keeps the other tasks and the ready queue, keeps the
/// queue and the tree well formed.
pub proof fn lemma_cur_fields_changed(old: TaskManager, new: TaskManager)
    requires
        new.num_app() == old.num_app(),
        new.current() == old.current(),
        new.has_current() == old.has_current(),
        new.tasks().len() == old.tasks().len(),
        new.ready() == old.ready(),
        0 <= old.current() < old.tasks().len(),
        new.cur().task_status == old.cur().task_status,
        new.cur().parent == old.cur().parent,
        new.cur().children == old.cur().children,
        forall|i: int|
            0 <= i < new.tasks().len() && i != new.current() ==> #[trigger] new.tasks()[i]
                == old.tasks()[i],
    ensures
        old.queue_ok() ==> new.queue_ok(),
        old.family_wf() ==> new.family_wf(),
{
    if old.queue_ok() {
        assert forall|k: int| 0 <= k < new.ready().len() implies (#[trigger] new.ready()[k]) < new.num_app()
            && new.tasks()[new.ready()[k] as int].task_status == TaskStatus::Ready by {
            assert(old.ready()[k] < old.num_app());
        }
    }
    if old.family_wf() {
        assert forall|i: int, k: int|
            0 <= i < new.tasks().len() && 0 <= k < new.tasks()[i].children@.len() implies {
                let c = #[trigger] new.tasks()[i].children@[k];
                &&& c < new.tasks().len()
                &&& new.tasks()[c as int].parent == Some(i as usize)
            } by {
            assert(new.tasks()[i].children == old.tasks()[i].children);
            let c = old.tasks()[i].children@[k];
            assert(old.tasks()[c as int].parent == Some(i as usize));
        }
    }
}

/// Replacing the current task's address space as above leaves every other
/// address space, and the manager's invariant, intact.
pub proof fn lemma_current_space_replaced(
    old: TaskManager,
    new: TaskManager,
    m_old: PhysMemory,
    m_new: PhysMemory,
)
    requires
        old.wf(m_old),
        m_new.wf(),
        new.cur().memory_set.wf(m_new),
        current_space_replaced(old, new, m_old, m_new),
    ensures
        new.wf(m_new),
        forall|i: int, v: u64|
            0 <= i < new.tasks().len() && i != new.current() ==> #[trigger] new.tasks()[i].memory_set.entry(
                m_new,
                v,
            ) == old.tasks()[i].memory_set.entry(m_old, v),
{
    let c = old.current();
    let nc = old.cur().memory_set.frames().union(new.cur().memory_set.frames());
    assert forall|i: int| 0 <= i < new.tasks().len() && i != c implies {
        &&& (#[trigger] new.tasks()[i]).memory_set.wf(m_new)
        &&& forall|v: u64| #[trigger] new.tasks()[i].memory_set.entry(m_new, v) == old.tasks()[i].memory_set.entry(m_old, v)
        &&& new.tasks()[i].memory_set.frames().disjoint(nc)
    } by {
        let ms = old.tasks()[i].memory_set;
        assert(old.tasks()[i].memory_set.wf(m_old));
        ms.lemma_frames(m_old);
        assert(frames_disjoint(old.tasks(), i, c));
        assert(ms.frames().disjoint(nc)) by {
            assert forall|p: u64| ms.frames().contains(p) implies !nc.contains(p) by {
                assert(!m_old.free_set().contains(p));
                assert(!old.cur().memory_set.frames().contains(p));
                assert(!new.cur().memory_set.frames().contains(p));
            }
        }
        ms.lemma_unaffected(m_old, m_new, nc);
    }
    assert forall|i: int| 0 <= i < new.tasks().len() implies (#[trigger] new.tasks()[i]).memory_set.wf(m_new) by {
        if i != c {
            assert(new.tasks()[i].memory_set.frames().disjoint(nc));
        }
    }
    assert forall|i: int, j: int|
        0 <= i < new.tasks().len() && 0 <= j < new.tasks().len() && i != j implies #[trigger] frames_disjoint(new.tasks(), i, j) by {
        if i == c {
            assert(new.tasks()[j].memory_set.frames().disjoint(nc));
        } else if j == c {
            assert(new.tasks()[i].memory_set.frames().disjoint(nc));
        } else {
            assert(frames_disjoint(old.tasks(), i, j));
        }
    }
    assert forall|i: int, v: u64|
        0 <= i < new.tasks().len() && i != new.current() implies #[trigger] new.tasks()[i].memory_set.entry(
            m_new,
            v,
        ) == old.tasks()[i].memory_set.entry(m_old, v) by {
        assert(new.tasks()[i].memory_set.frames().disjoint(nc));
    }
}

/// A write into a data frame `p` of the current task's space (memory changes
/// in that frame alone, and the free frames stay the same) leaves every
/// address space, and the manager's invariant, intact.
pub proof fn lemma_data_write(manager: TaskManager, m1: PhysMemory, m2: PhysMemory, p: u64)
    requires
        manager.wf(m1),
        m2.wf(),
        manager.cur().memory_set.data().contains(p),
        forall|q: u64| #[trigger] m2.has_frame(q) == m1.has_frame(q),
        m2.free_set() == m1.free_set(),
        forall|q: u64, i: u64| q != p ==> #[trigger] m2.word(q, i) == m1.word(q, i),
    ensures
        manager.wf(m2),
        forall|i: int, v: u64|
            0 <= i < manager.tasks().len() ==> #[trigger] manager.tasks()[i].memory_set.entry(m2, v)
                == manager.tasks()[i].memory_set.entry(m1, v),
{
    let c = manager.current();
    assert(changed_only(m1, m2, set![p]));
    assert forall|i: int| 0 <= i < manager.tasks().len() implies {
        &&& (#[trigger] manager.tasks()[i]).memory_set.wf(m2)
        &&& forall|v: u64| #[trigger] manager.tasks()[i].memory_set.entry(m2, v)
            == manager.tasks()[i].memory_set.entry(m1, v)
    } by {
        let ms = manager.tasks()[i].memory_set;
        assert(ms.wf(m1));
        ms.lemma_frames(m1);
        if i != c {
            assert(frames_disjoint(manager.tasks(), i, c));
            assert(ms.frames().disjoint(set![p])) by {
                assert(manager.cur().memory_set.frames().contains(p));
            }
            ms.lemma_unaffected(m1, m2, set![p]);
        } else {
            let pt = ms.page_table();
            assert(!ms.pt_frames().contains(p));
            assert(crate::mm::memory::agree_on(m1, m2, pt.frames()));
            assert forall|q: u64| pt.frames().contains(q) implies !#[trigger] m2.free_set().contains(q) by {
                assert(ms.frames().contains(q));
            }
            pt.lemma_frame(m1, m2);
            assert forall|v: u64| #[trigger] ms.entry(m2, v) == ms.entry(m1, v) by {
                assert(pt.entry(m2, v) == pt.entry(m1, v));
            }
            assert forall|v1: u64, v2: u64|
                pte_valid(#[trigger] ms.entry(m2, v1)) && pte_valid(#[trigger] ms.entry(m2, v2))
                    && v1 % SLOTS != v2 % SLOTS implies pte_ppn(ms.entry(m2, v1)) != pte_ppn(
                    ms.entry(m2, v2),
                ) by {
                assert(ms.entry(m2, v1) == ms.entry(m1, v1));
                assert(ms.entry(m2, v2) == ms.entry(m1, v2));
            }
        }
    }
    assert forall|i: int, j: int|
        0 <= i < manager.tasks().len() && 0 <= j < manager.tasks().len() && i != j implies #[trigger] frames_disjoint(
        manager.tasks(),
        i,
        j,
    ) by {
    }
}


impl TaskManager {
    /// Map `[start_va, end_va)` into the current task's address space, each
    /// page to a fresh frame of its own.
    fn insert_current_area(
        &mut self,
        mem: &mut PhysMemory,
        start_va: VirtAddr,
        end_va: VirtAddr,
        perm: MapPermission,
    )
        requires
            old(self).wf(*old(mem)),
            end_va.0 <= VA_LIMIT,
            old(mem).free_count() >= old(self).cur().memory_set.frames_needed(
                *old(mem),
                first_page(start_va),
                end_page(end_va),
            ),
            forall|v: u64|
                first_page(start_va) <= v < end_page(end_va) ==> !pte_valid(
                    #[trigger] old(self).cur().memory_set.entry(*old(mem), v),
                ),
        ensures
            final(self).wf(*final(mem)),
            current_space_replaced(*old(self), *final(self), *old(mem), *final(mem)),
            forall|p: u64, i: u64|
                !old(self).cur().memory_set.pt_frames().contains(p) && !old(mem).free_set().contains(p)
                    ==> #[trigger] final(mem).word(p, i) == old(mem).word(p, i),
            final(mem).free_count() + old(self).cur().memory_set.frames_needed(
                *old(mem),
                first_page(start_va),
                end_page(end_va),
            ) == old(mem).free_count(),
            forall|v: u64|
                in_pages(v, first_page(start_va), end_page(end_va)) ==> #[trigger] dirs(
                    *final(mem),
                    final(self).cur().memory_set.page_table().root(),
                ).contains(vpn_index(v, 0)) && leaves(
                    *final(mem),
                    final(self).cur().memory_set.page_table().root(),
                ).contains(leaf_key(v)),
            forall|i: int, v: u64|
                0 <= i < final(self).tasks().len() && i != final(self).current()
                    ==> #[trigger] final(self).tasks()[i].memory_set.entry(*final(mem), v)
                    == old(self).tasks()[i].memory_set.entry(*old(mem), v),
            forall|v: u64|
                !in_pages(v, first_page(start_va), end_page(end_va))
                    ==> #[trigger] final(self).cur().memory_set.entry(*final(mem), v)
                    == old(self).cur().memory_set.entry(*old(mem), v),
            forall|v: u64|
                in_pages(v, first_page(start_va), end_page(end_va)) ==> {
                    let e = #[trigger] final(self).cur().memory_set.entry(*final(mem), v);
                    &&& pte_valid(e)
                    &&& e & 0xffu64 == (perm.bits | PTE_V) as u64
                    &&& old(mem).free_set().contains(pte_ppn(e))
                    &&& !final(mem).free_set().contains(pte_ppn(e))
                    &&& zeroed(*final(mem), pte_ppn(e))
                },
            forall|v1: u64, v2: u64|
                in_pages(v1, first_page(start_va), end_page(end_va)) && in_pages(
                    v2,
                    first_page(start_va),
                    end_page(end_va),
                ) && v1 % SLOTS != v2 % SLOTS ==> pte_ppn(
                    #[trigger] final(self).cur().memory_set.entry(*final(mem), v1),
                ) != pte_ppn(#[trigger] final(self).cur().memory_set.entry(*final(mem), v2)),
    {
        let ghost old_self = *self;
        let ghost old_mem = *mem;
        let current = self.current_task;
        assert(old_self.tasks()[current as int].memory_set.wf(old_mem));
        self.tasks[current].memory_set.insert_framed_area(mem, start_va, end_va, perm);
        proof {
            lemma_current_space_replaced(old_self, *self, old_mem, *mem);
        }
    }
}


/// First page of an area that starts at user address `start`.
pub open spec fn area_lo(start: usize) -> int {
    (start as int % VA_LIMIT as int) / 4096
}

/// One past the last page of the area `[start, start + len)`.
pub open spec fn area_hi(start: usize, len: usize) -> int {
    ((start + len) % VA_LIMIT as int + 4095) / 4096
}

/// The user address `start` (its low 39 bits) starts a page.
pub open spec fn area_aligned(start: usize) -> bool {
    (start as int % VA_LIMIT as int) % 4096 == 0
}

/// `mmap` accepts these protection bits: some of read, write and execute,
/// and nothing else.
pub open spec fn mmap_port_ok(port: usize) -> bool {
    1 <= port <= 7
}

/// The permission that `mmap` gives the pages for protection bits `port`:
/// user access, plus read for bit 0, write for bit 1, and execute when both
/// bits 0 and 1 are set.
pub open spec fn mmap_perm_bits(port: usize) -> u8 {
    let r: u8 = if port & 1 == 1 { MAP_R } else { 0 };
    let w: u8 = if port & 2 == 2 { MAP_W } else { 0 };
    let x: u8 = if port & 3 == 3 { MAP_X } else { 0 };
    MAP_U | r | w | x
}

/// Whether some page of `[lo, hi)` is mapped in the current task's space.
pub open spec fn current_range_mapped(manager: TaskManager, mem: PhysMemory, lo: int, hi: int) -> bool {
    exists|v: u64| lo <= v < hi && pte_valid(#[trigger] manager.cur().memory_set.entry(mem, v))
}

/// Whether every page of `[lo, hi)` is mapped in the current task's space.
pub open spec fn current_range_all_mapped(manager: TaskManager, mem: PhysMemory, lo: int, hi: int) -> bool {
    forall|v: u64| lo <= v < hi ==> pte_valid(#[trigger] manager.cur().memory_set.entry(mem, v))
}

/// Whether `mmap(start, len, port)` succeeds.
pub open spec fn mmap_ok(manager: TaskManager, mem: PhysMemory, start: usize, len: usize, port: usize) -> bool {
    &&& mmap_port_ok(port)
    &&& area_aligned(start)
    &&& !current_range_mapped(manager, mem, area_lo(start), area_hi(start, len))
}

/// Whether some page of `[lo, hi)` has an entry in `ms` (in `mem`) that is
/// valid, when `valid`, or not valid, when `!valid`.
fn find_in_range(ms: &MemorySet, mem: &PhysMemory, lo: VirtPageNum, hi: VirtPageNum, valid: bool) -> (r: bool)
    requires
        mem.wf(),
    ensures
        r == exists|v: u64| lo.0 <= v < hi.0 && pte_valid(#[trigger] ms.entry(*mem, v)) == valid,
{
    let mut vpn = lo;
    while vpn.0 < hi.0
        invariant
            mem.wf(),
            lo.0 <= vpn.0,
            vpn.0 == lo.0 || vpn.0 <= hi.0,
            forall|v: u64| lo.0 <= v < vpn.0 ==> pte_valid(#[trigger] ms.entry(*mem, v)) != valid,
        decreases hi.0 - vpn.0,
    {
        let found = match ms.translate(mem, vpn) {
            Some(pte) => pte.is_valid(),
            None => false,
        };
        proof {
            crate::mm::page_tale::lemma_zero_invalid();
        }
        if found == valid {
            assert(pte_valid(ms.entry(*mem, vpn.0)) == valid);
            assert(lo.0 <= vpn.0 < hi.0);
            return true;
        }
        vpn.step();
    }
    false
}

/// The effect of a successful `mmap(start, len, port)`: only the current
/// task's address space changes; in it, every page of the range is mapped,
/// with the permission for `port`, to a frame that was free and that no other
/// page of the range uses, and no other entry changes.
pub open spec fn mmapped(
    old_manager: TaskManager,
    manager: TaskManager,
    old_mem: PhysMemory,
    mem: PhysMemory,
    start: usize,
    len: usize,
    port: usize,
) -> bool {
    &&& current_space_replaced(old_manager, manager, old_mem, mem)
    &&& forall|p: u64, i: u64|
        !old_manager.cur().memory_set.pt_frames().contains(p) && !old_mem.free_set().contains(p)
            ==> #[trigger] mem.word(p, i) == old_mem.word(p, i)
    &&& mem.free_count() + old_manager.cur().memory_set.frames_needed(
        old_mem,
        area_lo(start),
        area_hi(start, len),
    ) == old_mem.free_count()
    &&& forall|v: u64|
        in_pages(v, area_lo(start), area_hi(start, len)) ==> #[trigger] dirs(
            mem,
            manager.cur().memory_set.page_table().root(),
        ).contains(vpn_index(v, 0)) && leaves(mem, manager.cur().memory_set.page_table().root()).contains(
            leaf_key(v),
        )
    &&& forall|i: int, v: u64|
        0 <= i < manager.tasks().len() && i != manager.current()
            ==> #[trigger] manager.tasks()[i].memory_set.entry(mem, v)
            == old_manager.tasks()[i].memory_set.entry(old_mem, v)
    &&& forall|v: u64|
        !in_pages(v, area_lo(start), area_hi(start, len))
            ==> #[trigger] manager.cur().memory_set.entry(mem, v)
            == old_manager.cur().memory_set.entry(old_mem, v)
    &&& forall|v: u64|
        in_pages(v, area_lo(start), area_hi(start, len)) ==> {
            let e = #[trigger] manager.cur().memory_set.entry(mem, v);
            &&& pte_valid(e)
            &&& e & 0xffu64 == (mmap_perm_bits(port) | PTE_V) as u64
            &&& old_mem.free_set().contains(pte_ppn(e))
            &&& !mem.free_set().contains(pte_ppn(e))
            &&& zeroed(mem, pte_ppn(e))
        }
    &&& forall|v1: u64, v2: u64|
        in_pages(v1, area_lo(start), area_hi(start, len)) && in_pages(
            v2,
            area_lo(start),
            area_hi(start, len),
        ) && v1 % SLOTS != v2 % SLOTS ==> pte_ppn(
            #[trigger] manager.cur().memory_set.entry(mem, v1),
        ) != pte_ppn(#[trigger] manager.cur().memory_set.entry(mem, v2))
}

/// The effect of a successful `munmap(start, len)`: only the current task's
/// address space changes, keeping its page tables; the data frame of each page
/// of the range goes back to the free frames; and in the current task's space
/// exactly the entries of the range's pages become empty.
pub open spec fn munmapped(
    old_manager: TaskManager,
    manager: TaskManager,
    old_mem: PhysMemory,
    mem: PhysMemory,
    start: usize,
    len: usize,
) -> bool {
    &&& current_space_replaced(old_manager, manager, old_mem, mem)
    &&& manager.cur().memory_set.page_table() == old_manager.cur().memory_set.page_table()
    &&& forall|p: u64, i: u64|
        !old_manager.cur().memory_set.pt_frames().contains(p) ==> #[trigger] mem.word(p, i) == old_mem.word(
            p,
            i,
        )
    &&& mem.free_count() == old_mem.free_count() + if area_hi(start, len) > area_lo(start) {
        area_hi(start, len) - area_lo(start)
    } else {
        0
    }
    &&& dirs(mem, manager.cur().memory_set.page_table().root()) == dirs(
        old_mem,
        old_manager.cur().memory_set.page_table().root(),
    )
    &&& leaves(mem, manager.cur().memory_set.page_table().root()) == leaves(
        old_mem,
        old_manager.cur().memory_set.page_table().root(),
    )
    &&& forall|i: int, v: u64|
        0 <= i < manager.tasks().len() && i != manager.current()
            ==> #[trigger] manager.tasks()[i].memory_set.entry(mem, v)
            == old_manager.tasks()[i].memory_set.entry(old_mem, v)
    &&& forall|v: u64|
        #[trigger] manager.cur().memory_set.entry(mem, v) == if in_pages(
            v,
            area_lo(start),
            area_hi(start, len),
        ) {
            0
        } else {
            old_manager.cur().memory_set.entry(old_mem, v)
        }
}

/// `mmap`: map `[start, start + len)` into the current task's address space,
/// each page to a fresh frame, with the permission that `port` asks for.
/// Returns 0 on success; -1, changing nothing, when `port` asks for no access
/// or for more than read, write and execute, when `start` does not start a
/// page, or when a page of the range is already mapped.
#[verifier::spinoff_prover]
#[verifier::rlimit(30)]
pub fn do_sys_mmap(manager: &mut TaskManager, mem: &mut PhysMemory, start: usize, len: usize, port: usize) -> (r: isize)
    requires
        old(manager).wf(*old(mem)),
        mmap_port_ok(port) && area_aligned(start) ==> start + len <= usize::MAX,
        mmap_ok(*old(manager), *old(mem), start, len, port) ==> old(mem).free_count()
            >= old(manager).cur().memory_set.frames_needed(*old(mem), area_lo(start), area_hi(start, len)),
    ensures
        r == if mmap_ok(*old(manager), *old(mem), start, len, port) {
            0isize
        } else {
            -1isize
        },
        r == -1 ==> *final(manager) == *old(manager) && *final(mem) == *old(mem),
        final(manager).wf(*final(mem)),
        r == 0 ==> mmapped(*old(manager), *final(manager), *old(mem), *final(mem), start, len, port),
        old(manager).queue_ok() ==> final(manager).queue_ok(),
        old(manager).family_wf() ==> final(manager).family_wf(),
{
    assert((port & !7usize != 0 || port & 7usize == 0) == !(1 <= port <= 7)) by (bit_vector);
    if port & !0x7 != 0 || port & 0x7 == 0 {
        return -1;
    }
    let start_va = VirtAddr::from_u64(start as u64);
    if !start_va.aligned() {
        return -1;
    }
    let end_va = VirtAddr::from_u64((start + len) as u64).ceil();
    let current_task = manager.current_task;
    let lo = VirtPageNum::from_aligned(start_va);
    assert(manager.tasks()[current_task as int].memory_set.wf(*mem));
    if find_in_range(&manager.tasks[current_task].memory_set, mem, lo, end_va, true) {
        return -1;
    }
    let mut map_perm = MapPermission::from_bits_truncate(MAP_U);
    if port & 1 == 1 {
        map_perm = map_perm.union(MapPermission::from_bits_truncate(MAP_R));
    }
    if port & 2 == 2 {
        map_perm = map_perm.union(MapPermission::from_bits_truncate(MAP_W));
    }
    if port & 3 == 3 {
        map_perm = map_perm.union(MapPermission::from_bits_truncate(MAP_X));
    }
    assert(map_perm.bits == mmap_perm_bits(port)) by {
        assert(16u8 & 30u8 == 16u8) by (bit_vector);
        assert(2u8 & 30u8 == 2u8) by (bit_vector);
        assert(4u8 & 30u8 == 4u8) by (bit_vector);
        assert(8u8 & 30u8 == 8u8) by (bit_vector);
        assert(forall|a: u8| #[trigger] (a | 0u8) == a) by (bit_vector);
    }
    let end_addr = VirtAddr::from_vpn(end_va);
    assert(end_page(end_addr) == end_va.0) by (nonlinear_arith)
        requires end_addr.0 == end_va.0 * 4096;
    manager.insert_current_area(mem, start_va, end_addr, map_perm);
    proof {
        lemma_cur_fields_changed(*old(manager), *manager);
    }
    0
}

/// Whether the free frames suffice for `mmap(start, len, port)`: true when
/// the call fails anyway, and otherwise exactly when there are as many free
/// frames as the range's pages and missing page tables take.
pub fn mmap_fits(manager: &TaskManager, mem: &PhysMemory, start: usize, len: usize, port: usize) -> (r: bool)
    requires
        manager.wf(*mem),
        mmap_port_ok(port) && area_aligned(start) ==> start + len <= usize::MAX,
    ensures
        r == (mmap_ok(*manager, *mem, start, len, port) ==> mem.free_count()
            >= manager.cur().memory_set.frames_needed(*mem, area_lo(start), area_hi(start, len))),
{
    assert((port & !7usize != 0 || port & 7usize == 0) == !(1 <= port <= 7)) by (bit_vector);
    if port & !0x7 != 0 || port & 0x7 == 0 {
        return true;
    }
    let start_va = VirtAddr::from_u64(start as u64);
    if !start_va.aligned() {
        return true;
    }
    let end_va = VirtAddr::from_u64((start + len) as u64).ceil();
    let current_task = manager.current_task;
    let lo = VirtPageNum::from_aligned(start_va);
    assert(manager.tasks()[current_task as int].memory_set.wf(*mem));
    if find_in_range(&manager.tasks[current_task].memory_set, mem, lo, end_va, true) {
        return true;
    }
    let needed = manager.tasks[current_task].memory_set.count_frames_needed(mem, lo, end_va);
    mem.free_frames() as u64 >= needed
}


impl TaskManager {
    /// Clear the entry of the mapped page `vpn` in the current task's space
    /// and give its data frame back to the free frames.
    fn unmap_current(&mut self, mem: &mut PhysMemory, vpn: VirtPageNum)
        requires
            old(self).wf(*old(mem)),
            pte_valid(old(self).cur().memory_set.entry(*old(mem), vpn.0)),
        ensures
            final(self).wf(*final(mem)),
            current_space_replaced(*old(self), *final(self), *old(mem), *final(mem)),
            final(self).cur().memory_set.page_table() == old(self).cur().memory_set.page_table(),
            final(self).cur().memory_set.frames().subset_of(old(self).cur().memory_set.frames()),
            final(mem).free_count() == old(mem).free_count() + 1,
            forall|p: u64, i: u64|
                !old(self).cur().memory_set.pt_frames().contains(p) ==> #[trigger] final(mem).word(p, i)
                    == old(mem).word(p, i),
            dirs(*final(mem), final(self).cur().memory_set.page_table().root()) == dirs(
                *old(mem),
                old(self).cur().memory_set.page_table().root(),
            ),
            leaves(*final(mem), final(self).cur().memory_set.page_table().root()) == leaves(
                *old(mem),
                old(self).cur().memory_set.page_table().root(),
            ),
            forall|i: int, v: u64|
                0 <= i < final(self).tasks().len() && i != final(self).current()
                    ==> #[trigger] final(self).tasks()[i].memory_set.entry(*final(mem), v)
                    == old(self).tasks()[i].memory_set.entry(*old(mem), v),
            forall|v: u64|
                #[trigger] final(self).cur().memory_set.entry(*final(mem), v) == if same_slot(v, vpn.0) {
                    0
                } else {
                    old(self).cur().memory_set.entry(*old(mem), v)
                },
    {
        let ghost old_self = *self;
        let ghost old_mem = *mem;
        let current = self.current_task;
        assert(old_self.tasks()[current as int].memory_set.wf(old_mem));
        proof {
            crate::mm::page_tale::lemma_zero_invalid();
        }
        self.tasks[current].memory_set.unmap(mem, vpn);
        proof {
            assert(self.cur().memory_set.frames() =~= old_self.cur().memory_set.frames().remove(
                pte_ppn(old_self.cur().memory_set.entry(old_mem, vpn.0)),
            ));
            assert(old_self.cur().memory_set.frames().union(self.cur().memory_set.frames())
                =~= old_self.cur().memory_set.frames());
            lemma_current_space_replaced(old_self, *self, old_mem, *mem);
        }
    }
}

/// Two replacements of the current task's address space, the second
/// shrinking the space, make one.
proof fn lemma_replaced_trans(
    a: TaskManager,
    b: TaskManager,
    c: TaskManager,
    ma: PhysMemory,
    mb: PhysMemory,
    mc: PhysMemory,
)
    requires
        current_space_replaced(a, b, ma, mb),
        current_space_replaced(b, c, mb, mc),
        b.cur().memory_set.frames().subset_of(a.cur().memory_set.frames()),
        c.cur().memory_set.frames().subset_of(b.cur().memory_set.frames()),
    ensures
        current_space_replaced(a, c, ma, mc),
{
    let fa = a.cur().memory_set.frames();
    let fb = b.cur().memory_set.frames();
    let fc = c.cur().memory_set.frames();
    assert(fa.union(fb) =~= fa);
    assert(fb.union(fc) =~= fb);
    assert(fa.union(fc) =~= fa);
    assert forall|p: u64, i: u64| !fa.contains(p) && !ma.free_set().contains(p) implies #[trigger] mc.word(p, i)
        == ma.word(p, i) by {
        assert(mb.word(p, i) == ma.word(p, i));
        assert(!mb.free_set().contains(p));
    }
    assert forall|i: int| 0 <= i < c.tasks().len() && i != c.current() implies #[trigger] c.tasks()[i]
        == a.tasks()[i] by {
        assert(c.tasks()[i] == b.tasks()[i]);
    }
}

/// `munmap`: unmap `[start, start + len)` from the current task's address
/// space. Returns 0 on success; -1, changing nothing, when `start` does not
/// start a page or a page of the range is not mapped.
#[verifier::spinoff_prover]
#[verifier::rlimit(30)]
pub fn do_sys_munmap(manager: &mut TaskManager, mem: &mut PhysMemory, start: usize, len: usize) -> (r: isize)
    requires
        old(manager).wf(*old(mem)),
        area_aligned(start) ==> start + len <= usize::MAX,
    ensures
        r == if area_aligned(start) && current_range_all_mapped(
            *old(manager),
            *old(mem),
            area_lo(start),
            area_hi(start, len),
        ) {
            0isize
        } else {
            -1isize
        },
        r == -1 ==> *final(manager) == *old(manager) && *final(mem) == *old(mem),
        final(manager).wf(*final(mem)),
        r == 0 ==> munmapped(*old(manager), *final(manager), *old(mem), *final(mem), start, len),
        old(manager).queue_ok() ==> final(manager).queue_ok(),
        old(manager).family_wf() ==> final(manager).family_wf(),
{
    let ghost old_manager = *manager;
    let ghost old_mem = *mem;
    let start_va = VirtAddr::from_u64(start as u64);
    if !start_va.aligned() {
        return -1;
    }
    let current_task = manager.current_task;
    let end_va = VirtAddr::from_u64((start + len) as u64).ceil();
    let lo = VirtPageNum::from_aligned(start_va);
    assert(manager.tasks()[current_task as int].memory_set.wf(*mem));
    if find_in_range(&manager.tasks[current_task].memory_set, mem, lo, end_va, false) {
        return -1;
    }
    let mut vpn = lo;
    assert(end_va.0 <= SLOTS);
    assert(old_manager.cur().memory_set.frames().union(old_manager.cur().memory_set.frames())
        =~= old_manager.cur().memory_set.frames());
    while vpn.0 < end_va.0
        invariant
            manager.wf(*mem),
            current_space_replaced(old_manager, *manager, old_mem, *mem),
            manager.cur().memory_set.page_table() == old_manager.cur().memory_set.page_table(),
            manager.cur().memory_set.frames().subset_of(old_manager.cur().memory_set.frames()),
            lo.0 <= vpn.0,
            vpn.0 == lo.0 || vpn.0 <= end_va.0,
            end_va.0 <= SLOTS,
            lo.0 == area_lo(start),
            end_va.0 == area_hi(start, len),
            mem.free_count() == old_mem.free_count() + (vpn.0 - lo.0),
            forall|p: u64, i: u64|
                !old_manager.cur().memory_set.pt_frames().contains(p) ==> #[trigger] mem.word(p, i)
                    == old_mem.word(p, i),
            dirs(*mem, manager.cur().memory_set.page_table().root()) == dirs(
                old_mem,
                old_manager.cur().memory_set.page_table().root(),
            ),
            leaves(*mem, manager.cur().memory_set.page_table().root()) == leaves(
                old_mem,
                old_manager.cur().memory_set.page_table().root(),
            ),
            forall|v: u64|
                lo.0 <= v < end_va.0 ==> pte_valid(#[trigger] old_manager.cur().memory_set.entry(old_mem, v)),
            forall|i: int, v: u64|
                0 <= i < manager.tasks().len() && i != manager.current()
                    ==> #[trigger] manager.tasks()[i].memory_set.entry(*mem, v)
                    == old_manager.tasks()[i].memory_set.entry(old_mem, v),
            forall|v: u64|
                #[trigger] manager.cur().memory_set.entry(*mem, v) == if in_pages(v, lo.0 as int, vpn.0 as int) {
                    0
                } else {
                    old_manager.cur().memory_set.entry(old_mem, v)
                },
        decreases end_va.0 - vpn.0,
    {
        let ghost m0 = *mem;
        let ghost mg0 = *manager;
        assert(vpn.0 % SLOTS == vpn.0);
        assert(!in_pages(vpn.0, lo.0 as int, vpn.0 as int));
        assert(manager.cur().memory_set.entry(*mem, vpn.0) == old_manager.cur().memory_set.entry(old_mem, vpn.0));
        manager.unmap_current(mem, vpn);
        proof {
            lemma_replaced_trans(old_manager, mg0, *manager, old_mem, m0, *mem);
            assert forall|v: u64| #[trigger] manager.cur().memory_set.entry(*mem, v) == if in_pages(v, lo.0 as int, vpn.0 + 1) {
                0
            } else {
                old_manager.cur().memory_set.entry(old_mem, v)
            } by {
                lemma_same_slot_mod(v, vpn.0);
                assert(mg0.cur().memory_set.entry(m0, v) == if in_pages(v, lo.0 as int, vpn.0 as int) {
                    0
                } else {
                    old_manager.cur().memory_set.entry(old_mem, v)
                });
            }
            assert forall|i: int, v: u64|
                0 <= i < manager.tasks().len() && i != manager.current()
                    implies #[trigger] manager.tasks()[i].memory_set.entry(*mem, v)
                    == old_manager.tasks()[i].memory_set.entry(old_mem, v) by {
                assert(mg0.tasks()[i].memory_set.entry(m0, v) == old_manager.tasks()[i].memory_set.entry(old_mem, v));
            }
        }
        vpn.step();
    }
    proof {
        lemma_cur_fields_changed(old_manager, *manager);
    }
    0
}


/// The root frame of the current task's address space.
pub open spec fn current_root(manager: TaskManager) -> u64 {
    manager.cur().memory_set.page_table().root()
}

/// Where the current task's `TaskInfo` at user address `ti` lives, and what
/// to write there at time `now_ms`: its status, its system-call counts, and
/// the time since it was first scheduled. `None` when `ti` does not
/// translate.
pub fn get_task_info(manager: &TaskManager, mem: &PhysMemory, ti: u64, now_ms: usize) -> (r: Option<(PhysAddr, TaskInfo)>)
    requires
        manager.wf(*mem),
        ti + vstd::layout::size_of::<TaskInfo>() <= u64::MAX,
        user_pa(*mem, current_root(*manager), ti) is Some ==> object_in_page(
            ti,
            vstd::layout::size_of::<TaskInfo>() as int,
        ),
        user_obj_pa(*mem, current_root(*manager), ti) is Some ==> now_ms >= manager.cur().time,
    ensures
        r == match user_obj_pa(*mem, current_root(*manager), ti) {
            Some(pa) => Some(
                (
                    PhysAddr(pa),
                    (TaskInfo {
                        status: manager.cur().task_status,
                        syscall_times: manager.cur().syscall_times,
                        time: (now_ms - manager.cur().time) as usize,
                    }),
                ),
            ),
            None => None,
        },
{
    proof {
        manager.cur().memory_set.lemma_frames(*mem);
        law_token_round_trip(current_root(*manager));
    }
    let token = current_user_token(manager);
    match get_mut::<TaskInfo>(mem, token, ti) {
        Some(pa) => {
            let current = &manager.tasks[manager.current_task];
            Some(
                (
                    pa,
                    TaskInfo {
                        status: current.task_status,
                        syscall_times: current.syscall_times,
                        time: now_ms - current.time,
                    },
                ),
            )
        },
        None => None,
    }
}


/// Pages numbered below 2^27 are their own slot.
proof fn lemma_area_hi_bound(start: usize, len: usize)
    ensures
        area_hi(start, len) <= SLOTS,
        area_lo(start) >= 0,
{
    let a = (start + len) % VA_LIMIT as int;
    assert(0 <= a < VA_LIMIT);
    assert((a + 4095) / 4096 <= SLOTS) by (nonlinear_arith)
        requires 0 <= a < 0x80_0000_0000int;
    assert((start as int % VA_LIMIT as int) / 4096 >= 0) by (nonlinear_arith);
}

/// `mmap` accepts exactly the requests whose protection bits ask for some of
/// read, write and execute and for nothing else (1 to 7), whose start (its
/// low 39 bits) is page aligned, and none of whose pages is mapped in the
/// current task's space.
pub proof fn law_mmap_accepts(manager: TaskManager, mem: PhysMemory, start: usize, len: usize, port: usize)
    ensures
        mmap_ok(manager, mem, start, len, port) <==> {
            &&& 1 <= port <= 7
            &&& (start as int % 0x80_0000_0000) % 4096 == 0
            &&& forall|v: u64|
                (start as int % 0x80_0000_0000) / 4096 <= v < ((start + len) % 0x80_0000_0000 + 4095) / 4096
                    ==> !pte_valid(#[trigger] manager.cur().memory_set.entry(mem, v))
        },
{
}

proof fn lemma_or_valid_last(a: u8, b: u8, c: u8, d: u8)
    by (bit_vector)
    ensures
        (a | b | c | d) | 1u8 == 1u8 | a | b | c | d,
{
}

/// The pages a successful `mmap` maps carry exactly the rights asked for:
/// valid and user, plus read when port bit 0 is set, write when bit 1 is
/// set, and execute when both are.
pub proof fn law_mmap_rights(
    old_manager: TaskManager,
    manager: TaskManager,
    old_mem: PhysMemory,
    mem: PhysMemory,
    start: usize,
    len: usize,
    port: usize,
)
    requires
        mmapped(old_manager, manager, old_mem, mem, start, len, port),
    ensures
        forall|v: u64|
            in_pages(v, area_lo(start), area_hi(start, len)) ==> (#[trigger] manager.cur().memory_set.entry(
                mem,
                v,
            )) & 0xffu64 == (PTE_V | PTE_U | (if port & 1 == 1 {
                PTE_R
            } else {
                0
            }) | (if port & 2 == 2 {
                PTE_W
            } else {
                0
            }) | (if port & 3 == 3 {
                PTE_X
            } else {
                0
            })) as u64,
{
    let r: u8 = if port & 1 == 1 { PTE_R } else { 0 };
    let w: u8 = if port & 2 == 2 { PTE_W } else { 0 };
    let x: u8 = if port & 3 == 3 { PTE_X } else { 0 };
    lemma_or_valid_last(PTE_U, r, w, x);
    assert(mmap_perm_bits(port) == PTE_U | r | w | x);
}

/// `mmap` keeps the data of every page that was mapped before it: the frame
/// of each such page, in the current task's space, keeps every word.
pub proof fn law_mmap_keeps_mapped_pages(
    old_manager: TaskManager,
    manager: TaskManager,
    old_mem: PhysMemory,
    mem: PhysMemory,
    start: usize,
    len: usize,
    port: usize,
)
    requires
        old_manager.wf(old_mem),
        mmapped(old_manager, manager, old_mem, mem, start, len, port),
    ensures
        forall|v: u64, i: u64|
            pte_valid(old_manager.cur().memory_set.entry(old_mem, v)) ==> #[trigger] mem.word(
                pte_ppn(old_manager.cur().memory_set.entry(old_mem, v)),
                i,
            ) == old_mem.word(pte_ppn(old_manager.cur().memory_set.entry(old_mem, v)), i),
{
    let ms = old_manager.cur().memory_set;
    assert(ms.wf(old_mem));
    assert forall|v: u64, i: u64| pte_valid(ms.entry(old_mem, v)) implies #[trigger] mem.word(
        pte_ppn(ms.entry(old_mem, v)),
        i,
    ) == old_mem.word(pte_ppn(ms.entry(old_mem, v)), i) by {
        let q = pte_ppn(ms.entry(old_mem, v));
        assert(ms.data().contains(q));
        assert(!ms.pt_frames().contains(q) && !old_mem.free_set().contains(q));
    }
}

/// `munmap` keeps every page outside its range: each such page keeps its
/// entry, and the frame of each that is mapped keeps every word.
pub proof fn law_munmap_keeps_other_pages(
    old_manager: TaskManager,
    manager: TaskManager,
    old_mem: PhysMemory,
    mem: PhysMemory,
    start: usize,
    len: usize,
)
    requires
        old_manager.wf(old_mem),
        munmapped(old_manager, manager, old_mem, mem, start, len),
    ensures
        forall|v: u64|
            !in_pages(v, area_lo(start), area_hi(start, len)) ==> #[trigger] manager.cur().memory_set.entry(
                mem,
                v,
            ) == old_manager.cur().memory_set.entry(old_mem, v),
        forall|v: u64, i: u64|
            !in_pages(v, area_lo(start), area_hi(start, len)) && pte_valid(
                old_manager.cur().memory_set.entry(old_mem, v),
            ) ==> #[trigger] mem.word(pte_ppn(old_manager.cur().memory_set.entry(old_mem, v)), i)
                == old_mem.word(pte_ppn(old_manager.cur().memory_set.entry(old_mem, v)), i),
{
    let ms = old_manager.cur().memory_set;
    assert(ms.wf(old_mem));
    assert forall|v: u64, i: u64|
        !in_pages(v, area_lo(start), area_hi(start, len)) && pte_valid(ms.entry(old_mem, v)) implies #[trigger] mem.word(
        pte_ppn(ms.entry(old_mem, v)),
        i,
    ) == old_mem.word(pte_ppn(ms.entry(old_mem, v)), i) by {
        let q = pte_ppn(ms.entry(old_mem, v));
        assert(ms.data().contains(q));
        assert(!ms.pt_frames().contains(q));
    }
}

/// `munmap` accepts exactly the requests whose start (its low 39 bits) is
/// page aligned and all of whose pages are mapped in the current task's
/// space.
pub proof fn law_munmap_accepts(manager: TaskManager, mem: PhysMemory, start: usize, len: usize)
    ensures
        (area_aligned(start) && current_range_all_mapped(manager, mem, area_lo(start), area_hi(start, len)))
            <==> {
            &&& (start as int % 0x80_0000_0000) % 4096 == 0
            &&& forall|v: u64|
                (start as int % 0x80_0000_0000) / 4096 <= v < ((start + len) % 0x80_0000_0000 + 4095) / 4096
                    ==> pte_valid(#[trigger] manager.cur().memory_set.entry(mem, v))
        },
{
}

/// After a successful `mmap`, every page of its range is mapped, so a
/// `munmap` of the same range (from a page start) succeeds.
pub proof fn law_mmap_maps_range(
    old_manager: TaskManager,
    manager: TaskManager,
    old_mem: PhysMemory,
    mem: PhysMemory,
    start: usize,
    len: usize,
    port: usize,
)
    requires
        mmapped(old_manager, manager, old_mem, mem, start, len, port),
    ensures
        current_range_all_mapped(manager, mem, area_lo(start), area_hi(start, len)),
{
    lemma_area_hi_bound(start, len);
    assert forall|v: u64| area_lo(start) <= v < area_hi(start, len) implies pte_valid(
        #[trigger] manager.cur().memory_set.entry(mem, v),
    ) by {
        assert(v % SLOTS == v);
        assert(in_pages(v, area_lo(start), area_hi(start, len)));
    }
}

/// After a successful `mmap` of a non-empty range, `mmap` of the same range
/// fails, whatever the protection bits.
pub proof fn law_mmap_twice_fails(
    old_manager: TaskManager,
    manager: TaskManager,
    old_mem: PhysMemory,
    mem: PhysMemory,
    start: usize,
    len: usize,
    port: usize,
    port2: usize,
)
    requires
        mmapped(old_manager, manager, old_mem, mem, start, len, port),
        area_lo(start) < area_hi(start, len),
    ensures
        !mmap_ok(manager, mem, start, len, port2),
{
    law_mmap_maps_range(old_manager, manager, old_mem, mem, start, len, port);
    let v = area_lo(start) as u64;
    assert(pte_valid(manager.cur().memory_set.entry(mem, v)));
}

/// `munmap` after `mmap` of the same range leaves the current task's entries
/// as they were before the `mmap` outside the range and empty inside it,
/// every other task's entries as they were, and gives back every frame the
/// `mmap` took except those of the page tables it created.
pub proof fn law_mmap_then_munmap(
    m0_manager: TaskManager,
    m1_manager: TaskManager,
    m2_manager: TaskManager,
    m0: PhysMemory,
    m1: PhysMemory,
    m2: PhysMemory,
    start: usize,
    len: usize,
    port: usize,
)
    requires
        mmapped(m0_manager, m1_manager, m0, m1, start, len, port),
        munmapped(m1_manager, m2_manager, m1, m2, start, len),
    ensures
        forall|v: u64|
            #[trigger] m2_manager.cur().memory_set.entry(m2, v) == if in_pages(
                v,
                area_lo(start),
                area_hi(start, len),
            ) {
                0
            } else {
                m0_manager.cur().memory_set.entry(m0, v)
            },
        forall|i: int, v: u64|
            0 <= i < m2_manager.tasks().len() && i != m2_manager.current()
                ==> #[trigger] m2_manager.tasks()[i].memory_set.entry(m2, v)
                == m0_manager.tasks()[i].memory_set.entry(m0, v),
        m2.free_count() + m0_manager.cur().memory_set.frames_needed(m0, area_lo(start), area_hi(start, len))
            == m0.free_count() + if area_hi(start, len) > area_lo(start) {
            area_hi(start, len) - area_lo(start)
        } else {
            0
        },
{
    assert forall|v: u64| #[trigger] m2_manager.cur().memory_set.entry(m2, v) == if in_pages(
        v,
        area_lo(start),
        area_hi(start, len),
    ) {
        0
    } else {
        m0_manager.cur().memory_set.entry(m0, v)
    } by {
        assert(m2_manager.cur().memory_set.entry(m2, v) == if in_pages(
            v,
            area_lo(start),
            area_hi(start, len),
        ) {
            0
        } else {
            m1_manager.cur().memory_set.entry(m1, v)
        });
        if !in_pages(v, area_lo(start), area_hi(start, len)) {
            assert(m1_manager.cur().memory_set.entry(m1, v) == m0_manager.cur().memory_set.entry(m0, v));
        }
    }
    assert forall|i: int, v: u64|
        0 <= i < m2_manager.tasks().len() && i != m2_manager.current()
            implies #[trigger] m2_manager.tasks()[i].memory_set.entry(m2, v)
            == m0_manager.tasks()[i].memory_set.entry(m0, v) by {
        assert(m2_manager.tasks()[i].memory_set.entry(m2, v) == m1_manager.tasks()[i].memory_set.entry(m1, v));
        assert(m1_manager.tasks()[i].memory_set.entry(m1, v) == m0_manager.tasks()[i].memory_set.entry(m0, v));
    }
}

/// After a successful `munmap` of a non-empty range, `munmap` of the same
/// range fails.
pub proof fn law_munmap_twice_fails(
    old_manager: TaskManager,
    manager: TaskManager,
    old_mem: PhysMemory,
    mem: PhysMemory,
    start: usize,
    len: usize,
)
    requires
        munmapped(old_manager, manager, old_mem, mem, start, len),
        area_lo(start) < area_hi(start, len),
    ensures
        !current_range_all_mapped(manager, mem, area_lo(start), area_hi(start, len)),
{
    lemma_area_hi_bound(start, len);
    crate::mm::page_tale::lemma_zero_invalid();
    let v = area_lo(start) as u64;
    assert(v % SLOTS == v);
    assert(manager.cur().memory_set.entry(mem, v) == 0);
}


/// Task `t` with its status set to `status`.
pub open spec fn with_status(t: TaskControlBlock, status: TaskStatus) -> TaskControlBlock {
    TaskControlBlock { task_status: status, ..t }
}

/// `new` has switched from the tasks `tasks` to task `id`: it is current and
/// running, its first-scheduled time is `now_ms` if it had none, and nothing
/// else changed.
pub open spec fn switched_to(tasks: Seq<TaskControlBlock>, new: TaskManager, id: int, now_ms: usize) -> bool {
    &&& new.current() == id
    &&& new.has_current()
    &&& new.tasks().len() == tasks.len()
    &&& new.tasks()[id] == (TaskControlBlock {
        task_status: TaskStatus::Running,
        time: if tasks[id].time == 0 {
            now_ms
        } else {
            tasks[id].time
        },
        ..tasks[id]
    })
    &&& forall|i: int| 0 <= i < tasks.len() && i != id ==> #[trigger] new.tasks()[i] == tasks[i]
}

/// A manager whose tasks keep their address spaces, with a current task in
/// range, stays well formed in any memory where it was.
pub proof fn lemma_same_spaces(old: TaskManager, new: TaskManager)
    requires
        new.num_app() == old.num_app(),
        new.tasks().len() == old.tasks().len(),
        0 <= new.current() < new.num_app(),
        forall|i: int|
            0 <= i < new.tasks().len() ==> (#[trigger] new.tasks()[i]).memory_set
                == old.tasks()[i].memory_set,
    ensures
        forall|m: PhysMemory| #[trigger] old.wf(m) ==> new.wf(m),
{
    assert forall|m: PhysMemory| #[trigger] old.wf(m) implies new.wf(m) by {
        assert forall|i: int| 0 <= i < new.tasks().len() implies (#[trigger] new.tasks()[i]).memory_set.wf(m) by {
            assert(old.tasks()[i].memory_set.wf(m));
        }
        assert forall|i: int, j: int|
            0 <= i < new.tasks().len() && 0 <= j < new.tasks().len() && i != j
                implies #[trigger] frames_disjoint(new.tasks(), i, j) by {
            assert(frames_disjoint(old.tasks(), i, j));
            assert(new.tasks()[i].memory_set == old.tasks()[i].memory_set);
            assert(new.tasks()[j].memory_set == old.tasks()[j].memory_set);
        }
    }
}

/// Every child of a task in `tasks` is a task whose parent is that task.
pub open spec fn family_ok(tasks: Seq<TaskControlBlock>) -> bool {
    forall|i: int, k: int|
        0 <= i < tasks.len() && 0 <= k < tasks[i].children@.len() ==> {
            let c = #[trigger] tasks[i].children@[k];
            &&& c < tasks.len()
            &&& tasks[c as int].parent == Some(i as usize)
        }
}

/// Tasks that keep their parents and children keep the tree well formed.
pub proof fn lemma_same_family(old: Seq<TaskControlBlock>, new: Seq<TaskControlBlock>)
    requires
        family_ok(old),
        new.len() == old.len(),
        forall|i: int|
            0 <= i < new.len() ==> (#[trigger] new[i]).parent == old[i].parent && new[i].children
                == old[i].children,
    ensures
        family_ok(new),
{
    assert forall|i: int, k: int| 0 <= i < new.len() && 0 <= k < new[i].children@.len() implies {
        let c = #[trigger] new[i].children@[k];
        &&& c < new.len()
        &&& new[c as int].parent == Some(i as usize)
    } by {
        assert(new[i].parent == old[i].parent && new[i].children == old[i].children);
        assert(new[i].children@ == old[i].children@);
        let c = old[i].children@[k];
        assert(new[i].children@[k] == c);
        assert(c < old.len() && old[c as int].parent == Some(i as usize));
        assert(new[c as int].parent == old[c as int].parent);
    }
}

impl TaskManager {
    /// Take the task at the front of the ready queue and switch to it,
    /// marking it running and noting `now_ms` as its first-scheduled time if
    /// it has none. When the queue is empty: `None`, and no task is current.
    /// Returns the task to switch to; the switch itself is the caller's.
    pub fn run_next_task(&mut self, now_ms: usize) -> (r: Option<usize>)
        requires
            old(self).tasks().len() == old(self).num_app(),
            forall|k: int|
                0 <= k < old(self).ready().len() ==> #[trigger] old(self).ready()[k] < old(self).num_app(),
        ensures
            final(self).num_app() == old(self).num_app(),
            forall|m: PhysMemory| #[trigger] old(self).wf(m) ==> final(self).wf(m),
            old(self).family_wf() ==> final(self).family_wf(),
            match r {
                Some(id) => {
                    &&& old(self).ready().len() > 0
                    &&& id == old(self).ready()[0]
                    &&& final(self).ready() == old(self).ready().drop_first()
                    &&& switched_to(old(self).tasks(), *final(self), id as int, now_ms)
                },
                None => {
                    &&& old(self).ready().len() == 0
                    &&& final(self).tasks() == old(self).tasks()
                    &&& final(self).ready() == old(self).ready()
                    &&& final(self).current() == old(self).current()
                    &&& !final(self).has_current()
                },
            },
    {
        let ghost old_self = *self;
        if self.ready.len() == 0 {
            self.running = false;
            return None;
        }
        assert(old_self.ready()[0] < old_self.num_app());
        let next = self.ready.remove(0);
        assert(next < self.tasks.len());
        self.tasks[next].task_status = TaskStatus::Running;
        if self.tasks[next].time == 0 {
            self.tasks[next].time = now_ms;
        }
        self.current_task = next;
        self.running = true;
        proof {
            assert(self.ready@ =~= old_self.ready@.drop_first());
            lemma_same_spaces(old_self, *self);
            if old_self.family_wf() {
                lemma_same_family(old_self.tasks(), self.tasks());
            }
        }
        Some(next)
    }
}

/// Suspend the current task and switch to the next ready one: the current
/// task becomes ready and goes to the back of the ready queue, then, as
/// `run_next_task`, the task at the front of the queue (the current task
/// itself when no other was waiting) becomes current and running. Returns the
/// task to switch to.
pub fn suspend_current_and_run_next(manager: &mut TaskManager, now_ms: usize) -> (r: usize)
    requires
        old(manager).queue_ok(),
        old(manager).has_current(),
    ensures
        final(manager).num_app() == old(manager).num_app(),
        forall|m: PhysMemory| #[trigger] old(manager).wf(m) ==> final(manager).wf(m),
        final(manager).queue_ok(),
        old(manager).family_wf() ==> final(manager).family_wf(),
        ({
            let mid = old(manager).tasks().update(
                old(manager).current(),
                with_status(old(manager).cur(), TaskStatus::Ready),
            );
            let q = old(manager).ready().push(old(manager).current() as usize);
            &&& r == q[0]
            &&& final(manager).ready() == q.drop_first()
            &&& switched_to(mid, *final(manager), r as int, now_ms)
        }),
{
    let ghost m0 = *manager;
    manager.mark_current_suspended();
    let current = manager.current_task;
    manager.ready.push(current);
    let ghost m1 = *manager;
    proof {
        let mid = m0.tasks().update(m0.current(), with_status(m0.cur(), TaskStatus::Ready));
        assert(m1.tasks() =~= mid);
        lemma_same_spaces(m0, m1);
        if m0.family_wf() {
            lemma_same_family(m0.tasks(), m1.tasks());
        }
        assert forall|k: int| 0 <= k < m1.ready().len() implies #[trigger] m1.ready()[k] < m1.num_app() by {
            if k < m0.ready().len() {
                assert(m1.ready()[k] == m0.ready()[k]);
            }
        }
    }
    let next = manager.run_next_task(now_ms);
    proof {
        let q = m1.ready();
        let id = next->0;
        let f = *manager;
        assert(q[0] == id);
        assert(q.no_duplicates()) by {
            assert forall|x: int, y: int| 0 <= x < q.len() && 0 <= y < q.len() && x != y implies q[x] != q[y] by {
                if x < m0.ready().len() && y < m0.ready().len() {
                } else if x < m0.ready().len() {
                    assert(q[x] == m0.ready()[x]);
                    assert(m0.ready().contains(q[x]));
                } else if y < m0.ready().len() {
                    assert(q[y] == m0.ready()[y]);
                    assert(m0.ready().contains(q[y]));
                }
            }
        }
        assert forall|k: int| 0 <= k < f.ready().len() implies (#[trigger] f.ready()[k]) < f.num_app()
            && f.tasks()[f.ready()[k] as int].task_status == TaskStatus::Ready by {
            assert(f.ready()[k] == q[k + 1]);
            assert(q[k + 1] != q[0]);
            if k + 1 < m0.ready().len() {
                assert(q[k + 1] == m0.ready()[k + 1]);
                assert(m0.ready().contains(q[k + 1]));
            }
        }
        assert(!f.ready().contains(id)) by {
            if f.ready().contains(id) {
                let k = choose|k: int| 0 <= k < f.ready().len() && f.ready()[k] == id;
                assert(q[k + 1] == q[0]);
            }
        }
    }
    next.unwrap()
}

/// Yielding puts the current task at the back of the ready queue and runs
/// the task that was at its front (the yielding task itself when the queue
/// was empty); the others keep their order.
pub proof fn law_yield_queue(old: TaskManager, new: TaskManager, r: int)
    requires
        r == old.ready().push(old.current() as usize)[0],
        new.ready() == old.ready().push(old.current() as usize).drop_first(),
    ensures
        new.ready().len() == old.ready().len(),
        new.ready().len() > 0 ==> new.ready().last() == old.current() as usize,
        old.ready().len() == 0 ==> r == old.current() as usize,
        old.ready().len() > 0 ==> {
            &&& r == old.ready()[0]
            &&& forall|k: int| 0 <= k < old.ready().len() - 1 ==> #[trigger] new.ready()[k] == old.ready()[k + 1]
        },
{
}

/// A task that has exited is never scheduled again: when the current task
/// yields and the task at the front of the ready queue takes over, every
/// zombie stays a zombie and none of them becomes current; the task that
/// takes over runs.
pub proof fn law_zombies_stay_out(old: TaskManager, new: TaskManager, id: int, now_ms: usize)
    requires
        old.queue_ok(),
        old.has_current(),
        id == old.ready().push(old.current() as usize)[0],
        switched_to(
            old.tasks().update(old.current(), with_status(old.cur(), TaskStatus::Ready)),
            new,
            id,
            now_ms,
        ),
    ensures
        new.current() == id,
        new.has_current(),
        new.cur().task_status == TaskStatus::Running,
        forall|i: int|
            0 <= i < old.tasks().len() && (#[trigger] old.tasks()[i]).task_status == TaskStatus::Zombie
                ==> new.tasks()[i].task_status == TaskStatus::Zombie && i != new.current(),
{
    let mid = old.tasks().update(old.current(), with_status(old.cur(), TaskStatus::Ready));
    if old.ready().len() > 0 {
        assert(id == old.ready()[0]);
        assert(old.tasks()[id].task_status == TaskStatus::Ready);
    } else {
        assert(id == old.current());
    }
    assert forall|i: int|
        0 <= i < old.tasks().len() && (#[trigger] old.tasks()[i]).task_status == TaskStatus::Zombie
            implies new.tasks()[i].task_status == TaskStatus::Zombie && i != new.current() by {
        assert(i != old.current());
        assert(mid[i] == old.tasks()[i]);
        assert(i != id);
    }
}

/// `ms` is `old_ms` with the data frames of its pages released: the page
/// tables stay, no page is mapped any more, the frame of every page that was
/// mapped is free, and no other frame became free.
pub open spec fn data_recycled(old_ms: MemorySet, ms: MemorySet, old_mem: PhysMemory, mem: PhysMemory) -> bool {
    &&& ms.page_table() == old_ms.page_table()
    &&& mem.free_set().subset_of(old_mem.free_set().union(old_ms.data()))
    &&& forall|v: u64|
        pte_valid(#[trigger] old_ms.entry(old_mem, v)) ==> mem.free_set().contains(
            pte_ppn(old_ms.entry(old_mem, v)),
        )
    &&& forall|v: u64| !pte_valid(#[trigger] ms.entry(mem, v))
}

impl TaskManager {
    /// Release the data frames of the current task's address space.
    fn recycle_current(&mut self, mem: &mut PhysMemory)
        requires
            old(self).wf(*old(mem)),
        ensures
            final(self).wf(*final(mem)),
            current_space_replaced(*old(self), *final(self), *old(mem), *final(mem)),
            data_recycled(old(self).cur().memory_set, final(self).cur().memory_set, *old(mem), *final(mem)),
            forall|i: int, v: u64|
                0 <= i < final(self).tasks().len() && i != final(self).current()
                    ==> #[trigger] final(self).tasks()[i].memory_set.entry(*final(mem), v)
                    == old(self).tasks()[i].memory_set.entry(*old(mem), v),
    {
        let ghost old_self = *self;
        let ghost old_mem = *mem;
        let current = self.current_task;
        assert(old_self.tasks()[current as int].memory_set.wf(old_mem));
        self.tasks[current].memory_set.recycle_data_pages(mem);
        proof {
            let f0 = old_self.cur().memory_set.frames();
            let f1 = self.cur().memory_set.frames();
            assert(f1.subset_of(f0));
            assert(f0.union(f1) =~= f0);
            assert(mem.free_set().subset_of(old_mem.free_set().union(old_self.cur().memory_set.data())));
            assert forall|v: u64| pte_valid(#[trigger] old_self.cur().memory_set.entry(old_mem, v)) implies mem.free_set().contains(
                pte_ppn(old_self.cur().memory_set.entry(old_mem, v)),
            ) by {
                assert(old_self.cur().memory_set.data().contains(pte_ppn(old_self.cur().memory_set.entry(old_mem, v))));
            }
            lemma_current_space_replaced(old_self, *self, old_mem, *mem);
        }
    }
}

/// What exiting task `cur` with `exit_code` does to the tasks `old`,
/// giving `new`: `cur` becomes a zombie with that exit code and no children;
/// its children are appended, in order, to those of the initial task and
/// take it as their parent; every other parent and child list, and every
/// other field but the address space of `cur`, stay (except the status and
/// first-scheduled time of task `except`, which the switch that follows
/// sets).
pub open spec fn exit_effect(
    old: Seq<TaskControlBlock>,
    new: Seq<TaskControlBlock>,
    cur: int,
    exit_code: i32,
    except: int,
) -> bool {
    let moved = old[cur].children@;
    &&& new.len() == old.len()
    &&& new[cur].task_status == TaskStatus::Zombie
    &&& new[cur].exit_code == exit_code
    &&& new[cur].children@ == Seq::<usize>::empty()
    &&& new[cur].syscall_times == old[cur].syscall_times
    &&& new[cur].time == old[cur].time
    &&& new[INIT_TASK as int].children@ == old[INIT_TASK as int].children@ + moved
    &&& forall|i: int|
        0 <= i < old.len() ==> #[trigger] new[i].parent == if moved.contains(i as usize) {
            Some(INIT_TASK)
        } else {
            old[i].parent
        }
    &&& forall|i: int|
        0 <= i < old.len() && i != cur ==> {
            &&& (#[trigger] new[i]).exit_code == old[i].exit_code
            &&& new[i].syscall_times == old[i].syscall_times
            &&& new[i].memory_set == old[i].memory_set
            &&& (i != except ==> new[i].task_status == old[i].task_status && new[i].time == old[i].time)
            &&& (i != INIT_TASK ==> new[i].children == old[i].children)
        }
}

/// On exit, the initial task keeps its children, in order, and gains those
/// of the exiting task after them, in their order; each of those now has the
/// initial task as parent, and the exiting task has no children left.
pub proof fn law_exit_children(
    old: Seq<TaskControlBlock>,
    new: Seq<TaskControlBlock>,
    cur: int,
    exit_code: i32,
    except: int,
)
    requires
        0 <= cur < old.len(),
        INIT_TASK < old.len(),
        exit_effect(old, new, cur, exit_code, except),
    ensures
        new[cur].children@.len() == 0,
        new[INIT_TASK as int].children@.len() == old[INIT_TASK as int].children@.len()
            + old[cur].children@.len(),
        forall|k: int|
            0 <= k < old[INIT_TASK as int].children@.len() ==> #[trigger] new[INIT_TASK as int].children@[k]
                == old[INIT_TASK as int].children@[k],
        forall|k: int|
            0 <= k < old[cur].children@.len() ==> new[INIT_TASK as int].children@[old[INIT_TASK as int].children@.len()
                + k] == #[trigger] old[cur].children@[k],
        forall|k: int|
            0 <= k < old[cur].children@.len() && old[cur].children@[k] < old.len() ==> new[#[trigger] old[cur].children@[k] as int].parent
                == Some(INIT_TASK),
{
    let moved = old[cur].children@;
    assert forall|k: int|
        0 <= k < moved.len() && moved[k] < old.len() implies new[#[trigger] moved[k] as int].parent == Some(
        INIT_TASK,
    ) by {
        assert(moved.contains(moved[k]));
        assert(new[moved[k] as int].parent == if moved.contains((moved[k] as int) as usize) {
            Some(INIT_TASK)
        } else {
            old[moved[k] as int].parent
        });
    }
}

/// Exiting a task other than the initial one keeps the process tree well
/// formed.
pub proof fn lemma_exit_family(
    old: Seq<TaskControlBlock>,
    new: Seq<TaskControlBlock>,
    cur: int,
    exit_code: i32,
    except: int,
)
    requires
        family_ok(old),
        old.len() <= usize::MAX,
        0 <= cur < old.len(),
        INIT_TASK < old.len(),
        cur != INIT_TASK,
        exit_effect(old, new, cur, exit_code, except),
    ensures
        family_ok(new),
{
    let moved = old[cur].children@;
    let ini = INIT_TASK as int;
    assert forall|i: int, k: int| 0 <= i < new.len() && 0 <= k < new[i].children@.len() implies {
        let c = #[trigger] new[i].children@[k];
        &&& c < new.len()
        &&& new[c as int].parent == Some(i as usize)
    } by {
        let c = new[i].children@[k];
        if i == cur {
        } else if i == ini {
            let n0 = old[ini].children@.len();
            if k < n0 {
                assert(c == old[ini].children@[k]);
                assert(c < old.len() && old[c as int].parent == Some(i as usize));
            } else {
                assert(c == moved[k - n0]);
                assert(moved.contains(c));
                assert(old[cur].children@[k - n0] == c);
                assert(c < old.len());
            }
            assert(new[c as int].parent == if moved.contains(c) {
                Some(INIT_TASK)
            } else {
                old[c as int].parent
            });
        } else {
            assert(new[i].children == old[i].children);
            assert(c == old[i].children@[k]);
            assert(c < old.len() && old[c as int].parent == Some(i as usize));
            assert(new[c as int].parent == if moved.contains(c) {
                Some(INIT_TASK)
            } else {
                old[c as int].parent
            });
            if moved.contains(c) {
                let j = choose|j: int| 0 <= j < moved.len() && moved[j] == c;
                assert(old[cur].children@[j] == c);
                assert(old[c as int].parent == Some(cur as usize));
            }
        }
    }
}

/// Exit the current task with `exit_code` and switch to the next ready
/// one: the data frames of the current task's pages are released, the task
/// becomes a zombie keeping its exit code, its children go to the initial
/// task, and it stops being current; then, as `run_next_task`, the task at
/// the front of the ready queue becomes current and running. Returns the
/// task to switch to, or `None` when the queue is empty, leaving no current
/// task. There must be a current task, and it may not be the initial one.
pub fn exit_current_and_run_next(
    manager: &mut TaskManager,
    mem: &mut PhysMemory,
    exit_code: i32,
    now_ms: usize,
) -> (r: Option<usize>)
    requires
        old(manager).wf(*old(mem)),
        old(manager).queue_ok(),
        old(manager).family_wf(),
        old(manager).has_current(),
        old(manager).current() != INIT_TASK,
        INIT_TASK < old(manager).num_app(),
    ensures
        final(manager).num_app() == old(manager).num_app(),
        final(manager).wf(*final(mem)),
        final(manager).queue_ok(),
        final(manager).family_wf(),
        data_recycled(
            old(manager).cur().memory_set,
            final(manager).tasks()[old(manager).current()].memory_set,
            *old(mem),
            *final(mem),
        ),
        forall|i: int, v: u64|
            0 <= i < final(manager).tasks().len() && i != old(manager).current()
                ==> #[trigger] final(manager).tasks()[i].memory_set.entry(*final(mem), v)
                == old(manager).tasks()[i].memory_set.entry(*old(mem), v),
        exit_effect(
            old(manager).tasks(),
            final(manager).tasks(),
            old(manager).current(),
            exit_code,
            match r {
                Some(id) => id as int,
                None => -1,
            },
        ),
        match r {
            Some(id) => {
                &&& old(manager).ready().len() > 0
                &&& id == old(manager).ready()[0]
                &&& final(manager).ready() == old(manager).ready().drop_first()
                &&& final(manager).current() == id
                &&& final(manager).has_current()
                &&& final(manager).tasks()[id as int].task_status == TaskStatus::Running
                &&& final(manager).tasks()[id as int].time == if old(manager).tasks()[id as int].time == 0 {
                    now_ms
                } else {
                    old(manager).tasks()[id as int].time
                }
            },
            None => {
                &&& old(manager).ready().len() == 0
                &&& final(manager).ready() == old(manager).ready()
                &&& final(manager).current() == old(manager).current()
                &&& !final(manager).has_current()
            },
        },
{
    let ghost m0 = *manager;
    let ghost mem0 = *mem;
    manager.recycle_current(mem);
    let ghost ma = *manager;
    proof {
        lemma_cur_fields_changed(m0, ma);
    }
    manager.exit_current(exit_code);
    let ghost m1 = *manager;
    proof {
        let c = m0.current();
        lemma_same_spaces(ma, m1);
        assert(m1.wf(*mem));
        lemma_exit_family(ma.tasks(), m1.tasks(), c, exit_code, -1);
        assert forall|k: int| 0 <= k < m1.ready().len() implies #[trigger] m1.ready()[k] < m1.num_app() by {
            assert(m0.ready()[k] < m0.num_app());
        }
    }
    let next = manager.run_next_task(now_ms);
    proof {
        let c = m0.current();
        let f = *manager;
        let ex: int = match next {
            Some(id) => id as int,
            None => -1,
        };
        if let Some(id) = next {
            assert(m0.ready().contains(id));
            assert(id as int != c);
            lemma_same_family(m1.tasks(), f.tasks());
        }
        assert(f.tasks()[c].memory_set == ma.cur().memory_set) by {
            if let Some(id) = next {
                assert(f.tasks()[c] == m1.tasks()[c]);
            }
        }
        assert(exit_effect(m0.tasks(), f.tasks(), c, exit_code, ex)) by {
            assert forall|i: int| 0 <= i < m0.tasks().len() implies #[trigger] f.tasks()[i].parent == if m0.tasks()[c].children@.contains(i as usize) {
                Some(INIT_TASK)
            } else {
                m0.tasks()[i].parent
            } by {
                assert(f.tasks()[i].parent == m1.tasks()[i].parent);
                if i != c {
                    assert(ma.tasks()[i] == m0.tasks()[i]);
                }
            }
            assert forall|i: int| 0 <= i < m0.tasks().len() && i != c implies {
                &&& (#[trigger] f.tasks()[i]).exit_code == m0.tasks()[i].exit_code
                &&& f.tasks()[i].syscall_times == m0.tasks()[i].syscall_times
                &&& f.tasks()[i].memory_set == m0.tasks()[i].memory_set
                &&& (i != ex ==> f.tasks()[i].task_status == m0.tasks()[i].task_status && f.tasks()[i].time == m0.tasks()[i].time)
                &&& (i != INIT_TASK ==> f.tasks()[i].children == m0.tasks()[i].children)
            } by {
                assert(ma.tasks()[i] == m0.tasks()[i]);
                assert(m1.tasks()[i].exit_code == ma.tasks()[i].exit_code);
            }
        }
        if let Some(id) = next {
            assert forall|k: int| 0 <= k < f.ready().len() implies (#[trigger] f.ready()[k]) < f.num_app()
                && f.tasks()[f.ready()[k] as int].task_status == TaskStatus::Ready by {
                assert(f.ready()[k] == m0.ready()[k + 1]);
                assert(m0.ready()[k + 1] != m0.ready()[0]);
                assert(m0.ready().contains(m0.ready()[k + 1]));
            }
            assert(!f.ready().contains(id)) by {
                if f.ready().contains(id) {
                    let k = choose|k: int| 0 <= k < f.ready().len() && f.ready()[k] == id;
                    assert(m0.ready()[k + 1] == m0.ready()[0]);
                }
            }
        }
        assert forall|i: int, v: u64|
            0 <= i < f.tasks().len() && i != c implies #[trigger] f.tasks()[i].memory_set.entry(*mem, v)
                == m0.tasks()[i].memory_set.entry(mem0, v) by {
            assert(f.tasks()[i].memory_set == m1.tasks()[i].memory_set);
            assert(ma.tasks()[i].memory_set.entry(*mem, v) == m0.tasks()[i].memory_set.entry(mem0, v));
        }
    }
    next
}

impl TaskManager {
    /// The current task becomes a zombie with `exit_code`, hands its children
    /// to the initial task, and stops being current.
    fn exit_current(&mut self, exit_code: i32)
        requires
            0 <= old(self).current() < old(self).tasks().len(),
            old(self).tasks().len() == old(self).num_app(),
            INIT_TASK < old(self).tasks().len(),
            old(self).current() != INIT_TASK,
            old(self).family_wf(),
        ensures
            final(self).num_app() == old(self).num_app(),
            final(self).current() == old(self).current(),
            final(self).ready() == old(self).ready(),
            !final(self).has_current(),
            exit_effect(old(self).tasks(), final(self).tasks(), old(self).current(), exit_code, -1),
            final(self).tasks()[old(self).current()].memory_set == old(self).cur().memory_set,
    {
        let ghost t0 = self.tasks@;
        let current = self.current_task;
        self.tasks[current].task_status = TaskStatus::Zombie;
        self.tasks[current].exit_code = exit_code;
        let ghost t1 = self.tasks@;
        let ghost moved = t0[current as int].children@;
        let n = self.tasks[current].children.len();
        let mut k: usize = 0;
        while k < n
            invariant
                k <= n,
                n == moved.len(),
                current == self.current_task,
                self.num_app == old(self).num_app,
                self.ready@ == old(self).ready@,
                self.running == old(self).running,
                current < t0.len(),
                t0.len() <= usize::MAX,
                self.tasks@.len() == t0.len(),
                forall|j: int| 0 <= j < moved.len() ==> #[trigger] moved[j] < t0.len(),
                forall|i: int|
                    0 <= i < t0.len() ==> #[trigger] self.tasks@[i] == (TaskControlBlock {
                        parent: if moved.subrange(0, k as int).contains(i as usize) {
                            Some(INIT_TASK)
                        } else {
                            t1[i].parent
                        },
                        ..t1[i]
                    }),
                t1[current as int].children@ == moved,
            decreases n - k,
        {
            let c = self.tasks[current].children[k];
            assert(c == moved[k as int]);
            let ghost before = self.tasks@;
            self.tasks[c].parent = Some(INIT_TASK);
            proof {
                assert(moved.subrange(0, k + 1) =~= moved.subrange(0, k as int).push(c));
                assert forall|i: int| 0 <= i < t0.len() implies #[trigger] self.tasks@[i] == (TaskControlBlock {
                    parent: if moved.subrange(0, k + 1).contains(i as usize) {
                        Some(INIT_TASK)
                    } else {
                        t1[i].parent
                    },
                    ..t1[i]
                }) by {
                    if i != c as int {
                        assert(self.tasks@[i] == before[i]);
                        let pre = moved.subrange(0, k as int);
                        let post = moved.subrange(0, k + 1);
                        if pre.contains(i as usize) {
                            let w = choose|w: int| 0 <= w < pre.len() && pre[w] == i as usize;
                            assert(post[w] == i as usize);
                        }
                        if post.contains(i as usize) {
                            let w = choose|w: int| 0 <= w < post.len() && post[w] == i as usize;
                            assert(post[k as int] == c);
                            assert(i as usize != c);
                            assert(w != k as int);
                            assert(pre[w] == i as usize);
                        }
                    } else {
                        assert(moved.subrange(0, k + 1)[k as int] == c);
                    }
                }
            }
            k = k + 1;
        }
        proof {
            assert(moved.subrange(0, n as int) =~= moved);
        }
        let ghost t2 = self.tasks@;
        let mut nc: Vec<usize> = Vec::new();
        let m = self.tasks[INIT_TASK].children.len();
        let mut j: usize = 0;
        while j < m
            invariant
                j <= m,
                self.tasks@ == t2,
                INIT_TASK < t2.len(),
                m == t2[INIT_TASK as int].children@.len(),
                nc@ == t2[INIT_TASK as int].children@.subrange(0, j as int),
            decreases m - j,
        {
            nc.push(self.tasks[INIT_TASK].children[j]);
            j = j + 1;
            assert(nc@ =~= t2[INIT_TASK as int].children@.subrange(0, j as int));
        }
        let mut j: usize = 0;
        while j < n
            invariant
                j <= n,
                self.tasks@ == t2,
                current == self.current_task,
                current < t2.len(),
                n == t2[current as int].children@.len(),
                nc@ == t2[INIT_TASK as int].children@ + t2[current as int].children@.subrange(0, j as int),
            decreases n - j,
        {
            nc.push(self.tasks[current].children[j]);
            j = j + 1;
            assert(nc@ =~= t2[INIT_TASK as int].children@ + t2[current as int].children@.subrange(0, j as int));
        }
        proof {
            assert(t2[current as int].children@.subrange(0, n as int) =~= moved);
            assert(t2[INIT_TASK as int].children@ == t0[INIT_TASK as int].children@);
        }
        self.tasks[INIT_TASK].children = nc;
        self.tasks[current].children = Vec::new();
        self.running = false;
        proof {
            let t3 = self.tasks@;
            assert(t3[current as int].children@ =~= Seq::<usize>::empty());
            assert forall|i: int| 0 <= i < t0.len() implies #[trigger] t3[i].parent == if moved.contains(i as usize) {
                Some(INIT_TASK)
            } else {
                t0[i].parent
            } by {
                assert(t3[i].parent == t2[i].parent);
                assert(t1[i].parent == t0[i].parent);
                assert(moved.subrange(0, n as int) == moved);
            }
        }
    }
}

/// Mapping pages whose middle and leaf tables all exist takes one frame
/// per page.
pub proof fn lemma_frames_needed_tables_exist(lo: int, hi: int, ds: Set<u64>, ls: Set<(u64, u64)>)
    requires
        0 <= lo,
        hi <= SLOTS,
        forall|v: u64| lo <= v < hi ==> #[trigger] ds.contains(vpn_index(v, 0)) && ls.contains(leaf_key(v)),
    ensures
        frames_needed(lo, hi, ds, ls) == if hi > lo {
            hi - lo
        } else {
            0
        },
    decreases hi - lo,
{
    if lo < hi {
        let v = lo as u64;
        assert(ds.contains(vpn_index(v, 0)) && ls.contains(leaf_key(v)));
        assert(ds.insert(vpn_index(v, 0)) =~= ds);
        assert(ls.insert(leaf_key(v)) =~= ls);
        lemma_frames_needed_tables_exist(lo + 1, hi, ds, ls);
    }
}

/// After `mmap` and then `munmap` of the same range, `mmap` of that range
/// succeeds again (for any accepted protection bits), and there are enough
/// free frames for it: `munmap` gave back a frame for each page, and the page
/// tables are still there.
pub proof fn law_mmap_munmap_mmap(
    m0_manager: TaskManager,
    m1_manager: TaskManager,
    m2_manager: TaskManager,
    m0: PhysMemory,
    m1: PhysMemory,
    m2: PhysMemory,
    start: usize,
    len: usize,
    port: usize,
    port2: usize,
)
    requires
        m0.free_count() >= m0_manager.cur().memory_set.frames_needed(m0, area_lo(start), area_hi(start, len)),
        mmapped(m0_manager, m1_manager, m0, m1, start, len, port),
        munmapped(m1_manager, m2_manager, m1, m2, start, len),
        area_aligned(start),
        mmap_port_ok(port2),
    ensures
        mmap_ok(m2_manager, m2, start, len, port2),
        m2.free_count() >= m2_manager.cur().memory_set.frames_needed(m2, area_lo(start), area_hi(start, len)),
{
    lemma_area_hi_bound(start, len);
    crate::mm::page_tale::lemma_zero_invalid();
    let lo = area_lo(start);
    let hi = area_hi(start, len);
    assert forall|v: u64| lo <= v < hi implies !pte_valid(#[trigger] m2_manager.cur().memory_set.entry(m2, v)) by {
        assert(v % SLOTS == v);
        assert(in_pages(v, lo, hi));
    }
    let root = m2_manager.cur().memory_set.page_table().root();
    assert forall|v: u64| lo <= v < hi implies #[trigger] dirs(m2, root).contains(vpn_index(v, 0))
        && leaves(m2, root).contains(leaf_key(v)) by {
        assert(v % SLOTS == v);
        assert(in_pages(v, lo, hi));
        assert(dirs(m1, m1_manager.cur().memory_set.page_table().root()).contains(vpn_index(v, 0)));
    }
    lemma_frames_needed_tables_exist(lo, hi, dirs(m2, root), leaves(m2, root));
    crate::mm::memory_set::lemma_frames_needed_nonneg(lo, hi, dirs(m0, m0_manager.cur().memory_set.page_table().root()), leaves(m0, m0_manager.cur().memory_set.page_table().root()));
}

} // verus!
