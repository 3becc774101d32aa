//! Task control blocks held in an arena indexed by process id, and the
//! process syscalls that act on the current task.
use vstd::prelude::*;

use crate::manager::{advance_stride, pass_of, TaskManager, ReadyTask, stride_less, queue_close};
use crate::user_mem::{
    flatten, from_le_bytes, le_bytes, le_bytes32, le_bytes32_all, lemma_le_bytes32_all_len,
    lemma_le_bytes_round_trip, push_le_bytes, push_le_bytes32, push_le_bytes32_all, views, write_chunks,
};

verus! {

pub const PAGE_SIZE: usize = 4096;

/// Number of syscall ids counted per task.
pub const MAX_SYSCALL_NUM: usize = 500;

pub const MICRO_PER_SEC: usize = 1_000_000;

/// The kernel's root task, which adopts the children of exiting tasks.
pub const ROOT_PID: usize = 0;

#[derive(Clone, Copy, Debug, PartialEq, Eq, Structural)]
pub enum TaskStatus {
    Ready,
    Running,
    Zombie,
}

/// Access rights of a mapped region.
#[derive(Clone, Copy, Debug, PartialEq, Eq, Structural)]
pub struct MapPermission {
    pub read: bool,
    pub write: bool,
    pub execute: bool,
    pub user: bool,
}

/// A mapped region `[start, end)` of virtual addresses.
#[derive(Clone, Copy, Debug, PartialEq, Eq, Structural)]
pub struct MapArea {
    pub start: usize,
    pub end: usize,
    pub perm: MapPermission,
}

/// A task's address space as the syscalls see it: its mapped regions and its
/// heap, which runs from `heap_bottom` to the program break `brk`.
pub struct AddressSpace {
    pub areas: Vec<MapArea>,
    pub heap_bottom: usize,
    pub brk: usize,
}

/// User-accessible rights decoded from the three low bits of `port`:
/// bit 0 read, bit 1 write, bit 2 execute.
pub open spec fn permission_of(port: usize) -> MapPermission {
    MapPermission {
        read: port & 1 != 0,
        write: port & 2 != 0,
        execute: port & 4 != 0,
        user: true,
    }
}

/// The first page boundary at or above `start + len`.
pub open spec fn page_end(start: usize, len: usize) -> int {
    ((start as int + len as int + PAGE_SIZE - 1) / PAGE_SIZE as int) * PAGE_SIZE as int
}

/// Region `a` shares an address with `[start, end)`.
pub open spec fn overlaps(a: MapArea, start: int, end: int) -> bool {
    a.start < end && start < a.end
}

/// A request that `mmap` accepts on an address space with these regions.
pub open spec fn mmap_ok(areas: Seq<MapArea>, start: usize, len: usize, port: usize) -> bool {
    &&& start % PAGE_SIZE == 0
    &&& port & 7 != 0
    &&& port <= 7
    &&& start as int + len as int + PAGE_SIZE - 1 <= usize::MAX
    &&& forall|i: int| 0 <= i < areas.len() ==> !overlaps(#[trigger] areas[i], start as int, page_end(start, len))
}

/// Position of the region that is exactly `[start, end)`, if any.
pub open spec fn exact_area(areas: Seq<MapArea>, start: int, end: int, i: int) -> bool {
    0 <= i < areas.len() && areas[i].start == start && areas[i].end == end
}

impl AddressSpace {
    /// Maps `[start, end)` with `perm` unless it shares an address with a
    /// mapped region.
    pub fn mmap(&mut self, start: usize, end: usize, perm: MapPermission) -> (ok: bool)
        ensures
            ok == forall|i: int| 0 <= i < old(self).areas@.len() ==> !overlaps(#[trigger] old(self).areas@[i], start as int, end as int),
            ok ==> final(self).areas@ == old(self).areas@.push(MapArea { start, end, perm }),
            !ok ==> final(self).areas@ == old(self).areas@,
            final(self).heap_bottom == old(self).heap_bottom,
            final(self).brk == old(self).brk,
    {
        let n = self.areas.len();
        let mut i: usize = 0;
        while i < n
            invariant
                n == self.areas.len(),
                i <= n,
                forall|x: int| 0 <= x < i ==> !overlaps(#[trigger] self.areas@[x], start as int, end as int),
            decreases n - i,
        {
            if self.areas[i].start < end && start < self.areas[i].end {
                return false;
            }
            i += 1;
        }
        self.areas.push(MapArea { start, end, perm });
        true
    }

    /// Unmaps the region that is exactly `[start, end)`; `false` where no
    /// region is.
    pub fn munmap(&mut self, start: usize, end: usize) -> (ok: bool)
        ensures
            ok == exists|i: int| exact_area(old(self).areas@, start as int, end as int, i),
            ok ==> exists|i: int|
                exact_area(old(self).areas@, start as int, end as int, i) && final(self).areas@
                    == old(self).areas@.remove(i),
            !ok ==> final(self).areas@ == old(self).areas@,
            final(self).heap_bottom == old(self).heap_bottom,
            final(self).brk == old(self).brk,
    {
        let n = self.areas.len();
        let mut i: usize = 0;
        while i < n
            invariant
                n == self.areas.len(),
                i <= n,
                self.areas@ == old(self).areas@,
                self.heap_bottom == old(self).heap_bottom,
                self.brk == old(self).brk,
                forall|x: int| 0 <= x < i ==> !exact_area(self.areas@, start as int, end as int, x),
            decreases n - i,
        {
            if self.areas[i].start == start && self.areas[i].end == end {
                assert(exact_area(old(self).areas@, start as int, end as int, i as int));
                self.areas.remove(i);
                return true;
            }
            i += 1;
        }
        false
    }

    /// Moves the program break by `delta` bytes and returns the old break;
    /// `None`, with nothing changed, where the new break would fall below
    /// the heap's bottom or past the address range.
    pub fn change_program_brk(&mut self, delta: i32) -> (r: Option<usize>)
        ensures
            r is Some == (old(self).heap_bottom as int <= old(self).brk as int + delta as int <= usize::MAX),
            r is Some ==> r == Some(old(self).brk) && final(self).brk as int == old(self).brk as int + delta as int,
            r is None ==> final(self).brk == old(self).brk,
            final(self).heap_bottom == old(self).heap_bottom,
            final(self).areas@ == old(self).areas@,
    {
        let old_brk = self.brk;
        let new_brk: i128 = old_brk as i128 + delta as i128;
        if new_brk < self.heap_bottom as i128 || new_brk > usize::MAX as i128 {
            return None;
        }
        self.brk = new_brk as usize;
        Some(old_brk)
    }
}

/// A task control block.
pub struct TaskControlBlock {
    /// The parent's pid; a lookup link, no ownership.
    pub parent: Option<usize>,
    /// Pids of the children.
    pub children: Vec<usize>,
    pub status: TaskStatus,
    pub exit_code: i32,
    pub priority: u64,
    /// Stride accumulator, advanced at each dispatch.
    pub stride: u64,
    pub memory: AddressSpace,
    /// The return register of the saved trap context.
    pub return_value: isize,
    /// How many times the task made each syscall.
    pub syscall_times: Vec<u32>,
    /// Time of the task's start, in milliseconds.
    pub start_time_ms: usize,
}

/// Two task control blocks agree on everything but their address space.
pub open spec fn same_but_memory(a: TaskControlBlock, b: TaskControlBlock) -> bool {
    &&& a.parent == b.parent
    &&& a.children@ == b.children@
    &&& a.status == b.status
    &&& a.exit_code == b.exit_code
    &&& a.priority == b.priority
    &&& a.stride == b.stride
    &&& a.return_value == b.return_value
    &&& a.syscall_times@ == b.syscall_times@
    &&& a.start_time_ms == b.start_time_ms
}

/// The process table: every task by pid, the task on the CPU, and the ready queue.
pub struct Kernel {
    pub tasks: Vec<TaskControlBlock>,
    pub current: Option<usize>,
    pub manager: TaskManager,
}

impl Kernel {
    pub open spec fn children_of(&self, p: int) -> Seq<usize> {
        self.tasks@[p].children@
    }

    pub open spec fn wf(&self) -> bool {
        &&& 0 < self.tasks@.len() < isize::MAX
        &&& self.current matches Some(c) ==> c < self.tasks@.len()
        &&& forall|p: int| 0 <= p < self.tasks@.len() ==> (#[trigger] self.tasks@[p]).priority >= 1
        &&& forall|p: int|
            0 <= p < self.tasks@.len() ==> (#[trigger] self.tasks@[p]).syscall_times@.len() == MAX_SYSCALL_NUM
        &&& forall|p: int| 0 <= p < self.tasks@.len() ==> (#[trigger] self.children_of(p)).no_duplicates()
        &&& forall|p: int, k: int|
            0 <= p < self.tasks@.len() && 0 <= k < self.children_of(p).len() ==> {
                let c = #[trigger] self.children_of(p)[k];
                &&& c < self.tasks@.len()
                &&& self.tasks@[c as int].parent == Some(p as usize)
            }
        &&& forall|x: int| 0 <= x < self.manager@.len() ==> (#[trigger] self.manager@[x]).pid < self.tasks@.len()
    }

    /// Everything but the current task's address space is as in `old`, and
    /// that task's address space keeps its heap.
    pub open spec fn only_memory_changed(&self, old: Kernel) -> bool {
        &&& self.current == old.current
        &&& self.manager@ == old.manager@
        &&& self.tasks@.len() == old.tasks@.len()
        &&& forall|p: int|
            0 <= p < self.tasks@.len() && Some(p as usize) != self.current ==> #[trigger] self.tasks@[p] == old.tasks@[p]
        &&& self.current matches Some(c) ==> same_but_memory(self.tasks@[c as int], old.tasks@[c as int])
    }

    /// The current task's regions.
    pub open spec fn current_areas(&self) -> Seq<MapArea> {
        self.tasks@[self.current.unwrap() as int].memory.areas@
    }

    /// Changing only the current task's address space keeps the invariant.
    proof fn lemma_memory_change_keeps_wf(&self, old: Kernel)
        requires
            old.wf(),
            self.only_memory_changed(old),
        ensures
            self.wf(),
    {
        assert forall|p: int| 0 <= p < self.tasks@.len() implies #[trigger] self.children_of(p) == old.children_of(p)
            && self.tasks@[p].parent == old.tasks@[p].parent && self.tasks@[p].priority == old.tasks@[p].priority
            && self.tasks@[p].syscall_times@ == old.tasks@[p].syscall_times@ by {
            if Some(p as usize) != self.current {
                assert(self.tasks@[p] == old.tasks@[p]);
            }
        }
        assert forall|p: int, k: int|
            0 <= p < self.tasks@.len() && 0 <= k < self.children_of(p).len() implies {
                let c = #[trigger] self.children_of(p)[k];
                &&& c < self.tasks@.len()
                &&& self.tasks@[c as int].parent == Some(p as usize)
            } by {
            assert(self.children_of(p) == old.children_of(p));
            let c = old.children_of(p)[k];
            assert(self.children_of(c as int) == old.children_of(c as int));
        }
    }

    /// Takes task `c` out of the table, leaving a placeholder.
    fn take_task(&mut self, c: usize) -> (t: TaskControlBlock)
        requires
            c < old(self).tasks@.len(),
        ensures
            t == old(self).tasks@[c as int],
            final(self).tasks@.len() == old(self).tasks@.len(),
            forall|p: int| 0 <= p < old(self).tasks@.len() && p != c ==> #[trigger] final(self).tasks@[p] == old(self).tasks@[p],
            final(self).current == old(self).current,
            final(self).manager == old(self).manager,
    {
        let mut t = TaskControlBlock {
            parent: None,
            children: Vec::new(),
            status: TaskStatus::Zombie,
            exit_code: 0,
            priority: 1,
            stride: 0,
            memory: AddressSpace { areas: Vec::new(), heap_bottom: 0, brk: 0 },
            return_value: 0,
            syscall_times: Vec::new(),
            start_time_ms: 0,
        };
        self.tasks.set_and_swap(c, &mut t);
        t
    }

    /// Puts task `c` back after `take_task`.
    fn put_task(&mut self, c: usize, t: TaskControlBlock)
        requires
            c < old(self).tasks@.len(),
        ensures
            final(self).tasks@ == old(self).tasks@.update(c as int, t),
            final(self).current == old(self).current,
            final(self).manager == old(self).manager,
    {
        self.tasks.set(c, t);
    }
}

/// Two task control blocks agree on all but status, stride and exit code.
pub open spec fn same_identity(a: TaskControlBlock, b: TaskControlBlock) -> bool {
    &&& a.parent == b.parent
    &&& a.children@ == b.children@
    &&& a.priority == b.priority
    &&& a.memory.areas@ == b.memory.areas@
    &&& a.memory.heap_bottom == b.memory.heap_bottom
    &&& a.memory.brk == b.memory.brk
    &&& a.return_value == b.return_value
    &&& a.syscall_times@ == b.syscall_times@
    &&& a.start_time_ms == b.start_time_ms
}

/// `pid` is what `waitpid` asks for, as seen from child `c`: -1 stands for
/// any child.
pub open spec fn pid_matches(pid: isize, c: usize) -> bool {
    pid == -1 || pid as int == c as int
}

impl Kernel {
    /// A table with the root task alone, ready and queued with stride 0;
    /// nothing runs yet.
    pub fn new(memory: AddressSpace, priority: u64) -> (r: Kernel)
        requires
            priority >= 1,
        ensures
            r.wf(),
            r.tasks@.len() == 1,
            r.current is None,
            r.manager@ == seq![ReadyTask { pid: ROOT_PID, stride: 0 }],
            r.tasks@[0].parent is None,
            r.tasks@[0].children@.len() == 0,
            r.tasks@[0].status == TaskStatus::Ready,
            r.tasks@[0].priority == priority,
            r.tasks@[0].stride == 0,
            r.tasks@[0].memory == memory,
    {
        let mut times: Vec<u32> = Vec::new();
        while times.len() < MAX_SYSCALL_NUM
            invariant
                times.len() <= MAX_SYSCALL_NUM,
            decreases MAX_SYSCALL_NUM - times.len(),
        {
            times.push(0);
        }
        let root = TaskControlBlock {
            parent: None,
            children: Vec::new(),
            status: TaskStatus::Ready,
            exit_code: 0,
            priority,
            stride: 0,
            memory,
            return_value: 0,
            syscall_times: times,
            start_time_ms: 0,
        };
        let mut tasks: Vec<TaskControlBlock> = Vec::new();
        tasks.push(root);
        let mut manager = TaskManager::new();
        manager.add(ROOT_PID, 0);
        let r = Kernel { tasks, current: None, manager };
        assert(r.children_of(0) =~= Seq::<usize>::empty());
        r
    }

    /// Tables that differ in statuses, strides, exit codes, address spaces
    /// and the queue, but not in family links, priorities or counters, are
    /// alike well formed.
    proof fn lemma_keeps_wf(&self, old: Kernel)
        requires
            old.wf(),
            self.tasks@.len() == old.tasks@.len(),
            forall|p: int|
                0 <= p < self.tasks@.len() ==> (#[trigger] self.tasks@[p]).children@ == old.tasks@[p].children@
                    && self.tasks@[p].parent == old.tasks@[p].parent && self.tasks@[p].priority
                    == old.tasks@[p].priority && self.tasks@[p].syscall_times@ == old.tasks@[p].syscall_times@,
            self.current matches Some(c) ==> c < self.tasks@.len(),
            forall|x: int| 0 <= x < self.manager@.len() ==> (#[trigger] self.manager@[x]).pid < self.tasks@.len(),
        ensures
            self.wf(),
    {
        assert forall|p: int| 0 <= p < self.tasks@.len() implies #[trigger] self.children_of(p) == old.children_of(p) by {
            assert(self.tasks@[p].children@ == old.tasks@[p].children@);
        }
        assert forall|p: int, k: int|
            0 <= p < self.tasks@.len() && 0 <= k < self.children_of(p).len() implies {
                let c = #[trigger] self.children_of(p)[k];
                &&& c < self.tasks@.len()
                &&& self.tasks@[c as int].parent == Some(p as usize)
            } by {
            assert(self.children_of(p) == old.children_of(p));
            let c = old.children_of(p)[k];
            assert(self.tasks@[c as int].parent == old.tasks@[c as int].parent);
        }
    }

    /// Dispatches the queued task of least stride: it becomes the current
    /// task, running, and its stride advances by one pass. `None`, with
    /// nothing changed, where the queue is empty.
    pub fn schedule(&mut self) -> (r: Option<usize>)
        requires
            old(self).wf(),
            old(self).current is None,
        ensures
            final(self).wf(),
            old(self).manager@.len() == 0 ==> r is None && final(self).manager@ == old(self).manager@
                && final(self).tasks == old(self).tasks,
            old(self).manager@.len() > 0 ==> exists|x: int|
                0 <= x < old(self).manager@.len() && r == Some(old(self).manager@[x].pid) && final(self).manager@
                    == old(self).manager@.remove(x) && (queue_close(old(self).manager@) ==> forall|y: int|
                    0 <= y < old(self).manager@.len() ==> !stride_less(
                        #[trigger] old(self).manager@[y].stride,
                        old(self).manager@[x].stride,
                    )),
            final(self).current == r,
            final(self).tasks@.len() == old(self).tasks@.len(),
            r matches Some(c) ==> {
                let (a, b) = (old(self).tasks@[c as int], final(self).tasks@[c as int]);
                &&& same_identity(a, b)
                &&& b.exit_code == a.exit_code
                &&& b.status == TaskStatus::Running
                &&& b.stride as int == (a.stride as int + pass_of(a.priority) as int) % 0x1_0000_0000_0000_0000
            },
            forall|p: int|
                0 <= p < old(self).tasks@.len() && Some(p as usize) != r ==> #[trigger] final(self).tasks@[p]
                    == old(self).tasks@[p],
    {
        let next = self.manager.fetch();
        match next {
            None => {
                proof {
                    self.lemma_keeps_wf(*old(self));
                }
                None
            },
            Some(e) => {
                let c = e.pid;
                assert(old(self).manager@.contains(e));
                let mut t = self.take_task(c);
                t.status = TaskStatus::Running;
                t.stride = advance_stride(t.stride, t.priority);
                self.put_task(c, t);
                self.current = Some(c);
                proof {
                    assert forall|x: int| 0 <= x < self.manager@.len() implies (#[trigger] self.manager@[x]).pid
                        < self.tasks@.len() by {
                        let k = choose|k: int|
                            0 <= k < old(self).manager@.len() && next == Some(old(self).manager@[k])
                                && self.manager@ == old(self).manager@.remove(k);
                        if x < k {
                            assert(self.manager@[x] == old(self).manager@[x]);
                        } else {
                            assert(self.manager@[x] == old(self).manager@[x + 1]);
                        }
                    }
                    self.lemma_keeps_wf(*old(self));
                }
                Some(c)
            },
        }
    }
}

/// The current task's pid.
pub fn sys_getpid(k: &Kernel) -> (r: isize)
    requires
        k.wf(),
        k.current is Some,
    ensures
        r == k.current.unwrap() as isize,
        r >= 0,
{
    match k.current {
        Some(c) => c as isize,
        None => 0,
    }
}

/// Puts the current task back in the ready queue with its stride; no task
/// is current afterwards, and the dispatcher picks the next. Returns 0.
pub fn sys_yield(k: &mut Kernel) -> (r: isize)
    requires
        old(k).wf(),
        old(k).current is Some,
    ensures
        final(k).wf(),
        r == 0,
        final(k).current is None,
        ({
            let c = old(k).current.unwrap() as int;
            let (a, b) = (old(k).tasks@[c], final(k).tasks@[c]);
            &&& final(k).manager@ == old(k).manager@.push(ReadyTask { pid: c as usize, stride: a.stride })
            &&& same_identity(a, b)
            &&& b.exit_code == a.exit_code
            &&& b.stride == a.stride
            &&& b.status == TaskStatus::Ready
            &&& final(k).tasks@.len() == old(k).tasks@.len()
            &&& forall|p: int| 0 <= p < old(k).tasks@.len() && p != c ==> #[trigger] final(k).tasks@[p] == old(k).tasks@[p]
        }),
{
    let c = match k.current {
        Some(c) => c,
        None => 0,
    };
    let mut t = k.take_task(c);
    t.status = TaskStatus::Ready;
    let stride = t.stride;
    k.put_task(c, t);
    k.manager.add(c, stride);
    k.current = None;
    proof {
        k.lemma_keeps_wf(*old(k));
    }
    0
}

/// A copy of the regions and heap of `m`.
fn copy_memory(m: &AddressSpace) -> (r: AddressSpace)
    ensures
        r.areas@ == m.areas@,
        r.heap_bottom == m.heap_bottom,
        r.brk == m.brk,
{
    let mut areas: Vec<MapArea> = Vec::new();
    let n = m.areas.len();
    let mut i: usize = 0;
    while i < n
        invariant
            n == m.areas.len(),
            i <= n,
            areas@ == m.areas@.subrange(0, i as int),
        decreases n - i,
    {
        areas.push(m.areas[i]);
        i += 1;
        assert(areas@ =~= m.areas@.subrange(0, i as int));
    }
    assert(m.areas@.subrange(0, n as int) =~= m.areas@);
    AddressSpace { areas, heap_bottom: m.heap_bottom, brk: m.brk }
}

/// Duplicates the current task: the child gets the next pid, a copy of the
/// address space, the parent's priority and stride, zeroed counters and 0 as
/// its pending return value. It is linked as the parent's last child and
/// queued. Returns the child's pid.
pub fn sys_fork(k: &mut Kernel) -> (r: isize)
    requires
        old(k).wf(),
        old(k).current is Some,
        old(k).tasks@.len() + 1 < isize::MAX,
    ensures
        final(k).wf(),
        r == old(k).tasks@.len() as isize,
        final(k).tasks@.len() == old(k).tasks@.len() + 1,
        final(k).current == old(k).current,
        ({
            let c = old(k).current.unwrap() as int;
            let n = old(k).tasks@.len() as int;
            let (a, b, child) = (old(k).tasks@[c], final(k).tasks@[c], final(k).tasks@[n]);
            &&& final(k).manager@ == old(k).manager@.push(ReadyTask { pid: n as usize, stride: a.stride })
            &&& b.children@ == a.children@.push(n as usize)
            &&& b.parent == a.parent && b.status == a.status && b.exit_code == a.exit_code
            &&& b.priority == a.priority && b.stride == a.stride && b.memory == a.memory
            &&& b.return_value == a.return_value && b.syscall_times == a.syscall_times
            &&& b.start_time_ms == a.start_time_ms
            &&& child.parent == Some(c as usize)
            &&& child.children@.len() == 0
            &&& child.status == TaskStatus::Ready
            &&& child.exit_code == 0
            &&& child.priority == a.priority
            &&& child.stride == a.stride
            &&& child.memory.areas@ == a.memory.areas@
            &&& child.memory.heap_bottom == a.memory.heap_bottom
            &&& child.memory.brk == a.memory.brk
            &&& child.return_value == 0
            &&& child.syscall_times@ == Seq::new(MAX_SYSCALL_NUM as nat, |i: int| 0u32)
            &&& child.start_time_ms == a.start_time_ms
            &&& forall|p: int| 0 <= p < n && p != c ==> #[trigger] final(k).tasks@[p] == old(k).tasks@[p]
        }),
{
    let c = match k.current {
        Some(c) => c,
        None => 0,
    };
    let n = k.tasks.len();
    let mut times: Vec<u32> = Vec::new();
    while times.len() < MAX_SYSCALL_NUM
        invariant
            times.len() <= MAX_SYSCALL_NUM,
            times@ == Seq::new(times.len() as nat, |i: int| 0u32),
        decreases MAX_SYSCALL_NUM - times.len(),
    {
        times.push(0);
        assert(times@ =~= Seq::new(times.len() as nat, |i: int| 0u32));
    }
    let mut parent = k.take_task(c);
    let child = TaskControlBlock {
        parent: Some(c),
        children: Vec::new(),
        status: TaskStatus::Ready,
        exit_code: 0,
        priority: parent.priority,
        stride: parent.stride,
        memory: copy_memory(&parent.memory),
        return_value: 0,
        syscall_times: times,
        start_time_ms: parent.start_time_ms,
    };
    let stride = parent.stride;
    let ghost before = parent.children@;
    parent.children.push(n);
    k.put_task(c, parent);
    k.tasks.push(child);
    k.manager.add(n, stride);
    proof {
        let o = *old(k);
        assert(!before.contains(n)) by {
            if before.contains(n) {
                let j = choose|j: int| 0 <= j < before.len() && before[j] == n;
                assert(o.children_of(c as int)[j] == n);
            }
        }
        assert forall|p: int| 0 <= p < k.tasks@.len() implies (#[trigger] k.children_of(p)).no_duplicates() by {
            if p < n && p != c {
                assert(k.tasks@[p] == o.tasks@[p]);
                assert(o.children_of(p).no_duplicates());
                assert(k.children_of(p) == o.children_of(p));
            } else if p == n {
                assert(k.children_of(p) =~= Seq::<usize>::empty());
            } else {
                let s2 = k.children_of(p);
                assert(s2 == before.push(n));
                assert(before == o.children_of(p));
                assert(o.children_of(p).no_duplicates());
                assert forall|i: int, j: int| 0 <= i < s2.len() && 0 <= j < s2.len() && i != j implies s2[i] != s2[j] by {
                    if i < before.len() && j < before.len() {
                        assert(s2[i] == before[i] && s2[j] == before[j]);
                    } else if i < before.len() {
                        assert(s2[i] == before[i]);
                    } else {
                        assert(s2[j] == before[j]);
                    }
                }
            }
        }
        assert forall|p: int, j: int|
            0 <= p < k.tasks@.len() && 0 <= j < k.children_of(p).len() implies {
                let x = #[trigger] k.children_of(p)[j];
                &&& x < k.tasks@.len()
                &&& k.tasks@[x as int].parent == Some(p as usize)
            } by {
            if p == n {
                assert(k.children_of(p).len() == 0);
            } else {
                let x = k.children_of(p)[j];
                if p == c && j == before.len() {
                    assert(x == n);
                } else {
                    assert(x == o.children_of(p)[j]);
                    assert(x < n);
                    if x != c {
                        assert(k.tasks@[x as int] == o.tasks@[x as int]);
                    }
                }
            }
        }
        assert forall|p: int| 0 <= p < k.tasks@.len() implies (#[trigger] k.tasks@[p]).priority >= 1
            && k.tasks@[p].syscall_times@.len() == MAX_SYSCALL_NUM by {
            if p < n && p != c {
                assert(k.tasks@[p] == o.tasks@[p]);
            }
        }
        assert forall|x: int| 0 <= x < k.manager@.len() implies (#[trigger] k.manager@[x]).pid < k.tasks@.len() by {
            if x < o.manager@.len() {
                assert(k.manager@[x] == o.manager@[x]);
            }
        }
    }
    n as isize
}

/// Two task control blocks agree on all but their family links.
pub open spec fn same_but_family(a: TaskControlBlock, b: TaskControlBlock) -> bool {
    &&& a.status == b.status
    &&& a.exit_code == b.exit_code
    &&& a.priority == b.priority
    &&& a.stride == b.stride
    &&& a.memory.areas@ == b.memory.areas@
    &&& a.memory.heap_bottom == b.memory.heap_bottom
    &&& a.memory.brk == b.memory.brk
    &&& a.return_value == b.return_value
    &&& a.syscall_times@ == b.syscall_times@
    &&& a.start_time_ms == b.start_time_ms
}

impl Kernel {
    /// Some child of the current task matches `pid`.
    pub open spec fn has_child(&self, pid: isize) -> bool {
        let ch = self.children_of(self.current.unwrap() as int);
        exists|j: int| 0 <= j < ch.len() && pid_matches(pid, #[trigger] ch[j])
    }

    /// The current task's `j`-th child matches `pid` and has exited.
    pub open spec fn reapable(&self, pid: isize, j: int) -> bool {
        let ch = self.children_of(self.current.unwrap() as int);
        &&& 0 <= j < ch.len()
        &&& pid_matches(pid, ch[j])
        &&& self.tasks@[ch[j] as int].status == TaskStatus::Zombie
    }
}

/// Once a pid is no longer among the current task's children, waiting for it
/// finds no such child.
pub proof fn lemma_reaped_child_gone(k: Kernel, pid: isize)
    requires
        k.wf(),
        k.current is Some,
        pid >= 0,
        !k.children_of(k.current.unwrap() as int).contains(pid as usize),
    ensures
        !k.has_child(pid),
{
    let ch = k.children_of(k.current.unwrap() as int);
    if k.has_child(pid) {
        let j = choose|j: int| 0 <= j < ch.len() && pid_matches(pid, #[trigger] ch[j]);
        assert(ch[j] == pid as usize);
    }
}

/// Reaps an exited child of the current task that matches `pid` (-1: any),
/// the first in the children list: it leaves the list, its exit code goes to
/// `exit_code`, and its pid is returned. Returns -1 where no child matches,
/// -2 where matching children exist but none has exited.
pub fn sys_waitpid(k: &mut Kernel, pid: isize, exit_code: &mut i32) -> (r: isize)
    requires
        old(k).wf(),
        old(k).current is Some,
    ensures
        final(k).wf(),
        final(k).current == old(k).current,
        final(k).manager@ == old(k).manager@,
        !old(k).has_child(pid) ==> r == -1 && final(k).tasks == old(k).tasks && *final(exit_code) == *old(exit_code),
        old(k).has_child(pid) && !(exists|j: int| old(k).reapable(pid, j)) ==> r == -2 && final(k).tasks
            == old(k).tasks && *final(exit_code) == *old(exit_code),
        (exists|j: int| old(k).reapable(pid, j)) ==> exists|j: int|
            {
                let c = old(k).current.unwrap() as int;
                let ch = old(k).children_of(c);
                &&& #[trigger] old(k).reapable(pid, j)
                &&& forall|i: int| 0 <= i < j ==> !old(k).reapable(pid, i)
                &&& r == ch[j] as isize
                &&& *final(exit_code) == old(k).tasks@[ch[j] as int].exit_code
                &&& final(k).children_of(c) == ch.remove(j)
                &&& final(k).tasks@[c].parent == old(k).tasks@[c].parent
                &&& same_but_family(final(k).tasks@[c], old(k).tasks@[c])
                &&& final(k).tasks@.len() == old(k).tasks@.len()
                &&& forall|p: int| 0 <= p < old(k).tasks@.len() && p != c ==> #[trigger] final(k).tasks@[p] == old(k).tasks@[p]
            },
        r >= 0 ==> !final(k).children_of(old(k).current.unwrap() as int).contains(r as usize),
{
    let c = match k.current {
        Some(c) => c,
        None => 0,
    };
    let ghost ch = k.children_of(c as int);
    let n = k.tasks[c].children.len();
    let mut any = false;
    let mut i: usize = 0;
    while i < n
        invariant
            i <= n,
            n == ch.len(),
            ch == k.children_of(c as int),
            c < k.tasks@.len(),
            any == exists|j: int| 0 <= j < i && pid_matches(pid, #[trigger] ch[j]),
        decreases n - i,
    {
        let x = k.tasks[c].children[i];
        if pid == -1 || (pid >= 0 && pid as usize == x) {
            any = true;
        }
        proof {
            if pid_matches(pid, ch[i as int]) {
                assert(0 <= i < i + 1 && pid_matches(pid, ch[i as int]));
            }
        }
        i += 1;
    }
    if !any {
        return -1;
    }
    let mut i: usize = 0;
    while i < n
        invariant
            i <= n,
            n == ch.len(),
            ch == k.children_of(c as int),
            k.tasks == old(k).tasks,
            k.current == old(k).current,
            k.manager == old(k).manager,
            k.current == Some(c),
            c < k.tasks@.len(),
            k.wf(),
            old(k).wf(),
            *exit_code == *old(exit_code),
            forall|j: int| 0 <= j < i ==> !old(k).reapable(pid, j),
        decreases n - i,
    {
        let x = k.tasks[c].children[i];
        if (pid == -1 || (pid >= 0 && pid as usize == x)) && k.tasks[x].status == TaskStatus::Zombie {
            let ghost o = *old(k);
            let mut t = k.take_task(c);
            let y = t.children.remove(i);
            k.put_task(c, t);
            *exit_code = k.tasks[y].exit_code;
            proof {
                assert(o.reapable(pid, i as int));
                let s2 = k.children_of(c as int);
                assert(s2 == ch.remove(i as int));
                assert(o.children_of(c as int).no_duplicates());
                assert forall|a: int| 0 <= a < s2.len() implies s2[a] == ch[if a < i { a } else { a + 1 }] by {}
                if y == c {
                    assert(k.tasks@[y as int].exit_code == o.tasks@[y as int].exit_code);
                }
                assert forall|p: int| 0 <= p < k.tasks@.len() implies (#[trigger] k.children_of(p)).no_duplicates() by {
                    assert(o.children_of(p).no_duplicates());
                    if p != c {
                        assert(k.tasks@[p] == o.tasks@[p]);
                    } else {
                        assert forall|a: int, b: int| 0 <= a < s2.len() && 0 <= b < s2.len() && a != b implies s2[a]
                            != s2[b] by {
                            assert(s2[a] == ch[if a < i { a } else { a + 1 }]);
                            assert(s2[b] == ch[if b < i { b } else { b + 1 }]);
                        }
                    }
                }
                assert forall|p: int, j: int|
                    0 <= p < k.tasks@.len() && 0 <= j < k.children_of(p).len() implies {
                        let x = #[trigger] k.children_of(p)[j];
                        &&& x < k.tasks@.len()
                        &&& k.tasks@[x as int].parent == Some(p as usize)
                    } by {
                    let x = k.children_of(p)[j];
                    let jj = if p == c && j >= i { j + 1 } else { j };
                    assert(x == o.children_of(p)[jj]);
                    assert(o.tasks@[x as int].parent == Some(p as usize));
                    if x != c {
                        assert(k.tasks@[x as int] == o.tasks@[x as int]);
                    }
                }
                assert forall|p: int| 0 <= p < k.tasks@.len() implies (#[trigger] k.tasks@[p]).priority >= 1
                    && k.tasks@[p].syscall_times@.len() == MAX_SYSCALL_NUM by {
                    if p != c {
                        assert(k.tasks@[p] == o.tasks@[p]);
                    }
                }
                assert(!s2.contains(y)) by {
                    if s2.contains(y) {
                        let a = choose|a: int| 0 <= a < s2.len() && s2[a] == y;
                        assert(s2[a] == ch[if a < i { a } else { a + 1 }]);
                    }
                }
            }
            return y as isize;
        }
        i += 1;
    }
    -2
}

/// Ends the current task: it becomes a zombie with `exit_code`, its
/// address space is released and, unless it is the root task, its children
/// are handed to the root task. No task is current afterwards; the
/// dispatcher picks the next.
pub fn sys_exit(k: &mut Kernel, exit_code: i32)
    requires
        old(k).wf(),
        old(k).current is Some,
    ensures
        final(k).wf(),
        final(k).current is None,
        final(k).manager@ == old(k).manager@,
        final(k).tasks@.len() == old(k).tasks@.len(),
        ({
            let c = old(k).current.unwrap() as int;
            let (a, b) = (old(k).tasks@[c], final(k).tasks@[c]);
            let moved = if c != ROOT_PID { a.children@ } else { Seq::<usize>::empty() };
            &&& b.status == TaskStatus::Zombie
            &&& b.exit_code == exit_code
            &&& b.memory.areas@.len() == 0
            &&& b.memory.heap_bottom == a.memory.heap_bottom && b.memory.brk == a.memory.brk
            &&& b.priority == a.priority && b.stride == a.stride && b.return_value == a.return_value
            &&& b.syscall_times@ == a.syscall_times@ && b.start_time_ms == a.start_time_ms
            &&& c != ROOT_PID ==> b.children@.len() == 0
            &&& c != ROOT_PID ==> final(k).children_of(ROOT_PID as int) == old(k).children_of(ROOT_PID as int) + moved
            &&& forall|p: int|
                0 <= p < old(k).tasks@.len() && p != c && p != ROOT_PID ==> #[trigger] final(k).children_of(p)
                    == old(k).children_of(p)
            &&& c == ROOT_PID ==> final(k).children_of(c) == old(k).children_of(c)
            &&& forall|p: int|
                0 <= p < old(k).tasks@.len() ==> (#[trigger] final(k).tasks@[p]).parent == if moved.contains(
                    p as usize,
                ) {
                    Some(ROOT_PID)
                } else {
                    old(k).tasks@[p].parent
                }
            &&& forall|p: int|
                0 <= p < old(k).tasks@.len() && p != c ==> same_but_family(#[trigger] final(k).tasks@[p], old(k).tasks@[p])
        }),
{
    let c = match k.current {
        Some(c) => c,
        None => 0,
    };
    let ghost o = *old(k);
    let mut t = k.take_task(c);
    t.status = TaskStatus::Zombie;
    t.exit_code = exit_code;
    t.memory.areas = Vec::new();
    let mut kids: Vec<usize> = Vec::new();
    if c != ROOT_PID {
        std::mem::swap(&mut t.children, &mut kids);
    }
    k.put_task(c, t);
    k.current = None;
    let ghost k0 = *k;
    let ghost moved = kids@;
    proof {
        assert(forall|x: int| 0 <= x < moved.len() ==> o.tasks@[#[trigger] moved[x] as int].parent == Some(c)) by {
            if c != ROOT_PID {
                assert(moved == o.children_of(c as int));
            }
        }
    }
    let m = kids.len();
    let mut i: usize = 0;
    while i < m
        invariant
            i <= m,
            m == moved.len(),
            kids@ == moved,
            o.wf(),
            c < o.tasks@.len(),
            c == ROOT_PID ==> moved.len() == 0,
            moved == (if c != ROOT_PID { o.children_of(c as int) } else { Seq::<usize>::empty() }),
            k.tasks@.len() == o.tasks@.len(),
            k.current is None,
            k.manager == o.manager,
            forall|p: int| 0 <= p < o.tasks@.len() ==> same_but_family(#[trigger] k.tasks@[p], k0.tasks@[p]),
            forall|p: int| 0 <= p < o.tasks@.len() && p != ROOT_PID ==> #[trigger] k.children_of(p) == k0.children_of(p),
            k.children_of(ROOT_PID as int) == k0.children_of(ROOT_PID as int) + moved.subrange(0, i as int),
            forall|p: int|
                0 <= p < o.tasks@.len() ==> (#[trigger] k.tasks@[p]).parent == if moved.subrange(0, i as int).contains(
                    p as usize,
                ) {
                    Some(ROOT_PID)
                } else {
                    k0.tasks@[p].parent
                },
            k0.tasks@.len() == o.tasks@.len(),
        decreases m - i,
    {
        let x = kids[i];
        proof {
            assert(o.children_of(c as int)[i as int] == x);
        }
        let ghost before = *k;
        let mut tx = k.take_task(x);
        tx.parent = Some(ROOT_PID);
        let ghost gx = tx;
        k.put_task(x, tx);
        let ghost mid = *k;
        let mut tr = k.take_task(ROOT_PID);
        tr.children.push(x);
        let ghost gr = tr;
        k.put_task(ROOT_PID, tr);
        proof {
            let root = ROOT_PID as int;
            let s1 = moved.subrange(0, i + 1);
            let s0 = moved.subrange(0, i as int);
            assert(s1 =~= s0.push(x));
            assert(mid.tasks@ == before.tasks@.update(x as int, gx));
            assert(k.tasks@ == mid.tasks@.update(root, gr));
            assert(gr.children@ == mid.tasks@[root].children@.push(x));
            assert(k.children_of(root) =~= k0.children_of(root) + s1);
            assert forall|p: int| 0 <= p < o.tasks@.len() implies same_but_family(#[trigger] k.tasks@[p], k0.tasks@[p]) by {
                assert(same_but_family(before.tasks@[p], k0.tasks@[p]));
            }
            assert forall|p: int| 0 <= p < o.tasks@.len() && p != ROOT_PID implies #[trigger] k.children_of(p)
                == k0.children_of(p) by {
                assert(before.children_of(p) == k0.children_of(p));
            }
            assert forall|p: int| 0 <= p < o.tasks@.len() implies (#[trigger] k.tasks@[p]).parent == if s1.contains(
                p as usize,
            ) {
                Some(ROOT_PID)
            } else {
                k0.tasks@[p].parent
            } by {
                if p == x as int {
                    assert(s1[i as int] == x);
                } else {
                    assert(k.tasks@[p].parent == before.tasks@[p].parent);
                    if s1.contains(p as usize) {
                        let l = choose|l: int| 0 <= l < s1.len() && #[trigger] s1[l] == p as usize;
                        assert(s0[l] == p as usize);
                    }
                    if s0.contains(p as usize) {
                        let l = choose|l: int| 0 <= l < s0.len() && #[trigger] s0[l] == p as usize;
                        assert(s1[l] == p as usize);
                    }
                }
            }
        }
        i += 1;
    }
    proof {
        assert(moved.subrange(0, m as int) =~= moved);
        lemma_exit_keeps_wf(o, k0, *k, c, moved);
        let ci = c as int;
        let root = ROOT_PID as int;
        assert(same_but_family(k.tasks@[ci], k0.tasks@[ci]));
        if c != ROOT_PID {
            assert(k.children_of(ci) == k0.children_of(ci));
            assert(k0.tasks@[root] == o.tasks@[root]);
        }
        assert forall|p: int|
            0 <= p < o.tasks@.len() && p != ci && p != root implies #[trigger] k.children_of(p) == o.children_of(p) by {
            assert(k.children_of(p) == k0.children_of(p));
            assert(k0.tasks@[p] == o.tasks@[p]);
        }
        assert forall|p: int|
            0 <= p < o.tasks@.len() && p != ci implies same_but_family(#[trigger] k.tasks@[p], o.tasks@[p]) by {
            assert(same_but_family(k.tasks@[p], k0.tasks@[p]));
            assert(k0.tasks@[p] == o.tasks@[p]);
        }
        assert forall|p: int| 0 <= p < o.tasks@.len() implies (#[trigger] k.tasks@[p]).parent == if moved.contains(
            p as usize,
        ) {
            Some(ROOT_PID)
        } else {
            o.tasks@[p].parent
        } by {
            if p != ci {
                assert(k0.tasks@[p] == o.tasks@[p]);
            }
        }
    }
}

/// The table left by `sys_exit` is well formed.
proof fn lemma_exit_keeps_wf(o: Kernel, k0: Kernel, k: Kernel, c: usize, moved: Seq<usize>)
    requires
        o.wf(),
        o.current == Some(c),
        moved == (if c != ROOT_PID { o.children_of(c as int) } else { Seq::<usize>::empty() }),
        k0.tasks@.len() == o.tasks@.len(),
        k.tasks@.len() == o.tasks@.len(),
        k.current is None,
        k.manager == o.manager,
        forall|p: int| 0 <= p < o.tasks@.len() && p != c ==> #[trigger] k0.tasks@[p] == o.tasks@[p],
        k0.tasks@[c as int].parent == o.tasks@[c as int].parent,
        k0.tasks@[c as int].priority == o.tasks@[c as int].priority,
        k0.tasks@[c as int].syscall_times@ == o.tasks@[c as int].syscall_times@,
        c != ROOT_PID ==> k0.children_of(c as int).len() == 0,
        c == ROOT_PID ==> k0.children_of(c as int) == o.children_of(c as int),
        forall|p: int| 0 <= p < o.tasks@.len() ==> same_but_family(#[trigger] k.tasks@[p], k0.tasks@[p]),
        forall|p: int| 0 <= p < o.tasks@.len() && p != ROOT_PID ==> #[trigger] k.children_of(p) == k0.children_of(p),
        k.children_of(ROOT_PID as int) == k0.children_of(ROOT_PID as int) + moved,
        forall|p: int|
            0 <= p < o.tasks@.len() ==> (#[trigger] k.tasks@[p]).parent == if moved.contains(p as usize) {
                Some(ROOT_PID)
            } else {
                k0.tasks@[p].parent
            },
    ensures
        k.wf(),
{
    let root = ROOT_PID as int;
    assert(forall|x: int| 0 <= x < moved.len() ==> o.tasks@[#[trigger] moved[x] as int].parent == Some(c)
        && moved[x] < o.tasks@.len()) by {
        if c != ROOT_PID {
            assert forall|x: int| 0 <= x < moved.len() implies o.tasks@[#[trigger] moved[x] as int].parent == Some(c)
                && moved[x] < o.tasks@.len() by {
                assert(o.children_of(c as int)[x] == moved[x]);
            }
        }
    }
    assert forall|p: int| 0 <= p < k.tasks@.len() implies (#[trigger] k.tasks@[p]).priority >= 1
        && k.tasks@[p].syscall_times@.len() == MAX_SYSCALL_NUM by {
        assert(same_but_family(k.tasks@[p], k0.tasks@[p]));
        if p != c {
            assert(k0.tasks@[p] == o.tasks@[p]);
        }
    }
    // Children lists in the new table, in terms of the old one.
    assert forall|p: int| 0 <= p < k.tasks@.len() && p != root implies #[trigger] k.children_of(p) == (if p == c {
        Seq::<usize>::empty()
    } else {
        o.children_of(p)
    }) by {
        assert(k.children_of(p) == k0.children_of(p));
        if p == c {
            assert(k0.children_of(p) =~= Seq::<usize>::empty());
        } else {
            assert(k0.tasks@[p] == o.tasks@[p]);
        }
    }
    let old_root = o.children_of(root);
    assert(k0.children_of(root) == old_root) by {
        if c != ROOT_PID {
            assert(k0.tasks@[root] == o.tasks@[root]);
        }
    }
    assert(o.children_of(root).no_duplicates());
    assert forall|p: int| 0 <= p < k.tasks@.len() implies (#[trigger] k.children_of(p)).no_duplicates() by {
        assert(o.children_of(p).no_duplicates());
        if p == root {
            let s = k.children_of(root);
            assert(s == old_root + moved);
            if c != ROOT_PID {
                assert(o.children_of(c as int).no_duplicates());
                assert forall|a: int, b: int| 0 <= a < s.len() && 0 <= b < s.len() && a != b implies s[a] != s[b] by {
                    if a < old_root.len() && b >= old_root.len() {
                        assert(o.tasks@[s[a] as int].parent == Some(ROOT_PID));
                        assert(moved[b - old_root.len()] == s[b]);
                    } else if b < old_root.len() && a >= old_root.len() {
                        assert(o.tasks@[s[b] as int].parent == Some(ROOT_PID));
                        assert(moved[a - old_root.len()] == s[a]);
                    } else if a >= old_root.len() {
                        assert(moved[a - old_root.len()] == s[a]);
                        assert(moved[b - old_root.len()] == s[b]);
                    }
                }
            } else {
                assert(s =~= old_root);
            }
        } else if p == c {
            assert(k.children_of(p) =~= Seq::<usize>::empty());
        }
    }
    assert forall|p: int, j: int|
        0 <= p < k.tasks@.len() && 0 <= j < k.children_of(p).len() implies {
            let x = #[trigger] k.children_of(p)[j];
            &&& x < k.tasks@.len()
            &&& k.tasks@[x as int].parent == Some(p as usize)
        } by {
        let x = k.children_of(p)[j];
        if p == root && j >= old_root.len() {
            assert(moved[j - old_root.len()] == x);
            assert(moved.contains(x));
        } else {
            if p == root {
                assert(k.children_of(root) == old_root + moved);
                assert(x == old_root[j]);
            } else if p == c {
                assert(false);
            }
            assert(x == o.children_of(p)[j]);
            assert(o.tasks@[x as int].parent == Some(p as usize));
            if moved.contains(x) {
                let l = choose|l: int| 0 <= l < moved.len() && moved[l] == x;
                assert(o.tasks@[moved[l] as int].parent == Some(c));
            }
            if x == c {
                assert(k0.tasks@[x as int].parent == o.tasks@[x as int].parent);
            } else {
                assert(k0.tasks@[x as int] == o.tasks@[x as int]);
            }
        }
    }
    assert forall|x: int| 0 <= x < k.manager@.len() implies (#[trigger] k.manager@[x]).pid < k.tasks@.len() by {
        assert(k.manager@[x] == o.manager@[x]);
    }
}

/// Queues task `pid` with its stride.
pub fn add_task(k: &mut Kernel, pid: usize)
    requires
        old(k).wf(),
        pid < old(k).tasks@.len(),
    ensures
        final(k).wf(),
        final(k).manager@ == old(k).manager@.push(ReadyTask { pid, stride: old(k).tasks@[pid as int].stride }),
        final(k).tasks == old(k).tasks,
        final(k).current == old(k).current,
{
    let stride = k.tasks[pid].stride;
    k.manager.add(pid, stride);
    proof {
        k.lemma_keeps_wf(*old(k));
    }
}

/// Takes the queued task of least stride out of the ready queue, or `None`
/// where it is empty.
pub fn fetch_task(k: &mut Kernel) -> (r: Option<ReadyTask>)
    requires
        old(k).wf(),
    ensures
        final(k).wf(),
        final(k).tasks == old(k).tasks,
        final(k).current == old(k).current,
        old(k).manager@.len() == 0 ==> r is None && final(k).manager@ == old(k).manager@,
        old(k).manager@.len() > 0 ==> exists|x: int|
            0 <= x < old(k).manager@.len() && r == Some(old(k).manager@[x]) && final(k).manager@
                == old(k).manager@.remove(x),
        r matches Some(t) ==> (queue_close(old(k).manager@) ==> forall|y: int|
            0 <= y < old(k).manager@.len() ==> !stride_less(#[trigger] old(k).manager@[y].stride, t.stride)),
{
    let r = k.manager.fetch();
    proof {
        assert forall|x: int| 0 <= x < k.manager@.len() implies (#[trigger] k.manager@[x]).pid < k.tasks@.len() by {
            if old(k).manager@.len() > 0 {
                let j = choose|j: int|
                    0 <= j < old(k).manager@.len() && r == Some(old(k).manager@[j]) && k.manager@
                        == old(k).manager@.remove(j);
                if x < j {
                    assert(k.manager@[x] == old(k).manager@[x]);
                } else {
                    assert(k.manager@[x] == old(k).manager@[x + 1]);
                }
            }
        }
        k.lemma_keeps_wf(*old(k));
    }
    r
}

/// Maps `[start, start + len)`, rounded up to whole pages, into the current
/// task with the rights of `port`. Returns 0, or -1 on a misaligned start,
/// rights outside 1..=7, or overlap with a mapped region.
pub fn sys_mmap(k: &mut Kernel, start: usize, len: usize, port: usize) -> (r: isize)
    requires
        old(k).wf(),
        old(k).current is Some,
    ensures
        final(k).wf(),
        final(k).only_memory_changed(*old(k)),
        r == 0 || r == -1,
        (r == 0) == mmap_ok(old(k).current_areas(), start, len, port),
        r == 0 ==> final(k).current_areas() == old(k).current_areas().push(
            MapArea { start, end: page_end(start, len) as usize, perm: permission_of(port) },
        ),
        r != 0 ==> final(k).current_areas() == old(k).current_areas(),
{
    if start % PAGE_SIZE != 0 {
        return -1;
    }
    if port & 7 == 0 {
        return -1;
    }
    if port > 7 {
        return -1;
    }
    if len > usize::MAX - start || start + len > usize::MAX - (PAGE_SIZE - 1) {
        return -1;
    }
    let end = (start + len + (PAGE_SIZE - 1)) / PAGE_SIZE * PAGE_SIZE;
    let mut permission = MapPermission { read: false, write: false, execute: false, user: true };
    if port & 1 != 0 {
        permission.read = true;
    }
    if port & 2 != 0 {
        permission.write = true;
    }
    if port & 4 != 0 {
        permission.execute = true;
    }
    let c = match k.current {
        Some(c) => c,
        None => 0,
    };
    let mut t = k.take_task(c);
    let ok = t.memory.mmap(start, end, permission);
    k.put_task(c, t);
    proof {
        assert(k.tasks@ =~= old(k).tasks@.update(c as int, t));
        assert(permission == permission_of(port));
        k.lemma_memory_change_keeps_wf(*old(k));
    }
    if ok {
        0
    } else {
        -1
    }
}

/// Unmaps the region that is exactly `[start, start + len)`, rounded up to
/// whole pages, from the current task. Returns 0, or -1 on a misaligned start
/// or where no region matches.
pub fn sys_munmap(k: &mut Kernel, start: usize, len: usize) -> (r: isize)
    requires
        old(k).wf(),
        old(k).current is Some,
    ensures
        final(k).wf(),
        final(k).only_memory_changed(*old(k)),
        r == 0 || r == -1,
        (r == 0) == (start % PAGE_SIZE == 0 && start as int + len as int + PAGE_SIZE - 1 <= usize::MAX
            && exists|i: int| exact_area(old(k).current_areas(), start as int, page_end(start, len), i)),
        r == 0 ==> exists|i: int|
            exact_area(old(k).current_areas(), start as int, page_end(start, len), i)
                && final(k).current_areas() == old(k).current_areas().remove(i),
        r != 0 ==> final(k).current_areas() == old(k).current_areas(),
{
    if start % PAGE_SIZE != 0 {
        return -1;
    }
    if len > usize::MAX - start || start + len > usize::MAX - (PAGE_SIZE - 1) {
        return -1;
    }
    let end = (start + len + (PAGE_SIZE - 1)) / PAGE_SIZE * PAGE_SIZE;
    let c = match k.current {
        Some(c) => c,
        None => 0,
    };
    assert(end as int == page_end(start, len));
    let mut t = k.take_task(c);
    assert(t.memory.areas@ == old(k).current_areas());
    let ok = t.memory.munmap(start, end);
    k.put_task(c, t);
    proof {
        assert(k.tasks@ =~= old(k).tasks@.update(c as int, t));
        k.lemma_memory_change_keeps_wf(*old(k));
    }
    if ok {
        0
    } else {
        -1
    }
}

/// Moves the current task's program break by `size` bytes. Returns the old
/// break, or -1 where the new one would fall below the heap's bottom or past
/// the address range.
pub fn sys_sbrk(k: &mut Kernel, size: i32) -> (r: isize)
    requires
        old(k).wf(),
        old(k).current is Some,
    ensures
        final(k).wf(),
        final(k).only_memory_changed(*old(k)),
        final(k).current_areas() == old(k).current_areas(),
        ({
            let m = old(k).tasks@[old(k).current.unwrap() as int].memory;
            let m2 = final(k).tasks@[old(k).current.unwrap() as int].memory;
            if m.heap_bottom as int <= m.brk as int + size as int <= usize::MAX {
                r == m.brk as isize && m2.brk as int == m.brk as int + size as int
            } else {
                r == -1 && m2.brk == m.brk
            }
        }),
{
    let c = match k.current {
        Some(c) => c,
        None => 0,
    };
    let mut t = k.take_task(c);
    let res = t.memory.change_program_brk(size);
    k.put_task(c, t);
    proof {
        assert(k.tasks@ =~= old(k).tasks@.update(c as int, t));
        k.lemma_memory_change_keeps_wf(*old(k));
    }
    match res {
        Some(old_brk) => old_brk as isize,
        None => -1,
    }
}

/// Replaces the current task's address space by that of a loaded program, or
/// returns -1 where the program could not be found or read (`None`). Pid,
/// parent and children stay.
pub fn sys_exec(k: &mut Kernel, program: Option<AddressSpace>) -> (r: isize)
    requires
        old(k).wf(),
        old(k).current is Some,
    ensures
        final(k).wf(),
        final(k).only_memory_changed(*old(k)),
        program is None ==> r == -1 && *final(k) == *old(k),
        program matches Some(m) ==> r == 0 && final(k).tasks@[old(k).current.unwrap() as int].memory == m,
{
    match program {
        None => -1,
        Some(m) => {
            let c = match k.current {
                Some(c) => c,
                None => 0,
            };
            let mut t = k.take_task(c);
            t.memory = m;
            k.put_task(c, t);
            proof {
                assert(k.tasks@ =~= old(k).tasks@.update(c as int, t));
                k.lemma_memory_change_keeps_wf(*old(k));
            }
            0
        },
    }
}

/// A time as seconds and microseconds.
#[derive(Clone, Copy, Debug, PartialEq, Eq, Structural)]
pub struct TimeVal {
    pub sec: usize,
    pub usec: usize,
}

/// The time value for a clock reading in microseconds.
pub open spec fn time_val_of(time_us: usize) -> TimeVal {
    TimeVal { sec: time_us / MICRO_PER_SEC, usec: time_us % MICRO_PER_SEC }
}

/// The layout of a time value in user memory: `sec`, then `usec`, each as
/// eight bytes, least significant first.
pub open spec fn time_val_bytes(t: TimeVal) -> Seq<u8> {
    le_bytes(t.sec as u64) + le_bytes(t.usec as u64)
}

/// Reading back the bytes written for a clock reading gives the seconds and
/// microseconds of that reading.
pub proof fn lemma_time_val_round_trip(time_us: usize, written: Seq<u8>)
    requires
        written == time_val_bytes(time_val_of(time_us)),
    ensures
        from_le_bytes(written, 0) == (time_us / MICRO_PER_SEC) as u64,
        from_le_bytes(written, 8) == (time_us % MICRO_PER_SEC) as u64,
{
    let t = time_val_of(time_us);
    assert(written.subrange(0, 8) =~= le_bytes(t.sec as u64));
    assert(written.subrange(8, 16) =~= le_bytes(t.usec as u64));
    lemma_le_bytes_round_trip(t.sec as u64, written, 0);
    lemma_le_bytes_round_trip(t.usec as u64, written, 8);
}

impl TimeVal {
    /// The layout of this value in user memory.
    pub fn to_bytes(&self) -> (r: Vec<u8>)
        ensures
            r@ == time_val_bytes(*self),
    {
        let mut out: Vec<u8> = Vec::new();
        push_le_bytes(&mut out, self.sec as u64);
        push_le_bytes(&mut out, self.usec as u64);
        assert(out@ =~= time_val_bytes(*self));
        out
    }
}

/// Writes the time of the clock reading `time_us` into the destination,
/// given as the physically contiguous chunks it translates to; the value may
/// straddle chunks. Returns 0, or -1 with nothing written where the chunks
/// do not cover exactly the value's 16 bytes.
pub fn sys_get_time(time_us: usize, ts: &mut Vec<Vec<u8>>) -> (r: isize)
    ensures
        r == 0 || r == -1,
        (r == 0) == (flatten(views(old(ts)@)).len() == 16),
        r == 0 ==> flatten(views(final(ts)@)) == time_val_bytes(time_val_of(time_us)),
        r != 0 ==> final(ts)@ == old(ts)@,
{
    let t = TimeVal { sec: time_us / MICRO_PER_SEC, usec: time_us % MICRO_PER_SEC };
    let bytes = t.to_bytes();
    if write_chunks(ts, &bytes) {
        0
    } else {
        -1
    }
}

/// Size of a task information record in user memory.
pub const TASK_INFO_SIZE: usize = 2016;

/// What `task_info` reports on the calling task.
pub struct TaskInfo {
    pub status: TaskStatus,
    /// How many times each syscall was made.
    pub syscall_times: Vec<u32>,
    /// Milliseconds since the task started.
    pub time: usize,
}

/// The number that stands for a status in user memory.
pub open spec fn status_code(s: TaskStatus) -> u32 {
    match s {
        TaskStatus::Ready => 0,
        TaskStatus::Running => 1,
        TaskStatus::Zombie => 2,
    }
}

/// The layout of a task information record in user memory: the status code
/// as four bytes, each syscall count as four bytes, four bytes of padding,
/// then the time as eight bytes; all least significant byte first.
pub open spec fn task_info_bytes(status: TaskStatus, syscall_times: Seq<u32>, time: usize) -> Seq<u8> {
    le_bytes32(status_code(status)) + le_bytes32_all(syscall_times) + seq![0u8, 0u8, 0u8, 0u8] + le_bytes(
        time as u64,
    )
}

impl TaskInfo {
    /// The layout of this record in user memory.
    pub fn to_bytes(&self) -> (r: Vec<u8>)
        ensures
            r@ == task_info_bytes(self.status, self.syscall_times@, self.time),
    {
        let code: u32 = match self.status {
            TaskStatus::Ready => 0,
            TaskStatus::Running => 1,
            TaskStatus::Zombie => 2,
        };
        let mut out: Vec<u8> = Vec::new();
        push_le_bytes32(&mut out, code);
        push_le_bytes32_all(&mut out, &self.syscall_times);
        push_le_bytes32(&mut out, 0);
        push_le_bytes(&mut out, self.time as u64);
        assert(le_bytes32(0) =~= seq![0u8, 0u8, 0u8, 0u8]) by {
            assert((0u32 & 0xff) as u8 == 0u8 && ((0u32 >> 8u32) & 0xff) as u8 == 0u8 && ((0u32 >> 16u32)
                & 0xff) as u8 == 0u8 && ((0u32 >> 24u32) & 0xff) as u8 == 0u8) by (bit_vector);
        }
        assert(out@ =~= task_info_bytes(self.status, self.syscall_times@, self.time));
        out
    }
}

/// Writes the current task's information into the destination chunks: it is
/// running, its syscall counts, and the milliseconds from its start to
/// `now_ms`. Returns 0, or -1 with nothing written where the chunks do not
/// cover exactly one record.
pub fn sys_task_info(k: &Kernel, now_ms: usize, ti: &mut Vec<Vec<u8>>) -> (r: isize)
    requires
        k.wf(),
        k.current is Some,
        now_ms >= k.tasks@[k.current.unwrap() as int].start_time_ms,
    ensures
        r == 0 || r == -1,
        (r == 0) == (flatten(views(old(ti)@)).len() == TASK_INFO_SIZE),
        r == 0 ==> flatten(views(final(ti)@)) == ({
            let t = k.tasks@[k.current.unwrap() as int];
            task_info_bytes(TaskStatus::Running, t.syscall_times@, (now_ms - t.start_time_ms) as usize)
        }),
        r != 0 ==> final(ti)@ == old(ti)@,
{
    let c = match k.current {
        Some(c) => c,
        None => 0,
    };
    let t = &k.tasks[c];
    let mut times: Vec<u32> = Vec::new();
    let n = t.syscall_times.len();
    let mut i: usize = 0;
    while i < n
        invariant
            n == t.syscall_times.len(),
            i <= n,
            times@ == t.syscall_times@.subrange(0, i as int),
        decreases n - i,
    {
        times.push(t.syscall_times[i]);
        i += 1;
        assert(times@ =~= t.syscall_times@.subrange(0, i as int));
    }
    assert(t.syscall_times@.subrange(0, n as int) =~= t.syscall_times@);
    let info = TaskInfo { status: TaskStatus::Running, syscall_times: times, time: now_ms - t.start_time_ms };
    let bytes = info.to_bytes();
    proof {
        lemma_le_bytes32_all_len(info.syscall_times@);
    }
    if write_chunks(ti, &bytes) {
        0
    } else {
        -1
    }
}

/// Spawning a new program in one step is not offered: always -1.
pub fn sys_spawn(k: &Kernel) -> (r: isize)
    ensures
        r == -1,
{
    -1
}

/// Setting a priority from user space is not offered: always -1.
pub fn sys_set_priority(k: &Kernel, prio: isize) -> (r: isize)
    ensures
        r == -1,
{
    -1
}

} // verus!
