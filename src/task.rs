use vstd::prelude::*;
use crate::config::{CLOCK_FREQ, KERNEL_STACK_SIZE, PAGE_SIZE, TRAMPOLINE};
use crate::frame_allocator::StackFrameAllocator;
use crate::memory_set::MemorySet;
use crate::trap::TrapContext;

verus! {

/// Where a task stands in its life.
#[derive(PartialEq, Eq, Structural, Clone, Copy, Debug)]
pub enum TaskStatus {
    Ready,
    Running,
    Zombie,
}

/// Hands out process ids, reusing freed ones first.
pub struct PidAllocator {
    current: usize,
    recycled: Vec<usize>,
}

/// A process id that has been handed out.
#[derive(PartialEq, Eq, Structural, Debug)]
pub struct PidHandle(pub usize);

impl PidAllocator {
    pub closed spec fn spec_current(&self) -> int {
        self.current as int
    }

    pub closed spec fn spec_recycled(&self) -> Seq<usize> {
        self.recycled@
    }

    /// Whether `pid` is in use.
    pub open spec fn in_use(&self, pid: int) -> bool {
        0 <= pid < self.spec_current() && !self.spec_recycled().contains(pid as usize)
    }

    pub open spec fn wf(&self) -> bool {
        &&& self.spec_recycled().no_duplicates()
        &&& forall|i: int| 0 <= i < self.spec_recycled().len() ==> #[trigger] self.spec_recycled()[i] < self.spec_current()
    }

    /// An allocator that has handed out nothing.
    pub fn new() -> (r: Self)
        ensures
            r.wf(),
            r.spec_current() == 0,
            forall|p: int| !#[trigger] r.in_use(p),
    {
        PidAllocator { current: 0, recycled: Vec::new() }
    }

    /// Whether handing out another id could exceed `isize::MAX`.
    pub fn exhausted(&self) -> (r: bool)
        ensures
            r == (self.spec_current() >= isize::MAX),
    {
        self.current >= isize::MAX as usize
    }

    /// Hands out a process id not in use: the most recently freed one, else the next new one.
    pub fn allocate(&mut self) -> (r: PidHandle)
        requires
            old(self).wf(),
            old(self).spec_current() < usize::MAX,
        ensures
            final(self).wf(),
            !old(self).in_use(r.0 as int),
            final(self).in_use(r.0 as int),
            forall|p: int| p != r.0 ==> #[trigger] final(self).in_use(p) == old(self).in_use(p),
            old(self).spec_recycled().len() == 0 ==> r.0 == old(self).spec_current(),
            final(self).spec_current() <= old(self).spec_current() + 1,
            r.0 < final(self).spec_current(),
            old(self).spec_recycled().len() > 0 ==> r.0 == old(self).spec_recycled().last(),
    {
        let ghost rec = self.recycled@;
        if let Some(pid) = self.recycled.pop() {
            proof {
                assert(rec[rec.len() - 1] == pid);
                assert forall|i: int| 0 <= i < self.recycled@.len() implies #[trigger] self.recycled@[i] < self.current by {
                    assert(rec[i] == self.recycled@[i]);
                }
                assert forall|i: int, j: int| 0 <= i < j < self.recycled@.len() implies self.recycled@[i] != self.recycled@[j] by {
                    assert(rec[i] != rec[j]);
                }
                assert forall|i: int| 0 <= i < self.recycled@.len() implies #[trigger] self.recycled@[i] != pid by {
                    assert(rec[i] == self.recycled@[i]);
                    assert(rec[i] != rec[rec.len() - 1]);
                }
                assert(rec.contains(pid));
                assert forall|p: int| p != pid implies #[trigger] self.in_use(p) == old(self).in_use(p) by {
                    if 0 <= p <= usize::MAX && rec.contains(p as usize) {
                        let i = choose|i: int| 0 <= i < rec.len() && rec[i] == p as usize;
                        assert(i != rec.len() - 1);
                        assert(self.recycled@[i] == p as usize);
                    }
                    if 0 <= p <= usize::MAX && self.recycled@.contains(p as usize) {
                        let i = choose|i: int| 0 <= i < self.recycled@.len() && self.recycled@[i] == p as usize;
                        assert(rec[i] == p as usize);
                    }
                }
            }
            PidHandle(pid)
        } else {
            self.current += 1;
            proof {
                assert(rec.len() == 0);
                assert(self.recycled@.len() == 0);
                assert(!self.recycled@.contains((self.current - 1) as usize));
            }
            PidHandle(self.current - 1)
        }
    }

    /// Takes back `pid`, which must be in use.
    pub fn dealloc(&mut self, pid: usize)
        requires
            old(self).wf(),
            old(self).in_use(pid as int),
        ensures
            final(self).wf(),
            !final(self).in_use(pid as int),
            forall|p: int| p != pid ==> #[trigger] final(self).in_use(p) == old(self).in_use(p),
            final(self).spec_recycled() == old(self).spec_recycled().push(pid),
            final(self).spec_current() == old(self).spec_current(),
    {
        let ghost rec = self.recycled@;
        self.recycled.push(pid);
        proof {
            assert(self.recycled@[rec.len() as int] == pid);
            assert forall|i: int| 0 <= i < self.recycled@.len() implies #[trigger] self.recycled@[i] < self.current by {
                if i < rec.len() {
                    assert(self.recycled@[i] == rec[i]);
                }
            }
            assert forall|i: int, j: int| 0 <= i < j < self.recycled@.len() implies self.recycled@[i] != self.recycled@[j] by {
                if j < rec.len() {
                    assert(rec[i] != rec[j]);
                } else {
                    assert(self.recycled@[i] == rec[i]);
                    assert(rec.contains(rec[i]));
                }
            }
            assert(self.recycled@.contains(pid));
            assert forall|p: int| p != pid implies #[trigger] self.in_use(p) == old(self).in_use(p) by {
                if 0 <= p <= usize::MAX && rec.contains(p as usize) {
                    let i = choose|i: int| 0 <= i < rec.len() && rec[i] == p as usize;
                    assert(self.recycled@[i] == p as usize);
                }
                if 0 <= p <= usize::MAX && self.recycled@.contains(p as usize) {
                    let i = choose|i: int| 0 <= i < self.recycled@.len() && self.recycled@[i] == p as usize;
                    assert(i < rec.len());
                    assert(rec[i] == p as usize);
                }
            }
        }
    }
}

/// Bottom and top of the kernel stack of task `app_id` in the kernel's address space: stacks
/// sit below the trampoline, each followed by an unmapped guard page.
pub fn kernel_stack_position(app_id: usize) -> (r: (usize, usize))
    requires
        app_id * (KERNEL_STACK_SIZE + PAGE_SIZE) + KERNEL_STACK_SIZE <= TRAMPOLINE,
    ensures
        r.1 == TRAMPOLINE - app_id * (KERNEL_STACK_SIZE + PAGE_SIZE),
        r.0 == r.1 - KERNEL_STACK_SIZE,
{
    let top = TRAMPOLINE - app_id * (KERNEL_STACK_SIZE + PAGE_SIZE);
    let bottom = top - KERNEL_STACK_SIZE;
    (bottom, top)
}

/// The ready queue: tasks run in the order they became ready.
pub struct TaskManager<T> {
    ready_queue: Vec<T>,
}

impl<T> TaskManager<T> {
    /// The ready tasks, first to run first.
    pub closed spec fn queue(&self) -> Seq<T> {
        self.ready_queue@
    }

    /// An empty ready queue.
    pub fn new() -> (r: Self)
        ensures
            r.queue() == Seq::<T>::empty(),
    {
        TaskManager { ready_queue: Vec::new() }
    }

    /// Puts `task` at the tail of the queue.
    pub fn add(&mut self, task: T)
        ensures
            final(self).queue() == old(self).queue().push(task),
    {
        self.ready_queue.push(task);
    }

    /// Takes the task at the head of the queue.
    pub fn fetch(&mut self) -> (r: Option<T>)
        ensures
            old(self).queue().len() == 0 ==> r is None && final(self).queue() == old(self).queue(),
            old(self).queue().len() > 0 ==> r == Some(old(self).queue()[0]) && final(self).queue() == old(self).queue().drop_first(),
    {
        if self.ready_queue.len() == 0 {
            None
        } else {
            let t = self.ready_queue.remove(0);
            proof { assert(self.ready_queue@ =~= old(self).ready_queue@.drop_first()); }
            Some(t)
        }
    }

    /// Number of ready tasks.
    pub fn len(&self) -> (r: usize)
        ensures
            r == self.queue().len(),
    {
        self.ready_queue.len()
    }
}

/// The queue after `k` rounds of taking the head task, running it for one quantum and
/// putting it back at the tail.
pub open spec fn rounds<T>(q: Seq<T>, k: nat) -> Seq<T>
    decreases k,
{
    if k == 0 || q.len() == 0 {
        q
    } else {
        let p = rounds(q, (k - 1) as nat);
        p.drop_first().push(p[0])
    }
}

/// With `n` ready tasks and none blocking, round `k < n` runs task `k` of the queue: each task
/// gets one quantum in every `n` quanta, in queue order, and after `n` rounds the queue is
/// as it was.
pub proof fn lemma_round_robin<T>(q: Seq<T>, k: nat)
    requires
        k <= q.len(),
    ensures
        rounds(q, k) == q.subrange(k as int, q.len() as int) + q.subrange(0, k as int),
        k < q.len() ==> rounds(q, k)[0] == q[k as int],
        k == q.len() ==> rounds(q, k) == q,
    decreases k,
{
    if k == 0 || q.len() == 0 {
        assert(q.subrange(0, q.len() as int) + q.subrange(0, 0) =~= q);
        if q.len() == 0 {
            assert(q.subrange(k as int, q.len() as int) + q.subrange(0, k as int) =~= q);
        }
    } else {
        lemma_round_robin(q, (k - 1) as nat);
        let p = rounds(q, (k - 1) as nat);
        assert(p[0] == q[k - 1]);
        assert(p.drop_first().push(p[0]) =~= q.subrange(k as int, q.len() as int) + q.subrange(0, k as int));
    }
    if k == q.len() {
        assert(q.subrange(k as int, q.len() as int) + q.subrange(0, k as int) =~= q);
    }
}

/// The task a processor runs, if any.
pub struct Processor<T> {
    current: Option<T>,
}

impl<T> Processor<T> {
    pub closed spec fn spec_current(&self) -> Option<T> {
        self.current
    }

    /// A processor that runs nothing.
    pub fn new() -> (r: Self)
        ensures
            r.spec_current() is None,
    {
        Processor { current: None }
    }

    /// Takes the running task off the processor.
    pub fn take_current(&mut self) -> (r: Option<T>)
        ensures
            r == old(self).spec_current(),
            final(self).spec_current() is None,
    {
        let mut c = None;
        std::mem::swap(&mut c, &mut self.current);
        c
    }

    /// The running task.
    pub fn current(&self) -> (r: Option<&T>)
        ensures
            r == match self.spec_current() {
                Some(t) => Some(&t),
                None => None,
            },
    {
        self.current.as_ref()
    }

    /// Makes `task` the running task.
    pub fn set_current(&mut self, task: T)
        ensures
            final(self).spec_current() == Some(task),
    {
        self.current = Some(task);
    }
}

/// Milliseconds since boot for a clock that has counted `ticks`.
pub fn get_time_ms(ticks: usize) -> (r: usize)
    ensures
        r == ticks / (CLOCK_FREQ / 1000),
{
    ticks / (CLOCK_FREQ / 1000)
}

/// Lowest free slot of a descriptor table, the table growing by one slot when none is free.
pub fn alloc_fd<F>(fd_table: &mut Vec<Option<F>>) -> (r: usize)
    requires
        old(fd_table)@.len() < usize::MAX,
    ensures
        r < final(fd_table)@.len(),
        final(fd_table)@[r as int] is None,
        forall|j: int| 0 <= j < r && j < old(fd_table)@.len() ==> #[trigger] old(fd_table)@[j] is Some,
        r < old(fd_table)@.len() ==> final(fd_table)@ == old(fd_table)@,
        r == old(fd_table)@.len() ==> final(fd_table)@ == old(fd_table)@.push(None),
{
    let mut fd: usize = 0;
    while fd < fd_table.len()
        invariant
            fd <= fd_table@.len(),
            fd_table@ == old(fd_table)@,
            forall|j: int| 0 <= j < fd ==> #[trigger] fd_table@[j] is Some,
        decreases fd_table@.len() - fd,
    {
        if fd_table[fd].is_none() {
            return fd;
        }
        fd += 1;
    }
    fd_table.push(None);
    fd_table.len() - 1
}

} // verus!

verus! {

/// Process id of the initial process, which adopts the children of exiting processes.
pub const INIT_PID: usize = 0;

/// What the kernel keeps of a process for its lifecycle.
#[derive(PartialEq, Eq, Structural, Clone, Copy, Debug)]
pub struct Task {
    pub pid: usize,
    pub parent: Option<usize>,
    pub status: TaskStatus,
    pub exit_code: i32,
}

/// Whether `t` is one of the children that `waitpid(pid)` of `parent` waits for.
pub open spec fn waits_for(t: Task, parent: usize, pid: isize) -> bool {
    t.parent == Some(parent) && (pid == -1 || (pid >= 0 && t.pid == pid))
}

/// Whether `tasks` hold a process with id `p` that has not exited.
pub open spec fn live_in(tasks: Seq<Task>, p: usize) -> bool {
    exists|j: int| 0 <= j < tasks.len() && #[trigger] tasks[j].pid == p && tasks[j].status != TaskStatus::Zombie
}

/// Every parent that `tasks` name is a process that has not exited.
pub open spec fn parents_live(tasks: Seq<Task>) -> bool {
    forall|i: int| #![trigger tasks[i]] 0 <= i < tasks.len() && tasks[i].parent is Some ==> live_in(tasks, tasks[i].parent->Some_0)
}

/// The live processes, oldest first, and the ids they hold.
pub struct ProcessTable {
    tasks: Vec<Task>,
    pids: PidAllocator,
}

impl ProcessTable {
    pub closed spec fn spec_tasks(&self) -> Seq<Task> {
        self.tasks@
    }

    /// Whether a process with id `pid` exists.
    pub open spec fn has_pid(&self, pid: usize) -> bool {
        exists|i: int| 0 <= i < self.spec_tasks().len() && #[trigger] self.spec_tasks()[i].pid == pid
    }

    /// Every process holds its own id, and an id is in use exactly while its process exists.
    pub closed spec fn wf(&self) -> bool {
        &&& self.pids.wf()
        &&& forall|i: int, j: int| 0 <= i < self.tasks@.len() && 0 <= j < self.tasks@.len() && i != j
            ==> #[trigger] self.tasks@[i].pid != #[trigger] self.tasks@[j].pid
        &&& forall|i: int| 0 <= i < self.tasks@.len() ==> self.pids.in_use(#[trigger] self.tasks@[i].pid as int)
        &&& forall|i: int| 0 <= i < self.tasks@.len() ==> #[trigger] self.tasks@[i].pid <= isize::MAX
        &&& parents_live(self.tasks@)
        &&& forall|i: int| 0 <= i < self.tasks@.len() ==> (#[trigger] self.tasks@[i]).parent != Some(self.tasks@[i].pid)
    }

    /// Whether process `p` exists and has not exited.
    pub open spec fn live(&self, p: usize) -> bool {
        live_in(self.spec_tasks(), p)
    }

    /// Every parent that the processes name exists and has not exited.
    pub proof fn lemma_parents_live(&self)
        requires
            self.wf(),
        ensures
            parents_live(self.spec_tasks()),
    {
    }

    /// Every id up to `isize::MAX` has been handed out.
    pub closed spec fn pids_exhausted(&self) -> bool {
        self.pids.spec_current() >= isize::MAX
    }

    /// A table without processes.
    pub fn new() -> (r: Self)
        ensures
            r.wf(),
            !r.pids_exhausted(),
            r.spec_tasks() == Seq::<Task>::empty(),
    {
        ProcessTable { tasks: Vec::new(), pids: PidAllocator::new() }
    }

    /// Creates a ready process with parent `parent`, which must be live, and returns its id,
    /// one no process holds, so that the new process has no children; `None` when ids are
    /// exhausted.
    pub fn spawn(&mut self, parent: Option<usize>) -> (r: Option<usize>)
        requires
            old(self).wf(),
            parent matches Some(p) ==> old(self).live(p),
        ensures
            final(self).wf(),
            match r {
                Some(pid) => {
                    &&& !old(self).has_pid(pid)
                    &&& forall|i: int| 0 <= i < final(self).spec_tasks().len() ==> #[trigger] final(self).spec_tasks()[i].parent != Some(pid)
                    &&& final(self).spec_tasks() == old(self).spec_tasks().push(
                        Task { pid, parent, status: TaskStatus::Ready, exit_code: 0 },
                    )
                },
                None => final(self).spec_tasks() == old(self).spec_tasks(),
            },
            !old(self).pids_exhausted() ==> r is Some,
    {
        if self.pids.exhausted() {
            return None;
        }
        let h = self.pids.allocate();
        let pid = h.0;
        let ghost t0 = self.tasks@;
        self.tasks.push(Task { pid, parent, status: TaskStatus::Ready, exit_code: 0 });
        proof {
            assert forall|i: int| 0 <= i < t0.len() implies #[trigger] t0[i].pid != pid by {
                assert(old(self).pids.in_use(t0[i].pid as int));
            }
            assert(!old(self).has_pid(pid)) by {
                if old(self).has_pid(pid) {
                    let i = choose|i: int| 0 <= i < t0.len() && #[trigger] t0[i].pid == pid;
                }
            }
            assert forall|i: int| 0 <= i < self.tasks@.len() implies self.pids.in_use(#[trigger] self.tasks@[i].pid as int) by {
                if i < t0.len() {
                    assert(self.tasks@[i] == t0[i]);
                    assert(old(self).pids.in_use(t0[i].pid as int));
                }
            }
            assert forall|i: int, j: int| 0 <= i < self.tasks@.len() && 0 <= j < self.tasks@.len() && i != j
                implies #[trigger] self.tasks@[i].pid != #[trigger] self.tasks@[j].pid by {
                if i < t0.len() && j < t0.len() {
                    assert(t0[i].pid != t0[j].pid);
                }
            }
            assert forall|i: int| 0 <= i < self.tasks@.len() implies #[trigger] self.tasks@[i].pid <= isize::MAX by {
                if i < t0.len() {
                    assert(self.tasks@[i] == t0[i]);
                }
            }
            let t1 = self.tasks@;
            assert forall|i: int| 0 <= i < t1.len() implies (#[trigger] t1[i]).parent != Some(t1[i].pid) by {
                if i < t0.len() {
                    assert(t1[i] == t0[i]);
                } else if let Some(p) = parent {
                    if p == pid {
                        let j = choose|j: int| 0 <= j < t0.len() && #[trigger] t0[j].pid == pid && t0[j].status != TaskStatus::Zombie;
                    }
                }
            }
            assert forall|q: usize| live_in(t0, q) implies live_in(t1, q) by {
                let j = choose|j: int| 0 <= j < t0.len() && #[trigger] t0[j].pid == q && t0[j].status != TaskStatus::Zombie;
                assert(t1[j] == t0[j]);
            }
            assert forall|i: int| #![trigger t1[i]] 0 <= i < t1.len() && t1[i].parent is Some implies live_in(t1, t1[i].parent->Some_0) by {
                if i < t0.len() {
                    assert(t1[i] == t0[i]);
                    assert(live_in(t0, t0[i].parent->Some_0));
                }
            }
            assert forall|i: int| 0 <= i < t1.len() implies #[trigger] t1[i].parent != Some(pid) by {
                if i < t0.len() {
                    assert(t1[i] == t0[i]);
                    if t0[i].parent == Some(pid) {
                        assert(live_in(t0, pid));
                        let j = choose|j: int| 0 <= j < t0.len() && #[trigger] t0[j].pid == pid && t0[j].status != TaskStatus::Zombie;
                    }
                } else {
                    if let Some(p) = parent {
                        if p == pid {
                            let j = choose|j: int| 0 <= j < t0.len() && #[trigger] t0[j].pid == pid && t0[j].status != TaskStatus::Zombie;
                        }
                    }
                }
            }
        }
        Some(pid)
    }

    /// `fork` from process `current`: a ready child whose parent is `current`. Returns the
    /// child's id, which the parent sees; the child sees 0.
    pub fn sys_fork(&mut self, current: usize) -> (r: Option<usize>)
        requires
            old(self).wf(),
            old(self).live(current),
        ensures
            final(self).wf(),
            match r {
                Some(pid) => {
                    &&& !old(self).has_pid(pid)
                    &&& forall|i: int| 0 <= i < final(self).spec_tasks().len() ==> #[trigger] final(self).spec_tasks()[i].parent != Some(pid)
                    &&& final(self).spec_tasks() == old(self).spec_tasks().push(
                        Task { pid, parent: Some(current), status: TaskStatus::Ready, exit_code: 0 },
                    )
                },
                None => final(self).spec_tasks() == old(self).spec_tasks(),
            },
            !old(self).pids_exhausted() ==> r is Some,
    {
        self.spawn(Some(current))
    }

    /// `exit` of process `current` with `exit_code`: it becomes a zombie keeping the code, and
    /// its children pass to the initial process, which must be live and is not `current` (the
    /// initial process, if one of them, is left without a parent).
    pub fn sys_exit(&mut self, current: usize, exit_code: i32)
        requires
            old(self).wf(),
            old(self).live(INIT_PID),
            current != INIT_PID,
        ensures
            final(self).wf(),
            final(self).spec_tasks().len() == old(self).spec_tasks().len(),
            forall|i: int| 0 <= i < old(self).spec_tasks().len() ==> #[trigger] final(self).spec_tasks()[i] == {
                let t = old(self).spec_tasks()[i];
                if t.pid == current {
                    Task { status: TaskStatus::Zombie, exit_code, ..t }
                } else if t.parent == Some(current) {
                    Task { parent: if t.pid == INIT_PID { None } else { Some(INIT_PID) }, ..t }
                } else {
                    t
                }
            },
    {
        let mut i: usize = 0;
        while i < self.tasks.len()
            invariant
                i <= self.tasks@.len(),
                self.tasks@.len() == old(self).tasks@.len(),
                self.pids == old(self).pids,
                forall|j: int| 0 <= j < self.tasks@.len() ==> #[trigger] self.tasks@[j].pid == old(self).tasks@[j].pid,
                forall|j: int| i <= j < self.tasks@.len() ==> #[trigger] self.tasks@[j] == old(self).tasks@[j],
                forall|j: int| 0 <= j < i ==> #[trigger] self.tasks@[j] == {
                    let t = old(self).tasks@[j];
                    if t.pid == current {
                        Task { status: TaskStatus::Zombie, exit_code, ..t }
                    } else if t.parent == Some(current) {
                        Task { parent: if t.pid == INIT_PID { None } else { Some(INIT_PID) }, ..t }
                    } else {
                        t
                    }
                },
            decreases self.tasks@.len() - i,
        {
            let t = self.tasks[i];
            if t.pid == current {
                self.tasks.set(i, Task { status: TaskStatus::Zombie, exit_code, ..t });
            } else if t.parent == Some(current) {
                let parent = if t.pid == INIT_PID { None } else { Some(INIT_PID) };
                self.tasks.set(i, Task { parent, ..t });
            }
            i += 1;
        }
        proof {
            assert forall|a: int, b: int| 0 <= a < self.tasks@.len() && 0 <= b < self.tasks@.len() && a != b
                implies #[trigger] self.tasks@[a].pid != #[trigger] self.tasks@[b].pid by {
                assert(old(self).tasks@[a].pid != old(self).tasks@[b].pid);
            }
            assert forall|a: int| 0 <= a < self.tasks@.len() implies self.pids.in_use(#[trigger] self.tasks@[a].pid as int) by {
                assert(old(self).pids.in_use(old(self).tasks@[a].pid as int));
            }
            assert forall|a: int| 0 <= a < self.tasks@.len() implies #[trigger] self.tasks@[a].pid <= isize::MAX by {
                assert(old(self).tasks@[a].pid <= isize::MAX);
            }
            let t0 = old(self).tasks@;
            let t1 = self.tasks@;
            assert forall|q: usize| q != current && live_in(t0, q) implies live_in(t1, q) by {
                let j = choose|j: int| 0 <= j < t0.len() && #[trigger] t0[j].pid == q && t0[j].status != TaskStatus::Zombie;
                assert(t1[j].pid == q && t1[j].status == t0[j].status);
            }
            assert(live_in(t1, INIT_PID));
            assert forall|i: int| 0 <= i < t1.len() implies (#[trigger] t1[i]).parent != Some(t1[i].pid) by {
                assert(t0[i].parent != Some(t0[i].pid));
            }
            assert forall|i: int| #![trigger t1[i]] 0 <= i < t1.len() && t1[i].parent is Some implies live_in(t1, t1[i].parent->Some_0) by {
                assert(t0[i].parent != Some(t0[i].pid));
                if t0[i].parent == Some(current) && t0[i].pid != current {
                } else if t0[i].parent is Some {
                    assert(live_in(t0, t0[i].parent->Some_0));
                    if t0[i].parent == Some(current) {
                        assert(t1[i].parent == Some(current));
                    }
                }
            }
        }
    }

    /// `waitpid` of process `current`: -1 when no child matches `pid` (-1 for any); -2 when
    /// some match but none has exited; otherwise the first matching exited child is removed,
    /// its id freed, and its id and exit code returned.
    pub fn sys_waitpid(&mut self, current: usize, pid: isize) -> (r: (isize, Option<i32>))
        requires
            old(self).wf(),
        ensures
            final(self).wf(),
            !(exists|i: int| 0 <= i < old(self).spec_tasks().len() && waits_for(#[trigger] old(self).spec_tasks()[i], current, pid))
                ==> r == (-1isize, None::<i32>) && final(self).spec_tasks() == old(self).spec_tasks(),
            (exists|i: int| 0 <= i < old(self).spec_tasks().len() && waits_for(#[trigger] old(self).spec_tasks()[i], current, pid))
                && !(exists|i: int| 0 <= i < old(self).spec_tasks().len() && waits_for(#[trigger] old(self).spec_tasks()[i], current, pid)
                    && old(self).spec_tasks()[i].status == TaskStatus::Zombie)
                ==> r == (-2isize, None::<i32>) && final(self).spec_tasks() == old(self).spec_tasks(),
            r.0 >= 0 ==> exists|i: int| {
                &&& 0 <= i < old(self).spec_tasks().len()
                &&& waits_for(#[trigger] old(self).spec_tasks()[i], current, pid)
                &&& old(self).spec_tasks()[i].status == TaskStatus::Zombie
                &&& forall|j: int| 0 <= j < i ==> !(waits_for(#[trigger] old(self).spec_tasks()[j], current, pid)
                    && old(self).spec_tasks()[j].status == TaskStatus::Zombie)
                &&& r == (old(self).spec_tasks()[i].pid as isize, Some(old(self).spec_tasks()[i].exit_code))
                &&& final(self).spec_tasks() == old(self).spec_tasks().remove(i)
                &&& !final(self).has_pid(old(self).spec_tasks()[i].pid)
            },
            r.0 == -1 || r.0 == -2 || r.0 >= 0,
            (exists|i: int| 0 <= i < old(self).spec_tasks().len() && waits_for(#[trigger] old(self).spec_tasks()[i], current, pid)
                && old(self).spec_tasks()[i].status == TaskStatus::Zombie) ==> r.0 >= 0,
    {
        let mut any = false;
        let mut i: usize = 0;
        while i < self.tasks.len()
            invariant
                i <= self.tasks@.len(),
                *self == *old(self),
                any == exists|j: int| 0 <= j < i && waits_for(#[trigger] self.tasks@[j], current, pid),
            decreases self.tasks@.len() - i,
        {
            let t = self.tasks[i];
            if t.parent == Some(current) && (pid == -1 || (pid >= 0 && t.pid == pid as usize)) {
                any = true;
            }
            i += 1;
        }
        if !any {
            proof {
                assert forall|j: int| 0 <= j < old(self).spec_tasks().len() implies !waits_for(#[trigger] old(self).spec_tasks()[j], current, pid) by {
                    assert(old(self).spec_tasks()[j] == self.tasks@[j]);
                }
            }
            return (-1, None);
        }
        let mut k: usize = 0;
        while k < self.tasks.len()
            invariant
                k <= self.tasks@.len(),
                *self == *old(self),
                self.wf(),
                exists|j: int| 0 <= j < self.tasks@.len() && waits_for(#[trigger] self.tasks@[j], current, pid),
                forall|j: int| 0 <= j < k ==> !(waits_for(#[trigger] self.tasks@[j], current, pid) && self.tasks@[j].status == TaskStatus::Zombie),
            decreases self.tasks@.len() - k,
        {
            let t = self.tasks[k];
            if t.status == TaskStatus::Zombie && t.parent == Some(current) && (pid == -1 || (pid >= 0 && t.pid == pid as usize)) {
                let ghost t0 = self.tasks@;
                let child = self.tasks.remove(k);
                proof {
                    assert(old(self).pids.in_use(child.pid as int));
                    assert(child.pid <= isize::MAX);
                }
                self.pids.dealloc(child.pid);
                proof {
                    assert forall|a: int| 0 <= a < self.tasks@.len() implies #[trigger] self.tasks@[a] == t0[if a < k { a } else { a + 1 }] by {
                    }
                    assert forall|a: int, b: int| 0 <= a < self.tasks@.len() && 0 <= b < self.tasks@.len() && a != b
                        implies #[trigger] self.tasks@[a].pid != #[trigger] self.tasks@[b].pid by {
                        let a1 = if a < k { a } else { a + 1 };
                        let b1 = if b < k { b } else { b + 1 };
                        assert(t0[a1].pid != t0[b1].pid);
                    }
                    assert forall|a: int| 0 <= a < self.tasks@.len() implies self.pids.in_use(#[trigger] self.tasks@[a].pid as int) by {
                        let a1 = if a < k { a } else { a + 1 };
                        assert(t0[a1].pid != t0[k as int].pid);
                        assert(old(self).pids.in_use(t0[a1].pid as int));
                    }
                    assert forall|a: int| 0 <= a < self.tasks@.len() implies #[trigger] self.tasks@[a].pid <= isize::MAX by {
                        let a1 = if a < k { a } else { a + 1 };
                        assert(t0[a1].pid <= isize::MAX);
                    }
                    assert(!self.has_pid(child.pid)) by {
                        if self.has_pid(child.pid) {
                            let a = choose|a: int| 0 <= a < self.tasks@.len() && #[trigger] self.tasks@[a].pid == child.pid;
                            let a1 = if a < k { a } else { a + 1 };
                            assert(t0[a1].pid != t0[k as int].pid);
                        }
                    }
                    assert(waits_for(t0[k as int], current, pid));
                    assert(self.tasks@ == t0.remove(k as int));
                    let t1 = self.tasks@;
                    assert forall|i: int| 0 <= i < t1.len() implies (#[trigger] t1[i]).parent != Some(t1[i].pid) by {
                        let i1 = if i < k { i } else { i + 1 };
                        assert(t1[i] == t0[i1]);
                    }
                    assert forall|i: int| #![trigger t1[i]] 0 <= i < t1.len() && t1[i].parent is Some implies live_in(t1, t1[i].parent->Some_0) by {
                        let i1 = if i < k { i } else { i + 1 };
                        assert(t1[i] == t0[i1]);
                        let q = t0[i1].parent->Some_0;
                        assert(live_in(t0, q));
                        let j = choose|j: int| 0 <= j < t0.len() && #[trigger] t0[j].pid == q && t0[j].status != TaskStatus::Zombie;
                        assert(j != k);
                        let j1 = if j < k { j } else { j - 1 };
                        assert(t1[j1] == t0[j]);
                    }
                    assert(t0 == old(self).spec_tasks());
                    let j0 = choose|j: int| 0 <= j < t0.len() && waits_for(#[trigger] t0[j], current, pid);
                    assert(waits_for(old(self).spec_tasks()[j0], current, pid));
                    assert forall|j: int| 0 <= j < k implies !(waits_for(#[trigger] old(self).spec_tasks()[j], current, pid)
                        && old(self).spec_tasks()[j].status == TaskStatus::Zombie) by {
                        assert(old(self).spec_tasks()[j] == t0[j]);
                    }
                    assert(waits_for(old(self).spec_tasks()[k as int], current, pid));
                }
                return (child.pid as isize, Some(child.exit_code));
            }
            k += 1;
        }
        proof {
            let j0 = choose|j: int| 0 <= j < self.tasks@.len() && waits_for(#[trigger] self.tasks@[j], current, pid);
            assert(waits_for(old(self).spec_tasks()[j0], current, pid));
            assert forall|j: int| 0 <= j < old(self).spec_tasks().len() implies !(waits_for(#[trigger] old(self).spec_tasks()[j], current, pid)
                && old(self).spec_tasks()[j].status == TaskStatus::Zombie) by {
                assert(old(self).spec_tasks()[j] == self.tasks@[j]);
            }
        }
        (-2, None)
    }

    /// `getpid` of process `current`.
    pub fn sys_getpid(&self, current: usize) -> (r: isize)
        requires
            self.wf(),
            self.has_pid(current),
        ensures
            r == current,
    {
        proof {
            let i = choose|i: int| 0 <= i < self.tasks@.len() && #[trigger] self.tasks@[i].pid == current;
        }
        current as isize
    }

    /// The processes, oldest first.
    pub fn tasks(&self) -> (r: &Vec<Task>)
        ensures
            r@ == self.spec_tasks(),
    {
        &self.tasks
    }
}

/// `tasks` with every process whose id is `pid` given status `status`.
pub open spec fn with_status(tasks: Seq<Task>, pid: usize, status: TaskStatus) -> Seq<Task> {
    Seq::new(tasks.len(), |i: int| if tasks[i].pid == pid { Task { status, ..tasks[i] } } else { tasks[i] })
}

impl ProcessTable {
    /// Marks process `pid` ready or running; nothing changes when no process has that id.
    pub fn set_status(&mut self, pid: usize, status: TaskStatus)
        requires
            old(self).wf(),
            status != TaskStatus::Zombie,
        ensures
            final(self).wf(),
            final(self).pids_exhausted() == old(self).pids_exhausted(),
            final(self).spec_tasks() == with_status(old(self).spec_tasks(), pid, status),
    {
        let ghost t0 = self.tasks@;
        let mut i: usize = 0;
        while i < self.tasks.len()
            invariant
                i <= self.tasks@.len(),
                self.tasks@.len() == t0.len(),
                t0 == old(self).tasks@,
                self.pids == old(self).pids,
                forall|j: int| i <= j < self.tasks@.len() ==> #[trigger] self.tasks@[j] == t0[j],
                forall|j: int| 0 <= j < i ==> #[trigger] self.tasks@[j] == with_status(t0, pid, status)[j],
            decreases self.tasks@.len() - i,
        {
            let t = self.tasks[i];
            if t.pid == pid {
                self.tasks.set(i, Task { status, ..t });
            }
            i += 1;
        }
        proof {
            let t1 = self.tasks@;
            assert(t1 =~= with_status(t0, pid, status));
            assert forall|a: int, b: int| 0 <= a < t1.len() && 0 <= b < t1.len() && a != b
                implies #[trigger] t1[a].pid != #[trigger] t1[b].pid by {
                assert(t0[a].pid != t0[b].pid);
            }
            assert forall|a: int| 0 <= a < t1.len() implies self.pids.in_use(#[trigger] t1[a].pid as int) by {
                assert(old(self).pids.in_use(t0[a].pid as int));
            }
            assert forall|a: int| 0 <= a < t1.len() implies #[trigger] t1[a].pid <= isize::MAX by {
                assert(t0[a].pid <= isize::MAX);
            }
            assert forall|a: int| 0 <= a < t1.len() implies (#[trigger] t1[a]).parent != Some(t1[a].pid) by {
                assert(t0[a].parent != Some(t0[a].pid));
            }
            assert forall|i: int| #![trigger t1[i]] 0 <= i < t1.len() && t1[i].parent is Some implies live_in(t1, t1[i].parent->Some_0) by {
                let q = t0[i].parent->Some_0;
                assert(live_in(t0, q));
                let j = choose|j: int| 0 <= j < t0.len() && #[trigger] t0[j].pid == q && t0[j].status != TaskStatus::Zombie;
                assert(t1[j].pid == q);
            }
        }
    }
}

/// One step of the idle loop: when no task runs, the head of the ready queue starts running
/// and is marked running. Returns whether a task was started.
pub fn run_next(table: &mut ProcessTable, manager: &mut TaskManager<usize>, processor: &mut Processor<usize>) -> (r: bool)
    requires
        old(table).wf(),
        old(processor).spec_current() is None,
    ensures
        final(table).wf(),
        final(table).pids_exhausted() == old(table).pids_exhausted(),
        r == (old(manager).queue().len() > 0),
        r ==> {
            &&& final(processor).spec_current() == Some(old(manager).queue()[0])
            &&& final(manager).queue() == old(manager).queue().drop_first()
            &&& final(table).spec_tasks() == with_status(old(table).spec_tasks(), old(manager).queue()[0], TaskStatus::Running)
        },
        !r ==> {
            &&& final(processor).spec_current() is None
            &&& final(manager).queue() == old(manager).queue()
            &&& final(table).spec_tasks() == old(table).spec_tasks()
        },
{
    match manager.fetch() {
        Some(task) => {
            table.set_status(task, TaskStatus::Running);
            processor.set_current(task);
            true
        },
        None => false,
    }
}

/// The running task gives up the processor, is marked ready, and goes to the tail of the
/// ready queue.
pub fn suspend_current(table: &mut ProcessTable, manager: &mut TaskManager<usize>, processor: &mut Processor<usize>)
    requires
        old(table).wf(),
    ensures
        final(table).wf(),
        final(table).pids_exhausted() == old(table).pids_exhausted(),
        final(processor).spec_current() is None,
        match old(processor).spec_current() {
            Some(t) => {
                &&& final(manager).queue() == old(manager).queue().push(t)
                &&& final(table).spec_tasks() == with_status(old(table).spec_tasks(), t, TaskStatus::Ready)
            },
            None => {
                &&& final(manager).queue() == old(manager).queue()
                &&& final(table).spec_tasks() == old(table).spec_tasks()
            },
        },
{
    if let Some(task) = processor.take_current() {
        table.set_status(task, TaskStatus::Ready);
        manager.add(task);
    }
}

/// `yield`: the running task is marked ready and goes to the tail of the ready queue, and
/// the head is marked running and runs next. Returns 0, what the caller sees when it runs
/// again.
pub fn sys_yield(table: &mut ProcessTable, manager: &mut TaskManager<usize>, processor: &mut Processor<usize>) -> (r: isize)
    requires
        old(table).wf(),
    ensures
        r == 0,
        final(table).wf(),
        ({
            let (q, ts) = match old(processor).spec_current() {
                Some(t) => (old(manager).queue().push(t), with_status(old(table).spec_tasks(), t, TaskStatus::Ready)),
                None => (old(manager).queue(), old(table).spec_tasks()),
            };
            &&& q.len() > 0 ==> final(processor).spec_current() == Some(q[0]) && final(manager).queue() == q.drop_first()
                && final(table).spec_tasks() == with_status(ts, q[0], TaskStatus::Running)
            &&& q.len() == 0 ==> final(processor).spec_current() is None && final(manager).queue() == q
                && final(table).spec_tasks() == ts
        }),
{
    suspend_current(table, manager, processor);
    run_next(table, manager, processor);
    0
}

/// Page of the trap frame in a user address space, one below the trampoline.
pub const TRAP_CONTEXT_VPN: u64 = 0x7ff_fffe;

/// What `__switch` saves of a task in the kernel: return address, stack pointer, and the
/// twelve callee-saved registers.
pub struct TaskContext {
    pub ra: usize,
    pub sp: usize,
    pub s: Vec<usize>,
}

impl TaskContext {
    /// A context whose first switch lands in `trap_return` on a kernel stack whose top is
    /// `kstack_ptr`.
    pub fn goto_trap_return(kstack_ptr: usize, trap_return: usize) -> (r: Self)
        ensures
            r.ra == trap_return,
            r.sp == kstack_ptr,
            r.s@ == Seq::new(12, |i: int| 0usize),
    {
        let mut s: Vec<usize> = Vec::new();
        let mut i: usize = 0;
        while i < 12
            invariant
                i <= 12,
                s@ == Seq::new(i as nat, |j: int| 0usize),
            decreases 12 - i,
        {
            s.push(0);
            i += 1;
        }
        TaskContext { ra: trap_return, sp: kstack_ptr, s }
    }
}

/// What a descriptor of a new task refers to.
#[derive(PartialEq, Eq, Structural, Clone, Copy, Debug)]
pub enum StdFile {
    Stdin,
    Stdout,
}

/// The descriptor table a task starts with: 0 reads standard input, 1 and 2 write standard
/// output.
pub fn initial_fd_table() -> (r: Vec<Option<StdFile>>)
    ensures
        r@ == seq![Some(StdFile::Stdin), Some(StdFile::Stdout), Some(StdFile::Stdout)],
{
    let mut v: Vec<Option<StdFile>> = Vec::new();
    v.push(Some(StdFile::Stdin));
    v.push(Some(StdFile::Stdout));
    v.push(Some(StdFile::Stdout));
    assert(v@ =~= seq![Some(StdFile::Stdin), Some(StdFile::Stdout), Some(StdFile::Stdout)]);
    v
}

/// The state a new task starts from.
pub struct TaskSetup {
    /// Frame that backs the trap-frame page of its address space.
    pub trap_cx_ppn: u64,
    /// The trap frame to write into that page.
    pub trap_cx: TrapContext,
    /// Where its first switch goes.
    pub task_cx: TaskContext,
    pub status: TaskStatus,
    pub fd_table: Vec<Option<StdFile>>,
    /// Top of its user data: the initial user stack pointer.
    pub base_size: usize,
}

/// Sets up a task in `memory_set`, entering user mode at `entry` with stack `user_sp`: the
/// trap frame lives in the frame that the trap-frame page maps to, the first switch lands in
/// `trap_return` on the kernel stack topped at `kernel_stack_top`, and the descriptor table
/// holds standard input and output. `None` when the trap-frame page is not mapped.
pub fn new_task_setup(
    memory_set: &MemorySet,
    fa: &StackFrameAllocator,
    entry: usize,
    user_sp: usize,
    sstatus: usize,
    kernel_satp: usize,
    kernel_stack_top: usize,
    trap_handler: usize,
    trap_return: usize,
) -> (r: Option<TaskSetup>)
    requires
        memory_set.table().wf(fa),
    ensures
        match r {
            Some(t) => {
                &&& memory_set.table().walk(TRAP_CONTEXT_VPN as int) matches Some(e) && e.spec_ppn() == t.trap_cx_ppn
                &&& t.trap_cx.sepc == entry
                &&& t.trap_cx.x@.len() == 32
                &&& t.trap_cx.x@[2] == user_sp
                &&& t.trap_cx.kernel_satp == kernel_satp
                &&& t.trap_cx.kernel_sp == kernel_stack_top
                &&& t.trap_cx.trap_handler == trap_handler
                &&& t.trap_cx.sstatus == sstatus & !crate::trap::SSTATUS_SPP
                &&& t.task_cx.ra == trap_return
                &&& t.task_cx.sp == kernel_stack_top
                &&& t.status == TaskStatus::Ready
                &&& t.fd_table@ == seq![Some(StdFile::Stdin), Some(StdFile::Stdout), Some(StdFile::Stdout)]
                &&& t.base_size == user_sp
            },
            None => memory_set.table().walk(TRAP_CONTEXT_VPN as int) is None,
        },
{
    let pte = match memory_set.translate_in(fa, TRAP_CONTEXT_VPN) {
        Some(e) => e,
        None => { return None; },
    };
    Some(TaskSetup {
        trap_cx_ppn: pte.ppn(),
        trap_cx: TrapContext::app_init_context(entry, user_sp, sstatus, kernel_satp, kernel_stack_top, trap_handler),
        task_cx: TaskContext::goto_trap_return(kernel_stack_top, trap_return),
        status: TaskStatus::Ready,
        fd_table: initial_fd_table(),
        base_size: user_sp,
    })
}

/// A copy of a descriptor table.
pub fn copy_fd_table(fd_table: &Vec<Option<StdFile>>) -> (r: Vec<Option<StdFile>>)
    ensures
        r@ == fd_table@,
{
    let mut v: Vec<Option<StdFile>> = Vec::new();
    let mut i: usize = 0;
    while i < fd_table.len()
        invariant
            i <= fd_table@.len(),
            v@ == fd_table@.subrange(0, i as int),
        decreases fd_table@.len() - i,
    {
        let f = match fd_table[i] {
            Some(StdFile::Stdin) => Some(StdFile::Stdin),
            Some(StdFile::Stdout) => Some(StdFile::Stdout),
            None => None,
        };
        v.push(f);
        i += 1;
    }
    assert(v@ =~= fd_table@);
    v
}

/// Sets up a forked child of the task set up as `parent`, in the copied address space
/// `memory_set`: the parent's descriptor table, user data size and trap frame, except that
/// the trap frame's kernel stack is the child's own, topped at `kernel_stack_top`; the
/// first switch lands in `trap_return`. `None` when the trap-frame page is not mapped.
pub fn fork_task_setup(
    parent: &TaskSetup,
    memory_set: &MemorySet,
    fa: &StackFrameAllocator,
    kernel_stack_top: usize,
    trap_return: usize,
) -> (r: Option<TaskSetup>)
    requires
        memory_set.table().wf(fa),
    ensures
        match r {
            Some(t) => {
                &&& memory_set.table().walk(TRAP_CONTEXT_VPN as int) matches Some(e) && e.spec_ppn() == t.trap_cx_ppn
                &&& t.fd_table@ == parent.fd_table@
                &&& t.base_size == parent.base_size
                &&& t.trap_cx.x@ == parent.trap_cx.x@
                &&& t.trap_cx.sstatus == parent.trap_cx.sstatus
                &&& t.trap_cx.sepc == parent.trap_cx.sepc
                &&& t.trap_cx.kernel_satp == parent.trap_cx.kernel_satp
                &&& t.trap_cx.trap_handler == parent.trap_cx.trap_handler
                &&& t.trap_cx.kernel_sp == kernel_stack_top
                &&& t.task_cx.ra == trap_return
                &&& t.task_cx.sp == kernel_stack_top
                &&& t.status == TaskStatus::Ready
            },
            None => memory_set.table().walk(TRAP_CONTEXT_VPN as int) is None,
        },
{
    let pte = match memory_set.translate_in(fa, TRAP_CONTEXT_VPN) {
        Some(e) => e,
        None => { return None; },
    };
    let mut trap_cx = parent.trap_cx.copy_of();
    trap_cx.kernel_sp = kernel_stack_top;
    Some(TaskSetup {
        trap_cx_ppn: pte.ppn(),
        trap_cx,
        task_cx: TaskContext::goto_trap_return(kernel_stack_top, trap_return),
        status: TaskStatus::Ready,
        fd_table: copy_fd_table(&parent.fd_table),
        base_size: parent.base_size,
    })
}

/// `fork` of the live process `current`, set up as `parent`, whose address space has been
/// copied into `memory_set`: a new child process, set up as `fork_task_setup` does and
/// seeing 0 as what `fork` returns (register a0), is put at the tail of the ready queue. The
/// child's id is returned, what the parent sees. `None`, with nothing changed, when ids
/// are exhausted or the trap-frame page is not mapped.
pub fn sys_fork_task(
    table: &mut ProcessTable,
    manager: &mut TaskManager<usize>,
    current: usize,
    parent: &TaskSetup,
    memory_set: &MemorySet,
    fa: &StackFrameAllocator,
    kernel_stack_top: usize,
    trap_return: usize,
) -> (r: Option<(usize, TaskSetup)>)
    requires
        old(table).wf(),
        old(table).live(current),
        memory_set.table().wf(fa),
        parent.trap_cx.x@.len() == 32,
    ensures
        final(table).wf(),
        (!old(table).pids_exhausted() && memory_set.table().walk(TRAP_CONTEXT_VPN as int) is Some) ==> r is Some,
        match r {
            Some((pid, t)) => {
                &&& !old(table).has_pid(pid)
                &&& final(table).spec_tasks() == old(table).spec_tasks().push(
                    Task { pid, parent: Some(current), status: TaskStatus::Ready, exit_code: 0 },
                )
                &&& final(manager).queue() == old(manager).queue().push(pid)
                &&& memory_set.table().walk(TRAP_CONTEXT_VPN as int) matches Some(e) && e.spec_ppn() == t.trap_cx_ppn
                &&& t.fd_table@ == parent.fd_table@
                &&& t.base_size == parent.base_size
                &&& t.trap_cx.x@ == parent.trap_cx.x@.update(10, 0)
                &&& t.trap_cx.sstatus == parent.trap_cx.sstatus
                &&& t.trap_cx.sepc == parent.trap_cx.sepc
                &&& t.trap_cx.kernel_satp == parent.trap_cx.kernel_satp
                &&& t.trap_cx.trap_handler == parent.trap_cx.trap_handler
                &&& t.trap_cx.kernel_sp == kernel_stack_top
                &&& t.task_cx.ra == trap_return
                &&& t.task_cx.sp == kernel_stack_top
                &&& t.status == TaskStatus::Ready
            },
            None => {
                &&& final(table).spec_tasks() == old(table).spec_tasks()
                &&& final(manager).queue() == old(manager).queue()
            },
        },
{
    let mut setup = match fork_task_setup(parent, memory_set, fa, kernel_stack_top, trap_return) {
        Some(t) => t,
        None => { return None; },
    };
    let pid = match table.sys_fork(current) {
        Some(p) => p,
        None => { return None; },
    };
    setup.trap_cx.fork_child(kernel_stack_top);
    manager.add(pid);
    Some((pid, setup))
}

/// Sets up the task `old` after `exec` of a new program in `memory_set`, entering user mode
/// at `entry` with stack `user_sp`: its descriptor table, task context and kernel stack are
/// kept, and the trap frame is a fresh one in the frame that the new space's trap-frame page
/// maps to. `None` when that page is not mapped.
pub fn exec_task_setup(
    old: &TaskSetup,
    memory_set: &MemorySet,
    fa: &StackFrameAllocator,
    entry: usize,
    user_sp: usize,
    sstatus: usize,
    kernel_satp: usize,
    trap_handler: usize,
) -> (r: Option<TaskSetup>)
    requires
        memory_set.table().wf(fa),
    ensures
        match r {
            Some(t) => {
                &&& memory_set.table().walk(TRAP_CONTEXT_VPN as int) matches Some(e) && e.spec_ppn() == t.trap_cx_ppn
                &&& t.trap_cx.sepc == entry
                &&& t.trap_cx.x@.len() == 32
                &&& t.trap_cx.x@[2] == user_sp
                &&& forall|i: int| 0 <= i < 32 && i != 2 ==> #[trigger] t.trap_cx.x@[i] == 0
                &&& t.trap_cx.kernel_satp == kernel_satp
                &&& t.trap_cx.kernel_sp == old.trap_cx.kernel_sp
                &&& t.trap_cx.trap_handler == trap_handler
                &&& t.trap_cx.sstatus == sstatus & !crate::trap::SSTATUS_SPP
                &&& t.task_cx.ra == old.task_cx.ra
                &&& t.task_cx.sp == old.task_cx.sp
                &&& t.task_cx.s@ == old.task_cx.s@
                &&& t.status == old.status
                &&& t.fd_table@ == old.fd_table@
                &&& t.base_size == user_sp
            },
            None => memory_set.table().walk(TRAP_CONTEXT_VPN as int) is None,
        },
{
    let pte = match memory_set.translate_in(fa, TRAP_CONTEXT_VPN) {
        Some(e) => e,
        None => { return None; },
    };
    let mut s: Vec<usize> = Vec::new();
    let mut i: usize = 0;
    while i < old.task_cx.s.len()
        invariant
            i <= old.task_cx.s@.len(),
            s@ == old.task_cx.s@.subrange(0, i as int),
        decreases old.task_cx.s@.len() - i,
    {
        s.push(old.task_cx.s[i]);
        i += 1;
    }
    assert(s@ =~= old.task_cx.s@);
    Some(TaskSetup {
        trap_cx_ppn: pte.ppn(),
        trap_cx: TrapContext::app_init_context(entry, user_sp, sstatus, kernel_satp, old.trap_cx.kernel_sp, trap_handler),
        task_cx: TaskContext { ra: old.task_cx.ra, sp: old.task_cx.sp, s },
        status: old.status,
        fd_table: copy_fd_table(&old.fd_table),
        base_size: user_sp,
    })
}

} // verus!
