use vstd::prelude::*;

verus! {

/// Why the processor left user mode.
#[derive(PartialEq, Eq, Structural, Clone, Copy, Debug)]
pub enum TrapCause {
    UserEnvCall,
    StoreFault,
    StorePageFault,
    InstructionFault,
    InstructionPageFault,
    LoadFault,
    LoadPageFault,
    IllegalInstruction,
    SupervisorTimer,
    Other,
}

/// What the kernel does about a trap.
#[derive(PartialEq, Eq, Structural, Clone, Copy, Debug)]
pub enum TrapAction {
    /// Step past the `ecall` and serve the system call.
    Syscall,
    /// End the task with this exit code and run the next one.
    Kill(i32),
    /// Re-arm the timer, put the task back in the ready queue and run the next one.
    Preempt,
    /// Halt: the kernel cannot go on.
    Panic,
}

/// Exit code of a task killed by a memory fault.
pub const EXIT_MEMORY_FAULT: i32 = -2;

/// Exit code of a task killed by an illegal instruction.
pub const EXIT_ILLEGAL_INSTRUCTION: i32 = -3;

/// Whether the cause is an access fault or a page fault.
pub open spec fn is_memory_fault(cause: TrapCause) -> bool {
    ||| cause == TrapCause::StoreFault
    ||| cause == TrapCause::StorePageFault
    ||| cause == TrapCause::InstructionFault
    ||| cause == TrapCause::InstructionPageFault
    ||| cause == TrapCause::LoadFault
    ||| cause == TrapCause::LoadPageFault
}

/// Decides what to do about a trap from user mode.
pub fn trap_action(cause: TrapCause) -> (r: TrapAction)
    ensures
        cause == TrapCause::UserEnvCall ==> r == TrapAction::Syscall,
        is_memory_fault(cause) ==> r == TrapAction::Kill(EXIT_MEMORY_FAULT),
        cause == TrapCause::IllegalInstruction ==> r == TrapAction::Kill(EXIT_ILLEGAL_INSTRUCTION),
        cause == TrapCause::SupervisorTimer ==> r == TrapAction::Preempt,
        cause == TrapCause::Other ==> r == TrapAction::Panic,
{
    match cause {
        TrapCause::UserEnvCall => TrapAction::Syscall,
        TrapCause::StoreFault | TrapCause::StorePageFault | TrapCause::InstructionFault
        | TrapCause::InstructionPageFault | TrapCause::LoadFault | TrapCause::LoadPageFault => {
            TrapAction::Kill(EXIT_MEMORY_FAULT)
        },
        TrapCause::IllegalInstruction => TrapAction::Kill(EXIT_ILLEGAL_INSTRUCTION),
        TrapCause::SupervisorTimer => TrapAction::Preempt,
        TrapCause::Other => TrapAction::Panic,
    }
}

/// The program counter to return to after serving a system call: the instruction after
/// the 4-byte `ecall`.
pub fn syscall_return_pc(sepc: usize) -> (r: usize)
    requires
        sepc + 4 <= usize::MAX,
    ensures
        r == sepc + 4,
{
    sepc + 4
}

/// Timer interrupts per second.
pub const TICKS_PER_SEC: u64 = 100;

/// Clock ticks per second.
pub const CLOCK_FREQ_HZ: u64 = 12500000;

/// The clock value at which the next timer interrupt fires, one time slice after `now`:
/// slices are a hundredth of a second.
pub fn set_next_trigger(now: u64) -> (r: u64)
    requires
        now + CLOCK_FREQ_HZ / TICKS_PER_SEC <= u64::MAX,
    ensures
        r == now + CLOCK_FREQ_HZ / TICKS_PER_SEC,
{
    now + CLOCK_FREQ_HZ / TICKS_PER_SEC
}

/// The system calls the kernel serves.
#[derive(PartialEq, Eq, Structural, Clone, Copy, Debug)]
pub enum Syscall {
    Open,
    Close,
    Read,
    Write,
    Exit,
    Yield,
    GetTime,
    GetPid,
    Fork,
    Exec,
    Waitpid,
}

pub const SYSCALL_OPEN: usize = 56;
pub const SYSCALL_CLOSE: usize = 57;
pub const SYSCALL_READ: usize = 63;
pub const SYSCALL_WRITE: usize = 64;
pub const SYSCALL_EXIT: usize = 93;
pub const SYSCALL_YIELD: usize = 124;
pub const SYSCALL_GET_TIME: usize = 169;
pub const SYSCALL_GETPID: usize = 172;
pub const SYSCALL_FORK: usize = 220;
pub const SYSCALL_EXEC: usize = 221;
pub const SYSCALL_WAITPID: usize = 260;

/// The system call with number `id`; `None` for a number the kernel does not serve.
pub fn syscall_of(id: usize) -> (r: Option<Syscall>)
    ensures
        id == SYSCALL_OPEN <==> r == Some(Syscall::Open),
        id == SYSCALL_CLOSE <==> r == Some(Syscall::Close),
        id == SYSCALL_READ <==> r == Some(Syscall::Read),
        id == SYSCALL_WRITE <==> r == Some(Syscall::Write),
        id == SYSCALL_EXIT <==> r == Some(Syscall::Exit),
        id == SYSCALL_YIELD <==> r == Some(Syscall::Yield),
        id == SYSCALL_GET_TIME <==> r == Some(Syscall::GetTime),
        id == SYSCALL_GETPID <==> r == Some(Syscall::GetPid),
        id == SYSCALL_FORK <==> r == Some(Syscall::Fork),
        id == SYSCALL_EXEC <==> r == Some(Syscall::Exec),
        id == SYSCALL_WAITPID <==> r == Some(Syscall::Waitpid),
{
    if id == SYSCALL_OPEN {
        Some(Syscall::Open)
    } else if id == SYSCALL_CLOSE {
        Some(Syscall::Close)
    } else if id == SYSCALL_READ {
        Some(Syscall::Read)
    } else if id == SYSCALL_WRITE {
        Some(Syscall::Write)
    } else if id == SYSCALL_EXIT {
        Some(Syscall::Exit)
    } else if id == SYSCALL_YIELD {
        Some(Syscall::Yield)
    } else if id == SYSCALL_GET_TIME {
        Some(Syscall::GetTime)
    } else if id == SYSCALL_GETPID {
        Some(Syscall::GetPid)
    } else if id == SYSCALL_FORK {
        Some(Syscall::Fork)
    } else if id == SYSCALL_EXEC {
        Some(Syscall::Exec)
    } else if id == SYSCALL_WAITPID {
        Some(Syscall::Waitpid)
    } else {
        None
    }
}

/// Flags of `open`.
#[derive(PartialEq, Eq, Structural, Clone, Copy, Debug)]
pub struct OpenFlags {
    pub bits: u32,
}

pub const O_RDONLY: u32 = 0;
pub const O_WRONLY: u32 = 1;
pub const O_RDWR: u32 = 2;
pub const O_CREATE: u32 = 512;
pub const O_TRUNC: u32 = 1024;

/// What `open` does with a file of the root directory.
#[derive(PartialEq, Eq, Structural, Clone, Copy, Debug)]
pub enum OpenAction {
    /// Open the existing file as it is.
    Open,
    /// Empty the existing file, then open it.
    TruncateAndOpen,
    /// Create the file, then open it.
    Create,
    /// Fail: the file is absent and may not be created.
    Fail,
}

impl OpenFlags {
    /// Whether every flag of `other` is set.
    pub fn contains(&self, other: u32) -> (r: bool)
        ensures
            r == (self.bits & other == other),
    {
        self.bits & other == other
    }

    /// Whether no flag is set, that is, read-only.
    pub fn is_empty(&self) -> (r: bool)
        ensures
            r == (self.bits == 0),
    {
        self.bits == 0
    }

    /// The access the flags grant, `(readable, writable)`, from the access bits alone:
    /// read-only, write-only, or read-write.
    pub fn read_write(&self) -> (r: (bool, bool))
        ensures
            self.bits & (O_WRONLY | O_RDWR) == 0 ==> r == (true, false),
            self.bits & (O_WRONLY | O_RDWR) != 0 && self.bits & O_WRONLY == O_WRONLY ==> r == (false, true),
            self.bits & (O_WRONLY | O_RDWR) != 0 && self.bits & O_WRONLY != O_WRONLY ==> r == (true, true),
    {
        if self.bits & (O_WRONLY | O_RDWR) == 0 {
            (true, false)
        } else if self.contains(O_WRONLY) {
            (false, true)
        } else {
            (true, true)
        }
    }

    /// What `open` with these flags does, given whether the file exists.
    pub fn open_action(&self, exists: bool) -> (r: OpenAction)
        ensures
            self.bits & O_CREATE == O_CREATE && exists ==> r == OpenAction::TruncateAndOpen,
            self.bits & O_CREATE == O_CREATE && !exists ==> r == OpenAction::Create,
            self.bits & O_CREATE != O_CREATE && exists && self.bits & O_TRUNC == O_TRUNC ==> r == OpenAction::TruncateAndOpen,
            self.bits & O_CREATE != O_CREATE && exists && self.bits & O_TRUNC != O_TRUNC ==> r == OpenAction::Open,
            self.bits & O_CREATE != O_CREATE && !exists ==> r == OpenAction::Fail,
    {
        if self.contains(O_CREATE) {
            if exists {
                OpenAction::TruncateAndOpen
            } else {
                OpenAction::Create
            }
        } else if exists {
            if self.contains(O_TRUNC) {
                OpenAction::TruncateAndOpen
            } else {
                OpenAction::Open
            }
        } else {
            OpenAction::Fail
        }
    }
}

/// The previous-privilege bit of `sstatus`: set for supervisor, clear for user.
pub const SSTATUS_SPP: usize = 256;

/// What a trap saves of a task and what the trampoline needs to enter the kernel.
pub struct TrapContext {
    /// General registers x0 to x31.
    pub x: Vec<usize>,
    pub sstatus: usize,
    pub sepc: usize,
    pub kernel_satp: usize,
    pub kernel_sp: usize,
    pub trap_handler: usize,
}

impl TrapContext {
    /// Sets the stack pointer, register x2.
    pub fn set_sp(&mut self, sp: usize)
        requires
            old(self).x@.len() == 32,
        ensures
            final(self).x@ == old(self).x@.update(2, sp),
            final(self).sstatus == old(self).sstatus,
            final(self).sepc == old(self).sepc,
            final(self).kernel_satp == old(self).kernel_satp,
            final(self).kernel_sp == old(self).kernel_sp,
            final(self).trap_handler == old(self).trap_handler,
    {
        self.x.set(2, sp);
    }

    /// The context a task first enters user mode with: all registers zero but the stack
    /// pointer, the program counter at `entry`, and `sstatus` (as read from the processor)
    /// set to return to user mode.
    pub fn app_init_context(entry: usize, sp: usize, sstatus: usize, kernel_satp: usize, kernel_sp: usize, trap_handler: usize) -> (r: Self)
        ensures
            r.x@.len() == 32,
            r.x@[2] == sp,
            forall|i: int| 0 <= i < 32 && i != 2 ==> #[trigger] r.x@[i] == 0,
            r.sstatus == sstatus & !SSTATUS_SPP,
            r.sepc == entry,
            r.kernel_satp == kernel_satp,
            r.kernel_sp == kernel_sp,
            r.trap_handler == trap_handler,
    {
        let mut x: Vec<usize> = Vec::new();
        let mut i: usize = 0;
        while i < 32
            invariant
                i <= 32,
                x@.len() == i,
                forall|j: int| 0 <= j < i ==> #[trigger] x@[j] == 0,
            decreases 32 - i,
        {
            x.push(0);
            i += 1;
        }
        let mut cx = TrapContext {
            x,
            sstatus: sstatus & !SSTATUS_SPP,
            sepc: entry,
            kernel_satp,
            kernel_sp,
            trap_handler,
        };
        cx.set_sp(sp);
        cx
    }

    /// Prepares a forked child's context: its own kernel stack, and 0 as what `fork`
    /// returns to it.
    pub fn fork_child(&mut self, kernel_sp: usize)
        requires
            old(self).x@.len() == 32,
        ensures
            final(self).x@ == old(self).x@.update(10, 0),
            final(self).kernel_sp == kernel_sp,
            final(self).sstatus == old(self).sstatus,
            final(self).sepc == old(self).sepc,
            final(self).kernel_satp == old(self).kernel_satp,
            final(self).trap_handler == old(self).trap_handler,
    {
        self.kernel_sp = kernel_sp;
        self.x.set(10, 0);
    }
}

impl TrapContext {
    /// The system call a user `ecall` asks for: its number (register a7) and arguments
    /// (a0 to a2).
    pub fn syscall_request(&self) -> (r: (usize, usize, usize, usize))
        requires
            self.x@.len() == 32,
        ensures
            r == (self.x@[17], self.x@[10], self.x@[11], self.x@[12]),
    {
        (self.x[17], self.x[10], self.x[11], self.x[12])
    }

    /// Completes a system call: the task resumes after its `ecall` with `ret` in a0, every
    /// other register as it was.
    pub fn finish_syscall(&mut self, ret: isize)
        requires
            old(self).x@.len() == 32,
            old(self).sepc + 4 <= usize::MAX,
        ensures
            final(self).sepc == old(self).sepc + 4,
            final(self).x@ == old(self).x@.update(10, ret as usize),
            final(self).sstatus == old(self).sstatus,
            final(self).kernel_satp == old(self).kernel_satp,
            final(self).kernel_sp == old(self).kernel_sp,
            final(self).trap_handler == old(self).trap_handler,
    {
        self.sepc = syscall_return_pc(self.sepc);
        self.x.set(10, ret as usize);
    }
}

impl TrapContext {
    /// A copy of the context.
    pub fn copy_of(&self) -> (r: Self)
        ensures
            r.x@ == self.x@,
            r.sstatus == self.sstatus,
            r.sepc == self.sepc,
            r.kernel_satp == self.kernel_satp,
            r.kernel_sp == self.kernel_sp,
            r.trap_handler == self.trap_handler,
    {
        let mut x: Vec<usize> = Vec::new();
        let mut i: usize = 0;
        while i < self.x.len()
            invariant
                i <= self.x@.len(),
                x@ == self.x@.subrange(0, i as int),
            decreases self.x@.len() - i,
        {
            x.push(self.x[i]);
            i += 1;
        }
        assert(x@ =~= self.x@);
        TrapContext {
            x,
            sstatus: self.sstatus,
            sepc: self.sepc,
            kernel_satp: self.kernel_satp,
            kernel_sp: self.kernel_sp,
            trap_handler: self.trap_handler,
        }
    }
}

} // verus!
