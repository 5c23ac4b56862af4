use easy_os::frame_allocator::{PhysPageNum, StackFrameAllocator};
use easy_os::task::{
    alloc_fd, get_time_ms, kernel_stack_position, run_next, suspend_current, sys_yield,
    PidAllocator, Processor, TaskManager, TaskStatus,
};
use easy_os::trap::{syscall_of, trap_action, OpenAction, OpenFlags, Syscall, TrapAction, TrapCause};
use easy_os::config::{KERNEL_STACK_SIZE, PAGE_SIZE, TRAMPOLINE};

#[test]
fn frame_allocator_hands_out_in_order_then_recycles() {
    let mut fa = StackFrameAllocator::new();
    fa.init(PhysPageNum(10), PhysPageNum(13));
    assert_eq!(fa.allocate(), Some(PhysPageNum(10)));
    assert_eq!(fa.allocate(), Some(PhysPageNum(11)));
    fa.dealloc(PhysPageNum(10));
    assert_eq!(fa.allocate(), Some(PhysPageNum(10)));
    assert_eq!(fa.allocate(), Some(PhysPageNum(12)));
    assert_eq!(fa.allocate(), None);
}

#[test]
fn frame_alloc_then_drop_round_trip() {
    let mut fa = StackFrameAllocator::new();
    fa.init(PhysPageNum(0), PhysPageNum(5));
    let a = fa.allocate().unwrap();
    let b = fa.allocate().unwrap();
    fa.dealloc(b);
    fa.dealloc(a);
    let c = fa.allocate().unwrap();
    assert_eq!(c, a);
    fa.dealloc(c);
    assert_eq!(fa.allocate(), Some(a));
    assert_eq!(fa.allocate(), Some(b));
    assert_eq!(fa.allocate(), Some(PhysPageNum(2)));
}

#[test]
fn pid_is_reused_after_reap() {
    let mut pids = PidAllocator::new();
    let p0 = pids.allocate();
    let p1 = pids.allocate();
    assert_eq!(p0.0, 0);
    assert_eq!(p1.0, 1);
    pids.dealloc(p1.0);
    assert_eq!(pids.allocate().0, 1);
    assert_eq!(pids.allocate().0, 2);
}

#[test]
fn kernel_stacks_are_separated_by_guard_pages() {
    assert_eq!(kernel_stack_position(0), (TRAMPOLINE - KERNEL_STACK_SIZE, TRAMPOLINE));
    let (b1, t1) = kernel_stack_position(1);
    assert_eq!(t1, TRAMPOLINE - KERNEL_STACK_SIZE - PAGE_SIZE);
    assert_eq!(b1, t1 - 8192);
}

#[test]
fn ready_queue_is_fifo() {
    let mut m = TaskManager::new();
    m.add(1);
    m.add(2);
    m.add(3);
    assert_eq!(m.len(), 3);
    assert_eq!(m.fetch(), Some(1));
    m.add(4);
    assert_eq!(m.fetch(), Some(2));
    assert_eq!(m.fetch(), Some(3));
    assert_eq!(m.fetch(), Some(4));
    assert_eq!(m.fetch(), None);
}

#[test]
fn round_robin_gives_each_task_a_quantum() {
    let mut table = ProcessTable::new();
    let mut m = TaskManager::new();
    let mut p = Processor::new();
    for _ in 0..4 {
        m.add(table.spawn(None).unwrap());
    }
    let mut ran = Vec::new();
    for _ in 0..8 {
        assert!(run_next(&mut table, &mut m, &mut p));
        let cur = *p.current().unwrap();
        assert_eq!(table.tasks()[cur].status, TaskStatus::Running);
        ran.push(cur);
        suspend_current(&mut table, &mut m, &mut p);
        assert_eq!(table.tasks()[cur].status, TaskStatus::Ready);
    }
    assert_eq!(ran, vec![0, 1, 2, 3, 0, 1, 2, 3]);
    assert!(p.take_current().is_none());
}

#[test]
fn timer_trap_preempts_and_faults_kill() {
    assert_eq!(trap_action(TrapCause::SupervisorTimer), TrapAction::Preempt);
    assert_eq!(trap_action(TrapCause::StorePageFault), TrapAction::Kill(-2));
    assert_eq!(trap_action(TrapCause::LoadFault), TrapAction::Kill(-2));
    assert_eq!(trap_action(TrapCause::IllegalInstruction), TrapAction::Kill(-3));
    assert_eq!(trap_action(TrapCause::UserEnvCall), TrapAction::Syscall);
    assert_eq!(trap_action(TrapCause::Other), TrapAction::Panic);
}

#[test]
fn page_fault_kills_only_the_faulting_task() {
    let mut table = ProcessTable::new();
    let mut m = TaskManager::new();
    let mut p = Processor::new();
    let init = table.spawn(None).unwrap();
    let a = table.sys_fork(init).unwrap();
    let b = table.sys_fork(init).unwrap();
    m.add(a);
    m.add(b);
    assert!(run_next(&mut table, &mut m, &mut p));
    if let TrapAction::Kill(code) = trap_action(TrapCause::StorePageFault) {
        assert_eq!(code, -2);
        let victim = p.take_current().unwrap();
        assert_eq!(victim, a);
        table.sys_exit(victim, code);
    } else {
        panic!("a store fault must kill the task");
    }
    assert!(run_next(&mut table, &mut m, &mut p));
    assert_eq!(p.current(), Some(&b));
    assert_eq!(table.sys_waitpid(init, -1), (a as isize, Some(-2)));
}

#[test]
fn syscall_numbers() {
    assert_eq!(syscall_of(64), Some(Syscall::Write));
    assert_eq!(syscall_of(93), Some(Syscall::Exit));
    assert_eq!(syscall_of(260), Some(Syscall::Waitpid));
    assert_eq!(syscall_of(220), Some(Syscall::Fork));
    assert_eq!(syscall_of(1), None);
}

#[test]
fn clock_ticks_to_milliseconds() {
    assert_eq!(get_time_ms(12_500_000), 1000);
    assert_eq!(get_time_ms(12_499), 0);
    assert_eq!(get_time_ms(25_000), 2);
}

#[test]
fn lowest_free_descriptor_is_used() {
    let mut table: Vec<Option<u8>> = vec![Some(0), None, Some(2)];
    assert_eq!(alloc_fd(&mut table), 1);
    table[1] = Some(1);
    assert_eq!(alloc_fd(&mut table), 3);
    assert_eq!(table.len(), 4);
}

#[test]
fn open_flags_access_and_action() {
    assert_eq!(OpenFlags { bits: 0 }.read_write(), (true, false));
    assert_eq!(OpenFlags { bits: 1 }.read_write(), (false, true));
    assert_eq!(OpenFlags { bits: 2 }.read_write(), (true, true));
    assert_eq!(OpenFlags { bits: 512 | 1 }.read_write(), (false, true));
    assert_eq!(OpenFlags { bits: 512 }.read_write(), (true, false));
    assert_eq!(OpenFlags { bits: 1024 | 2 }.read_write(), (true, true));
    assert_eq!(OpenFlags { bits: 512 }.open_action(true), OpenAction::TruncateAndOpen);
    assert_eq!(OpenFlags { bits: 512 }.open_action(false), OpenAction::Create);
    assert_eq!(OpenFlags { bits: 1024 }.open_action(true), OpenAction::TruncateAndOpen);
    assert_eq!(OpenFlags { bits: 0 }.open_action(true), OpenAction::Open);
    assert_eq!(OpenFlags { bits: 0 }.open_action(false), OpenAction::Fail);
}

#[test]
fn task_status_compares() {
    assert_ne!(TaskStatus::Ready, TaskStatus::Zombie);
    assert_eq!(TaskStatus::Running, TaskStatus::Running);
}

use easy_os::task::ProcessTable;

#[test]
fn fork_exit_wait_reaps_child_and_reuses_pid() {
    let mut table = ProcessTable::new();
    let init = table.spawn(None).unwrap();
    assert_eq!(init, 0);
    let parent = table.sys_fork(init).unwrap();
    assert_eq!(parent, 1);
    let child = table.sys_fork(parent).unwrap();
    assert_eq!(child, 2);
    assert_eq!(table.sys_getpid(child), 2);
    assert_eq!(table.sys_waitpid(parent, -1), (-2, None));
    table.sys_exit(child, 42);
    assert_eq!(table.sys_waitpid(parent, 7), (-1, None));
    assert_eq!(table.sys_waitpid(parent, -1), (2, Some(42)));
    assert_eq!(table.sys_waitpid(parent, -1), (-1, None));
    assert_eq!(table.sys_fork(parent), Some(2));
}

#[test]
fn exiting_parent_hands_children_to_init() {
    let mut table = ProcessTable::new();
    let init = table.spawn(None).unwrap();
    let parent = table.sys_fork(init).unwrap();
    let child = table.sys_fork(parent).unwrap();
    table.sys_exit(parent, -2);
    let tasks = table.tasks();
    assert_eq!(tasks[2].pid, child);
    assert_eq!(tasks[2].parent, Some(init));
    assert_eq!(tasks[1].status, TaskStatus::Zombie);
    assert_eq!(tasks[1].exit_code, -2);
    assert_eq!(table.sys_waitpid(init, -1), (1, Some(-2)));
    table.sys_exit(child, 0);
    assert_eq!(table.sys_waitpid(init, child as isize), (2, Some(0)));
}

#[test]
fn yield_rotates_the_running_task() {
    let mut table = ProcessTable::new();
    let mut m = TaskManager::new();
    let mut p = Processor::new();
    let one = table.spawn(None).unwrap();
    let two = table.spawn(None).unwrap();
    m.add(one);
    m.add(two);
    assert!(run_next(&mut table, &mut m, &mut p));
    assert_eq!(sys_yield(&mut table, &mut m, &mut p), 0);
    assert_eq!(p.current(), Some(&two));
    assert_eq!(table.tasks()[0].status, TaskStatus::Ready);
    assert_eq!(table.tasks()[1].status, TaskStatus::Running);
    assert_eq!(sys_yield(&mut table, &mut m, &mut p), 0);
    assert_eq!(p.current(), Some(&one));
}

#[test]
fn forked_task_copies_parent_setup_and_queues() {
    let segs = vec![ElfSegment { is_load: true, vaddr: 0x10000, mem_size: 0x1000, offset: 0, file_size: 0x10, flags: 5 }];
    let layout = from_elf(&segs, 0x100, 0x10000).unwrap();
    let mut fa = StackFrameAllocator::new();
    fa.init(PhysPageNum(0x80000), PhysPageNum(0x80100));
    let parent_ms = MemorySet::from_elf_layout(&layout, 0x80400, &mut fa).unwrap();
    let mut parent = new_task_setup(&parent_ms, &fa, 0x10000, layout.user_sp as usize, 0x100, 5, 0x9000, 0x77, 0x66).unwrap();
    parent.trap_cx.x[10] = 220;
    parent.fd_table.push(None);
    let child_ms = MemorySet::from_existed_user(&parent_ms, 0x80400, &mut fa).unwrap();
    let mut table = ProcessTable::new();
    let mut m = TaskManager::new();
    let init = table.spawn(None).unwrap();
    let (pid, child) = sys_fork_task(&mut table, &mut m, init, &parent, &child_ms, &fa, 0xa000, 0x66).unwrap();
    assert_eq!(pid, 1);
    assert_eq!(m.fetch(), Some(1));
    assert_eq!(child.fd_table, parent.fd_table);
    assert_eq!(child.base_size, parent.base_size);
    assert_eq!(child.trap_cx.x[10], 0);
    assert_eq!(child.trap_cx.x[2], parent.trap_cx.x[2]);
    assert_eq!(child.trap_cx.sepc, parent.trap_cx.sepc);
    assert_eq!(child.trap_cx.kernel_sp, 0xa000);
    assert_eq!(child.task_cx.sp, 0xa000);
    assert_ne!(child.trap_cx_ppn, parent.trap_cx_ppn);
    assert_eq!(table.tasks()[1].parent, Some(init));
}

#[test]
fn timer_slices_are_ten_milliseconds() {
    assert_eq!(easy_os::trap::set_next_trigger(1000), 1000 + 125_000);
    assert_eq!(get_time_ms(125_000), 10);
}

use easy_os::trap::TrapContext;

#[test]
fn initial_trap_context_returns_to_user_mode() {
    let mut cx = TrapContext::app_init_context(0x1000, 0x8000, 0x120, 7, 0x9000, 0x4242);
    assert_eq!(cx.x[2], 0x8000);
    assert_eq!(cx.x.iter().filter(|r| **r != 0).count(), 1);
    assert_eq!(cx.sstatus, 0x20);
    assert_eq!(cx.sepc, 0x1000);
    assert_eq!(cx.kernel_satp, 7);
    assert_eq!(cx.trap_handler, 0x4242);
    cx.x[10] = 5;
    cx.fork_child(0xa000);
    assert_eq!(cx.x[10], 0);
    assert_eq!(cx.kernel_sp, 0xa000);
}

#[test]
fn syscall_result_goes_to_a0_and_pc_steps_past_ecall() {
    let mut cx = TrapContext::app_init_context(0x1000, 0x8000, 0, 0, 0, 0);
    cx.x[17] = 93;
    cx.x[10] = 42;
    assert_eq!(cx.syscall_request(), (93, 42, 0, 0));
    cx.finish_syscall(-1);
    assert_eq!(cx.sepc, 0x1004);
    assert_eq!(cx.x[10], usize::MAX);
    assert_eq!(cx.x[2], 0x8000);
}

use easy_os::memory_set::{from_elf, ElfSegment, MemorySet};
use easy_os::task::{exec_task_setup, new_task_setup, sys_fork_task, StdFile};

#[test]
fn new_task_starts_in_trap_return_with_std_descriptors() {
    let segs = vec![ElfSegment { is_load: true, vaddr: 0x10000, mem_size: 0x1000, offset: 0, file_size: 0x10, flags: 5 }];
    let layout = from_elf(&segs, 0x100, 0x10000).unwrap();
    let mut fa = StackFrameAllocator::new();
    fa.init(PhysPageNum(0x80000), PhysPageNum(0x80100));
    let ms = MemorySet::from_elf_layout(&layout, 0x80400, &mut fa).unwrap();
    let t = new_task_setup(&ms, &fa, 0x10000, layout.user_sp as usize, 0x100, 5, 0x9000, 0x77, 0x66).unwrap();
    assert_eq!(t.trap_cx_ppn, ms.translate(0x7ff_fffe).unwrap().ppn());
    assert_eq!(t.trap_cx.sepc, 0x10000);
    assert_eq!(t.trap_cx.sstatus, 0);
    assert_eq!(t.task_cx.ra, 0x66);
    assert_eq!(t.task_cx.sp, 0x9000);
    assert_eq!(t.fd_table, vec![Some(StdFile::Stdin), Some(StdFile::Stdout), Some(StdFile::Stdout)]);
    assert_eq!(t.status, TaskStatus::Ready);
}

#[test]
fn exec_keeps_descriptors_and_kernel_stack() {
    let segs = vec![ElfSegment { is_load: true, vaddr: 0x10000, mem_size: 0x1000, offset: 0, file_size: 0x10, flags: 5 }];
    let layout = from_elf(&segs, 0x100, 0x10000).unwrap();
    let mut fa = StackFrameAllocator::new();
    fa.init(PhysPageNum(0x80000), PhysPageNum(0x80100));
    let first = MemorySet::from_elf_layout(&layout, 0x80400, &mut fa).unwrap();
    let mut task = new_task_setup(&first, &fa, 0x10000, layout.user_sp as usize, 0, 5, 0x9000, 0x77, 0x66).unwrap();
    task.fd_table.push(None);
    let segs2 = vec![ElfSegment { is_load: true, vaddr: 0x20000, mem_size: 0x3000, offset: 0, file_size: 0x10, flags: 5 }];
    let layout2 = from_elf(&segs2, 0x100, 0x20004).unwrap();
    let second = MemorySet::from_elf_layout(&layout2, 0x80400, &mut fa).unwrap();
    let t = exec_task_setup(&task, &second, &fa, 0x20004, layout2.user_sp as usize, 0, 5, 0x77).unwrap();
    assert_eq!(t.fd_table, task.fd_table);
    assert_eq!(t.trap_cx.sepc, 0x20004);
    assert_eq!(t.trap_cx.kernel_sp, 0x9000);
    assert_eq!(t.task_cx.ra, 0x66);
    assert_eq!(t.base_size, layout2.user_sp as usize);
    assert_eq!(t.trap_cx_ppn, second.translate(0x7ff_fffe).unwrap().ppn());
}
