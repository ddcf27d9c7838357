use kernel::task::scheduler::Scheduler;
use kernel::task::thread::{silent_program, Task, TaskState, STACK_SIZE};

fn task(id: usize) -> Task {
    Task::new(id, 0x4000 + id as u64, vec![0u8; STACK_SIZE], vec![0u8; STACK_SIZE], 0x10000, 0x20000)
}

fn word_at(stack: &[u8], off: usize) -> u64 {
    let mut b = [0u8; 8];
    b.copy_from_slice(&stack[off..off + 8]);
    u64::from_le_bytes(b)
}

#[test]
fn new_task_frame() {
    let t = Task::new(7, 0xDEAD_BEEF, vec![0u8; STACK_SIZE], vec![0u8; STACK_SIZE], 0x10000, 0x20000);
    assert_eq!(t.id, 7);
    assert_eq!(t.state, TaskState::Ready);
    assert_eq!(t.kernel_rsp, 0x10000 + STACK_SIZE as u64 - 160);
    let top = STACK_SIZE;
    assert_eq!(word_at(&t.kernel_stack, top - 8), 0x1B);
    assert_eq!(word_at(&t.kernel_stack, top - 16), 0x20000 + STACK_SIZE as u64);
    assert_eq!(word_at(&t.kernel_stack, top - 24), 0x200);
    assert_eq!(word_at(&t.kernel_stack, top - 32), 0x23);
    assert_eq!(word_at(&t.kernel_stack, top - 40), 0xDEAD_BEEF);
    for k in 0..15 {
        assert_eq!(word_at(&t.kernel_stack, top - 48 - 8 * k), 0);
    }
}

#[test]
fn new_scheduler_is_empty() {
    let s = Scheduler::new();
    assert!(s.tasks.is_empty());
    assert_eq!(s.current_index, 0);
    let d = Scheduler::default();
    assert!(d.tasks.is_empty());
}

#[test]
fn switch_with_no_tasks_returns_current() {
    let mut s = Scheduler::new();
    assert_eq!(s.switch_context(0x1234), 0x1234);
}

#[test]
fn round_robin_when_all_ready() {
    let mut s = Scheduler::new();
    s.add_task(task(1));
    s.add_task(task(2));
    s.add_task(task(3));
    let r = s.switch_context(0xAAAA);
    assert_eq!(s.current_index, 1);
    assert_eq!(r, s.tasks[1].kernel_rsp);
    assert_eq!(s.tasks[0].kernel_rsp, 0xAAAA);
    s.switch_context(0xBBBB);
    assert_eq!(s.current_index, 2);
    s.switch_context(0xCCCC);
    assert_eq!(s.current_index, 0);
    assert_eq!(s.tasks[2].kernel_rsp, 0xCCCC);
}

#[test]
fn blocked_tasks_are_skipped() {
    let mut s = Scheduler::new();
    s.add_task(task(1));
    s.add_task(task(2));
    s.add_task(task(3));
    s.current_index = 1;
    s.block_current_task();
    assert_eq!(s.tasks[1].state, TaskState::Blocked);
    s.current_index = 0;
    s.switch_context(0);
    assert_eq!(s.current_index, 2);
}

#[test]
fn all_blocked_stays_on_current() {
    let mut s = Scheduler::new();
    s.add_task(task(1));
    s.add_task(task(2));
    s.block_current_task();
    s.current_index = 1;
    s.block_current_task();
    let r = s.switch_context(0x55);
    assert_eq!(s.current_index, 1);
    assert_eq!(r, 0x55);
}

#[test]
fn current_blocked_others_ready() {
    let mut s = Scheduler::new();
    s.add_task(task(1));
    s.add_task(task(2));
    s.block_current_task();
    s.switch_context(0);
    assert_eq!(s.current_index, 1);
    s.switch_context(0);
    assert_eq!(s.current_index, 1);
}

#[test]
fn unblock_marks_first_with_id() {
    let mut s = Scheduler::new();
    s.add_task(task(1));
    s.add_task(task(2));
    s.block_current_task();
    s.unblock_task(1);
    assert_eq!(s.tasks[0].state, TaskState::Ready);
    s.unblock_task(99);
    assert_eq!(s.tasks.len(), 2);
}

#[test]
fn silent_program_is_a_loop() {
    let code = silent_program();
    assert_eq!(code.len(), 16);
    assert_eq!(&code[0..2], &[0xEB, 0xFE]);
    assert!(code[2..].iter().all(|&b| b == 0));
}

#[test]
fn block_then_unblock_restores_shell() {
    let mut s = Scheduler::new();
    s.add_task(task(1));
    s.add_task(task(2));
    let rsp_before: Vec<u64> = s.tasks.iter().map(|t| t.kernel_rsp).collect();
    s.block_current_task();
    assert_eq!(s.tasks[0].state, TaskState::Blocked);
    // While the shell waits, the other task runs.
    let next = s.switch_context(0x1234);
    assert_eq!(s.current_index, 1);
    assert_eq!(next, rsp_before[1]);
    s.unblock_task(1);
    assert_eq!(s.tasks[0].state, TaskState::Ready);
    assert_eq!(s.tasks[1].state, TaskState::Ready);
    assert_eq!(s.tasks[0].kernel_rsp, 0x1234);
    // The woken shell is picked next.
    assert_eq!(s.switch_context(0x5678), 0x1234);
    assert_eq!(s.current_index, 0);
}
