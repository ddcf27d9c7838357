//! A task: its identity, its saved kernel stack pointer, its stacks and its
//! scheduling state.
use vstd::prelude::*;

verus! {

/// Whether a task may be given the processor.
#[derive(Debug, Clone, Copy, PartialEq, Eq, Structural)]
pub enum TaskState {
    Ready,
    Blocked,
}

/// The size in bytes of each stack of a task.
pub const STACK_SIZE: usize = 16384;

/// The size in bytes of the initial interrupt frame: 15 general registers,
/// then RIP, CS, RFLAGS, RSP and SS.
pub const FRAME_SIZE: usize = 160;

/// User code segment selector.
pub const USER_CS: u64 = 0x23;

/// User data (stack) segment selector.
pub const USER_SS: u64 = 0x1B;

/// RFLAGS with interrupts enabled.
pub const USER_RFLAGS: u64 = 0x200;

pub struct Task {
    pub id: usize,
    pub kernel_rsp: u64,
    pub kernel_stack: Vec<u8>,
    pub user_stack: Vec<u8>,
    pub state: TaskState,
}

/// The words of the initial frame, lowest address first: the general
/// registers (all zero), then what `iretq` pops.
pub open spec fn initial_frame(entry_point: u64, user_stack_top: u64) -> Seq<u64> {
    Seq::new(15, |i: int| 0u64) + seq![entry_point, USER_CS, USER_RFLAGS, user_stack_top, USER_SS]
}

/// The bytes of `words` in memory order, each word little-endian.
pub open spec fn word_bytes(words: Seq<u64>) -> Seq<u8> {
    Seq::new(8 * words.len(), |i: int| (words[i / 8] >> ((8 * (i % 8)) as u64)) as u8)
}

/// The code of a task that does nothing: `jmp $` (0xEB 0xFE), padded with
/// zeros to 16 bytes.
pub fn silent_program() -> (code: Vec<u8>)
    ensures
        code@.len() == 16,
        code@[0] == 0xEB,
        code@[1] == 0xFE,
        forall|i: int| 2 <= i < 16 ==> code@[i] == 0,
{
    let mut code = vec![0u8; 16];
    code.set(0, 0xEB);
    code.set(1, 0xFE);
    code
}

impl Task {
    /// A ready task that will start at `entry_point` in user mode, with the
    /// initial interrupt frame written at the top of `kernel_stack`.
    /// `kernel_stack_base` and `user_stack_base` are the addresses at which the
    /// two stacks lie in memory.
    pub fn new(
        id: usize,
        entry_point: u64,
        kernel_stack: Vec<u8>,
        user_stack: Vec<u8>,
        kernel_stack_base: u64,
        user_stack_base: u64,
    ) -> (t: Task)
        requires
            kernel_stack@.len() == STACK_SIZE,
            user_stack@.len() == STACK_SIZE,
            kernel_stack_base + STACK_SIZE <= u64::MAX,
            user_stack_base + STACK_SIZE <= u64::MAX,
        ensures
            t.id == id,
            t.state == TaskState::Ready,
            t.kernel_rsp == kernel_stack_base + STACK_SIZE - FRAME_SIZE,
            t.user_stack@ == user_stack@,
            t.kernel_stack@.len() == STACK_SIZE,
            t.kernel_stack@.subrange(0, STACK_SIZE - FRAME_SIZE) == kernel_stack@.subrange(
                0,
                STACK_SIZE - FRAME_SIZE,
            ),
            t.kernel_stack@.subrange(STACK_SIZE - FRAME_SIZE, STACK_SIZE as int) == word_bytes(
                initial_frame(entry_point, (user_stack_base + STACK_SIZE) as u64),
            ),
    {
        let kernel_stack_top = kernel_stack_base + STACK_SIZE as u64;
        let user_stack_top = user_stack_base + STACK_SIZE as u64;
        let ghost frame = initial_frame(entry_point, user_stack_top);
        let mut stack = kernel_stack;
        let base: usize = STACK_SIZE - FRAME_SIZE;
        let mut w: usize = 0;
        while w < 20
            invariant
                base == STACK_SIZE - FRAME_SIZE,
                frame == initial_frame(entry_point, user_stack_top),
                w <= 20,
                stack@.len() == STACK_SIZE,
                kernel_stack@.len() == STACK_SIZE,
                stack@.subrange(0, base as int) == kernel_stack@.subrange(0, base as int),
                forall|i: int|
                    0 <= i < 8 * w ==> #[trigger] stack@[base + i] == word_bytes(frame)[i],
            decreases 20 - w,
        {
            let word: u64 = if w < 15 {
                0
            } else if w == 15 {
                entry_point
            } else if w == 16 {
                USER_CS
            } else if w == 17 {
                USER_RFLAGS
            } else if w == 18 {
                user_stack_top
            } else {
                USER_SS
            };
            assert(word == frame[w as int]);
            let mut b: usize = 0;
            while b < 8
                invariant
                    base == STACK_SIZE - FRAME_SIZE,
                    frame == initial_frame(entry_point, user_stack_top),
                    w < 20,
                    b <= 8,
                    word == frame[w as int],
                    stack@.len() == STACK_SIZE,
                    kernel_stack@.len() == STACK_SIZE,
                    stack@.subrange(0, base as int) == kernel_stack@.subrange(0, base as int),
                    forall|i: int|
                        0 <= i < 8 * w + b ==> #[trigger] stack@[base + i] == word_bytes(frame)[i],
                decreases 8 - b,
            {
                let byte = #[verifier::truncate] ((word >> ((8 * b) as u64)) as u8);
                let ghost before = stack@;
                stack[base + 8 * w + b] = byte;
                proof {
                    let k = 8 * w + b;
                    assert(k / 8 == w as int);
                    assert(k % 8 == b as int);
                    assert(word_bytes(frame)[k] == byte);
                    assert(stack@.subrange(0, base as int) =~= before.subrange(0, base as int));
                }
                b = b + 1;
            }
            w = w + 1;
        }
        assert(frame.len() == 20);
        assert(word_bytes(frame).len() == FRAME_SIZE);
        assert forall|i: int| 0 <= i < FRAME_SIZE implies stack@.subrange(
            base as int,
            STACK_SIZE as int,
        )[i] == word_bytes(frame)[i] by {
            assert(stack@[base + i] == word_bytes(frame)[i]);
        }
        assert(stack@.subrange(base as int, STACK_SIZE as int) =~= word_bytes(frame));
        Task {
            id,
            kernel_rsp: kernel_stack_top - FRAME_SIZE as u64,
            kernel_stack: stack,
            user_stack,
            state: TaskState::Ready,
        }
    }
}

} // verus!
