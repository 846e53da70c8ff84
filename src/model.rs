use vstd::prelude::*;

use crate::thread::State;

verus! {

/// The block reached `d` steps after `cur` in a ring of `n` blocks, for `0 <= d < n`.
pub open spec fn ring_slot(cur: int, d: int, n: int) -> int {
    if cur + d < n {
        cur + d
    } else {
        cur + d - n
    }
}

/// The lifecycle states of a pool whose running block is `cur` satisfy the scheduler's
/// invariant: exactly one block runs and it is `cur`; while a task runs, the main
/// block waits as `Ready`.
pub open spec fn pool_ok(states: Seq<State>, cur: int) -> bool {
    &&& states.len() >= 1
    &&& 0 <= cur < states.len()
    &&& states[cur] == State::Running
    &&& forall|i: int| 0 <= i < states.len() && i != cur ==> states[i] != State::Running
    &&& cur != 0 ==> states[0] == State::Ready
}

/// Scan of the ring from `d` steps after `cur` on, for the first `Ready` block.
pub open spec fn scan_ready(states: Seq<State>, cur: int, d: int) -> Option<int>
    decreases states.len() - d,
{
    if d < 1 || d >= states.len() {
        None
    } else if states[ring_slot(cur, d, states.len() as int)] == State::Ready {
        Some(ring_slot(cur, d, states.len() as int))
    } else {
        scan_ready(states, cur, d + 1)
    }
}

/// The block that gets the CPU when `cur` gives up its turn: the first `Ready` block
/// after `cur` in ascending index order, wrapping around; `None` when there is none.
pub open spec fn next_ready(states: Seq<State>, cur: int) -> Option<int> {
    scan_ready(states, cur, 1)
}

/// States after the CPU passes from `cur` to `next`: a block that gave up its turn
/// alive waits as `Ready`, one that finished stays `Available`.
pub open spec fn handoff(states: Seq<State>, cur: int, next: int) -> Seq<State> {
    let s = if states[cur] == State::Available {
        states
    } else {
        states.update(cur, State::Ready)
    };
    s.update(next, State::Running)
}

/// States once the task of block `cur` has returned: a block other than the main one
/// becomes `Available`; the main block is left alone.
pub open spec fn retire(states: Seq<State>, cur: int) -> Seq<State> {
    if cur != 0 {
        states.update(cur, State::Available)
    } else {
        states
    }
}

/// Scan from block `i` upwards for the first `Available` block.
pub open spec fn scan_available(states: Seq<State>, i: int) -> Option<int>
    decreases states.len() - i,
{
    if i < 0 || i >= states.len() {
        None
    } else if states[i] == State::Available {
        Some(i)
    } else {
        scan_available(states, i + 1)
    }
}

/// The block that the next spawn fills: the lowest-indexed `Available` one.
pub open spec fn first_available(states: Seq<State>) -> Option<int> {
    scan_available(states, 0)
}

/// Required alignment of a stack pointer under the RISC-V calling convention.
pub const STACK_ALIGN: u64 = 16;

/// The address `end` rounded down to the stack alignment.
pub open spec fn aligned_top(end: u64) -> u64 {
    (end - end % STACK_ALIGN) as u64
}

} // verus!
