use vstd::prelude::*;

use crate::context::{ThreadContext, CONTEXT_SLOTS, ENTRY, RA, SP};
use crate::model::{
    aligned_top, first_available, handoff, next_ready, pool_ok, retire, ring_slot,
    scan_available, scan_ready, STACK_ALIGN,
};
use crate::thread::{State, Thread};

verus! {

/// Stack size of each block of a pool made by `Runtime::new`.
pub const DEFAULT_STACK_SIZE: usize = 2097152;

/// Number of blocks of a pool made by `Runtime::new`, the main block included.
pub const MAX_THREADS: usize = 4;

/// A spawn found no `Available` block: the pool is exhausted.
#[derive(PartialEq, Eq, Structural, Clone, Copy, Debug)]
pub struct PoolExhausted;

/// The scheduler: a fixed pool of thread control blocks and the index of the one
/// that runs. Block 0 is the main block, which drives the scheduling loop.
pub struct Runtime {
    threads: Vec<Thread>,
    current: usize,
}

impl Runtime {
    /// Lifecycle state of each block, by index.
    pub closed spec fn states(&self) -> Seq<State> {
        self.threads@.map_values(|t: Thread| t.state)
    }

    /// Saved register context of each block, by index.
    pub closed spec fn contexts(&self) -> Seq<Seq<u64>> {
        self.threads@.map_values(|t: Thread| t.ctx.regs@)
    }

    /// Stack length of each block, by index.
    pub closed spec fn stack_lens(&self) -> Seq<nat> {
        self.threads@.map_values(|t: Thread| t.stack@.len())
    }

    /// Index of the running block.
    pub closed spec fn cur(&self) -> int {
        self.current as int
    }

    /// The scheduler's invariant: exactly one block runs, `current` names it, and
    /// the main block waits while a task runs.
    pub open spec fn wf(&self) -> bool {
        &&& pool_ok(self.states(), self.cur())
        &&& self.contexts().len() == self.states().len()
        &&& self.stack_lens().len() == self.states().len()
    }

    proof fn lemma_views(&self)
        ensures
            self.states().len() == self.threads@.len(),
            self.contexts().len() == self.threads@.len(),
            self.stack_lens().len() == self.threads@.len(),
            forall|i: int|
                0 <= i < self.threads@.len() ==> {
                    &&& #[trigger] self.states()[i] == self.threads@[i].state
                    &&& self.contexts()[i] == self.threads@[i].ctx.regs@
                    &&& self.stack_lens()[i] == self.threads@[i].stack@.len()
                },
    {
    }

    /// A pool of `MAX_THREADS` blocks with stacks of `DEFAULT_STACK_SIZE` bytes.
    pub fn new() -> (r: Runtime)
        ensures
            r.wf(),
            r.cur() == 0,
            r.states() == seq![State::Running, State::Available, State::Available, State::Available],
            r.stack_lens() == Seq::new(MAX_THREADS as nat, |i: int| DEFAULT_STACK_SIZE as nat),
            forall|i: int, k: int|
                0 <= i < MAX_THREADS && 0 <= k < CONTEXT_SLOTS ==> #[trigger] r.contexts()[i][k] == 0,
    {
        let r = Runtime::with_capacity(MAX_THREADS, DEFAULT_STACK_SIZE);
        assert(r.states() =~= seq![State::Running, State::Available, State::Available, State::Available]);
        r
    }

    /// A pool of `capacity` blocks, each with a zero-filled stack of `stack_size`
    /// bytes and a zeroed context: block 0 `Running` as the main block, all others
    /// `Available`.
    pub fn with_capacity(capacity: usize, stack_size: usize) -> (r: Runtime)
        requires
            capacity >= 1,
        ensures
            r.wf(),
            r.cur() == 0,
            r.states() == Seq::new(
                capacity as nat,
                |i: int|
                    if i == 0 {
                        State::Running
                    } else {
                        State::Available
                    },
            ),
            r.stack_lens() == Seq::new(capacity as nat, |i: int| stack_size as nat),
            forall|i: int, k: int|
                0 <= i < capacity && 0 <= k < CONTEXT_SLOTS ==> #[trigger] r.contexts()[i][k] == 0,
    {
        let mut threads: Vec<Thread> = Vec::new();
        threads.push(Thread::with_state(stack_size, State::Running));
        let mut k: usize = 1;
        while k < capacity
            invariant
                1 <= k <= capacity,
                threads@.len() == k,
                threads@[0].state == State::Running,
                forall|i: int| 1 <= i < k ==> #[trigger] threads@[i].state == State::Available,
                forall|i: int| 0 <= i < k ==> #[trigger] threads@[i].stack@.len() == stack_size,
                forall|i: int, j: int|
                    0 <= i < k && 0 <= j < CONTEXT_SLOTS ==> #[trigger] threads@[i].ctx.regs@[j] == 0,
            decreases capacity - k,
        {
            threads.push(Thread::new(stack_size));
            k = k + 1;
        }
        let r = Runtime { threads, current: 0 };
        proof {
            r.lemma_views();
            assert(r.states() =~= Seq::new(
                capacity as nat,
                |i: int|
                    if i == 0 {
                        State::Running
                    } else {
                        State::Available
                    },
            ));
            assert(r.stack_lens() =~= Seq::new(capacity as nat, |i: int| stack_size as nat));
        }
        r
    }

    /// Number of blocks in the pool.
    pub fn capacity(&self) -> (r: usize)
        ensures
            r == self.states().len(),
    {
        proof {
            self.lemma_views();
        }
        self.threads.len()
    }

    /// Index of the running block.
    pub fn current(&self) -> (r: usize)
        ensures
            r == self.cur(),
    {
        self.current
    }

    /// Lifecycle state of block `i`.
    pub fn state(&self, i: usize) -> (r: State)
        requires
            i < self.states().len(),
        ensures
            r == self.states()[i as int],
    {
        proof {
            self.lemma_views();
        }
        self.threads[i].state
    }

    /// Saved register context of block `i`.
    pub fn context(&self, i: usize) -> (r: &ThreadContext)
        requires
            i < self.states().len(),
        ensures
            r.regs@ == self.contexts()[i as int],
    {
        proof {
            self.lemma_views();
        }
        &self.threads[i].ctx
    }

    /// Saved register context of block `i`, for the register switch to store into.
    pub fn context_mut(&mut self, i: usize) -> (r: &mut ThreadContext)
        requires
            i < old(self).states().len(),
        ensures
            r.regs@ == old(self).contexts()[i as int],
            final(self).contexts() == old(self).contexts().update(i as int, final(r).regs@),
            final(self).states() == old(self).states(),
            final(self).stack_lens() == old(self).stack_lens(),
            final(self).cur() == old(self).cur(),
    {
        proof {
            self.lemma_views();
        }
        &mut self.threads[i].ctx
    }

    /// Stack of block `i`.
    pub fn stack(&self, i: usize) -> (r: &Vec<u8>)
        requires
            i < self.states().len(),
        ensures
            r@.len() == self.stack_lens()[i as int],
    {
        proof {
            self.lemma_views();
        }
        &self.threads[i].stack
    }

    /// The first `Ready` block after the running one, in ring order.
    fn find_ready(&self) -> (r: Option<usize>)
        requires
            self.threads@.len() >= 1,
            self.current < self.threads@.len(),
        ensures
            match next_ready(self.states(), self.cur()) {
                Some(j) => r is Some && r->0 as int == j,
                None => r.is_none(),
            },
    {
        proof {
            self.lemma_views();
        }
        let n: usize = self.threads.len();
        let cur: usize = self.current;
        let mut d: usize = 1;
        let mut pos: usize = if cur + 1 == n {
            0
        } else {
            cur + 1
        };
        while d < n
            invariant
                n == self.threads@.len(),
                n == self.states().len(),
                cur == self.current,
                cur < n,
                1 <= d <= n,
                d < n ==> pos == ring_slot(cur as int, d as int, n as int),
                scan_ready(self.states(), cur as int, 1) == scan_ready(self.states(), cur as int, d as int),
            decreases n - d,
        {
            if self.threads[pos].state == State::Ready {
                return Some(pos);
            }
            pos = if pos + 1 == n {
                0
            } else {
                pos + 1
            };
            d = d + 1;
        }
        None
    }

    /// Index of the block that the next spawn fills, if any.
    pub fn next_available(&self) -> (r: Option<usize>)
        ensures
            match first_available(self.states()) {
                Some(i) => r is Some && r->0 as int == i,
                None => r.is_none(),
            },
    {
        proof {
            self.lemma_views();
        }
        let n: usize = self.threads.len();
        let mut i: usize = 0;
        while i < n
            invariant
                n == self.states().len(),
                i <= n,
                first_available(self.states()) == scan_available(self.states(), i as int),
            decreases n - i,
        {
            if self.threads[i].state == State::Available {
                return Some(i);
            }
            i = i + 1;
        }
        None
    }

    /// Sets the state of block `i` to `s`, leaving everything else as it is.
    fn set_state(&mut self, i: usize, s: State)
        requires
            i < old(self).threads@.len(),
        ensures
            final(self).states() == old(self).states().update(i as int, s),
            final(self).contexts() == old(self).contexts(),
            final(self).stack_lens() == old(self).stack_lens(),
            final(self).current == old(self).current,
            final(self).threads@.len() == old(self).threads@.len(),
    {
        proof {
            old(self).lemma_views();
        }
        self.threads[i].state = s;
        proof {
            self.lemma_views();
            assert(self.states() =~= old(self).states().update(i as int, s));
            assert(self.contexts() =~= old(self).contexts());
            assert(self.stack_lens() =~= old(self).stack_lens());
        }
    }

    /// Hands the CPU from the running block to the next `Ready` one, if there is
    /// one, and names the two blocks whose contexts the switch saves and loads.
    fn switch_away(&mut self) -> (r: Option<(usize, usize)>)
        requires
            old(self).threads@.len() >= 1,
            old(self).current < old(self).threads@.len(),
        ensures
            final(self).threads@.len() == old(self).threads@.len(),
            final(self).contexts() == old(self).contexts(),
            final(self).stack_lens() == old(self).stack_lens(),
            match next_ready(old(self).states(), old(self).cur()) {
                Some(j) => {
                    &&& r == Some((old(self).current, j as usize))
                    &&& final(self).states() == handoff(old(self).states(), old(self).cur(), j)
                    &&& final(self).cur() == j
                },
                None => {
                    &&& r.is_none()
                    &&& final(self).states() == old(self).states()
                    &&& final(self).cur() == old(self).cur()
                },
            },
    {
        proof {
            self.lemma_views();
            lemma_next_ready_facts(self.states(), self.cur());
        }
        let found = self.find_ready();
        match found {
            None => None,
            Some(pos) => {
                let ghost s0 = self.states();
                let old_pos: usize = self.current;
                if self.threads[old_pos].state != State::Available {
                    self.set_state(old_pos, State::Ready);
                }
                self.set_state(pos, State::Running);
                self.current = pos;
                proof {
                    self.lemma_views();
                    assert(self.states() =~= handoff(s0, old_pos as int, pos as int));
                }
                Some((old_pos, pos))
            },
        }
    }

    /// The scheduling decision of a yield: the running block gives up its turn to
    /// the first `Ready` block after it in ring order, which becomes `Running` while
    /// the yielding block becomes `Ready`. Returns the pair (from, to) of blocks
    /// whose contexts the register switch saves and loads, or `None`, with nothing
    /// changed, when no other block is `Ready`.
    pub fn t_yield(&mut self) -> (r: Option<(usize, usize)>)
        requires
            old(self).wf(),
        ensures
            final(self).wf(),
            final(self).contexts() == old(self).contexts(),
            final(self).stack_lens() == old(self).stack_lens(),
            match next_ready(old(self).states(), old(self).cur()) {
                Some(j) => {
                    &&& r == Some((old(self).cur() as usize, j as usize))
                    &&& final(self).states() == handoff(old(self).states(), old(self).cur(), j)
                    &&& final(self).cur() == j
                },
                None => {
                    &&& r.is_none()
                    &&& final(self).states() == old(self).states()
                    &&& final(self).cur() == old(self).cur()
                },
            },
    {
        proof {
            self.lemma_views();
            lemma_next_ready_facts(self.states(), self.cur());
        }
        let r = self.switch_away();
        proof {
            self.lemma_views();
        }
        r
    }

    /// The scheduling decision when the task of the running block has returned:
    /// a block other than the main one becomes `Available` and the CPU passes to
    /// the next `Ready` block, which always exists then since the main block waits.
    /// On the main block nothing changes and `None` is returned.
    pub fn t_return(&mut self) -> (r: Option<(usize, usize)>)
        requires
            old(self).wf(),
        ensures
            final(self).wf(),
            final(self).contexts() == old(self).contexts(),
            final(self).stack_lens() == old(self).stack_lens(),
            old(self).cur() == 0 ==> {
                &&& r.is_none()
                &&& final(self).states() == old(self).states()
                &&& final(self).cur() == 0
            },
            old(self).cur() != 0 ==> {
                let s = retire(old(self).states(), old(self).cur());
                &&& next_ready(s, old(self).cur()) is Some
                &&& r == Some((old(self).cur() as usize, next_ready(s, old(self).cur())->0 as usize))
                &&& final(self).states() == handoff(s, old(self).cur(), next_ready(s, old(self).cur())->0)
                &&& final(self).cur() == next_ready(s, old(self).cur())->0
            },
    {
        proof {
            self.lemma_views();
        }
        if self.current == 0 {
            return None;
        }
        let cur: usize = self.current;
        self.set_state(cur, State::Available);
        proof {
            let s = self.states();
            let n = s.len() as int;
            assert(s == retire(old(self).states(), cur as int));
            assert(ring_slot(cur as int, n - cur, n) == 0);
            lemma_scan_ready_finds(s, cur as int, 1, n - cur);
            lemma_next_ready_facts(s, cur as int);
        }
        let r = self.switch_away();
        proof {
            self.lemma_views();
        }
        r
    }

    /// Installs a task in the first `Available` block and makes it `Ready`: its
    /// context is set to jump to `entry` on a stack whose pointer is `stack_end`
    /// rounded down to the stack alignment, with `return_to` as return address, so
    /// that a return from the task's body lands there. `stack_end` is the address
    /// one past the last byte of that block's stack. Fails with `PoolExhausted`,
    /// changing nothing, when no block is `Available`.
    pub fn spawn(&mut self, entry: u64, return_to: u64, stack_end: u64) -> (r: Result<usize, PoolExhausted>)
        requires
            old(self).wf(),
        ensures
            final(self).wf(),
            final(self).cur() == old(self).cur(),
            final(self).stack_lens() == old(self).stack_lens(),
            match first_available(old(self).states()) {
                Some(i) => {
                    &&& r == Ok::<usize, PoolExhausted>(i as usize)
                    &&& final(self).states() == old(self).states().update(i, State::Ready)
                    &&& final(self).contexts() == old(self).contexts().update(
                        i,
                        old(self).contexts()[i].update(RA as int, return_to).update(
                            SP as int,
                            aligned_top(stack_end),
                        ).update(ENTRY as int, entry),
                    )
                },
                None => {
                    &&& r == Err::<usize, PoolExhausted>(PoolExhausted)
                    &&& final(self).states() == old(self).states()
                    &&& final(self).contexts() == old(self).contexts()
                },
            },
    {
        proof {
            self.lemma_views();
        }
        match self.next_available() {
            None => Err(PoolExhausted),
            Some(i) => {
                proof {
                    lemma_scan_available_facts(self.states(), 0);
                }
                let top: u64 = stack_end - stack_end % STACK_ALIGN;
                self.threads[i].ctx.prepare_entry(entry, return_to, top);
                self.threads[i].state = State::Ready;
                proof {
                    self.lemma_views();
                    assert(self.states() =~= old(self).states().update(i as int, State::Ready));
                    assert(self.contexts() =~= old(self).contexts().update(
                        i as int,
                        old(self).contexts()[i as int].update(RA as int, return_to).update(
                            SP as int,
                            aligned_top(stack_end),
                        ).update(ENTRY as int, entry),
                    ));
                    assert(self.stack_lens() =~= old(self).stack_lens());
                }
                Ok(i)
            },
        }
    }
}

/// What a scan for a `Ready` block finds is a `Ready` block other than `cur`.
pub proof fn lemma_scan_ready_facts(states: Seq<State>, cur: int, d: int)
    requires
        0 <= cur < states.len(),
        d >= 1,
    ensures
        scan_ready(states, cur, d) matches Some(j) ==> {
            &&& 0 <= j < states.len()
            &&& j != cur
            &&& states[j] == State::Ready
        },
    decreases states.len() - d,
{
    if d < states.len() && states[ring_slot(cur, d, states.len() as int)] != State::Ready {
        lemma_scan_ready_facts(states, cur, d + 1);
    }
}

/// What `next_ready` picks is a `Ready` block other than `cur`.
pub proof fn lemma_next_ready_facts(states: Seq<State>, cur: int)
    requires
        0 <= cur < states.len(),
    ensures
        next_ready(states, cur) matches Some(j) ==> {
            &&& 0 <= j < states.len()
            &&& j != cur
            &&& states[j] == State::Ready
        },
{
    lemma_scan_ready_facts(states, cur, 1);
}

/// A scan that has a `Ready` block ahead of it, `e` steps after `cur`, finds one.
pub proof fn lemma_scan_ready_finds(states: Seq<State>, cur: int, d: int, e: int)
    requires
        0 <= cur < states.len(),
        1 <= d <= e < states.len(),
        states[ring_slot(cur, e, states.len() as int)] == State::Ready,
    ensures
        scan_ready(states, cur, d) is Some,
    decreases e - d,
{
    if states[ring_slot(cur, d, states.len() as int)] != State::Ready {
        lemma_scan_ready_finds(states, cur, d + 1, e);
    }
}

/// What a scan for an `Available` block finds is an `Available` block.
pub proof fn lemma_scan_available_facts(states: Seq<State>, i: int)
    requires
        i >= 0,
    ensures
        scan_available(states, i) matches Some(k) ==> {
            &&& i <= k < states.len()
            &&& states[k] == State::Available
        },
    decreases states.len() - i,
{
    if i < states.len() && states[i] != State::Available {
        lemma_scan_available_facts(states, i + 1);
    }
}

} // verus!
