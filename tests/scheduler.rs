use green_threads::context::{CONTEXT_SLOTS, ENTRY, RA, SP};
use green_threads::runtime::{DEFAULT_STACK_SIZE, MAX_THREADS};
use green_threads::{PoolExhausted, Runtime, State, Thread, ThreadContext};

const RET: u64 = 0xdead_0000;

fn states(rt: &Runtime) -> Vec<State> {
    (0..rt.capacity()).map(|i| rt.state(i)).collect()
}

fn assert_single_running(rt: &Runtime) {
    let running: Vec<usize> = (0..rt.capacity())
        .filter(|&i| rt.state(i) == State::Running)
        .collect();
    assert_eq!(running, vec![rt.current()]);
}

/// Plays the scheduling loop with tasks that each yield `yields[k]` times before
/// returning, and gives the blocks that got the CPU, one per switch.
fn play(rt: &mut Runtime, yields: &mut Vec<u64>) -> Vec<usize> {
    let mut trace = Vec::new();
    loop {
        let cur = rt.current();
        let step = if cur == 0 {
            rt.t_yield()
        } else if yields[cur] > 0 {
            yields[cur] -= 1;
            rt.t_yield()
        } else {
            rt.t_return()
        };
        assert_single_running(rt);
        match step {
            Some((from, to)) => {
                assert_eq!(from, cur);
                trace.push(to);
            }
            None => {
                assert_eq!(cur, 0);
                return trace;
            }
        }
    }
}

#[test]
fn new_pool_has_main_running_and_rest_available() {
    let rt = Runtime::new();
    assert_eq!(rt.capacity(), MAX_THREADS);
    assert_eq!(rt.current(), 0);
    assert_eq!(
        states(&rt),
        vec![State::Running, State::Available, State::Available, State::Available]
    );
    for i in 0..MAX_THREADS {
        assert_eq!(rt.stack(i).len(), DEFAULT_STACK_SIZE);
        assert_eq!(rt.context(i).regs, [0u64; CONTEXT_SLOTS]);
    }
}

#[test]
fn pool_construction_is_the_same_every_time() {
    for cap in 1..7usize {
        for _ in 0..2 {
            let rt = Runtime::with_capacity(cap, 256);
            assert_eq!(rt.capacity(), cap);
            assert_eq!(rt.current(), 0);
            assert_eq!(rt.state(0), State::Running);
            for i in 1..cap {
                assert_eq!(rt.state(i), State::Available);
            }
            for i in 0..cap {
                assert_eq!(rt.stack(i).len(), 256);
                assert!(rt.stack(i).iter().all(|&b| b == 0));
            }
        }
    }
}

#[test]
fn spawn_on_exhausted_pool_fails() {
    let mut rt = Runtime::with_capacity(1, 64);
    assert_eq!(rt.next_available(), None);
    assert_eq!(rt.spawn(0x1000, RET, 0x2000), Err(PoolExhausted));
    assert_eq!(states(&rt), vec![State::Running]);
    assert_eq!(rt.context(0).regs, [0u64; CONTEXT_SLOTS]);
}

#[test]
fn spawn_fails_once_every_block_is_taken() {
    let mut rt = Runtime::with_capacity(3, 64);
    assert_eq!(rt.spawn(0x1000, RET, 0x8000), Ok(1));
    assert_eq!(rt.spawn(0x2000, RET, 0x9000), Ok(2));
    assert_eq!(rt.spawn(0x3000, RET, 0xa000), Err(PoolExhausted));
    assert_eq!(states(&rt), vec![State::Running, State::Ready, State::Ready]);
}

#[test]
fn spawn_seeds_entry_return_address_and_aligned_stack() {
    let mut rt = Runtime::with_capacity(4, 64);
    assert_eq!(rt.next_available(), Some(1));
    assert_eq!(rt.spawn(0x4000_1234, RET, 0x1234_567f), Ok(1));
    let ctx = rt.context(1);
    assert_eq!(ctx.entry(), 0x4000_1234);
    assert_eq!(ctx.return_address(), RET);
    assert_eq!(ctx.stack_pointer(), 0x1234_5670);
    assert_eq!(ctx.regs[ENTRY], 0x4000_1234);
    assert_eq!(ctx.regs[RA], RET);
    assert_eq!(ctx.regs[SP], 0x1234_5670);
    for k in 2..ENTRY {
        assert_eq!(ctx.regs[k], 0);
    }
    assert_eq!(rt.state(1), State::Ready);
    assert_eq!(rt.current(), 0);
    assert_eq!(rt.next_available(), Some(2));
}

#[test]
fn spawn_keeps_an_aligned_stack_end() {
    let mut rt = Runtime::with_capacity(2, 64);
    assert_eq!(rt.spawn(1, 2, 0x7000), Ok(1));
    assert_eq!(rt.context(1).stack_pointer(), 0x7000);
}

#[test]
fn yield_with_nothing_ready_changes_nothing() {
    let mut rt = Runtime::with_capacity(4, 64);
    assert_eq!(rt.t_yield(), None);
    assert_eq!(rt.current(), 0);
    assert_eq!(
        states(&rt),
        vec![State::Running, State::Available, State::Available, State::Available]
    );
}

#[test]
fn return_on_main_block_is_a_no_op() {
    let mut rt = Runtime::with_capacity(3, 64);
    rt.spawn(0x1000, RET, 0x8000).unwrap();
    assert_eq!(rt.t_return(), None);
    assert_eq!(rt.current(), 0);
    assert_eq!(states(&rt), vec![State::Running, State::Ready, State::Available]);
}

#[test]
fn four_block_scenario_follows_round_robin() {
    let mut rt = Runtime::with_capacity(4, 4096);
    assert_eq!(rt.spawn(0x1000, RET, 0x10_0000), Ok(1));
    assert_eq!(rt.spawn(0x2000, RET, 0x20_0000), Ok(2));

    // main gives T1 its first turn
    assert_eq!(rt.t_yield(), Some((0, 1)));
    assert_eq!(
        states(&rt),
        vec![State::Ready, State::Running, State::Ready, State::Available]
    );
    // T1 yields (1 of 3), T2 yields (1 of 2)
    assert_eq!(rt.t_yield(), Some((1, 2)));
    assert_eq!(rt.t_yield(), Some((2, 0)));
    assert_eq!(
        states(&rt),
        vec![State::Running, State::Ready, State::Ready, State::Available]
    );
    assert_eq!(rt.t_yield(), Some((0, 1)));
    // T1 yields (2 of 3), T2 yields (2 of 2)
    assert_eq!(rt.t_yield(), Some((1, 2)));
    assert_eq!(rt.t_yield(), Some((2, 0)));
    assert_eq!(rt.t_yield(), Some((0, 1)));
    // T1 yields (3 of 3); T2 returns
    assert_eq!(rt.t_yield(), Some((1, 2)));
    assert_eq!(rt.t_return(), Some((2, 0)));
    assert_eq!(
        states(&rt),
        vec![State::Running, State::Ready, State::Available, State::Available]
    );
    assert_eq!(rt.t_yield(), Some((0, 1)));
    // T1 returns
    assert_eq!(rt.t_return(), Some((1, 0)));
    assert_eq!(
        states(&rt),
        vec![State::Running, State::Available, State::Available, State::Available]
    );
    // nothing is ready: the loop is over
    assert_eq!(rt.t_yield(), None);
    assert_eq!(rt.current(), 0);
}

#[test]
fn four_block_scenario_trace() {
    let mut rt = Runtime::with_capacity(4, 4096);
    rt.spawn(0x1000, RET, 0x10_0000).unwrap();
    rt.spawn(0x2000, RET, 0x20_0000).unwrap();
    let mut yields = vec![0, 3, 2, 0];
    let trace = play(&mut rt, &mut yields);
    assert_eq!(trace, vec![1, 2, 0, 1, 2, 0, 1, 2, 0, 1, 0]);
}

#[test]
fn two_tasks_alternate_in_index_order() {
    for n in 0..6u64 {
        for cap in 3..7usize {
            let mut rt = Runtime::with_capacity(cap, 64);
            rt.spawn(0xa000, RET, 0x1_0000).unwrap();
            rt.spawn(0xb000, RET, 0x2_0000).unwrap();
            let mut yields = vec![0u64; cap];
            yields[1] = n;
            yields[2] = n;
            let trace = play(&mut rt, &mut yields);
            let expected: Vec<usize> = (0..3 * (n as usize + 1)).map(|t| (t + 1) % 3).collect();
            assert_eq!(trace, expected);
        }
    }
}

#[test]
fn run_ends_with_every_task_returned() {
    for cap in 2..7usize {
        let mut rt = Runtime::with_capacity(cap, 64);
        let mut yields = vec![0u64; cap];
        let mut k = 1;
        while rt.next_available().is_some() {
            let i = rt.spawn(0x1000 * k as u64, RET, 0x10_0000).unwrap();
            yields[i] = (k * 3 % 5) as u64;
            k += 1;
        }
        let trace = play(&mut rt, &mut yields);
        assert_eq!(trace.last(), Some(&0));
        assert_eq!(rt.current(), 0);
        for i in 1..cap {
            assert_eq!(rt.state(i), State::Available);
        }
    }
}

#[test]
fn returned_block_is_reused_by_next_spawn() {
    let mut rt = Runtime::with_capacity(4, 64);
    assert_eq!(rt.spawn(0x1000, RET, 0x10_0008), Ok(1));
    assert_eq!(rt.spawn(0x2000, RET, 0x20_0008), Ok(2));
    assert_eq!(rt.t_yield(), Some((0, 1)));
    // the task of block 1 returns: its block is free at once
    assert_eq!(rt.t_return(), Some((1, 2)));
    assert_eq!(rt.state(1), State::Available);
    assert_eq!(rt.next_available(), Some(1));
    // a task spawned now fills that very block with a fresh context
    assert_eq!(rt.spawn(0x3000, RET, 0x10_0008), Ok(1));
    assert_eq!(rt.context(1).entry(), 0x3000);
    assert_eq!(rt.context(1).stack_pointer(), 0x10_0000);
    assert_eq!(rt.state(1), State::Ready);
    assert_single_running(&rt);
}

#[test]
fn returned_block_is_never_resumed() {
    let mut rt = Runtime::with_capacity(3, 64);
    rt.spawn(0x1000, RET, 0x8000).unwrap();
    rt.spawn(0x2000, RET, 0x9000).unwrap();
    assert_eq!(rt.t_yield(), Some((0, 1)));
    assert_eq!(rt.t_return(), Some((1, 2)));
    for _ in 0..10 {
        let step = rt.t_yield().unwrap();
        assert_ne!(step.1, 1);
        assert_eq!(rt.state(1), State::Available);
    }
}

#[test]
fn thread_and_context_start_zeroed() {
    let t = Thread::new(128);
    assert_eq!(t.stack.len(), 128);
    assert!(t.stack.iter().all(|&b| b == 0));
    assert_eq!(t.state, State::Available);
    assert_eq!(t.ctx.regs, [0u64; CONTEXT_SLOTS]);
    let u = Thread::with_state(16, State::Running);
    assert_eq!(u.state, State::Running);
    assert_eq!(u.stack.len(), 16);
}

#[test]
fn prepare_entry_sets_three_slots() {
    let mut c = ThreadContext::new();
    c.regs[5] = 77;
    c.prepare_entry(0x42, 0x43, 0x40);
    assert_eq!(c.entry(), 0x42);
    assert_eq!(c.return_address(), 0x43);
    assert_eq!(c.stack_pointer(), 0x40);
    assert_eq!(c.regs[5], 77);
}
