use vstd::prelude::*;

use crate::model::{
    first_available, handoff, next_ready, pool_ok, retire, ring_slot, scan_available,
    scan_ready,
};
use crate::runtime::{lemma_next_ready_facts, lemma_scan_ready_finds};
use crate::thread::State;

verus! {

/// One turn of a pool whose tasks each yield a fixed number of times and then
/// return, as the scheduler plays it: `left[k]` is how many yields the task of block
/// `k` still makes. The main block yields (`Runtime::t_yield`); a task with yields
/// left yields; a task with none returns (`Runtime::t_return`). The result is the
/// new states, running block and counts.
pub open spec fn turn(states: Seq<State>, cur: int, left: Seq<nat>) -> (Seq<State>, int, Seq<nat>) {
    if cur == 0 {
        match next_ready(states, cur) {
            Some(j) => (handoff(states, cur, j), j, left),
            None => (states, cur, left),
        }
    } else if left[cur] > 0 {
        let fewer = left.update(cur, (left[cur] - 1) as nat);
        match next_ready(states, cur) {
            Some(j) => (handoff(states, cur, j), j, fewer),
            None => (states, cur, fewer),
        }
    } else {
        let s = retire(states, cur);
        match next_ready(s, cur) {
            Some(j) => (handoff(s, cur, j), j, left),
            None => (s, cur, left),
        }
    }
}

/// The pool after `n` turns.
pub open spec fn turns(states: Seq<State>, cur: int, left: Seq<nat>, n: nat) -> (
    Seq<State>,
    int,
    Seq<nat>,
)
    decreases n,
{
    if n == 0 {
        (states, cur, left)
    } else {
        let p = turn(states, cur, left);
        turns(p.0, p.1, p.2, (n - 1) as nat)
    }
}

/// The scheduling loop is over: the main block runs and finds no `Ready` block.
pub open spec fn finished(states: Seq<State>, cur: int) -> bool {
    cur == 0 && next_ready(states, cur) is None
}

/// Every block other than the main one is `Available`.
pub open spec fn all_returned(states: Seq<State>) -> bool {
    forall|k: int| 1 <= k < states.len() ==> states[k] == State::Available
}

/// What block `k` still owes the run: nothing when it is free, else its yields and
/// its return.
pub open spec fn owed(states: Seq<State>, left: Seq<nat>, k: int) -> nat {
    if states[k] != State::Available {
        left[k] + 1
    } else {
        0
    }
}

/// What the blocks `1` to `m - 1` owe together.
pub open spec fn work(states: Seq<State>, left: Seq<nat>, m: int) -> nat
    decreases m,
{
    if m <= 1 {
        0
    } else {
        work(states, left, m - 1) + owed(states, left, m - 1)
    }
}

/// A measure that every turn before the end lowers.
pub open spec fn measure(states: Seq<State>, cur: int, left: Seq<nat>) -> nat {
    2 * work(states, left, states.len() as int) + if cur == 0 {
        1nat
    } else {
        0nat
    }
}

proof fn lemma_work_update(s1: Seq<State>, l1: Seq<nat>, s2: Seq<State>, l2: Seq<nat>, i: int, m: int)
    requires
        1 <= i,
        m <= s1.len(),
        s1.len() == s2.len(),
        s1.len() == l1.len(),
        s2.len() == l2.len(),
        forall|k: int| 1 <= k < s1.len() && k != i ==> owed(s1, l1, k) == owed(s2, l2, k),
    ensures
        i < m ==> work(s2, l2, m) + owed(s1, l1, i) == work(s1, l1, m) + owed(s2, l2, i),
        i >= m ==> work(s2, l2, m) == work(s1, l1, m),
    decreases m,
{
    if m > 1 {
        lemma_work_update(s1, l1, s2, l2, i, m - 1);
    }
}

/// A scan with no `Ready` block between steps `d` and `e` of the ring and one at
/// step `e` finds that one.
pub proof fn lemma_scan_ready_first(states: Seq<State>, cur: int, d: int, e: int)
    requires
        0 <= cur < states.len(),
        1 <= d <= e < states.len(),
        forall|x: int|
            d <= x < e ==> states[#[trigger] ring_slot(cur, x, states.len() as int)] != State::Ready,
        states[ring_slot(cur, e, states.len() as int)] == State::Ready,
    ensures
        scan_ready(states, cur, d) == Some(ring_slot(cur, e, states.len() as int)),
    decreases e - d,
{
    if d < e {
        assert(states[ring_slot(cur, d, states.len() as int)] != State::Ready);
        lemma_scan_ready_first(states, cur, d + 1, e);
    }
}

/// In a pool that satisfies the invariant, the scheduling loop is over exactly when
/// the main block runs and every other block is `Available`.
pub proof fn lemma_finished_iff_all_returned(states: Seq<State>, cur: int)
    requires
        pool_ok(states, cur),
    ensures
        finished(states, cur) <==> (cur == 0 && all_returned(states)),
{
    if cur == 0 {
        lemma_next_ready_facts(states, 0);
        if exists|k: int| 1 <= k < states.len() && states[k] != State::Available {
            let k = choose|k: int| 1 <= k < states.len() && states[k] != State::Available;
            assert(states[k] == State::Ready);
            assert(ring_slot(0, k, states.len() as int) == k);
            lemma_scan_ready_finds(states, 0, 1, k);
        }
    }
}

/// A turn keeps the scheduler's invariant and, unless the loop is over, lowers the
/// measure.
pub proof fn lemma_turn_progress(states: Seq<State>, cur: int, left: Seq<nat>)
    requires
        pool_ok(states, cur),
        left.len() == states.len(),
    ensures
        pool_ok(turn(states, cur, left).0, turn(states, cur, left).1),
        turn(states, cur, left).2.len() == states.len(),
        turn(states, cur, left).0.len() == states.len(),
        !finished(states, cur) ==> measure(
            turn(states, cur, left).0,
            turn(states, cur, left).1,
            turn(states, cur, left).2,
        ) < measure(states, cur, left),
{
    let n = states.len() as int;
    let p = turn(states, cur, left);
    lemma_next_ready_facts(states, cur);
    if cur == 0 {
        if let Some(j) = next_ready(states, cur) {
            lemma_work_update(states, left, p.0, p.2, j, n);
        }
    } else {
        assert(ring_slot(cur, n - cur, n) == 0);
        if left[cur] > 0 {
            lemma_scan_ready_finds(states, cur, 1, n - cur);
            let j = next_ready(states, cur)->0;
            let mid = states.update(cur, State::Ready);
            let fewer = left.update(cur, (left[cur] - 1) as nat);
            lemma_work_update(states, left, mid, fewer, cur, n);
            if j != 0 {
                lemma_work_update(mid, fewer, p.0, p.2, j, n);
            } else {
                lemma_work_update(mid, fewer, p.0, p.2, 1, 1);
                assert forall|k: int| 1 <= k < n implies owed(mid, fewer, k) == owed(p.0, p.2, k) by {}
                lemma_work_update(mid, fewer, p.0, p.2, n, n);
            }
        } else {
            let s = retire(states, cur);
            assert(s[0] == State::Ready);
            lemma_scan_ready_finds(s, cur, 1, n - cur);
            lemma_next_ready_facts(s, cur);
            let j = next_ready(s, cur)->0;
            lemma_work_update(states, left, s, left, cur, n);
            if j != 0 {
                lemma_work_update(s, left, p.0, p.2, j, n);
            } else {
                lemma_work_update(s, left, p.0, p.2, n, n);
            }
        }
    }
}

/// Liveness of the scheduling loop: from any pool that satisfies the scheduler's
/// invariant, whose tasks each yield a fixed number of times before returning, the
/// loop ends after finitely many turns, with every task returned and every block
/// other than the main one `Available`.
pub proof fn lemma_run_terminates(states: Seq<State>, cur: int, left: Seq<nat>)
    requires
        pool_ok(states, cur),
        left.len() == states.len(),
    ensures
        exists|n: nat|
            {
                let p = #[trigger] turns(states, cur, left, n);
                &&& finished(p.0, p.1)
                &&& p.1 == 0
                &&& all_returned(p.0)
            },
    decreases measure(states, cur, left),
{
    if finished(states, cur) {
        lemma_finished_iff_all_returned(states, cur);
        assert(turns(states, cur, left, 0) == (states, cur, left));
    } else {
        let p = turn(states, cur, left);
        lemma_turn_progress(states, cur, left);
        lemma_run_terminates(p.0, p.1, p.2);
        let n = choose|n: nat|
            {
                let q = #[trigger] turns(p.0, p.1, p.2, n);
                &&& finished(q.0, q.1)
                &&& q.1 == 0
                &&& all_returned(q.0)
            };
        assert(turns(states, cur, left, n + 1) == turns(p.0, p.1, p.2, n));
    }
}

/// In a pool that satisfies the scheduler's invariant, the running block is the
/// only `Running` one and it is the one that `current` names.
pub proof fn lemma_single_running(states: Seq<State>, cur: int, i: int)
    requires
        pool_ok(states, cur),
        0 <= i < states.len(),
    ensures
        states[i] == State::Running <==> i == cur,
{
}

/// The scan for an `Available` block finds the lowest one at or after `i`.
pub proof fn lemma_scan_available_first(states: Seq<State>, i: int, k: int)
    requires
        0 <= i <= k < states.len(),
        states[k] == State::Available,
        forall|x: int| i <= x < k ==> states[x] != State::Available,
    ensures
        scan_available(states, i) == Some(k),
    decreases k - i,
{
    if i < k {
        lemma_scan_available_first(states, i + 1, k);
    }
}

/// A task that returns gives up its block for good: the CPU passes to another
/// block, the returned block reads `Available`, and a spawn into a pool with no
/// lower `Available` block fills that very block again.
pub proof fn lemma_returned_block_is_reused(states: Seq<State>, cur: int)
    requires
        pool_ok(states, cur),
        cur != 0,
    ensures
        ({
            let s = retire(states, cur);
            let j = next_ready(s, cur)->0;
            &&& next_ready(s, cur) is Some
            &&& j != cur
            &&& handoff(s, cur, j)[cur] == State::Available
            &&& (forall|x: int| 0 <= x < cur ==> states[x] != State::Available) ==> first_available(
                handoff(s, cur, j),
            ) == Some(cur)
        }),
{
    let n = states.len() as int;
    let s = retire(states, cur);
    assert(ring_slot(cur, n - cur, n) == 0);
    lemma_scan_ready_finds(s, cur, 1, n - cur);
    lemma_next_ready_facts(s, cur);
    let j = next_ready(s, cur)->0;
    let s2 = handoff(s, cur, j);
    if forall|x: int| 0 <= x < cur ==> states[x] != State::Available {
        assert forall|x: int| 0 <= x < cur implies s2[x] != State::Available by {
            if x != j {
                assert(s2[x] == states[x]);
            }
        }
        lemma_scan_available_first(s2, 0, cur);
    }
}

/// Turns run in sequence: `a + b` turns are `a` turns, then `b` more.
pub proof fn lemma_turns_split(states: Seq<State>, cur: int, left: Seq<nat>, a: nat, b: nat)
    ensures
        turns(states, cur, left, a + b) == ({
            let p = turns(states, cur, left, a);
            turns(p.0, p.1, p.2, b)
        }),
    decreases a,
{
    if a > 0 {
        let p = turn(states, cur, left);
        lemma_turns_split(p.0, p.1, p.2, (a - 1) as nat, b);
        assert((a + b - 1) as nat == (a - 1) as nat + b);
    }
}

/// A pool of `c` blocks whose main block runs while blocks 1 and 2 hold tasks
/// ready to run; every other block is free.
pub open spec fn two_task_states(c: int) -> Seq<State> {
    Seq::new(
        c as nat,
        |i: int|
            if i == 0 {
                State::Running
            } else if i <= 2 {
                State::Ready
            } else {
                State::Available
            },
    )
}

/// Yields still to make when the tasks of blocks 1 and 2 each have `y` left.
pub open spec fn two_task_left(c: int, y: nat) -> Seq<nat> {
    Seq::new(c as nat, |i: int| if 1 <= i <= 2 { y } else { 0 })
}

proof fn lemma_two_task_round(c: int, m: nat)
    requires
        c >= 3,
    ensures
        turns(two_task_states(c), 0, two_task_left(c, m), 1).1 == 1,
        turns(two_task_states(c), 0, two_task_left(c, m), 2).1 == 2,
        m > 0 ==> turns(two_task_states(c), 0, two_task_left(c, m), 3) == (
            two_task_states(c),
            0int,
            two_task_left(c, (m - 1) as nat),
        ),
        m == 0 ==> ({
            let p = turns(two_task_states(c), 0, two_task_left(c, m), 3);
            &&& p.1 == 0
            &&& finished(p.0, p.1)
            &&& all_returned(p.0)
        }),
{
    let st = two_task_states(c);
    let l = two_task_left(c, m);
    lemma_scan_ready_first(st, 0, 1, 1);
    let p1 = turn(st, 0, l);
    assert(p1.1 == 1);
    assert(turns(st, 0, l, 1) == turns(p1.0, p1.1, p1.2, 0));
    let s1 = st.update(0, State::Ready).update(1, State::Running);
    assert(p1.0 == s1);
    let p2 = turn(p1.0, p1.1, p1.2);
    let p3 = turn(p2.0, p2.1, p2.2);
    assert(turns(p2.0, p2.1, p2.2, 1) == turns(p3.0, p3.1, p3.2, 0));
    assert(turns(p1.0, p1.1, p1.2, 1) == turns(p2.0, p2.1, p2.2, 0));
    assert(turns(p1.0, p1.1, p1.2, 2) == turns(p2.0, p2.1, p2.2, 1));
    assert(turns(st, 0, l, 2) == turns(p1.0, p1.1, p1.2, 1));
    assert(turns(st, 0, l, 3) == turns(p1.0, p1.1, p1.2, 2));
    assert forall|x: int| 1 <= x < c - 2 implies #[trigger] ring_slot(2, x, c) == x + 2 by {}
    if m > 0 {
        lemma_scan_ready_first(s1, 1, 1, 1);
        let s2 = s1.update(1, State::Ready).update(2, State::Running);
        assert(p2.0 == s2);
        assert(p2.1 == 2);
        lemma_scan_ready_first(s2, 2, 1, c - 2);
        assert(p3.0 =~= st);
        assert(p3.2 =~= two_task_left(c, (m - 1) as nat));
    } else {
        let r1 = s1.update(1, State::Available);
        lemma_scan_ready_first(r1, 1, 1, 1);
        let s2 = r1.update(2, State::Running);
        assert(p2.0 == s2);
        assert(p2.1 == 2);
        let r2 = s2.update(2, State::Available);
        lemma_scan_ready_first(r2, 2, 1, c - 2);
        assert(p3.0 == r2.update(0, State::Running));
        assert(pool_ok(p3.0, 0));
        assert(all_returned(p3.0));
        lemma_finished_iff_all_returned(p3.0, 0);
    }
}

/// Round-robin fairness: in a pool of `c >= 3` blocks whose tasks in blocks 1 and
/// 2 each yield `y` times, the CPU goes to blocks 1, 2, 0, 1, 2, 0, ... in that
/// order: after `t` turns block `t % 3` runs. After `3 * (y + 1)` turns both tasks
/// have returned and the loop is over.
pub proof fn lemma_two_tasks_alternate(c: int, y: nat, t: nat)
    requires
        c >= 3,
        t <= 3 * (y + 1),
    ensures
        turns(two_task_states(c), 0, two_task_left(c, y), t).1 == t % 3,
        t == 3 * (y + 1) ==> ({
            let p = turns(two_task_states(c), 0, two_task_left(c, y), t);
            &&& finished(p.0, p.1)
            &&& all_returned(p.0)
        }),
    decreases y,
{
    lemma_two_task_round(c, y);
    if t == 0 {
        assert(turns(two_task_states(c), 0, two_task_left(c, y), 0).1 == 0);
    } else if t >= 3 {
        if y > 0 {
            lemma_turns_split(two_task_states(c), 0, two_task_left(c, y), 3, (t - 3) as nat);
            lemma_two_tasks_alternate(c, (y - 1) as nat, (t - 3) as nat);
        }
    }
}

} // verus!
