//! Facts about the machine that the executable scheduler relies on.

use vstd::prelude::*;
use crate::model::{
    admission_order, admitted_before, chronological, contiguous, executed, is_admission_order,
    is_next_event, next_event, slice_len, sum_to, total, work_to, IntervalModel, Machine,
    ProcessModel,
};

verus! {

/// The sum of more entries is no less than the sum of fewer.
pub proof fn lemma_sum_to_monotone(s: Seq<nat>, a: nat, b: nat)
    requires
        a <= b,
    ensures
        sum_to(s, a) <= sum_to(s, b),
    decreases b,
{
    if a < b {
        lemma_sum_to_monotone(s, a, (b - 1) as nat);
    }
}

/// The CPU time that a process has received never exceeds what it declared.
pub proof fn lemma_consumed_bounded(p: ProcessModel)
    requires
        p.burst_index <= p.cpu_bursts.len(),
        p.burst_index < p.cpu_bursts.len() ==> p.remaining <= p.cpu_bursts[p.burst_index as int],
    ensures
        p.consumed() <= total(p.cpu_bursts),
        p.consumed() + p.work_left() == total(p.cpu_bursts),
{
    if p.burst_index < p.cpu_bursts.len() {
        lemma_sum_to_monotone(p.cpu_bursts, p.burst_index + 1, p.cpu_bursts.len());
    }
}

/// Pushing an interval adds its length to the time of the process that it
/// names, and to no other.
pub proof fn lemma_executed_push(timeline: Seq<IntervalModel>, x: IntervalModel, pid: int)
    ensures
        executed(timeline.push(x), pid) == executed(timeline, pid) + if x.process == Some(pid) {
            (x.end - x.start) as nat
        } else {
            0
        },
{
    assert(timeline.push(x).drop_last() =~= timeline);
}

/// Tables that agree on the work left to each of the first `k` processes
/// agree on the sum.
pub proof fn lemma_work_to_same(ps: Seq<ProcessModel>, qs: Seq<ProcessModel>, k: nat)
    requires
        forall|j: int| 0 <= j < k ==> (#[trigger] qs[j]).work_left() == ps[j].work_left(),
    ensures
        work_to(qs, k) == work_to(ps, k),
    decreases k,
{
    if k > 0 {
        lemma_work_to_same(ps, qs, (k - 1) as nat);
    }
}

/// Tables that differ only in row `i` differ in the sum by what row `i`
/// differs.
pub proof fn lemma_work_to_update(ps: Seq<ProcessModel>, qs: Seq<ProcessModel>, i: int, k: nat)
    requires
        0 <= i < k,
        forall|j: int| 0 <= j < k && j != i ==> (#[trigger] qs[j]).work_left() == ps[j].work_left(),
    ensures
        work_to(qs, k) + ps[i].work_left() == work_to(ps, k) + qs[i].work_left(),
    decreases k,
{
    if k - 1 == i {
        lemma_work_to_same(ps, qs, (k - 1) as nat);
    } else {
        lemma_work_to_update(ps, qs, i, (k - 1) as nat);
    }
}

/// Two sequences that hold the same processes, each in the order in which
/// they enter the queue, are one sequence.
pub proof fn lemma_queue_order_unique(procs: Seq<ProcessModel>, q1: Seq<int>, q2: Seq<int>)
    requires
        forall|a: int, b: int|
            0 <= a < b < q1.len() ==> admitted_before(procs, #[trigger] q1[a], #[trigger] q1[b]),
        forall|a: int, b: int|
            0 <= a < b < q2.len() ==> admitted_before(procs, #[trigger] q2[a], #[trigger] q2[b]),
        forall|x: int| q1.contains(x) <==> q2.contains(x),
    ensures
        q1 == q2,
    decreases q1.len(),
{
    if q1.len() == 0 {
        if q2.len() > 0 {
            assert(q2.contains(q2[0]));
        }
        assert(q1 =~= q2);
    } else {
        let m1 = q1.last();
        assert(q1.contains(m1));
        let b = choose|b: int| 0 <= b < q2.len() && q2[b] == m1;
        let m2 = q2.last();
        assert(q2.contains(m2));
        let a = choose|a: int| 0 <= a < q1.len() && q1[a] == m2;
        if m1 != m2 {
            assert(admitted_before(procs, q2[b], q2[q2.len() - 1]));
            assert(admitted_before(procs, q1[a], q1[q1.len() - 1]));
        }
        let d1 = q1.drop_last();
        let d2 = q2.drop_last();
        assert forall|x: int| d1.contains(x) <==> d2.contains(x) by {
            if d1.contains(x) {
                let k = choose|k: int| 0 <= k < d1.len() && d1[k] == x;
                assert(q1[k] == x);
                assert(admitted_before(procs, q1[k], q1[q1.len() - 1]));
                assert(q1.contains(x));
                let j = choose|j: int| 0 <= j < q2.len() && q2[j] == x;
                assert(d2[j] == x);
            }
            if d2.contains(x) {
                let k = choose|k: int| 0 <= k < d2.len() && d2[k] == x;
                assert(q2[k] == x);
                assert(admitted_before(procs, q2[k], q2[q2.len() - 1]));
                assert(q2.contains(x));
                let j = choose|j: int| 0 <= j < q1.len() && q1[j] == x;
                assert(d1[j] == x);
            }
        }
        assert forall|a: int, b: int| 0 <= a < b < d1.len() implies admitted_before(
            procs,
            #[trigger] d1[a],
            #[trigger] d1[b],
        ) by {
            assert(admitted_before(procs, q1[a], q1[b]));
        }
        assert forall|a: int, b: int| 0 <= a < b < d2.len() implies admitted_before(
            procs,
            #[trigger] d2[a],
            #[trigger] d2[b],
        ) by {
            assert(admitted_before(procs, q2[a], q2[b]));
        }
        lemma_queue_order_unique(procs, d1, d2);
        assert(q1 =~= d1.push(m1));
        assert(q2 =~= d2.push(m2));
    }
}

/// There is one admission order, so a sequence that is one is the one.
pub proof fn lemma_admission_order_is(procs: Seq<ProcessModel>, clock: nat, order: Seq<int>)
    requires
        is_admission_order(procs, clock, order),
    ensures
        admission_order(procs, clock) == order,
{
    let c = admission_order(procs, clock);
    assert(is_admission_order(procs, clock, c));
    assert forall|x: int| c.contains(x) <==> order.contains(x) by {
        if c.contains(x) {
            let k = choose|k: int| 0 <= k < c.len() && c[k] == x;
            assert(procs[c[k]].is_due(clock));
        }
        if order.contains(x) {
            let k = choose|k: int| 0 <= k < order.len() && order[k] == x;
            assert(procs[order[k]].is_due(clock));
        }
    }
    lemma_queue_order_unique(procs, c, order);
}

/// There is one earliest moment, so a moment that is one is the one.
pub proof fn lemma_next_event_is(procs: Seq<ProcessModel>, t: nat)
    requires
        is_next_event(procs, t),
    ensures
        next_event(procs) == t,
{
    let c = next_event(procs);
    assert(is_next_event(procs, c));
}

/// A row that is sound stays sound as the clock moves on.
pub proof fn lemma_sound_later(p: ProcessModel, ix: int, clock: nat, later: nat)
    requires
        p.sound(ix, clock),
        clock <= later,
    ensures
        p.sound(ix, later),
{
}

/// A process that is due is sound in the ready queue, and owes what it owed.
pub proof fn lemma_readied_sound(p: ProcessModel, ix: int, clock: nat)
    requires
        p.sound(ix, clock),
        p.is_due(clock),
    ensures
        p.readied().sound(ix, clock),
        p.readied().consumed() == p.consumed(),
        p.readied().work_left() == p.work_left(),
{
    assert(sum_to(p.cpu_bursts, 0) == 0);
    assert(sum_to(p.io_waits, 0) == 0);
}

/// A ready process that is dispatched at `clock` and has run its slice by
/// `now` is sound again, has received the slice, and owes that much less.
pub proof fn lemma_after_slice_sound(
    p: ProcessModel,
    ix: int,
    before: nat,
    clock: nat,
    quantum: nat,
    now: nat,
)
    requires
        p.sound(ix, before),
        p.state is Ready,
        before <= clock,
        quantum > 0,
        clock + slice_len(p.remaining, quantum) <= now,
    ensures
        ({
            let d = slice_len(p.remaining, quantum);
            let q = p.dispatched(clock).after_slice(d, now);
            &&& d >= 1
            &&& q.sound(ix, now)
            &&& q.consumed() == p.consumed() + d
            &&& q.work_left() + d == p.work_left()
        }),
{
    let d = slice_len(p.remaining, quantum);
    let r = p.dispatched(clock);
    let q = r.after_slice(d, now);
    let bi = p.burst_index;
    lemma_consumed_bounded(p);
    assert(sum_to(p.cpu_bursts, bi + 1) == sum_to(p.cpu_bursts, bi) + p.cpu_bursts[bi as int]);
    if d < p.remaining {
        assert(q.consumed() == p.consumed() + d);
    } else if bi + 1 < p.cpu_bursts.len() {
        assert(sum_to(p.io_waits, bi + 1) == sum_to(p.io_waits, bi) + p.io_waits[bi as int]);
        assert(q.consumed() == p.consumed() + d);
        assert(q.waited() == p.waited() + p.io_waits[bi as int]);
    } else {
        assert(bi + 1 == p.cpu_bursts.len());
        assert(q.consumed() == total(p.cpu_bursts));
        assert(q.waited() == total(p.io_waits));
        assert(p.waited() == total(p.io_waits));
    }
    lemma_consumed_bounded(q);
}

/// Admission keeps the machine in order. It takes in every process that is
/// due, behind those that are in the queue, and changes neither the clock,
/// nor the timeline, nor the work that is left.
pub proof fn lemma_gather(s: Machine, order: Seq<int>)
    requires
        s.inv(),
        is_admission_order(s.procs, s.clock, order),
    ensures
        s.gather().inv(),
        s.gather().ready == s.ready + order,
        s.gather().work_left() == s.work_left(),
        s.gather().done() == s.done(),
        s.same_workload(s.gather()),
        forall|i: int|
            0 <= i < s.procs.len() ==> !(#[trigger] s.gather().procs[i]).is_due(s.clock),
{
    let g = s.gather();
    let n = s.procs.len();
    lemma_admission_order_is(s.procs, s.clock, order);
    assert forall|i: int| 0 <= i < n implies (#[trigger] g.procs[i]).sound(i, g.clock)
        && g.procs[i].work_left() == s.procs[i].work_left() && g.procs[i].consumed()
        == s.procs[i].consumed() by {
        assert(s.procs[i].sound(i, s.clock));
        if s.procs[i].is_due(s.clock) {
            lemma_readied_sound(s.procs[i], i, s.clock);
        }
    }
    lemma_work_to_same(s.procs, g.procs, n);
    assert forall|k: int| 0 <= k < g.ready.len() implies 0 <= #[trigger] g.ready[k] < n
        && g.procs[g.ready[k]].state is Ready by {
        if k < s.ready.len() {
            assert(g.ready[k] == s.ready[k]);
        } else {
            assert(g.ready[k] == order[k - s.ready.len()]);
        }
    }
    assert forall|a: int, b: int| 0 <= a < g.ready.len() && 0 <= b < g.ready.len() && a != b implies g.ready[a]
        != g.ready[b] by {
        let m = s.ready.len() as int;
        if a < m && b < m {
            assert(s.ready[a] != s.ready[b]);
        } else if a >= m && b >= m {
            if a < b {
                assert(admitted_before(s.procs, order[a - m], order[b - m]));
            } else {
                assert(admitted_before(s.procs, order[b - m], order[a - m]));
            }
        } else if a < m {
            assert(s.procs[s.ready[a]].state is Ready);
            assert(s.procs[order[b - m]].is_due(s.clock));
        } else {
            assert(s.procs[s.ready[b]].state is Ready);
            assert(s.procs[order[a - m]].is_due(s.clock));
        }
    }
    assert forall|i: int| 0 <= i < n && (#[trigger] g.procs[i]).state is Ready implies g.ready.contains(
        i,
    ) by {
        if s.procs[i].is_due(s.clock) {
            assert(order.contains(i));
            let k = choose|k: int| 0 <= k < order.len() && order[k] == i;
            assert(g.ready[s.ready.len() + k] == i);
        } else {
            assert(s.procs[i].state is Ready);
            assert(s.ready.contains(i));
            let k = choose|k: int| 0 <= k < s.ready.len() && s.ready[k] == i;
            assert(g.ready[k] == i);
        }
    }
    assert forall|i: int| 0 <= i < n implies #[trigger] executed(g.timeline, i)
        == g.procs[i].consumed() by {
        assert(executed(s.timeline, i) == s.procs[i].consumed());
    }
    assert(g.done() == s.done()) by {
        if s.done() {
            assert forall|i: int| 0 <= i < n implies (#[trigger] g.procs[i]).state is Finished by {
                assert(s.procs[i].state is Finished);
            }
        }
        if g.done() {
            assert forall|i: int| 0 <= i < n implies (#[trigger] s.procs[i]).state is Finished by {
                assert(g.procs[i].state is Finished);
            }
        }
    }
}

/// Moving the clock forward keeps the machine in order.
pub proof fn lemma_jump(s: Machine, t: nat)
    requires
        s.inv(),
        s.clock <= t,
    ensures
        (Machine { clock: t, ..s }).inv(),
{
    let j = Machine { clock: t, ..s };
    assert forall|i: int| 0 <= i < j.procs.len() implies (#[trigger] j.procs[i]).sound(
        i,
        j.clock,
    ) by {
        lemma_sound_later(s.procs[i], i, s.clock, t);
    }
}

/// Handing the CPU to the head of the queue and letting it run its slice
/// keeps the machine in order, brings the timeline up to the clock, and
/// takes a positive amount from the work that is left.
pub proof fn lemma_run_head(s: Machine)
    requires
        s.inv(),
        s.ready.len() > 0,
    ensures
        s.dispatch().execute(s.ready[0]).inv(),
        s.dispatch().execute(s.ready[0]).settled(),
        s.dispatch().execute(s.ready[0]).work_left() < s.work_left(),
        s.same_workload(s.dispatch().execute(s.ready[0])),
{
    let i = s.ready[0];
    let n = s.procs.len();
    let p = s.procs[i];
    assert(p.sound(i, s.clock));
    let m = s.dispatch();
    let r = m.execute(i);
    let d = slice_len(p.remaining, s.quantum);
    let end = s.clock + d;
    let now = r.clock;
    let q = r.procs[i];
    assert(m.procs[i] == p.dispatched(s.clock));
    assert(q == p.dispatched(s.clock).after_slice(d, now));
    lemma_after_slice_sound(p, i, s.clock, s.clock, s.quantum, now);
    assert forall|j: int| 0 <= j < n implies (#[trigger] r.procs[j]).sound(j, r.clock) by {
        if j != i {
            assert(r.procs[j] == s.procs[j]);
            lemma_sound_later(s.procs[j], j, s.clock, now);
        }
    }
    lemma_work_to_update(s.procs, r.procs, i, n);
    let rest = s.ready.drop_first();
    assert forall|k: int| 0 <= k < rest.len() implies rest[k] != i && 0 <= rest[k] < n
        && s.procs[rest[k]].state is Ready by {
        assert(rest[k] == s.ready[k + 1]);
    }
    assert forall|k: int| 0 <= k < r.ready.len() implies 0 <= #[trigger] r.ready[k] < n
        && r.procs[r.ready[k]].state is Ready by {
        if k < rest.len() {
            assert(r.ready[k] == rest[k]);
        }
    }
    assert forall|a: int, b: int| 0 <= a < r.ready.len() && 0 <= b < r.ready.len() && a != b implies r.ready[a]
        != r.ready[b] by {
        if a < rest.len() && b < rest.len() {
            assert(s.ready[a + 1] != s.ready[b + 1]);
        }
    }
    assert forall|j: int| 0 <= j < n && (#[trigger] r.procs[j]).state is Ready implies r.ready.contains(
        j,
    ) by {
        if j != i {
            assert(s.procs[j].state is Ready);
            assert(s.ready.contains(j));
            let k = choose|k: int| 0 <= k < s.ready.len() && s.ready[k] == j;
            assert(rest[k - 1] == j);
            assert(r.ready[k - 1] == j);
        } else {
            assert(r.ready[rest.len() as int] == i);
        }
    }
    let ran = IntervalModel { start: s.clock, end, process: Some(i) };
    let with_ran = s.timeline.push(ran);
    assert forall|j: int| 0 <= j < n implies #[trigger] executed(r.timeline, j)
        == r.procs[j].consumed() by {
        assert(executed(s.timeline, j) == s.procs[j].consumed());
        lemma_executed_push(s.timeline, ran, j);
        if !m.is_last_slice(i) {
            lemma_executed_push(with_ran, IntervalModel { start: end, end: now, process: None }, j);
        }
    }
    assert(chronological(r.timeline));
}

/// What one slice adds to the timeline: the old intervals stay, the new ones
/// begin at the clock, and the whole is without gaps if and only if it was
/// so before and the clock had not moved past its end.
pub proof fn lemma_run_head_timeline(s: Machine)
    requires
        s.inv(),
        s.ready.len() > 0,
    ensures
        ({
            let r = s.dispatch().execute(s.ready[0]);
            let len = s.timeline.len() as int;
            &&& r.timeline.len() > len
            &&& r.timeline.subrange(0, len) == s.timeline
            &&& r.timeline[len].start == s.clock
            &&& (contiguous(r.timeline) <==> contiguous(s.timeline) && (len > 0 ==> s.timeline[len
                - 1].end == s.clock))
        }),
{
    let i = s.ready[0];
    let r = s.dispatch().execute(i);
    let len = s.timeline.len() as int;
    assert(r.timeline.subrange(0, len) =~= s.timeline);
    if contiguous(r.timeline) {
        assert forall|a: int, b: int| 0 <= a && b == a + 1 && b < len implies (
        #[trigger] s.timeline[a]).end == (#[trigger] s.timeline[b]).start by {
            assert(r.timeline[a].end == r.timeline[b].start);
        }
        if len > 0 {
            assert(r.timeline[len - 1].end == r.timeline[len].start);
        }
    }
    if contiguous(s.timeline) && (len > 0 ==> s.timeline[len - 1].end == s.clock) {
        assert forall|a: int, b: int| 0 <= a && b == a + 1 && b < r.timeline.len() implies (
        #[trigger] r.timeline[a]).end == (#[trigger] r.timeline[b]).start by {
            if b < len {
                assert(s.timeline[a].end == s.timeline[b].start);
            }
        }
    }
}

/// Once every process has finished, further rounds change nothing.
pub proof fn lemma_steps_stay(s: Machine, n: nat, m: nat)
    requires
        s.steps(n).done(),
        n <= m,
    ensures
        s.steps(m) == s.steps(n),
    decreases m,
{
    if n < m {
        lemma_steps_stay(s, n, (m - 1) as nat);
    }
}

/// The machine that has finished after `n` rounds is the finished machine.
pub proof fn lemma_finished_is(s: Machine, n: nat)
    requires
        s.steps(n).done(),
    ensures
        s.finished() == s.steps(n),
{
    let c = choose|c: nat| #[trigger] s.steps(c).done();
    if c <= n {
        lemma_steps_stay(s, c, n);
    } else {
        lemma_steps_stay(s, n, c);
    }
}

/// A run that has finished after `n` rounds idles midway exactly if one of
/// those rounds found the processor stalled.
pub proof fn lemma_idles_midway_iff(s: Machine, n: nat)
    requires
        s.steps(n).done(),
    ensures
        s.idles_midway() <==> exists|m: nat| m < n && (#[trigger] s.steps(m)).stalls(),
{
    if s.idles_midway() {
        let m = choose|m: nat| (#[trigger] s.steps(m)).stalls();
        if m >= n {
            lemma_steps_stay(s, n, m);
        }
    }
}

/// A process can be put into a sequence that is in queue order so that the
/// sequence stays in queue order.
pub proof fn lemma_insert_in_order(procs: Seq<ProcessModel>, q: Seq<int>, x: int) -> (r: Seq<int>)
    requires
        forall|a: int, b: int|
            0 <= a < b < q.len() ==> admitted_before(procs, #[trigger] q[a], #[trigger] q[b]),
        !q.contains(x),
    ensures
        forall|a: int, b: int|
            0 <= a < b < r.len() ==> admitted_before(procs, #[trigger] r[a], #[trigger] r[b]),
        forall|y: int| r.contains(y) <==> (q.contains(y) || y == x),
    decreases q.len(),
{
    if q.len() == 0 {
        let r = q.push(x);
        assert forall|y: int| r.contains(y) <==> (q.contains(y) || y == x) by {
            if r.contains(y) {
                let k = choose|k: int| 0 <= k < r.len() && r[k] == y;
            }
            if y == x {
                assert(r[0] == x);
            }
        }
        r
    } else {
        let last = q.last();
        let front = q.drop_last();
        assert(q.contains(last));
        assert forall|y: int| q.contains(y) <==> (front.contains(y) || y == last) by {
            if q.contains(y) {
                let k = choose|k: int| 0 <= k < q.len() && q[k] == y;
                if k < front.len() {
                    assert(front[k] == y);
                }
            }
            if front.contains(y) {
                let k = choose|k: int| 0 <= k < front.len() && front[k] == y;
                assert(q[k] == y);
            }
        }
        if admitted_before(procs, last, x) {
            let r = q.push(x);
            assert forall|a: int, b: int| 0 <= a < b < r.len() implies admitted_before(
                procs,
                #[trigger] r[a],
                #[trigger] r[b],
            ) by {
                if b == q.len() {
                    if a < q.len() - 1 {
                        assert(admitted_before(procs, q[a], q[q.len() - 1]));
                    }
                } else {
                    assert(admitted_before(procs, q[a], q[b]));
                }
            }
            assert forall|y: int| r.contains(y) <==> (q.contains(y) || y == x) by {
                if r.contains(y) {
                    let k = choose|k: int| 0 <= k < r.len() && r[k] == y;
                    if k < q.len() {
                        assert(q[k] == y);
                    }
                }
                if q.contains(y) {
                    let k = choose|k: int| 0 <= k < q.len() && q[k] == y;
                    assert(r[k] == y);
                }
                if y == x {
                    assert(r[q.len() as int] == x);
                }
            }
            r
        } else {
            assert forall|a: int, b: int| 0 <= a < b < front.len() implies admitted_before(
                procs,
                #[trigger] front[a],
                #[trigger] front[b],
            ) by {
                assert(admitted_before(procs, q[a], q[b]));
            }
            let inner = lemma_insert_in_order(procs, front, x);
            let r = inner.push(last);
            assert forall|a: int, b: int| 0 <= a < b < r.len() implies admitted_before(
                procs,
                #[trigger] r[a],
                #[trigger] r[b],
            ) by {
                if b == inner.len() {
                    assert(inner.contains(inner[a]));
                    if inner[a] != x {
                        let k = choose|k: int| 0 <= k < front.len() && front[k] == inner[a];
                        assert(admitted_before(procs, q[k], q[q.len() - 1]));
                    }
                } else {
                    assert(admitted_before(procs, inner[a], inner[b]));
                }
            }
            assert forall|y: int| r.contains(y) <==> (q.contains(y) || y == x) by {
                if r.contains(y) {
                    let k = choose|k: int| 0 <= k < r.len() && r[k] == y;
                    if k < inner.len() {
                        assert(inner[k] == y);
                        assert(inner.contains(y));
                    }
                }
                if front.contains(y) || y == x {
                    assert(inner.contains(y));
                    let k = choose|k: int| 0 <= k < inner.len() && inner[k] == y;
                    assert(r[k] == y);
                }
                if y == last {
                    assert(r[inner.len() as int] == last);
                }
            }
            r
        }
    }
}

/// The processes among the first `n` that are due can be put in queue
/// order.
pub proof fn lemma_due_in_order(procs: Seq<ProcessModel>, clock: nat, n: nat) -> (q: Seq<int>)
    requires
        n <= procs.len(),
    ensures
        forall|a: int, b: int|
            0 <= a < b < q.len() ==> admitted_before(procs, #[trigger] q[a], #[trigger] q[b]),
        forall|y: int| q.contains(y) <==> (0 <= y < n && procs[y].is_due(clock)),
    decreases n,
{
    if n == 0 {
        let q = Seq::<int>::empty();
        assert forall|y: int| q.contains(y) <==> (0 <= y < n && procs[y].is_due(clock)) by {
            if q.contains(y) {
                let k = choose|k: int| 0 <= k < q.len() && q[k] == y;
            }
        }
        q
    } else {
        let q = lemma_due_in_order(procs, clock, (n - 1) as nat);
        if procs[n - 1].is_due(clock) {
            lemma_insert_in_order(procs, q, n - 1)
        } else {
            q
        }
    }
}

/// The admission order is an admission order: the definition picks a
/// sequence that exists.
pub proof fn lemma_admission_order_exists(procs: Seq<ProcessModel>, clock: nat)
    ensures
        is_admission_order(procs, clock, admission_order(procs, clock)),
{
    let q = lemma_due_in_order(procs, clock, procs.len());
    assert forall|k: int| 0 <= k < q.len() implies 0 <= #[trigger] q[k] < procs.len()
        && procs[q[k]].is_due(clock) by {
        assert(q.contains(q[k]));
    }
    assert(is_admission_order(procs, clock, q));
}

/// Among the first `n` processes, if one is waiting, there is an earliest
/// moment at which one becomes ready.
pub proof fn lemma_earliest_ready(procs: Seq<ProcessModel>, n: nat) -> (t: nat)
    requires
        n <= procs.len(),
        exists|i: int| 0 <= i < n && (#[trigger] procs[i]).is_waiting(),
    ensures
        exists|i: int| 0 <= i < n && (#[trigger] procs[i]).is_waiting() && procs[i].ready_at() == t,
        forall|i: int| 0 <= i < n && (#[trigger] procs[i]).is_waiting() ==> t <= procs[i].ready_at(),
    decreases n,
{
    let w = choose|i: int| 0 <= i < n && (#[trigger] procs[i]).is_waiting();
    if exists|i: int| 0 <= i < n - 1 && (#[trigger] procs[i]).is_waiting() {
        let t = lemma_earliest_ready(procs, (n - 1) as nat);
        let at = choose|i: int|
            0 <= i < n - 1 && (#[trigger] procs[i]).is_waiting() && procs[i].ready_at() == t;
        if procs[n - 1].is_waiting() && procs[n - 1].ready_at() < t {
            procs[n - 1].ready_at()
        } else {
            assert(procs[at].is_waiting() && procs[at].ready_at() == t);
            t
        }
    } else {
        assert(w == n - 1);
        procs[n - 1].ready_at()
    }
}

/// Where a process waits, the next event is the earliest moment at which
/// one becomes ready: the definition picks a moment that exists.
pub proof fn lemma_next_event_exists(procs: Seq<ProcessModel>)
    requires
        exists|i: int| 0 <= i < procs.len() && (#[trigger] procs[i]).is_waiting(),
    ensures
        is_next_event(procs, next_event(procs)),
{
    let t = lemma_earliest_ready(procs, procs.len());
    assert(is_next_event(procs, t));
}

} // verus!
