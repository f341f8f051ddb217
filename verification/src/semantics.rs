//! The mathematical model of the engine: thread states, the per-location
//! write histories with their visibility rules, and `spec_run`, the function
//! that says exactly what one complete run of a test program under a given
//! decision trail produces. Every executable part of the engine is verified
//! against these definitions, so a run is, provably, a pure function of the
//! program, the configuration and the trail.

use vstd::prelude::*;
use crate::program::{MemOrdering, Op, ProgramView};
use crate::trail::{fresh_extension, lemma_fresh_push, lemma_fresh_refl, lemma_fresh_trans,
    DecisionKind, DecisionView};

verus! {

/// Status of one logical thread during a run.
#[derive(Clone, Copy, PartialEq, Eq, Structural, Debug)]
pub enum ThreadStatus {
    /// Not yet spawned; never scheduled.
    NotStarted,
    /// May be picked at the next schedule decision.
    Runnable,
    /// Ran every one of its operations; never scheduled again.
    Terminated,
}

/// A fatal outcome of a check: the test exceeds what the engine was
/// configured to analyze, or its inputs are unusable. Reported immediately,
/// never retried.
#[derive(Clone, Copy, PartialEq, Eq, Structural, Debug)]
pub enum CheckError {
    /// The program started more logical threads than `max_threads` allows.
    TooManyThreads,
    /// The recorded-write bookkeeping exceeded the `max_memory` budget.
    MemoryExceeded,
    /// An operation referred to a thread or location the program does not
    /// declare, or spawned a thread that was already started.
    InvalidProgram,
    /// The decision trail (for instance one loaded from a checkpoint) does
    /// not replay against this program: a recorded decision disagrees with
    /// the outcomes the run actually enumerates.
    CorruptTrail,
}

/// How one complete run ended.
#[derive(Clone, Copy, PartialEq, Eq, Structural, Debug)]
pub enum RunStatus {
    /// Every started thread terminated.
    Completed,
    /// A soft bound (`max_branches`, or the preemption bound) cut the run
    /// short: the leaf counts as explored, the subtree under it does not.
    Bounded,
}

/// One logical thread: its status, how far through its operation sequence it
/// is, the vector clock of everything that happens-before its next step, and,
/// per location, the least write index it may still coherently observe.
#[verifier::ext_equal]
pub ghost struct ThreadView {
    pub status: ThreadStatus,
    pub ip: int,
    pub clock: Seq<int>,
    pub seen: Seq<int>,
}

/// One recorded write: who wrote, at which of the writer's clock ticks, the
/// value, the ordering classification, and the knowledge (clock and coherence
/// frontier) a synchronizing reader inherits from it.
#[verifier::ext_equal]
pub ghost struct WriteView {
    pub writer: int,
    pub time: int,
    pub value: u64,
    pub ord: MemOrdering,
    pub rel_clock: Seq<int>,
    pub rel_seen: Seq<int>,
}

/// One shared location: its write history in modification order (index 0 is
/// the initializing zero write) and the index of the latest sequentially
/// consistent write, which no later sequentially consistent load may skip.
#[verifier::ext_equal]
pub ghost struct LocView {
    pub writes: Seq<WriteView>,
    pub last_sc: int,
}

/// Everything one run mutates: the logical threads and the memory model
/// state. Owned by a single execution; discarded when the run is.
#[verifier::ext_equal]
pub ghost struct StateView {
    pub threads: Seq<ThreadView>,
    pub locs: Seq<LocView>,
}

/// The bounds a run is checked against.
#[verifier::ext_equal]
pub ghost struct ConfigView {
    pub max_threads: int,
    pub max_memory: int,
    pub max_branches: int,
    pub preemption_bound: Option<int>,
}

/// Everything one run produces: how it ended, the final state, the decision
/// trail including every record appended at fresh decision points, and the
/// sequence of values its loads observed (the run's observable result).
#[verifier::ext_equal]
pub ghost struct RunEnd {
    pub result: Result<RunStatus, CheckError>,
    pub state: StateView,
    pub trail: Seq<DecisionView>,
    pub loads: Seq<u64>,
}

/// The all-zero clock over `n` threads (or `n` locations).
pub open spec fn zero_clock(n: int) -> Seq<int> {
    Seq::new(n as nat, |i: int| 0)
}

/// Pointwise maximum: afterwards the owner knows everything either side knew.
pub open spec fn join_clock(a: Seq<int>, b: Seq<int>) -> Seq<int> {
    Seq::new(a.len(), |i: int| if a[i] >= b[i] { a[i] } else { b[i] })
}

/// The ordering synchronizes on its read half.
pub open spec fn ord_acquires(o: MemOrdering) -> bool {
    o == MemOrdering::Acquire || o == MemOrdering::AcqRel || o == MemOrdering::SeqCst
}

/// The ordering synchronizes on its write half.
pub open spec fn ord_releases(o: MemOrdering) -> bool {
    o == MemOrdering::Release || o == MemOrdering::AcqRel || o == MemOrdering::SeqCst
}

/// The state a run starts from: thread 0 runnable (terminated outright if it
/// has no operations), every other thread not yet started, and every location
/// holding exactly the initializing zero write.
pub open spec fn init_state(prog: ProgramView) -> StateView {
    let n = prog.threads.len() as int;
    StateView {
        threads: Seq::new(
            prog.threads.len(),
            |t: int|
                ThreadView {
                    status: if t == 0 {
                        if prog.threads[0].len() == 0 {
                            ThreadStatus::Terminated
                        } else {
                            ThreadStatus::Runnable
                        }
                    } else {
                        ThreadStatus::NotStarted
                    },
                    ip: 0,
                    clock: zero_clock(n),
                    seen: zero_clock(prog.num_locations),
                },
        ),
        locs: Seq::new(
            prog.num_locations as nat,
            |l: int|
                LocView {
                    writes: seq![
                        WriteView {
                            writer: 0,
                            time: 0,
                            value: 0,
                            ord: MemOrdering::Relaxed,
                            rel_clock: zero_clock(n),
                            rel_seen: zero_clock(prog.num_locations),
                        },
                    ],
                    last_sc: 0,
                },
        ),
    }
}

/// The thread may be picked at a schedule decision.
pub open spec fn thread_runnable(s: StateView, t: int) -> bool {
    0 <= t < s.threads.len() && s.threads[t].status == ThreadStatus::Runnable
}

/// No thread can run any more: the run is complete.
pub open spec fn all_finished(s: StateView) -> bool {
    forall|t: int| 0 <= t < s.threads.len() ==> !thread_runnable(s, t)
}

/// The operation the thread performs when next scheduled.
pub open spec fn next_op(prog: ProgramView, s: StateView, t: int) -> Op {
    prog.threads[t][s.threads[t].ip]
}

/// The location the operation reads without writing it, if any.
pub open spec fn load_loc(op: Op) -> Option<usize> {
    match op {
        Op::Load(l, _) => Some(l),
        _ => None,
    }
}

/// Equivalence pruning: drop thread `t` from a schedule decision's outcomes
/// when an earlier candidate's next operation also only reads the very
/// location `t`'s next operation only reads. Swapping the order of two such
/// reads cannot affect any observable behavior (`lemma_read_read_commute`),
/// so only the representative is recorded.
pub open spec fn sched_pruned(prog: ProgramView, s: StateView, t: int) -> bool {
    exists|u: int|
        0 <= u < t && #[trigger] thread_runnable(s, u) && load_loc(next_op(prog, s, u)) is Some
            && load_loc(next_op(prog, s, u)) == load_loc(next_op(prog, s, t))
}

/// The thread appears among the outcomes of the next schedule decision.
pub open spec fn sched_kept(prog: ProgramView, s: StateView, t: int) -> bool {
    thread_runnable(s, t) && !sched_pruned(prog, s, t)
}

/// The kept threads among `0 .. n`, in ascending order.
pub open spec fn sched_outcomes_upto(prog: ProgramView, s: StateView, n: int) -> Seq<u64>
    decreases n,
{
    if n <= 0 {
        Seq::empty()
    } else if sched_kept(prog, s, n - 1) {
        sched_outcomes_upto(prog, s, n - 1).push((n - 1) as u64)
    } else {
        sched_outcomes_upto(prog, s, n - 1)
    }
}

/// The full outcome set of the next schedule decision.
pub open spec fn sched_outcomes(prog: ProgramView, s: StateView) -> Seq<u64> {
    sched_outcomes_upto(prog, s, s.threads.len() as int)
}

/// The write already happens-before the thread's next step.
pub open spec fn write_known(s: StateView, t: int, w: WriteView) -> bool {
    0 <= w.writer < s.threads[t].clock.len() && s.threads[t].clock[w.writer] >= w.time
}

/// The set of writes a load of location `l` by thread `t` may observe is
/// exactly this: writes the thread has not already read or written past
/// (coherence), not older than the latest sequentially consistent write if
/// the load is sequentially consistent, and not superseded by a later write
/// that already happens-before the load. The initializing write keeps the set
/// nonempty when nothing newer is forced.
pub open spec fn eligible(s: StateView, t: int, l: int, o: MemOrdering, i: int) -> bool {
    let loc = s.locs[l];
    &&& 0 <= i < loc.writes.len()
    &&& i >= s.threads[t].seen[l]
    &&& (o == MemOrdering::SeqCst ==> i >= loc.last_sc)
    &&& forall|j: int| i < j < loc.writes.len() ==> !write_known(s, t, #[trigger] loc.writes[j])
}

/// The eligible write indices below `n`, in ascending order.
pub open spec fn eligible_upto(s: StateView, t: int, l: int, o: MemOrdering, n: int) -> Seq<u64>
    decreases n,
{
    if n <= 0 {
        Seq::empty()
    } else if eligible(s, t, l, o, n - 1) {
        eligible_upto(s, t, l, o, n - 1).push((n - 1) as u64)
    } else {
        eligible_upto(s, t, l, o, n - 1)
    }
}

/// The full outcome set of a load's read decision.
pub open spec fn eligible_writes(s: StateView, t: int, l: int, o: MemOrdering) -> Seq<u64> {
    eligible_upto(s, t, l, o, s.locs[l].writes.len() as int)
}

/// The thread after completing one operation: its next operation is the
/// following one, and it terminates when none is left.
pub open spec fn stepped(prog: ProgramView, t: int, th: ThreadView) -> ThreadView {
    ThreadView {
        status: if th.ip + 1 >= prog.threads[t].len() {
            ThreadStatus::Terminated
        } else {
            ThreadStatus::Runnable
        },
        ip: th.ip + 1,
        clock: th.clock,
        seen: th.seen,
    }
}

/// A yield: the schedule decision was its whole effect.
pub open spec fn do_yield(prog: ProgramView, s: StateView, t: int) -> StateView {
    StateView { threads: s.threads.update(t, stepped(prog, t, s.threads[t])), locs: s.locs }
}

/// A store: tick the writer's clock, append the write to the location's
/// modification order (recording, for a releasing write, everything a
/// synchronizing reader will inherit), and move the writer's coherence
/// frontier past every older write.
pub open spec fn do_store(prog: ProgramView, s: StateView, t: int, l: int, v: u64, o: MemOrdering) -> StateView {
    let th = s.threads[t];
    let loc = s.locs[l];
    let time = th.clock[t] + 1;
    let clock2 = th.clock.update(t, time);
    let seen2 = th.seen.update(l, loc.writes.len() as int);
    let w = WriteView {
        writer: t,
        time,
        value: v,
        ord: o,
        rel_clock: if ord_releases(o) { clock2 } else { zero_clock(th.clock.len() as int) },
        rel_seen: if ord_releases(o) { seen2 } else { zero_clock(th.seen.len() as int) },
    };
    let th2 = stepped(prog, t, ThreadView { status: th.status, ip: th.ip, clock: clock2, seen: seen2 });
    StateView {
        threads: s.threads.update(t, th2),
        locs: s.locs.update(
            l,
            LocView {
                writes: loc.writes.push(w),
                last_sc: if o == MemOrdering::SeqCst {
                    loc.writes.len() as int
                } else {
                    loc.last_sc
                },
            },
        ),
    }
}

/// A load observing write `i`: the reader's coherence frontier moves to the
/// observed write, and an acquiring load of a releasing write inherits the
/// writer's recorded knowledge. Only the reader's own state changes.
pub open spec fn do_load(prog: ProgramView, s: StateView, t: int, l: int, o: MemOrdering, i: int) -> StateView {
    let th = s.threads[t];
    let w = s.locs[l].writes[i];
    let sync = ord_acquires(o) && ord_releases(w.ord);
    let clock2 = if sync { join_clock(th.clock, w.rel_clock) } else { th.clock };
    let seen2 = (if sync { join_clock(th.seen, w.rel_seen) } else { th.seen }).update(l, i);
    let th2 = stepped(prog, t, ThreadView { status: th.status, ip: th.ip, clock: clock2, seen: seen2 });
    StateView { threads: s.threads.update(t, th2), locs: s.locs }
}

/// A spawn: tick the parent's clock and hand the child everything the parent
/// knows — the parent's operations so far happen-before everything the child
/// does. The child terminates outright if it has no operations.
pub open spec fn do_spawn(prog: ProgramView, s: StateView, t: int, c: int) -> StateView {
    let th = s.threads[t];
    let time = th.clock[t] + 1;
    let clock2 = th.clock.update(t, time);
    let child = ThreadView {
        status: if prog.threads[c].len() == 0 {
            ThreadStatus::Terminated
        } else {
            ThreadStatus::Runnable
        },
        ip: 0,
        clock: clock2,
        seen: th.seen,
    };
    let th2 = stepped(prog, t, ThreadView { status: th.status, ip: th.ip, clock: clock2, seen: th.seen });
    StateView { threads: s.threads.update(t, th2).update(c, child), locs: s.locs }
}

/// How many logical threads have been started (spawning counts a thread even
/// after it terminates).
pub open spec fn started_upto(s: StateView, n: int) -> int
    decreases n,
{
    if n <= 0 {
        0
    } else {
        started_upto(s, n - 1) + if s.threads[n - 1].status == ThreadStatus::NotStarted {
            0int
        } else {
            1int
        }
    }
}

/// The count of started threads, checked against `max_threads`.
pub open spec fn started_count(s: StateView) -> int {
    started_upto(s, s.threads.len() as int)
}

/// The bookkeeping burden of the memory model state: every recorded write.
pub open spec fn writes_upto(s: StateView, n: int) -> int
    decreases n,
{
    if n <= 0 {
        0
    } else {
        writes_upto(s, n - 1) + s.locs[n - 1].writes.len()
    }
}

/// The total number of recorded writes, checked against `max_memory`.
pub open spec fn total_writes(s: StateView) -> int {
    writes_upto(s, s.locs.len() as int)
}

/// Thread `t`'s bookkeeping is well formed: its vectors have the right
/// lengths, its position is inside its operation sequence, its clock entries
/// are bounded by the tick budget `b`, and its coherence frontier points into
/// each location's write history.
pub open spec fn wf_thread_at(prog: ProgramView, s: StateView, t: int, b: int) -> bool {
    let th = s.threads[t];
    &&& th.clock.len() == s.threads.len()
    &&& th.seen.len() == s.locs.len()
    &&& 0 <= th.ip <= prog.threads[t].len()
    &&& (th.status == ThreadStatus::Runnable ==> th.ip < prog.threads[t].len())
    &&& (th.status == ThreadStatus::NotStarted ==> th.ip == 0)
    &&& forall|i: int| 0 <= i < th.clock.len() ==> 0 <= #[trigger] th.clock[i] <= b
    &&& forall|l: int| 0 <= l < th.seen.len() ==> 0 <= #[trigger] th.seen[l] < s.locs[l].writes.len()
}

/// A recorded write is well formed within the state.
pub open spec fn wf_write_in(s: StateView, w: WriteView, b: int) -> bool {
    &&& 0 <= w.writer < s.threads.len()
    &&& 0 <= w.time <= b
    &&& w.rel_clock.len() == s.threads.len()
    &&& forall|i: int| 0 <= i < w.rel_clock.len() ==> 0 <= #[trigger] w.rel_clock[i] <= b
    &&& w.rel_seen.len() == s.locs.len()
    &&& forall|l: int|
        0 <= l < w.rel_seen.len() ==> 0 <= #[trigger] w.rel_seen[l] < s.locs[l].writes.len()
}

/// A location is well formed: it keeps its initializing write, at most one
/// write was appended per tick of the budget, and the latest sequentially
/// consistent write is in range.
pub open spec fn wf_loc_at(s: StateView, l: int, b: int) -> bool {
    let loc = s.locs[l];
    &&& 1 <= loc.writes.len() <= b + 1
    &&& 0 <= loc.last_sc < loc.writes.len()
    &&& forall|i: int| 0 <= i < loc.writes.len() ==> wf_write_in(s, #[trigger] loc.writes[i], b)
}

/// The whole state is well formed for the program under tick budget `b` (the
/// number of decision points resolved so far bounds every clock entry and
/// write count, which is what keeps the bookkeeping arithmetic in range).
pub open spec fn wf_state(prog: ProgramView, s: StateView, b: int) -> bool {
    &&& s.threads.len() == prog.threads.len()
    &&& s.locs.len() == prog.num_locations
    &&& forall|t: int| 0 <= t < s.threads.len() ==> #[trigger] wf_thread_at(prog, s, t, b)
    &&& forall|l: int| 0 <= l < s.locs.len() ==> #[trigger] wf_loc_at(s, l, b)
}

/// A larger tick budget keeps a state well formed.
pub proof fn lemma_wf_state_mono(prog: ProgramView, s: StateView, b1: int, b2: int)
    requires
        wf_state(prog, s, b1),
        b1 <= b2,
    ensures
        wf_state(prog, s, b2),
{
    assert forall|t: int| 0 <= t < s.threads.len() implies #[trigger] wf_thread_at(
        prog,
        s,
        t,
        b2,
    ) by {
        assert(wf_thread_at(prog, s, t, b1));
    }
    assert forall|l: int| 0 <= l < s.locs.len() implies #[trigger] wf_loc_at(s, l, b2) by {
        assert(wf_loc_at(s, l, b1));
        assert forall|i: int| 0 <= i < s.locs[l].writes.len() implies wf_write_in(
            s,
            #[trigger] s.locs[l].writes[i],
            b2,
        ) by {
            assert(wf_write_in(s, s.locs[l].writes[i], b1));
        }
    }
}

/// Every outcome of a schedule decision is a kept, runnable thread.
pub proof fn lemma_sched_outcomes_props(prog: ProgramView, s: StateView, n: int)
    requires
        n <= u64::MAX,
    ensures
        sched_outcomes_upto(prog, s, n).len() <= (if n >= 0 { n } else { 0 }),
        forall|k: int|
            0 <= k < sched_outcomes_upto(prog, s, n).len() ==> 0
                <= #[trigger] sched_outcomes_upto(prog, s, n)[k] < n && sched_kept(
                prog,
                s,
                sched_outcomes_upto(prog, s, n)[k] as int,
            ),
    decreases n,
{
    if n > 0 {
        lemma_sched_outcomes_props(prog, s, n - 1);
    }
}

/// Every outcome of a read decision is an eligible write index.
pub proof fn lemma_eligible_props(s: StateView, t: int, l: int, o: MemOrdering, n: int)
    requires
        n <= u64::MAX,
    ensures
        forall|k: int|
            0 <= k < eligible_upto(s, t, l, o, n).len() ==> 0 <= #[trigger] eligible_upto(
                s,
                t,
                l,
                o,
                n,
            )[k] < n && eligible(s, t, l, o, eligible_upto(s, t, l, o, n)[k] as int),
    decreases n,
{
    if n > 0 {
        lemma_eligible_props(s, t, l, o, n - 1);
        let e = eligible_upto(s, t, l, o, n);
        let e0 = eligible_upto(s, t, l, o, n - 1);
        assert forall|k: int| 0 <= k < e.len() implies 0 <= #[trigger] e[k] < n && eligible(
            s,
            t,
            l,
            o,
            e[k] as int,
        ) by {
            if k < e0.len() {
                assert(e0[k] == e[k]);
            }
        }
    }
}

/// The bookkeeping total grows with the range it sums over.
pub proof fn lemma_writes_upto_mono(s: StateView, n: int, m: int)
    requires
        0 <= n <= m <= s.locs.len(),
    ensures
        writes_upto(s, n) <= writes_upto(s, m),
    decreases m,
{
    if n < m {
        lemma_writes_upto_mono(s, n, m - 1);
    }
}

/// Consult the trail at one decision point. If the trail has a record at this
/// position, the run is replaying: the record must carry the same kind and
/// the same enumerated outcome set, else the trail does not belong to this
/// program (`None`). Past the trail's end this is a fresh decision point: the
/// full outcome set is recorded and the first outcome committed to.
pub open spec fn trail_at(trail: Seq<DecisionView>, pos: int, kind: DecisionKind, outs: Seq<u64>) -> Option<
    (int, Seq<DecisionView>),
> {
    if pos < trail.len() {
        let d = trail[pos];
        if d.kind == kind && d.outcomes == outs && 0 <= d.chosen < outs.len() {
            Some((d.chosen, trail))
        } else {
            None
        }
    } else if pos == trail.len() && outs.len() > 0 {
        Some((0, trail.push(DecisionView { kind, outcomes: outs, chosen: 0 })))
    } else {
        None
    }
}

/// Switching to `t` preempts the previously running thread: that thread was
/// not finished, yet a different one was picked.
pub open spec fn is_preemption(s: StateView, last: Option<u64>, t: int) -> bool {
    match last {
        Some(u) => u as int != t && thread_runnable(s, u as int),
        None => false,
    }
}

/// What one complete run produces, from the current state onward: the engine
/// repeatedly resolves the next schedule decision against the trail, executes
/// the picked thread's next operation (resolving a load's read decision the
/// same way), and stops when every started thread terminated, when a soft
/// bound cuts the run short, or when a hard bound or unusable input makes the
/// whole check fail. Everything is determined by the arguments: a run is a
/// pure function of program, configuration, starting state and trail.
pub open spec fn spec_run(
    prog: ProgramView,
    cfg: ConfigView,
    s: StateView,
    trail: Seq<DecisionView>,
    pos: int,
    loads: Seq<u64>,
    preempts: int,
    last: Option<u64>,
) -> RunEnd
    decreases cfg.max_branches + 1 - pos,
{
    if all_finished(s) {
        RunEnd { result: Ok(RunStatus::Completed), state: s, trail, loads }
    } else if pos >= cfg.max_branches || pos < 0 {
        RunEnd { result: Ok(RunStatus::Bounded), state: s, trail, loads }
    } else {
        let outs = sched_outcomes(prog, s);
        match trail_at(trail, pos, DecisionKind::Schedule, outs) {
            None => RunEnd { result: Err(CheckError::CorruptTrail), state: s, trail, loads },
            Some((c, trail2)) => {
                let t = outs[c] as int;
                let pre = is_preemption(s, last, t);
                let preempts2 = preempts + if pre {
                    1int
                } else {
                    0int
                };
                if pre && cfg.preemption_bound is Some && preempts2
                    > cfg.preemption_bound.unwrap() {
                    RunEnd { result: Ok(RunStatus::Bounded), state: s, trail: trail2, loads }
                } else {
                    match next_op(prog, s, t) {
                        Op::Yield => spec_run(
                            prog,
                            cfg,
                            do_yield(prog, s, t),
                            trail2,
                            pos + 1,
                            loads,
                            preempts2,
                            Some(t as u64),
                        ),
                        Op::Store(l, v, o) => {
                            let s2 = do_store(prog, s, t, l as int, v, o);
                            if total_writes(s2) > cfg.max_memory {
                                RunEnd {
                                    result: Err(CheckError::MemoryExceeded),
                                    state: s2,
                                    trail: trail2,
                                    loads,
                                }
                            } else {
                                spec_run(prog, cfg, s2, trail2, pos + 1, loads, preempts2, Some(t as u64))
                            }
                        },
                        Op::Spawn(c2) => {
                            if !(0 <= c2 < s.threads.len()) || s.threads[c2 as int].status
                                != ThreadStatus::NotStarted {
                                RunEnd {
                                    result: Err(CheckError::InvalidProgram),
                                    state: s,
                                    trail: trail2,
                                    loads,
                                }
                            } else if started_count(s) + 1 > cfg.max_threads {
                                RunEnd {
                                    result: Err(CheckError::TooManyThreads),
                                    state: s,
                                    trail: trail2,
                                    loads,
                                }
                            } else {
                                spec_run(
                                    prog,
                                    cfg,
                                    do_spawn(prog, s, t, c2 as int),
                                    trail2,
                                    pos + 1,
                                    loads,
                                    preempts2,
                                    Some(t as u64),
                                )
                            }
                        },
                        Op::Load(l, o) => {
                            if pos + 1 >= cfg.max_branches {
                                RunEnd { result: Ok(RunStatus::Bounded), state: s, trail: trail2, loads }
                            } else {
                                let elig = eligible_writes(s, t, l as int, o);
                                match trail_at(trail2, pos + 1, DecisionKind::Read, elig) {
                                    None => RunEnd {
                                        result: Err(CheckError::CorruptTrail),
                                        state: s,
                                        trail: trail2,
                                        loads,
                                    },
                                    Some((c2, trail3)) => {
                                        let i = elig[c2] as int;
                                        let v = s.locs[l as int].writes[i].value;
                                        spec_run(
                                            prog,
                                            cfg,
                                            do_load(prog, s, t, l as int, o, i),
                                            trail3,
                                            pos + 2,
                                            loads.push(v),
                                            preempts2,
                                            Some(t as u64),
                                        )
                                    },
                                }
                            }
                        },
                    }
                }
            },
        }
    }
}

/// Pruning soundness: two decision-point outcomes are declared equivalent
/// when two threads' next operations read — and do not write — the same
/// location. Resolving the two loads in either order, each observing the same
/// write, leaves each load's eligible set unchanged and produces identical
/// states, so the observable result of the tested program is the same under
/// either resolution and recording only one representative loses no behavior.
/// (The commutation holds for loads of any two locations; the engine prunes
/// only the documented same-location case.)
pub proof fn lemma_read_read_commute(
    prog: ProgramView,
    s: StateView,
    a: int,
    b: int,
    la: usize,
    lb: usize,
    oa: MemOrdering,
    ob: MemOrdering,
    wa: int,
    wb: int,
)
    requires
        a != b,
        thread_runnable(s, a),
        thread_runnable(s, b),
        next_op(prog, s, a) == Op::Load(la, oa),
        next_op(prog, s, b) == Op::Load(lb, ob),
        eligible(s, a, la as int, oa, wa),
        eligible(s, b, lb as int, ob, wb),
    ensures
        // neither load changes any write history, so each load's eligible
        // writes — and the values they hold — are the same in either order
        do_load(prog, s, a, la as int, oa, wa).locs == s.locs,
        forall|i: int|
            eligible(do_load(prog, s, a, la as int, oa, wa), b, lb as int, ob, i) == eligible(
                s,
                b,
                lb as int,
                ob,
                i,
            ),
        forall|i: int|
            eligible(do_load(prog, s, b, lb as int, ob, wb), a, la as int, oa, i) == eligible(
                s,
                a,
                la as int,
                oa,
                i,
            ),
        // and the state after both loads does not depend on the order
        do_load(prog, do_load(prog, s, a, la as int, oa, wa), b, lb as int, ob, wb) == do_load(
            prog,
            do_load(prog, s, b, lb as int, ob, wb),
            a,
            la as int,
            oa,
            wa,
        ),
{
    let s_a = do_load(prog, s, a, la as int, oa, wa);
    let s_b = do_load(prog, s, b, lb as int, ob, wb);
    assert(s_a.threads[b] == s.threads[b]);
    assert(s_b.threads[a] == s.threads[a]);
    assert forall|i: int|
        eligible(s_a, b, lb as int, ob, i) == eligible(s, b, lb as int, ob, i) by {}
    assert forall|i: int|
        eligible(s_b, a, la as int, oa, i) == eligible(s, a, la as int, oa, i) by {}
    let s_ab = do_load(prog, s_a, b, lb as int, ob, wb);
    let s_ba = do_load(prog, s_b, a, la as int, oa, wa);
    assert(s_ab.threads =~= s_ba.threads);
    assert(s_ab =~= s_ba);
}

/// Determinism: for a fixed decision trail and a fixed test program, two
/// independent runs produce an identical sequence of decision-point
/// resolutions and identical observable results. A whole run equals
/// `spec_run`, a function of the program, the bounds, the starting state and
/// the trail alone (the ensures of `scheduler::run`), so two runs that start
/// equal end equal: same outcome, same recorded decisions, same observed
/// loads, same final state.
pub proof fn lemma_run_deterministic(
    prog: ProgramView,
    cfg: ConfigView,
    s: StateView,
    trail: Seq<DecisionView>,
    end1: RunEnd,
    end2: RunEnd,
)
    requires
        end1 == spec_run(prog, cfg, s, trail, 0, Seq::<u64>::empty(), 0, None),
        end2 == spec_run(prog, cfg, s, trail, 0, Seq::<u64>::empty(), 0, None),
    ensures
        end1.result == end2.result,
        end1.trail == end2.trail,
        end1.loads == end2.loads,
        end1.state == end2.state,
{
}

/// The initial state of a well-formed program is well formed under a zero
/// tick budget.
pub proof fn lemma_init_wf(prog: ProgramView)
    requires
        crate::program::wf_program(prog),
        prog.num_locations >= 0,
    ensures
        wf_state(prog, init_state(prog), 0),
{
    let s = init_state(prog);
    assert(s.threads.len() == prog.threads.len());
    assert(s.locs.len() == prog.num_locations);
    assert forall|t: int| 0 <= t < s.threads.len() implies #[trigger] wf_thread_at(
        prog,
        s,
        t,
        0,
    ) by {}
    assert forall|l: int| 0 <= l < s.locs.len() implies #[trigger] wf_loc_at(s, l, 0) by {
        assert(s.locs[l].writes.len() == 1);
        assert forall|i: int| 0 <= i < s.locs[l].writes.len() implies wf_write_in(
            s,
            #[trigger] s.locs[l].writes[i],
            0,
        ) by {
            let w = s.locs[l].writes[i];
            assert(w.rel_clock.len() == s.threads.len());
            assert(w.rel_seen.len() == s.locs.len());
            assert forall|k: int| 0 <= k < w.rel_seen.len() implies 0 <= #[trigger] w.rel_seen[k]
                < s.locs[k].writes.len() by {}
        }
    }
}

/// A run only appends fresh records to the trail it was given: every record
/// the previous trail held is replayed unchanged, and every appended decision
/// is committed to its first outcome.
pub proof fn lemma_run_trail_fresh(
    prog: ProgramView,
    cfg: ConfigView,
    s: StateView,
    trail: Seq<DecisionView>,
    pos: int,
    loads: Seq<u64>,
    preempts: int,
    last: Option<u64>,
)
    ensures
        crate::trail::fresh_extension(trail, spec_run(prog, cfg, s, trail, pos, loads, preempts, last).trail),
    decreases cfg.max_branches + 1 - pos,
{
    if all_finished(s) || pos >= cfg.max_branches || pos < 0 {
        lemma_fresh_refl(trail);
    } else {
        let outs = sched_outcomes(prog, s);
        match trail_at(trail, pos, DecisionKind::Schedule, outs) {
            None => {
                lemma_fresh_refl(trail);
            },
            Some((c, trail2)) => {
                if pos < trail.len() {
                    lemma_fresh_refl(trail);
                } else {
                    lemma_fresh_push(
                        trail,
                        DecisionView { kind: DecisionKind::Schedule, outcomes: outs, chosen: 0 },
                    );
                }
                assert(fresh_extension(trail, trail2));
                let t = outs[c] as int;
                let pre = is_preemption(s, last, t);
                let preempts2 = preempts + if pre {
                    1int
                } else {
                    0int
                };
                if pre && cfg.preemption_bound is Some && preempts2 > cfg.preemption_bound.unwrap() {
                } else {
                    match next_op(prog, s, t) {
                        Op::Yield => {
                            lemma_run_trail_fresh(
                                prog,
                                cfg,
                                do_yield(prog, s, t),
                                trail2,
                                pos + 1,
                                loads,
                                preempts2,
                                Some(t as u64),
                            );
                            lemma_fresh_trans(
                                trail,
                                trail2,
                                spec_run(prog, cfg, do_yield(prog, s, t), trail2, pos + 1, loads, preempts2, Some(t as u64)).trail,
                            );
                        },
                        Op::Store(l, v, o) => {
                            let s2 = do_store(prog, s, t, l as int, v, o);
                            if total_writes(s2) > cfg.max_memory {
                            } else {
                                lemma_run_trail_fresh(prog, cfg, s2, trail2, pos + 1, loads, preempts2, Some(t as u64));
                                lemma_fresh_trans(
                                    trail,
                                    trail2,
                                    spec_run(prog, cfg, s2, trail2, pos + 1, loads, preempts2, Some(t as u64)).trail,
                                );
                            }
                        },
                        Op::Spawn(c2) => {
                            if !(0 <= c2 < s.threads.len()) || s.threads[c2 as int].status
                                != ThreadStatus::NotStarted {
                            } else if started_count(s) + 1 > cfg.max_threads {
                            } else {
                                let s2 = do_spawn(prog, s, t, c2 as int);
                                lemma_run_trail_fresh(prog, cfg, s2, trail2, pos + 1, loads, preempts2, Some(t as u64));
                                lemma_fresh_trans(
                                    trail,
                                    trail2,
                                    spec_run(prog, cfg, s2, trail2, pos + 1, loads, preempts2, Some(t as u64)).trail,
                                );
                            }
                        },
                        Op::Load(l, o) => {
                            if pos + 1 >= cfg.max_branches {
                            } else {
                                let elig = eligible_writes(s, t, l as int, o);
                                match trail_at(trail2, pos + 1, DecisionKind::Read, elig) {
                                    None => {},
                                    Some((c2, trail3)) => {
                                        if pos + 1 < trail2.len() {
                                            lemma_fresh_refl(trail2);
                                        } else {
                                            lemma_fresh_push(
                                                trail2,
                                                DecisionView {
                                                    kind: DecisionKind::Read,
                                                    outcomes: elig,
                                                    chosen: 0,
                                                },
                                            );
                                        }
                                        assert(fresh_extension(trail2, trail3));
                                        lemma_fresh_trans(trail, trail2, trail3);
                                        let i = elig[c2] as int;
                                        let v = s.locs[l as int].writes[i].value;
                                        let s2 = do_load(prog, s, t, l as int, o, i);
                                        lemma_run_trail_fresh(prog, cfg, s2, trail3, pos + 2, loads.push(v), preempts2, Some(t as u64));
                                        lemma_fresh_trans(
                                            trail,
                                            trail3,
                                            spec_run(prog, cfg, s2, trail3, pos + 2, loads.push(v), preempts2, Some(t as u64)).trail,
                                        );
                                    },
                                }
                            }
                        },
                    }
                }
            },
        }
    }
}

} // verus!
