//! The state of one complete simulated run: the logical thread set, the
//! memory model state, the decision trail being replayed and extended, and
//! the run-scoped counters, together with the configured bounds. Every
//! mutation is verified against the model in `semantics`.

use vstd::prelude::*;
use crate::program::{MemOrdering, Program};
use crate::semantics::{
    init_state, zero_clock, ConfigView, LocView, StateView, ThreadStatus, ThreadView, WriteView,
};
use crate::trail::{spec_advance, Trail};

verus! {

/// One logical thread of the simulated program.
pub struct ThreadState {
    /// Whether the thread can be scheduled.
    pub status: ThreadStatus,
    /// Index of its next operation.
    pub ip: usize,
    /// Everything that happens-before its next step, as a vector clock.
    pub clock: Vec<u64>,
    /// Per location, the least write index it may still coherently observe.
    pub seen: Vec<usize>,
}

impl View for ThreadState {
    type V = ThreadView;

    open spec fn view(&self) -> ThreadView {
        ThreadView {
            status: self.status,
            ip: self.ip as int,
            clock: clock_view(self.clock@),
            seen: seen_view(self.seen@),
        }
    }
}

/// One recorded write of a shared location.
pub struct WriteRecord {
    /// The writing thread.
    pub writer: usize,
    /// The writer's clock tick at the write.
    pub time: u64,
    /// The stored value.
    pub value: u64,
    /// The ordering classification of the store.
    pub ord: MemOrdering,
    /// The clock a synchronizing reader inherits.
    pub rel_clock: Vec<u64>,
    /// The coherence frontier a synchronizing reader inherits.
    pub rel_seen: Vec<usize>,
}

impl View for WriteRecord {
    type V = WriteView;

    open spec fn view(&self) -> WriteView {
        WriteView {
            writer: self.writer as int,
            time: self.time as int,
            value: self.value,
            ord: self.ord,
            rel_clock: clock_view(self.rel_clock@),
            rel_seen: seen_view(self.rel_seen@),
        }
    }
}

/// One shared atomic location.
pub struct LocationState {
    /// The write history, in modification order; index 0 is the initializing
    /// zero write.
    pub writes: Vec<WriteRecord>,
    /// Index of the latest sequentially consistent write.
    pub last_sc: usize,
}

impl View for LocationState {
    type V = LocView;

    open spec fn view(&self) -> LocView {
        LocView { writes: writes_view(self.writes@), last_sc: self.last_sc as int }
    }
}

/// The immutable bounds an execution is checked against.
#[derive(Clone, Copy, Debug)]
pub struct Config {
    /// Hard cap on started logical threads.
    pub max_threads: usize,
    /// Hard cap on recorded-write bookkeeping.
    pub max_memory: usize,
    /// Soft cap on decision points per run.
    pub max_branches: usize,
    /// Optional soft cap on preemptive context switches per run.
    pub preemption_bound: Option<usize>,
}

/// The model of a configuration.
pub open spec fn cfg_view(c: Config) -> ConfigView {
    ConfigView {
        max_threads: c.max_threads as int,
        max_memory: c.max_memory as int,
        max_branches: c.max_branches as int,
        preemption_bound: match c.preemption_bound {
            Some(p) => Some(p as int),
            None => None,
        },
    }
}

pub open spec fn clock_view(v: Seq<u64>) -> Seq<int> {
    v.map(|i: int, x: u64| x as int)
}

pub open spec fn seen_view(v: Seq<usize>) -> Seq<int> {
    v.map(|i: int, x: usize| x as int)
}

pub open spec fn threads_view(v: Seq<ThreadState>) -> Seq<ThreadView> {
    v.map(|i: int, t: ThreadState| t@)
}

pub open spec fn writes_view(v: Seq<WriteRecord>) -> Seq<WriteView> {
    v.map(|i: int, w: WriteRecord| w@)
}

pub open spec fn locs_view(v: Seq<LocationState>) -> Seq<LocView> {
    v.map(|i: int, l: LocationState| l@)
}

/// The state of one run: created fresh for every permutation (threads and
/// memory reset, the trail carried and advanced), mutated by the scheduler
/// and by every registered operation, consumed at run end to compute the next
/// permutation.
pub struct Execution {
    /// The logical threads; a fresh set every run.
    pub threads: Vec<ThreadState>,
    /// The shared locations' write histories; reset every run.
    pub locs: Vec<LocationState>,
    /// The decision trail driving (and recording) this run.
    pub trail: Trail,
    /// The next decision point's index in the trail.
    pub pos: usize,
    /// Preemptive context switches so far this run.
    pub preemptions: usize,
    /// The previously scheduled thread.
    pub last_thread: Option<u64>,
    /// The values every load observed, in order: the run's observable result.
    pub loads: Vec<u64>,
    /// The bounds this execution enforces.
    pub config: Config,
    /// Whether the driver should log progress.
    pub log: bool,
}

impl Execution {
    /// The memory-model and thread state this execution currently holds.
    pub open spec fn state(&self) -> StateView {
        StateView { threads: threads_view(self.threads@), locs: locs_view(self.locs@) }
    }

    /// A fresh execution: initial state, position zero, carrying `trail`.
    pub fn new(prog: &Program, config: Config, trail: Trail, log: bool) -> (e: Execution)
        ensures
            e.state() == init_state(prog@),
            e.trail@ == trail@,
            e.pos == 0,
            e.loads@ == Seq::<u64>::empty(),
            e.preemptions == 0,
            e.last_thread is None,
            e.config == config,
            e.log == log,
    {
        let n = prog.threads.len();
        let nl = prog.num_locations;
        let mut threads: Vec<ThreadState> = Vec::new();
        let mut t: usize = 0;
        while t < n
            invariant
                t <= n,
                n == prog.threads@.len(),
                nl == prog.num_locations,
                threads@.len() == t,
                forall|u: int| 0 <= u < t ==> #[trigger] threads@[u]@ == init_state(prog@).threads[u],
            decreases n - t,
        {
            let status = if t == 0 {
                if prog.threads[0].len() == 0 {
                    ThreadStatus::Terminated
                } else {
                    ThreadStatus::Runnable
                }
            } else {
                ThreadStatus::NotStarted
            };
            let th = ThreadState { status, ip: 0, clock: zero_u64_vec(n), seen: zero_usize_vec(nl) };
            proof {
                assert(th@ =~= init_state(prog@).threads[t as int]);
            }
            threads.push(th);
            t = t + 1;
        }
        let mut locs: Vec<LocationState> = Vec::new();
        let mut l: usize = 0;
        while l < nl
            invariant
                l <= nl,
                n == prog.threads@.len(),
                nl == prog.num_locations,
                locs@.len() == l,
                forall|u: int| 0 <= u < l ==> #[trigger] locs@[u]@ == init_state(prog@).locs[u],
            decreases nl - l,
        {
            let w = WriteRecord {
                writer: 0,
                time: 0,
                value: 0,
                ord: MemOrdering::Relaxed,
                rel_clock: zero_u64_vec(n),
                rel_seen: zero_usize_vec(nl),
            };
            let mut writes: Vec<WriteRecord> = Vec::new();
            writes.push(w);
            let loc = LocationState { writes, last_sc: 0 };
            proof {
                assert(writes_view(loc.writes@) =~= init_state(prog@).locs[l as int].writes);
                assert(loc@ =~= init_state(prog@).locs[l as int]);
            }
            locs.push(loc);
            l = l + 1;
        }
        let e = Execution {
            threads,
            locs,
            trail,
            pos: 0,
            preemptions: 0,
            last_thread: None,
            loads: Vec::new(),
            config,
            log,
        };
        proof {
            assert forall|u: int| 0 <= u < n implies threads_view(e.threads@)[u] == init_state(
                prog@,
            ).threads[u] by {}
            assert forall|u: int| 0 <= u < nl implies locs_view(e.locs@)[u] == init_state(
                prog@,
            ).locs[u] by {}
            assert(threads_view(e.threads@) =~= init_state(prog@).threads);
            assert(locs_view(e.locs@) =~= init_state(prog@).locs);
            assert(e.state() =~= init_state(prog@));
        }
        e
    }

    /// Consume a completed run and produce the execution for the next
    /// permutation: the trail advanced depth-first to its next unexplored
    /// outcome, thread and memory state reset. `None` means the whole state
    /// space (within bounds) has been covered: exploration is exhausted.
    pub fn step(self, prog: &Program) -> (r: Option<Execution>)
        ensures
            match r {
                Some(e2) => {
                    &&& spec_advance(self.trail@) == Some(e2.trail@)
                    &&& e2.state() == init_state(prog@)
                    &&& e2.pos == 0
                    &&& e2.loads@ == Seq::<u64>::empty()
                    &&& e2.preemptions == 0
                    &&& e2.last_thread is None
                    &&& e2.config == self.config
                    &&& e2.log == self.log
                },
                None => spec_advance(self.trail@) is None,
            },
    {
        let config = self.config;
        let log = self.log;
        match self.trail.advance() {
            Some(t2) => Some(Execution::new(prog, config, t2, log)),
            None => None,
        }
    }
}

/// A vector of `n` zero clock entries.
pub(crate) fn zero_u64_vec(n: usize) -> (r: Vec<u64>)
    ensures
        clock_view(r@) =~= zero_clock(n as int),
        r@.len() == n,
{
    let mut r: Vec<u64> = Vec::new();
    let mut i: usize = 0;
    while i < n
        invariant
            i <= n,
            r@.len() == i,
            forall|k: int| 0 <= k < i ==> r@[k] == 0,
        decreases n - i,
    {
        r.push(0);
        i = i + 1;
    }
    r
}

/// A vector of `n` zero coherence-frontier entries.
pub(crate) fn zero_usize_vec(n: usize) -> (r: Vec<usize>)
    ensures
        seen_view(r@) =~= zero_clock(n as int),
        r@.len() == n,
{
    let mut r: Vec<usize> = Vec::new();
    let mut i: usize = 0;
    while i < n
        invariant
            i <= n,
            r@.len() == i,
            forall|k: int| 0 <= k < i ==> r@[k] == 0,
        decreases n - i,
    {
        r.push(0);
        i = i + 1;
    }
    r
}

} // verus!
