//! Test programs. The tested closure must be deterministic, with every source
//! of nondeterminism mediated by the engine; such a closure is represented
//! here as data: per logical thread, the straight-line sequence of registered
//! primitive operations it performs. Every operation is a synchronization
//! point; ordinary computation between operations never yields control and
//! needs no representation.

use vstd::prelude::*;

verus! {

/// Memory-ordering classification of one atomic operation. The legal kinds
/// are fixed and finite, so they form a closed tagged variant.
#[derive(Clone, Copy, PartialEq, Eq, Structural, Debug)]
pub enum MemOrdering {
    /// No synchronization: the load may observe any coherent older write.
    Relaxed,
    /// A load that synchronizes with the releasing write it observes.
    Acquire,
    /// A store that publishes everything the writer has done so far.
    Release,
    /// Acquire on the read half and release on the write half of an update.
    AcqRel,
    /// Acquire/release, and participation in the single global order shared
    /// by all sequentially consistent operations.
    SeqCst,
}

/// One registered primitive operation of a logical thread. Each operation
/// registers exactly one schedule decision point when the thread is picked to
/// run it; a load registers one more decision point for which write it
/// observes.
#[derive(Clone, Copy, PartialEq, Eq, Structural, Debug)]
pub enum Op {
    /// Atomically store the value to the shared location.
    Store(usize, u64, MemOrdering),
    /// Atomically load from the shared location; which eligible recorded
    /// write the load observes is a decision point of its own.
    Load(usize, MemOrdering),
    /// Start the logical thread with the given index.
    Spawn(usize),
    /// An explicit yield: a schedule decision point with no other effect.
    Yield,
}

/// A deterministic test program: `threads[0]` starts runnable, the rest start
/// when some running thread spawns them. All shared locations hold an
/// initializing zero write before the program begins.
#[derive(Clone, Debug)]
pub struct Program {
    /// How many shared atomic locations the program uses.
    pub num_locations: usize,
    /// One operation sequence per logical thread.
    pub threads: Vec<Vec<Op>>,
}

/// The mathematical model of a program.
#[verifier::ext_equal]
pub ghost struct ProgramView {
    pub num_locations: int,
    pub threads: Seq<Seq<Op>>,
}

impl View for Program {
    type V = ProgramView;

    open spec fn view(&self) -> ProgramView {
        ProgramView {
            num_locations: self.num_locations as int,
            threads: self.threads@.map(|i: int, t: Vec<Op>| t@),
        }
    }
}

/// Every operation refers only to locations and threads the program declares,
/// and there is a main thread.
pub open spec fn wf_program(p: ProgramView) -> bool {
    &&& 1 <= p.threads.len()
    &&& forall|t: int, i: int|
        0 <= t < p.threads.len() && 0 <= i < p.threads[t].len() ==> wf_op(
            #[trigger] p.threads[t][i],
            p,
        )
}

/// The operation's location or spawn target is in range.
pub open spec fn wf_op(op: Op, p: ProgramView) -> bool {
    match op {
        Op::Store(l, _, _) => 0 <= l < p.num_locations,
        Op::Load(l, _) => 0 <= l < p.num_locations,
        Op::Spawn(c) => 0 < c < p.threads.len(),
        Op::Yield => true,
    }
}

impl Program {
    /// Whether every operation of the program is in range: checked once,
    /// before any exploration begins.
    pub fn validate(&self) -> (r: bool)
        ensures
            r == wf_program(self@),
    {
        if self.threads.len() == 0 {
            return false;
        }
        let mut t: usize = 0;
        while t < self.threads.len()
            invariant
                t <= self.threads.len(),
                1 <= self.threads@.len(),
                forall|u: int, i: int|
                    0 <= u < t && 0 <= i < self@.threads[u].len() ==> wf_op(
                        #[trigger] self@.threads[u][i],
                        self@,
                    ),
            decreases self.threads.len() - t,
        {
            let ops = &self.threads[t];
            let mut i: usize = 0;
            while i < ops.len()
                invariant
                    i <= ops.len(),
                    ops@ == self@.threads[t as int],
                    t < self.threads@.len(),
                    forall|k: int| 0 <= k < i ==> wf_op(#[trigger] ops@[k], self@),
                decreases ops.len() - i,
            {
                let ok = match ops[i] {
                    Op::Store(l, _, _) => l < self.num_locations,
                    Op::Load(l, _) => l < self.num_locations,
                    Op::Spawn(c) => 0 < c && c < self.threads.len(),
                    Op::Yield => true,
                };
                if !ok {
                    return false;
                }
                i = i + 1;
            }
            t = t + 1;
        }
        true
    }
}

} // verus!
