//! Model concurrent programs: the exploration driver. `check` constructs an
//! execution, repeatedly runs the test program to completion and advances the
//! decision trail to the next unexplored permutation, until exhaustion or a
//! configured bound. The driver never reads ambient state: configuration is
//! an explicit value, and resuming from a previously serialized trail goes
//! through `check_from`.

use vstd::prelude::*;
use crate::execution::{cfg_view, Config, Execution};
use crate::program::{wf_program, Program, ProgramView};
use crate::scheduler::run;
use crate::semantics::{
    init_state, lemma_init_wf, lemma_run_trail_fresh, spec_run, CheckError, ConfigView, RunEnd,
    RunStatus,
};
use crate::trail::{
    fresh_extension, lemma_leaves_distinct, next_leaf, spec_advance, DecisionView, Trail,
};

verus! {

/// What a finished check reports. A soft-bounded, possibly-incomplete search
/// is distinguishable from full exhaustion: full exhaustion is `exhausted`
/// and not `truncated`.
#[derive(Clone, Copy, PartialEq, Eq, Structural, Debug)]
pub struct Report {
    /// How many permutations were run.
    pub iterations: u64,
    /// True when no unexplored outcome remained anywhere in the trail; false
    /// when a permutation cap stopped the search first.
    pub exhausted: bool,
    /// True when some run was cut short by a soft per-run bound
    /// (`max_branches`, or the preemption bound): the covered tree is then
    /// possibly incomplete even when `exhausted` holds.
    pub truncated: bool,
}

/// The outcome of running the program once from the trail `start`, under
/// `bounds`, per the model. Opaque: the driver treats whole runs as values;
/// what a run is comes from `scheduler::run`'s contract.
#[verifier::opaque]
pub open spec fn run_of(prog: ProgramView, bounds: ConfigView, start: Seq<DecisionView>) -> RunEnd {
    spec_run(prog, bounds, init_state(prog), start, 0, Seq::empty(), 0, None)
}

/// The trail the `k`-th completed run of a leaf log ran under: the carried
/// trail for the first run, afterwards the advanced predecessor. Opaque, so
/// that reasoning about one leaf does not descend through its predecessors.
#[verifier::opaque]
pub open spec fn leaf_start(
    t0: Seq<DecisionView>,
    leaves: Seq<Seq<DecisionView>>,
    k: int,
) -> Seq<DecisionView> {
    if k == 0 {
        t0
    } else {
        spec_advance(leaves[k - 1]).unwrap()
    }
}

/// The bounds `Builder::new` starts from.
pub open spec fn default_bounds() -> ConfigView {
    ConfigView {
        max_threads: 4,
        max_memory: 67108864,
        max_branches: 1000,
        preemption_bound: None,
    }
}

/// What a finished exploration promises, over its result and its ghost log of
/// completed leaf trails: a malformed program is rejected outright; each
/// logged leaf is exactly the run of the trail it started from (the carried
/// trail, then each advanced predecessor), so the whole exploration is a
/// function of program, bounds and carried trail; every run before the last
/// completed, and an error is exactly the last run's, reported at once
/// (fail-fast); an `Ok` report counts the runs, says `exhausted` precisely
/// when the deepest leaf has no untried outcome left, stops early only at the
/// permutation cap, and says `truncated` precisely when some run was cut
/// short by a soft bound; and no two completed runs have identical trails.
#[verifier::opaque]
pub open spec fn explored(
    bounds: ConfigView,
    cap: Option<usize>,
    prog: ProgramView,
    t0: Seq<DecisionView>,
    leaves: Seq<Seq<DecisionView>>,
    result: Result<Report, CheckError>,
) -> bool {
    &&& (!wf_program(prog) ==> result == Err::<Report, CheckError>(CheckError::InvalidProgram)
        && leaves.len() == 0)
    &&& (wf_program(prog) ==> forall|k: int|
        0 <= k < leaves.len() ==> #[trigger] leaves[k] == run_of(
            prog,
            bounds,
            leaf_start(t0, leaves, k),
        ).trail)
    &&& (forall|k: int|
        0 <= k < leaves.len() - 1 ==> run_of(
            prog,
            bounds,
            #[trigger] leaf_start(t0, leaves, k),
        ).result is Ok)
    &&& (result matches Err(e) ==> ((!wf_program(prog) && e == CheckError::InvalidProgram) || (
    leaves.len() > 0 && run_of(prog, bounds, leaf_start(t0, leaves, leaves.len() - 1)).result
        == Err::<RunStatus, CheckError>(e))))
    &&& (result matches Ok(rep) ==> {
        &&& rep.iterations as int == leaves.len()
        &&& (leaves.len() > 0 ==> run_of(
            prog,
            bounds,
            leaf_start(t0, leaves, leaves.len() - 1),
        ).result is Ok)
        &&& (leaves.len() > 0 ==> (rep.exhausted <==> spec_advance(leaves.last()) is None))
        &&& (leaves.len() == 0 ==> !rep.exhausted)
        &&& (cap matches Some(m) ==> rep.iterations <= m)
        &&& (!rep.exhausted ==> (cap matches Some(m) && rep.iterations >= m) || rep.iterations
            >= u64::MAX - 2)
        &&& (rep.truncated <==> exists|k: int|
            0 <= k < leaves.len() && run_of(prog, bounds, #[trigger] leaf_start(t0, leaves, k)).result
                == Ok::<RunStatus, CheckError>(RunStatus::Bounded))
    })
    &&& (forall|k: int| 0 <= k < leaves.len() - 1 ==> next_leaf(#[trigger] leaves[k], leaves[k + 1]))
    &&& (forall|i: int, j: int| 0 <= i < j < leaves.len() ==> leaves[i] != leaves[j])
}

/// How the returned resume trail relates to the log: it is the next
/// unexplored trail when the permutation cap stopped the search (the carried
/// trail itself when nothing ran), the failing run's trail — the reproducible
/// witness — on an error, and absent exactly on exhaustion or a rejected
/// program.
pub open spec fn resumes(
    t0: Seq<DecisionView>,
    leaves: Seq<Seq<DecisionView>>,
    result: Result<Report, CheckError>,
    resume: Option<Seq<DecisionView>>,
) -> bool {
    match resume {
        Some(t2) => {
            &&& (result matches Ok(rep) ==> !rep.exhausted && (if leaves.len() == 0 {
                t2 == t0
            } else {
                Some(t2) == spec_advance(leaves.last())
            }))
            &&& (result is Err ==> leaves.len() > 0 && t2 == leaves.last())
        },
        None => {
            &&& (result matches Ok(rep) ==> rep.exhausted)
            &&& (result is Err ==> leaves.len() == 0)
        },
    }
}

/// The driver's running account of a finished prefix of the exploration:
/// every logged leaf is the run of its starting trail, every logged run
/// completed, `truncated` says whether any was cut by a soft bound, and
/// consecutive leaves advance depth-first. Opaque: maintained step by step.
#[verifier::opaque]
pub open spec fn log_state(
    bounds: ConfigView,
    prog: ProgramView,
    t0: Seq<DecisionView>,
    leaves: Seq<Seq<DecisionView>>,
    truncated: bool,
) -> bool {
    &&& (forall|k: int|
        0 <= k < leaves.len() ==> #[trigger] leaves[k] == run_of(
            prog,
            bounds,
            leaf_start(t0, leaves, k),
        ).trail)
    &&& (forall|k: int|
        0 <= k < leaves.len() ==> run_of(
            prog,
            bounds,
            #[trigger] leaf_start(t0, leaves, k),
        ).result is Ok)
    &&& (truncated <==> exists|k: int|
        0 <= k < leaves.len() && run_of(prog, bounds, #[trigger] leaf_start(t0, leaves, k)).result
            == Ok::<RunStatus, CheckError>(RunStatus::Bounded))
    &&& (forall|k: int| 0 <= k < leaves.len() - 1 ==> next_leaf(#[trigger] leaves[k], leaves[k + 1]))
}

/// Bridges the scheduler's contract to the driver's opaque view of one run:
/// what `scheduler::run` computed is `run_of` the trail it started from, and
/// it extended that trail only by fresh records.
#[verifier::rlimit(100)]
#[verifier::spinoff_prover]
proof fn lemma_run_of_is(
    prog: ProgramView,
    bounds: ConfigView,
    cur: Seq<DecisionView>,
    end: RunEnd,
)
    requires
        end == spec_run(prog, bounds, init_state(prog), cur, 0, Seq::empty(), 0, None),
    ensures
        end == run_of(prog, bounds, cur),
        fresh_extension(cur, end.trail),
{
    reveal(run_of);
    lemma_run_trail_fresh(prog, bounds, init_state(prog), cur, 0, Seq::empty(), 0, None);
}

#[verifier::rlimit(100)]
#[verifier::spinoff_prover]
proof fn lemma_log_step(
    bounds: ConfigView,
    prog: ProgramView,
    t0: Seq<DecisionView>,
    prev: Seq<Seq<DecisionView>>,
    cur: Seq<DecisionView>,
    end: RunEnd,
    truncated: bool,
)
    requires
        log_state(bounds, prog, t0, prev, truncated),
        prev.len() == 0 ==> cur == t0,
        prev.len() > 0 ==> spec_advance(prev.last()) == Some(cur),
        end == run_of(prog, bounds, cur),
        fresh_extension(cur, end.trail),
        end.result is Ok,
    ensures
        log_state(
            bounds,
            prog,
            t0,
            prev.push(end.trail),
            truncated || end.result == Ok::<RunStatus, CheckError>(RunStatus::Bounded),
        ),
{
    reveal(log_state);
    let leaves = prev.push(end.trail);
    if prev.len() > 0 {
        assert(next_leaf(prev.last(), end.trail));
    }
    assert forall|k: int| 0 <= k < prev.len() implies leaf_start(t0, leaves, k) == leaf_start(
        t0,
        prev,
        k,
    ) by {
        reveal(leaf_start);
    }
    assert(leaf_start(t0, leaves, leaves.len() - 1) == cur) by {
        reveal(leaf_start);
    }
}

proof fn lemma_explored_ok(
    bounds: ConfigView,
    cap: Option<usize>,
    prog: ProgramView,
    t0: Seq<DecisionView>,
    leaves: Seq<Seq<DecisionView>>,
    rep: Report,
)
    requires
        wf_program(prog),
        log_state(bounds, prog, t0, leaves, rep.truncated),
        rep.iterations as int == leaves.len(),
        leaves.len() > 0 ==> (rep.exhausted <==> spec_advance(leaves.last()) is None),
        leaves.len() == 0 ==> !rep.exhausted,
        cap matches Some(m) ==> rep.iterations <= m,
        !rep.exhausted ==> (cap matches Some(m) && rep.iterations >= m) || rep.iterations
            >= u64::MAX - 2,
    ensures
        explored(bounds, cap, prog, t0, leaves, Ok(rep)),
{
    reveal(explored);
    reveal(log_state);
    crate::trail::lemma_leaves_distinct(leaves);
}

#[verifier::rlimit(100)]
#[verifier::spinoff_prover]
proof fn lemma_explored_err(
    bounds: ConfigView,
    cap: Option<usize>,
    prog: ProgramView,
    t0: Seq<DecisionView>,
    prev: Seq<Seq<DecisionView>>,
    truncated: bool,
    cur: Seq<DecisionView>,
    end: RunEnd,
    e: CheckError,
)
    requires
        wf_program(prog),
        log_state(bounds, prog, t0, prev, truncated),
        prev.len() == 0 ==> cur == t0,
        prev.len() > 0 ==> spec_advance(prev.last()) == Some(cur),
        end == run_of(prog, bounds, cur),
        fresh_extension(cur, end.trail),
        end.result == Err::<RunStatus, CheckError>(e),
    ensures
        explored(bounds, cap, prog, t0, prev.push(end.trail), Err(e)),
{
    reveal(explored);
    reveal(log_state);
    let leaves = prev.push(end.trail);
    if prev.len() > 0 {
        assert(next_leaf(prev.last(), end.trail));
    }
    assert forall|k: int| 0 <= k < prev.len() implies leaf_start(t0, leaves, k) == leaf_start(
        t0,
        prev,
        k,
    ) by {
        reveal(leaf_start);
    }
    assert(leaf_start(t0, leaves, leaves.len() - 1) == cur) by {
        reveal(leaf_start);
    }
    crate::trail::lemma_leaves_distinct(leaves);
}

/// Configure a model check: an immutable-after-construction bag of bounds and
/// options, created once per check invocation and read-only during
/// exploration.
///
/// The run-relevant bounds, as `Builder::bounds`, determine every run
/// together with the program and the trail.
#[derive(Clone, Debug)]
pub struct Builder {
    /// Max number of logical threads to check as part of the execution.
    pub max_threads: usize,
    /// Maximum bookkeeping budget (recorded writes) for the metadata.
    pub max_memory: usize,
    /// Maximum number of decision points per permutation.
    pub max_branches: usize,
    /// Maximum number of permutations to explore.
    pub max_permutations: Option<usize>,
    /// Maximum number of seconds to spend on checking. The embedding layer
    /// that owns a clock enforces this around the run/advance loop; the
    /// verified driver itself never reads the time.
    pub max_duration: Option<u64>,
    /// Maximum number of thread preemptions to explore per permutation.
    pub preemption_bound: Option<usize>,
    /// Where to store and load the check's progress during an exhaustive
    /// check. The embedding layer performs the file reads and writes; the
    /// serialized form is `codec::encode_trail`.
    pub checkpoint_file: Option<String>,
    /// How often (in permutations) to write the checkpoint file.
    pub checkpoint_interval: usize,
    /// Log execution progress.
    pub log: bool,
}

impl Builder {
    /// The bounds a run is checked against.
    pub open spec fn bounds(&self) -> ConfigView {
        ConfigView {
            max_threads: self.max_threads as int,
            max_memory: self.max_memory as int,
            max_branches: self.max_branches as int,
            preemption_bound: match self.preemption_bound {
                Some(p) => Some(p as int),
                None => None,
            },
        }
    }

    /// A builder with the default bounds.
    pub fn new() -> (b: Builder)
        ensures
            b.max_threads == 4,
            b.max_memory == 67108864,
            b.max_branches == 1000,
            b.max_permutations is None,
            b.max_duration is None,
            b.preemption_bound is None,
            b.checkpoint_file is None,
            b.checkpoint_interval == 20000,
            b.log == false,
    {
        Builder {
            max_threads: 4,
            max_memory: 67108864,
            max_branches: 1000,
            max_permutations: None,
            max_duration: None,
            preemption_bound: None,
            checkpoint_file: None,
            checkpoint_interval: 20000,
            log: false,
        }
    }

    /// Set the checkpoint file.
    pub fn checkpoint_file(&mut self, file: &str)
        ensures
            final(self).checkpoint_file matches Some(f) && f@ == file@,
            final(self).max_threads == old(self).max_threads,
            final(self).max_memory == old(self).max_memory,
            final(self).max_branches == old(self).max_branches,
            final(self).max_permutations == old(self).max_permutations,
            final(self).max_duration == old(self).max_duration,
            final(self).preemption_bound == old(self).preemption_bound,
            final(self).checkpoint_interval == old(self).checkpoint_interval,
            final(self).log == old(self).log,
    {
        self.checkpoint_file = Some(file.to_owned());
    }

    /// Check a model: explore every permutation of the program from an empty
    /// trail. The whole exploration is pinned by `explored` over some log of
    /// completed leaf trails: a function of the program and this builder's
    /// bounds alone, so two invocations with equal configuration are
    /// constrained identically.
    pub fn check(&self, prog: &Program) -> (r: Result<Report, CheckError>)
        ensures
            !wf_program(prog@) ==> r == Err::<Report, CheckError>(CheckError::InvalidProgram),
            exists|leaves: Seq<Seq<DecisionView>>| #[trigger] explored(
                self.bounds(),
                self.max_permutations,
                prog@,
                Seq::empty(),
                leaves,
                r,
            ),
    {
        let out = self.check_from(prog, Trail::new());
        proof {
            reveal(explored);
            assert(explored(
                self.bounds(),
                self.max_permutations,
                prog@,
                Seq::empty(),
                out.2@,
                out.0,
            ));
        }
        out.0
    }

    /// The exploration loop, resuming from a carried trail (empty for a fresh
    /// check, or one loaded from a checkpoint): run the program to a leaf,
    /// advance the trail depth-first, and repeat until no unexplored outcome
    /// remains or the permutation cap trips. The result and the ghost leaf
    /// log satisfy `explored`; alongside them comes the trail to resume a
    /// capped search from (or the failing run's trail, the reproducible
    /// witness, on an error), per `resumes`. The loop's own bound is the
    /// word-size iteration cap; that a bounded search space is spent after
    /// finitely many permutations is the measure argument of
    /// `trail::lemma_advance_decreases_measure`.
    #[verifier::rlimit(100)]
    pub fn check_from(&self, prog: &Program, trail: Trail) -> (r: (
        Result<Report, CheckError>,
        Option<Trail>,
        Ghost<Seq<Seq<DecisionView>>>,
    ))
        ensures
            explored(self.bounds(), self.max_permutations, prog@, trail@, r.2@, r.0),
            resumes(
                trail@,
                r.2@,
                r.0,
                match r.1 {
                    Some(t) => Some(t@),
                    None => None,
                },
            ),
    {
        if !prog.validate() {
            proof {
                reveal(explored);
            }
            return (Err(CheckError::InvalidProgram), None, Ghost(Seq::empty()));
        }
        if let Some(mp) = self.max_permutations {
            if mp == 0 {
                let rep = Report { iterations: 0, exhausted: false, truncated: false };
                proof {
                    reveal(explored);
                }
                return (Ok(rep), Some(trail), Ghost(Seq::empty()));
            }
        }
        let config = Config {
            max_threads: self.max_threads,
            max_memory: self.max_memory,
            max_branches: self.max_branches,
            preemption_bound: self.preemption_bound,
        };
        let ghost trail0 = trail@;
        let mut e = Execution::new(prog, config, trail, self.log);
        proof {
            assert(cfg_view(config) == self.bounds());
            lemma_init_wf(prog@);
        }
        let mut i: u64 = 0;
        let mut truncated = false;
        let ghost mut leaves: Seq<Seq<DecisionView>> = Seq::empty();
        proof {
            reveal(log_state);
        }
        loop
            invariant
                wf_program(prog@),
                e.state() == init_state(prog@),
                e.pos == 0,
                e.preemptions == 0,
                e.last_thread is None,
                e.loads@ == Seq::<u64>::empty(),
                e.config == config,
                cfg_view(config) == self.bounds(),
                trail0 == trail@,
                i as int == leaves.len(),
                i < u64::MAX - 1,
                (self.max_permutations matches Some(m) ==> i < m),
                leaves.len() == 0 ==> e.trail@ == trail0,
                leaves.len() > 0 ==> spec_advance(leaves.last()) == Some(e.trail@),
                log_state(self.bounds(), prog@, trail0, leaves, truncated),
            decreases u64::MAX - i,
        {
            let ghost start_trail = e.trail@;
            let ghost prev = leaves;
            let ghost end = spec_run(
                prog@,
                self.bounds(),
                init_state(prog@),
                start_trail,
                0,
                Seq::empty(),
                0,
                None,
            );
            let ghost tr0 = truncated;
            let res = run(&mut e, prog);
            proof {
                lemma_run_of_is(prog@, self.bounds(), start_trail, end);
            }
            i = i + 1;
            let bounded_run = match res {
                Ok(RunStatus::Bounded) => true,
                _ => false,
            };
            if bounded_run {
                truncated = true;
            }
            proof {
                leaves = leaves.push(end.trail);
            }
            match res {
                Err(err) => {
                    proof {
                        lemma_explored_err(
                            self.bounds(),
                            self.max_permutations,
                            prog@,
                            trail0,
                            prev,
                            tr0,
                            start_trail,
                            end,
                            err,
                        );
                    }
                    return (Err(err), Some(e.trail), Ghost(leaves));
                },
                Ok(_) => {},
            }
            proof {
                lemma_log_step(self.bounds(), prog@, trail0, prev, start_trail, end, tr0);
                assert(truncated == (tr0 || end.result == Ok::<RunStatus, CheckError>(
                    RunStatus::Bounded,
                )));
            }
            match e.step(prog) {
                None => {
                    let rep = Report { iterations: i, exhausted: true, truncated };
                    proof {
                        lemma_explored_ok(
                            self.bounds(),
                            self.max_permutations,
                            prog@,
                            trail0,
                            leaves,
                            rep,
                        );
                    }
                    return (Ok(rep), None, Ghost(leaves));
                },
                Some(e2) => {
                    let capped = match self.max_permutations {
                        Some(mp) => i >= mp as u64,
                        None => false,
                    } || i >= u64::MAX - 2;
                    if capped {
                        let rep = Report { iterations: i, exhausted: false, truncated };
                        proof {
                            lemma_explored_ok(
                                self.bounds(),
                                self.max_permutations,
                                prog@,
                                trail0,
                                leaves,
                                rep,
                            );
                        }
                        return (Ok(rep), Some(e2.trail), Ghost(leaves));
                    }
                    e = e2;
                },
            }
        }
    }
}

/// Run all concurrent permutations of the provided program with the default
/// bounds: constrained exactly as `Builder::new().check` is, over the default
/// bounds and no permutation cap.
pub fn model(prog: &Program) -> (r: Result<Report, CheckError>)
    ensures
        !wf_program(prog@) ==> r == Err::<Report, CheckError>(CheckError::InvalidProgram),
        exists|leaves: Seq<Seq<DecisionView>>| #[trigger] explored(
            default_bounds(),
            None,
            prog@,
            Seq::empty(),
            leaves,
            r,
        ),
{
    let b = Builder::new();
    let r = b.check(prog);
    proof {
        reveal(explored);
        assert(b.bounds() == default_bounds());
        let lv = choose|leaves: Seq<Seq<DecisionView>>|
            #[trigger] explored(b.bounds(), b.max_permutations, prog@, Seq::empty(), leaves, r);
        assert(explored(default_bounds(), None, prog@, Seq::empty(), lv, r));
    }
    r
}

/// Every byte is a decimal digit.
pub open spec fn all_digits(s: Seq<u8>) -> bool {
    forall|i: int| 0 <= i < s.len() ==> 48 <= #[trigger] s[i] <= 57
}

/// The number the decimal digits denote.
pub open spec fn decimal_value(s: Seq<u8>) -> int
    decreases s.len(),
{
    if s.len() == 0 {
        0
    } else {
        decimal_value(s.drop_last()) * 10 + (s.last() - 48)
    }
}

proof fn lemma_decimal_prefix_le(s: Seq<u8>, k: int)
    requires
        0 <= k <= s.len(),
        all_digits(s),
    ensures
        decimal_value(s.subrange(0, k)) <= decimal_value(s),
        decimal_value(s) >= 0,
    decreases s.len(),
{
    if s.len() > 0 {
        lemma_decimal_prefix_le(s.drop_last(), if k < s.len() { k } else { (s.len() - 1) as int });
        if k < s.len() {
            assert(s.subrange(0, k) == s.drop_last().subrange(0, k));
        } else {
            assert(s.subrange(0, k) == s);
        }
    } else {
        assert(s.subrange(0, k) == s);
    }
}

/// Parse a decimal configuration override. Returns the denoted number exactly
/// when the input is one or more decimal digits denoting a value that fits in
/// a machine word; `None` on every malformed value, so a caller can fail fast
/// at configuration construction time.
pub fn parse_config_value(s: &[u8]) -> (r: Option<u64>)
    ensures
        match r {
            Some(v) => s@.len() > 0 && all_digits(s@) && v as int == decimal_value(s@),
            None => s@.len() == 0 || !all_digits(s@) || decimal_value(s@) > u64::MAX,
        },
{
    if s.len() == 0 {
        return None;
    }
    let mut r: u64 = 0;
    let mut i: usize = 0;
    while i < s.len()
        invariant
            0 < s@.len(),
            i <= s@.len(),
            forall|k: int| 0 <= k < i ==> 48 <= #[trigger] s@[k] <= 57,
            r as int == decimal_value(s@.subrange(0, i as int)),
        decreases s@.len() - i,
    {
        let b = s[i];
        if b < 48 || b > 57 {
            return None;
        }
        let d = (b - 48) as u64;
        proof {
            assert(s@.subrange(0, i + 1).drop_last() == s@.subrange(0, i as int));
        }
        if r > u64::MAX / 10 {
            proof {
                lemma_decimal_overflow(s@, i as int);
            }
            return None;
        }
        let m = r * 10;
        if d > u64::MAX - m {
            proof {
                lemma_decimal_overflow(s@, i as int);
            }
            return None;
        }
        r = m + d;
        i = i + 1;
    }
    proof {
        assert(s@.subrange(0, s@.len() as int) == s@);
    }
    Some(r)
}

proof fn lemma_decimal_overflow(s: Seq<u8>, i: int)
    requires
        0 <= i < s.len(),
        48 <= s[i] <= 57,
        forall|k: int| 0 <= k < i ==> 48 <= #[trigger] s[k] <= 57,
        decimal_value(s.subrange(0, i)) * 10 + (s[i] - 48) > u64::MAX,
    ensures
        !all_digits(s) || decimal_value(s) > u64::MAX,
{
    if all_digits(s) {
        lemma_decimal_prefix_le(s, i + 1);
        assert(s.subrange(0, i + 1).drop_last() == s.subrange(0, i));
        assert(decimal_value(s.subrange(0, i + 1)) > u64::MAX);
    }
}

} // verus!
