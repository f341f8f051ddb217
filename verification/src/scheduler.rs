//! The scheduler: drives one cooperative run of the test program, resolving
//! each decision point against the decision trail — replaying recorded
//! outcomes exactly, and recording the full outcome set of every fresh
//! decision point before committing to its first outcome. Verified to compute
//! exactly `spec_run`, so a run is a pure function of program, configuration
//! and trail.

use vstd::prelude::*;
use vstd::assert_seqs_equal;
use crate::execution::{cfg_view, clock_view, locs_view, seen_view, threads_view, Execution};
use crate::program::{MemOrdering, Op, Program};
use crate::semantics::{
    all_finished, eligible, eligible_upto, eligible_writes, lemma_writes_upto_mono, load_loc,
    next_op, sched_kept, sched_outcomes, sched_outcomes_upto, sched_pruned, started_count,
    started_upto, thread_runnable, total_writes, wf_loc_at, wf_state, wf_thread_at, wf_write_in,
    writes_upto, CheckError, RunStatus, StateView, ThreadStatus,
};
use crate::program::wf_program;
use crate::trail::{Decision, DecisionKind};

verus! {

/// Whether the ordering synchronizes on its read half.
fn ord_acquires_x(o: MemOrdering) -> (r: bool)
    ensures
        r == crate::semantics::ord_acquires(o),
{
    match o {
        MemOrdering::Acquire => true,
        MemOrdering::AcqRel => true,
        MemOrdering::SeqCst => true,
        _ => false,
    }
}

/// Whether the ordering synchronizes on its write half.
fn ord_releases_x(o: MemOrdering) -> (r: bool)
    ensures
        r == crate::semantics::ord_releases(o),
{
    match o {
        MemOrdering::Release => true,
        MemOrdering::AcqRel => true,
        MemOrdering::SeqCst => true,
        _ => false,
    }
}

/// An element-for-element copy.
fn copy_u64_vec(v: &Vec<u64>) -> (r: Vec<u64>)
    ensures
        r@ == v@,
{
    let mut r: Vec<u64> = Vec::new();
    let mut i: usize = 0;
    while i < v.len()
        invariant
            i <= v.len(),
            r@ == v@.subrange(0, i as int),
        decreases v.len() - i,
    {
        r.push(v[i]);
        proof {
            assert_seqs_equal!(r@ == v@.subrange(0, i + 1));
        }
        i = i + 1;
    }
    proof {
        assert_seqs_equal!(r@ == v@);
    }
    r
}

/// Whether the two vectors hold the same outcomes.
fn eq_u64_vecs(a: &Vec<u64>, b: &Vec<u64>) -> (r: bool)
    ensures
        r == (a@ == b@),
{
    if a.len() != b.len() {
        return false;
    }
    let mut i: usize = 0;
    while i < a.len()
        invariant
            i <= a.len(),
            a@.len() == b@.len(),
            forall|k: int| 0 <= k < i ==> a@[k] == b@[k],
        decreases a.len() - i,
    {
        if a[i] != b[i] {
            return false;
        }
        i = i + 1;
    }
    proof {
        assert_seqs_equal!(a@ == b@);
    }
    true
}

/// Whether every started thread has terminated: the run is complete.
fn all_finished_x(e: &Execution) -> (r: bool)
    ensures
        r == all_finished(e.state()),
{
    let n = e.threads.len();
    let mut t: usize = 0;
    while t < n
        invariant
            t <= n,
            n == e.threads@.len(),
            forall|u: int| 0 <= u < t ==> !thread_runnable(e.state(), u),
        decreases n - t,
    {
        if e.threads[t].status == ThreadStatus::Runnable {
            assert(thread_runnable(e.state(), t as int));
            return false;
        }
        t = t + 1;
    }
    true
}

/// The location thread `u`'s next operation reads without writing, if any.
fn op_load_loc(e: &Execution, prog: &Program, u: usize) -> (r: Option<usize>)
    requires
        wf_state(prog@, e.state(), e.pos as int),
        thread_runnable(e.state(), u as int),
    ensures
        r == load_loc(next_op(prog@, e.state(), u as int)),
{
    proof {
        assert(wf_thread_at(prog@, e.state(), u as int, e.pos as int));
    }
    match prog.threads[u][e.threads[u].ip] {
        Op::Load(l, _) => Some(l),
        _ => None,
    }
}

/// Enumerate the outcomes of the next schedule decision: every runnable
/// thread, in ascending order, except those pruned as equivalent to an
/// earlier candidate whose next operation reads the same location.
fn sched_outcomes_x(e: &Execution, prog: &Program) -> (r: Vec<u64>)
    requires
        wf_state(prog@, e.state(), e.pos as int),
    ensures
        r@ == sched_outcomes(prog@, e.state()),
        r@.len() <= e.threads@.len(),
{
    let ghost s = e.state();
    let n = e.threads.len();
    let mut outs: Vec<u64> = Vec::new();
    let mut t: usize = 0;
    while t < n
        invariant
            t <= n,
            n == e.threads@.len(),
            s == e.state(),
            wf_state(prog@, s, e.pos as int),
            outs@ == sched_outcomes_upto(prog@, s, t as int),
            outs@.len() <= t,
        decreases n - t,
    {
        if e.threads[t].status == ThreadStatus::Runnable {
            assert(thread_runnable(s, t as int));
            let t_load = op_load_loc(e, prog, t);
            let mut pruned = false;
            match t_load {
                None => {
                    assert(!sched_pruned(prog@, s, t as int));
                },
                Some(lt) => {
                    let mut u: usize = 0;
                    while u < t && !pruned
                        invariant
                            u <= t < n,
                            n == e.threads@.len(),
                            s == e.state(),
                            wf_state(prog@, s, e.pos as int),
                            Some(lt) == load_loc(next_op(prog@, s, t as int)),
                            pruned ==> sched_pruned(prog@, s, t as int),
                            !pruned ==> forall|w: int|
                                0 <= w < u ==> !(#[trigger] thread_runnable(s, w) && load_loc(
                                    next_op(prog@, s, w),
                                ) is Some && load_loc(next_op(prog@, s, w)) == load_loc(
                                    next_op(prog@, s, t as int),
                                )),
                        decreases t - u,
                    {
                        if e.threads[u].status == ThreadStatus::Runnable {
                            assert(thread_runnable(s, u as int));
                            match op_load_loc(e, prog, u) {
                                Some(lu) => {
                                    if lu == lt {
                                        pruned = true;
                                    }
                                },
                                None => {},
                            }
                        }
                        u = u + 1;
                    }
                    proof {
                        if !pruned {
                            assert(!sched_pruned(prog@, s, t as int));
                        }
                    }
                },
            }
            if !pruned {
                assert(sched_kept(prog@, s, t as int));
                outs.push(t as u64);
            } else {
                assert(!sched_kept(prog@, s, t as int));
            }
        } else {
            assert(!sched_kept(prog@, s, t as int));
        }
        t = t + 1;
    }
    outs
}

/// Enumerate the outcomes of a load's read decision: exactly the eligible
/// write indices, in ascending order.
fn eligible_x(e: &Execution, prog: &Program, t: usize, l: usize, o: MemOrdering) -> (r: Vec<u64>)
    requires
        wf_state(prog@, e.state(), e.pos as int),
        t < e.threads@.len(),
        l < e.locs@.len(),
    ensures
        r@ == eligible_writes(e.state(), t as int, l as int, o),
{
    let ghost s = e.state();
    proof {
        assert(wf_thread_at(prog@, s, t as int, e.pos as int));
        assert(wf_loc_at(s, l as int, e.pos as int));
    }
    let wl = e.locs[l].writes.len();
    let is_sc = match o {
        MemOrdering::SeqCst => true,
        _ => false,
    };
    let mut r: Vec<u64> = Vec::new();
    let mut i: usize = 0;
    while i < wl
        invariant
            i <= wl,
            s == e.state(),
            t < e.threads@.len(),
            l < e.locs@.len(),
            wl == e.locs@[l as int].writes@.len(),
            wf_state(prog@, s, e.pos as int),
            is_sc == (o == MemOrdering::SeqCst),
            r@ == eligible_upto(s, t as int, l as int, o, i as int),
        decreases wl - i,
    {
        proof {
            assert(wf_thread_at(prog@, s, t as int, e.pos as int));
            assert(wf_loc_at(s, l as int, e.pos as int));
        }
        let mut ok = i >= e.threads[t].seen[l];
        if ok && is_sc {
            ok = i >= e.locs[l].last_sc;
        }
        if ok {
            let mut j = i + 1;
            while j < wl && ok
                invariant
                    i < j <= wl,
                    s == e.state(),
                    t < e.threads@.len(),
                    l < e.locs@.len(),
                    wl == e.locs@[l as int].writes@.len(),
                    wf_state(prog@, s, e.pos as int),
                    ok ==> forall|jj: int|
                        i < jj < j ==> !crate::semantics::write_known(
                            s,
                            t as int,
                            #[trigger] s.locs[l as int].writes[jj],
                        ),
                    !ok ==> !eligible(s, t as int, l as int, o, i as int),
                decreases wl - j,
            {
                proof {
                    assert(wf_loc_at(s, l as int, e.pos as int));
                    assert(wf_write_in(s, s.locs[l as int].writes[j as int], e.pos as int));
                    assert(wf_thread_at(prog@, s, t as int, e.pos as int));
                }
                let wr = e.locs[l].writes[j].writer;
                let wt = e.locs[l].writes[j].time;
                if e.threads[t].clock[wr] >= wt {
                    assert(crate::semantics::write_known(
                        s,
                        t as int,
                        s.locs[l as int].writes[j as int],
                    ));
                    ok = false;
                } else {
                    assert(!crate::semantics::write_known(
                        s,
                        t as int,
                        s.locs[l as int].writes[j as int],
                    ));
                }
                j = j + 1;
            }
            if ok {
                assert(eligible(s, t as int, l as int, o, i as int));
                r.push(i as u64);
            } else {
                assert(!eligible(s, t as int, l as int, o, i as int));
            }
        } else {
            assert(!eligible(s, t as int, l as int, o, i as int));
        }
        i = i + 1;
    }
    r
}

/// How many logical threads have been started.
fn started_count_x(e: &Execution) -> (r: usize)
    ensures
        r as int == started_count(e.state()),
        r <= e.threads@.len(),
{
    let n = e.threads.len();
    let mut count: usize = 0;
    let mut t: usize = 0;
    while t < n
        invariant
            t <= n,
            n == e.threads@.len(),
            count as int == started_upto(e.state(), t as int),
            count <= t,
        decreases n - t,
    {
        if !(e.threads[t].status == ThreadStatus::NotStarted) {
            count = count + 1;
        }
        t = t + 1;
    }
    count
}

/// Whether the recorded-write bookkeeping exceeds the memory budget.
fn memory_exceeded_x(e: &Execution) -> (r: bool)
    ensures
        r == (total_writes(e.state()) > cfg_view(e.config).max_memory),
{
    let nl = e.locs.len();
    let maxm = e.config.max_memory;
    let mut total: usize = 0;
    let mut l: usize = 0;
    while l < nl
        invariant
            l <= nl,
            nl == e.locs@.len(),
            maxm == e.config.max_memory,
            total as int == writes_upto(e.state(), l as int),
            total <= maxm,
        decreases nl - l,
    {
        let wl = e.locs[l].writes.len();
        if wl > maxm - total {
            proof {
                lemma_writes_upto_mono(e.state(), l as int + 1, nl as int);
            }
            return true;
        }
        total = total + wl;
        l = l + 1;
    }
    proof {
        lemma_writes_upto_mono(e.state(), l as int, nl as int);
    }
    false
}

/// An element-for-element copy.
fn copy_usize_vec(v: &Vec<usize>) -> (r: Vec<usize>)
    ensures
        r@ == v@,
{
    let mut r: Vec<usize> = Vec::new();
    let mut i: usize = 0;
    while i < v.len()
        invariant
            i <= v.len(),
            r@ == v@.subrange(0, i as int),
        decreases v.len() - i,
    {
        r.push(v[i]);
        proof {
            assert_seqs_equal!(r@ == v@.subrange(0, i + 1));
        }
        i = i + 1;
    }
    proof {
        assert_seqs_equal!(r@ == v@);
    }
    r
}

/// Join the source clock into the destination, pointwise maximum.
fn join_u64_into(dst: &mut Vec<u64>, src: &Vec<u64>)
    requires
        old(dst)@.len() == src@.len(),
    ensures
        clock_view(final(dst)@) == crate::semantics::join_clock(
            clock_view(old(dst)@),
            clock_view(src@),
        ),
        final(dst)@.len() == old(dst)@.len(),
{
    let mut i: usize = 0;
    let n = dst.len();
    while i < n
        invariant
            i <= n,
            n == dst@.len() == src@.len(),
            dst@.len() == old(dst)@.len(),
            forall|k: int|
                i <= k < n ==> #[trigger] dst@[k] == old(dst)@[k],
            forall|k: int|
                0 <= k < i ==> #[trigger] dst@[k] as int == crate::semantics::join_clock(
                    clock_view(old(dst)@),
                    clock_view(src@),
                )[k],
        decreases n - i,
    {
        if src[i] > dst[i] {
            let x = src[i];
            dst[i] = x;
        }
        i = i + 1;
    }
    proof {
        assert_seqs_equal!(
            clock_view(dst@) == crate::semantics::join_clock(clock_view(old(dst)@), clock_view(src@))
        );
    }
}

/// Join the source coherence frontier into the destination, pointwise maximum.
fn join_usize_into(dst: &mut Vec<usize>, src: &Vec<usize>)
    requires
        old(dst)@.len() == src@.len(),
    ensures
        seen_view(final(dst)@) == crate::semantics::join_clock(
            seen_view(old(dst)@),
            seen_view(src@),
        ),
        final(dst)@.len() == old(dst)@.len(),
{
    let mut i: usize = 0;
    let n = dst.len();
    while i < n
        invariant
            i <= n,
            n == dst@.len() == src@.len(),
            dst@.len() == old(dst)@.len(),
            forall|k: int|
                i <= k < n ==> #[trigger] dst@[k] == old(dst)@[k],
            forall|k: int|
                0 <= k < i ==> #[trigger] dst@[k] as int == crate::semantics::join_clock(
                    seen_view(old(dst)@),
                    seen_view(src@),
                )[k],
        decreases n - i,
    {
        if src[i] > dst[i] {
            let x = src[i];
            dst[i] = x;
        }
        i = i + 1;
    }
    proof {
        assert_seqs_equal!(
            seen_view(dst@) == crate::semantics::join_clock(seen_view(old(dst)@), seen_view(src@))
        );
    }
}

proof fn lemma_clock_view_update(c: Seq<u64>, i: int, x: u64)
    requires
        0 <= i < c.len(),
    ensures
        clock_view(c.update(i, x)) == clock_view(c).update(i, x as int),
{
    assert_seqs_equal!(clock_view(c.update(i, x)) == clock_view(c).update(i, x as int));
}

proof fn lemma_seen_view_update(c: Seq<usize>, i: int, x: usize)
    requires
        0 <= i < c.len(),
    ensures
        seen_view(c.update(i, x)) == seen_view(c).update(i, x as int),
{
    assert_seqs_equal!(seen_view(c.update(i, x)) == seen_view(c).update(i, x as int));
}

/// A write stays well formed when the budget grows and write histories only
/// grow.
proof fn lemma_wf_write_grow(s0: StateView, s1: StateView, w: crate::semantics::WriteView, b: int, b2: int)
    requires
        wf_write_in(s0, w, b),
        b <= b2,
        s1.threads.len() == s0.threads.len(),
        s1.locs.len() == s0.locs.len(),
        forall|l: int|
            0 <= l < s0.locs.len() ==> #[trigger] s1.locs[l].writes.len() >= s0.locs[l].writes.len(),
    ensures
        wf_write_in(s1, w, b2),
{
}

/// An untouched location stays well formed when the budget grows and write
/// histories only grow.
proof fn lemma_wf_loc_same(s0: StateView, s1: StateView, l: int, b: int, b2: int)
    requires
        0 <= l < s0.locs.len(),
        wf_loc_at(s0, l, b),
        b <= b2,
        s1.threads.len() == s0.threads.len(),
        s1.locs.len() == s0.locs.len(),
        s1.locs[l] == s0.locs[l],
        forall|k: int|
            0 <= k < s0.locs.len() ==> #[trigger] s1.locs[k].writes.len() >= s0.locs[k].writes.len(),
    ensures
        wf_loc_at(s1, l, b2),
{
    assert forall|i: int| 0 <= i < s1.locs[l].writes.len() implies wf_write_in(
        s1,
        #[trigger] s1.locs[l].writes[i],
        b2,
    ) by {
        assert(wf_write_in(s0, s0.locs[l].writes[i], b));
        lemma_wf_write_grow(s0, s1, s0.locs[l].writes[i], b, b2);
    }
}

/// An untouched thread stays well formed when the budget grows and write
/// histories only grow.
proof fn lemma_wf_thread_same(
    prog: crate::program::ProgramView,
    s0: StateView,
    s1: StateView,
    t: int,
    b: int,
    b2: int,
)
    requires
        0 <= t < s0.threads.len(),
        wf_thread_at(prog, s0, t, b),
        b <= b2,
        s1.threads.len() == s0.threads.len(),
        s1.locs.len() == s0.locs.len(),
        s1.threads[t] == s0.threads[t],
        forall|k: int|
            0 <= k < s0.locs.len() ==> #[trigger] s1.locs[k].writes.len() >= s0.locs[k].writes.len(),
    ensures
        wf_thread_at(prog, s1, t, b2),
{
}

/// Resolve one decision point against the trail: replay the recorded choice
/// exactly, or record the fresh decision's full outcome set and commit to its
/// first outcome.
fn trail_step(e: &mut Execution, kind: DecisionKind, outs: Vec<u64>) -> (r: Option<usize>)
    requires
        old(e).pos <= old(e).trail@.len(),
    ensures
        final(e).threads == old(e).threads,
        final(e).locs == old(e).locs,
        final(e).loads == old(e).loads,
        final(e).preemptions == old(e).preemptions,
        final(e).last_thread == old(e).last_thread,
        final(e).config == old(e).config,
        final(e).log == old(e).log,
        match crate::semantics::trail_at(old(e).trail@, old(e).pos as int, kind, outs@) {
            Some((c, t2)) => r matches Some(ri) && ri as int == c && final(e).trail@ == t2
                && final(e).pos == old(e).pos + 1 && final(e).pos <= final(e).trail@.len(),
            None => r is None && final(e).trail@ == old(e).trail@ && final(e).pos == old(e).pos,
        },
{
    if e.pos < e.trail.records.len() {
        let ok = {
            let d = &e.trail.records[e.pos];
            d.kind == kind && d.chosen < outs.len() && eq_u64_vecs(&d.outcomes, &outs)
        };
        if ok {
            let c = e.trail.records[e.pos].chosen;
            e.pos = e.pos + 1;
            Some(c)
        } else {
            None
        }
    } else if outs.len() > 0 {
        let ghost t0 = e.trail@;
        let ghost outsv = outs@;
        e.trail.records.push(Decision { kind, outcomes: outs, chosen: 0 });
        e.pos = e.trail.records.len();
        proof {
            assert_seqs_equal!(
                e.trail@ == t0.push(
                    crate::trail::DecisionView { kind, outcomes: outsv, chosen: 0 })
            );
        }
        Some(0)
    } else {
        None
    }
}

/// Run thread `t`'s yield.
fn exec_yield(e: &mut Execution, prog: &Program, t: usize, b: Ghost<int>)
    requires
        wf_program(prog@),
        wf_state(prog@, old(e).state(), b@),
        0 <= b@,
        thread_runnable(old(e).state(), t as int),
    ensures
        final(e).state() == crate::semantics::do_yield(prog@, old(e).state(), t as int),
        wf_state(prog@, final(e).state(), b@ + 1),
        final(e).trail == old(e).trail,
        final(e).pos == old(e).pos,
        final(e).preemptions == old(e).preemptions,
        final(e).last_thread == old(e).last_thread,
        final(e).loads == old(e).loads,
        final(e).config == old(e).config,
        final(e).log == old(e).log,
{
    let ghost s0 = old(e).state();
    proof {
        assert(wf_thread_at(prog@, s0, t as int, b@));
        assert(old(e).threads@[t as int]@ == s0.threads[t as int]);
        assert(prog.threads@[t as int]@ == prog@.threads[t as int]);
    }
    let tlen = prog.threads[t].len();
    assert(e.threads@[t as int].ip < tlen);
    let ip2 = e.threads[t].ip + 1;
    e.threads[t].ip = ip2;
    e.threads[t].status = if ip2 >= tlen {
        ThreadStatus::Terminated
    } else {
        ThreadStatus::Runnable
    };
    proof {
        let tgt = crate::semantics::do_yield(prog@, s0, t as int);
        assert_seqs_equal!(threads_view(e.threads@) == tgt.threads, u => {
            if u == t as int {
                assert(e.threads@[u]@ =~= tgt.threads[u]);
            } else {
                assert(e.threads@[u] == old(e).threads@[u]);
            }
        });
        assert(e.state() =~= tgt);
        assert forall|t2: int| 0 <= t2 < tgt.threads.len() implies #[trigger] wf_thread_at(
            prog@,
            tgt,
            t2,
            b@ + 1,
        ) by {
            assert(wf_thread_at(prog@, s0, t2, b@));
        }
        assert forall|l2: int| 0 <= l2 < tgt.locs.len() implies #[trigger] wf_loc_at(
            tgt,
            l2,
            b@ + 1,
        ) by {
            lemma_wf_loc_same(s0, tgt, l2, b@, b@ + 1);
        }
    }
}

/// Run thread `t`'s store.
fn exec_store(e: &mut Execution, prog: &Program, t: usize, l: usize, v: u64, o: MemOrdering, b: Ghost<int>)
    requires
        wf_program(prog@),
        wf_state(prog@, old(e).state(), b@),
        0 <= b@ < u64::MAX,
        thread_runnable(old(e).state(), t as int),
        next_op(prog@, old(e).state(), t as int) == Op::Store(l, v, o),
    ensures
        final(e).state() == crate::semantics::do_store(
            prog@,
            old(e).state(),
            t as int,
            l as int,
            v,
            o,
        ),
        wf_state(prog@, final(e).state(), b@ + 1),
        final(e).trail == old(e).trail,
        final(e).pos == old(e).pos,
        final(e).preemptions == old(e).preemptions,
        final(e).last_thread == old(e).last_thread,
        final(e).loads == old(e).loads,
        final(e).config == old(e).config,
        final(e).log == old(e).log,
{
    let ghost s0 = old(e).state();
    proof {
        assert(wf_thread_at(prog@, s0, t as int, b@));
        assert(crate::program::wf_op(prog@.threads[t as int][s0.threads[t as int].ip], prog@));
        assert(wf_loc_at(s0, l as int, b@));
        assert(old(e).threads@[t as int]@ == s0.threads[t as int]);
        assert(prog.threads@[t as int]@ == prog@.threads[t as int]);
        assert(old(e).threads@[t as int]@.clock[t as int] <= b@);
    }
    let n = e.threads.len();
    let nl = e.locs.len();
    let time = e.threads[t].clock[t] + 1;
    e.threads[t].clock[t] = time;
    let wl = e.locs[l].writes.len();
    e.threads[t].seen[l] = wl;
    let rel = ord_releases_x(o);
    let rel_clock = if rel {
        copy_u64_vec(&e.threads[t].clock)
    } else {
        crate::execution::zero_u64_vec(n)
    };
    let rel_seen = if rel {
        copy_usize_vec(&e.threads[t].seen)
    } else {
        crate::execution::zero_usize_vec(nl)
    };
    let tlen = prog.threads[t].len();
    assert(e.threads@[t as int].ip < tlen);
    let ip2 = e.threads[t].ip + 1;
    e.threads[t].ip = ip2;
    e.threads[t].status = if ip2 >= tlen {
        ThreadStatus::Terminated
    } else {
        ThreadStatus::Runnable
    };
    let w = crate::execution::WriteRecord { writer: t, time, value: v, ord: o, rel_clock, rel_seen };
    let is_sc = o == MemOrdering::SeqCst;
    e.locs[l].writes.push(w);
    if is_sc {
        e.locs[l].last_sc = wl;
    }
    proof {
        let tgt = crate::semantics::do_store(prog@, s0, t as int, l as int, v, o);
        lemma_clock_view_update(old(e).threads@[t as int].clock@, t as int, time);
        lemma_seen_view_update(old(e).threads@[t as int].seen@, l as int, wl);
        assert_seqs_equal!(threads_view(e.threads@) == tgt.threads, u => {
            if u == t as int {
                assert(e.threads@[u]@.clock =~= tgt.threads[u].clock);
                assert(e.threads@[u]@.seen =~= tgt.threads[u].seen);
                assert(e.threads@[u]@ =~= tgt.threads[u]);
            } else {
                assert(e.threads@[u] == old(e).threads@[u]);
            }
        });
        assert_seqs_equal!(locs_view(e.locs@) == tgt.locs, u => {
            if u == l as int {
                assert_seqs_equal!(e.locs@[u]@.writes == tgt.locs[u].writes, i => {
                    if i < wl {
                        assert(e.locs@[u].writes@[i] == old(e).locs@[u].writes@[i]);
                    } else {
                        assert(e.locs@[u].writes@[i]@ =~= tgt.locs[u].writes[i]);
                    }
                });
                assert(e.locs@[u]@ =~= tgt.locs[u]);
            } else {
                assert(e.locs@[u] == old(e).locs@[u]);
            }
        });
        assert(e.state() =~= tgt);
        assert forall|k: int|
            0 <= k < s0.locs.len() implies #[trigger] tgt.locs[k].writes.len()
            >= s0.locs[k].writes.len() by {}
        assert forall|t2: int| 0 <= t2 < tgt.threads.len() implies #[trigger] wf_thread_at(
            prog@,
            tgt,
            t2,
            b@ + 1,
        ) by {
            assert(wf_thread_at(prog@, s0, t2, b@));
            if t2 == t as int {
                assert forall|i: int| 0 <= i < tgt.threads[t2].clock.len() implies 0
                    <= #[trigger] tgt.threads[t2].clock[i] <= b@ + 1 by {}
                assert forall|l2: int| 0 <= l2 < tgt.threads[t2].seen.len() implies 0
                    <= #[trigger] tgt.threads[t2].seen[l2] < tgt.locs[l2].writes.len() by {}
            } else {
                lemma_wf_thread_same(prog@, s0, tgt, t2, b@, b@ + 1);
            }
        }
        assert forall|l2: int| 0 <= l2 < tgt.locs.len() implies #[trigger] wf_loc_at(
            tgt,
            l2,
            b@ + 1,
        ) by {
            assert(wf_loc_at(s0, l2, b@));
            if l2 == l as int {
                assert forall|i: int| 0 <= i < tgt.locs[l2].writes.len() implies wf_write_in(
                    tgt,
                    #[trigger] tgt.locs[l2].writes[i],
                    b@ + 1,
                ) by {
                    if i < wl {
                        assert(wf_write_in(s0, s0.locs[l2].writes[i], b@));
                        lemma_wf_write_grow(s0, tgt, s0.locs[l2].writes[i], b@, b@ + 1);
                    } else {
                        let w2 = tgt.locs[l2].writes[i];
                        assert forall|k: int| 0 <= k < w2.rel_clock.len() implies 0
                            <= #[trigger] w2.rel_clock[k] <= b@ + 1 by {}
                        assert forall|k: int| 0 <= k < w2.rel_seen.len() implies 0
                            <= #[trigger] w2.rel_seen[k] < tgt.locs[k].writes.len() by {
                            assert(wf_thread_at(prog@, s0, t as int, b@));
                            assert(wf_loc_at(s0, k, b@));
                            assert(tgt.locs[k].writes.len() >= s0.locs[k].writes.len());
                        }
                    }
                }
            } else {
                lemma_wf_loc_same(s0, tgt, l2, b@, b@ + 1);
            }
        }
    }
}

/// Run thread `t`'s load, observing write `i`.
fn exec_load(e: &mut Execution, prog: &Program, t: usize, l: usize, o: MemOrdering, i: usize, b: Ghost<int>)
    requires
        wf_program(prog@),
        wf_state(prog@, old(e).state(), b@),
        0 <= b@,
        thread_runnable(old(e).state(), t as int),
        next_op(prog@, old(e).state(), t as int) == Op::Load(l, o),
        crate::semantics::eligible(old(e).state(), t as int, l as int, o, i as int),
    ensures
        final(e).state() == crate::semantics::do_load(
            prog@,
            old(e).state(),
            t as int,
            l as int,
            o,
            i as int,
        ),
        wf_state(prog@, final(e).state(), b@ + 1),
        final(e).trail == old(e).trail,
        final(e).pos == old(e).pos,
        final(e).preemptions == old(e).preemptions,
        final(e).last_thread == old(e).last_thread,
        final(e).loads == old(e).loads,
        final(e).config == old(e).config,
        final(e).log == old(e).log,
{
    let ghost s0 = old(e).state();
    proof {
        assert(wf_thread_at(prog@, s0, t as int, b@));
        assert(crate::program::wf_op(prog@.threads[t as int][s0.threads[t as int].ip], prog@));
        assert(wf_loc_at(s0, l as int, b@));
        assert(wf_write_in(s0, s0.locs[l as int].writes[i as int], b@));
        assert(old(e).threads@[t as int]@ == s0.threads[t as int]);
        assert(prog.threads@[t as int]@ == prog@.threads[t as int]);
        assert(old(e).locs@[l as int]@ == s0.locs[l as int]);
    }
    let sync = {
        let word = e.locs[l].writes[i].ord;
        ord_acquires_x(o) && ord_releases_x(word)
    };
    if sync {
        let rc = copy_u64_vec(&e.locs[l].writes[i].rel_clock);
        join_u64_into(&mut e.threads[t].clock, &rc);
        let rs = copy_usize_vec(&e.locs[l].writes[i].rel_seen);
        join_usize_into(&mut e.threads[t].seen, &rs);
    }
    e.threads[t].seen[l] = i;
    let tlen = prog.threads[t].len();
    assert(e.threads@[t as int].ip < tlen);
    let ip2 = e.threads[t].ip + 1;
    e.threads[t].ip = ip2;
    e.threads[t].status = if ip2 >= tlen {
        ThreadStatus::Terminated
    } else {
        ThreadStatus::Runnable
    };
    proof {
        let tgt = crate::semantics::do_load(prog@, s0, t as int, l as int, o, i as int);
        assert_seqs_equal!(threads_view(e.threads@) == tgt.threads, u => {
            if u == t as int {
                assert(e.threads@[u]@.clock =~= tgt.threads[u].clock);
                assert(e.threads@[u]@.seen =~= tgt.threads[u].seen);
                assert(e.threads@[u]@ =~= tgt.threads[u]);
            } else {
                assert(e.threads@[u] == old(e).threads@[u]);
            }
        });
        assert(e.state() =~= tgt);
        assert forall|t2: int| 0 <= t2 < tgt.threads.len() implies #[trigger] wf_thread_at(
            prog@,
            tgt,
            t2,
            b@ + 1,
        ) by {
            assert(wf_thread_at(prog@, s0, t2, b@));
            if t2 == t as int {
                assert forall|k: int| 0 <= k < tgt.threads[t2].clock.len() implies 0
                    <= #[trigger] tgt.threads[t2].clock[k] <= b@ + 1 by {}
                assert forall|l2: int| 0 <= l2 < tgt.threads[t2].seen.len() implies 0
                    <= #[trigger] tgt.threads[t2].seen[l2] < tgt.locs[l2].writes.len() by {}
            }
        }
        assert forall|l2: int| 0 <= l2 < tgt.locs.len() implies #[trigger] wf_loc_at(
            tgt,
            l2,
            b@ + 1,
        ) by {
            lemma_wf_loc_same(s0, tgt, l2, b@, b@ + 1);
        }
    }
}

/// Run thread `t`'s spawn of thread `c`.
fn exec_spawn(e: &mut Execution, prog: &Program, t: usize, c: usize, b: Ghost<int>)
    requires
        wf_program(prog@),
        wf_state(prog@, old(e).state(), b@),
        0 <= b@ < u64::MAX,
        thread_runnable(old(e).state(), t as int),
        next_op(prog@, old(e).state(), t as int) == Op::Spawn(c),
        old(e).state().threads[c as int].status == ThreadStatus::NotStarted,
    ensures
        final(e).state() == crate::semantics::do_spawn(prog@, old(e).state(), t as int, c as int),
        wf_state(prog@, final(e).state(), b@ + 1),
        final(e).trail == old(e).trail,
        final(e).pos == old(e).pos,
        final(e).preemptions == old(e).preemptions,
        final(e).last_thread == old(e).last_thread,
        final(e).loads == old(e).loads,
        final(e).config == old(e).config,
        final(e).log == old(e).log,
{
    let ghost s0 = old(e).state();
    proof {
        assert(wf_thread_at(prog@, s0, t as int, b@));
        assert(wf_thread_at(prog@, s0, c as int, b@));
        assert(crate::program::wf_op(prog@.threads[t as int][s0.threads[t as int].ip], prog@));
        assert(t != c);
        assert(old(e).threads@[t as int]@ == s0.threads[t as int]);
        assert(prog.threads@[t as int]@ == prog@.threads[t as int]);
        assert(old(e).threads@[t as int]@.clock[t as int] <= b@);
    }
    let time = e.threads[t].clock[t] + 1;
    e.threads[t].clock[t] = time;
    let tlen = prog.threads[t].len();
    assert(e.threads@[t as int].ip < tlen);
    let ip2 = e.threads[t].ip + 1;
    e.threads[t].ip = ip2;
    e.threads[t].status = if ip2 >= tlen {
        ThreadStatus::Terminated
    } else {
        ThreadStatus::Runnable
    };
    let child_clock = copy_u64_vec(&e.threads[t].clock);
    let child_seen = copy_usize_vec(&e.threads[t].seen);
    let child_status = if prog.threads[c].len() == 0 {
        ThreadStatus::Terminated
    } else {
        ThreadStatus::Runnable
    };
    e.threads[c] = crate::execution::ThreadState {
        status: child_status,
        ip: 0,
        clock: child_clock,
        seen: child_seen,
    };
    proof {
        let tgt = crate::semantics::do_spawn(prog@, s0, t as int, c as int);
        lemma_clock_view_update(old(e).threads@[t as int].clock@, t as int, time);
        assert_seqs_equal!(threads_view(e.threads@) == tgt.threads, u => {
            if u == t as int {
                assert(e.threads@[u]@.clock =~= tgt.threads[u].clock);
                assert(e.threads@[u]@ =~= tgt.threads[u]);
            } else if u == c as int {
                assert(e.threads@[u]@.clock =~= tgt.threads[u].clock);
                assert(e.threads@[u]@.seen =~= tgt.threads[u].seen);
                assert(e.threads@[u]@ =~= tgt.threads[u]);
            } else {
                assert(e.threads@[u] == old(e).threads@[u]);
            }
        });
        assert(e.state() =~= tgt);
        assert forall|t2: int| 0 <= t2 < tgt.threads.len() implies #[trigger] wf_thread_at(
            prog@,
            tgt,
            t2,
            b@ + 1,
        ) by {
            assert(wf_thread_at(prog@, s0, t2, b@));
            if t2 == t as int || t2 == c as int {
                assert forall|k: int| 0 <= k < tgt.threads[t2].clock.len() implies 0
                    <= #[trigger] tgt.threads[t2].clock[k] <= b@ + 1 by {}
            }
        }
        assert forall|l2: int| 0 <= l2 < tgt.locs.len() implies #[trigger] wf_loc_at(
            tgt,
            l2,
            b@ + 1,
        ) by {
            lemma_wf_loc_same(s0, tgt, l2, b@, b@ + 1);
        }
    }
}

/// Drive one complete run of the test program: repeatedly resolve the next
/// schedule decision against the trail (replaying recorded outcomes exactly,
/// recording fresh ones), execute the picked thread's next operation —
/// resolving a load's read decision the same way — and stop at a completed or
/// bounded leaf or a fatal error. Computes exactly `spec_run`: for a fixed
/// program, configuration and trail, the sequence of decision resolutions,
/// the final state and the observed loads are fully determined.
pub fn run(e: &mut Execution, prog: &Program) -> (r: Result<RunStatus, CheckError>)
    requires
        wf_program(prog@),
        wf_state(prog@, old(e).state(), old(e).pos as int),
        old(e).pos <= old(e).trail@.len(),
        old(e).preemptions <= old(e).pos,
        match old(e).last_thread {
            Some(u) => (u as int) < old(e).state().threads.len(),
            None => true,
        },
    ensures
        ({
            let end = crate::semantics::spec_run(
                prog@,
                cfg_view(old(e).config),
                old(e).state(),
                old(e).trail@,
                old(e).pos as int,
                old(e).loads@,
                old(e).preemptions as int,
                old(e).last_thread,
            );
            &&& r == end.result
            &&& final(e).state() == end.state
            &&& final(e).trail@ == end.trail
            &&& final(e).loads@ == end.loads
        }),
        final(e).config == old(e).config,
        final(e).log == old(e).log,
    decreases e.config.max_branches + 1 - e.pos,
{
    let ghost s0 = old(e).state();
    let ghost trail0 = old(e).trail@;
    let ghost pos0 = old(e).pos as int;
    let ghost loads0 = old(e).loads@;
    let ghost pre0 = old(e).preemptions as int;
    let ghost last0 = old(e).last_thread;
    let ghost cfgv = cfg_view(old(e).config);
    let ghost end = crate::semantics::spec_run(prog@, cfgv, s0, trail0, pos0, loads0, pre0, last0);

    if all_finished_x(e) {
        return Ok(crate::semantics::RunStatus::Completed);
    }
    if e.pos >= e.config.max_branches {
        return Ok(crate::semantics::RunStatus::Bounded);
    }
    let nthreads = e.threads.len();
    let outs = sched_outcomes_x(e, prog);
    proof {
        assert(s0.threads.len() == nthreads);
        crate::semantics::lemma_sched_outcomes_props(prog@, s0, s0.threads.len() as int);
    }
    let outs2 = copy_u64_vec(&outs);
    let copt = trail_step(e, DecisionKind::Schedule, outs2);
    if copt.is_none() {
        assert(end.result == Err::<RunStatus, CheckError>(crate::semantics::CheckError::CorruptTrail));
        return Err(crate::semantics::CheckError::CorruptTrail);
    }
    let c = copt.unwrap();
    let tu = outs[c];
    let t = tu as usize;
    proof {
        assert((tu as int) < s0.threads.len());
        assert(sched_kept(prog@, s0, tu as int));
        assert(t as int == tu as int);
        assert(thread_runnable(s0, t as int));
        assert(e.threads@[t as int]@ == s0.threads[t as int]);
        assert(wf_thread_at(prog@, s0, t as int, pos0));
    }
    let pre = match e.last_thread {
        Some(u) => {
            if u != tu && (u as usize) < e.threads.len() {
                let uu = u as usize;
                proof {
                    assert(uu as int == u as int);
                }
                e.threads[uu].status == ThreadStatus::Runnable
            } else {
                false
            }
        },
        None => false,
    };
    proof {
        assert(pre == crate::semantics::is_preemption(s0, last0, t as int));
    }
    if pre {
        e.preemptions = e.preemptions + 1;
    }
    let bounded_pre = pre && match e.config.preemption_bound {
        Some(pb) => e.preemptions > pb,
        None => false,
    };
    if bounded_pre {
        return Ok(crate::semantics::RunStatus::Bounded);
    }
    let ghost trail2 = e.trail@;
    let ghost preempts2 = e.preemptions as int;
    proof {
        crate::semantics::lemma_wf_state_mono(prog@, s0, pos0, pos0 + 1);
        assert(e.state() == s0);
    }
    let op = prog.threads[t][e.threads[t].ip];
    proof {
        assert(op == next_op(prog@, s0, t as int));
        assert(crate::program::wf_op(prog@.threads[t as int][s0.threads[t as int].ip], prog@));
    }
    match op {
        Op::Yield => {
            exec_yield(e, prog, t, Ghost(pos0));
            e.last_thread = Some(tu);
            let r = run(e, prog);
            proof {
                assert(end == crate::semantics::spec_run(
                    prog@,
                    cfgv,
                    crate::semantics::do_yield(prog@, s0, t as int),
                    trail2,
                    pos0 + 1,
                    loads0,
                    preempts2,
                    Some(tu),
                ));
            }
            r
        },
        Op::Store(l, v, o) => {
            exec_store(e, prog, t, l, v, o, Ghost(pos0));
            let ghost s2 = crate::semantics::do_store(prog@, s0, t as int, l as int, v, o);
            if memory_exceeded_x(e) {
                assert(end.result == Err::<RunStatus, CheckError>(crate::semantics::CheckError::MemoryExceeded));
                return Err(crate::semantics::CheckError::MemoryExceeded);
            }
            e.last_thread = Some(tu);
            let r = run(e, prog);
            proof {
                assert(end == crate::semantics::spec_run(
                    prog@,
                    cfgv,
                    s2,
                    trail2,
                    pos0 + 1,
                    loads0,
                    preempts2,
                    Some(tu),
                ));
            }
            r
        },
        Op::Spawn(c2) => {
            proof {
                assert(e.threads@[c2 as int]@ == s0.threads[c2 as int]);
            }
            if !(e.threads[c2].status == ThreadStatus::NotStarted) {
                assert(end.result == Err::<RunStatus, CheckError>(crate::semantics::CheckError::InvalidProgram));
                return Err(crate::semantics::CheckError::InvalidProgram);
            }
            let started = started_count_x(e);
            if started >= e.config.max_threads {
                assert(end.result == Err::<RunStatus, CheckError>(crate::semantics::CheckError::TooManyThreads));
                return Err(crate::semantics::CheckError::TooManyThreads);
            }
            exec_spawn(e, prog, t, c2, Ghost(pos0));
            e.last_thread = Some(tu);
            let r = run(e, prog);
            proof {
                assert(end == crate::semantics::spec_run(
                    prog@,
                    cfgv,
                    crate::semantics::do_spawn(prog@, s0, t as int, c2 as int),
                    trail2,
                    pos0 + 1,
                    loads0,
                    preempts2,
                    Some(tu),
                ));
            }
            r
        },
        Op::Load(l, o) => {
            if e.pos >= e.config.max_branches {
                assert(end.result == Ok::<RunStatus, CheckError>(crate::semantics::RunStatus::Bounded));
                return Ok(crate::semantics::RunStatus::Bounded);
            }
            let nwrites = e.locs[l].writes.len();
            let elig = eligible_x(e, prog, t, l, o);
            proof {
                assert(s0.locs[l as int].writes.len() == nwrites);
                crate::semantics::lemma_eligible_props(
                    s0,
                    t as int,
                    l as int,
                    o,
                    s0.locs[l as int].writes.len() as int,
                );
            }
            let elig2 = copy_u64_vec(&elig);
            let c2opt = trail_step(e, DecisionKind::Read, elig2);
            if c2opt.is_none() {
                assert(end.result == Err::<RunStatus, CheckError>(crate::semantics::CheckError::CorruptTrail));
                return Err(crate::semantics::CheckError::CorruptTrail);
            }
            let ghost trail3 = e.trail@;
            let c2 = c2opt.unwrap();
            let iu = elig[c2];
            let i = iu as usize;
            proof {
                assert((iu as int) < s0.locs[l as int].writes.len());
                assert(i as int == iu as int);
                assert(crate::semantics::eligible(s0, t as int, l as int, o, i as int));
                assert(e.locs@[l as int]@ == s0.locs[l as int]);
            }
            let v = e.locs[l].writes[i].value;
            e.loads.push(v);
            exec_load(e, prog, t, l, o, i, Ghost(pos0 + 1));
            e.last_thread = Some(tu);
            let r = run(e, prog);
            proof {
                assert(end == crate::semantics::spec_run(
                    prog@,
                    cfgv,
                    crate::semantics::do_load(prog@, s0, t as int, l as int, o, i as int),
                    trail3,
                    pos0 + 2,
                    loads0.push(v),
                    preempts2,
                    Some(tu),
                ));
            }
            r
        },
    }
}

} // verus!
