//! The decision trail: an ordered record of every choice made at a decision
//! point during one run, with enough bookkeeping to enumerate, depth-first,
//! every trail that has not been explored yet.

use vstd::prelude::*;
use vstd::arithmetic::power::pow;
use vstd::arithmetic::mul::lemma_mul_inequality;
use vstd::assert_seqs_equal;

verus! {

/// What a decision point chose between: which runnable thread proceeds, or
/// which eligible write an atomic load observes.
#[derive(Clone, Copy, PartialEq, Eq, Structural, Debug)]
pub enum DecisionKind {
    /// The decision picked the next thread to run.
    Schedule,
    /// The decision picked which recorded write a load observes.
    Read,
}

/// One decision point's record: the full set of legal outcomes that were
/// enumerated when the point was first reached, and the index of the outcome
/// committed to on the current run. Outcomes with a smaller index have
/// already been explored; outcomes after `chosen` are still untried.
#[derive(Clone, Debug)]
pub struct Decision {
    /// Whether this point scheduled a thread or resolved a load.
    pub kind: DecisionKind,
    /// Every legal outcome at this point (thread ids, or write indices).
    pub outcomes: Vec<u64>,
    /// Index into `outcomes` of the outcome taken on the current run.
    pub chosen: usize,
}

/// The mathematical model of one decision record.
#[verifier::ext_equal]
pub ghost struct DecisionView {
    pub kind: DecisionKind,
    pub outcomes: Seq<u64>,
    pub chosen: int,
}

impl View for Decision {
    type V = DecisionView;

    open spec fn view(&self) -> DecisionView {
        DecisionView { kind: self.kind, outcomes: self.outcomes@, chosen: self.chosen as int }
    }
}

/// An ordered sequence of decision records, one per decision point of a run,
/// in the order the points were encountered.
#[derive(Clone, Debug)]
pub struct Trail {
    /// The records, deepest last.
    pub records: Vec<Decision>,
}

impl View for Trail {
    type V = Seq<DecisionView>;

    open spec fn view(&self) -> Seq<DecisionView> {
        self.records@.map(|i: int, d: Decision| d@)
    }
}

/// A single record is well formed for an outcome cap `cap`: it has between
/// one and `cap` outcomes and its committed choice is one of them.
pub open spec fn wf_record(d: DecisionView, cap: int) -> bool {
    &&& 0 < d.outcomes.len() <= cap
    &&& 0 <= d.chosen < d.outcomes.len()
}

/// A trail is well formed for an outcome cap and a length cap.
pub open spec fn wf_trail(t: Seq<DecisionView>, cap: int, width: int) -> bool {
    &&& t.len() <= width
    &&& forall|i: int| 0 <= i < t.len() ==> wf_record(#[trigger] t[i], cap)
}

/// The record still has an untried outcome.
pub open spec fn rec_open(d: DecisionView) -> bool {
    d.chosen + 1 < d.outcomes.len()
}

/// Some record at an index below `n` still has an untried outcome.
pub open spec fn has_open(t: Seq<DecisionView>, n: int) -> bool {
    exists|i: int| 0 <= i < n && rec_open(t[i])
}

/// The deepest index below `n` whose record has an untried outcome
/// (meaningful only when `has_open(t, n)`).
pub open spec fn last_open(t: Seq<DecisionView>, n: int) -> int
    decreases n,
{
    if n <= 0 {
        -1
    } else if rec_open(t[n - 1]) {
        n - 1
    } else {
        last_open(t, n - 1)
    }
}

/// What advancing a trail to the next unexplored outcome yields: take the
/// deepest record with an untried outcome, commit to its next outcome, and
/// drop every record after it (an earlier change invalidates the suffix).
/// `None` means the search is exhausted.
pub open spec fn spec_advance(t: Seq<DecisionView>) -> Option<Seq<DecisionView>> {
    if has_open(t, t.len() as int) {
        let k = last_open(t, t.len() as int);
        Some(
            t.subrange(0, k).push(
                DecisionView { kind: t[k].kind, outcomes: t[k].outcomes, chosen: t[k].chosen + 1 },
            ),
        )
    } else {
        None
    }
}

proof fn lemma_last_open_is(t: Seq<DecisionView>, n: int, k: int)
    requires
        0 <= k < n <= t.len(),
        rec_open(t[k]),
        forall|j: int| k < j < n ==> !rec_open(#[trigger] t[j]),
    ensures
        has_open(t, n),
        last_open(t, n) == k,
    decreases n,
{
    if n - 1 > k {
        lemma_last_open_is(t, n - 1, k);
    }
}

impl Trail {
    /// The empty trail: exploration starts with no recorded decisions.
    pub fn new() -> (t: Trail)
        ensures
            t@ == Seq::<DecisionView>::empty(),
    {
        let t = Trail { records: Vec::new() };
        proof {
            assert_seqs_equal!(t@ == Seq::<DecisionView>::empty());
        }
        t
    }

    /// Advance to the next unexplored decision-trail: commit the deepest
    /// record that still has an untried outcome to its next outcome and drop
    /// everything recorded after it. Returns `None` when every outcome of
    /// every record has been tried: the search is exhausted.
    pub fn advance(self) -> (r: Option<Trail>)
        ensures
            match r {
                Some(t2) => spec_advance(self@) == Some(t2@),
                None => spec_advance(self@) is None,
            },
    {
        let mut t = self;
        let mut n: usize = t.records.len();
        loop
            invariant
                t == self,
                n <= t.records.len(),
                forall|j: int| n <= j < self@.len() ==> !rec_open(#[trigger] self@[j]),
            decreases n,
        {
            if n == 0 {
                assert(!has_open(self@, self@.len() as int));
                return None;
            }
            let idx = n - 1;
            let more = {
                let d = &t.records[idx];
                d.outcomes.len() > 0 && d.chosen < d.outcomes.len() - 1
            };
            if more {
                assert(rec_open(self@[idx as int]));
                proof {
                    lemma_last_open_is(self@, self@.len() as int, idx as int);
                }
                t.records.truncate(idx + 1);
                let mut rec = t.records.pop().unwrap();
                rec.chosen = rec.chosen + 1;
                t.records.push(rec);
                proof {
                    let k = idx as int;
                    let bumped = DecisionView {
                        kind: self@[k].kind,
                        outcomes: self@[k].outcomes,
                        chosen: self@[k].chosen + 1,
                    };
                    assert_seqs_equal!(t@ == self@.subrange(0, k).push(bumped));
                }
                return Some(t);
            }
            n = idx;
        }
    }
}

/// `whole` extends `base` only by fresh records: decisions appended while a
/// run replayed `base` and went on, each committed to its first outcome.
pub open spec fn fresh_extension(base: Seq<DecisionView>, whole: Seq<DecisionView>) -> bool {
    &&& base.len() <= whole.len()
    &&& whole.subrange(0, base.len() as int) == base
    &&& forall|i: int| base.len() <= i < whole.len() ==> #[trigger] whole[i].chosen == 0
}

/// A trail extends itself by nothing.
pub proof fn lemma_fresh_refl(t: Seq<DecisionView>)
    ensures
        fresh_extension(t, t),
{
    assert(t.subrange(0, t.len() as int) =~= t);
}

/// Recording a fresh decision committed to its first outcome is a fresh
/// extension.
pub proof fn lemma_fresh_push(t: Seq<DecisionView>, d: DecisionView)
    requires
        d.chosen == 0,
    ensures
        fresh_extension(t, t.push(d)),
{
    assert(t.push(d).subrange(0, t.len() as int) =~= t);
}

/// Fresh extension composes.
pub proof fn lemma_fresh_trans(a: Seq<DecisionView>, b: Seq<DecisionView>, c: Seq<DecisionView>)
    requires
        fresh_extension(a, b),
        fresh_extension(b, c),
    ensures
        fresh_extension(a, c),
{
    assert(c.subrange(0, a.len() as int) =~= a) by {
        assert forall|i: int| 0 <= i < a.len() implies c.subrange(0, a.len() as int)[i] == a[i] by {
            assert(c.subrange(0, b.len() as int)[i] == b[i]);
            assert(b.subrange(0, a.len() as int)[i] == a[i]);
        }
    }
    assert forall|i: int| a.len() <= i < c.len() implies #[trigger] c[i].chosen == 0 by {
        if i < b.len() {
            assert(c.subrange(0, b.len() as int)[i] == b[i]);
        }
    }
}

/// The committed choices of a trail read as a mixed-radix numeral of `width`
/// digits (missing digits are zero), most significant first.
pub open spec fn path_value(t: Seq<DecisionView>, width: int, base: int) -> int
    decreases t.len(),
{
    if t.len() == 0 {
        0
    } else {
        t[0].chosen * pow(base, (width - 1) as nat) + path_value(t.drop_first(), width - 1, base)
    }
}

/// How much of the search space is still ahead of a trail: strictly
/// decreasing across run-and-advance iterations, so exploration terminates.
pub open spec fn trail_measure(t: Seq<DecisionView>, cap: int, width: int) -> int {
    pow(cap + 1, width as nat) - path_value(t, width, cap + 1)
}

proof fn lemma_path_value_nonneg(t: Seq<DecisionView>, width: int, base: int)
    requires
        base >= 1,
        t.len() <= width,
        forall|i: int| 0 <= i < t.len() ==> #[trigger] t[i].chosen >= 0,
    ensures
        path_value(t, width, base) >= 0,
    decreases t.len(),
{
    if t.len() > 0 {
        vstd::arithmetic::power::lemma_pow_positive(base, (width - 1) as nat);
        lemma_path_value_nonneg(t.drop_first(), width - 1, base);
        vstd::arithmetic::mul::lemma_mul_nonnegative(t[0].chosen, pow(base, (width - 1) as nat));
    }
}

proof fn lemma_path_value_bound(t: Seq<DecisionView>, width: int, base: int)
    requires
        base >= 1,
        0 <= t.len() <= width,
        forall|i: int| 0 <= i < t.len() ==> 0 <= #[trigger] t[i].chosen < base,
    ensures
        path_value(t, width, base) < pow(base, width as nat),
    decreases t.len(),
{
    vstd::arithmetic::power::lemma_pow_positive(base, width as nat);
    if t.len() > 0 {
        let p = pow(base, (width - 1) as nat);
        vstd::arithmetic::power::lemma_pow_positive(base, (width - 1) as nat);
        assert(forall|i: int|
            0 <= i < t.drop_first().len() ==> 0 <= #[trigger] t.drop_first()[i].chosen < base);
        lemma_path_value_bound(t.drop_first(), width - 1, base);
        lemma_mul_inequality(t[0].chosen, base - 1, p);
        assert(pow(base, width as nat) == base * p) by {
            reveal(pow);
        }
        assert((base - 1) * p + p == base * p) by (nonlinear_arith);
    }
}

proof fn lemma_path_value_all_zero(t: Seq<DecisionView>, width: int, base: int)
    requires
        forall|i: int| 0 <= i < t.len() ==> #[trigger] t[i].chosen == 0,
    ensures
        path_value(t, width, base) == 0,
    decreases t.len(),
{
    if t.len() > 0 {
        lemma_path_value_all_zero(t.drop_first(), width - 1, base);
    }
}

proof fn lemma_path_value_zeros_append(a: Seq<DecisionView>, whole: Seq<DecisionView>, width: int, base: int)
    requires
        fresh_extension(a, whole),
    ensures
        path_value(whole, width, base) == path_value(a, width, base),
    decreases a.len(),
{
    if a.len() == 0 {
        lemma_path_value_all_zero(whole, width, base);
    } else {
        assert(whole[0] == a[0]) by {
            assert(whole.subrange(0, a.len() as int)[0] == a[0]);
        }
        let a2 = a.drop_first();
        let w2 = whole.drop_first();
        assert(fresh_extension(a2, w2)) by {
            assert_seqs_equal!(w2.subrange(0, a2.len() as int) == a2, i => {
                assert(whole.subrange(0, a.len() as int)[i + 1] == a[i + 1]);
            });
            assert(forall|i: int|
                a2.len() <= i < w2.len() ==> #[trigger] w2[i].chosen == whole[i + 1].chosen
                    && whole[i + 1].chosen == 0);
        }
        lemma_path_value_zeros_append(a2, w2, width - 1, base);
    }
}

proof fn lemma_path_value_advance(a: Seq<DecisionView>, b: Seq<DecisionView>, k: int, width: int, base: int)
    requires
        base >= 1,
        0 <= k < a.len() <= width,
        forall|i: int| 0 <= i < a.len() ==> 0 <= #[trigger] a[i].chosen < base,
        b.len() == k + 1,
        b.subrange(0, k) == a.subrange(0, k),
        b[k].chosen == a[k].chosen + 1,
    ensures
        path_value(b, width, base) > path_value(a, width, base),
    decreases k,
{
    let p = pow(base, (width - 1) as nat);
    vstd::arithmetic::power::lemma_pow_positive(base, (width - 1) as nat);
    if k == 0 {
        assert(b.drop_first().len() == 0);
        lemma_path_value_all_zero(b.drop_first(), width - 1, base);
        lemma_path_value_bound(a.drop_first(), width - 1, base);
        assert(path_value(b, width, base) == (a[0].chosen + 1) * p);
        assert((a[0].chosen + 1) * p == a[0].chosen * p + p) by {
            vstd::arithmetic::mul::lemma_mul_is_distributive_add_other_way(p, a[0].chosen, 1);
        }
    } else {
        assert(b[0] == a[0]) by {
            assert(b.subrange(0, k)[0] == a.subrange(0, k)[0]);
        }
        let a2 = a.drop_first();
        let b2 = b.drop_first();
        assert(b2.subrange(0, k - 1) == a2.subrange(0, k - 1)) by {
            assert_seqs_equal!(b2.subrange(0, k - 1) == a2.subrange(0, k - 1), i => {
                assert(b.subrange(0, k)[i + 1] == a.subrange(0, k)[i + 1]);
            });
        }
        assert(b2[k - 1].chosen == a2[k - 1].chosen + 1);
        lemma_path_value_advance(a2, b2, k - 1, width - 1, base);
    }
}

/// Advancing a well-formed trail keeps it well formed.
pub proof fn lemma_advance_preserves_wf(t: Seq<DecisionView>, cap: int, width: int)
    requires
        wf_trail(t, cap, width),
        spec_advance(t) is Some,
    ensures
        wf_trail(spec_advance(t).unwrap(), cap, width),
{
    let k = last_open(t, t.len() as int);
    lemma_last_open_in_range(t, t.len() as int);
    let n = spec_advance(t).unwrap();
    assert(forall|i: int| 0 <= i < n.len() - 1 ==> n[i] == t.subrange(0, k)[i] && n[i] == t[i]);
}

proof fn lemma_last_open_in_range(t: Seq<DecisionView>, n: int)
    requires
        has_open(t, n),
        n <= t.len(),
    ensures
        0 <= last_open(t, n) < n,
        rec_open(t[last_open(t, n)]),
    decreases n,
{
    if n > 0 && !rec_open(t[n - 1]) {
        assert(has_open(t, n - 1)) by {
            let i = choose|i: int| 0 <= i < n && rec_open(t[i]);
            assert(0 <= i < n - 1 && rec_open(t[i]));
        }
        lemma_last_open_in_range(t, n - 1);
    }
}

/// Exhaustion termination: across one exploration iteration — a run extends
/// the previous trail only by fresh records, then `advance` moves to the next
/// unexplored trail — the measure of the trail strictly decreases and stays
/// positive, so repeatedly running and advancing reaches exhaustion after
/// finitely many permutations.
pub proof fn lemma_advance_decreases_measure(
    prev: Seq<DecisionView>,
    leaf: Seq<DecisionView>,
    nxt: Seq<DecisionView>,
    cap: int,
    width: int,
)
    requires
        cap >= 1,
        width >= 0,
        fresh_extension(prev, leaf),
        wf_trail(leaf, cap, width),
        spec_advance(leaf) == Some(nxt),
    ensures
        0 < trail_measure(nxt, cap, width),
        trail_measure(nxt, cap, width) < trail_measure(prev, cap, width),
        trail_measure(prev, cap, width) <= pow(cap + 1, width as nat),
{
    let base = cap + 1;
    let k = last_open(leaf, leaf.len() as int);
    lemma_last_open_in_range(leaf, leaf.len() as int);
    lemma_path_value_zeros_append(prev, leaf, width, base);
    assert(nxt.subrange(0, k) == leaf.subrange(0, k)) by {
        assert_seqs_equal!(nxt.subrange(0, k) == leaf.subrange(0, k), i => {
            assert(nxt[i] == leaf.subrange(0, k)[i]);
        });
    }
    assert(forall|i: int| 0 <= i < leaf.len() ==> 0 <= #[trigger] leaf[i].chosen < base);
    lemma_path_value_advance(leaf, nxt, k, width, base);
    lemma_advance_preserves_wf(leaf, cap, width);
    lemma_path_value_bound(nxt, width, base);
    lemma_path_value_nonneg(prev, width, base);
}

/// Strict depth-first order on trails: they agree on a common prefix and the
/// first trail committed to an earlier outcome right after it.
pub open spec fn trail_before(a: Seq<DecisionView>, b: Seq<DecisionView>) -> bool {
    exists|k: int|
        0 <= k < a.len() && k < b.len() && #[trigger] a.subrange(0, k) == b.subrange(0, k)
            && a[k].chosen < b[k].chosen
}

/// One exploration iteration leads from completed trail `a` to completed
/// trail `b`: `b` extends the advanced `a` only by fresh records.
pub open spec fn next_leaf(a: Seq<DecisionView>, b: Seq<DecisionView>) -> bool {
    exists|m: Seq<DecisionView>| spec_advance(a) == Some(m) && fresh_extension(m, b)
}

proof fn lemma_next_leaf_before(a: Seq<DecisionView>, b: Seq<DecisionView>)
    requires
        next_leaf(a, b),
    ensures
        trail_before(a, b),
{
    let m = choose|m: Seq<DecisionView>| spec_advance(a) == Some(m) && fresh_extension(m, b);
    let k = last_open(a, a.len() as int);
    lemma_last_open_in_range(a, a.len() as int);
    assert(b.subrange(0, m.len() as int) == m);
    assert(b[k] == m[k]) by {
        assert(b.subrange(0, m.len() as int)[k] == m[k]);
    }
    assert(a.subrange(0, k) == b.subrange(0, k)) by {
        assert_seqs_equal!(a.subrange(0, k) == b.subrange(0, k), i => {
            assert(m[i] == a.subrange(0, k)[i]);
            assert(b.subrange(0, m.len() as int)[i] == m[i]);
        });
    }
    assert(a[k].chosen < b[k].chosen);
}

proof fn lemma_before_trans(a: Seq<DecisionView>, b: Seq<DecisionView>, c: Seq<DecisionView>)
    requires
        trail_before(a, b),
        trail_before(b, c),
    ensures
        trail_before(a, c),
{
    let k1 = choose|k: int|
        0 <= k < a.len() && k < b.len() && #[trigger] a.subrange(0, k) == b.subrange(0, k)
            && a[k].chosen < b[k].chosen;
    let k2 = choose|k: int|
        0 <= k < b.len() && k < c.len() && #[trigger] b.subrange(0, k) == c.subrange(0, k)
            && b[k].chosen < c[k].chosen;
    if k1 < k2 {
        assert(b[k1] == c[k1]) by {
            assert(b.subrange(0, k2)[k1] == c.subrange(0, k2)[k1]);
        }
        assert(a.subrange(0, k1) == c.subrange(0, k1)) by {
            assert_seqs_equal!(a.subrange(0, k1) == c.subrange(0, k1), i => {
                assert(a.subrange(0, k1)[i] == b.subrange(0, k1)[i]);
                assert(b.subrange(0, k2)[i] == c.subrange(0, k2)[i]);
            });
        }
        assert(0 <= k1 < a.len() && k1 < c.len() && a.subrange(0, k1) == c.subrange(0, k1)
            && a[k1].chosen < c[k1].chosen);
    } else {
        assert(a[k2] == b[k2] || k1 == k2) by {
            if k2 < k1 {
                assert(a.subrange(0, k1)[k2] == b.subrange(0, k1)[k2]);
            }
        }
        assert(a.subrange(0, k2) == c.subrange(0, k2)) by {
            assert_seqs_equal!(a.subrange(0, k2) == c.subrange(0, k2), i => {
                assert(a.subrange(0, k1)[i] == b.subrange(0, k1)[i]);
                assert(b.subrange(0, k2)[i] == c.subrange(0, k2)[i]);
            });
        }
        assert(a[k2].chosen < c[k2].chosen);
        assert(0 <= k2 < a.len() && k2 < c.len());
    }
}

/// No duplicate leaves: across a full exhaustive search, where each completed
/// run's trail arises from the previous one by advancing and appending fresh
/// records, no two completed runs have identical decision trails.
pub proof fn lemma_leaves_distinct(leaves: Seq<Seq<DecisionView>>)
    requires
        forall|i: int| 0 <= i < leaves.len() - 1 ==> next_leaf(#[trigger] leaves[i], leaves[i + 1]),
    ensures
        forall|i: int, j: int| 0 <= i < j < leaves.len() ==> leaves[i] != leaves[j],
{
    assert forall|i: int, j: int| 0 <= i < j < leaves.len() implies leaves[i] != leaves[j] by {
        lemma_before_chain(leaves, i, j);
        lemma_before_neq(leaves[i], leaves[j]);
    }
}

proof fn lemma_before_neq(a: Seq<DecisionView>, b: Seq<DecisionView>)
    requires
        trail_before(a, b),
    ensures
        a != b,
{
    let k = choose|k: int|
        0 <= k < a.len() && k < b.len() && #[trigger] a.subrange(0, k) == b.subrange(0, k)
            && a[k].chosen < b[k].chosen;
    assert(a[k].chosen != b[k].chosen);
}

proof fn lemma_before_chain(leaves: Seq<Seq<DecisionView>>, i: int, j: int)
    requires
        forall|i: int| 0 <= i < leaves.len() - 1 ==> next_leaf(#[trigger] leaves[i], leaves[i + 1]),
        0 <= i < j < leaves.len(),
    ensures
        trail_before(leaves[i], leaves[j]),
    decreases j - i,
{
    if j == i + 1 {
        lemma_next_leaf_before(leaves[i], leaves[j]);
    } else {
        lemma_before_chain(leaves, i, j - 1);
        lemma_next_leaf_before(leaves[j - 1], leaves[j]);
        lemma_before_trans(leaves[i], leaves[j - 1], leaves[j]);
    }
}

} // verus!
