//! The fast solver: one derivation of the target, the first that the search
//! comes across.
use crate::derivation::{evaluate, optimal, reachable, reachable_within};
use crate::operation::{apply_operators, candidates, Operation, Value};
use crate::order::{
    answers, enumerate, frontier_after, giving, least_cost, lemma_answers_evaluate,
    lemma_answers_optimal,
    lemma_concat_contains, lemma_first_answer, lemma_frontier_holds, lemma_giving_none,
    lemma_giving_prefix, lemma_least_cost, lemma_newcomers, lemma_newcomers_prefix,
    lemma_frontier_settles, lemma_reachable_within_more, lemma_settled_unreachable,
    lemma_trail_prefix, lemma_upto, level_of, sweeps_before, upto,
    newcomers, row, rows, sweep_trail, ways,
};
use crate::sets::{lemma_push_to_set, lemma_value_set_bounded};
use crate::text::{decimal, enclose, lemma_render_step, numeral, render};
use std::collections::HashMap;
use vstd::prelude::*;

verus! {

broadcast use vstd::std_specs::hash::group_hash_axioms;

/// The record of `v` is what the search order says, after `sweeps` sweeps
/// and `trail` of the next: a value that was known before this sweep has its
/// first way, a value that this sweep found has the first operation that
/// gave it.
spec fn entry_first(
    m: Map<Value, Operation>,
    base: Seq<Value>,
    sweeps: nat,
    trail: Seq<(Value, Operation)>,
    v: Value,
) -> bool {
    if frontier_after(base, sweeps).contains(v) {
        m[v] == ways(base, v, level_of(base, v))[0]
    } else {
        giving(trail, v).len() > 0 && m[v] == giving(trail, v)[0]
    }
}

/// The state after `sweeps` sweeps and `trail` of the next.
spec fn tracing(
    m: Map<Value, Operation>,
    base: Seq<Value>,
    frontier: Seq<Value>,
    sweeps: nat,
    trail: Seq<(Value, Operation)>,
) -> bool {
    let before = frontier_after(base, sweeps);
    &&& frontier == before + newcomers(before, trail)
    &&& m.dom() == frontier.to_set()
    &&& m.dom().finite()
    &&& frontier.len() + base.to_set().len() == base.len() + m.dom().len()
    &&& trail.is_prefix_of(sweep_trail(before, base))
    &&& forall|v: Value| #[trigger] m.contains_key(v) ==> entry_first(m, base, sweeps, trail, v)
}

/// What the records hold in any state of a search with `sweeps` completed
/// sweeps: every known value can be derived with at most one operator more
/// than that, and its record is its first way; and every value that can be
/// derived with at most `sweeps` operators is known.
spec fn answering(m: Map<Value, Operation>, base: Seq<Value>, sweeps: nat) -> bool {
    &&& forall|v: Value| #[trigger]
        m.contains_key(v) ==> reachable_within(base, v, (sweeps + 1) as int) && m[v] == ways(
            base,
            v,
            level_of(base, v),
        )[0]
    &&& forall|v: Value| reachable_within(base, v, sweeps as int) ==> m.contains_key(v)
}

proof fn lemma_answering(
    m: Map<Value, Operation>,
    base: Seq<Value>,
    frontier: Seq<Value>,
    sweeps: nat,
    trail: Seq<(Value, Operation)>,
)
    requires
        tracing(m, base, frontier, sweeps, trail),
    ensures
        answering(m, base, sweeps),
{
    let before = frontier_after(base, sweeps);
    let whole = sweep_trail(before, base);
    assert forall|v: Value| #[trigger] m.contains_key(v) implies reachable_within(
        base,
        v,
        (sweeps + 1) as int,
    ) && m[v] == ways(base, v, level_of(base, v))[0] by {
        assert(entry_first(m, base, sweeps, trail, v));
        assert(frontier.to_set().contains(v));
        lemma_concat_contains(before, newcomers(before, trail), v);
        lemma_frontier_holds(base, sweeps, v);
        lemma_frontier_holds(base, sweeps + 1, v);
        if before.contains(v) {
            lemma_reachable_within_more(base, v, sweeps as int, (sweeps + 1) as int);
        } else {
            lemma_newcomers_prefix(before, trail, whole, v);
            lemma_concat_contains(before, newcomers(before, whole), v);
            lemma_least_cost(base, v, sweeps + 1);
            lemma_giving_prefix(trail, whole, v);
            assert(giving(whole, v)[0] == giving(trail, v)[0]);
        }
    }
    assert forall|v: Value| reachable_within(base, v, sweeps as int) implies m.contains_key(
        v,
    ) by {
        lemma_frontier_holds(base, sweeps, v);
        lemma_concat_contains(before, newcomers(before, trail), v);
        assert(frontier.to_set().contains(v));
    }
}

/// Taking note of one more entry of the trail keeps the records in order.
proof fn lemma_note(
    m: Map<Value, Operation>,
    later: Map<Value, Operation>,
    base: Seq<Value>,
    frontier: Seq<Value>,
    after: Seq<Value>,
    sweeps: nat,
    trail: Seq<(Value, Operation)>,
    r: Value,
    op: Operation,
)
    requires
        tracing(m, base, frontier, sweeps, trail),
        trail.push((r, op)).is_prefix_of(sweep_trail(frontier_after(base, sweeps), base)),
        m.contains_key(r) ==> later == m && after == frontier,
        !m.contains_key(r) ==> later == m.insert(r, op) && after == frontier.push(r),
    ensures
        tracing(later, base, after, sweeps, trail.push((r, op))),
{
    let before = frontier_after(base, sweeps);
    let found = newcomers(before, trail);
    let longer = trail.push((r, op));
    assert(longer.drop_last() == trail);
    assert(longer.last() == (r, op));
    lemma_concat_contains(before, found, r);
    lemma_newcomers(before, trail, r);
    if m.contains_key(r) {
        assert(frontier.to_set().contains(r));
        assert(entry_first(m, base, sweeps, trail, r));
    } else {
        lemma_push_to_set(frontier, r);
        lemma_giving_none(trail, r);
        assert(after =~= before + found.push(r));
        assert(giving(longer, r) =~= seq![op]);
    }
    assert forall|v: Value| #[trigger] later.contains_key(v) implies entry_first(
        later,
        base,
        sweeps,
        longer,
        v,
    ) by {
        if v != r || m.contains_key(r) {
            assert(entry_first(m, base, sweeps, trail, v));
        }
    }
}

/// The state after a whole sweep is the state before the next.
proof fn lemma_swept(m: Map<Value, Operation>, base: Seq<Value>, frontier: Seq<Value>, sweeps: nat)
    requires
        tracing(m, base, frontier, sweeps, sweep_trail(frontier_after(base, sweeps), base)),
    ensures
        tracing(m, base, frontier, sweeps + 1, Seq::empty()),
        frontier == frontier_after(base, sweeps + 1),
{
    let before = frontier_after(base, sweeps);
    let whole = sweep_trail(before, base);
    lemma_answering(m, base, frontier, sweeps, whole);
    assert(newcomers(frontier, Seq::empty()) == Seq::<Value>::empty());
    assert(frontier + Seq::<Value>::empty() == frontier);
    assert(Seq::<(Value, Operation)>::empty().is_prefix_of(sweep_trail(frontier, base)));
}

/// Searches for one derivation of a target.
///
/// The solver keeps every value it has found (the frontier, in the order of
/// discovery) and, for each, the operation that gave it first. A recorded
/// operation is never replaced.
///
/// A search is a series of sweeps over the frontier as it stands when the
/// sweep begins. It ends when the target comes up, or when a sweep finds
/// nothing new: the target then has no derivation at all. That may take as
/// many sweeps as there are values; `solve_within` bounds their number.
pub struct FastSolver {
    base: Vec<Value>,
    inputs: Vec<Value>,
    cache: HashMap<Value, Operation>,
}

impl FastSolver {
    /// The base values, as given to `new`.
    pub closed spec fn base(&self) -> Seq<Value> {
        self.base@
    }

    /// Every value found so far, in the order of discovery; the base values
    /// come first.
    pub closed spec fn frontier(&self) -> Seq<Value> {
        self.inputs@
    }

    /// `v` has been found.
    pub closed spec fn knows(&self, v: Value) -> bool {
        self.cache@.contains_key(v)
    }

    /// The operation recorded for a known value.
    pub closed spec fn recorded(&self, v: Value) -> Operation {
        self.cache@[v]
    }

    /// The known values are those of the frontier, each can be derived, and
    /// the operation recorded for each is its first way: what the
    /// exhaustive search records first.
    pub open spec fn first_ways(&self) -> bool {
        &&& forall|v: Value| self.knows(v) <==> self.frontier().contains(v)
        &&& forall|v: Value| #[trigger]
            self.knows(v) ==> reachable(self.base(), v) && self.recorded(v) == ways(
                self.base(),
                v,
                level_of(self.base(), v),
            )[0]
    }

    /// Every value that can be derived with at most `sweeps` operators is
    /// known, and no known value takes more than one operator more.
    pub open spec fn covers(&self, sweeps: nat) -> bool {
        &&& forall|v: Value| reachable_within(self.base(), v, sweeps as int) ==> self.knows(v)
        &&& forall|v: Value| #[trigger]
            self.knows(v) ==> reachable_within(self.base(), v, (sweeps + 1) as int)
    }

    /// The frontier is what some number of whole sweeps leave behind, and
    /// one more sweep would find nothing new: every value that can be derived
    /// is known.
    pub open spec fn exhausted(&self) -> bool {
        &&& exists|n: nat| self.frontier() == #[trigger] frontier_after(self.base(), n)
        &&& newcomers(self.frontier(), sweep_trail(self.frontier(), self.base())).len() == 0
    }

    /// The frontier is as the search for `target` left it when it found
    /// `target`. For a base value, no sweep was made. Otherwise the whole
    /// sweeps before the one that finds `target` were made, and that one as
    /// far as the first operation that gives `target`.
    pub open spec fn stopped_at(&self, target: Value) -> bool {
        let before = frontier_after(self.base(), sweeps_before(self.base(), target));
        if self.base().contains(target) {
            self.frontier() == self.base()
        } else {
            self.frontier() == before + newcomers(
                before,
                upto(sweep_trail(before, self.base()), target),
            )
        }
    }

    /// The operation recorded for a value does not depend on how far a
    /// search has gone: the first one recorded is never replaced.
    pub proof fn lemma_record_stays(&self, later: &FastSolver, v: Value)
        requires
            self.first_ways(),
            later.first_ways(),
            later.base() == self.base(),
            self.knows(v),
            later.knows(v),
        ensures
            later.recorded(v) == self.recorded(v),
    {
    }

    /// The state after `sweeps` sweeps and `trail` of the next.
    spec fn sweeping(&self, sweeps: nat, trail: Seq<(Value, Operation)>) -> bool {
        tracing(self.cache@, self.base@, self.inputs@, sweeps, trail)
    }

    /// A solver for these base values, which are all that it knows.
    pub fn new(base: Vec<Value>) -> (solver: FastSolver)
        ensures
            solver.base() == base@,
            solver.frontier() == base@,
            solver.first_ways(),
            solver.covers(0),
    {
        let mut solver = FastSolver { base, inputs: Vec::new(), cache: HashMap::new() };
        solver.reset();
        proof {
            solver.lemma_frontier(0);
            lemma_answering(solver.cache@, solver.base@, solver.inputs@, 0, Seq::empty());
            solver.lemma_observed(0, Seq::empty());
        }
        solver
    }

    /// Forgets everything but the base values.
    fn reset(&mut self)
        ensures
            final(self).sweeping(0, Seq::empty()),
            final(self).base@ == old(self).base@,
    {
        let mut inputs: Vec<Value> = Vec::new();
        let mut cache: HashMap<Value, Operation> = HashMap::new();
        let mut i: usize = 0;
        while i < self.base.len()
            invariant
                i <= self.base.len(),
                self.base@ == old(self).base@,
                inputs@ == self.base@.take(i as int),
                cache@.dom() == inputs@.to_set(),
                forall|v: Value| #[trigger]
                    cache@.contains_key(v) ==> cache@[v] == Operation::Identity(v),
            decreases self.base.len() - i,
        {
            let x = self.base[i];
            let ghost before = inputs@;
            cache.insert(x, Operation::Identity(x));
            inputs.push(x);
            proof {
                assert(inputs@ == self.base@.take(i + 1));
                lemma_push_to_set(before, x);
            }
            i = i + 1;
        }
        self.inputs = inputs;
        self.cache = cache;
        proof {
            let base = self.base@;
            assert(self.inputs@ == base);
            assert(newcomers(base, Seq::empty()) == Seq::<Value>::empty());
            assert(base + Seq::<Value>::empty() == base);
            assert(Seq::<(Value, Operation)>::empty().is_prefix_of(sweep_trail(base, base)));
            assert forall|v: Value| #[trigger] self.cache@.contains_key(v) implies entry_first(
                self.cache@,
                base,
                0,
                Seq::empty(),
                v,
            ) by {
                assert(base.contains(v));
                lemma_frontier_holds(base, 0, v);
                lemma_least_cost(base, v, 0);
            }
        }
    }

    /// Tries the candidates of `a` and `b` in turn: a candidate that is not
    /// known yet is recorded and joins the frontier, and the search stops at
    /// the first candidate that is `target`.
    fn explore(
        &mut self,
        a: Value,
        b: Value,
        target: Value,
        Ghost(sweeps): Ghost<nat>,
        Ghost(trail): Ghost<Seq<(Value, Operation)>>,
    ) -> (hit: bool)
        requires
            old(self).sweeping(sweeps, trail),
            (trail + candidates(a, b)).is_prefix_of(
                sweep_trail(frontier_after(old(self).base@, sweeps), old(self).base@),
            ),
            !old(self).cache@.contains_key(target),
        ensures
            final(self).base@ == old(self).base@,
            hit == final(self).cache@.contains_key(target),
            hit ==> answering(final(self).cache@, final(self).base@, sweeps),
            hit ==> final(self).halted(target, sweeps),
            !hit ==> final(self).sweeping(sweeps, trail + candidates(a, b)),
            final(self).cache@.dom() == final(self).inputs@.to_set(),
            final(self).cache@.dom().len() >= old(self).cache@.dom().len(),
            final(self).inputs@.len() >= old(self).inputs@.len(),
    {
        let found = apply_operators(a, b);
        let mut k: usize = 0;
        proof {
            assert(trail + found@.take(0) == trail);
        }
        while k < found.len()
            invariant
                k <= found.len(),
                found@ == candidates(a, b),
                self.base@ == old(self).base@,
                self.sweeping(sweeps, trail + found@.take(k as int)),
                (trail + found@).is_prefix_of(
                    sweep_trail(frontier_after(self.base@, sweeps), self.base@),
                ),
                !self.cache@.contains_key(target),
                self.cache@.dom().len() >= old(self).cache@.dom().len(),
                self.inputs@.len() >= old(self).inputs@.len(),
            decreases found.len() - k,
        {
            let (r, op) = found[k];
            let ghost m = self.cache@;
            let ghost frontier = self.inputs@;
            let ghost so_far = trail + found@.take(k as int);
            if !self.cache.contains_key(&r) {
                self.cache.insert(r, op);
                self.inputs.push(r);
            }
            proof {
                assert(so_far.push((r, op)) == trail + found@.take(k + 1));
                assert((trail + found@.take(k + 1)).is_prefix_of(trail + found@));
                lemma_note(
                    m,
                    self.cache@,
                    self.base@,
                    frontier,
                    self.inputs@,
                    sweeps,
                    so_far,
                    r,
                    op,
                );
                assert(self.cache@.dom() == self.inputs@.to_set());
            }
            if r == target {
                proof {
                    lemma_answering(
                        self.cache@,
                        self.base@,
                        self.inputs@,
                        sweeps,
                        so_far.push((r, op)),
                    );
                    assert(self.inputs@.to_set().contains(r));
                    let before = frontier_after(self.base@, sweeps);
                    lemma_newcomers(before, so_far, target);
                    lemma_concat_contains(before, newcomers(before, so_far), target);
                    assert(frontier.to_set().contains(target) == m.contains_key(target));
                    lemma_upto(so_far, (r, op), sweep_trail(before, self.base@), target);
                }
                return true;
            }
            k = k + 1;
        }
        proof {
            assert(found@.take(found@.len() as int) == found@);
        }
        false
    }

    /// One pass over the frontier as it stands on entry: each of its values
    /// is combined with each base value. Stops at the first candidate that is
    /// `target`.
    fn sweep(&mut self, target: Value, Ghost(sweeps): Ghost<nat>) -> (hit: bool)
        requires
            old(self).sweeping(sweeps, Seq::empty()),
            !old(self).cache@.contains_key(target),
        ensures
            final(self).base@ == old(self).base@,
            hit == final(self).cache@.contains_key(target),
            hit ==> answering(final(self).cache@, final(self).base@, sweeps),
            hit ==> final(self).halted(target, sweeps),
            !hit ==> final(self).sweeping(sweeps + 1, Seq::empty()),
            final(self).cache@.dom() == final(self).inputs@.to_set(),
            !hit && final(self).inputs@.len() == old(self).inputs@.len() ==> newcomers(
                frontier_after(old(self).base@, sweeps),
                sweep_trail(frontier_after(old(self).base@, sweeps), old(self).base@),
            ).len() == 0,
            !hit && final(self).inputs@.len() != old(self).inputs@.len() ==> {
                final(self).cache@.dom().len() > old(self).cache@.dom().len()
            },
    {
        let count = self.inputs.len();
        let ghost before = self.inputs@;
        let ghost base = self.base@;
        let mut i: usize = 0;
        proof {
            assert(newcomers(before, Seq::empty()) == Seq::<Value>::empty());
            assert(before == frontier_after(base, sweeps));
        }
        while i < count
            invariant
                i <= count,
                count == before.len(),
                before == old(self).inputs@,
                before == frontier_after(base, sweeps),
                before.is_prefix_of(self.inputs@),
                base == old(self).base@,
                self.base@ == base,
                self.sweeping(sweeps, rows(before, base, i as int)),
                !self.cache@.contains_key(target),
                self.cache@.dom().len() >= old(self).cache@.dom().len(),
                self.inputs@.len() >= old(self).inputs@.len(),
            decreases count - i,
        {
            let mut j: usize = 0;
            proof {
                assert(rows(before, base, i as int) + row(before[i as int], base, 0) == rows(
                    before,
                    base,
                    i as int,
                ));
            }
            while j < self.base.len()
                invariant
                    i < count,
                    j <= self.base.len(),
                    count == before.len(),
                    before == old(self).inputs@,
                    before == frontier_after(base, sweeps),
                    before.is_prefix_of(self.inputs@),
                    base == old(self).base@,
                    self.base@ == base,
                    self.sweeping(
                        sweeps,
                        rows(before, base, i as int) + row(before[i as int], base, j as int),
                    ),
                    !self.cache@.contains_key(target),
                    self.cache@.dom().len() >= old(self).cache@.dom().len(),
                    self.inputs@.len() >= old(self).inputs@.len(),
                decreases self.base.len() - j,
            {
                let a = self.inputs[i];
                let b = self.base[j];
                let ghost trail = rows(before, base, i as int) + row(
                    before[i as int],
                    base,
                    j as int,
                );
                proof {
                    lemma_trail_prefix(before, base, i as int, j as int);
                }
                if self.explore(a, b, target, Ghost(sweeps), Ghost(trail)) {
                    return true;
                }
                j = j + 1;
            }
            i = i + 1;
        }
        proof {
            assert(self.sweeping(sweeps, sweep_trail(before, base)));
            lemma_swept(self.cache@, base, self.inputs@, sweeps);
        }
        false
    }

    /// Sweeps until `target` is known, or until a whole sweep has found
    /// nothing new: from then on every sweep would repeat the last one, so
    /// `target` has no derivation. Says whether `target` is known, and after
    /// how many whole sweeps the search ended.
    fn iterate_until(&mut self, target: Value) -> (found: (bool, Ghost<nat>))
        requires
            old(self).sweeping(0, Seq::empty()),
        ensures
            final(self).base@ == old(self).base@,
            final(self).cache@.dom() == final(self).inputs@.to_set(),
            found.0 == final(self).cache@.contains_key(target),
            found.0 == reachable(old(self).base@, target),
            found.0 ==> answering(final(self).cache@, final(self).base@, found.1@),
            found.0 ==> found.1@ == sweeps_before(old(self).base@, target),
            found.0 ==> final(self).stopped_at(target),
            !found.0 ==> final(self).sweeping(found.1@, Seq::empty()) && final(self).exhausted(),
    {
        let ghost mut sweeps: nat = 0;
        if self.cache.contains_key(&target) {
            proof {
                lemma_answering(self.cache@, self.base@, self.inputs@, 0, Seq::empty());
                self.lemma_known(target, 0);
                self.lemma_frontier(0);
                lemma_frontier_holds(self.base@, 0, target);
                lemma_least_cost(self.base@, target, 0);
            }
            return (true, Ghost(sweeps));
        }
        proof {
            self.lemma_frontier(0);
        }
        loop
            invariant
                self.base@ == old(self).base@,
                self.sweeping(sweeps, Seq::empty()),
                !self.cache@.contains_key(target),
                !self.base@.contains(target),
            decreases 0x1_0000_0000 - self.cache@.dom().len(),
        {
            let count = self.inputs.len();
            let ghost before = *self;
            proof {
                lemma_value_set_bounded(self.cache@.dom());
            }
            if self.sweep(target, Ghost(sweeps)) {
                proof {
                    self.lemma_known(target, sweeps);
                    before.lemma_found_next(target, sweeps);
                }
                return (true, Ghost(sweeps));
            }
            if self.inputs.len() == count {
                proof {
                    self.lemma_frontier(sweeps + 1);
                    before.lemma_frontier(sweeps);
                    lemma_frontier_holds(self.base@, sweeps, target);
                    lemma_settled_unreachable(self.base@, sweeps, target);
                    assert(self.frontier() == frontier_after(self.base(), sweeps));
                }
                return (false, Ghost(sweeps + 1));
            }
            proof {
                sweeps = sweeps + 1;
                lemma_value_set_bounded(self.cache@.dom());
            }
        }
    }

    /// As `iterate_until`, but gives up after `limit` sweeps.
    fn iterate_within(&mut self, target: Value, limit: u32) -> (found: (bool, Ghost<nat>))
        requires
            old(self).sweeping(0, Seq::empty()),
        ensures
            final(self).base@ == old(self).base@,
            final(self).cache@.dom() == final(self).inputs@.to_set(),
            found.0 == final(self).cache@.contains_key(target),
            found.0 == reachable_within(old(self).base@, target, limit as int),
            found.0 ==> answering(final(self).cache@, final(self).base@, found.1@),
            found.0 ==> found.1@ == sweeps_before(old(self).base@, target),
            found.0 ==> final(self).stopped_at(target),
            !found.0 ==> final(self).sweeping(found.1@, Seq::empty()) && final(self).inputs@
                == frontier_after(old(self).base@, limit as nat),
    {
        let ghost mut sweeps: nat = 0;
        if self.cache.contains_key(&target) {
            proof {
                lemma_answering(self.cache@, self.base@, self.inputs@, 0, Seq::empty());
                self.lemma_known(target, 0);
                self.lemma_frontier(0);
                lemma_frontier_holds(self.base@, 0, target);
                lemma_least_cost(self.base@, target, 0);
                lemma_reachable_within_more(self.base@, target, 0, limit as int);
            }
            return (true, Ghost(sweeps));
        }
        proof {
            self.lemma_frontier(0);
        }
        let mut done: u32 = 0;
        while done < limit
            invariant
                done <= limit,
                sweeps == done,
                self.base@ == old(self).base@,
                self.sweeping(sweeps, Seq::empty()),
                !self.cache@.contains_key(target),
                !self.base@.contains(target),
            decreases limit - done,
        {
            let count = self.inputs.len();
            let ghost before = *self;
            if self.sweep(target, Ghost(sweeps)) {
                proof {
                    self.lemma_known(target, sweeps);
                    before.lemma_found_next(target, sweeps);
                    lemma_reachable_within_more(
                        self.base@,
                        target,
                        (sweeps + 1) as int,
                        limit as int,
                    );
                }
                return (true, Ghost(sweeps));
            }
            if self.inputs.len() == count {
                proof {
                    self.lemma_frontier(sweeps + 1);
                    before.lemma_frontier(sweeps);
                    lemma_frontier_holds(self.base@, sweeps, target);
                    lemma_settled_unreachable(self.base@, sweeps, target);
                    if reachable_within(self.base@, target, limit as int) {
                        lemma_least_cost(self.base@, target, limit as nat);
                    }
                    lemma_frontier_settles(self.base@, sweeps, limit as nat);
                }
                return (false, Ghost(sweeps + 1));
            }
            done = done + 1;
            proof {
                sweeps = sweeps + 1;
            }
        }
        proof {
            self.lemma_frontier(sweeps);
            lemma_frontier_holds(self.base@, sweeps, target);
        }
        (false, Ghost(sweeps))
    }

    /// The frontier is what `sweeps` whole sweeps leave behind, and the next
    /// as far as the first operation that gives `target`.
    spec fn halted(&self, target: Value, sweeps: nat) -> bool {
        let before = frontier_after(self.base@, sweeps);
        self.inputs@ == before + newcomers(before, upto(sweep_trail(before, self.base@), target))
    }

    /// A value that was not known between two sweeps and can be derived with
    /// one operator more than the sweeps so far takes exactly so many.
    proof fn lemma_found_next(&self, target: Value, sweeps: nat)
        requires
            self.sweeping(sweeps, Seq::empty()),
            !self.cache@.contains_key(target),
            reachable_within(self.base@, target, (sweeps + 1) as int),
        ensures
            level_of(self.base@, target) == sweeps + 1,
    {
        self.lemma_frontier(sweeps);
        lemma_frontier_holds(self.base@, sweeps, target);
        lemma_least_cost(self.base@, target, sweeps + 1);
    }

    /// What an observer can say of the state of a search.
    proof fn lemma_observed(&self, sweeps: nat, trail: Seq<(Value, Operation)>)
        requires
            answering(self.cache@, self.base@, sweeps),
            self.cache@.dom() == self.inputs@.to_set(),
        ensures
            self.first_ways(),
            self.covers(sweeps),
    {
        assert forall|v: Value| #[trigger] self.knows(v) implies reachable(self.base(), v)
            && self.recorded(v) == ways(self.base(), v, level_of(self.base(), v))[0] by {
            self.lemma_known(v, sweeps);
        }
    }

    /// Between two sweeps the frontier is what the sweeps so far have found,
    /// and holds the known values.
    proof fn lemma_frontier(&self, sweeps: nat)
        requires
            self.sweeping(sweeps, Seq::empty()),
        ensures
            self.inputs@ == frontier_after(self.base@, sweeps),
            forall|v: Value| self.cache@.contains_key(v) <==> self.inputs@.contains(v),
    {
        let before = frontier_after(self.base@, sweeps);
        assert(newcomers(before, Seq::empty()) == Seq::<Value>::empty());
        assert(before + Seq::<Value>::empty() == before);
    }

    /// A known value can be derived.
    proof fn lemma_known(&self, v: Value, sweeps: nat)
        requires
            answering(self.cache@, self.base@, sweeps),
            self.cache@.contains_key(v),
        ensures
            reachable(self.base@, v),
            least_cost(self.base@, v, level_of(self.base@, v)),
            level_of(self.base@, v) <= sweeps + 1,
    {
        lemma_least_cost(self.base@, v, sweeps + 1);
    }

    /// Writes the derivation that the records hold for a known value: the
    /// value itself where it is a base value, and otherwise the derivation
    /// of the left operand of its recorded operation, wrapped with that
    /// operation's symbol and right operand.
    fn format_solution(&self, target: Value, Ghost(sweeps): Ghost<nat>) -> (out: String)
        requires
            answering(self.cache@, self.base@, sweeps),
            self.cache@.contains_key(target),
        ensures
            out@ == render(enumerate(self.base@, target, level_of(self.base@, target))[0]),
        decreases level_of(self.base@, target),
    {
        proof {
            self.lemma_known(target, sweeps);
            lemma_first_answer(self.base@, target, level_of(self.base@, target));
        }
        let found = self.cache.get(&target);
        let op = *found.unwrap();
        match op {
            Operation::Identity(x) => numeral(x),
            Operation::Addition(a, b)
            | Operation::Multiplication(a, b)
            | Operation::Subtraction(a, b)
            | Operation::Exponentiation(a, b) => {
                proof {
                    let n = level_of(self.base@, target);
                    lemma_least_cost(self.base@, a, (n - 1) as nat);
                    lemma_reachable_within_more(self.base@, a, n - 1, sweeps as int);
                    lemma_render_step(enumerate(self.base@, a, (n - 1) as nat)[0], op);
                }
                let left = self.format_solution(a, Ghost(sweeps));
                let right = numeral(b);
                enclose(left.as_str(), op.symbol(), right.as_str())
            },
        }
    }

    /// Searches for `target` from the base values alone, and writes the
    /// first derivation of it that the search comes across: the first of
    /// those that the exhaustive search would give. `None` where `target`
    /// has no derivation.
    pub fn solve(&mut self, target: Value) -> (out: Option<String>)
        ensures
            final(self).base() == old(self).base(),
            final(self).first_ways(),
            final(self).knows(target) <==> out is Some,
            out is Some ==> final(self).covers(sweeps_before(old(self).base(), target)),
            out is Some ==> final(self).stopped_at(target),
            out is None ==> final(self).exhausted(),
            out is Some <==> reachable(old(self).base(), target),
            out matches Some(text) ==> {
                &&& answers(old(self).base(), target).len() > 0
                &&& text@ == render(answers(old(self).base(), target)[0])
                &&& optimal(old(self).base(), answers(old(self).base(), target)[0], target)
                &&& evaluate(answers(old(self).base(), target)[0]) == Some(target)
            },
            old(self).base().contains(target) ==> (out matches Some(text) && text@ == decimal(
                target as nat,
            )),
    {
        self.reset();
        let (found, Ghost(sweeps)) = self.iterate_until(target);
        proof {
            self.lemma_base_value(target);
        }
        if found {
            proof {
                self.lemma_known(target, sweeps);
                self.lemma_observed(sweeps, Seq::empty());
                lemma_first_answer(self.base@, target, level_of(self.base@, target));
                lemma_answers_optimal(self.base@, target, 0);
                lemma_answers_evaluate(self.base@, target, 0);
            }
            Some(self.format_solution(target, Ghost(sweeps)))
        } else {
            proof {
                lemma_answering(self.cache@, self.base@, self.inputs@, sweeps, Seq::empty());
                self.lemma_observed(sweeps, Seq::empty());
            }
            None
        }
    }

    /// As `solve`, but with at most `limit` sweeps: `target` is found if and
    /// only if it has a derivation with no more than `limit` operators.
    pub fn solve_within(&mut self, target: Value, limit: u32) -> (out: Option<String>)
        ensures
            final(self).base() == old(self).base(),
            final(self).first_ways(),
            final(self).knows(target) <==> out is Some,
            out is Some ==> final(self).covers(sweeps_before(old(self).base(), target)),
            out is Some ==> final(self).stopped_at(target),
            out is None ==> final(self).frontier() == frontier_after(
                old(self).base(),
                limit as nat,
            ),
            out is Some <==> reachable_within(old(self).base(), target, limit as int),
            out matches Some(text) ==> {
                &&& answers(old(self).base(), target).len() > 0
                &&& text@ == render(answers(old(self).base(), target)[0])
                &&& optimal(old(self).base(), answers(old(self).base(), target)[0], target)
                &&& evaluate(answers(old(self).base(), target)[0]) == Some(target)
            },
            old(self).base().contains(target) ==> (out matches Some(text) && text@ == decimal(
                target as nat,
            )),
    {
        self.reset();
        let (found, Ghost(sweeps)) = self.iterate_within(target, limit);
        proof {
            self.lemma_base_value(target);
            if self.base@.contains(target) {
                lemma_reachable_within_more(self.base@, target, 0, limit as int);
            }
        }
        if found {
            proof {
                self.lemma_known(target, sweeps);
                self.lemma_observed(sweeps, Seq::empty());
                lemma_first_answer(self.base@, target, level_of(self.base@, target));
                lemma_answers_optimal(self.base@, target, 0);
                lemma_answers_evaluate(self.base@, target, 0);
            }
            Some(self.format_solution(target, Ghost(sweeps)))
        } else {
            proof {
                lemma_answering(self.cache@, self.base@, self.inputs@, sweeps, Seq::empty());
                self.lemma_observed(sweeps, Seq::empty());
            }
            None
        }
    }

    /// A base value takes no operator, and its first answer is itself.
    proof fn lemma_base_value(&self, v: Value)
        ensures
            self.base@.contains(v) ==> {
                &&& reachable_within(self.base@, v, 0)
                &&& reachable(self.base@, v)
                &&& level_of(self.base@, v) == 0
                &&& render(answers(self.base@, v)[0]) == decimal(v as nat)
            },
    {
        if self.base@.contains(v) {
            lemma_frontier_holds(self.base@, 0, v);
            lemma_least_cost(self.base@, v, 0);
            lemma_first_answer(self.base@, v, 0);
        }
    }
}

} // verus!
