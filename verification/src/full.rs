//! The exhaustive solver: every derivation of the target that applies the
//! least possible number of operators.
use crate::derivation::{cost, derives, evaluate, optimal, reachable, reachable_within};
use crate::operation::{apply_operators, candidates, Operation, Value};
use crate::order::{
    answers, answers_within, enumerate, extend, frontier_after, giving, least_cost,
    lemma_answers_complete, lemma_answers_evaluate, lemma_answers_exist, lemma_answers_optimal,
    lemma_concat_contains,
    lemma_frontier_holds, lemma_giving_none, lemma_least_cost, lemma_newcomers,
    lemma_reachable_within_more, lemma_settled_unreachable, lemma_unfold_sound, lemma_ways,
    level_of, newcomers, productive, row, rows, sweep_trail, unfold, ways,
};
use crate::product::cartesian_product;
use crate::sets::{lemma_push_to_set, lemma_value_set_bounded};
use crate::text::{
    decimal, enclose, lemma_render_step, lemma_texts_push, numeral, render, render_all, texts,
};
use std::collections::HashMap;
use vstd::prelude::*;

verus! {

broadcast use vstd::std_specs::hash::group_hash_axioms;

/// What is recorded for a value: the level at which it was reached, and the
/// operations that reach it at that level, in the order in which they were
/// found. The same operation may be listed more than once.
#[derive(Debug)]
pub struct CacheData {
    pub operations: Vec<Operation>,
    pub complexity: u64,
}

impl CacheData {
    /// The record of a value that `operation` reached first, at `level`.
    pub fn first(operation: Operation, level: u64) -> (data: CacheData)
        ensures
            data.operations@ == seq![operation],
            data.complexity == level,
    {
        let mut operations: Vec<Operation> = Vec::new();
        operations.push(operation);
        CacheData { operations, complexity: level }
    }

    /// Takes note that `operation`, found at `level`, reaches the value too.
    /// At the recorded level it is one more way to reach the value; at a
    /// lower level it replaces what was recorded; at a higher level it is
    /// ignored. The recorded level never goes up.
    pub fn absorb(&mut self, operation: Operation, level: u64)
        ensures
            final(self).complexity <= old(self).complexity,
            old(self).complexity == level ==> {
                &&& final(self).complexity == level
                &&& final(self).operations@ == old(self).operations@.push(operation)
            },
            old(self).complexity > level ==> {
                &&& final(self).complexity == level
                &&& final(self).operations@ == seq![operation]
            },
            old(self).complexity < level ==> {
                &&& final(self).complexity == old(self).complexity
                &&& final(self).operations@ == old(self).operations@
            },
    {
        if self.complexity == level {
            self.operations.push(operation);
        } else if self.complexity > level {
            let mut operations: Vec<Operation> = Vec::new();
            operations.push(operation);
            self.operations = operations;
            self.complexity = level;
        }
    }
}

/// The record of `v` is what the search order says, in the sweep of `level`
/// that has gone through `trail` so far: a value that was known before the
/// sweep has its level and all its ways, a value that the sweep found has
/// the operations that gave it so far.
spec fn entry_traced(
    m: Map<Value, CacheData>,
    base: Seq<Value>,
    level: nat,
    trail: Seq<(Value, Operation)>,
    v: Value,
) -> bool {
    if frontier_after(base, (level - 1) as nat).contains(v) {
        &&& m[v].complexity < level
        &&& least_cost(base, v, m[v].complexity as nat)
        &&& m[v].operations@ == ways(base, v, m[v].complexity as nat)
    } else {
        &&& m[v].complexity == level
        &&& m[v].operations@ == giving(trail, v)
    }
}

/// The state in the sweep of `level` that has gone through `trail` so far.
spec fn tracing(
    m: Map<Value, CacheData>,
    base: Seq<Value>,
    frontier: Seq<Value>,
    level: nat,
    trail: Seq<(Value, Operation)>,
) -> bool {
    let before = frontier_after(base, (level - 1) as nat);
    &&& level >= 1
    &&& frontier == before + newcomers(before, trail)
    &&& m.dom() == frontier.to_set()
    &&& m.dom().finite()
    &&& frontier.len() + base.to_set().len() == base.len() + m.dom().len()
    &&& level + base.len() <= before.len() + 1
    &&& forall|n: nat| 1 <= n < level ==> #[trigger] productive(base, n)
    &&& forall|v: Value| #[trigger] m.contains_key(v) ==> entry_traced(m, base, level, trail, v)
}

/// Every record of `m` is still there in `later`, at the same level.
spec fn keeps(m: Map<Value, CacheData>, later: Map<Value, CacheData>) -> bool {
    forall|v: Value| #[trigger]
        m.contains_key(v) ==> later.contains_key(v) && later[v].complexity == m[v].complexity
}

/// One application of the update rule takes the sweep one entry further
/// along its trail.
proof fn lemma_record(
    m: Map<Value, CacheData>,
    later: Map<Value, CacheData>,
    base: Seq<Value>,
    frontier: Seq<Value>,
    after: Seq<Value>,
    level: nat,
    trail: Seq<(Value, Operation)>,
    r: Value,
    op: Operation,
)
    requires
        tracing(m, base, frontier, level, trail),
        later.dom() == m.dom().insert(r),
        forall|v: Value| v != r && m.contains_key(v) ==> later[v] == m[v],
        m.contains_key(r) ==> {
            &&& after == frontier
            &&& later[r].complexity == m[r].complexity
            &&& m[r].complexity == level ==> later[r].operations@ == m[r].operations@.push(op)
            &&& m[r].complexity < level ==> later[r].operations@ == m[r].operations@
        },
        !m.contains_key(r) ==> {
            &&& after == frontier.push(r)
            &&& later[r].complexity == level
            &&& later[r].operations@ == seq![op]
        },
    ensures
        tracing(later, base, after, level, trail.push((r, op))),
        keeps(m, later),
{
    let before = frontier_after(base, (level - 1) as nat);
    let found = newcomers(before, trail);
    let longer = trail.push((r, op));
    assert(longer.drop_last() == trail);
    assert(longer.last() == (r, op));
    lemma_concat_contains(before, found, r);
    lemma_newcomers(before, trail, r);
    if m.contains_key(r) {
        assert(entry_traced(m, base, level, trail, r));
        assert(later.dom() =~= m.dom());
    } else {
        lemma_push_to_set(frontier, r);
        lemma_giving_none(trail, r);
        assert(after =~= before + found.push(r));
        assert(giving(longer, r) =~= seq![op]);
    }
    assert forall|v: Value| #[trigger] later.contains_key(v) implies entry_traced(
        later,
        base,
        level,
        longer,
        v,
    ) by {
        if v != r {
            assert(entry_traced(m, base, level, trail, v));
        }
    }
}

/// Searches for every derivation of a target that applies the least number
/// of operators.
///
/// The search goes level by level: the sweep of level `n` combines every
/// value known before it with every base value, and so reaches the values that
/// take `n` operators and no fewer. For each value the solver records the
/// level at which it was reached and every operation that reaches it at that
/// level.
///
/// A search ends when the target is known, or when a sweep finds no new
/// value: the target then has no derivation at all. That may take as many
/// sweeps as there are values; `solve_within` bounds their number.
pub struct FullSolver {
    base: Vec<Value>,
    inputs: Vec<Value>,
    cache: HashMap<Value, CacheData>,
    iterations: u64,
}

impl FullSolver {
    /// The base values, as given to `new`.
    pub closed spec fn base(&self) -> Seq<Value> {
        self.base@
    }

    /// Every value found so far, in the order of discovery; the base values
    /// come first.
    pub closed spec fn frontier(&self) -> Seq<Value> {
        self.inputs@
    }

    /// The level of the next sweep.
    pub closed spec fn level(&self) -> nat {
        self.iterations as nat
    }

    /// `v` has been found.
    pub closed spec fn knows(&self, v: Value) -> bool {
        self.cache@.contains_key(v)
    }

    /// The level at which a known value was reached.
    pub closed spec fn complexity(&self, v: Value) -> nat {
        self.cache@[v].complexity as nat
    }

    /// The operations recorded for a known value.
    pub closed spec fn operations(&self, v: Value) -> Seq<Operation> {
        self.cache@[v].operations@
    }

    /// What the solver holds between two sweeps: the frontier that the
    /// sweeps below `level()` have built, each of which found something, and
    /// for each value of the frontier the least number of operators that it
    /// takes, with all its ways.
    pub open spec fn settled(&self) -> bool {
        &&& self.level() >= 1
        &&& self.frontier() == frontier_after(self.base(), (self.level() - 1) as nat)
        &&& forall|n: nat| 1 <= n < self.level() ==> #[trigger] productive(self.base(), n)
        &&& forall|v: Value| self.knows(v) <==> self.frontier().contains(v)
        &&& forall|v: Value| #[trigger]
            self.knows(v) ==> {
                &&& reachable(self.base(), v)
                &&& self.complexity(v) == level_of(self.base(), v)
                &&& self.operations(v) == ways(self.base(), v, level_of(self.base(), v))
            }
    }

    /// A sweep would find nothing new: every value that can be derived is
    /// known.
    pub open spec fn exhausted(&self) -> bool {
        newcomers(self.frontier(), sweep_trail(self.frontier(), self.base())).len() == 0
    }

    /// The level recorded for a value does not depend on how far a search
    /// has gone: once a value is known, its level stays what it is.
    pub proof fn lemma_complexity_stays(&self, later: &FullSolver, v: Value)
        requires
            self.settled(),
            later.settled(),
            later.base() == self.base(),
            self.knows(v),
            later.knows(v),
        ensures
            later.complexity(v) == self.complexity(v),
            later.operations(v) == self.operations(v),
    {
    }

    /// The state between two sweeps: what the sweeps of the levels below
    /// `iterations` leave behind.
    spec fn wf(&self) -> bool {
        tracing(self.cache@, self.base@, self.inputs@, self.iterations as nat, Seq::empty())
    }

    /// The state in the current sweep, after `trail`.
    spec fn sweeping(&self, trail: Seq<(Value, Operation)>) -> bool {
        tracing(self.cache@, self.base@, self.inputs@, self.iterations as nat, trail)
    }

    /// A solver for these base values, which it knows at level 0.
    pub fn new(base: Vec<Value>) -> (solver: FullSolver)
        ensures
            solver.base() == base@,
            solver.settled(),
            solver.level() == 1,
    {
        let mut solver = FullSolver {
            base,
            inputs: Vec::new(),
            cache: HashMap::new(),
            iterations: 1,
        };
        solver.reset();
        proof {
            solver.lemma_settled();
        }
        solver
    }

    /// Forgets everything but the base values, each known at level 0, and
    /// starts again at level 1.
    fn reset(&mut self)
        ensures
            final(self).wf(),
            final(self).iterations == 1,
            final(self).base@ == old(self).base@,
    {
        let mut inputs: Vec<Value> = Vec::new();
        let mut cache: HashMap<Value, CacheData> = HashMap::new();
        let mut i: usize = 0;
        while i < self.base.len()
            invariant
                i <= self.base.len(),
                self.base@ == old(self).base@,
                inputs@ == self.base@.take(i as int),
                cache@.dom() == inputs@.to_set(),
                forall|v: Value| #[trigger]
                    cache@.contains_key(v) ==> cache@[v].complexity == 0 && cache@[v].operations@
                        == seq![Operation::Identity(v)],
            decreases self.base.len() - i,
        {
            let x = self.base[i];
            let ghost before = inputs@;
            cache.insert(x, CacheData::first(Operation::Identity(x), 0));
            inputs.push(x);
            proof {
                assert(inputs@ == self.base@.take(i + 1));
                lemma_push_to_set(before, x);
            }
            i = i + 1;
        }
        self.inputs = inputs;
        self.cache = cache;
        self.iterations = 1;
        proof {
            let base = self.base@;
            assert(self.inputs@ == base);
            assert(newcomers(base, Seq::empty()) == Seq::<Value>::empty());
            assert(base + Seq::<Value>::empty() == base);
            assert forall|v: Value| #[trigger] self.cache@.contains_key(v) implies entry_traced(
                self.cache@,
                base,
                1,
                Seq::empty(),
                v,
            ) by {
                assert(base.contains(v));
                lemma_frontier_holds(base, 0, v);
            }
        }
    }

    /// The update rule for one result of the sweep. A result that is not
    /// known is recorded at the current level and joins the frontier; for a
    /// known one, the operation is handed to its record.
    fn record(
        &mut self,
        result: Value,
        operation: Operation,
        Ghost(trail): Ghost<Seq<(Value, Operation)>>,
    )
        requires
            old(self).sweeping(trail),
        ensures
            final(self).sweeping(trail.push((result, operation))),
            keeps(old(self).cache@, final(self).cache@),
            final(self).base@ == old(self).base@,
            final(self).iterations == old(self).iterations,
            old(self).inputs@.is_prefix_of(final(self).inputs@),
    {
        let ghost m = self.cache@;
        proof {
            if m.contains_key(result) {
                assert(entry_traced(m, self.base@, self.iterations as nat, trail, result));
            }
        }
        match self.cache.remove(&result) {
            Some(mut data) => {
                data.absorb(operation, self.iterations);
                self.cache.insert(result, data);
            },
            None => {
                self.cache.insert(result, CacheData::first(operation, self.iterations));
                self.inputs.push(result);
            },
        }
        proof {
            assert(self.cache@.dom() =~= m.dom().insert(result));
            lemma_record(
                m,
                self.cache@,
                self.base@,
                old(self).inputs@,
                self.inputs@,
                self.iterations as nat,
                trail,
                result,
                operation,
            );
        }
    }

    /// Applies every operator to `a` and `b` and records the results.
    fn combine(&mut self, a: Value, b: Value, Ghost(trail): Ghost<Seq<(Value, Operation)>>)
        requires
            old(self).sweeping(trail),
        ensures
            final(self).sweeping(trail + candidates(a, b)),
            keeps(old(self).cache@, final(self).cache@),
            final(self).base@ == old(self).base@,
            final(self).iterations == old(self).iterations,
            old(self).inputs@.is_prefix_of(final(self).inputs@),
    {
        let found = apply_operators(a, b);
        let mut k: usize = 0;
        proof {
            assert(trail + found@.take(0) == trail);
        }
        while k < found.len()
            invariant
                k <= found.len(),
                found@ == candidates(a, b),
                self.sweeping(trail + found@.take(k as int)),
                keeps(old(self).cache@, self.cache@),
                self.base@ == old(self).base@,
                self.iterations == old(self).iterations,
                old(self).inputs@.is_prefix_of(self.inputs@),
            decreases found.len() - k,
        {
            let (r, op) = found[k];
            self.record(r, op, Ghost(trail + found@.take(k as int)));
            proof {
                assert((trail + found@.take(k as int)).push((r, op)) == trail + found@.take(
                    k + 1,
                ));
            }
            k = k + 1;
        }
        proof {
            assert(found@.take(found@.len() as int) == found@);
        }
    }

    /// The sweep of the current level: every value that was known on entry
    /// is combined with every base value. Says whether a new value was
    /// found, and if so moves on to the next level.
    fn sweep(&mut self) -> (grew: bool)
        requires
            old(self).wf(),
        ensures
            final(self).wf(),
            keeps(old(self).cache@, final(self).cache@),
            final(self).base@ == old(self).base@,
            grew ==> final(self).iterations == old(self).iterations + 1,
            grew ==> final(self).cache@.dom().len() > old(self).cache@.dom().len(),
            !grew ==> final(self).iterations == old(self).iterations,
            !grew ==> final(self).inputs@ == old(self).inputs@,
            !grew ==> newcomers(
                old(self).inputs@,
                sweep_trail(old(self).inputs@, old(self).base@),
            ).len() == 0,
    {
        let count = self.inputs.len();
        let ghost before = self.inputs@;
        let ghost base = self.base@;
        let mut i: usize = 0;
        proof {
            assert(newcomers(before, Seq::empty()) == Seq::<Value>::empty());
            assert(before == frontier_after(base, (self.iterations - 1) as nat));
        }
        while i < count
            invariant
                i <= count,
                count == before.len(),
                before == old(self).inputs@,
                before == frontier_after(base, (self.iterations - 1) as nat),
                before.is_prefix_of(self.inputs@),
                base == old(self).base@,
                self.base@ == base,
                self.iterations == old(self).iterations,
                self.sweeping(rows(before, base, i as int)),
                keeps(old(self).cache@, self.cache@),
            decreases count - i,
        {
            let mut j: usize = 0;
            proof {
                assert(rows(before, base, i as int) + row(before[i as int], base, 0) == rows(
                    before,
                    base,
                    i as int,
                ));
            }
            while j < self.base.len()
                invariant
                    i < count,
                    j <= self.base.len(),
                    count == before.len(),
                    before == old(self).inputs@,
                    before == frontier_after(base, (self.iterations - 1) as nat),
                    before.is_prefix_of(self.inputs@),
                    base == old(self).base@,
                    self.base@ == base,
                    self.iterations == old(self).iterations,
                    self.sweeping(
                        rows(before, base, i as int) + row(before[i as int], base, j as int),
                    ),
                    keeps(old(self).cache@, self.cache@),
                decreases self.base.len() - j,
            {
                let a = self.inputs[i];
                let b = self.base[j];
                let ghost trail = rows(before, base, i as int) + row(
                    before[i as int],
                    base,
                    j as int,
                );
                self.combine(a, b, Ghost(trail));
                proof {
                    assert(trail + candidates(a, b) == rows(before, base, i as int) + row(
                        before[i as int],
                        base,
                        j + 1,
                    ));
                }
                j = j + 1;
            }
            i = i + 1;
        }
        let grew = self.inputs.len() > count;
        proof {
            let trail = sweep_trail(before, base);
            let level = self.iterations as nat;
            let found = newcomers(before, trail);
            assert(self.sweeping(trail));
            lemma_value_set_bounded(self.cache@.dom());
            if grew {
                assert(productive(base, level));
                assert(frontier_after(base, level) == self.inputs@);
                assert(newcomers(self.inputs@, Seq::empty()) == Seq::<Value>::empty());
                assert(self.inputs@ + Seq::<Value>::empty() == self.inputs@);
                assert forall|v: Value| #[trigger] self.cache@.contains_key(v) implies entry_traced(
                    self.cache@,
                    base,
                    level + 1,
                    Seq::empty(),
                    v,
                ) by {
                    assert(entry_traced(self.cache@, base, level, trail, v));
                    lemma_concat_contains(before, found, v);
                    lemma_frontier_holds(base, level, v);
                    lemma_frontier_holds(base, (level - 1) as nat, v);
                }
            } else {
                assert(found.len() == 0);
                assert(self.inputs@ == before);
                assert forall|v: Value| #[trigger] self.cache@.contains_key(v) implies entry_traced(
                    self.cache@,
                    base,
                    level,
                    Seq::empty(),
                    v,
                ) by {
                    assert(entry_traced(self.cache@, base, level, trail, v));
                }
            }
        }
        if grew {
            self.iterations = self.iterations + 1;
        }
        grew
    }

    /// Sweeps level after level until `target` is known, or until a sweep has
    /// found nothing new: from then on no sweep would find anything, so
    /// `target` has no derivation. A sweep that was begun is completed. Says
    /// whether `target` is known.
    fn iterate_until(&mut self, target: Value) -> (found: bool)
        requires
            old(self).wf(),
        ensures
            final(self).wf(),
            keeps(old(self).cache@, final(self).cache@),
            final(self).base@ == old(self).base@,
            found == final(self).cache@.contains_key(target),
            found == reachable(old(self).base@, target),
            final(self).stopped(old(self), target),
            !found ==> final(self).exhausted(),
    {
        let mut saturated = false;
        while !saturated && !self.cache.contains_key(&target)
            invariant
                self.wf(),
                keeps(old(self).cache@, self.cache@),
                self.base@ == old(self).base@,
                saturated ==> !self.cache@.contains_key(target) && !reachable(self.base@, target),
                saturated ==> self.exhausted(),
                !saturated ==> self.stopped(old(self), target),
            decreases
                    0x1_0000_0000 - self.cache@.dom().len(),
                    (if saturated {
                        0int
                    } else {
                        1int
                    }),
        {
            let ghost before = *self;
            proof {
                lemma_value_set_bounded(self.cache@.dom());
                self.lemma_frontier();
            }
            let grew = self.sweep();
            if !grew {
                proof {
                    self.lemma_frontier();
                    lemma_settled_unreachable(
                        self.base@,
                        (self.iterations - 1) as nat,
                        target,
                    );
                }
                saturated = true;
            }
            proof {
                lemma_value_set_bounded(self.cache@.dom());
                self.lemma_found_now(&before, target);
            }
        }
        proof {
            if self.cache@.contains_key(target) {
                self.lemma_known(target);
            }
        }
        !saturated
    }

    /// As `iterate_until`, but gives up after `limit` sweeps.
    fn iterate_within(&mut self, target: Value, limit: u32) -> (found: bool)
        requires
            old(self).wf(),
        ensures
            final(self).wf(),
            keeps(old(self).cache@, final(self).cache@),
            final(self).base@ == old(self).base@,
            found == final(self).cache@.contains_key(target),
            found == reachable_within(old(self).base@, target, old(self).iterations + limit - 1),
            final(self).stopped(old(self), target),
            !found ==> final(self).exhausted() || final(self).iterations == old(self).iterations
                + limit,
    {
        let mut saturated = false;
        let mut done: u32 = 0;
        while !saturated && done < limit && !self.cache.contains_key(&target)
            invariant
                done <= limit,
                self.wf(),
                keeps(old(self).cache@, self.cache@),
                self.base@ == old(self).base@,
                self.iterations <= old(self).iterations + done,
                !saturated ==> self.iterations == old(self).iterations + done,
                saturated ==> !self.cache@.contains_key(target) && !reachable(self.base@, target),
                saturated ==> self.exhausted(),
                !saturated ==> self.stopped(old(self), target),
            decreases
                    limit - done,
                    (if saturated {
                        0int
                    } else {
                        1int
                    }),
        {
            let ghost before = *self;
            proof {
                self.lemma_frontier();
            }
            let grew = self.sweep();
            if !grew {
                proof {
                    self.lemma_frontier();
                    lemma_settled_unreachable(
                        self.base@,
                        (self.iterations - 1) as nat,
                        target,
                    );
                }
                saturated = true;
            } else {
                done = done + 1;
            }
            proof {
                self.lemma_found_now(&before, target);
            }
        }
        let found = self.cache.contains_key(&target);
        proof {
            let bound = old(self).iterations + limit - 1;
            if found {
                self.lemma_known(target);
                lemma_reachable_within_more(
                    self.base@,
                    target,
                    self.cache@[target].complexity as int,
                    bound,
                );
            } else if reachable_within(self.base@, target, bound) {
                if saturated {
                    let chain = choose|chain: Seq<Operation>|
                        derives(self.base@, chain, target) && cost(chain) <= bound;
                    assert(derives(self.base@, chain, target));
                } else {
                    self.lemma_frontier();
                    lemma_frontier_holds(self.base@, (self.iterations - 1) as nat, target);
                }
            }
        }
        found
    }

    /// Where a search that began in state `earlier` stopped: at the level
    /// above that of `target`, if it was the search that found `target`, and
    /// where it began, if `target` was known before.
    spec fn stopped(&self, earlier: &FullSolver, target: Value) -> bool {
        self.cache@.contains_key(target) ==> if earlier.cache@.contains_key(target) {
            self.iterations == earlier.iterations
        } else {
            self.iterations == self.cache@[target].complexity + 1
        }
    }

    /// A value that the last sweep found is recorded at the level of that
    /// sweep.
    proof fn lemma_found_now(&self, before: &FullSolver, target: Value)
        requires
            before.wf(),
            self.wf(),
            self.base@ == before.base@,
            !before.cache@.contains_key(target),
            self.iterations <= before.iterations + 1,
        ensures
            self.cache@.contains_key(target) ==> self.iterations == self.cache@[target].complexity
                + 1,
    {
        if self.cache@.contains_key(target) {
            before.lemma_frontier();
            self.lemma_known(target);
            let least = self.cache@[target].complexity as nat;
            lemma_frontier_holds(self.base@, (before.iterations - 1) as nat, target);
            if least < before.iterations {
                lemma_reachable_within_more(
                    self.base@,
                    target,
                    least as int,
                    before.iterations - 1,
                );
            }
        }
    }

    /// Between two sweeps the solver holds what `settled` says.
    proof fn lemma_settled(&self)
        requires
            self.wf(),
        ensures
            self.settled(),
    {
        self.lemma_frontier();
        assert forall|v: Value| #[trigger] self.knows(v) implies {
            &&& reachable(self.base(), v)
            &&& self.complexity(v) == level_of(self.base(), v)
            &&& self.operations(v) == ways(self.base(), v, level_of(self.base(), v))
        } by {
            self.lemma_known(v);
        }
    }

    /// Between two sweeps the frontier is what the sweeps so far have found,
    /// and holds the known values.
    proof fn lemma_frontier(&self)
        requires
            self.wf(),
        ensures
            self.inputs@ == frontier_after(self.base@, (self.iterations - 1) as nat),
            forall|v: Value| self.cache@.contains_key(v) <==> self.inputs@.contains(v),
    {
        let before = frontier_after(self.base@, (self.iterations - 1) as nat);
        assert(newcomers(before, Seq::empty()) == Seq::<Value>::empty());
        assert(before + Seq::<Value>::empty() == before);
    }

    /// A known value can be derived, its level is the least number of
    /// operators that this takes, and its record holds its ways.
    proof fn lemma_known(&self, v: Value)
        requires
            self.wf(),
            self.cache@.contains_key(v),
        ensures
            reachable(self.base@, v),
            self.cache@[v].complexity < self.iterations,
            self.cache@[v].complexity == level_of(self.base@, v),
            least_cost(self.base@, v, level_of(self.base@, v)),
            self.cache@[v].operations@ == ways(self.base@, v, level_of(self.base@, v)),
    {
        self.lemma_frontier();
        assert(entry_traced(self.cache@, self.base@, self.iterations as nat, Seq::empty(), v));
        lemma_least_cost(self.base@, v, self.cache@[v].complexity as nat);
    }

    /// A value that can be derived with fewer operators than the level is
    /// known.
    proof fn lemma_knows_within(&self, v: Value, n: nat)
        requires
            self.wf(),
            reachable_within(self.base@, v, n as int),
            n < self.iterations,
        ensures
            self.cache@.contains_key(v),
    {
        self.lemma_frontier();
        lemma_reachable_within_more(self.base@, v, n as int, self.iterations - 1);
        lemma_frontier_holds(self.base@, (self.iterations - 1) as nat, v);
    }

    /// Writes every derivation of a known value, in the order in which the
    /// search comes across them: for each recorded operation in turn, the
    /// value itself for an identity, and otherwise each text of the left
    /// operand, paired with the right operand's numeral and wrapped with the
    /// operator's symbol. Nothing for a value that is not known.
    fn format_solution(&self, value: Value) -> (out: Vec<String>)
        requires
            self.wf(),
        ensures
            self.cache@.contains_key(value) ==> texts(out@) == render_all(
                enumerate(self.base@, value, level_of(self.base@, value)),
            ),
            !self.cache@.contains_key(value) ==> out@.len() == 0,
        decreases
                (if self.cache@.contains_key(value) {
                    self.cache@[value].complexity + 1
                } else {
                    0
                }),
    {
        let mut out: Vec<String> = Vec::new();
        let ghost mut done: Seq<Seq<Operation>> = Seq::empty();
        let ghost base = self.base@;
        match self.cache.get(&value) {
            None => {},
            Some(data) => {
                let ghost depth = data.complexity as nat;
                let mut n: usize = 0;
                proof {
                    self.lemma_known(value);
                    assert(texts(out@) =~= render_all(done));
                }
                while n < data.operations.len()
                    invariant
                        self.wf(),
                        base == self.base@,
                        self.cache@.contains_key(value),
                        self.cache@[value] == *data,
                        depth == data.complexity,
                        depth == level_of(base, value),
                        depth < self.iterations,
                        least_cost(base, value, depth),
                        data.operations@ == ways(base, value, depth),
                        n <= data.operations.len(),
                        done == unfold(base, data.operations@.take(n as int), depth),
                        texts(out@) == render_all(done),
                    decreases data.operations.len() - n,
                {
                    let op = data.operations[n];
                    let ghost earlier = done;
                    proof {
                        lemma_ways(base, value, depth, n as int);
                        assert(data.operations@.take(n + 1).drop_last() == data.operations@.take(
                            n as int,
                        ));
                        assert(data.operations@.take(n + 1).last() == op);
                    }
                    match op {
                        Operation::Identity(x) => {
                            let ghost written = out@;
                            let text = numeral(x);
                            out.push(text);
                            proof {
                                lemma_texts_push(written, earlier, text, seq![op]);
                                done = earlier.push(seq![op]);
                                assert(done == earlier + seq![seq![op]]);
                            }
                        },
                        Operation::Addition(a, b)
                        | Operation::Multiplication(a, b)
                        | Operation::Subtraction(a, b)
                        | Operation::Exponentiation(a, b) => {
                            proof {
                                self.lemma_knows_within(a, (depth - 1) as nat);
                                self.lemma_known(a);
                                lemma_least_cost(base, a, (depth - 1) as nat);
                            }
                            let lefts = self.format_solution(a);
                            let mut rights: Vec<String> = Vec::new();
                            rights.push(numeral(b));
                            let ghost chains = enumerate(base, a, (depth - 1) as nat);
                            proof {
                                assert(lefts@.len() == texts(lefts@).len());
                                assert(lefts@.len() == lefts.len());
                                assert(rights@.len() == 1);
                                assert(lefts@.len() * rights@.len() == lefts@.len())
                                    by (nonlinear_arith)
                                    requires
                                        rights@.len() == 1,
                                ;
                                let all = ways(base, a, (depth - 1) as nat);
                                assert(all.take(all.len() as int) == all);
                                assert forall|t: int| 0 <= t < chains.len() implies (
                                #[trigger] chains[t]).len() >= 1 by {
                                    lemma_unfold_sound(
                                        base,
                                        a,
                                        (depth - 1) as nat,
                                        all.len() as int,
                                        t,
                                    );
                                }
                            }
                            let pairs = cartesian_product(&lefts, &rights);
                            let mut k: usize = 0;
                            while k < pairs.len()
                                invariant
                                    k <= pairs.len(),
                                    pairs.len() == chains.len(),
                                    lefts.len() == chains.len(),
                                    texts(lefts@) == render_all(chains),
                                    rights@.len() == 1,
                                    rights@[0]@ == decimal(b as nat),
                                    forall|t: int|
                                        0 <= t < pairs.len() ==> #[trigger] pairs@[t] == (
                                            &lefts@[t],
                                            &rights@[0],
                                        ),
                                    forall|t: int|
                                        0 <= t < chains.len() ==> (#[trigger] chains[t]).len() >= 1,
                                    op.right() == b,
                                    done == earlier + extend(chains, op).take(k as int),
                                    texts(out@) == render_all(done),
                                decreases pairs.len() - k,
                            {
                                let pair = &pairs[k];
                                let ghost written = out@;
                                let ghost so_far = done;
                                let text = enclose(pair.0.as_str(), op.symbol(), pair.1.as_str());
                                out.push(text);
                                proof {
                                    let chain = chains[k as int];
                                    lemma_render_step(chain, op);
                                    assert(texts(lefts@)[k as int] == render(chain));
                                    lemma_texts_push(written, so_far, text, chain.push(op));
                                    done = so_far.push(chain.push(op));
                                    assert(done =~= earlier + extend(chains, op).take(k + 1));
                                }
                                k = k + 1;
                            }
                            proof {
                                assert(extend(chains, op).take(chains.len() as int) == extend(
                                    chains,
                                    op,
                                ));
                            }
                        },
                    }
                    n = n + 1;
                }
                proof {
                    assert(data.operations@.take(data.operations@.len() as int)
                        == data.operations@);
                }
            },
        }
        out
    }

    /// Searches for `target` from the base values alone, and writes every
    /// derivation of it that applies the least number of operators, in the
    /// order in which the search comes across them. The answer is empty
    /// where `target` has no derivation.
    pub fn solve(&mut self, target: Value) -> (out: Vec<String>)
        ensures
            final(self).base() == old(self).base(),
            final(self).settled(),
            final(self).knows(target) <==> reachable(old(self).base(), target),
            final(self).knows(target) ==> final(self).level() == level_of(
                old(self).base(),
                target,
            ) + 1,
            !final(self).knows(target) ==> final(self).exhausted(),
            texts(out@) == render_all(answers(old(self).base(), target)),
            out@.len() > 0 <==> reachable(old(self).base(), target),
            forall|k: int|
                0 <= k < answers(old(self).base(), target).len() ==> optimal(
                    old(self).base(),
                    #[trigger] answers(old(self).base(), target)[k],
                    target,
                ) && evaluate(answers(old(self).base(), target)[k]) == Some(target),
            forall|chain: Seq<Operation>| #[trigger]
                optimal(old(self).base(), chain, target) ==> answers(
                    old(self).base(),
                    target,
                ).contains(chain),
    {
        self.reset();
        let ghost start = *self;
        let found = self.iterate_until(target);
        let out = self.format_solution(target);
        proof {
            let base = self.base@;
            self.lemma_settled();
            if found {
                self.lemma_known(target);
                if start.cache@.contains_key(target) {
                    start.lemma_known(target);
                }
            }
            lemma_answers_exist(base, target);
            assert(out@.len() == texts(out@).len());
            assert(texts(out@) =~= render_all(answers(base, target)));
            assert forall|k: int| 0 <= k < answers(base, target).len() implies optimal(
                base,
                #[trigger] answers(base, target)[k],
                target,
            ) && evaluate(answers(base, target)[k]) == Some(target) by {
                lemma_answers_optimal(base, target, k);
                lemma_answers_evaluate(base, target, k);
            }
            assert forall|chain: Seq<Operation>| #[trigger]
                optimal(base, chain, target) implies answers(base, target).contains(chain) by {
                lemma_answers_complete(base, target, chain);
            }
        }
        out
    }

    /// As `solve`, but with at most `limit` sweeps: the answer is empty as
    /// well where every derivation of `target` applies more than `limit`
    /// operators.
    pub fn solve_within(&mut self, target: Value, limit: u32) -> (out: Vec<String>)
        ensures
            final(self).base() == old(self).base(),
            final(self).settled(),
            final(self).knows(target) <==> reachable_within(
                old(self).base(),
                target,
                limit as int,
            ),
            final(self).knows(target) ==> final(self).level() == level_of(
                old(self).base(),
                target,
            ) + 1,
            !final(self).knows(target) ==> final(self).exhausted() || final(self).level() == limit
                + 1,
            texts(out@) == render_all(answers_within(old(self).base(), target, limit as nat)),
            out@.len() > 0 <==> reachable_within(old(self).base(), target, limit as int),
            forall|k: int|
                0 <= k < answers_within(old(self).base(), target, limit as nat).len() ==> optimal(
                    old(self).base(),
                    #[trigger] answers_within(old(self).base(), target, limit as nat)[k],
                    target,
                ),
            out@.len() > 0 ==> forall|chain: Seq<Operation>| #[trigger]
                optimal(old(self).base(), chain, target) ==> answers_within(
                    old(self).base(),
                    target,
                    limit as nat,
                ).contains(chain),
    {
        self.reset();
        let ghost start = *self;
        let found = self.iterate_within(target, limit);
        let out = self.format_solution(target);
        proof {
            let base = self.base@;
            self.lemma_settled();
            if found {
                self.lemma_known(target);
                lemma_answers_exist(base, target);
                if start.cache@.contains_key(target) {
                    start.lemma_known(target);
                }
                assert forall|k: int| 0 <= k < answers(base, target).len() implies optimal(
                    base,
                    #[trigger] answers(base, target)[k],
                    target,
                ) by {
                    lemma_answers_optimal(base, target, k);
                }
                assert forall|chain: Seq<Operation>| #[trigger]
                    optimal(base, chain, target) implies answers(base, target).contains(chain) by {
                    lemma_answers_complete(base, target, chain);
                }
            }
            assert(out@.len() == texts(out@).len());
            assert(texts(out@) =~= render_all(answers_within(base, target, limit as nat)));
        }
        out
    }
}

} // verus!
