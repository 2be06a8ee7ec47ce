//! The order of a search: which operations a sweep tries and in what order,
//! which values it finds, and the derivations that this gives each value.
//!
//! Everything here is mathematics about the search, independent of how a
//! solver stores its state. The solvers are specified by these functions.
use crate::derivation::{
    cost, derives, evaluate, lemma_base_derives, lemma_derivation_evaluates,
    lemma_extend_derives, lemma_operands_in_base, lemma_prefix_derives, lemma_results_in_range,
    lemma_single_derives, optimal, reachable, reachable_within,
};
use crate::operation::{candidates, lemma_candidate_is_step, lemma_step_is_candidate, Operation, Value};
use vstd::prelude::*;

verus! {

/// The candidates of `a` with each of the first `j` base values, in order.
pub open spec fn row(a: Value, base: Seq<Value>, j: int) -> Seq<(Value, Operation)>
    decreases j,
{
    if j <= 0 {
        Seq::empty()
    } else {
        row(a, base, j - 1) + candidates(a, base[j - 1])
    }
}

/// The candidates of each of the first `i` values of `frontier` with each
/// base value: those of the first value with every base value in turn, then
/// those of the second, and so on.
pub open spec fn rows(frontier: Seq<Value>, base: Seq<Value>, i: int) -> Seq<(Value, Operation)>
    decreases i,
{
    if i <= 0 {
        Seq::empty()
    } else {
        rows(frontier, base, i - 1) + row(frontier[i - 1], base, base.len() as int)
    }
}

/// Everything that one sweep over `frontier` tries, in the order in which it
/// tries it: each result with the operation that gave it.
pub open spec fn sweep_trail(frontier: Seq<Value>, base: Seq<Value>) -> Seq<(Value, Operation)> {
    rows(frontier, base, frontier.len() as int)
}

/// `op` is a binary operation on a value of `frontier` and a base value,
/// with a result in range.
pub open spec fn is_step(frontier: Seq<Value>, base: Seq<Value>, op: Operation) -> bool {
    &&& !(op is Identity)
    &&& op.outcome() is Some
    &&& frontier.contains(op.left())
    &&& base.contains(op.right())
}

/// The results in `trail` that are not among `known`, each once, in the
/// order in which they first occur.
pub open spec fn newcomers(known: Seq<Value>, trail: Seq<(Value, Operation)>) -> Seq<Value>
    decreases trail.len(),
{
    if trail.len() == 0 {
        Seq::empty()
    } else {
        let earlier = newcomers(known, trail.drop_last());
        let r = trail.last().0;
        if known.contains(r) || earlier.contains(r) {
            earlier
        } else {
            earlier.push(r)
        }
    }
}

/// The operations in `trail` that gave `v`, in order.
pub open spec fn giving(trail: Seq<(Value, Operation)>, v: Value) -> Seq<Operation>
    decreases trail.len(),
{
    if trail.len() == 0 {
        Seq::empty()
    } else if trail.last().0 == v {
        giving(trail.drop_last(), v).push(trail.last().1)
    } else {
        giving(trail.drop_last(), v)
    }
}

/// The place of the first entry of `trail` that gives `v`; the length of
/// `trail` where none does.
pub open spec fn first_giving(trail: Seq<(Value, Operation)>, v: Value) -> int
    decreases trail.len(),
{
    if trail.len() == 0 || trail[0].0 == v {
        0
    } else {
        1 + first_giving(trail.drop_first(), v)
    }
}

/// The trail up to and with the first entry that gives `v`; all of it where
/// none does.
pub open spec fn upto(trail: Seq<(Value, Operation)>, v: Value) -> Seq<(Value, Operation)> {
    if first_giving(trail, v) < trail.len() {
        trail.take(first_giving(trail, v) + 1)
    } else {
        trail
    }
}

/// The values known after `n` sweeps, in the order of discovery: the base
/// values, then what the first sweep found, then what the second found, and
/// so on. A sweep goes over the values known before it.
pub open spec fn frontier_after(base: Seq<Value>, n: nat) -> Seq<Value>
    decreases n,
{
    if n == 0 {
        base
    } else {
        let before = frontier_after(base, (n - 1) as nat);
        before + newcomers(before, sweep_trail(before, base))
    }
}

/// Sweep `n` finds a value that was not known before it.
pub open spec fn productive(base: Seq<Value>, n: nat) -> bool {
    newcomers(
        frontier_after(base, (n - 1) as nat),
        sweep_trail(frontier_after(base, (n - 1) as nat), base),
    ).len() > 0
}

/// `n` is the least number of operators with which `v` can be derived.
pub open spec fn least_cost(base: Seq<Value>, v: Value, n: nat) -> bool {
    reachable_within(base, v, n as int) && !reachable_within(base, v, n - 1)
}

/// The least number of operators with which `v` can be derived, where it
/// can be derived at all.
pub open spec fn level_of(base: Seq<Value>, v: Value) -> nat {
    choose|n: nat| least_cost(base, v, n)
}

/// The number of whole sweeps that a search makes before the sweep that
/// finds `v`: none for a base value, and otherwise one fewer than the
/// operators that `v` takes.
pub open spec fn sweeps_before(base: Seq<Value>, v: Value) -> nat {
    if level_of(base, v) == 0 {
        0
    } else {
        (level_of(base, v) - 1) as nat
    }
}

/// The operations recorded for a value that takes `n` operators: itself for
/// a base value, and otherwise every operation of sweep `n` that gave it.
pub open spec fn ways(base: Seq<Value>, v: Value, n: nat) -> Seq<Operation> {
    if n == 0 {
        seq![Operation::Identity(v)]
    } else {
        giving(sweep_trail(frontier_after(base, (n - 1) as nat), base), v)
    }
}

/// Each of `chains` with `op` added at its end.
pub open spec fn extend(chains: Seq<Seq<Operation>>, op: Operation) -> Seq<Seq<Operation>> {
    Seq::new(chains.len(), |i: int| chains[i].push(op))
}

/// The derivations that `ops`, recorded at level `n`, stand for, in the
/// order of `ops`: an identity stands for itself, a binary operation for
/// every derivation of its left operand at the level below, each followed by
/// the operation.
pub open spec fn unfold(base: Seq<Value>, ops: Seq<Operation>, n: nat) -> Seq<Seq<Operation>>
    decreases n, ops.len(),
{
    if ops.len() == 0 {
        Seq::empty()
    } else {
        let op = ops.last();
        let ending = if op is Identity {
            seq![seq![op]]
        } else if n > 0 {
            extend(unfold(base, ways(base, op.left(), (n - 1) as nat), (n - 1) as nat), op)
        } else {
            Seq::empty()
        };
        unfold(base, ops.drop_last(), n) + ending
    }
}

/// The derivations of a value that takes `n` operators, in the order in
/// which the search comes across them.
pub open spec fn enumerate(base: Seq<Value>, v: Value, n: nat) -> Seq<Seq<Operation>> {
    unfold(base, ways(base, v, n), n)
}

/// The answer of the exhaustive search: every derivation of `v` with the
/// least number of operators, in the order in which the search comes across
/// them; none where `v` cannot be derived.
pub open spec fn answers(base: Seq<Value>, v: Value) -> Seq<Seq<Operation>> {
    if reachable(base, v) {
        enumerate(base, v, level_of(base, v))
    } else {
        Seq::empty()
    }
}

/// The answer of a search that gives up after `limit` sweeps.
pub open spec fn answers_within(base: Seq<Value>, v: Value, limit: nat) -> Seq<Seq<Operation>> {
    if reachable_within(base, v, limit as int) {
        answers(base, v)
    } else {
        Seq::empty()
    }
}

/// What a row holds: steps from `a` and one of the first `j` base values,
/// each with its result.
pub proof fn lemma_row_sound(a: Value, base: Seq<Value>, j: int, k: int)
    requires
        0 <= j <= base.len(),
        0 <= k < row(a, base, j).len(),
    ensures
        !(row(a, base, j)[k].1 is Identity),
        row(a, base, j)[k].1.left() == a,
        row(a, base, j)[k].1.outcome() == Some(row(a, base, j)[k].0),
        base.contains(row(a, base, j)[k].1.right()),
    decreases j,
{
    let before = row(a, base, j - 1);
    if k < before.len() {
        lemma_row_sound(a, base, j - 1, k);
    } else {
        lemma_candidate_is_step(a, base[j - 1], k - before.len());
    }
}

/// A row holds every step from `a` and one of the first `j` base values.
pub proof fn lemma_row_complete(a: Value, base: Seq<Value>, j: int, q: int, op: Operation)
    requires
        0 <= q < j <= base.len(),
        !(op is Identity),
        op.outcome() is Some,
        op.left() == a,
        op.right() == base[q],
    ensures
        row(a, base, j).contains((op.outcome().unwrap(), op)),
    decreases j,
{
    let before = row(a, base, j - 1);
    if q == j - 1 {
        let k = lemma_step_is_candidate(op);
        assert(row(a, base, j)[before.len() + k] == (op.outcome().unwrap(), op));
    } else {
        lemma_row_complete(a, base, j - 1, q, op);
        let at = choose|at: int|
            0 <= at < before.len() && before[at] == (op.outcome().unwrap(), op);
        assert(row(a, base, j)[at] == (op.outcome().unwrap(), op));
    }
}

/// What the rows hold: steps from one of the first `i` values of `frontier`
/// and a base value, each with its result.
pub proof fn lemma_rows_sound(frontier: Seq<Value>, base: Seq<Value>, i: int, k: int)
    requires
        0 <= i <= frontier.len(),
        0 <= k < rows(frontier, base, i).len(),
    ensures
        is_step(frontier, base, rows(frontier, base, i)[k].1),
        rows(frontier, base, i)[k].1.outcome() == Some(rows(frontier, base, i)[k].0),
    decreases i,
{
    let before = rows(frontier, base, i - 1);
    if k < before.len() {
        lemma_rows_sound(frontier, base, i - 1, k);
    } else {
        lemma_row_sound(frontier[i - 1], base, base.len() as int, k - before.len());
    }
}

/// The rows hold every step from one of the first `i` values of `frontier`
/// and a base value.
pub proof fn lemma_rows_complete(
    frontier: Seq<Value>,
    base: Seq<Value>,
    i: int,
    p: int,
    op: Operation,
)
    requires
        0 <= p < i <= frontier.len(),
        !(op is Identity),
        op.outcome() is Some,
        op.left() == frontier[p],
        base.contains(op.right()),
    ensures
        rows(frontier, base, i).contains((op.outcome().unwrap(), op)),
    decreases i,
{
    let before = rows(frontier, base, i - 1);
    let entry = (op.outcome().unwrap(), op);
    if p == i - 1 {
        let q = choose|q: int| 0 <= q < base.len() && base[q] == op.right();
        lemma_row_complete(frontier[p], base, base.len() as int, q, op);
        let last = row(frontier[p], base, base.len() as int);
        let at = choose|at: int| 0 <= at < last.len() && last[at] == entry;
        assert(rows(frontier, base, i)[before.len() + at] == entry);
    } else {
        lemma_rows_complete(frontier, base, i - 1, p, op);
        let at = choose|at: int| 0 <= at < before.len() && before[at] == entry;
        assert(rows(frontier, base, i)[at] == entry);
    }
}

/// A sweep tries exactly the steps from its frontier.
pub proof fn lemma_sweep_trail(frontier: Seq<Value>, base: Seq<Value>)
    ensures
        forall|k: int|
            0 <= k < sweep_trail(frontier, base).len() ==> is_step(
                frontier,
                base,
                (#[trigger] sweep_trail(frontier, base)[k]).1,
            ) && sweep_trail(frontier, base)[k].1.outcome() == Some(
                sweep_trail(frontier, base)[k].0,
            ),
        forall|op: Operation| #[trigger]
            is_step(frontier, base, op) ==> sweep_trail(frontier, base).contains(
                (op.outcome().unwrap(), op),
            ),
{
    assert forall|k: int| 0 <= k < sweep_trail(frontier, base).len() implies is_step(
        frontier,
        base,
        (#[trigger] sweep_trail(frontier, base)[k]).1,
    ) && sweep_trail(frontier, base)[k].1.outcome() == Some(sweep_trail(frontier, base)[k].0) by {
        lemma_rows_sound(frontier, base, frontier.len() as int, k);
    }
    assert forall|op: Operation| #[trigger] is_step(frontier, base, op) implies sweep_trail(
        frontier,
        base,
    ).contains((op.outcome().unwrap(), op)) by {
        let p = choose|p: int| 0 <= p < frontier.len() && frontier[p] == op.left();
        lemma_rows_complete(frontier, base, frontier.len() as int, p, op);
    }
}

/// A row grows at its end.
pub proof fn lemma_row_prefix(a: Value, base: Seq<Value>, j: int, more: int)
    requires
        0 <= j <= more,
    ensures
        row(a, base, j).is_prefix_of(row(a, base, more)),
    decreases more,
{
    if j < more {
        lemma_row_prefix(a, base, j, more - 1);
    }
}

/// The rows grow at their end.
pub proof fn lemma_rows_prefix(frontier: Seq<Value>, base: Seq<Value>, i: int, more: int)
    requires
        0 <= i <= more,
    ensures
        rows(frontier, base, i).is_prefix_of(rows(frontier, base, more)),
    decreases more,
{
    if i < more {
        lemma_rows_prefix(frontier, base, i, more - 1);
    }
}

/// What a sweep has tried when it comes to a pair, and the candidates of
/// that pair, are the beginning of everything it tries.
pub proof fn lemma_trail_prefix(frontier: Seq<Value>, base: Seq<Value>, i: int, j: int)
    requires
        0 <= i < frontier.len(),
        0 <= j < base.len(),
    ensures
        (rows(frontier, base, i) + row(frontier[i], base, j) + candidates(
            frontier[i],
            base[j],
        )).is_prefix_of(sweep_trail(frontier, base)),
        rows(frontier, base, i) + row(frontier[i], base, j) + candidates(frontier[i], base[j])
            == rows(frontier, base, i) + row(frontier[i], base, j + 1),
{
    let upto = rows(frontier, base, i) + row(frontier[i], base, j + 1);
    assert(rows(frontier, base, i) + row(frontier[i], base, j) + candidates(frontier[i], base[j])
        == upto);
    lemma_row_prefix(frontier[i], base, j + 1, base.len() as int);
    assert(upto.is_prefix_of(rows(frontier, base, i + 1)));
    lemma_rows_prefix(frontier, base, i + 1, frontier.len() as int);
}

/// The newcomers are the results of the trail that were not known.
pub proof fn lemma_newcomers(known: Seq<Value>, trail: Seq<(Value, Operation)>, v: Value)
    ensures
        newcomers(known, trail).contains(v) <==> !known.contains(v) && exists|k: int|
            0 <= k < trail.len() && (#[trigger] trail[k]).0 == v,
    decreases trail.len(),
{
    if trail.len() > 0 {
        let shorter = trail.drop_last();
        let earlier = newcomers(known, shorter);
        let r = trail.last().0;
        lemma_newcomers(known, shorter, v);
        if newcomers(known, trail).contains(v) {
            if earlier.contains(v) {
                let k = choose|k: int| 0 <= k < shorter.len() && (#[trigger] shorter[k]).0 == v;
                assert(trail[k].0 == v);
            } else {
                let at = choose|at: int|
                    0 <= at < newcomers(known, trail).len() && newcomers(known, trail)[at] == v;
                assert(v == r);
                assert(trail[trail.len() - 1].0 == v);
            }
        }
        if !known.contains(v) && exists|k: int| 0 <= k < trail.len() && (#[trigger] trail[k]).0 == v {
            let k = choose|k: int| 0 <= k < trail.len() && (#[trigger] trail[k]).0 == v;
            if k < shorter.len() {
                assert(shorter[k].0 == v);
                let at = choose|at: int| 0 <= at < earlier.len() && earlier[at] == v;
                assert(newcomers(known, trail)[at] == v);
            } else if !earlier.contains(v) {
                assert(newcomers(known, trail)[earlier.len() as int] == v);
            } else {
                let at = choose|at: int| 0 <= at < earlier.len() && earlier[at] == v;
                assert(newcomers(known, trail)[at] == v);
            }
        }
    }
}

/// What was found along the first part of a trail is found along the whole
/// of it.
pub proof fn lemma_newcomers_prefix(
    known: Seq<Value>,
    part: Seq<(Value, Operation)>,
    whole: Seq<(Value, Operation)>,
    v: Value,
)
    requires
        part.is_prefix_of(whole),
        newcomers(known, part).contains(v),
    ensures
        newcomers(known, whole).contains(v),
{
    lemma_newcomers(known, part, v);
    lemma_newcomers(known, whole, v);
    let k = choose|k: int| 0 <= k < part.len() && (#[trigger] part[k]).0 == v;
    assert(whole[k].0 == v);
}

/// The operations that gave `v` are those that stand in the trail with `v`.
pub proof fn lemma_giving(trail: Seq<(Value, Operation)>, v: Value, op: Operation)
    ensures
        giving(trail, v).contains(op) <==> trail.contains((v, op)),
    decreases trail.len(),
{
    if trail.len() > 0 {
        let shorter = trail.drop_last();
        let earlier = giving(shorter, v);
        lemma_giving(shorter, v, op);
        if giving(trail, v).contains(op) {
            if earlier.contains(op) {
                let k = choose|k: int| 0 <= k < shorter.len() && shorter[k] == (v, op);
                assert(trail[k] == (v, op));
            } else {
                let at = choose|at: int|
                    0 <= at < giving(trail, v).len() && giving(trail, v)[at] == op;
                assert(trail[trail.len() - 1] == (v, op));
            }
        }
        if trail.contains((v, op)) {
            let k = choose|k: int| 0 <= k < trail.len() && trail[k] == (v, op);
            if k < shorter.len() {
                assert(shorter[k] == (v, op));
                let at = choose|at: int| 0 <= at < earlier.len() && earlier[at] == op;
                assert(giving(trail, v)[at] == op);
            } else {
                assert(giving(trail, v)[earlier.len() as int] == op);
            }
        }
    }
}

/// Where no result in the trail is `v`, no operation gave `v`.
pub proof fn lemma_giving_none(trail: Seq<(Value, Operation)>, v: Value)
    requires
        forall|k: int| 0 <= k < trail.len() ==> (#[trigger] trail[k]).0 != v,
    ensures
        giving(trail, v).len() == 0,
    decreases trail.len(),
{
    if trail.len() > 0 {
        assert(trail[trail.len() - 1].0 != v);
        assert forall|k: int| 0 <= k < trail.drop_last().len() implies (#[trigger] trail.drop_last()[k]).0
            != v by {
            assert(trail[k].0 != v);
        }
        lemma_giving_none(trail.drop_last(), v);
    }
}

/// The operations that gave `v` in the first part of a trail are the first
/// of those that gave `v` in the whole of it.
pub proof fn lemma_giving_prefix(
    part: Seq<(Value, Operation)>,
    whole: Seq<(Value, Operation)>,
    v: Value,
)
    requires
        part.is_prefix_of(whole),
    ensures
        giving(part, v).is_prefix_of(giving(whole, v)),
    decreases whole.len(),
{
    if part.len() < whole.len() {
        assert(part.is_prefix_of(whole.drop_last()));
        lemma_giving_prefix(part, whole.drop_last(), v);
    } else {
        assert(part == whole);
    }
}

/// A part of the trail that ends with the first entry that gives `v` is the
/// trail up to that entry.
pub proof fn lemma_upto(
    part: Seq<(Value, Operation)>,
    last: (Value, Operation),
    whole: Seq<(Value, Operation)>,
    v: Value,
)
    requires
        part.push(last).is_prefix_of(whole),
        last.0 == v,
        forall|k: int| 0 <= k < part.len() ==> (#[trigger] part[k]).0 != v,
    ensures
        first_giving(whole, v) == part.len(),
        upto(whole, v) == part.push(last),
    decreases part.len(),
{
    let longer = part.push(last);
    assert(whole[0] == longer[0]);
    if part.len() > 0 {
        assert(whole[0] == part[0]);
        let rest = part.drop_first();
        assert(rest.push(last) =~= longer.drop_first());
        assert(longer.drop_first().is_prefix_of(whole.drop_first()));
        assert forall|k: int| 0 <= k < rest.len() implies (#[trigger] rest[k]).0 != v by {
            assert(part[k + 1].0 != v);
        }
        lemma_upto(rest, last, whole.drop_first(), v);
    }
    assert(whole.take(part.len() as int + 1) =~= longer);
}

/// A value stands in two sequences put together where it stands in one of
/// them.
pub proof fn lemma_concat_contains(first: Seq<Value>, second: Seq<Value>, v: Value)
    ensures
        (first + second).contains(v) <==> first.contains(v) || second.contains(v),
{
    let both = first + second;
    if both.contains(v) {
        let k = choose|k: int| 0 <= k < both.len() && both[k] == v;
        if k < first.len() {
            assert(first[k] == v);
        } else {
            assert(second[k - first.len()] == v);
        }
    }
    if first.contains(v) {
        let k = choose|k: int| 0 <= k < first.len() && first[k] == v;
        assert(both[k] == v);
    }
    if second.contains(v) {
        let k = choose|k: int| 0 <= k < second.len() && second[k] == v;
        assert(both[first.len() + k] == v);
    }
}

/// The values known after `n` sweeps are those that can be derived with at
/// most `n` operators.
pub proof fn lemma_frontier_holds(base: Seq<Value>, n: nat, v: Value)
    ensures
        frontier_after(base, n).contains(v) <==> reachable_within(base, v, n as int),
    decreases n,
{
    if n == 0 {
        if base.contains(v) {
            lemma_base_derives(base, v);
            assert(cost(seq![Operation::Identity(v)]) <= 0);
        }
        if reachable_within(base, v, 0) {
            let chain = choose|chain: Seq<Operation>| derives(base, chain, v) && cost(chain) <= 0;
            lemma_single_derives(base, chain, v);
        }
    } else {
        let before = frontier_after(base, (n - 1) as nat);
        let trail = sweep_trail(before, base);
        let found = newcomers(before, trail);
        lemma_frontier_holds(base, (n - 1) as nat, v);
        lemma_newcomers(before, trail, v);
        lemma_sweep_trail(before, base);
        lemma_concat_contains(before, found, v);
        if (before + found).contains(v) {
            if before.contains(v) {
                let chain = choose|chain: Seq<Operation>|
                    derives(base, chain, v) && cost(chain) <= n - 1;
                assert(derives(base, chain, v) && cost(chain) <= n);
            } else {
                let k = choose|k: int| 0 <= k < trail.len() && (#[trigger] trail[k]).0 == v;
                let op = trail[k].1;
                lemma_frontier_holds(base, (n - 1) as nat, op.left());
                let left = choose|left: Seq<Operation>|
                    derives(base, left, op.left()) && cost(left) <= n - 1;
                lemma_extend_derives(base, left, op);
                assert(derives(base, left.push(op), v) && cost(left.push(op)) <= n);
            }
        }
        if reachable_within(base, v, n as int) {
            let chain = choose|chain: Seq<Operation>| derives(base, chain, v) && cost(chain) <= n;
            if cost(chain) <= n - 1 {
                assert(reachable_within(base, v, n - 1));
            } else {
                lemma_prefix_derives(base, chain, v);
                let op = chain.last();
                assert(derives(base, chain.drop_last(), op.left()) && cost(chain.drop_last())
                    <= n - 1);
                lemma_frontier_holds(base, (n - 1) as nat, op.left());
                assert(is_step(before, base, op));
                let k = choose|k: int| 0 <= k < trail.len() && trail[k] == (v, op);
                assert(trail[k].0 == v);
            }
        }
    }
}

/// The frontier only grows, and only at its end.
pub proof fn lemma_frontier_grows(base: Seq<Value>, n: nat, later: nat)
    requires
        n <= later,
    ensures
        frontier_after(base, n).is_prefix_of(frontier_after(base, later)),
    decreases later,
{
    if n < later {
        lemma_frontier_grows(base, n, (later - 1) as nat);
    }
}

/// Once a sweep finds nothing, no later sweep finds anything.
pub proof fn lemma_frontier_settles(base: Seq<Value>, n: nat, later: nat)
    requires
        newcomers(frontier_after(base, n), sweep_trail(frontier_after(base, n), base)).len() == 0,
        n <= later,
    ensures
        frontier_after(base, later) == frontier_after(base, n),
    decreases later,
{
    if later > n {
        lemma_frontier_settles(base, n, (later - 1) as nat);
        assert(frontier_after(base, later) =~= frontier_after(base, n));
    }
}

/// A value that is not known after a sweep that found nothing cannot be
/// derived.
pub proof fn lemma_settled_unreachable(base: Seq<Value>, n: nat, v: Value)
    requires
        newcomers(frontier_after(base, n), sweep_trail(frontier_after(base, n), base)).len() == 0,
        !frontier_after(base, n).contains(v),
    ensures
        !reachable(base, v),
{
    if reachable(base, v) {
        let chain = choose|chain: Seq<Operation>| derives(base, chain, v);
        let m = cost(chain);
        assert(derives(base, chain, v) && cost(chain) <= m);
        lemma_frontier_holds(base, m, v);
        lemma_frontier_holds(base, n, v);
        if m <= n {
            lemma_reachable_within_more(base, v, m as int, n as int);
        } else {
            lemma_frontier_settles(base, n, m);
        }
    }
}

/// What can be derived with few operators can be derived with more.
pub proof fn lemma_reachable_within_more(base: Seq<Value>, v: Value, fewer: int, more: int)
    requires
        reachable_within(base, v, fewer),
        fewer <= more,
    ensures
        reachable_within(base, v, more),
{
    let chain = choose|chain: Seq<Operation>| derives(base, chain, v) && cost(chain) <= fewer;
    assert(derives(base, chain, v) && cost(chain) <= more);
}

/// A value that can be derived has a least number of operators, and only
/// one.
pub proof fn lemma_least_cost(base: Seq<Value>, v: Value, n: nat)
    requires
        reachable_within(base, v, n as int),
    ensures
        least_cost(base, v, level_of(base, v)),
        level_of(base, v) <= n,
        reachable(base, v),
        forall|m: nat| least_cost(base, v, m) ==> m == level_of(base, v),
    decreases n,
{
    let chain = choose|chain: Seq<Operation>| derives(base, chain, v) && cost(chain) <= n;
    if reachable_within(base, v, n - 1) {
        lemma_least_cost(base, v, (n - 1) as nat);
    } else {
        assert(least_cost(base, v, n));
        assert forall|m: nat| least_cost(base, v, m) implies m == level_of(base, v) by {
            let l = level_of(base, v);
            if m < l {
                lemma_reachable_within_more(base, v, m as int, l - 1);
            } else if l < m {
                lemma_reachable_within_more(base, v, l as int, m - 1);
            }
        }
        if level_of(base, v) > n {
            lemma_reachable_within_more(base, v, n as int, level_of(base, v) - 1);
        }
    }
}

/// An operation recorded for a value that takes `n` operators gives that
/// value, from a value that takes one operator fewer.
pub proof fn lemma_ways(base: Seq<Value>, v: Value, n: nat, k: int)
    requires
        least_cost(base, v, n),
        0 <= k < ways(base, v, n).len(),
    ensures
        n == 0 ==> ways(base, v, n)[k] == Operation::Identity(v) && base.contains(v),
        n > 0 ==> {
            &&& !(ways(base, v, n)[k] is Identity)
            &&& ways(base, v, n)[k].outcome() == Some(v)
            &&& base.contains(ways(base, v, n)[k].right())
            &&& least_cost(base, ways(base, v, n)[k].left(), (n - 1) as nat)
        },
{
    if n == 0 {
        lemma_frontier_holds(base, 0, v);
    } else {
        let before = frontier_after(base, (n - 1) as nat);
        let trail = sweep_trail(before, base);
        let op = ways(base, v, n)[k];
        lemma_giving(trail, v, op);
        lemma_sweep_trail(before, base);
        let at = choose|at: int| 0 <= at < trail.len() && trail[at] == (v, op);
        assert(is_step(before, base, trail[at].1));
        lemma_frontier_holds(base, (n - 1) as nat, op.left());
        if reachable_within(base, op.left(), n - 2) {
            let left = choose|left: Seq<Operation>|
                derives(base, left, op.left()) && cost(left) <= n - 2;
            lemma_extend_derives(base, left, op);
            assert(derives(base, left.push(op), v) && cost(left.push(op)) <= n - 1);
        }
    }
}

/// A value that takes `n` operators has a first way.
pub proof fn lemma_ways_nonempty(base: Seq<Value>, v: Value, n: nat)
    requires
        least_cost(base, v, n),
    ensures
        ways(base, v, n).len() > 0,
{
    if n > 0 {
        let before = frontier_after(base, (n - 1) as nat);
        let trail = sweep_trail(before, base);
        lemma_frontier_holds(base, n, v);
        lemma_frontier_holds(base, (n - 1) as nat, v);
        lemma_concat_contains(before, newcomers(before, trail), v);
        lemma_newcomers(before, trail, v);
        let k = choose|k: int| 0 <= k < trail.len() && (#[trigger] trail[k]).0 == v;
        lemma_giving(trail, v, trail[k].1);
        assert(trail[k] == (v, trail[k].1));
    }
}

/// What the first `m` operations recorded for a value stand for are
/// derivations of that value, with the least number of operators.
pub proof fn lemma_unfold_sound(base: Seq<Value>, v: Value, n: nat, m: int, k: int)
    requires
        least_cost(base, v, n),
        0 <= m <= ways(base, v, n).len(),
        0 <= k < unfold(base, ways(base, v, n).take(m), n).len(),
    ensures
        derives(base, unfold(base, ways(base, v, n).take(m), n)[k], v),
        cost(unfold(base, ways(base, v, n).take(m), n)[k]) == n,
    decreases n, m,
{
    let ops = ways(base, v, n);
    let op = ops[m - 1];
    let earlier = unfold(base, ops.take(m - 1), n);
    assert(ops.take(m).drop_last() == ops.take(m - 1));
    assert(ops.take(m).last() == op);
    if k < earlier.len() {
        lemma_unfold_sound(base, v, n, m - 1, k);
    } else {
        lemma_ways(base, v, n, m - 1);
        if n == 0 {
            lemma_base_derives(base, v);
        } else {
            let a = op.left();
            let all = ways(base, a, (n - 1) as nat);
            assert(all.take(all.len() as int) == all);
            lemma_unfold_sound(base, a, (n - 1) as nat, all.len() as int, k - earlier.len());
            lemma_extend_derives(base, unfold(base, all, (n - 1) as nat)[k - earlier.len()], op);
        }
    }
}

/// An identity among `ops` stands for itself.
pub proof fn lemma_unfold_has_identity(base: Seq<Value>, ops: Seq<Operation>, n: nat, op: Operation)
    requires
        ops.contains(op),
        op is Identity,
    ensures
        unfold(base, ops, n).contains(seq![op]),
    decreases ops.len(),
{
    let rest = unfold(base, ops.drop_last(), n);
    if ops.last() == op {
        assert(unfold(base, ops, n)[rest.len() as int] == seq![op]);
    } else {
        let k = choose|k: int| 0 <= k < ops.len() && ops[k] == op;
        assert(ops.drop_last()[k] == op);
        lemma_unfold_has_identity(base, ops.drop_last(), n, op);
        let at = choose|at: int| 0 <= at < rest.len() && rest[at] == seq![op];
        assert(unfold(base, ops, n)[at] == seq![op]);
    }
}

/// A binary operation among `ops` stands for each derivation of its left
/// operand, followed by the operation.
pub proof fn lemma_unfold_has_step(
    base: Seq<Value>,
    ops: Seq<Operation>,
    n: nat,
    op: Operation,
    left: Seq<Operation>,
)
    requires
        ops.contains(op),
        !(op is Identity),
        n > 0,
        enumerate(base, op.left(), (n - 1) as nat).contains(left),
    ensures
        unfold(base, ops, n).contains(left.push(op)),
    decreases ops.len(),
{
    let rest = unfold(base, ops.drop_last(), n);
    if ops.last() == op {
        let lefts = enumerate(base, op.left(), (n - 1) as nat);
        let at = choose|at: int| 0 <= at < lefts.len() && lefts[at] == left;
        assert(extend(lefts, op)[at] == left.push(op));
        assert(unfold(base, ops, n)[rest.len() + at] == left.push(op));
    } else {
        let k = choose|k: int| 0 <= k < ops.len() && ops[k] == op;
        assert(ops.drop_last()[k] == op);
        lemma_unfold_has_step(base, ops.drop_last(), n, op, left);
        let at = choose|at: int| 0 <= at < rest.len() && rest[at] == left.push(op);
        assert(unfold(base, ops, n)[at] == left.push(op));
    }
}

/// Every derivation of a value with the least number of operators is among
/// those that the search comes across.
pub proof fn lemma_enumerate_complete(base: Seq<Value>, chain: Seq<Operation>, v: Value, n: nat)
    requires
        least_cost(base, v, n),
        derives(base, chain, v),
        cost(chain) == n,
    ensures
        enumerate(base, v, n).contains(chain),
    decreases n,
{
    if n == 0 {
        lemma_single_derives(base, chain, v);
        let ops = ways(base, v, 0);
        assert(ops[0] == Operation::Identity(v));
        lemma_unfold_has_identity(base, ops, 0, Operation::Identity(v));
    } else {
        lemma_prefix_derives(base, chain, v);
        let op = chain.last();
        let left = chain.drop_last();
        let before = frontier_after(base, (n - 1) as nat);
        let trail = sweep_trail(before, base);
        assert(derives(base, left, op.left()) && cost(left) <= n - 1);
        lemma_frontier_holds(base, (n - 1) as nat, op.left());
        lemma_sweep_trail(before, base);
        assert(is_step(before, base, op));
        lemma_giving(trail, v, op);
        let k = choose|k: int| 0 <= k < ways(base, v, n).len() && ways(base, v, n)[k] == op;
        lemma_ways(base, v, n, k);
        lemma_enumerate_complete(base, left, op.left(), (n - 1) as nat);
        lemma_unfold_has_step(base, ways(base, v, n), n, op, left);
    }
}

/// A value that takes `n` operators has a derivation among those that the
/// search comes across.
pub proof fn lemma_enumerate_nonempty(base: Seq<Value>, v: Value, n: nat)
    requires
        least_cost(base, v, n),
    ensures
        enumerate(base, v, n).len() > 0,
{
    let chain = choose|chain: Seq<Operation>| derives(base, chain, v) && cost(chain) <= n;
    if cost(chain) < n {
        assert(derives(base, chain, v) && cost(chain) <= n - 1);
    }
    lemma_enumerate_complete(base, chain, v, n);
}

/// The first derivation that `ops` stand for is the first derivation of the
/// left operand of the first of `ops`, followed by that operation.
pub proof fn lemma_unfold_first(base: Seq<Value>, ops: Seq<Operation>, n: nat)
    requires
        ops.len() >= 1,
        n >= 1,
        !(ops[0] is Identity),
        enumerate(base, ops[0].left(), (n - 1) as nat).len() > 0,
    ensures
        unfold(base, ops, n).len() > 0,
        unfold(base, ops, n)[0] == enumerate(base, ops[0].left(), (n - 1) as nat)[0].push(ops[0]),
    decreases ops.len(),
{
    if ops.len() > 1 {
        assert(ops.drop_last()[0] == ops[0]);
        lemma_unfold_first(base, ops.drop_last(), n);
    } else {
        assert(ops.last() == ops[0]);
        assert(unfold(base, ops.drop_last(), n).len() == 0);
        let lefts = enumerate(base, ops[0].left(), (n - 1) as nat);
        assert(extend(lefts, ops[0])[0] == lefts[0].push(ops[0]));
    }
}

/// The first answer for a value that takes operators is the first answer
/// for the left operand of its first way, followed by that way. The answer
/// for a base value is the value itself.
pub proof fn lemma_first_answer(base: Seq<Value>, v: Value, n: nat)
    requires
        least_cost(base, v, n),
    ensures
        ways(base, v, n).len() > 0,
        enumerate(base, v, n).len() > 0,
        n == 0 ==> ways(base, v, n)[0] == Operation::Identity(v) && enumerate(base, v, n)[0]
            == seq![Operation::Identity(v)],
        n > 0 ==> {
            &&& !(ways(base, v, n)[0] is Identity)
            &&& least_cost(base, ways(base, v, n)[0].left(), (n - 1) as nat)
            &&& enumerate(base, ways(base, v, n)[0].left(), (n - 1) as nat).len() > 0
            &&& enumerate(base, ways(base, v, n)[0].left(), (n - 1) as nat)[0].len() >= 1
            &&& enumerate(base, v, n)[0] == enumerate(
                base,
                ways(base, v, n)[0].left(),
                (n - 1) as nat,
            )[0].push(ways(base, v, n)[0])
        },
{
    lemma_ways_nonempty(base, v, n);
    lemma_enumerate_nonempty(base, v, n);
    lemma_ways(base, v, n, 0);
    let ops = ways(base, v, n);
    if n == 0 {
        assert(unfold(base, ops.drop_last(), 0).len() == 0);
        assert(enumerate(base, v, n)[0] == seq![Operation::Identity(v)]);
    } else {
        let a = ops[0].left();
        let m = (n - 1) as nat;
        lemma_enumerate_nonempty(base, a, m);
        lemma_unfold_first(base, ops, n);
        let all = ways(base, a, m);
        assert(all.take(all.len() as int) == all);
        lemma_unfold_sound(base, a, m, all.len() as int, 0);
    }
}

/// There is an answer exactly where the value can be derived.
pub proof fn lemma_answers_exist(base: Seq<Value>, v: Value)
    ensures
        answers(base, v).len() > 0 <==> reachable(base, v),
{
    if reachable(base, v) {
        let some = choose|chain: Seq<Operation>| derives(base, chain, v);
        assert(derives(base, some, v) && cost(some) <= cost(some));
        lemma_least_cost(base, v, cost(some));
        lemma_enumerate_nonempty(base, v, level_of(base, v));
    }
}

/// Every answer is an optimal derivation.
pub proof fn lemma_answers_optimal(base: Seq<Value>, v: Value, k: int)
    requires
        0 <= k < answers(base, v).len(),
    ensures
        optimal(base, answers(base, v)[k], v),
        cost(answers(base, v)[k]) == level_of(base, v),
{
    let some = choose|chain: Seq<Operation>| derives(base, chain, v);
    assert(derives(base, some, v) && cost(some) <= cost(some));
    lemma_least_cost(base, v, cost(some));
    let n = level_of(base, v);
    let all = ways(base, v, n);
    assert(all.take(all.len() as int) == all);
    lemma_unfold_sound(base, v, n, all.len() as int, k);
    assert forall|other: Seq<Operation>| #[trigger] derives(base, other, v) implies answers(
        base,
        v,
    )[k].len() <= other.len() by {
        if cost(other) < n {
            assert(derives(base, other, v) && cost(other) <= n - 1);
        }
    }
}

/// Every optimal derivation is an answer.
pub proof fn lemma_answers_complete(base: Seq<Value>, v: Value, chain: Seq<Operation>)
    requires
        optimal(base, chain, v),
    ensures
        answers(base, v).contains(chain),
{
    assert(derives(base, chain, v) && cost(chain) <= cost(chain));
    lemma_least_cost(base, v, cost(chain));
    let n = level_of(base, v);
    let least = choose|least: Seq<Operation>| derives(base, least, v) && cost(least) <= n;
    if cost(chain) < n {
        assert(derives(base, chain, v) && cost(chain) <= n - 1);
    }
    lemma_enumerate_complete(base, chain, v, n);
}

/// Every answer, computed from left to right, gives the value.
pub proof fn lemma_answers_evaluate(base: Seq<Value>, v: Value, k: int)
    requires
        0 <= k < answers(base, v).len(),
    ensures
        evaluate(answers(base, v)[k]) == Some(v),
{
    lemma_answers_optimal(base, v, k);
    lemma_derivation_evaluates(base, answers(base, v)[k], v);
}

/// All answers for a value apply the same number of operators.
pub proof fn lemma_answers_same_cost(base: Seq<Value>, v: Value, j: int, k: int)
    requires
        0 <= j < answers(base, v).len(),
        0 <= k < answers(base, v).len(),
    ensures
        cost(answers(base, v)[j]) == cost(answers(base, v)[k]),
{
    lemma_answers_optimal(base, v, j);
    lemma_answers_optimal(base, v, k);
}

/// No operation of an answer overflows: the exact result of each is a
/// `Value`.
pub proof fn lemma_answers_in_range(base: Seq<Value>, v: Value, k: int, i: int)
    requires
        0 <= k < answers(base, v).len(),
        0 <= i < answers(base, v)[k].len(),
    ensures
        0 <= answers(base, v)[k][i].exact() <= Value::MAX,
{
    lemma_answers_optimal(base, v, k);
    lemma_results_in_range(base, answers(base, v)[k], v, i);
}

/// An answer begins with a base value, and every operation after that has a
/// base value as its right operand.
pub proof fn lemma_answers_use_base(base: Seq<Value>, v: Value, k: int, i: int)
    requires
        0 <= k < answers(base, v).len(),
        0 <= i < answers(base, v)[k].len(),
    ensures
        base.contains(answers(base, v)[k][i].right()),
        (i == 0) == (answers(base, v)[k][i] is Identity),
{
    lemma_answers_optimal(base, v, k);
    lemma_operands_in_base(base, answers(base, v)[k], v, i);
}

/// The one answer for a base value is the value itself.
pub proof fn lemma_base_answers(base: Seq<Value>, v: Value)
    requires
        base.contains(v),
    ensures
        answers(base, v) == seq![seq![Operation::Identity(v)]],
{
    lemma_frontier_holds(base, 0, v);
    lemma_least_cost(base, v, 0);
    let ops = ways(base, v, 0);
    assert(unfold(base, ops.drop_last(), 0).len() == 0);
    assert(answers(base, v) =~= seq![seq![Operation::Identity(v)]]);
}

} // verus!
