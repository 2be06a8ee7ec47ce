//! Derivations: left-deep chains of operations, what they evaluate to, and
//! how they are written down.
use crate::operation::Operation;
use crate::operation::Value;
use vstd::prelude::*;

verus! {

/// A derivation is a chain of operations. The first one names a base value;
/// each later one applies an operator to the result so far (left) and a base
/// value (right). `valid_at` says that position `i` of `chain` obeys this,
/// and that its result is in range.
pub open spec fn valid_at(base: Seq<Value>, chain: Seq<Operation>, i: int) -> bool {
    if i == 0 {
        &&& chain[0] is Identity
        &&& base.contains(chain[0].left())
    } else {
        &&& !(chain[i] is Identity)
        &&& chain[i].outcome() is Some
        &&& chain[i - 1].outcome() == Some(chain[i].left())
        &&& base.contains(chain[i].right())
    }
}

/// `chain` is a derivation of `v` from `base`: every position is valid and
/// the last result is `v`.
pub open spec fn derives(base: Seq<Value>, chain: Seq<Operation>, v: Value) -> bool {
    &&& chain.len() >= 1
    &&& forall|i: int| 0 <= i < chain.len() ==> #[trigger] valid_at(base, chain, i)
    &&& chain.last().outcome() == Some(v)
}

/// The number of operators that a derivation applies.
pub open spec fn cost(chain: Seq<Operation>) -> nat {
    (chain.len() - 1) as nat
}

/// Some derivation from `base` gives `v`.
pub open spec fn reachable(base: Seq<Value>, v: Value) -> bool {
    exists|chain: Seq<Operation>| derives(base, chain, v)
}

/// Some derivation from `base` gives `v` with at most `limit` operators.
pub open spec fn reachable_within(base: Seq<Value>, v: Value, limit: int) -> bool {
    exists|chain: Seq<Operation>| derives(base, chain, v) && cost(chain) <= limit
}

/// `chain` derives `v`, and no derivation of `v` applies fewer operators.
pub open spec fn optimal(base: Seq<Value>, chain: Seq<Operation>, v: Value) -> bool {
    &&& derives(base, chain, v)
    &&& forall|other: Seq<Operation>| #[trigger]
        derives(base, other, v) ==> chain.len() <= other.len()
}

/// The value of a chain when it is computed from left to right over the
/// mathematical integers, reading only the first value, the operators and the
/// right operands. `None` as soon as an intermediate result leaves the range
/// of `Value`.
pub open spec fn evaluate(chain: Seq<Operation>) -> Option<Value>
    decreases chain.len(),
{
    if chain.len() == 0 {
        None
    } else if chain.len() == 1 {
        Some(chain[0].left())
    } else {
        match evaluate(chain.drop_last()) {
            None => None,
            Some(a) => chain.last().apply_to(a).outcome(),
        }
    }
}

/// A base value is a derivation of itself.
pub proof fn lemma_base_derives(base: Seq<Value>, v: Value)
    requires
        base.contains(v),
    ensures
        derives(base, seq![Operation::Identity(v)], v),
{
    let chain = seq![Operation::Identity(v)];
    assert(valid_at(base, chain, 0));
}

/// A derivation of `op`'s left operand, followed by `op`, derives `op`'s
/// result.
pub proof fn lemma_extend_derives(base: Seq<Value>, chain: Seq<Operation>, op: Operation)
    requires
        derives(base, chain, op.left()),
        !(op is Identity),
        op.outcome() is Some,
        base.contains(op.right()),
    ensures
        derives(base, chain.push(op), op.outcome().unwrap()),
{
    let longer = chain.push(op);
    assert forall|i: int| 0 <= i < longer.len() implies #[trigger] valid_at(base, longer, i) by {
        if i < chain.len() {
            assert(valid_at(base, chain, i));
        }
    }
}

/// A derivation with at least one operator, without its last operation,
/// derives the left operand of that operation.
pub proof fn lemma_prefix_derives(base: Seq<Value>, chain: Seq<Operation>, v: Value)
    requires
        derives(base, chain, v),
        chain.len() > 1,
    ensures
        derives(base, chain.drop_last(), chain.last().left()),
        !(chain.last() is Identity),
        chain.last().outcome() == Some(v),
        base.contains(chain.last().right()),
        chain.drop_last().push(chain.last()) == chain,
{
    let shorter = chain.drop_last();
    assert(valid_at(base, chain, chain.len() - 1));
    assert forall|i: int| 0 <= i < shorter.len() implies #[trigger] valid_at(base, shorter, i) by {
        assert(valid_at(base, chain, i));
    }
    assert(shorter.push(chain.last()) =~= chain);
}

/// A derivation without operators is a base value.
pub proof fn lemma_single_derives(base: Seq<Value>, chain: Seq<Operation>, v: Value)
    requires
        derives(base, chain, v),
        chain.len() == 1,
    ensures
        base.contains(v),
        chain == seq![Operation::Identity(v)],
{
    assert(valid_at(base, chain, 0));
    assert(chain =~= seq![Operation::Identity(v)]);
}

/// Computing a derivation from left to right gives the value it derives.
pub proof fn lemma_derivation_evaluates(base: Seq<Value>, chain: Seq<Operation>, v: Value)
    requires
        derives(base, chain, v),
    ensures
        evaluate(chain) == Some(v),
    decreases chain.len(),
{
    if chain.len() == 1 {
        lemma_single_derives(base, chain, v);
    } else {
        lemma_prefix_derives(base, chain, v);
        lemma_derivation_evaluates(base, chain.drop_last(), chain.last().left());
    }
}

/// No operation of a derivation overflows: each exact result is a `Value`.
pub proof fn lemma_results_in_range(base: Seq<Value>, chain: Seq<Operation>, v: Value, i: int)
    requires
        derives(base, chain, v),
        0 <= i < chain.len(),
    ensures
        0 <= chain[i].exact() <= Value::MAX,
{
    assert(valid_at(base, chain, i));
}

/// Every right operand of a derivation is a base value, and so is the value
/// it starts from.
pub proof fn lemma_operands_in_base(base: Seq<Value>, chain: Seq<Operation>, v: Value, i: int)
    requires
        derives(base, chain, v),
        0 <= i < chain.len(),
    ensures
        base.contains(chain[i].right()),
        (i == 0) == (chain[i] is Identity),
{
    assert(valid_at(base, chain, i));
}

/// Two optimal derivations of one value apply the same number of operators.
pub proof fn lemma_optimal_costs_agree(
    base: Seq<Value>,
    first: Seq<Operation>,
    second: Seq<Operation>,
    v: Value,
)
    requires
        optimal(base, first, v),
        optimal(base, second, v),
    ensures
        cost(first) == cost(second),
{
}

} // verus!
