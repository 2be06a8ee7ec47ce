//! Two facts about sets of values.
use crate::operation::Value;
use vstd::prelude::*;
use vstd::set_lib::*;

verus! {

/// A set of values has at most as many elements as there are values.
pub proof fn lemma_value_set_bounded(s: Set<Value>)
    requires
        s.finite(),
    ensures
        s.len() <= 0x1_0000_0000,
{
    let below = Set::<Value>::range(0, Value::MAX);
    let all = below.insert(Value::MAX);
    range_set_properties::<Value>(0, Value::MAX);
    assert(s.subset_of(all));
    lemma_len_subset(s, all);
}

/// The values of a sequence with one more at its end are the values of the
/// sequence and that one.
pub proof fn lemma_push_to_set(s: Seq<Value>, x: Value)
    ensures
        s.push(x).to_set() == s.to_set().insert(x),
{
    assert forall|v: Value| s.push(x).to_set().contains(v) implies s.to_set().insert(x).contains(
        v,
    ) by {
        let n = choose|n: int| 0 <= n < s.push(x).len() && s.push(x)[n] == v;
        if n < s.len() {
            assert(s[n] == v);
        }
    }
    assert forall|v: Value| s.to_set().insert(x).contains(v) implies s.push(x).to_set().contains(
        v,
    ) by {
        if v == x {
            assert(s.push(x)[s.len() as int] == x);
        } else {
            let n = choose|n: int| 0 <= n < s.len() && s[n] == v;
            assert(s.push(x)[n] == v);
        }
    }
    assert(s.push(x).to_set() =~= s.to_set().insert(x));
}

} // verus!
