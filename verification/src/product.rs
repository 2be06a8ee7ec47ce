//! Pairing the texts of left and right operands.
use itertools::Itertools;
use vstd::prelude::*;

verus! {

/// `Itertools::cartesian_product` on the items of two vectors, collected:
/// every item of `left` paired with every item of `right`. The pairs come
/// grouped by the left item, in the order of `left`, and within one group in
/// the order of `right`.
#[verifier::external_body]
pub(crate) fn cartesian_product<'a>(left: &'a Vec<String>, right: &'a Vec<String>) -> (out: Vec<
    (&'a String, &'a String),
>)
    requires
        left@.len() * right@.len() <= usize::MAX,
    ensures
        out@.len() == left@.len() * right@.len(),
        forall|k: int|
            0 <= k < out@.len() ==> #[trigger] out@[k] == (
                &left@[k / (right@.len() as int)],
                &right@[k % (right@.len() as int)],
            ),
{
    left.iter().cartesian_product(right.iter()).collect()
}

} // verus!
