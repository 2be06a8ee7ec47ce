//! Values, the checked operators on them, and the record of one operation.
use vstd::arithmetic::power::*;
use vstd::prelude::*;

verus! {

/// The integers the solvers work on.
pub type Value = u32;

/// How a value was obtained: either it is a base value, or a binary operator
/// was applied to an earlier value (left) and a base value (right).
#[derive(Copy, Clone, Debug)]
pub enum Operation {
    Identity(Value),
    Addition(Value, Value),
    Multiplication(Value, Value),
    Subtraction(Value, Value),
    Exponentiation(Value, Value),
}

impl Operation {
    /// The left operand; for `Identity`, the value itself.
    pub open spec fn left(self) -> Value {
        match self {
            Operation::Identity(v) => v,
            Operation::Addition(a, _) => a,
            Operation::Multiplication(a, _) => a,
            Operation::Subtraction(a, _) => a,
            Operation::Exponentiation(a, _) => a,
        }
    }

    /// The right operand; for `Identity`, the value itself.
    pub open spec fn right(self) -> Value {
        match self {
            Operation::Identity(v) => v,
            Operation::Addition(_, b) => b,
            Operation::Multiplication(_, b) => b,
            Operation::Subtraction(_, b) => b,
            Operation::Exponentiation(_, b) => b,
        }
    }

    /// The result over the mathematical integers, with no regard to the range
    /// of `Value`.
    pub open spec fn exact(self) -> int {
        match self {
            Operation::Identity(v) => v as int,
            Operation::Addition(a, b) => a + b,
            Operation::Multiplication(a, b) => a * b,
            Operation::Subtraction(a, b) => a - b,
            Operation::Exponentiation(a, b) => pow(a as int, b as nat),
        }
    }

    /// The checked result: the exact result where it is a `Value`, and
    /// nothing where it is not.
    pub open spec fn outcome(self) -> Option<Value> {
        if 0 <= self.exact() <= Value::MAX {
            Some(self.exact() as Value)
        } else {
            None
        }
    }

    /// The same operator with `a` as its left operand; an `Identity` is left
    /// as it is.
    pub open spec fn apply_to(self, a: Value) -> Operation {
        match self {
            Operation::Identity(v) => Operation::Identity(v),
            Operation::Addition(_, b) => Operation::Addition(a, b),
            Operation::Multiplication(_, b) => Operation::Multiplication(a, b),
            Operation::Subtraction(_, b) => Operation::Subtraction(a, b),
            Operation::Exponentiation(_, b) => Operation::Exponentiation(a, b),
        }
    }

    /// The character that `symbol` returns.
    pub open spec fn sign(self) -> char {
        match self {
            Operation::Identity(_) => ' ',
            Operation::Addition(_, _) => '+',
            Operation::Multiplication(_, _) => '*',
            Operation::Subtraction(_, _) => '-',
            Operation::Exponentiation(_, _) => '^',
        }
    }

    /// The operator's printed symbol; a blank for `Identity`.
    pub fn symbol(&self) -> (c: char)
        ensures
            c == self.sign(),
    {
        match self {
            Operation::Identity(_) => ' ',
            Operation::Addition(_, _) => '+',
            Operation::Multiplication(_, _) => '*',
            Operation::Subtraction(_, _) => '-',
            Operation::Exponentiation(_, _) => '^',
        }
    }

    /// Computes the operation with overflow detection.
    pub fn evaluate(&self) -> (r: Option<Value>)
        ensures
            r == self.outcome(),
    {
        match *self {
            Operation::Identity(v) => Some(v),
            Operation::Addition(a, b) => a.checked_add(b),
            Operation::Multiplication(a, b) => a.checked_mul(b),
            Operation::Subtraction(a, b) => a.checked_sub(b),
            Operation::Exponentiation(a, b) => checked_pow(a, b),
        }
    }
}

/// Checked exponentiation: `base` to the power `exp`, or `None` where that
/// does not fit in a `Value`. `0` to the power `0` is `1`.
pub fn checked_pow(base: Value, exp: Value) -> (r: Option<Value>)
    ensures
        r == Operation::Exponentiation(base, exp).outcome(),
{
    if exp == 0 {
        proof {
            lemma_pow0(base as int);
        }
        return Some(1);
    }
    if base <= 1 {
        proof {
            if base == 0 {
                lemma0_pow(exp as nat);
            } else {
                lemma1_pow(exp as nat);
            }
        }
        return Some(base);
    }
    let mut acc: Value = 1;
    let mut done: Value = 0;
    proof {
        lemma_pow0(base as int);
    }
    while done < exp
        invariant
            done <= exp,
            base >= 2,
            acc == pow(base as int, done as nat),
        decreases exp - done,
    {
        proof {
            reveal(pow);
            assert(pow(base as int, (done + 1) as nat) == base * pow(base as int, done as nat));
            lemma_pow_increases(base as nat, (done + 1) as nat, exp as nat);
        }
        match acc.checked_mul(base) {
            None => {
                assert(acc * base == base * acc) by (nonlinear_arith);
                return None;
            },
            Some(next) => {
                assert(acc * base == base * acc) by (nonlinear_arith);
                acc = next;
                done = done + 1;
            },
        }
    }
    proof {
        lemma_pow_positive(base as int, exp as nat);
    }
    Some(acc)
}

/// What one operation contributes to the candidates: its result and itself
/// where the result is in range, nothing otherwise.
pub open spec fn attempt(op: Operation) -> Seq<(Value, Operation)> {
    match op.outcome() {
        Some(r) => seq![(r, op)],
        None => Seq::empty(),
    }
}

/// The results of the four operators on `a` (left) and `b` (right) that are
/// in range, each with the operation that gave it, in the order `+ * - ^`.
pub open spec fn candidates(a: Value, b: Value) -> Seq<(Value, Operation)> {
    attempt(Operation::Addition(a, b)) + attempt(Operation::Multiplication(a, b)) + attempt(
        Operation::Subtraction(a, b),
    ) + attempt(Operation::Exponentiation(a, b))
}

/// Each candidate of `a` and `b` is the result of a binary operation on
/// exactly these operands.
pub proof fn lemma_candidate_is_step(a: Value, b: Value, k: int)
    requires
        0 <= k < candidates(a, b).len(),
    ensures
        !(candidates(a, b)[k].1 is Identity),
        candidates(a, b)[k].1.left() == a,
        candidates(a, b)[k].1.right() == b,
        candidates(a, b)[k].1.outcome() == Some(candidates(a, b)[k].0),
{
}

/// Each binary operation whose result is in range is among the candidates of
/// its operands.
pub proof fn lemma_step_is_candidate(op: Operation) -> (k: int)
    requires
        !(op is Identity),
        op.outcome() is Some,
    ensures
        0 <= k < candidates(op.left(), op.right()).len(),
        candidates(op.left(), op.right())[k] == (op.outcome().unwrap(), op),
{
    let a = op.left();
    let b = op.right();
    let first = attempt(Operation::Addition(a, b));
    let second = attempt(Operation::Multiplication(a, b));
    let third = attempt(Operation::Subtraction(a, b));
    match op {
        Operation::Identity(_) => 0,
        Operation::Addition(_, _) => 0,
        Operation::Multiplication(_, _) => first.len() as int,
        Operation::Subtraction(_, _) => (first.len() + second.len()) as int,
        Operation::Exponentiation(_, _) => (first.len() + second.len() + third.len()) as int,
    }
}

/// Applies every operator to `a` and `b` and keeps what did not overflow.
pub fn apply_operators(a: Value, b: Value) -> (out: Vec<(Value, Operation)>)
    ensures
        out@ == candidates(a, b),
{
    let mut out: Vec<(Value, Operation)> = Vec::new();
    let operations = [
        Operation::Addition(a, b),
        Operation::Multiplication(a, b),
        Operation::Subtraction(a, b),
        Operation::Exponentiation(a, b),
    ];
    let mut k: usize = 0;
    while k < 4
        invariant
            k <= 4,
            operations@ == seq![
                Operation::Addition(a, b),
                Operation::Multiplication(a, b),
                Operation::Subtraction(a, b),
                Operation::Exponentiation(a, b),
            ],
            out@ == tried(operations@, k as int),
        decreases 4 - k,
    {
        let op = operations[k];
        if let Some(r) = op.evaluate() {
            out.push((r, op));
        }
        k = k + 1;
    }
    assert(out@ == candidates(a, b)) by {
        reveal_with_fuel(tried, 5);
    }
    out
}

/// The contributions of the first `k` operations of `ops`.
spec fn tried(ops: Seq<Operation>, k: int) -> Seq<(Value, Operation)>
    decreases k,
{
    if k <= 0 {
        Seq::empty()
    } else {
        tried(ops, k - 1) + attempt(ops[k - 1])
    }
}

} // verus!
