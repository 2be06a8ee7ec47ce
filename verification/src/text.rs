//! How values and derivations are written as text.
use crate::operation::Operation;
use crate::operation::Value;
use vstd::prelude::*;
use vstd::string::*;

verus! {

/// `String::push` of the standard library: the character is appended at the
/// end of the string, and nothing else changes.
pub assume_specification[ String::push ](s: &mut String, ch: char)
    ensures
        final(s)@ == old(s)@.push(ch),
;

/// The character for a decimal digit.
pub open spec fn digit(d: int) -> char {
    if d == 0 {
        '0'
    } else if d == 1 {
        '1'
    } else if d == 2 {
        '2'
    } else if d == 3 {
        '3'
    } else if d == 4 {
        '4'
    } else if d == 5 {
        '5'
    } else if d == 6 {
        '6'
    } else if d == 7 {
        '7'
    } else if d == 8 {
        '8'
    } else {
        '9'
    }
}

/// The decimal numeral of `n`, without leading zeros.
pub open spec fn decimal(n: nat) -> Seq<char>
    decreases n,
{
    if n < 10 {
        seq![digit(n as int)]
    } else {
        decimal(n / 10).push(digit((n % 10) as int))
    }
}

/// `left` and `right` around an operator symbol, in parentheses:
/// `(left s right)`.
pub open spec fn framed(left: Seq<char>, symbol: char, right: Seq<char>) -> Seq<char> {
    seq!['('] + left + seq![' ', symbol, ' '] + right + seq![')']
}

/// The text of a derivation: the numeral of its first value, wrapped once
/// for each operation with that operation's symbol and right operand.
pub open spec fn render(chain: Seq<Operation>) -> Seq<char>
    decreases chain.len(),
{
    if chain.len() == 0 {
        Seq::empty()
    } else if chain.len() == 1 {
        decimal(chain[0].left() as nat)
    } else {
        framed(
            render(chain.drop_last()),
            chain.last().sign(),
            decimal(chain.last().right() as nat),
        )
    }
}

/// The text of a derivation that ends with `op` is the text of what comes
/// before, wrapped with the symbol and the right operand of `op`.
pub proof fn lemma_render_step(chain: Seq<Operation>, op: Operation)
    requires
        chain.len() >= 1,
    ensures
        render(chain.push(op)) == framed(
            render(chain),
            op.sign(),
            decimal(op.right() as nat),
        ),
{
    assert(chain.push(op).drop_last() == chain);
}

/// The texts of several derivations, in their order.
pub open spec fn render_all(chains: Seq<Seq<Operation>>) -> Seq<Seq<char>> {
    Seq::new(chains.len(), |i: int| render(chains[i]))
}

/// What a sequence of strings says, string by string.
pub open spec fn texts(strings: Seq<String>) -> Seq<Seq<char>> {
    Seq::new(strings.len(), |i: int| strings[i]@)
}

/// Where strings say the texts of some derivations, they still do with one
/// more string and one more derivation at the end, if that string says the
/// text of that derivation.
pub proof fn lemma_texts_push(
    strings: Seq<String>,
    chains: Seq<Seq<Operation>>,
    s: String,
    chain: Seq<Operation>,
)
    requires
        texts(strings) == render_all(chains),
        s@ == render(chain),
    ensures
        texts(strings.push(s)) == render_all(chains.push(chain)),
{
    assert(strings.len() == texts(strings).len());
    assert forall|i: int| 0 <= i < strings.len() + 1 implies texts(strings.push(s))[i]
        == render_all(chains.push(chain))[i] by {
        if i < strings.len() {
            assert(texts(strings)[i] == render_all(chains)[i]);
        }
    }
    assert(texts(strings.push(s)) =~= render_all(chains.push(chain)));
}

fn digit_char(d: Value) -> (c: char)
    requires
        d < 10,
    ensures
        c == digit(d as int),
{
    if d == 0 {
        '0'
    } else if d == 1 {
        '1'
    } else if d == 2 {
        '2'
    } else if d == 3 {
        '3'
    } else if d == 4 {
        '4'
    } else if d == 5 {
        '5'
    } else if d == 6 {
        '6'
    } else if d == 7 {
        '7'
    } else if d == 8 {
        '8'
    } else {
        '9'
    }
}

/// Writes `v` in decimal.
pub fn numeral(v: Value) -> (s: String)
    ensures
        s@ == decimal(v as nat),
    decreases v,
{
    if v < 10 {
        let mut s = String::new();
        s.push(digit_char(v));
        s
    } else {
        let mut s = numeral(v / 10);
        s.push(digit_char(v % 10));
        s
    }
}

/// Writes `(left symbol right)`.
pub fn enclose(left: &str, symbol: char, right: &str) -> (s: String)
    ensures
        s@ == framed(left@, symbol, right@),
{
    let mut s = String::new();
    s.push('(');
    s.append(left);
    s.push(' ');
    s.push(symbol);
    s.push(' ');
    s.append(right);
    s.push(')');
    assert(s@ =~= framed(left@, symbol, right@));
    s
}

} // verus!
