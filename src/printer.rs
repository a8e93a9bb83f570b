use vstd::prelude::*;
use crate::expression::{Double, Expression};

verus! {

broadcast use vstd::std_specs::vec::group_vec_axioms;

/// The operator that opens a parenthesised group.
#[derive(Debug, Clone, Copy, PartialEq, Eq)]
pub enum Operator {
    Plus,
    Minus,
    Times,
}

impl Operator {
    pub open spec fn spec_symbol(self) -> char {
        match self {
            Operator::Plus => '+',
            Operator::Minus => '-',
            Operator::Times => '*',
        }
    }

    /// The character written after the opening parenthesis.
    pub fn symbol(&self) -> (r: char)
        ensures
            r == self.spec_symbol(),
    {
        match self {
            Operator::Plus => '+',
            Operator::Minus => '-',
            Operator::Times => '*',
        }
    }
}

/// One piece of the prefix-notation text of an expression.
#[derive(Debug, Clone, Copy, PartialEq)]
pub enum Piece {
    /// An opening parenthesis followed by the operator's symbol.
    Open(Operator),
    /// A closing parenthesis.
    Close,
    /// A single space.
    Space,
    /// A literal, written as the caller writes a double.
    Literal(Double),
}

/// The pieces of the text of `e`: a sum, a subtraction and a product are
/// their operator in parentheses around their children's texts; a literal
/// is itself with a space on each side; a variable has no text.
pub open spec fn rendering(e: Expression) -> Seq<Piece>
    decreases e, 1nat,
{
    match e {
        Expression::Add(cs) => group(Operator::Plus, renderings(cs@, cs@.len() as int)),
        Expression::Minus(cs) => group(Operator::Minus, renderings(cs@, cs@.len() as int)),
        Expression::Multiply(cs) => group(Operator::Times, renderings(cs@, cs@.len() as int)),
        Expression::Variable(_) => Seq::empty(),
        Expression::Number(v) => seq![Piece::Space, Piece::Literal(v), Piece::Space],
    }
}

/// `inner` between an opening of `op` and a closing parenthesis.
pub open spec fn group(op: Operator, inner: Seq<Piece>) -> Seq<Piece> {
    seq![Piece::Open(op)] + inner + seq![Piece::Close]
}

/// The texts of the first `n` expressions of `cs`, one after another.
pub open spec fn renderings(cs: Seq<Expression>, n: int) -> Seq<Piece>
    decreases cs, n,
{
    if n <= 0 || n > cs.len() {
        Seq::empty()
    } else {
        renderings(cs, n - 1) + rendering(cs[n - 1])
    }
}

/// Appends the pieces of `e` to `out`.
fn render_into(e: &Expression, out: &mut Vec<Piece>)
    ensures
        final(out)@ == old(out)@ + rendering(*e),
    decreases *e,
{
    match e {
        Expression::Add(cs) => render_group(Operator::Plus, cs, out),
        Expression::Minus(cs) => render_group(Operator::Minus, cs, out),
        Expression::Multiply(cs) => render_group(Operator::Times, cs, out),
        Expression::Variable(_) => {
            assert(out@ == old(out)@ + Seq::<Piece>::empty());
        },
        Expression::Number(v) => {
            out.push(Piece::Space);
            out.push(Piece::Literal(*v));
            out.push(Piece::Space);
            assert(out@ == old(out)@ + seq![Piece::Space, Piece::Literal(*v), Piece::Space]);
        },
    }
}

/// Appends the group of `op` around the pieces of `cs` to `out`.
fn render_group(op: Operator, cs: &Vec<Expression>, out: &mut Vec<Piece>)
    ensures
        final(out)@ == old(out)@ + group(op, renderings(cs@, cs@.len() as int)),
    decreases *cs,
{
    let ghost start = out@;
    out.push(Piece::Open(op));
    let mut i: usize = 0;
    while i < cs.len()
        invariant
            i <= cs.len(),
            out@ == start + seq![Piece::Open(op)] + renderings(cs@, i as int),
        decreases cs.len() - i,
    {
        render_into(&cs[i], out);
        proof {
            assert(renderings(cs@, i as int + 1) == renderings(cs@, i as int) + rendering(cs@[i as int]));
        }
        i = i + 1;
    }
    out.push(Piece::Close);
    assert(out@ == start + group(op, renderings(cs@, cs@.len() as int)));
}

/// The prefix-notation text of `expression`, as pieces.
pub fn render(expression: &Expression) -> (r: Vec<Piece>)
    ensures
        r@ == rendering(*expression),
{
    let mut out: Vec<Piece> = Vec::new();
    render_into(expression, &mut out);
    assert(out@ == rendering(*expression));
    out
}

} // verus!
