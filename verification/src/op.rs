//! The operation recorded at each node of the computation graph, and the
//! primitive scalar requests that the engine hands to a caller-supplied
//! evaluator.

use vstd::prelude::*;

verus! {

/// How a node was produced: a leaf (`NoOp`), or an operator applied to one or
/// two earlier nodes, referenced by their index in the graph's arena. For the
/// binary operators the order matters: the first index is the left (or base)
/// operand, the second the right (or exponent) operand.
#[derive(Clone, Copy, Debug)]
pub enum Op {
    NoOp,
    Neg(usize),
    Exp(usize),
    Log(usize),
    Pow(usize, usize),
    Add(usize, usize),
    Sub(usize, usize),
    Mul(usize, usize),
    Div(usize, usize),
}

/// One primitive arithmetic step over IEEE-754 single-precision bit patterns.
/// The engine only ever combines bits it already holds into requests; a
/// caller-supplied evaluator answers each request with the bits of the
/// operation's result (`Ln` is the natural logarithm).
#[derive(Clone, Copy, Debug)]
pub enum FReq {
    Neg(u32),
    Add(u32, u32),
    Sub(u32, u32),
    Mul(u32, u32),
    Div(u32, u32),
    Exp(u32),
    Ln(u32),
    Pow(u32, u32),
}

impl Op {
    /// The rendering of each operator kind, as used by display front-ends.
    pub open spec fn op_symb_spec(self) -> Seq<char> {
        match self {
            Op::NoOp => "NOOP"@,
            Op::Neg(_) => "-"@,
            Op::Exp(_) => "exp"@,
            Op::Log(_) => "log"@,
            Op::Pow(_, _) => "^"@,
            Op::Add(_, _) => "+"@,
            Op::Sub(_, _) => "-"@,
            Op::Mul(_, _) => "*"@,
            Op::Div(_, _) => "/"@,
        }
    }

    /// The symbol naming this operation.
    pub fn op_symb(&self) -> (s: &'static str)
        ensures
            s@ == self.op_symb_spec(),
    {
        match self {
            Op::NoOp => "NOOP",
            Op::Neg(_) => "-",
            Op::Exp(_) => "exp",
            Op::Log(_) => "log",
            Op::Pow(_, _) => "^",
            Op::Add(_, _) => "+",
            Op::Sub(_, _) => "-",
            Op::Mul(_, _) => "*",
            Op::Div(_, _) => "/",
        }
    }
}

/// The left (or only) antecedent of an operation, if any.
pub open spec fn left_of(op: Op) -> Option<usize> {
    match op {
        Op::NoOp => None,
        Op::Neg(a) => Some(a),
        Op::Exp(a) => Some(a),
        Op::Log(a) => Some(a),
        Op::Pow(a, _) => Some(a),
        Op::Add(a, _) => Some(a),
        Op::Sub(a, _) => Some(a),
        Op::Mul(a, _) => Some(a),
        Op::Div(a, _) => Some(a),
    }
}

/// The right antecedent of an operation, if any.
pub open spec fn right_of(op: Op) -> Option<usize> {
    match op {
        Op::NoOp => None,
        Op::Neg(_) => None,
        Op::Exp(_) => None,
        Op::Log(_) => None,
        Op::Pow(_, b) => Some(b),
        Op::Add(_, b) => Some(b),
        Op::Sub(_, b) => Some(b),
        Op::Mul(_, b) => Some(b),
        Op::Div(_, b) => Some(b),
    }
}

/// An operation stored at index `i` may only reference antecedents with
/// strictly smaller indices: the arena is topologically ordered, so the graph
/// is acyclic by construction.
pub open spec fn op_wf(op: Op, i: int) -> bool {
    &&& match left_of(op) {
        None => true,
        Some(a) => a < i,
    }
    &&& match right_of(op) {
        None => true,
        Some(b) => b < i,
    }
}

/// Every operation in the arena references only earlier nodes.
pub open spec fn ops_wf(ops: Seq<Op>) -> bool {
    forall|i: int| 0 <= i < ops.len() ==> op_wf(#[trigger] ops[i], i)
}

/// Whether node `to` is in the subgraph that a traversal starting at `from`
/// and following antecedent links visits (`from` itself included).
pub open spec fn reaches(ops: Seq<Op>, from: int, to: int) -> bool
    decreases from,
{
    0 <= from < ops.len() && (from == to || (match left_of(ops[from]) {
        None => false,
        Some(c) => c < from && reaches(ops, c as int, to),
    }) || (match right_of(ops[from]) {
        None => false,
        Some(c) => c < from && reaches(ops, c as int, to),
    }))
}

/// A traversal only visits nodes of the arena at or below its starting index.
pub proof fn lemma_reaches_le(ops: Seq<Op>, from: int, to: int)
    requires
        reaches(ops, from, to),
    ensures
        0 <= to <= from,
        to < ops.len(),
    decreases from,
{
    if from != to {
        let left_hit: bool = match left_of(ops[from]) {
            None => false,
            Some(c) => c < from && reaches(ops, c as int, to),
        };
        if left_hit {
            match left_of(ops[from]) {
                None => {},
                Some(c) => lemma_reaches_le(ops, c as int, to),
            }
        } else {
            match right_of(ops[from]) {
                None => {},
                Some(c) => lemma_reaches_le(ops, c as int, to),
            }
        }
    }
}

} // verus!
