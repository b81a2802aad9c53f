//! The backward (reverse-mode differentiation) engine: a reset phase that
//! clears the gradient of every node reachable from the root, then an
//! accumulate phase that walks the same subgraph depth-first, summing into
//! each visited node the derivative contribution arriving along each path.
//!
//! Both phases are defined twice: as specification functions over the graph's
//! columns, which the laws reason about, and as executable recursions proved
//! equal to them. Gradient arithmetic is delegated to the caller-supplied
//! evaluator; the accumulate phase's contract pins every stored gradient
//! relative to any mathematical interpretation the evaluator's postcondition
//! admits.

use vstd::prelude::*;
use vstd::pervasive::VecAdditionalExecFns;

use crate::graph::{alu_callable, alu_matches, GradVal, Graph};
use crate::op::{left_of, lemma_reaches_le, op_wf, reaches, right_of, FReq, Op};

verus! {

broadcast use Graph::lemma_val_column, Graph::lemma_op_column, Graph::lemma_grad_column;

/// The bit pattern of single-precision `1.0`: the seed gradient handed to the
/// root of a backward pass.
pub const ONE_BITS: u32 = 0x3F80_0000;

/// The reset phase: the gradient of every node reachable from `n` becomes
/// `None`; every other entry of `grads` is kept. The traversal follows the
/// antecedent links, left before right; revisits along shared antecedents are
/// harmless because resetting is idempotent.
pub open spec fn reset_spec(ops: Seq<Op>, grads: Seq<Option<u32>>, n: int) -> Seq<Option<u32>>
    decreases n,
{
    if 0 <= n < ops.len() && grads.len() == ops.len() {
        let cleared = grads.update(n, None::<u32>);
        let after_left = match left_of(ops[n]) {
            None => cleared,
            Some(c) => if c < n {
                reset_spec(ops, cleared, c as int)
            } else {
                cleared
            },
        };
        match right_of(ops[n]) {
            None => after_left,
            Some(c) => if c < n {
                reset_spec(ops, after_left, c as int)
            } else {
                after_left
            },
        }
    } else {
        grads
    }
}

/// The derivative contribution an operation pushes to its left (or only)
/// antecedent when the node it produced receives the contribution `g`:
/// the request whose answer is that contribution, or `None` where `g` is
/// passed through unchanged. `vals` are the forward values, read untouched
/// from construction time.
pub open spec fn push_left(op: Op, vals: Seq<u32>, g: u32, interp: spec_fn(FReq) -> u32) -> Option<
    FReq,
> {
    match op {
        Op::NoOp => None,
        Op::Neg(_) => Some(FReq::Neg(g)),
        Op::Exp(a) => Some(FReq::Mul(g, interp(FReq::Exp(vals[a as int])))),
        Op::Log(a) => Some(FReq::Div(g, vals[a as int])),
        Op::Pow(a, b) => Some(
            FReq::Mul(
                interp(FReq::Mul(g, vals[b as int])),
                interp(FReq::Pow(vals[a as int], interp(FReq::Sub(vals[b as int], ONE_BITS)))),
            ),
        ),
        Op::Add(_, _) => None,
        Op::Sub(_, _) => None,
        Op::Mul(_, b) => Some(FReq::Mul(g, vals[b as int])),
        Op::Div(_, b) => Some(FReq::Div(g, vals[b as int])),
    }
}

/// The derivative contribution a binary operation pushes to its right
/// antecedent when the node it produced receives the contribution `g`, as in
/// [`push_left`].
pub open spec fn push_right(op: Op, vals: Seq<u32>, g: u32, interp: spec_fn(FReq) -> u32) -> Option<
    FReq,
> {
    match op {
        Op::NoOp => None,
        Op::Neg(_) => None,
        Op::Exp(_) => None,
        Op::Log(_) => None,
        Op::Pow(a, b) => Some(
            FReq::Mul(interp(FReq::Mul(g, interp(FReq::Pow(vals[a as int], vals[b as int])))), interp(FReq::Ln(vals[a as int]))),
        ),
        Op::Add(_, _) => None,
        Op::Sub(_, _) => Some(FReq::Neg(g)),
        Op::Mul(a, _) => Some(FReq::Mul(g, vals[a as int])),
        Op::Div(a, b) => Some(
            FReq::Mul(
                g,
                interp(FReq::Div(interp(FReq::Neg(vals[a as int])), interp(FReq::Mul(vals[b as int], vals[b as int])))),
            ),
        ),
    }
}

/// The gradient stored when a node holding `prior` receives the contribution
/// `g`: accumulation, not overwrite — the first contribution is stored as the
/// running sum's first term, later ones are added to it.
pub open spec fn combine_grad(prior: Option<u32>, g: u32, interp: spec_fn(FReq) -> u32) -> u32 {
    match prior {
        None => g,
        Some(p) => interp(FReq::Add(p, g)),
    }
}

/// What a contribution request stands for: `g` itself where the operation
/// passes the contribution through, else the interpretation's answer.
pub open spec fn pushed_grad(req: Option<FReq>, g: u32, interp: spec_fn(FReq) -> u32) -> u32 {
    match req {
        None => g,
        Some(q) => interp(q),
    }
}

/// The accumulate phase: node `n` receives the contribution `g` — added to
/// its gradient where one is present, stored as the running sum's first term
/// where none is — and then, per its operation, pushes a derived contribution
/// to each antecedent, left before right, recursively. Both pushed
/// contributions are derived from the node's incoming `g` and the antecedents'
/// forward values, never from the updated gradients. Gradient arithmetic is
/// given by `interp`.
pub open spec fn accum_spec(
    ops: Seq<Op>,
    vals: Seq<u32>,
    grads: Seq<Option<u32>>,
    n: int,
    g: u32,
    interp: spec_fn(FReq) -> u32,
) -> Seq<Option<u32>>
    decreases n,
{
    if 0 <= n < ops.len() && grads.len() == ops.len() && vals.len() == ops.len() {
        let stored = grads.update(n, Some(combine_grad(grads[n], g, interp)));
        let after_left = match left_of(ops[n]) {
            None => stored,
            Some(c) => if c < n {
                accum_spec(
                    ops,
                    vals,
                    stored,
                    c as int,
                    pushed_grad(push_left(ops[n], vals, g, interp), g, interp),
                    interp,
                )
            } else {
                stored
            },
        };
        match right_of(ops[n]) {
            None => after_left,
            Some(c) => if c < n {
                accum_spec(
                    ops,
                    vals,
                    after_left,
                    c as int,
                    pushed_grad(push_right(ops[n], vals, g, interp), g, interp),
                    interp,
                )
            } else {
                after_left
            },
        }
    } else {
        grads
    }
}

/// A whole backward pass from `root`: reset the reachable subgraph's
/// gradients, then accumulate from the seed `1.0`.
pub open spec fn backward_spec(
    ops: Seq<Op>,
    vals: Seq<u32>,
    grads: Seq<Option<u32>>,
    root: int,
    interp: spec_fn(FReq) -> u32,
) -> Seq<Option<u32>> {
    accum_spec(ops, vals, reset_spec(ops, grads, root), root, ONE_BITS, interp)
}

impl Graph {
    /// The executable reset phase.
    pub(crate) fn reset_grads(&mut self, n: usize)
        requires
            old(self).wf(),
            n < old(self).size(),
        ensures
            final(self).wf(),
            final(self).op_seq() == old(self).op_seq(),
            final(self).val_seq() == old(self).val_seq(),
            final(self).grad_seq() == reset_spec(old(self).op_seq(), old(self).grad_seq(), n as int),
        decreases n,
    {
        proof {
            assert(op_wf(self.op_seq()[n as int], n as int));
        }
        self.gradients.set(n, None);
        let op = self.origins[n];
        match op {
            Op::NoOp => {},
            Op::Neg(a) => self.reset_grads(a),
            Op::Exp(a) => self.reset_grads(a),
            Op::Log(a) => self.reset_grads(a),
            Op::Pow(a, b) => {
                self.reset_grads(a);
                self.reset_grads(b);
            },
            Op::Add(a, b) => {
                self.reset_grads(a);
                self.reset_grads(b);
            },
            Op::Sub(a, b) => {
                self.reset_grads(a);
                self.reset_grads(b);
            },
            Op::Mul(a, b) => {
                self.reset_grads(a);
                self.reset_grads(b);
            },
            Op::Div(a, b) => {
                self.reset_grads(a);
                self.reset_grads(b);
            },
        }
    }

    /// The executable accumulate phase.
    pub(crate) fn accumulate<F: Fn(FReq) -> u32>(&mut self, n: usize, g: u32, alu: &F)
        requires
            old(self).wf(),
            n < old(self).size(),
            alu_callable(*alu),
        ensures
            final(self).wf(),
            final(self).op_seq() == old(self).op_seq(),
            final(self).val_seq() == old(self).val_seq(),
            final(self).grad_seq().len() == old(self).grad_seq().len(),
            forall|k: int|
                0 <= k < old(self).grad_seq().len() && !reaches(old(self).op_seq(), n as int, k)
                    ==> #[trigger] final(self).grad_seq()[k] == old(self).grad_seq()[k],
            forall|k: int|
                0 <= k < old(self).grad_seq().len() && old(self).grad_seq()[k] is Some
                    ==> #[trigger] final(self).grad_seq()[k] is Some,
            forall|k: int|
                reaches(old(self).op_seq(), n as int, k)
                    ==> #[trigger] final(self).grad_seq()[k] is Some,
            forall|interp: spec_fn(FReq) -> u32|
                alu_matches(*alu, interp) ==> final(self).grad_seq() == #[trigger] accum_spec(
                    old(self).op_seq(),
                    old(self).val_seq(),
                    old(self).grad_seq(),
                    n as int,
                    g,
                    interp,
                ),
        decreases n,
    {
        proof {
            assert(op_wf(self.op_seq()[n as int], n as int));
        }
        let total = match self.gradients[n] {
            None => g,
            Some(prior) => alu(FReq::Add(prior, g)),
        };
        self.gradients.set(n, Some(total));
        let op = self.origins[n];
        match op {
            Op::NoOp => {
                proof {
                    assert forall|k: int|
                        reaches(old(self).op_seq(), n as int, k) implies self.grad_seq()[k]
                        is Some by {
                        lemma_reaches_le(old(self).op_seq(), n as int, k);
                    }
                }
            },
            Op::Neg(a) => {
                let ga = alu(FReq::Neg(g));
                self.accumulate(a, ga, alu);
                proof {
                    assert forall|interp: spec_fn(FReq) -> u32|
                        alu_matches(*alu, interp) implies self.grad_seq() == accum_spec(
                        old(self).op_seq(),
                        old(self).val_seq(),
                        old(self).grad_seq(),
                        n as int,
                        g,
                        interp,
                    ) by {
                        assert(ga == pushed_grad(push_left(op, old(self).val_seq(), g, interp), g, interp));
                        assert(self.grad_seq() == accum_spec(
                            old(self).op_seq(),
                            old(self).val_seq(),
                            old(self).grad_seq().update(n as int, Some(total)),
                            a as int,
                            ga,
                            interp,
                        ));
                    }
                    assert forall|k: int|
                        reaches(old(self).op_seq(), n as int, k) implies self.grad_seq()[k]
                        is Some by {
                        lemma_reaches_le(old(self).op_seq(), n as int, k);
                    }
                }
            },
            Op::Exp(a) => {
                let ea = alu(FReq::Exp(self.values[a]));
                let ga = alu(FReq::Mul(g, ea));
                self.accumulate(a, ga, alu);
                proof {
                    assert forall|interp: spec_fn(FReq) -> u32|
                        alu_matches(*alu, interp) implies self.grad_seq() == accum_spec(
                        old(self).op_seq(),
                        old(self).val_seq(),
                        old(self).grad_seq(),
                        n as int,
                        g,
                        interp,
                    ) by {
                        assert(ga == pushed_grad(push_left(op, old(self).val_seq(), g, interp), g, interp));
                        assert(self.grad_seq() == accum_spec(
                            old(self).op_seq(),
                            old(self).val_seq(),
                            old(self).grad_seq().update(n as int, Some(total)),
                            a as int,
                            ga,
                            interp,
                        ));
                    }
                    assert forall|k: int|
                        reaches(old(self).op_seq(), n as int, k) implies self.grad_seq()[k]
                        is Some by {
                        lemma_reaches_le(old(self).op_seq(), n as int, k);
                    }
                }
            },
            Op::Log(a) => {
                let ga = alu(FReq::Div(g, self.values[a]));
                self.accumulate(a, ga, alu);
                proof {
                    assert forall|interp: spec_fn(FReq) -> u32|
                        alu_matches(*alu, interp) implies self.grad_seq() == accum_spec(
                        old(self).op_seq(),
                        old(self).val_seq(),
                        old(self).grad_seq(),
                        n as int,
                        g,
                        interp,
                    ) by {
                        assert(ga == pushed_grad(push_left(op, old(self).val_seq(), g, interp), g, interp));
                        assert(self.grad_seq() == accum_spec(
                            old(self).op_seq(),
                            old(self).val_seq(),
                            old(self).grad_seq().update(n as int, Some(total)),
                            a as int,
                            ga,
                            interp,
                        ));
                    }
                    assert forall|k: int|
                        reaches(old(self).op_seq(), n as int, k) implies self.grad_seq()[k]
                        is Some by {
                        lemma_reaches_le(old(self).op_seq(), n as int, k);
                    }
                }
            },
            Op::Pow(a, b) => {
                let va = self.values[a];
                let vb = self.values[b];
                let e1 = alu(FReq::Sub(vb, ONE_BITS));
                let ga = alu(FReq::Mul(alu(FReq::Mul(g, vb)), alu(FReq::Pow(va, e1))));
                let gb = alu(FReq::Mul(alu(FReq::Mul(g, alu(FReq::Pow(va, vb)))), alu(FReq::Ln(va))));
                self.accumulate(a, ga, alu);
                self.accumulate(b, gb, alu);
                proof {
                    assert forall|interp: spec_fn(FReq) -> u32|
                        alu_matches(*alu, interp) implies self.grad_seq() == accum_spec(
                        old(self).op_seq(),
                        old(self).val_seq(),
                        old(self).grad_seq(),
                        n as int,
                        g,
                        interp,
                    ) by {
                        assert(ga == pushed_grad(push_left(op, old(self).val_seq(), g, interp), g, interp));
                        assert(gb == pushed_grad(push_right(op, old(self).val_seq(), g, interp), g, interp));
                        assert(self.grad_seq() == accum_spec(
                            old(self).op_seq(),
                            old(self).val_seq(),
                            accum_spec(
                                old(self).op_seq(),
                                old(self).val_seq(),
                                old(self).grad_seq().update(n as int, Some(total)),
                                a as int,
                                ga,
                                interp,
                            ),
                            b as int,
                            gb,
                            interp,
                        ));
                    }
                    assert forall|k: int|
                        reaches(old(self).op_seq(), n as int, k) implies self.grad_seq()[k]
                        is Some by {
                        lemma_reaches_le(old(self).op_seq(), n as int, k);
                    }
                }
            },
            Op::Add(a, b) => {
                self.accumulate(a, g, alu);
                self.accumulate(b, g, alu);
                proof {
                    assert forall|interp: spec_fn(FReq) -> u32|
                        alu_matches(*alu, interp) implies self.grad_seq() == accum_spec(
                        old(self).op_seq(),
                        old(self).val_seq(),
                        old(self).grad_seq(),
                        n as int,
                        g,
                        interp,
                    ) by {
                        assert(self.grad_seq() == accum_spec(
                            old(self).op_seq(),
                            old(self).val_seq(),
                            accum_spec(
                                old(self).op_seq(),
                                old(self).val_seq(),
                                old(self).grad_seq().update(n as int, Some(total)),
                                a as int,
                                g,
                                interp,
                            ),
                            b as int,
                            g,
                            interp,
                        ));
                    }
                    assert forall|k: int|
                        reaches(old(self).op_seq(), n as int, k) implies self.grad_seq()[k]
                        is Some by {
                        lemma_reaches_le(old(self).op_seq(), n as int, k);
                    }
                }
            },
            Op::Sub(a, b) => {
                let gb = alu(FReq::Neg(g));
                self.accumulate(a, g, alu);
                self.accumulate(b, gb, alu);
                proof {
                    assert forall|interp: spec_fn(FReq) -> u32|
                        alu_matches(*alu, interp) implies self.grad_seq() == accum_spec(
                        old(self).op_seq(),
                        old(self).val_seq(),
                        old(self).grad_seq(),
                        n as int,
                        g,
                        interp,
                    ) by {
                        assert(gb == pushed_grad(push_right(op, old(self).val_seq(), g, interp), g, interp));
                        assert(self.grad_seq() == accum_spec(
                            old(self).op_seq(),
                            old(self).val_seq(),
                            accum_spec(
                                old(self).op_seq(),
                                old(self).val_seq(),
                                old(self).grad_seq().update(n as int, Some(total)),
                                a as int,
                                g,
                                interp,
                            ),
                            b as int,
                            gb,
                            interp,
                        ));
                    }
                    assert forall|k: int|
                        reaches(old(self).op_seq(), n as int, k) implies self.grad_seq()[k]
                        is Some by {
                        lemma_reaches_le(old(self).op_seq(), n as int, k);
                    }
                }
            },
            Op::Mul(a, b) => {
                let ga = alu(FReq::Mul(g, self.values[b]));
                let gb = alu(FReq::Mul(g, self.values[a]));
                self.accumulate(a, ga, alu);
                self.accumulate(b, gb, alu);
                proof {
                    assert forall|interp: spec_fn(FReq) -> u32|
                        alu_matches(*alu, interp) implies self.grad_seq() == accum_spec(
                        old(self).op_seq(),
                        old(self).val_seq(),
                        old(self).grad_seq(),
                        n as int,
                        g,
                        interp,
                    ) by {
                        assert(ga == pushed_grad(push_left(op, old(self).val_seq(), g, interp), g, interp));
                        assert(gb == pushed_grad(push_right(op, old(self).val_seq(), g, interp), g, interp));
                        assert(self.grad_seq() == accum_spec(
                            old(self).op_seq(),
                            old(self).val_seq(),
                            accum_spec(
                                old(self).op_seq(),
                                old(self).val_seq(),
                                old(self).grad_seq().update(n as int, Some(total)),
                                a as int,
                                ga,
                                interp,
                            ),
                            b as int,
                            gb,
                            interp,
                        ));
                    }
                    assert forall|k: int|
                        reaches(old(self).op_seq(), n as int, k) implies self.grad_seq()[k]
                        is Some by {
                        lemma_reaches_le(old(self).op_seq(), n as int, k);
                    }
                }
            },
            Op::Div(a, b) => {
                let va = self.values[a];
                let vb = self.values[b];
                let ga = alu(FReq::Div(g, vb));
                let gb = alu(FReq::Mul(g, alu(FReq::Div(alu(FReq::Neg(va)), alu(FReq::Mul(vb, vb))))));
                self.accumulate(a, ga, alu);
                self.accumulate(b, gb, alu);
                proof {
                    assert forall|interp: spec_fn(FReq) -> u32|
                        alu_matches(*alu, interp) implies self.grad_seq() == accum_spec(
                        old(self).op_seq(),
                        old(self).val_seq(),
                        old(self).grad_seq(),
                        n as int,
                        g,
                        interp,
                    ) by {
                        assert(ga == pushed_grad(push_left(op, old(self).val_seq(), g, interp), g, interp));
                        assert(gb == pushed_grad(push_right(op, old(self).val_seq(), g, interp), g, interp));
                        assert(self.grad_seq() == accum_spec(
                            old(self).op_seq(),
                            old(self).val_seq(),
                            accum_spec(
                                old(self).op_seq(),
                                old(self).val_seq(),
                                old(self).grad_seq().update(n as int, Some(total)),
                                a as int,
                                ga,
                                interp,
                            ),
                            b as int,
                            gb,
                            interp,
                        ));
                    }
                    assert forall|k: int|
                        reaches(old(self).op_seq(), n as int, k) implies self.grad_seq()[k]
                        is Some by {
                        lemma_reaches_le(old(self).op_seq(), n as int, k);
                    }
                }
            },
        }
    }
}

impl GradVal {
    /// Runs a backward pass with this node as the root: resets the gradient
    /// of every node reachable from it, then accumulates into each such node
    /// the partial derivative of the root's value with respect to that node,
    /// starting from the seed `1.0`. Forward values and recorded operations
    /// are untouched; nodes outside the reachable subgraph keep their
    /// gradients.
    pub fn backward<F: Fn(FReq) -> u32>(self, graph: &mut Graph, alu: &F)
        requires
            old(graph).wf(),
            self.in_graph(*old(graph)),
            alu_callable(*alu),
        ensures
            final(graph).wf(),
            final(graph).op_seq() == old(graph).op_seq(),
            final(graph).val_seq() == old(graph).val_seq(),
            final(graph).grad_seq().len() == old(graph).grad_seq().len(),
            forall|k: int|
                0 <= k < old(graph).grad_seq().len() && !reaches(
                    old(graph).op_seq(),
                    self.idx as int,
                    k,
                ) ==> #[trigger] final(graph).grad_seq()[k] == old(graph).grad_seq()[k],
            forall|k: int|
                reaches(old(graph).op_seq(), self.idx as int, k)
                    ==> #[trigger] final(graph).grad_seq()[k] is Some,
            forall|interp: spec_fn(FReq) -> u32|
                alu_matches(*alu, interp) ==> final(graph).grad_seq() == #[trigger] backward_spec(
                    old(graph).op_seq(),
                    old(graph).val_seq(),
                    old(graph).grad_seq(),
                    self.idx as int,
                    interp,
                ),
    {
        graph.reset_grads(self.idx);
        graph.accumulate(self.idx, ONE_BITS, alu);
        proof {
            assert forall|k: int|
                0 <= k < old(graph).grad_seq().len() && !reaches(
                    old(graph).op_seq(),
                    self.idx as int,
                    k,
                ) implies graph.grad_seq()[k] == old(graph).grad_seq()[k] by {
                crate::laws::lemma_reset_char(
                    old(graph).op_seq(),
                    old(graph).grad_seq(),
                    self.idx as int,
                    k,
                );
            }
        }
    }
}

} // verus!
