//! The computation graph: an arena of nodes, each holding a forward value,
//! an optional accumulated gradient, and the operation it originated from.
//! Handles (`GradVal`) are stable indices into the arena.

use vstd::prelude::*;

use crate::op::{op_wf, ops_wf, FReq, Op};

verus! {

/// The bit patterns of IEEE-754 single-precision positive and negative zero:
/// the two values a divisor must not hold.
pub open spec fn is_zero_bits(v: u32) -> bool {
    v == 0x0000_0000u32 || v == 0x8000_0000u32
}

/// Whether `v` is the bit pattern of a single-precision zero (of either sign).
pub fn bits_are_zero(v: u32) -> (r: bool)
    ensures
        r == is_zero_bits(v),
{
    v == 0x0000_0000u32 || v == 0x8000_0000u32
}

/// A caller-supplied evaluator may be asked any primitive request.
pub open spec fn alu_callable<F: Fn(FReq) -> u32>(alu: F) -> bool {
    forall|q: FReq| #[trigger] call_requires(alu, (q,))
}

/// `interp` is a mathematical interpretation of the evaluator: every answer
/// the evaluator can give agrees with it. Contracts that speak of gradient
/// values are stated relative to any such interpretation.
pub open spec fn alu_matches<F: Fn(FReq) -> u32>(alu: F, interp: spec_fn(FReq) -> u32) -> bool {
    forall|q: FReq, r: u32| #[trigger] call_ensures(alu, (q,), r) ==> r == interp(q)
}

/// The arena of nodes. Nodes are stored as three parallel columns; the entry
/// at one index, taken across the columns, is one node. A node's forward
/// value is immutable once set; only its gradient changes, and only during a
/// backward pass.
pub struct Graph {
    pub(crate) values: Vec<u32>,
    pub(crate) origins: Vec<Op>,
    pub(crate) gradients: Vec<Option<u32>>,
}

/// The public, shareable handle to one node of a graph: what user code holds,
/// combines with arithmetic, and reads values and gradients through. Copying
/// a handle duplicates the reference, not the node: two copies denote the
/// same node.
#[derive(Clone, Copy, Debug)]
pub struct GradVal {
    pub idx: usize,
}

impl Graph {
    /// The forward values, one per node.
    pub closed spec fn val_seq(self) -> Seq<u32> {
        self.values@
    }

    /// The recorded operations, one per node.
    pub closed spec fn op_seq(self) -> Seq<Op> {
        self.origins@
    }

    /// The gradients, one per node: `None` until a backward pass visits the
    /// node.
    pub closed spec fn grad_seq(self) -> Seq<Option<u32>> {
        self.gradients@
    }

    /// How many nodes the graph holds.
    pub open spec fn size(self) -> nat {
        self.op_seq().len()
    }

    /// Within the crate: the value column is the `values` field's view.
    pub(crate) broadcast proof fn lemma_val_column(g: Graph)
        ensures
            #[trigger] g.val_seq() == g.values@,
    {
    }

    /// Within the crate: the operation column is the `origins` field's view.
    pub(crate) broadcast proof fn lemma_op_column(g: Graph)
        ensures
            #[trigger] g.op_seq() == g.origins@,
    {
    }

    /// Within the crate: the gradient column is the `gradients` field's view.
    pub(crate) broadcast proof fn lemma_grad_column(g: Graph)
        ensures
            #[trigger] g.grad_seq() == g.gradients@,
    {
    }

    /// The columns agree in length and every operation references only
    /// earlier nodes, so the graph is a DAG.
    pub open spec fn wf(self) -> bool {
        &&& self.val_seq().len() == self.size()
        &&& self.grad_seq().len() == self.size()
        &&& ops_wf(self.op_seq())
    }

    /// An empty graph.
    pub fn new() -> (g: Graph)
        ensures
            g.wf(),
            g.size() == 0,
    {
        Graph { values: Vec::new(), origins: Vec::new(), gradients: Vec::new() }
    }

    /// How many nodes the graph holds.
    pub fn len(&self) -> (n: usize)
        ensures
            n == self.size(),
    {
        self.origins.len()
    }

    /// Appends a node computed by `op` with forward value `value` and no
    /// gradient yet, and returns its handle.
    pub(crate) fn push_node(&mut self, value: u32, op: Op) -> (h: GradVal)
        requires
            old(self).wf(),
            op_wf(op, old(self).size() as int),
        ensures
            final(self).wf(),
            final(self).op_seq() == old(self).op_seq().push(op),
            final(self).val_seq() == old(self).val_seq().push(value),
            final(self).grad_seq() == old(self).grad_seq().push(None::<u32>),
            h.idx == old(self).size(),
    {
        let h = GradVal { idx: self.origins.len() };
        self.values.push(value);
        self.origins.push(op);
        self.gradients.push(None);
        proof {
            assert forall|i: int| 0 <= i < self.op_seq().len() implies op_wf(
                #[trigger] self.op_seq()[i],
                i,
            ) by {
                if i < old(self).op_seq().len() {
                    assert(op_wf(old(self).op_seq()[i], i));
                }
            }
        }
        h
    }
}

impl GradVal {
    /// Whether this handle denotes a node of `g`.
    pub open spec fn in_graph(self, g: Graph) -> bool {
        self.idx < g.size()
    }

    /// The forward value of the node this handle denotes, in `g`.
    pub open spec fn value_spec(self, g: Graph) -> u32 {
        g.val_seq()[self.idx as int]
    }

    /// The gradient of the node this handle denotes, in `g`.
    pub open spec fn grad_spec(self, g: Graph) -> Option<u32> {
        g.grad_seq()[self.idx as int]
    }

    /// Introduces a leaf: a node holding the raw scalar `bits`, originating
    /// from no operation, with no gradient.
    pub fn from_bits(graph: &mut Graph, bits: u32) -> (h: GradVal)
        requires
            old(graph).wf(),
        ensures
            final(graph).wf(),
            final(graph).op_seq() == old(graph).op_seq().push(Op::NoOp),
            final(graph).val_seq() == old(graph).val_seq().push(bits),
            final(graph).grad_seq() == old(graph).grad_seq().push(None::<u32>),
            h.idx == old(graph).size(),
    {
        graph.push_node(bits, Op::NoOp)
    }

    /// The node's current forward value.
    pub fn value(self, graph: &Graph) -> (v: u32)
        requires
            graph.wf(),
            self.in_graph(*graph),
        ensures
            v == self.value_spec(*graph),
    {
        graph.values[self.idx]
    }

    /// The operation the node originated from.
    pub fn origin(self, graph: &Graph) -> (op: Op)
        requires
            graph.wf(),
            self.in_graph(*graph),
        ensures
            op == graph.op_seq()[self.idx as int],
    {
        graph.origins[self.idx]
    }

    /// The node's accumulated gradient: `None` unless a backward pass has
    /// visited it since the gradients were last reset.
    pub fn grad(self, graph: &Graph) -> (r: Option<u32>)
        requires
            graph.wf(),
            self.in_graph(*graph),
        ensures
            r == self.grad_spec(*graph),
    {
        graph.gradients[self.idx]
    }

    /// Negation: records a `Neg` node whose value is the evaluator's answer
    /// for negating this node's current value.
    pub fn neg<F: Fn(FReq) -> u32>(self, graph: &mut Graph, alu: &F) -> (h: GradVal)
        requires
            old(graph).wf(),
            self.in_graph(*old(graph)),
            alu_callable(*alu),
        ensures
            final(graph).wf(),
            final(graph).op_seq() == old(graph).op_seq().push(Op::Neg(self.idx)),
            final(graph).val_seq() == old(graph).val_seq().push(h.value_spec(*final(graph))),
            final(graph).grad_seq() == old(graph).grad_seq().push(None::<u32>),
            h.idx == old(graph).size(),
            call_ensures(*alu, (FReq::Neg(self.value_spec(*old(graph))),), h.value_spec(*final(graph))),
    {
        let v = alu(FReq::Neg(graph.values[self.idx]));
        graph.push_node(v, Op::Neg(self.idx))
    }

    /// Addition: records an `Add` node whose value is the evaluator's answer
    /// for the sum of the two operands' current values.
    pub fn add<F: Fn(FReq) -> u32>(self, other: GradVal, graph: &mut Graph, alu: &F) -> (h:
        GradVal)
        requires
            old(graph).wf(),
            self.in_graph(*old(graph)),
            other.in_graph(*old(graph)),
            alu_callable(*alu),
        ensures
            final(graph).wf(),
            final(graph).op_seq() == old(graph).op_seq().push(Op::Add(self.idx, other.idx)),
            final(graph).val_seq() == old(graph).val_seq().push(h.value_spec(*final(graph))),
            final(graph).grad_seq() == old(graph).grad_seq().push(None::<u32>),
            h.idx == old(graph).size(),
            call_ensures(
                *alu,
                (FReq::Add(self.value_spec(*old(graph)), other.value_spec(*old(graph))),),
                h.value_spec(*final(graph)),
            ),
    {
        let v = alu(FReq::Add(graph.values[self.idx], graph.values[other.idx]));
        graph.push_node(v, Op::Add(self.idx, other.idx))
    }

    /// Subtraction: records a `Sub` node whose value is the evaluator's
    /// answer for the left operand's value minus the right operand's value.
    pub fn sub<F: Fn(FReq) -> u32>(self, other: GradVal, graph: &mut Graph, alu: &F) -> (h:
        GradVal)
        requires
            old(graph).wf(),
            self.in_graph(*old(graph)),
            other.in_graph(*old(graph)),
            alu_callable(*alu),
        ensures
            final(graph).wf(),
            final(graph).op_seq() == old(graph).op_seq().push(Op::Sub(self.idx, other.idx)),
            final(graph).val_seq() == old(graph).val_seq().push(h.value_spec(*final(graph))),
            final(graph).grad_seq() == old(graph).grad_seq().push(None::<u32>),
            h.idx == old(graph).size(),
            call_ensures(
                *alu,
                (FReq::Sub(self.value_spec(*old(graph)), other.value_spec(*old(graph))),),
                h.value_spec(*final(graph)),
            ),
    {
        let v = alu(FReq::Sub(graph.values[self.idx], graph.values[other.idx]));
        graph.push_node(v, Op::Sub(self.idx, other.idx))
    }

    /// Multiplication: records a `Mul` node whose value is the evaluator's
    /// answer for the product of the two operands' current values.
    pub fn mul<F: Fn(FReq) -> u32>(self, other: GradVal, graph: &mut Graph, alu: &F) -> (h:
        GradVal)
        requires
            old(graph).wf(),
            self.in_graph(*old(graph)),
            other.in_graph(*old(graph)),
            alu_callable(*alu),
        ensures
            final(graph).wf(),
            final(graph).op_seq() == old(graph).op_seq().push(Op::Mul(self.idx, other.idx)),
            final(graph).val_seq() == old(graph).val_seq().push(h.value_spec(*final(graph))),
            final(graph).grad_seq() == old(graph).grad_seq().push(None::<u32>),
            h.idx == old(graph).size(),
            call_ensures(
                *alu,
                (FReq::Mul(self.value_spec(*old(graph)), other.value_spec(*old(graph))),),
                h.value_spec(*final(graph)),
            ),
    {
        let v = alu(FReq::Mul(graph.values[self.idx], graph.values[other.idx]));
        graph.push_node(v, Op::Mul(self.idx, other.idx))
    }

    /// Division: records a `Div` node whose value is the evaluator's answer
    /// for the left operand's value divided by the right operand's value.
    /// A divisor whose current value is exactly zero (of either sign) is
    /// excluded: callers must guard before dividing.
    pub fn div<F: Fn(FReq) -> u32>(self, other: GradVal, graph: &mut Graph, alu: &F) -> (h:
        GradVal)
        requires
            old(graph).wf(),
            self.in_graph(*old(graph)),
            other.in_graph(*old(graph)),
            !is_zero_bits(other.value_spec(*old(graph))),
            alu_callable(*alu),
        ensures
            final(graph).wf(),
            final(graph).op_seq() == old(graph).op_seq().push(Op::Div(self.idx, other.idx)),
            final(graph).val_seq() == old(graph).val_seq().push(h.value_spec(*final(graph))),
            final(graph).grad_seq() == old(graph).grad_seq().push(None::<u32>),
            h.idx == old(graph).size(),
            call_ensures(
                *alu,
                (FReq::Div(self.value_spec(*old(graph)), other.value_spec(*old(graph))),),
                h.value_spec(*final(graph)),
            ),
    {
        let v = alu(FReq::Div(graph.values[self.idx], graph.values[other.idx]));
        graph.push_node(v, Op::Div(self.idx, other.idx))
    }

    /// Exponential: records an `Exp` node whose value is the evaluator's
    /// answer for `e` raised to this node's current value.
    pub fn exp<F: Fn(FReq) -> u32>(self, graph: &mut Graph, alu: &F) -> (h: GradVal)
        requires
            old(graph).wf(),
            self.in_graph(*old(graph)),
            alu_callable(*alu),
        ensures
            final(graph).wf(),
            final(graph).op_seq() == old(graph).op_seq().push(Op::Exp(self.idx)),
            final(graph).val_seq() == old(graph).val_seq().push(h.value_spec(*final(graph))),
            final(graph).grad_seq() == old(graph).grad_seq().push(None::<u32>),
            h.idx == old(graph).size(),
            call_ensures(*alu, (FReq::Exp(self.value_spec(*old(graph))),), h.value_spec(*final(graph))),
    {
        let v = alu(FReq::Exp(graph.values[self.idx]));
        graph.push_node(v, Op::Exp(self.idx))
    }

    /// Natural logarithm: records a `Log` node whose value is the evaluator's
    /// answer for the natural logarithm of this node's current value.
    pub fn log<F: Fn(FReq) -> u32>(self, graph: &mut Graph, alu: &F) -> (h: GradVal)
        requires
            old(graph).wf(),
            self.in_graph(*old(graph)),
            alu_callable(*alu),
        ensures
            final(graph).wf(),
            final(graph).op_seq() == old(graph).op_seq().push(Op::Log(self.idx)),
            final(graph).val_seq() == old(graph).val_seq().push(h.value_spec(*final(graph))),
            final(graph).grad_seq() == old(graph).grad_seq().push(None::<u32>),
            h.idx == old(graph).size(),
            call_ensures(*alu, (FReq::Ln(self.value_spec(*old(graph))),), h.value_spec(*final(graph))),
    {
        let v = alu(FReq::Ln(graph.values[self.idx]));
        graph.push_node(v, Op::Log(self.idx))
    }

    /// Power: records a `Pow` node, with this node as the base and `other` as
    /// the exponent, whose value is the evaluator's answer for the base's
    /// value raised to the exponent's value.
    pub fn pow<F: Fn(FReq) -> u32>(self, other: GradVal, graph: &mut Graph, alu: &F) -> (h:
        GradVal)
        requires
            old(graph).wf(),
            self.in_graph(*old(graph)),
            other.in_graph(*old(graph)),
            alu_callable(*alu),
        ensures
            final(graph).wf(),
            final(graph).op_seq() == old(graph).op_seq().push(Op::Pow(self.idx, other.idx)),
            final(graph).val_seq() == old(graph).val_seq().push(h.value_spec(*final(graph))),
            final(graph).grad_seq() == old(graph).grad_seq().push(None::<u32>),
            h.idx == old(graph).size(),
            call_ensures(
                *alu,
                (FReq::Pow(self.value_spec(*old(graph)), other.value_spec(*old(graph))),),
                h.value_spec(*final(graph)),
            ),
    {
        let v = alu(FReq::Pow(graph.values[self.idx], graph.values[other.idx]));
        graph.push_node(v, Op::Pow(self.idx, other.idx))
    }

    /// Convenience power with a raw scalar exponent: wraps `e_bits` into a
    /// fresh leaf and delegates to [`GradVal::pow`], so two nodes are
    /// recorded: the exponent leaf, then the `Pow` node.
    pub fn powf<F: Fn(FReq) -> u32>(self, e_bits: u32, graph: &mut Graph, alu: &F) -> (h: GradVal)
        requires
            old(graph).wf(),
            self.in_graph(*old(graph)),
            alu_callable(*alu),
        ensures
            final(graph).wf(),
            final(graph).op_seq() == old(graph).op_seq().push(Op::NoOp).push(
                Op::Pow(self.idx, old(graph).size() as usize),
            ),
            final(graph).val_seq() == old(graph).val_seq().push(e_bits).push(
                h.value_spec(*final(graph)),
            ),
            final(graph).grad_seq() == old(graph).grad_seq().push(None::<u32>).push(None::<u32>),
            h.idx == old(graph).size() + 1,
            call_ensures(
                *alu,
                (FReq::Pow(self.value_spec(*old(graph)), e_bits),),
                h.value_spec(*final(graph)),
            ),
    {
        let e = GradVal::from_bits(graph, e_bits);
        self.pow(e, graph, alu)
    }
}

} // verus!
