//! The laws of the backward engine, stated over the specification functions
//! that the executable engine is proved equal to: framing (what a pass leaves
//! alone), coverage (what it fills in), the gradients the differentiation
//! rules owe particular graph shapes, and the stability of repeated passes.
//!
//! Every law is relative to an arbitrary mathematical interpretation `interp`
//! of the primitive scalar requests, the same interpretation the engine's
//! contracts are stated against.

use vstd::prelude::*;

use crate::backward::{
    accum_spec, backward_spec, combine_grad, push_left, push_right, pushed_grad, reset_spec,
    ONE_BITS,
};
use crate::op::{left_of, lemma_reaches_le, op_wf, ops_wf, reaches, right_of, FReq, Op};

verus! {

/// The reset phase never changes how many gradient entries there are.
pub proof fn lemma_reset_len(ops: Seq<Op>, grads: Seq<Option<u32>>, n: int)
    ensures
        reset_spec(ops, grads, n).len() == grads.len(),
    decreases n,
{
    if 0 <= n < ops.len() && grads.len() == ops.len() {
        let cleared = grads.update(n, None::<u32>);
        let after_left = match left_of(ops[n]) {
            None => cleared,
            Some(c) => if c < n {
                reset_spec(ops, cleared, c as int)
            } else {
                cleared
            },
        };
        match left_of(ops[n]) {
            None => {},
            Some(c) => if c < n {
                lemma_reset_len(ops, cleared, c as int);
            },
        }
        match right_of(ops[n]) {
            None => {},
            Some(c) => if c < n {
                lemma_reset_len(ops, after_left, c as int);
            },
        }
    }
}

/// What the reset phase does, entry by entry: a gradient becomes `None`
/// exactly where the node is reachable from the reset's root, and is kept
/// unchanged everywhere else.
pub proof fn lemma_reset_char(ops: Seq<Op>, grads: Seq<Option<u32>>, n: int, k: int)
    requires
        0 <= n < ops.len(),
        grads.len() == ops.len(),
        0 <= k < ops.len(),
    ensures
        reset_spec(ops, grads, n)[k] == if reaches(ops, n, k) {
            None::<u32>
        } else {
            grads[k]
        },
    decreases n,
{
    let cleared = grads.update(n, None::<u32>);
    let after_left = match left_of(ops[n]) {
        None => cleared,
        Some(c) => if c < n {
            reset_spec(ops, cleared, c as int)
        } else {
            cleared
        },
    };
    match left_of(ops[n]) {
        None => {},
        Some(c) => if c < n {
            lemma_reset_len(ops, cleared, c as int);
            lemma_reset_char(ops, cleared, c as int, k);
        },
    }
    match right_of(ops[n]) {
        None => {},
        Some(c) => if c < n {
            lemma_reset_char(ops, after_left, c as int, k);
        },
    }
}

/// The accumulate phase never changes how many gradient entries there are.
pub proof fn lemma_accum_len(
    ops: Seq<Op>,
    vals: Seq<u32>,
    grads: Seq<Option<u32>>,
    n: int,
    g: u32,
    interp: spec_fn(FReq) -> u32,
)
    ensures
        accum_spec(ops, vals, grads, n, g, interp).len() == grads.len(),
    decreases n,
{
    if 0 <= n < ops.len() && grads.len() == ops.len() && vals.len() == ops.len() {
        let stored = grads.update(n, Some(combine_grad(grads[n], g, interp)));
        let gl = pushed_grad(push_left(ops[n], vals, g, interp), g, interp);
        let gr = pushed_grad(push_right(ops[n], vals, g, interp), g, interp);
        let after_left = match left_of(ops[n]) {
            None => stored,
            Some(c) => if c < n {
                accum_spec(ops, vals, stored, c as int, gl, interp)
            } else {
                stored
            },
        };
        match left_of(ops[n]) {
            None => {},
            Some(c) => if c < n {
                lemma_accum_len(ops, vals, stored, c as int, gl, interp);
            },
        }
        match right_of(ops[n]) {
            None => {},
            Some(c) => if c < n {
                lemma_accum_len(ops, vals, after_left, c as int, gr, interp);
            },
        }
    }
}

/// Framing of the accumulate phase: a node that the traversal from `n` does
/// not visit keeps its gradient, whatever the interpretation.
pub proof fn lemma_accum_untouched(
    ops: Seq<Op>,
    vals: Seq<u32>,
    grads: Seq<Option<u32>>,
    n: int,
    g: u32,
    interp: spec_fn(FReq) -> u32,
    k: int,
)
    requires
        0 <= k < grads.len(),
        !reaches(ops, n, k),
    ensures
        accum_spec(ops, vals, grads, n, g, interp)[k] == grads[k],
    decreases n,
{
    if 0 <= n < ops.len() && grads.len() == ops.len() && vals.len() == ops.len() {
        let stored = grads.update(n, Some(combine_grad(grads[n], g, interp)));
        let gl = pushed_grad(push_left(ops[n], vals, g, interp), g, interp);
        let gr = pushed_grad(push_right(ops[n], vals, g, interp), g, interp);
        let after_left = match left_of(ops[n]) {
            None => stored,
            Some(c) => if c < n {
                accum_spec(ops, vals, stored, c as int, gl, interp)
            } else {
                stored
            },
        };
        match left_of(ops[n]) {
            None => {},
            Some(c) => if c < n {
                lemma_accum_untouched(ops, vals, stored, c as int, gl, interp, k);
                lemma_accum_len(ops, vals, stored, c as int, gl, interp);
            },
        }
        match right_of(ops[n]) {
            None => {},
            Some(c) => if c < n {
                lemma_accum_untouched(ops, vals, after_left, c as int, gr, interp, k);
            },
        }
    }
}

/// The accumulate phase never discards a gradient: an entry that holds a
/// value before it still holds one after it.
pub proof fn lemma_accum_keeps_some(
    ops: Seq<Op>,
    vals: Seq<u32>,
    grads: Seq<Option<u32>>,
    n: int,
    g: u32,
    interp: spec_fn(FReq) -> u32,
    k: int,
)
    requires
        0 <= k < grads.len(),
        grads[k] is Some,
    ensures
        accum_spec(ops, vals, grads, n, g, interp)[k] is Some,
    decreases n,
{
    if 0 <= n < ops.len() && grads.len() == ops.len() && vals.len() == ops.len() {
        let stored = grads.update(n, Some(combine_grad(grads[n], g, interp)));
        let gl = pushed_grad(push_left(ops[n], vals, g, interp), g, interp);
        let gr = pushed_grad(push_right(ops[n], vals, g, interp), g, interp);
        let after_left = match left_of(ops[n]) {
            None => stored,
            Some(c) => if c < n {
                accum_spec(ops, vals, stored, c as int, gl, interp)
            } else {
                stored
            },
        };
        match left_of(ops[n]) {
            None => {},
            Some(c) => if c < n {
                lemma_accum_keeps_some(ops, vals, stored, c as int, gl, interp, k);
                lemma_accum_len(ops, vals, stored, c as int, gl, interp);
            },
        }
        match right_of(ops[n]) {
            None => {},
            Some(c) => if c < n {
                lemma_accum_keeps_some(ops, vals, after_left, c as int, gr, interp, k);
            },
        }
    }
}

/// Coverage of the accumulate phase: every node the traversal from `n` visits
/// holds a gradient afterwards.
pub proof fn lemma_accum_reached_some(
    ops: Seq<Op>,
    vals: Seq<u32>,
    grads: Seq<Option<u32>>,
    n: int,
    g: u32,
    interp: spec_fn(FReq) -> u32,
    k: int,
)
    requires
        0 <= n < ops.len(),
        grads.len() == ops.len(),
        vals.len() == ops.len(),
        reaches(ops, n, k),
    ensures
        accum_spec(ops, vals, grads, n, g, interp)[k] is Some,
    decreases n,
{
    lemma_reaches_le(ops, n, k);
    let stored = grads.update(n, Some(combine_grad(grads[n], g, interp)));
    let gl = pushed_grad(push_left(ops[n], vals, g, interp), g, interp);
    let gr = pushed_grad(push_right(ops[n], vals, g, interp), g, interp);
    let after_left = match left_of(ops[n]) {
        None => stored,
        Some(c) => if c < n {
            accum_spec(ops, vals, stored, c as int, gl, interp)
        } else {
            stored
        },
    };
    let left_hit: bool = match left_of(ops[n]) {
        None => false,
        Some(c) => c < n && reaches(ops, c as int, k),
    };
    match left_of(ops[n]) {
        None => {},
        Some(c) => if c < n {
            lemma_accum_len(ops, vals, stored, c as int, gl, interp);
            if left_hit {
                lemma_accum_reached_some(ops, vals, stored, c as int, gl, interp, k);
            } else if k == n {
                lemma_accum_keeps_some(ops, vals, stored, c as int, gl, interp, k);
            }
        },
    }
    match right_of(ops[n]) {
        None => {},
        Some(c) => if c < n {
            if c < n && reaches(ops, c as int, k) {
                lemma_accum_reached_some(ops, vals, after_left, c as int, gr, interp, k);
            } else {
                lemma_accum_keeps_some(ops, vals, after_left, c as int, gr, interp, k);
            }
        },
    }
}

/// What the node first visited by the accumulate phase ends up holding: its
/// prior gradient combined with the incoming contribution. The recursion into
/// its antecedents cannot visit it again, because the arena is topologically
/// ordered.
pub proof fn lemma_accum_at(
    ops: Seq<Op>,
    vals: Seq<u32>,
    grads: Seq<Option<u32>>,
    n: int,
    g: u32,
    interp: spec_fn(FReq) -> u32,
)
    requires
        0 <= n < ops.len(),
        grads.len() == ops.len(),
        vals.len() == ops.len(),
    ensures
        accum_spec(ops, vals, grads, n, g, interp)[n] == Some(combine_grad(grads[n], g, interp)),
{
    let stored = grads.update(n, Some(combine_grad(grads[n], g, interp)));
    let gl = pushed_grad(push_left(ops[n], vals, g, interp), g, interp);
    let gr = pushed_grad(push_right(ops[n], vals, g, interp), g, interp);
    let after_left = match left_of(ops[n]) {
        None => stored,
        Some(c) => if c < n {
            accum_spec(ops, vals, stored, c as int, gl, interp)
        } else {
            stored
        },
    };
    match left_of(ops[n]) {
        None => {},
        Some(c) => if c < n {
            if reaches(ops, c as int, n) {
                lemma_reaches_le(ops, c as int, n);
            }
            lemma_accum_untouched(ops, vals, stored, c as int, gl, interp, n);
            lemma_accum_len(ops, vals, stored, c as int, gl, interp);
        },
    }
    match right_of(ops[n]) {
        None => {},
        Some(c) => if c < n {
            if reaches(ops, c as int, n) {
                lemma_reaches_le(ops, c as int, n);
            }
            lemma_accum_untouched(ops, vals, after_left, c as int, gr, interp, n);
        },
    }
}

/// The gradient of the root itself: a backward pass always leaves the root
/// holding exactly the seed `1.0` — in particular, differentiating a node
/// with respect to itself gives `1.0`, whatever its subgraph looks like.
pub proof fn lemma_root_gradient(
    ops: Seq<Op>,
    vals: Seq<u32>,
    grads: Seq<Option<u32>>,
    root: int,
    interp: spec_fn(FReq) -> u32,
)
    requires
        ops_wf(ops),
        0 <= root < ops.len(),
        grads.len() == ops.len(),
        vals.len() == ops.len(),
    ensures
        backward_spec(ops, vals, grads, root, interp)[root] == Some(ONE_BITS),
{
    let r1 = reset_spec(ops, grads, root);
    lemma_reset_len(ops, grads, root);
    lemma_reset_char(ops, grads, root, root);
    assert(reaches(ops, root, root));
    lemma_accum_at(ops, vals, r1, root, ONE_BITS, interp);
}

/// The sum rule: where the root is `a + b` with independent operands (neither
/// contains the other), the backward pass gives both operands the gradient
/// `1.0` exactly.
pub proof fn lemma_sum_rule(
    ops: Seq<Op>,
    vals: Seq<u32>,
    grads: Seq<Option<u32>>,
    z: int,
    a: usize,
    b: usize,
    interp: spec_fn(FReq) -> u32,
)
    requires
        ops_wf(ops),
        0 <= z < ops.len(),
        grads.len() == ops.len(),
        vals.len() == ops.len(),
        ops[z] == Op::Add(a, b),
        a != b,
        !reaches(ops, a as int, b as int),
        !reaches(ops, b as int, a as int),
    ensures
        backward_spec(ops, vals, grads, z, interp)[a as int] == Some(ONE_BITS),
        backward_spec(ops, vals, grads, z, interp)[b as int] == Some(ONE_BITS),
{
    assert(op_wf(ops[z], z));
    let r1 = reset_spec(ops, grads, z);
    lemma_reset_len(ops, grads, z);
    assert(reaches(ops, a as int, a as int));
    assert(reaches(ops, b as int, b as int));
    assert(reaches(ops, z, a as int));
    assert(reaches(ops, z, b as int));
    lemma_reset_char(ops, grads, z, a as int);
    lemma_reset_char(ops, grads, z, b as int);
    lemma_reset_char(ops, grads, z, z);
    let stored = r1.update(z, Some(ONE_BITS));
    let after_left = accum_spec(ops, vals, stored, a as int, ONE_BITS, interp);
    lemma_accum_at(ops, vals, stored, a as int, ONE_BITS, interp);
    lemma_accum_len(ops, vals, stored, a as int, ONE_BITS, interp);
    lemma_accum_untouched(ops, vals, stored, a as int, ONE_BITS, interp, b as int);
    lemma_accum_at(ops, vals, after_left, b as int, ONE_BITS, interp);
    lemma_accum_untouched(ops, vals, after_left, b as int, ONE_BITS, interp, a as int);
    assert(backward_spec(ops, vals, grads, z, interp) == accum_spec(
        ops,
        vals,
        after_left,
        b as int,
        ONE_BITS,
        interp,
    ));
}

/// The product rule: where the root is `a * b` with independent operands, the
/// backward pass gives `a` the contribution `1.0 * value(b)` and `b` the
/// contribution `1.0 * value(a)` — under exact arithmetic, each operand's
/// gradient is the other's forward value.
pub proof fn lemma_product_rule(
    ops: Seq<Op>,
    vals: Seq<u32>,
    grads: Seq<Option<u32>>,
    z: int,
    a: usize,
    b: usize,
    interp: spec_fn(FReq) -> u32,
)
    requires
        ops_wf(ops),
        0 <= z < ops.len(),
        grads.len() == ops.len(),
        vals.len() == ops.len(),
        ops[z] == Op::Mul(a, b),
        a != b,
        !reaches(ops, a as int, b as int),
        !reaches(ops, b as int, a as int),
    ensures
        backward_spec(ops, vals, grads, z, interp)[a as int] == Some(
            interp(FReq::Mul(ONE_BITS, vals[b as int])),
        ),
        backward_spec(ops, vals, grads, z, interp)[b as int] == Some(
            interp(FReq::Mul(ONE_BITS, vals[a as int])),
        ),
{
    assert(op_wf(ops[z], z));
    let r1 = reset_spec(ops, grads, z);
    lemma_reset_len(ops, grads, z);
    assert(reaches(ops, a as int, a as int));
    assert(reaches(ops, b as int, b as int));
    assert(reaches(ops, z, a as int));
    assert(reaches(ops, z, b as int));
    lemma_reset_char(ops, grads, z, a as int);
    lemma_reset_char(ops, grads, z, b as int);
    lemma_reset_char(ops, grads, z, z);
    let gl = interp(FReq::Mul(ONE_BITS, vals[b as int]));
    let gr = interp(FReq::Mul(ONE_BITS, vals[a as int]));
    let stored = r1.update(z, Some(ONE_BITS));
    let after_left = accum_spec(ops, vals, stored, a as int, gl, interp);
    lemma_accum_at(ops, vals, stored, a as int, gl, interp);
    lemma_accum_len(ops, vals, stored, a as int, gl, interp);
    lemma_accum_untouched(ops, vals, stored, a as int, gl, interp, b as int);
    lemma_accum_at(ops, vals, after_left, b as int, gr, interp);
    lemma_accum_untouched(ops, vals, after_left, b as int, gr, interp, a as int);
    assert(backward_spec(ops, vals, grads, z, interp) == accum_spec(
        ops,
        vals,
        after_left,
        b as int,
        gr,
        interp,
    ));
}

/// Accumulation at a shared node: where the root is `x * x` — both operands
/// the same node — the backward pass leaves `x` holding the sum of the two
/// path contributions `1.0 * value(x)`, not just one of them. Under exact
/// arithmetic that sum is `2 * value(x)`.
pub proof fn lemma_shared_node_accumulation(
    ops: Seq<Op>,
    vals: Seq<u32>,
    grads: Seq<Option<u32>>,
    z: int,
    x: usize,
    interp: spec_fn(FReq) -> u32,
)
    requires
        ops_wf(ops),
        0 <= z < ops.len(),
        grads.len() == ops.len(),
        vals.len() == ops.len(),
        ops[z] == Op::Mul(x, x),
    ensures
        backward_spec(ops, vals, grads, z, interp)[x as int] == Some(
            interp(
                FReq::Add(
                    interp(FReq::Mul(ONE_BITS, vals[x as int])),
                    interp(FReq::Mul(ONE_BITS, vals[x as int])),
                ),
            ),
        ),
{
    assert(op_wf(ops[z], z));
    let r1 = reset_spec(ops, grads, z);
    lemma_reset_len(ops, grads, z);
    assert(reaches(ops, x as int, x as int));
    assert(reaches(ops, z, x as int));
    lemma_reset_char(ops, grads, z, x as int);
    lemma_reset_char(ops, grads, z, z);
    let gx = interp(FReq::Mul(ONE_BITS, vals[x as int]));
    let stored = r1.update(z, Some(ONE_BITS));
    let after_left = accum_spec(ops, vals, stored, x as int, gx, interp);
    lemma_accum_at(ops, vals, stored, x as int, gx, interp);
    lemma_accum_len(ops, vals, stored, x as int, gx, interp);
    lemma_accum_at(ops, vals, after_left, x as int, gx, interp);
    assert(backward_spec(ops, vals, grads, z, interp) == accum_spec(
        ops,
        vals,
        after_left,
        x as int,
        gx,
        interp,
    ));
}

/// The chain rule through a composition: where the root is `log(exp(x))`, the
/// backward pass leaves `x` holding the product of the two local derivative
/// factors, `(1.0 / value(exp(x))) * exp(value(x))` — under exact arithmetic
/// that product is `1.0`, since the recorded value of the inner node is
/// `exp(value(x))`.
pub proof fn lemma_chain_rule_exp_log(
    ops: Seq<Op>,
    vals: Seq<u32>,
    grads: Seq<Option<u32>>,
    z: int,
    e: usize,
    x: usize,
    interp: spec_fn(FReq) -> u32,
)
    requires
        ops_wf(ops),
        0 <= z < ops.len(),
        grads.len() == ops.len(),
        vals.len() == ops.len(),
        ops[z] == Op::Log(e),
        ops[e as int] == Op::Exp(x),
    ensures
        backward_spec(ops, vals, grads, z, interp)[x as int] == Some(
            interp(
                FReq::Mul(
                    interp(FReq::Div(ONE_BITS, vals[e as int])),
                    interp(FReq::Exp(vals[x as int])),
                ),
            ),
        ),
{
    assert(op_wf(ops[z], z));
    assert(op_wf(ops[e as int], e as int));
    let r1 = reset_spec(ops, grads, z);
    lemma_reset_len(ops, grads, z);
    assert(reaches(ops, x as int, x as int));
    assert(reaches(ops, e as int, x as int));
    assert(reaches(ops, e as int, e as int));
    assert(reaches(ops, z, x as int));
    assert(reaches(ops, z, e as int));
    lemma_reset_char(ops, grads, z, x as int);
    lemma_reset_char(ops, grads, z, e as int);
    lemma_reset_char(ops, grads, z, z);
    let ge = interp(FReq::Div(ONE_BITS, vals[e as int]));
    let gx = interp(FReq::Mul(ge, interp(FReq::Exp(vals[x as int]))));
    let stored = r1.update(z, Some(ONE_BITS));
    assert(backward_spec(ops, vals, grads, z, interp) == accum_spec(
        ops,
        vals,
        stored,
        e as int,
        ge,
        interp,
    ));
    let stored2 = stored.update(e as int, Some(ge));
    assert(accum_spec(ops, vals, stored, e as int, ge, interp) == accum_spec(
        ops,
        vals,
        stored2,
        x as int,
        gx,
        interp,
    ));
    lemma_accum_at(ops, vals, stored2, x as int, gx, interp);
}

/// Rerunning the backward pass from the same root, with values and operations
/// unchanged, changes nothing: the reset phase makes each pass independent of
/// the gradients the previous one left behind.
pub proof fn lemma_backward_idempotent(
    ops: Seq<Op>,
    vals: Seq<u32>,
    grads: Seq<Option<u32>>,
    root: int,
    interp: spec_fn(FReq) -> u32,
)
    requires
        ops_wf(ops),
        0 <= root < ops.len(),
        grads.len() == ops.len(),
        vals.len() == ops.len(),
    ensures
        backward_spec(ops, vals, backward_spec(ops, vals, grads, root, interp), root, interp)
            == backward_spec(ops, vals, grads, root, interp),
{
    let r1 = reset_spec(ops, grads, root);
    lemma_reset_len(ops, grads, root);
    let s1 = backward_spec(ops, vals, grads, root, interp);
    lemma_accum_len(ops, vals, r1, root, ONE_BITS, interp);
    lemma_reset_len(ops, s1, root);
    assert forall|k: int| 0 <= k < ops.len() implies reset_spec(ops, s1, root)[k] == reset_spec(
        ops,
        grads,
        root,
    )[k] by {
        lemma_reset_char(ops, s1, root, k);
        lemma_reset_char(ops, grads, root, k);
        if !reaches(ops, root, k) {
            lemma_accum_untouched(ops, vals, r1, root, ONE_BITS, interp, k);
        }
    }
    assert(reset_spec(ops, s1, root) =~= reset_spec(ops, grads, root));
}

/// Congruence of the accumulate phase: two starting gradient columns that
/// agree on every node the traversal visits produce the same gradients on
/// every visited node.
pub proof fn lemma_accum_agree(
    ops: Seq<Op>,
    vals: Seq<u32>,
    g1: Seq<Option<u32>>,
    g2: Seq<Option<u32>>,
    n: int,
    g: u32,
    interp: spec_fn(FReq) -> u32,
)
    requires
        0 <= n < ops.len(),
        g1.len() == ops.len(),
        g2.len() == ops.len(),
        vals.len() == ops.len(),
        forall|j: int| #[trigger] reaches(ops, n, j) ==> g1[j] == g2[j],
    ensures
        forall|j: int| #[trigger] reaches(ops, n, j) ==> accum_spec(ops, vals, g1, n, g, interp)[j]
            == accum_spec(ops, vals, g2, n, g, interp)[j],
    decreases n,
{
    assert(reaches(ops, n, n));
    let s1 = g1.update(n, Some(combine_grad(g1[n], g, interp)));
    let s2 = g2.update(n, Some(combine_grad(g2[n], g, interp)));
    let gl = pushed_grad(push_left(ops[n], vals, g, interp), g, interp);
    let gr = pushed_grad(push_right(ops[n], vals, g, interp), g, interp);
    assert forall|j: int| #[trigger] reaches(ops, n, j) implies s1[j] == s2[j] by {
        lemma_reaches_le(ops, n, j);
    }
    let a1 = match left_of(ops[n]) {
        None => s1,
        Some(c) => if c < n {
            accum_spec(ops, vals, s1, c as int, gl, interp)
        } else {
            s1
        },
    };
    let a2 = match left_of(ops[n]) {
        None => s2,
        Some(c) => if c < n {
            accum_spec(ops, vals, s2, c as int, gl, interp)
        } else {
            s2
        },
    };
    match left_of(ops[n]) {
        None => {},
        Some(c) => if c < n {
            assert forall|j: int| #[trigger] reaches(ops, c as int, j) implies s1[j] == s2[j] by {
                assert(reaches(ops, n, j));
            }
            lemma_accum_agree(ops, vals, s1, s2, c as int, gl, interp);
            lemma_accum_len(ops, vals, s1, c as int, gl, interp);
            lemma_accum_len(ops, vals, s2, c as int, gl, interp);
        },
    }
    assert forall|j: int| #[trigger] reaches(ops, n, j) implies a1[j] == a2[j] by {
        lemma_reaches_le(ops, n, j);
        match left_of(ops[n]) {
            None => {},
            Some(c) => if c < n && !reaches(ops, c as int, j) {
                lemma_accum_untouched(ops, vals, s1, c as int, gl, interp, j);
                lemma_accum_untouched(ops, vals, s2, c as int, gl, interp, j);
            },
        }
    }
    match right_of(ops[n]) {
        None => {},
        Some(c) => if c < n {
            assert forall|j: int| #[trigger] reaches(ops, c as int, j) implies a1[j] == a2[j] by {
                assert(reaches(ops, n, j));
            }
            lemma_accum_agree(ops, vals, a1, a2, c as int, gr, interp);
        },
    }
    assert forall|j: int| #[trigger] reaches(ops, n, j) implies accum_spec(
        ops,
        vals,
        g1,
        n,
        g,
        interp,
    )[j] == accum_spec(ops, vals, g2, n, g, interp)[j] by {
        lemma_reaches_le(ops, n, j);
        match right_of(ops[n]) {
            None => {},
            Some(c) => if c < n && !reaches(ops, c as int, j) {
                lemma_accum_untouched(ops, vals, a1, c as int, gr, interp, j);
                lemma_accum_untouched(ops, vals, a2, c as int, gr, interp, j);
            },
        }
    }
}

/// A backward pass from a new root overwrites rather than mixes: on every
/// node the new root reaches — shared ancestors included — the gradients are
/// exactly those of a backward pass from the new root on a graph that had
/// never run the first pass.
pub proof fn lemma_backward_overwrites(
    ops: Seq<Op>,
    vals: Seq<u32>,
    grads: Seq<Option<u32>>,
    root1: int,
    root2: int,
    interp: spec_fn(FReq) -> u32,
)
    requires
        ops_wf(ops),
        0 <= root1 < ops.len(),
        0 <= root2 < ops.len(),
        grads.len() == ops.len(),
        vals.len() == ops.len(),
    ensures
        forall|k: int| #[trigger] reaches(ops, root2, k) ==> backward_spec(
            ops,
            vals,
            backward_spec(ops, vals, grads, root1, interp),
            root2,
            interp,
        )[k] == backward_spec(ops, vals, grads, root2, interp)[k],
{
    let s1 = backward_spec(ops, vals, grads, root1, interp);
    lemma_reset_len(ops, grads, root1);
    lemma_accum_len(ops, vals, reset_spec(ops, grads, root1), root1, ONE_BITS, interp);
    let q1 = reset_spec(ops, s1, root2);
    let q2 = reset_spec(ops, grads, root2);
    lemma_reset_len(ops, s1, root2);
    lemma_reset_len(ops, grads, root2);
    assert forall|j: int| #[trigger] reaches(ops, root2, j) implies q1[j] == q2[j] by {
        lemma_reaches_le(ops, root2, j);
        lemma_reset_char(ops, s1, root2, j);
        lemma_reset_char(ops, grads, root2, j);
    }
    lemma_accum_agree(ops, vals, q1, q2, root2, ONE_BITS, interp);
}

} // verus!
