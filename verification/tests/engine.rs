use gradval::backward::ONE_BITS;
use gradval::graph::{bits_are_zero, GradVal, Graph};
use gradval::op::{FReq, Op};

/// An evaluator mapping each primitive request to the bits of the IEEE-754
/// single-precision result.
fn alu(q: FReq) -> u32 {
    match q {
        FReq::Neg(x) => (-f32::from_bits(x)).to_bits(),
        FReq::Add(x, y) => (f32::from_bits(x) + f32::from_bits(y)).to_bits(),
        FReq::Sub(x, y) => (f32::from_bits(x) - f32::from_bits(y)).to_bits(),
        FReq::Mul(x, y) => (f32::from_bits(x) * f32::from_bits(y)).to_bits(),
        FReq::Div(x, y) => (f32::from_bits(x) / f32::from_bits(y)).to_bits(),
        FReq::Exp(x) => f32::from_bits(x).exp().to_bits(),
        FReq::Ln(x) => f32::from_bits(x).ln().to_bits(),
        FReq::Pow(x, y) => f32::from_bits(x).powf(f32::from_bits(y)).to_bits(),
    }
}

fn leaf(g: &mut Graph, v: f32) -> GradVal {
    GradVal::from_bits(g, v.to_bits())
}

fn val(g: &Graph, h: GradVal) -> f32 {
    f32::from_bits(h.value(g))
}

fn grad(g: &Graph, h: GradVal) -> Option<f32> {
    h.grad(g).map(f32::from_bits)
}

#[test]
fn seed_is_one() {
    assert_eq!(f32::from_bits(ONE_BITS), 1.0);
}

#[test]
fn forward_add_sub_mul_div() {
    let mut g = Graph::new();
    let a = leaf(&mut g, 2.0);
    let b = leaf(&mut g, 3.0);
    let s = a.add(b, &mut g, &alu);
    let d = a.sub(b, &mut g, &alu);
    let m = a.mul(b, &mut g, &alu);
    let q = a.div(b, &mut g, &alu);
    assert_eq!(val(&g, s), 5.0);
    assert_eq!(val(&g, d), -1.0);
    assert_eq!(val(&g, m), 6.0);
    assert_eq!(val(&g, q), 2.0 / 3.0);
    assert_eq!(val(&g, a), 2.0);
    assert_eq!(val(&g, b), 3.0);
}

#[test]
fn forward_neg_exp_log_pow() {
    let mut g = Graph::new();
    let a = leaf(&mut g, 2.0);
    let n = a.neg(&mut g, &alu);
    let e = a.exp(&mut g, &alu);
    let l = a.log(&mut g, &alu);
    let b = leaf(&mut g, 3.0);
    let p = a.pow(b, &mut g, &alu);
    let pf = a.powf(3.0f32.to_bits(), &mut g, &alu);
    assert_eq!(val(&g, n), -2.0);
    assert_eq!(val(&g, e), 2.0f32.exp());
    assert_eq!(val(&g, l), 2.0f32.ln());
    assert_eq!(val(&g, p), 8.0);
    assert_eq!(val(&g, pf), 8.0);
}

#[test]
fn leaf_gradient_absent_without_backward() {
    let mut g = Graph::new();
    let x = leaf(&mut g, 5.0);
    assert_eq!(grad(&g, x), None);
}

#[test]
fn identity_gradient() {
    let mut g = Graph::new();
    let x = leaf(&mut g, 5.0);
    let y = x;
    y.backward(&mut g, &alu);
    assert_eq!(grad(&g, x), Some(1.0));
}

#[test]
fn root_gradient_of_composite_is_one() {
    let mut g = Graph::new();
    let a = leaf(&mut g, 2.0);
    let b = leaf(&mut g, 3.0);
    let z = a.mul(b, &mut g, &alu);
    z.backward(&mut g, &alu);
    assert_eq!(grad(&g, z), Some(1.0));
}

#[test]
fn sum_rule() {
    let mut g = Graph::new();
    let a = leaf(&mut g, 2.5);
    let b = leaf(&mut g, -7.25);
    let z = a.add(b, &mut g, &alu);
    z.backward(&mut g, &alu);
    assert_eq!(grad(&g, a), Some(1.0));
    assert_eq!(grad(&g, b), Some(1.0));
}

#[test]
fn sub_rule() {
    let mut g = Graph::new();
    let a = leaf(&mut g, 2.5);
    let b = leaf(&mut g, 4.0);
    let z = a.sub(b, &mut g, &alu);
    z.backward(&mut g, &alu);
    assert_eq!(grad(&g, a), Some(1.0));
    assert_eq!(grad(&g, b), Some(-1.0));
}

#[test]
fn product_rule() {
    let mut g = Graph::new();
    let a = leaf(&mut g, 2.0);
    let b = leaf(&mut g, 3.0);
    let z = a.mul(b, &mut g, &alu);
    z.backward(&mut g, &alu);
    assert_eq!(grad(&g, a), Some(val(&g, b)));
    assert_eq!(grad(&g, b), Some(val(&g, a)));
}

#[test]
fn shared_node_accumulation() {
    let mut g = Graph::new();
    let x = leaf(&mut g, 3.0);
    let y = x.mul(x, &mut g, &alu);
    y.backward(&mut g, &alu);
    assert_eq!(grad(&g, x), Some(6.0));
    assert_eq!(grad(&g, x), Some(2.0 * val(&g, x)));
}

#[test]
fn chain_rule_exp_log() {
    let mut g = Graph::new();
    let x = leaf(&mut g, 0.0);
    let y = x.exp(&mut g, &alu).log(&mut g, &alu);
    y.backward(&mut g, &alu);
    assert_eq!(grad(&g, x), Some(1.0));

    let mut g2 = Graph::new();
    let x2 = leaf(&mut g2, 0.5);
    let y2 = x2.exp(&mut g2, &alu).log(&mut g2, &alu);
    y2.backward(&mut g2, &alu);
    let gx = grad(&g2, x2).unwrap();
    assert!((gx - 1.0).abs() < 1e-6, "chain-rule gradient was {}", gx);
}

#[test]
fn division_gradients() {
    let mut g = Graph::new();
    let a = leaf(&mut g, 1.0);
    let b = leaf(&mut g, 2.0);
    let z = a.div(b, &mut g, &alu);
    z.backward(&mut g, &alu);
    // d(a/b)/da = 1/b, d(a/b)/db = -a/b^2
    assert_eq!(grad(&g, a), Some(0.5));
    assert_eq!(grad(&g, b), Some(-0.25));
}

#[test]
fn power_gradients() {
    let mut g = Graph::new();
    let a = leaf(&mut g, 2.0);
    let b = leaf(&mut g, 3.0);
    let z = a.pow(b, &mut g, &alu);
    z.backward(&mut g, &alu);
    // d(a^b)/da = b * a^(b-1), d(a^b)/db = a^b * ln(a)
    assert_eq!(grad(&g, a), Some(12.0));
    let gb = grad(&g, b).unwrap();
    assert!((gb - 8.0 * 2.0f32.ln()).abs() < 1e-5);
}

#[test]
fn zero_divisor_bits_are_detected() {
    assert!(bits_are_zero(0.0f32.to_bits()));
    assert!(bits_are_zero((-0.0f32).to_bits()));
    assert!(!bits_are_zero(1.0f32.to_bits()));
    assert!(!bits_are_zero(f32::MIN_POSITIVE.to_bits()));
    assert!(!bits_are_zero(1e-40f32.to_bits()));
}

#[test]
fn backward_twice_is_identical() {
    let mut g = Graph::new();
    let a = leaf(&mut g, 1.5);
    let b = leaf(&mut g, -2.0);
    let m = a.mul(b, &mut g, &alu);
    let z = m.add(a, &mut g, &alu);
    z.backward(&mut g, &alu);
    let first = (a.grad(&g), b.grad(&g), m.grad(&g), z.grad(&g));
    z.backward(&mut g, &alu);
    let second = (a.grad(&g), b.grad(&g), m.grad(&g), z.grad(&g));
    assert_eq!(first, second);
    assert_eq!(grad(&g, a), Some(-1.0));
    assert_eq!(grad(&g, b), Some(1.5));
}

#[test]
fn backward_from_new_root_overwrites() {
    let mut g = Graph::new();
    let a = leaf(&mut g, 3.0);
    let b = leaf(&mut g, 4.0);
    let z1 = a.mul(b, &mut g, &alu);
    z1.backward(&mut g, &alu);
    assert_eq!(grad(&g, a), Some(4.0));
    let z2 = a.mul(a, &mut g, &alu);
    z2.backward(&mut g, &alu);
    // a's gradient is recomputed from scratch, not added to the stale 4.0.
    assert_eq!(grad(&g, a), Some(6.0));
    // b was not part of the new root's subgraph: its gradient is untouched.
    assert_eq!(grad(&g, b), Some(3.0));
}

/// Central finite difference of `f` at `x`, over fresh graphs.
fn central_diff<F: Fn(&mut Graph, GradVal) -> GradVal>(f: &F, x: f32, h: f32) -> f32 {
    let mut gp = Graph::new();
    let xp = leaf(&mut gp, x + h);
    let fp = f(&mut gp, xp);
    let mut gm = Graph::new();
    let xm = leaf(&mut gm, x - h);
    let fm = f(&mut gm, xm);
    (val(&gp, fp) - val(&gm, fm)) / (2.0 * h)
}

/// The gradient at `x` that a backward pass computes for `f`.
fn analytic<F: Fn(&mut Graph, GradVal) -> GradVal>(f: &F, x: f32) -> f32 {
    let mut g = Graph::new();
    let xh = leaf(&mut g, x);
    let fh = f(&mut g, xh);
    fh.backward(&mut g, &alu);
    grad(&g, xh).unwrap()
}

fn check_numeric<F: Fn(&mut Graph, GradVal) -> GradVal>(f: &F, x: f32) {
    let a = analytic(f, x);
    let fd = central_diff(f, x, 0.005);
    let tol = 1e-3 * if a.abs() > 1.0 { a.abs() } else { 1.0 };
    assert!((a - fd).abs() <= tol, "analytic {} vs finite difference {}", a, fd);
}

#[test]
fn numeric_approximation_add_sub_neg() {
    check_numeric(&|g: &mut Graph, x: GradVal| { let c = leaf(g, 3.0); x.add(c, g, &alu) }, 1.5);
    check_numeric(&|g: &mut Graph, x: GradVal| { let c = leaf(g, 3.0); x.sub(c, g, &alu) }, 1.5);
    check_numeric(&|g: &mut Graph, x: GradVal| { let c = leaf(g, 3.0); c.sub(x, g, &alu) }, 1.5);
    check_numeric(&|g: &mut Graph, x: GradVal| x.neg(g, &alu), 1.5);
}

#[test]
fn numeric_approximation_mul_div() {
    check_numeric(&|g: &mut Graph, x: GradVal| { let c = leaf(g, 3.0); x.mul(c, g, &alu) }, 1.5);
    check_numeric(&|g: &mut Graph, x: GradVal| { let c = leaf(g, 3.0); x.div(c, g, &alu) }, 1.5);
    check_numeric(&|g: &mut Graph, x: GradVal| { let c = leaf(g, 3.0); c.div(x, g, &alu) }, 1.5);
}

#[test]
fn numeric_approximation_exp_log_pow() {
    check_numeric(&|g: &mut Graph, x: GradVal| x.exp(g, &alu), 0.5);
    check_numeric(&|g: &mut Graph, x: GradVal| x.log(g, &alu), 2.0);
    // The base side of a power, then the exponent side.
    check_numeric(&|g: &mut Graph, x: GradVal| x.powf(2.5f32.to_bits(), g, &alu), 1.5);
    check_numeric(&|g: &mut Graph, x: GradVal| { let c = leaf(g, 2.0); c.pow(x, g, &alu) }, 1.2);
}

#[test]
fn shared_subexpression_diamond() {
    // z = (x + x) * x = 2x^2, so dz/dx = 4x: one contribution through the
    // right operand and two through the shared sum.
    let mut g = Graph::new();
    let x = leaf(&mut g, 1.5);
    let s = x.add(x, &mut g, &alu);
    let z = s.mul(x, &mut g, &alu);
    z.backward(&mut g, &alu);
    assert_eq!(grad(&g, x), Some(6.0));
}

#[test]
fn operation_symbols() {
    assert_eq!(Op::NoOp.op_symb(), "NOOP");
    assert_eq!(Op::Neg(0).op_symb(), "-");
    assert_eq!(Op::Exp(0).op_symb(), "exp");
    assert_eq!(Op::Log(0).op_symb(), "log");
    assert_eq!(Op::Pow(0, 1).op_symb(), "^");
    assert_eq!(Op::Add(0, 1).op_symb(), "+");
    assert_eq!(Op::Sub(0, 1).op_symb(), "-");
    assert_eq!(Op::Mul(0, 1).op_symb(), "*");
    assert_eq!(Op::Div(0, 1).op_symb(), "/");
}

#[test]
fn graph_length_grows_per_node() {
    let mut g = Graph::new();
    assert_eq!(g.len(), 0);
    let a = leaf(&mut g, 1.0);
    assert_eq!(g.len(), 1);
    let b = a.exp(&mut g, &alu);
    assert_eq!(g.len(), 2);
    // powf records two nodes: the wrapped exponent leaf, then the power.
    let _c = b.powf(2.0f32.to_bits(), &mut g, &alu);
    assert_eq!(g.len(), 4);
}
