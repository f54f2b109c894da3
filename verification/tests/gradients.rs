//! Gradients: the tape, the rules, and finite-difference checks of both.

use gtensor::dtype::Dtype;
use gtensor::error::Error;
use gtensor::nodes::Graph;
use gtensor::products::{answer_here, finish_node, finish_slopes, node_products, slope_products};
use gtensor::scalar::{Arith, Scalars};
use gtensor::tape::{
    backward, begin_backward, begin_grad, end_backward, end_grad, grad, zero_grad, Backward, Pass,
};
use gtensor::tensor::Tensor;
use gtensor::{ad, ad_axes, ad_composed, ad_fused, classes, extremes, nn, slopes, softmax};

/// IEEE 754 numbers.
struct Ieee;

impl Arith<f32> for Ieee {
    fn zero() -> f32 {
        0.0
    }
    fn one() -> f32 {
        1.0
    }
    fn lowest() -> f32 {
        f32::NEG_INFINITY
    }
    fn undefined() -> f32 {
        f32::NAN
    }
    fn plus(x: f32, y: f32) -> f32 {
        x + y
    }
    fn minus(x: f32, y: f32) -> f32 {
        x - y
    }
    fn times(x: f32, y: f32) -> f32 {
        x * y
    }
    fn over(x: f32, y: f32) -> f32 {
        x / y
    }
    fn negated(x: f32) -> f32 {
        -x
    }
    fn above(x: f32, y: f32) -> bool {
        x > y
    }
    fn at_least(x: f32, y: f32) -> bool {
        x >= y
    }
    fn same(x: f32, y: f32) -> bool {
        x == y
    }
    fn greater(x: f32, y: f32) -> f32 {
        x.max(y)
    }
    fn held(x: f32, low: f32, high: f32) -> f32 {
        x.clamp(low, high)
    }
    fn scientific(m: i64, e: i32) -> f32 {
        format!("{m}e{e}").parse().unwrap()
    }
    fn magnitude(x: f32) -> f32 {
        x.abs()
    }
    fn exponential(x: f32) -> f32 {
        x.exp()
    }
    fn logarithm(x: f32) -> f32 {
        x.ln()
    }
    fn root(x: f32) -> f32 {
        x.sqrt()
    }
    fn tangent(x: f32) -> f32 {
        x.tanh()
    }
    fn sine(x: f32) -> f32 {
        x.sin()
    }
    fn cosine(x: f32) -> f32 {
        x.cos()
    }
    fn power(x: f32, p: f32) -> f32 {
        x.powf(p)
    }
    fn count(n: usize) -> f32 {
        n as f32
    }
    fn ratio(n: i64, d: i64) -> f32 {
        n as f32 / d as f32
    }
}

impl Arith<f64> for Ieee {
    fn zero() -> f64 {
        0.0
    }
    fn one() -> f64 {
        1.0
    }
    fn lowest() -> f64 {
        f64::NEG_INFINITY
    }
    fn undefined() -> f64 {
        f64::NAN
    }
    fn plus(x: f64, y: f64) -> f64 {
        x + y
    }
    fn minus(x: f64, y: f64) -> f64 {
        x - y
    }
    fn times(x: f64, y: f64) -> f64 {
        x * y
    }
    fn over(x: f64, y: f64) -> f64 {
        x / y
    }
    fn negated(x: f64) -> f64 {
        -x
    }
    fn above(x: f64, y: f64) -> bool {
        x > y
    }
    fn at_least(x: f64, y: f64) -> bool {
        x >= y
    }
    fn same(x: f64, y: f64) -> bool {
        x == y
    }
    fn greater(x: f64, y: f64) -> f64 {
        x.max(y)
    }
    fn held(x: f64, low: f64, high: f64) -> f64 {
        x.clamp(low, high)
    }
    fn scientific(m: i64, e: i32) -> f64 {
        format!("{m}e{e}").parse().unwrap()
    }
    fn magnitude(x: f64) -> f64 {
        x.abs()
    }
    fn exponential(x: f64) -> f64 {
        x.exp()
    }
    fn logarithm(x: f64) -> f64 {
        x.ln()
    }
    fn root(x: f64) -> f64 {
        x.sqrt()
    }
    fn tangent(x: f64) -> f64 {
        x.tanh()
    }
    fn sine(x: f64) -> f64 {
        x.sin()
    }
    fn cosine(x: f64) -> f64 {
        x.cos()
    }
    fn power(x: f64, p: f64) -> f64 {
        x.powf(p)
    }
    fn count(n: usize) -> f64 {
        n as f64
    }
    fn ratio(n: i64, d: i64) -> f64 {
        n as f64 / d as f64
    }
}

impl Scalars for Ieee {
    type F = f32;
    type D = f64;
    fn widen(x: f32) -> f64 {
        x as f64
    }
    fn narrow(x: f64) -> f32 {
        x as f32
    }
    fn truncate_f32(x: f32) -> i64 {
        x as i64
    }
    fn truncate_f64(x: f64) -> i64 {
        x as i64
    }
    fn integer_f32(i: i64) -> f32 {
        i as f32
    }
    fn integer_f64(i: i64) -> f64 {
        i as f64
    }
    fn natural_f64(n: u64) -> f64 {
        n as f64
    }
}

type T = Tensor<Ieee>;
type G = Graph<Ieee>;
type R = Result<T, Error>;

fn t(data: &[f32], shape: &[usize]) -> T {
    Tensor::from_slice_f32(data, shape).unwrap()
}

fn leaf(g: &mut G, data: &[f32], shape: &[usize]) -> T {
    g.with_requires_grad(t(data, shape))
}

fn total(g: &mut G, x: &T) -> T {
    ad::sum(g, x, None, false).unwrap()
}

/// Central differences of the sum of `f`.
fn fd_grad(f: impl Fn(&mut G, &T) -> R, x: &T, eps: f32) -> Vec<f32> {
    let base = x.to_vec_f32().unwrap();
    let mut out = vec![0.0f32; base.len()];
    for i in 0..base.len() {
        let mut hi = base.clone();
        let mut lo = base.clone();
        hi[i] += eps;
        lo[i] -= eps;
        let mut g: G = Graph::new();
        let yh = f(&mut g, &t(&hi, x.shape())).unwrap();
        let yl = f(&mut g, &t(&lo, x.shape())).unwrap();
        let yh = total(&mut g, &yh).item_f32().unwrap();
        let yl = total(&mut g, &yl).item_f32().unwrap();
        out[i] = (yh - yl) / (2.0 * eps);
    }
    out
}

fn check(name: &str, f: impl Fn(&mut G, &T) -> R, x: &T, tol: f32) {
    let mut graph: G = Graph::new();
    let x = graph.with_requires_grad(x.copy().unwrap());
    zero_grad(&mut graph, &[&x]);
    let y = f(&mut graph, &x).unwrap();
    let loss = total(&mut graph, &y);
    let g = grad(&mut graph, &loss, &[&x]).unwrap();
    let analytic = g[0].to_vec_f32().unwrap();
    let numeric = fd_grad(f, &x.detach(), 1e-3);
    assert_eq!(analytic.len(), numeric.len(), "{name} len");
    for (i, (a, n)) in analytic.iter().zip(numeric.iter()).enumerate() {
        let ok = (a - n).abs() <= tol + 0.05 * n.abs();
        assert!(ok, "{name}[{i}] analytic={a} fd={n}");
    }
}

/// The worst error of `a` against `b`, relative to the greater of the two and `floor`.
fn rel_err(a: &[f32], b: &[f32], floor: f32) -> f32 {
    let mut worst = 0f32;
    for (x, y) in a.iter().zip(b) {
        let d = (x - y).abs() / (x.abs().max(y.abs()).max(floor));
        worst = worst.max(d);
    }
    worst
}

/// Central differences of `f` over every element of `x`.
fn numeric_grad(x: &T, f: &dyn Fn(&T) -> f64) -> Vec<f32> {
    let base = x.to_vec_f32().unwrap();
    let h = 1e-3f32;
    let mut out = vec![0f32; base.len()];
    for i in 0..base.len() {
        let mut p = base.clone();
        p[i] += h;
        let mut m = base.clone();
        m[i] -= h;
        let fp = f(&t(&p, x.shape()));
        let fm = f(&t(&m, x.shape()));
        out[i] = ((fp - fm) / (2.0 * h as f64)) as f32;
    }
    out
}

#[test]
fn mul_grad() {
    let mut g: G = Graph::new();
    let a = leaf(&mut g, &[2.0, 3.0], &[2]);
    let b = leaf(&mut g, &[4.0, 5.0], &[2]);
    let p = ad::mul(&mut g, &a, &b).unwrap();
    let y = total(&mut g, &p);
    let gs = grad(&mut g, &y, &[&a, &b]).unwrap();
    assert_eq!(gs[0].to_vec_f32().unwrap(), vec![4.0, 5.0]);
    assert_eq!(gs[1].to_vec_f32().unwrap(), vec![2.0, 3.0]);
}

#[test]
fn relu_zero_subgradient() {
    let mut g: G = Graph::new();
    let x = leaf(&mut g, &[-1.0, 0.0, 2.0], &[3]);
    let r = ad::relu(&mut g, &x).unwrap();
    let y = total(&mut g, &r);
    let gs = grad(&mut g, &y, &[&x]).unwrap();
    assert_eq!(gs[0].to_vec_f32().unwrap(), vec![0.0, 0.0, 1.0]);
}

#[test]
fn diamond_runs_each_vjp_once() {
    // y = (x + x) * (x + x) = 4x^2  ->  dy/dx = 8x = 16 at x = 2.
    // A tree walk double-counts the shared `x + x` node.
    let mut g: G = Graph::new();
    let x = leaf(&mut g, &[2.0], &[]);
    let s = ad::add(&mut g, &x, &x).unwrap();
    let y = ad::mul(&mut g, &s, &s).unwrap();
    let gs = grad(&mut g, &y, &[&x]).unwrap();
    assert!((gs[0].item_f32().unwrap() - 16.0).abs() < 1e-5);
}

#[test]
fn grad_is_fresh_across_rebuilt_graphs() {
    let mut g: G = Graph::new();
    let x = leaf(&mut g, &[3.0], &[]);
    let y0 = ad::mul(&mut g, &x, &x).unwrap();
    let g0 = grad(&mut g, &y0, &[&x]).unwrap();
    let y1 = ad::mul(&mut g, &x, &x).unwrap();
    let g1 = grad(&mut g, &y1, &[&x]).unwrap();
    assert_eq!(g0[0].item_f32().unwrap(), 6.0);
    assert_eq!(g1[0].item_f32().unwrap(), 6.0);
}

#[test]
fn backward_accumulates_until_zeroed() {
    let mut g: G = Graph::new();
    let x = leaf(&mut g, &[2.0], &[]);
    let y = ad::mul(&mut g, &x, &x).unwrap();
    let first = backward(&mut g, &y).unwrap();
    assert_eq!(first[0].1.item_f32().unwrap(), 4.0);
    let y = ad::mul(&mut g, &x, &x).unwrap();
    let second = backward(&mut g, &y).unwrap();
    assert_eq!(second[0].1.item_f32().unwrap(), 8.0);

    zero_grad(&mut g, &[&x]);
    let y = ad::mul(&mut g, &x, &x).unwrap();
    let after_zero = backward(&mut g, &y).unwrap();
    assert_eq!(after_zero[0].1.item_f32().unwrap(), 4.0);
}

#[test]
fn grad_clears_every_reachable_leaf_and_sums_shared_dag() {
    let mut g: G = Graph::new();
    let x = leaf(&mut g, &[2.0], &[]);
    let y = leaf(&mut g, &[3.0], &[]);
    let unrequested = leaf(&mut g, &[5.0], &[]);

    // Poison an unrequested leaf with an explicitly accumulated gradient.
    let square = ad::mul(&mut g, &unrequested, &unrequested).unwrap();
    backward(&mut g, &square).unwrap();
    assert_eq!(g.stored(&unrequested).unwrap().item_f32().unwrap(), 10.0);

    // The shared node must still sum both paths within this one DAG.
    let shared = ad::add(&mut g, &x, &y).unwrap();
    let product = ad::mul(&mut g, &shared, &shared).unwrap();
    let output = ad::add(&mut g, &product, &unrequested).unwrap();
    let gs = grad(&mut g, &output, &[&x, &y]).unwrap();
    assert_eq!(gs[0].item_f32().unwrap(), 10.0);
    assert_eq!(gs[1].item_f32().unwrap(), 10.0);

    // Although it was not requested, this reachable leaf was touched by
    // reverse mode and therefore must contain only this call's gradient.
    assert_eq!(g.stored(&unrequested).unwrap().item_f32().unwrap(), 1.0);
}

#[test]
fn grad_returns_zero_for_a_stale_disconnected_input() {
    let mut g: G = Graph::new();
    let connected = leaf(&mut g, &[2.0], &[]);
    let disconnected = leaf(&mut g, &[4.0], &[]);

    let square = ad::mul(&mut g, &disconnected, &disconnected).unwrap();
    backward(&mut g, &square).unwrap();
    let output = ad::mul(&mut g, &connected, &connected).unwrap();
    let gs = grad(&mut g, &output, &[&connected, &disconnected]).unwrap();

    assert_eq!(gs[0].item_f32().unwrap(), 4.0);
    assert_eq!(gs[1].item_f32().unwrap(), 0.0);
    assert!(g.stored(&disconnected).is_none());
}

#[test]
fn fresh_grad_has_positive_convex_same_batch_secant() {
    let mut g: G = Graph::new();
    let mut p = leaf(&mut g, &[1.0, -2.0, 0.5], &[3]);

    let square = ad::mul(&mut g, &p, &p).unwrap();
    let sum = total(&mut g, &square);
    let loss = ad_composed::mul_scalar(&mut g, &sum, 0.5).unwrap();
    let g0 = grad(&mut g, &loss, &[&p]).unwrap().remove(0);
    let p0 = p.to_vec_f32().unwrap();
    let g0v = g0.to_vec_f32().unwrap();

    // Keep the same leaf/gradient slot while stepping the persistent
    // parameter along -g0, just as a same-batch secant probe does.
    let step_size = 0.1_f32;
    let mut values = p0.clone();
    for (value, &g) in values.iter_mut().zip(&g0v) {
        *value -= step_size * g;
    }
    p.overwrite_f32(&values).unwrap();
    let p1 = p.to_vec_f32().unwrap();

    let square = ad::mul(&mut g, &p, &p).unwrap();
    let sum = total(&mut g, &square);
    let loss = ad_composed::mul_scalar(&mut g, &sum, 0.5).unwrap();
    let g1 = grad(&mut g, &loss, &[&p]).unwrap().remove(0);
    let g1v = g1.to_vec_f32().unwrap();

    let secant: f32 = p1
        .iter()
        .zip(&p0)
        .zip(g1v.iter().zip(&g0v))
        .map(|((&new_p, &old_p), (&new_g, &old_g))| (new_p - old_p) * (new_g - old_g))
        .sum();
    // Historical accumulation would make g1 = grad(p0) + grad(p1), producing
    // -0.4725 here instead of the fresh quadratic secant +0.0525.
    assert!(secant > 0.0, "convex same-batch secant was {secant}");
    assert!((secant - 0.0525).abs() < 1e-5);
}

#[test]
fn stop_gradient_zeros() {
    let mut g: G = Graph::new();
    let x = leaf(&mut g, &[3.0], &[]);
    let y = ad::stop_gradient(&mut g, &x).unwrap();
    let gs = grad(&mut g, &y, &[&x]).unwrap();
    assert_eq!(gs[0].item_f32().unwrap(), 0.0);
}

#[test]
fn fused_sigmoid_and_silu_grads_match_fd() {
    let n = 48usize;
    let v: Vec<f32> = (0..n).map(|i| (i as f32 % 9.0) / 4.0 - 1.0).collect();
    let x0 = t(&v, &[n]);
    let w: Vec<f32> = (0..n).map(|i| 0.3 + (i % 5) as f32 * 0.1).collect();
    let wt = t(&w, &[n]);

    for (name, op) in [
        ("sigmoid", ad::sigmoid as fn(&mut G, &T) -> R),
        ("silu", ad::silu as fn(&mut G, &T) -> R),
    ] {
        let obj = |x: &T| -> f64 {
            let mut g: G = Graph::new();
            let y = op(&mut g, x).unwrap();
            let p = ad::mul(&mut g, &y, &wt).unwrap();
            total(&mut g, &p).to_vec_f32().unwrap()[0] as f64
        };
        let mut g: G = Graph::new();
        let xg = g.with_requires_grad(x0.clone());
        let y = op(&mut g, &xg).unwrap();
        let p = ad::mul(&mut g, &y, &wt).unwrap();
        let loss = total(&mut g, &p);
        let gs = grad(&mut g, &loss, &[&xg]).unwrap();
        let ng = numeric_grad(&x0, &obj);
        let e = rel_err(&gs[0].to_vec_f32().unwrap(), &ng, 1e-3);
        println!("{name} fused rel err: {e:.2e}");
        assert!(e < 2e-2, "{name} grad mismatch {e}");
    }
}

fn composed(g: &mut G, x: &T, w: &[&T], eps: f32) -> T {
    let n = ad::rms_norm(g, x, eps).unwrap();
    let xn = ad::mul(g, &n, w[5]).unwrap();
    let ones_col = t(
        &vec![1.0; x.shape()[0] * x.shape()[1]],
        &[x.shape()[0], x.shape()[1], 1],
    );
    let xna = ad_axes::cat(g, &[&xn, &ones_col], 2).unwrap();
    let a = nn::linear(g, &xna, w[0], None).unwrap();
    let a = ad::sigmoid(g, &a).unwrap();
    let b = nn::linear(g, &xn, w[1], None).unwrap();
    let h = ad::gated_scan(g, &a, &b).unwrap();
    let h = ad::mul(g, &h, w[6]).unwrap();
    let h = ad::silu(g, &h).unwrap();
    let out = nn::linear(g, &h, w[2], None).unwrap();
    let x = ad::add(g, x, &out).unwrap();
    let n = ad::rms_norm(g, &x, eps).unwrap();
    let xn2 = ad::mul(g, &n, w[7]).unwrap();
    let f1 = nn::linear(g, &xn2, w[3], None).unwrap();
    let f1 = ad::silu(g, &f1).unwrap();
    let f2 = nn::linear(g, &f1, w[4], None).unwrap();
    let f2 = ad::mul(g, &f2, w[8]).unwrap();
    ad::add(g, &x, &f2).unwrap()
}

fn block(g: &mut G, x: &T, w: &[&T], eps: f32) -> T {
    ad_fused::fused_block(
        g, x, w[0], w[1], w[2], w[3], w[4], w[5], w[6], w[7], w[8], eps,
    )
    .unwrap()
}

#[test]
fn fused_block_matches_composed_values_and_grads() {
    let (b, t_, d) = (2usize, 5usize, 8usize);
    let mk = |n: usize, seed: u64| {
        let v: Vec<f32> = (0..n)
            .map(|i| ((i * 31 + seed as usize * 7) % 17) as f32 / 9.0 - 0.9)
            .collect();
        t(&v, &[n])
    };
    let v: Vec<f32> = (0..b * t_ * d)
        .map(|i| ((i * 13 % 11) as f32) / 5.0 - 1.0)
        .collect();
    let x0 = t(&v, &[b, t_, d]);
    let (wa0, wb0, wo0) = (
        mk((d + 1) * d, 1)
            .reshape(&[(d + 1) as isize, d as isize])
            .unwrap(),
        mk(d * d, 2).reshape(&[d as isize, d as isize]).unwrap(),
        mk(d * d, 3).reshape(&[d as isize, d as isize]).unwrap(),
    );
    let (wf10, wf20) = (
        mk(d * 2 * d, 4)
            .reshape(&[d as isize, (2 * d) as isize])
            .unwrap(),
        mk(d * 2 * d, 5)
            .reshape(&[(2 * d) as isize, d as isize])
            .unwrap(),
    );
    let (g10, g20, g30, g40) = (mk(d, 6), mk(d, 7), mk(d, 8), mk(d, 9));
    for g0 in [&g10, &g20, &g30, &g40] {
        assert_eq!(g0.shape(), &[d]);
    }
    let eps = 1e-5f32;
    let plain = [&wa0, &wb0, &wo0, &wf10, &wf20, &g10, &g20, &g30, &g40];

    // Values: fused == composed
    let mut g: G = Graph::new();
    let yc = composed(&mut g, &x0, &plain, eps);
    let yf = block(&mut g, &x0, &plain, eps);
    let e_val = rel_err(&yc.to_vec_f32().unwrap(), &yf.to_vec_f32().unwrap(), 1e-4);
    println!("value rel err: {e_val:.2e}");
    assert!(e_val < 1e-5, "fused forward mismatch {e_val}");

    // Gradients w.r.t. every input via a weighted scalar objective.
    let v: Vec<f32> = (0..b * t_ * d).map(|i| 0.5 + (i % 4) as f32 * 0.1).collect();
    let wt = t(&v, &[b, t_, d]);
    let grad_all = |fwd: &dyn Fn(&mut G, &T, &[&T], f32) -> T| -> Vec<Vec<f32>> {
        let mut g: G = Graph::new();
        let xr = g.with_requires_grad(x0.clone());
        let leaves: Vec<T> = plain
            .iter()
            .map(|w| g.with_requires_grad((*w).clone()))
            .collect();
        let w: Vec<&T> = leaves.iter().collect();
        let y = fwd(&mut g, &xr, &w, eps);
        let p = ad::mul(&mut g, &y, &wt).unwrap();
        let loss = total(&mut g, &p);
        let mut inputs: Vec<&T> = vec![&xr];
        inputs.extend(w.iter());
        let gs = grad(&mut g, &loss, &inputs).unwrap();
        gs.iter().map(|g| g.to_vec_f32().unwrap()).collect()
    };
    let gc = grad_all(&composed);
    let gs = grad_all(&block);
    let names = ["x", "wa", "wb", "wo", "wf1", "wf2", "g1", "g2", "g3", "g4"];
    let mut worst = 0f32;
    for (i, (g, name)) in gs.iter().zip(names).enumerate() {
        let e = rel_err(g, &gc[i], 1e-4);
        worst = worst.max(e);
        println!("  grad {name:4} rel err {e:.2e}");
    }
    assert!(worst < 2e-3, "fused backward mismatch {worst}");
}

#[test]
fn embedding_fused_grad_matches_finite_differences() {
    let (v, d, n) = (8usize, 4usize, 6usize);
    let table: Vec<f32> = (0..v * d).map(|i| (i as f32 % 5.0) - 2.0).collect();
    let table0 = t(&table, &[v, d]);
    let idx: T = Tensor::from_vec_i64(vec![0, 3, 1, 7, 2, 5], &[n]).unwrap();
    let w: Vec<f32> = (0..n * d).map(|i| 0.5 + (i % 3) as f32).collect();
    let wt = t(&w, &[n, d]);

    let obj = |x: &T| -> f64 {
        let mut g: G = Graph::new();
        let y = ad_fused::embedding_fused(&mut g, x, &idx).unwrap();
        let p = ad::mul(&mut g, &y, &wt).unwrap();
        total(&mut g, &p).to_vec_f32().unwrap()[0] as f64
    };
    let mut g: G = Graph::new();
    let tg = g.with_requires_grad(table0.clone());
    let y = ad_fused::embedding_fused(&mut g, &tg, &idx).unwrap();
    let p = ad::mul(&mut g, &y, &wt).unwrap();
    let loss = total(&mut g, &p);
    let gs = grad(&mut g, &loss, &[&tg]).unwrap();
    let ng = numeric_grad(&table0, &obj);
    let e = rel_err(&gs[0].to_vec_f32().unwrap(), &ng, 1e-3);
    println!("embedding rel err: {e:.2e}");
    assert!(e < 2e-2, "embedding grad mismatch {e}");
}

#[test]
fn masked_ce_grad_matches_finite_differences() {
    let (n, v) = (5usize, 6usize);
    let logits: Vec<f32> = (0..n * v).map(|i| (i as f32 % 7.0) - 3.0).collect();
    let logits0 = t(&logits, &[n, v]);
    let targets: T = Tensor::from_vec_i64(vec![0, 2, 5, 1, 4], &[n]).unwrap();
    let mask = t(&[1.0, 0.0, 1.0, 1.0, 0.0], &[n]);

    // f64 objective: f32 finite differences lose ~12% to cancellation on the
    // tiny gradients of near-zero softmax entries.
    let mk: Vec<f32> = mask.to_vec_f32().unwrap();
    let tgv: Vec<i64> = targets.to_vec_i64().unwrap();
    let count: f64 = mk.iter().map(|&m| m as f64).sum();
    let obj = |l: &T| -> f64 {
        let lv = l.to_vec_f32().unwrap();
        let mut loss = 0f64;
        for i in 0..n {
            if mk[i] == 0.0 {
                continue;
            }
            let row = &lv[i * v..i * v + v];
            let m = row.iter().copied().fold(f32::NEG_INFINITY, f32::max);
            let ex: Vec<f64> = row.iter().map(|x| ((x - m) as f64).exp()).collect();
            let s: f64 = ex.iter().sum();
            loss -= (ex[tgv[i] as usize] / s).ln();
        }
        loss / count
    };
    let mut g: G = Graph::new();
    let lg = g.with_requires_grad(logits0.clone());
    let loss = ad_fused::masked_ce(&mut g, &lg, &targets, &mask).unwrap();
    let gs = grad(&mut g, &loss, &[&lg]).unwrap();
    let ng = numeric_grad(&logits0, &obj);
    let e = rel_err(&gs[0].to_vec_f32().unwrap(), &ng, 1e-3);
    println!("masked_ce rel err: {e:.2e}");
    assert!(e < 2e-2, "masked_ce grad mismatch {e}");

    // Masked positions must receive exactly zero gradient.
    let gv = gs[0].to_vec_f32().unwrap();
    for row in 0..n {
        if mask.to_vec_f32().unwrap()[row] == 0.0 {
            for k in 0..v {
                assert_eq!(gv[row * v + k], 0.0, "masked row {row} got gradient");
            }
        }
    }
}

#[test]
fn unary_grads() {
    let x = t(&[0.3, -0.2, 0.8, 1.1], &[4]);
    let up = t(&[0.4, 1.0, 2.2, 3.0], &[4]);
    let mixed = t(&[0.4, -1.0, 2.2, -0.3], &[4]);
    check("exp", |g, x| ad::exp(g, x), &x, 2e-2);
    check("tanh", |g, x| ad::tanh(g, x), &x, 2e-2);
    check("sigmoid", |g, x| ad::sigmoid(g, x), &x, 2e-2);
    check("silu", |g, x| ad::silu(g, x), &x, 3e-2);
    check("softplus", |g, x| ad::softplus(g, x), &x, 2e-2);
    check("sqrt", |g, x| ad::sqrt(g, x), &up, 2e-2);
    check("log", |g, x| ad::log(g, x), &up, 2e-2);
    check("abs", |g, x| ad::abs(g, x), &mixed, 2e-2);
    check("leaky", |g, x| ad::leaky_relu(g, x, 0.1), &mixed, 2e-2);
}

#[test]
fn binary_and_reduce_grads() {
    let a = t(&[0.5, -0.25, 0.75, 1.0], &[2, 2]);
    check("relu", |g, x| ad::relu(g, x), &a, 2e-2);
    check("sum", |g, x| ad::sum(g, x, Some(&[-1]), false), &a, 1e-3);
    check("mean", |g, x| ad::mean(g, x, Some(&[0]), false), &a, 1e-3);
    check("neg", |g, x| ad_composed::neg(g, x), &a, 1e-3);
}

#[test]
fn matmul_linear_grad() {
    let x = t(&[0.2, 0.4, -0.1, 0.3], &[2, 2]);
    check(
        "matmul_r",
        |g, x| {
            let w = t(&[1.0, 0.2, 0.0, 0.5], &[2, 2]);
            ad::matmul(g, x, &w)
        },
        &x,
        3e-2,
    );
    check(
        "linear",
        |g, x| {
            let w = t(&[0.5, -0.2, 0.1, 0.3], &[2, 2]);
            let b = t(&[0.1, -0.1], &[2]);
            nn::linear(g, x, &w, Some(&b))
        },
        &x,
        3e-2,
    );
}

#[test]
fn div_mul_grad() {
    let x = t(&[0.5, 1.5, 2.0, 0.8], &[4]);
    check(
        "div",
        |g, x| ad::div(g, x, &t(&[1.0, 2.0, 0.5, 1.5], &[4])),
        &x,
        3e-2,
    );
    check(
        "mul",
        |g, x| ad::mul(g, x, &t(&[1.0, -0.5, 0.3, 2.0], &[4])),
        &x,
        2e-2,
    );
}

#[test]
fn transpose_cat_stack_grad() {
    let x = t(&[1.0, 2.0, 3.0, 4.0], &[2, 2]);
    check("transpose", |g, x| ad::transpose(g, x), &x, 1e-3);
    check(
        "cat",
        |g, x| {
            let b = t(&[5.0, 6.0], &[1, 2]);
            let row = ad::reshape(g, x, &[1, 2])?;
            ad_axes::cat(g, &[&row, &b], 0)
        },
        &t(&[1.0, 2.0], &[2]),
        1e-3,
    );
    check(
        "stack",
        |g, x| {
            let b = t(&[3.0, 4.0], &[2]);
            ad_axes::stack(g, &[x, &b], 0)
        },
        &t(&[1.0, 2.0], &[2]),
        1e-3,
    );
}

#[test]
fn take_gather_embed_grad() {
    let x = t(&[0.2, 0.4, 0.6, 0.8], &[2, 2]);
    check(
        "take",
        |g, x| ad::take(g, x, 1, &Tensor::from_slice_i64(&[1, 0], &[2]).unwrap()),
        &x,
        1e-3,
    );
    let w = t(&[0.1, 0.2, 0.3, 0.4, 0.5, 0.6], &[3, 2]);
    check(
        "embed",
        |g, x| classes::embedding(g, x, &Tensor::from_slice_i64(&[0, 2, 1], &[3]).unwrap()),
        &w,
        1e-3,
    );
    check(
        "gather",
        |g, x| {
            let index = Tensor::from_slice_i64(&[1, 0, 1, 1], &[2, 2]).unwrap();
            ad::gather(g, x, 1, &index)
        },
        &x,
        1e-3,
    );
}

#[test]
fn amax_first_index_grad() {
    let x = t(&[1.0, 3.0, 2.0, 0.5], &[4]);
    check("amax", |g, x| ad_axes::amax(g, x, 0, false), &x, 1e-3);
}

#[test]
fn stop_gradient_zero() {
    let mut g: G = Graph::new();
    let x = leaf(&mut g, &[1.5, -0.5], &[2]);
    let a = ad::stop_gradient(&mut g, &x).unwrap();
    let b = ad::stop_gradient(&mut g, &x).unwrap();
    let y = ad::mul(&mut g, &a, &b).unwrap();
    let s = total(&mut g, &y);
    let gs = grad(&mut g, &s, &[&x]).unwrap();
    assert!(gs[0].to_vec_f32().unwrap().iter().all(|v| *v == 0.0));
}

#[test]
fn unary_roundtrip_and_grad() {
    let mut g: G = Graph::new();
    let x = leaf(&mut g, &[0.2, 0.5, 1.5], &[3]);
    let e = ad::exp(&mut g, &x).unwrap();
    let y = total(&mut g, &e);
    let gs = grad(&mut g, &y, &[&x]).unwrap();
    let want: Vec<f32> = x.to_vec_f32().unwrap().into_iter().map(|t| t.exp()).collect();
    let got = gs[0].to_vec_f32().unwrap();
    for (a, b) in got.iter().zip(want) {
        assert!((a - b).abs() < 1e-5);
    }
    ad::abs(&mut g, &x).unwrap();
    ad::log(&mut g, &t(&[0.2, 0.5, 1.5], &[3])).unwrap();
    ad::softplus(&mut g, &x).unwrap();
    ad::leaky_relu(&mut g, &x, 0.01).unwrap();
    ad::clamp(&mut g, &x, -1.0, 1.0).unwrap();
}

#[test]
fn gelu_grad_finite() {
    let mut g: G = Graph::new();
    let x = leaf(&mut g, &[-1.0, 0.0, 1.0], &[3]);
    let y = ad::gelu(&mut g, &x).unwrap();
    let s = total(&mut g, &y);
    let gs = grad(&mut g, &s, &[&x]).unwrap();
    assert!(gs[0].to_vec_f32().unwrap().iter().all(|v| v.is_finite()));
}

#[test]
fn gated_scan_gradients_match_finite_differences() {
    let (b, t_, d) = (2usize, 5usize, 3usize);
    let n = b * t_ * d;
    // Gates in (0,1) via sigmoid of a raw tensor, inputs arbitrary.
    let araw: Vec<f32> = (0..n).map(|i| ((i * 37 % 23) as f32 / 23.0) - 0.5).collect();
    let bs: Vec<f32> = (0..n).map(|i| ((i * 17 % 19) as f32 / 19.0) - 0.5).collect();
    let a0 = t(&araw, &[b, t_, d]);
    let b0 = t(&bs, &[b, t_, d]);
    // weights make the scalar objective non-trivial
    let w: Vec<f32> = (0..n).map(|i| ((i * 13 % 7) as f32 / 7.0) + 0.2).collect();
    let wt = t(&w, &[b, t_, d]);

    let run = |g: &mut G, a: &T, bb: &T| -> T {
        let s = ad::sigmoid(g, a).unwrap();
        let h = ad::gated_scan(g, &s, bb).unwrap();
        let p = ad::mul(g, &h, &wt).unwrap();
        total(g, &p)
    };
    let obj = |a: &T, bb: &T| -> f64 {
        let mut g: G = Graph::new();
        run(&mut g, a, bb).to_vec_f32().unwrap()[0] as f64
    };

    let mut g: G = Graph::new();
    let ag = g.with_requires_grad(a0.clone());
    let bg = g.with_requires_grad(b0.clone());
    let loss = run(&mut g, &ag, &bg);
    let gs = grad(&mut g, &loss, &[&ag, &bg]).unwrap();

    let na = numeric_grad(&a0, &|a| obj(a, &b0));
    let nb = numeric_grad(&b0, &|bb| obj(&a0, bb));
    let ea = rel_err(&gs[0].to_vec_f32().unwrap(), &na, 1e-3);
    let eb = rel_err(&gs[1].to_vec_f32().unwrap(), &nb, 1e-3);
    println!("gated_scan rel err: gate={ea:.2e} input={eb:.2e}");
    assert!(ea < 2e-2, "gate grad mismatch {ea}");
    assert!(eb < 2e-2, "input grad mismatch {eb}");
}

#[test]
fn rms_norm_gradients_match_finite_differences() {
    let (r, d) = (3usize, 6usize);
    let v: Vec<f32> = (0..r * d).map(|i| ((i * 29 % 17) as f32 / 17.0) - 0.4).collect();
    let x0 = t(&v, &[r, d]);
    let w: Vec<f32> = (0..r * d).map(|i| ((i * 11 % 5) as f32 / 5.0) + 0.3).collect();
    let wt = t(&w, &[r, d]);
    let run = |g: &mut G, x: &T| -> T {
        let y = ad::rms_norm(g, x, 1e-5).unwrap();
        let p = ad::mul(g, &y, &wt).unwrap();
        total(g, &p)
    };
    let obj = |x: &T| -> f64 {
        let mut g: G = Graph::new();
        run(&mut g, x).to_vec_f32().unwrap()[0] as f64
    };
    let mut g: G = Graph::new();
    let xg = g.with_requires_grad(x0.clone());
    let loss = run(&mut g, &xg);
    let gs = grad(&mut g, &loss, &[&xg]).unwrap();
    let ng = numeric_grad(&x0, &obj);
    let e = rel_err(&gs[0].to_vec_f32().unwrap(), &ng, 1e-3);
    println!("rms_norm rel err: {e:.2e}");
    assert!(e < 2e-2, "rms_norm grad mismatch {e}");
}

#[test]
fn gated_scan_matches_explicit_recurrence() {
    let (b, t_, d) = (2usize, 4usize, 3usize);
    let n = b * t_ * d;
    let av: Vec<f32> = (0..n).map(|i| 0.3 + (i % 5) as f32 * 0.1).collect();
    let bv: Vec<f32> = (0..n).map(|i| (i % 7) as f32 * 0.2 - 0.5).collect();
    let a = t(&av, &[b, t_, d]);
    let bb = t(&bv, &[b, t_, d]);
    let mut g: G = Graph::new();
    let h = ad::gated_scan(&mut g, &a, &bb).unwrap().to_vec_f32().unwrap();
    for bi in 0..b {
        let mut state = vec![0f32; d];
        for ti in 0..t_ {
            for (j, sj) in state.iter_mut().enumerate().take(d) {
                let o = bi * t_ * d + ti * d + j;
                *sj = av[o] * *sj + bv[o];
                assert!((h[o] - *sj).abs() < 1e-6, "mismatch at {o}");
            }
        }
    }
}

/// One local inference step: x <- x - eta * (x - tanh(pre @ w))
fn infer_step(g: &mut G, x: &T, pre: &T, w: &T, eta: f64) -> T {
    let p = nn::linear(g, pre, w, None).unwrap();
    let pred = ad::tanh(g, &p).unwrap();
    let err = ad::sub(g, x, &pred).unwrap();
    let rate = Tensor::scalar_f32(eta as f32).unwrap();
    let step = ad::mul(g, &err, &rate).unwrap();
    ad::sub(g, x, &step).unwrap()
}

#[test]
fn weight_grad_ignores_inference_path() {
    let mut g: G = Graph::new();
    let pre = t(&[0.2, -0.1, 0.3], &[1, 3]);
    let w = leaf(&mut g, &[0.4, -0.2, 0.1], &[3, 1]);
    let mut energies = Vec::new();
    // More inference steps reach another activity; either way the weight
    // gradient is that of the local energy at the stopped state.
    for steps in [4, 12] {
        let mut x = t(&[0.0], &[1, 1]);
        for _ in 0..steps {
            x = infer_step(&mut g, &x, &pre, &w.detach(), 0.2);
        }
        let stopped = ad::stop_gradient(&mut g, &x).unwrap();
        let p = nn::linear(&mut g, &pre, &w, None).unwrap();
        let pred = ad::tanh(&mut g, &p).unwrap();
        let err = ad::sub(&mut g, &stopped, &pred).unwrap();
        let square = ad::mul(&mut g, &err, &err).unwrap();
        energies.push(total(&mut g, &square));
    }
    let gs = grad(&mut g, &energies[0], &[&w]).unwrap();
    assert_eq!(gs[0].shape(), w.shape());
    assert!(gs[0].to_vec_f32().unwrap().iter().all(|v| v.is_finite()));
}

#[test]
fn stop_gradient_blocks_activity_path() {
    let mut g: G = Graph::new();
    let a = leaf(&mut g, &[1.5], &[]);
    let stopped = ad::stop_gradient(&mut g, &a).unwrap();
    let loss = ad::mul(&mut g, &stopped, &stopped).unwrap();
    let gs = grad(&mut g, &loss, &[&a]).unwrap();
    assert_eq!(gs[0].item_f32().unwrap(), 0.0);
}

#[test]
fn a_product_computed_elsewhere_is_recorded() {
    let mut g: G = Graph::new();
    let a = leaf(&mut g, &[1.0, 2.0, 3.0, 4.0], &[2, 2]);
    let b = t(&[1.0, 0.0, 0.0, 1.0], &[2, 2]);
    let y = t(&[1.0, 2.0, 3.0, 4.0], &[2, 2]);
    let y = ad::record_matmul(&mut g, &a, &b, y);
    let s = total(&mut g, &y);
    let gs = grad(&mut g, &s, &[&a]).unwrap();
    assert_eq!(gs[0].to_vec_f32().unwrap(), vec![1.0; 4]);
    let plain = ad::record_matmul(&mut g, &b, &b, b.clone());
    assert!(!plain.requires_grad());
}

#[test]
fn broadcast_gradients_come_back_in_the_operand_shape() {
    let mut g: G = Graph::new();
    let a = leaf(&mut g, &[1.0, 2.0], &[2, 1]);
    let b = leaf(&mut g, &[10.0, 20.0, 30.0], &[3]);
    let y = ad::mul(&mut g, &a, &b).unwrap();
    let s = total(&mut g, &y);
    let gs = grad(&mut g, &s, &[&a, &b]).unwrap();
    assert_eq!(gs[0].shape(), &[2, 1]);
    assert_eq!(gs[0].to_vec_f32().unwrap(), vec![60.0, 60.0]);
    assert_eq!(gs[1].shape(), &[3]);
    assert_eq!(gs[1].to_vec_f32().unwrap(), vec![3.0, 3.0, 3.0]);
}

#[test]
fn a_tied_maximum_passes_its_gradient_to_the_first() {
    let mut g: G = Graph::new();
    let x = leaf(&mut g, &[1.0, 3.0, 3.0], &[3]);
    let m = ad_axes::amax(&mut g, &x, 0, false).unwrap();
    let gs = grad(&mut g, &m, &[&x]).unwrap();
    assert_eq!(gs[0].to_vec_f32().unwrap(), vec![0.0, 1.0, 0.0]);
}

#[test]
fn a_directional_derivative_agrees_with_differences() {
    let x = t(&[0.5, -1.0], &[2]);
    let v = t(&[1.0, 2.0], &[2]);
    // The sum of squares has the slope 2 x.v.
    let squares = |x: &T| -> R {
        let y = gtensor::cpu::mul(x, x)?;
        gtensor::reduce::sum(&y, None, false)
    };
    let d = ad_composed::jvp_identity_check(squares, &x, &v, 0.125).unwrap();
    assert_eq!(d, -3.0);
    let wide = |x: &T| -> R { squares(&x.cast(Dtype::F64)?) };
    let d = ad_composed::jvp_identity_check(wide, &x, &v, 0.125).unwrap();
    assert_eq!(d, -3.0);
    // A function of other than one number has none.
    let square = |x: &T| -> R { gtensor::cpu::mul(x, x) };
    assert_eq!(ad_composed::jvp_identity_check(square, &x, &v, 0.125).unwrap(), 0.0);
}

#[test]
fn slopes_beside_values() {
    let x = t(&[0.0, 1.0], &[2]);
    let s = 1.0 / (1.0 + (-1f32).exp());
    let near = |x: &T, want: [f32; 2]| {
        for (a, b) in x.to_vec_f32().unwrap().iter().zip(want) {
            assert!((a - b).abs() < 1e-5, "{a} vs {b}");
        }
    };
    let (y, d) = slopes::sigmoid_fwd_bwd(&x).unwrap();
    near(&y, [0.5, s]);
    near(&d, [0.25, s * (1.0 - s)]);
    let (y, d) = slopes::silu_fwd_bwd(&x).unwrap();
    near(&y, [0.0, s]);
    near(&d, [0.5, s + s * (1.0 - s)]);
    let (y, _) = slopes::gelu_with_grad(&x).unwrap();
    near(&y, [0.0, 0.841_192]);
}

#[test]
fn softmax_slopes_follow_the_axis_that_was_asked_for() {
    let mut g: G = Graph::new();
    let x = leaf(&mut g, &[0.0, 0.0], &[2, 1]);
    let w = t(&[1.0, 0.0], &[2, 1]);
    let p = softmax::softmax(&mut g, &x, 0).unwrap();
    let y = ad::mul(&mut g, &p, &w).unwrap();
    let s = total(&mut g, &y);
    let gs = grad(&mut g, &s, &[&x]).unwrap();
    let got = gs[0].to_vec_f32().unwrap();
    assert!((got[0] - 0.25).abs() < 1e-6 && (got[1] + 0.25).abs() < 1e-6);
}

#[test]
fn slices_and_transposes_are_outside_the_graph() {
    let mut g: G = Graph::new();
    let x = leaf(&mut g, &[1.0, 2.0, 3.0], &[3]);
    let y = x.slice(&[(Some(0), Some(2), None)]).unwrap();
    assert_eq!(y.to_vec_f32().unwrap(), vec![1.0, 2.0]);
    assert!(!y.requires_grad() && y.leaf().is_none() && y.grad_fn().is_none());
    let z = x.select(0, 1).unwrap();
    assert!(!z.requires_grad() && z.leaf().is_none());
    let m = leaf(&mut g, &[1.0, 2.0], &[1, 2]);
    let v = m.transpose().unwrap();
    assert_eq!(v.shape(), &[2, 1]);
    assert!(!v.requires_grad() && v.leaf().is_none() && v.grad_fn().is_none());
    // A permuted leaf is the leaf.
    let v = m.permute(&[1, 0]).unwrap();
    assert_eq!(v.shape(), &[2, 1]);
    assert!(v.requires_grad() && v.leaf() == m.leaf() && v.leaf().is_some());
    // A tracked slice takes part.
    let s = ad_axes::slice_tracked(&mut g, &x, &[(Some(0), Some(2), None)]).unwrap();
    assert!(s.requires_grad() && s.leaf().is_none());
    let s = total(&mut g, &s);
    let gs = grad(&mut g, &s, &[&x]).unwrap();
    assert_eq!(gs[0].to_vec_f32().unwrap(), vec![1.0, 1.0, 0.0]);
}

#[test]
fn extremes_are_one_of_the_two() {
    let mut g: G = Graph::new();
    let a = leaf(&mut g, &[100000000.0, 2.0, 3.0], &[3]);
    let b = leaf(&mut g, &[1.0, 2.0, 5.0], &[3]);
    let low = extremes::minimum(&mut g, &a, &b).unwrap();
    assert_eq!(low.to_vec_f32().unwrap(), vec![1.0, 2.0, 3.0]);
    let high = extremes::maximum(&mut g, &a, &b).unwrap();
    assert_eq!(high.to_vec_f32().unwrap(), vec![100000000.0, 2.0, 5.0]);
    let s = total(&mut g, &high);
    let gs = grad(&mut g, &s, &[&a, &b]).unwrap();
    assert_eq!(gs[0].to_vec_f32().unwrap(), vec![1.0, 0.5, 0.0]);
    assert_eq!(gs[1].to_vec_f32().unwrap(), vec![0.0, 0.5, 1.0]);
    let s = total(&mut g, &low);
    let gs = grad(&mut g, &s, &[&a, &b]).unwrap();
    assert_eq!(gs[0].to_vec_f32().unwrap(), vec![0.0, 0.5, 1.0]);
    assert_eq!(gs[1].to_vec_f32().unwrap(), vec![1.0, 0.5, 0.0]);
    let wide = extremes::maximum(&mut g, &a, &t(&[2.5], &[1])).unwrap();
    assert_eq!(wide.to_vec_f32().unwrap(), vec![100000000.0, 2.5, 3.0]);
    let e = match extremes::minimum(&mut g, &a, &t(&[1.0, 2.0], &[2])) {
        Ok(_) => panic!("expected an error"),
        Err(e) => e,
    };
    assert_eq!(e.describe(), "shape error in broadcast: incompatible [3] vs [2]");
    // What is no number comes out, on whichever side it stands.
    let p = t(&[f32::NAN, 1.0], &[2]);
    let q = t(&[1.0, f32::NAN], &[2]);
    for y in [
        extremes::maximum(&mut g, &p, &q).unwrap(),
        extremes::minimum(&mut g, &p, &q).unwrap(),
    ] {
        assert!(y.to_vec_f32().unwrap().iter().all(|v| v.is_nan()));
    }
    // Operands that do not fit are refused as those of a sum are.
    let wide: T = Tensor::from_slice_f64(&[1.0, 2.0, 3.0], &[3]).unwrap();
    let text = |r: R| match r {
        Ok(_) => panic!("expected an error"),
        Err(e) => e.describe(),
    };
    let sum = text(ad::add(&mut g, &a, &wide));
    assert_eq!(text(extremes::maximum(&mut g, &a, &wide)), sum);
    assert_eq!(text(extremes::minimum(&mut g, &a, &wide)), sum);
}

#[test]
fn repeated_gradients_are_equal() {
    let mut g: G = Graph::new();
    let x = leaf(&mut g, &[0.3, -1.7, 2.9, 0.01], &[2, 2]);
    let w = leaf(&mut g, &[0.7, 1.3, -0.4, 0.9], &[2, 2]);
    let y = ad::matmul(&mut g, &x, &w).unwrap();
    let y = ad::gelu(&mut g, &y).unwrap();
    let loss = total(&mut g, &y);
    let first = grad(&mut g, &loss, &[&x, &w]).unwrap();
    backward(&mut g, &loss).unwrap();
    let again = grad(&mut g, &loss, &[&x, &w]).unwrap();
    for (a, b) in first.iter().zip(again.iter()) {
        assert_eq!(a.to_vec_f32().unwrap(), b.to_vec_f32().unwrap());
    }
}

#[test]
fn gradients_have_the_shapes_of_their_inputs() {
    let mut g: G = Graph::new();
    let v: Vec<f32> = (0..12).map(|i| 0.1 * i as f32 + 0.2).collect();
    let x = leaf(&mut g, &v, &[2, 3, 2]);
    let row = leaf(&mut g, &[1.0, 2.0], &[2]);
    let m = leaf(&mut g, &[0.5, 0.1, 0.2, 0.3, 0.4, 0.6], &[2, 3]);
    let a = ad::add(&mut g, &x, &row).unwrap();
    let a = ad::div(&mut g, &a, &row).unwrap();
    let a = ad::matmul(&mut g, &a, &m).unwrap();
    assert_eq!(a.shape(), &[2, 3, 3]);
    let a = ad::transpose(&mut g, &a).unwrap();
    let a = ad::unsqueeze(&mut g, &a, -1).unwrap();
    let a = ad::reshape(&mut g, &a, &[2, 9]).unwrap();
    let b = ad_axes::cat(&mut g, &[&a, &a], 1).unwrap();
    assert_eq!(b.shape(), &[2, 18]);
    let b = softmax::log_softmax(&mut g, &b, 0).unwrap();
    let b = ad_axes::amax(&mut g, &b, 1, false).unwrap();
    let s = ad::mean(&mut g, &b, None, false).unwrap();
    let gs = grad(&mut g, &s, &[&m, &x, &row]).unwrap();
    assert_eq!(gs[0].shape(), &[2, 3]);
    assert_eq!(gs[1].shape(), &[2, 3, 2]);
    assert_eq!(gs[2].shape(), &[2]);
}

#[test]
fn block_gradients_have_the_shapes_of_its_weights() {
    let (b, s, d, n, f) = (2usize, 3usize, 2usize, 4usize, 5usize);
    let mut g: G = Graph::new();
    let shapes: [Vec<usize>; 10] = [
        vec![b, s, d],
        vec![d + 1, n],
        vec![d, n],
        vec![n, d],
        vec![d, f],
        vec![f, d],
        vec![d],
        vec![n],
        vec![d],
        vec![d],
    ];
    let leaves: Vec<T> = shapes
        .iter()
        .map(|shape| {
            let len: usize = shape.iter().product();
            let v: Vec<f32> = (0..len).map(|i| (i % 5) as f32 * 0.2 - 0.3).collect();
            leaf(&mut g, &v, shape)
        })
        .collect();
    let w: Vec<&T> = leaves[1..].iter().collect();
    let y = block(&mut g, &leaves[0], &w, 1e-5);
    assert_eq!(y.shape(), &[b, s, d]);
    let loss = total(&mut g, &y);
    let inputs: Vec<&T> = leaves.iter().collect();
    let gs = grad(&mut g, &loss, &inputs).unwrap();
    for (got, shape) in gs.iter().zip(shapes.iter()) {
        assert_eq!(got.shape(), shape.as_slice());
    }
}

#[test]
fn the_masked_loss_follows_its_weights() {
    let logits = [0.5, -0.25, 1.0, 2.0, 0.0, -1.0];
    let targets: T = Tensor::from_vec_i64(vec![2, 0], &[2]).unwrap();
    let run = |mask: &[f32], logits: &[f32]| -> (f32, Vec<f32>) {
        let mut g: G = Graph::new();
        let x = leaf(&mut g, logits, &[2, 3]);
        let loss = ad_fused::masked_ce(&mut g, &x, &targets, &t(mask, &[2])).unwrap();
        let gs = grad(&mut g, &loss, &[&x]).unwrap();
        (loss.item_f32().unwrap(), gs[0].to_vec_f32().unwrap())
    };
    let (loss, slopes) = run(&[1.0, 0.5], &logits);
    assert!(loss > 0.0);
    // Negated weights negate the loss and its slopes; doubled weights leave them as they are.
    let (minus, turned) = run(&[-1.0, -0.5], &logits);
    assert_eq!(minus, -loss);
    assert!(turned.iter().zip(slopes.iter()).all(|(a, b)| *a == -*b));
    assert_eq!(run(&[2.0, 1.0], &logits), (loss, slopes));
    // A row of no weight is not looked at, and an empty mask has no loss.
    let (only, flat) = run(&[1.0, 0.0], &logits);
    assert_eq!(flat[3..], [0.0, 0.0, 0.0]);
    assert_eq!(run(&[1.0, 0.0], &[0.5, -0.25, 1.0, 9.0, 9.0, 9.0]), (only, flat));
    assert_eq!(run(&[0.0, 0.0], &logits), (0.0, vec![0.0; 6]));
}

/// Runs a pass to its end, with the products of its rules computed here; their number.
fn run(g: &mut G, pass: &mut Pass<Ieee>) -> usize {
    let mut products = 0;
    while let Some((n, gy)) = g.advance(pass) {
        let node = g.node(n);
        let parts = match node_products(node, &gy) {
            Some(p) => {
                products += 2;
                finish_node(node, answer_here(p.of_left), answer_here(p.of_right))
            }
            None => node.backward(&gy),
        };
        g.resume(pass, parts);
    }
    products
}

/// `relu(a @ b)`, `@ c`, summed; the loss and the three leaves.
fn two_products(g: &mut G) -> (T, [T; 3]) {
    let a = leaf(g, &[1.0, -2.0, 3.0, 0.5, 2.0, -1.0], &[2, 3]);
    let b = leaf(g, &[0.5, -1.0, 2.0, 1.5, -0.5, 1.0], &[3, 2]);
    let c = leaf(g, &[2.0, -3.0], &[2, 1]);
    let p = ad::matmul(g, &a, &b).unwrap();
    let p = ad::relu(g, &p).unwrap();
    let p = ad::matmul(g, &p, &c).unwrap();
    let loss = total(g, &p);
    (loss, [a, b, c])
}

#[test]
fn a_pass_in_steps_gives_the_gradients_of_grad() {
    let mut g: G = Graph::new();
    let (loss, [a, b, c]) = two_products(&mut g);
    let whole = grad(&mut g, &loss, &[&a, &b, &c]).unwrap();

    let mut pass = begin_grad(&mut g, &loss, &[&a, &b, &c]).unwrap();
    assert_eq!(run(&mut g, &mut pass), 4);
    let steps = end_grad(&g, pass, &[&a, &b, &c]).unwrap();
    assert_eq!(steps.len(), 3);
    for (x, y) in whole.iter().zip(&steps) {
        assert_eq!(x.shape(), y.shape());
        assert_eq!(x.to_vec_f32().unwrap(), y.to_vec_f32().unwrap());
    }
    // a @ b is [[-5, -1], [4.75, 1.5]], so only the second row passes.
    assert_eq!(steps[0].to_vec_f32().unwrap(), vec![0.0, 0.0, 0.0, 4.0, -0.5, -4.0]);
    assert_eq!(steps[2].to_vec_f32().unwrap(), vec![4.75, 1.5]);
}

#[test]
fn a_backward_pass_in_steps_adds_up() {
    let mut g: G = Graph::new();
    let (loss, [a, b, c]) = two_products(&mut g);
    let once = backward(&mut g, &loss).unwrap();
    let mut pass = begin_backward(&g, &loss).unwrap();
    run(&mut g, &mut pass);
    let twice = end_backward(&g, pass, &loss).unwrap();
    assert_eq!(once.len(), 3);
    assert_eq!(twice.len(), 3);
    for ((_, x), (_, y)) in once.iter().zip(&twice) {
        let doubled: Vec<f32> = x.to_vec_f32().unwrap().iter().map(|v| 2.0 * v).collect();
        assert_eq!(doubled, y.to_vec_f32().unwrap());
    }
    zero_grad(&mut g, &[&a, &b, &c]);
}

#[test]
fn a_pass_in_steps_refuses_and_fails_as_grad_does() {
    let mut g: G = Graph::new();
    let (loss, [a, b, _]) = two_products(&mut g);
    let p = ad::matmul(&mut g, &a, &b).unwrap();
    let refused = begin_grad(&mut g, &p, &[&a]).err().unwrap();
    assert_eq!(refused.describe(), grad(&mut g, &p, &[&a]).err().unwrap().describe());
    let refused = begin_grad(&mut g, &loss, &[&t(&[1.0], &[1])]).err().unwrap();
    assert_eq!(refused.op, "grad");
    let refused = begin_backward(&g, &p).err().unwrap();
    assert_eq!(refused.describe(), backward(&mut g, &p).err().unwrap().describe());

    // A rule that gives another number of pieces than its node has parents ends the pass.
    let mut pass = begin_grad(&mut g, &loss, &[&a]).unwrap();
    while g.advance(&mut pass).is_some() {
        g.resume(&mut pass, Ok(Vec::new()));
    }
    let failed = end_grad(&g, pass, &[&a]).err().unwrap();
    assert_eq!(failed.message, "backward arity mismatch");

    // So does an error.
    let mut pass = begin_grad(&mut g, &loss, &[&a]).unwrap();
    let (_, _) = g.advance(&mut pass).unwrap();
    g.resume(&mut pass, Err(Error::shape("elsewhere", "no answer".to_owned())));
    assert!(g.advance(&mut pass).is_none());
    let failed = end_grad(&g, pass, &[&a]).err().unwrap();
    assert_eq!(failed.op, "elsewhere");
}

#[test]
fn the_products_of_a_reverse_rule() {
    let a = t(&[1.0, 2.0, 3.0, 4.0, 5.0, 6.0], &[2, 3]);
    let b = t(&[1.0, 0.0, 0.0, 1.0, 1.0, 1.0], &[3, 2]);
    let gy = t(&[1.0, 2.0, 3.0, 4.0], &[2, 2]);
    let asked = slope_products(&a, &b, &gy);
    let left = answer_here(asked.of_left).unwrap();
    let right = answer_here(asked.of_right).unwrap();
    assert_eq!(left.to_vec_f32().unwrap(), vec![1.0, 2.0, 3.0, 3.0, 4.0, 7.0]);
    assert_eq!(right.shape(), &[3, 2]);
    assert_eq!(right.to_vec_f32().unwrap(), vec![13.0, 18.0, 17.0, 24.0, 21.0, 30.0]);
    // A matrix that was shared by a batch sums its pieces over the batch.
    let stack = t(&[1.0, 1.0, 1.0, 1.0, 1.0, 1.0, 1.0, 1.0, 1.0, 1.0, 1.0, 1.0], &[2, 3, 2]);
    let parts = finish_slopes(&a, &b, Ok(left.clone()), Ok(stack)).unwrap();
    assert_eq!(parts[0].to_vec_f32().unwrap(), left.to_vec_f32().unwrap());
    assert_eq!(parts[1].to_vec_f32().unwrap(), vec![2.0; 6]);
    // A vector has no transpose.
    let v = t(&[1.0, 2.0, 3.0], &[3]);
    let asked = slope_products(&a, &v, &gy);
    let none = answer_here(asked.of_left);
    assert_eq!(none.err().unwrap().op, "transpose");
    let none = slope_products(&a, &v, &gy).of_left.err().unwrap();
    let other = Err(Error::shape("elsewhere", "no answer".to_owned()));
    assert_eq!(finish_slopes(&a, &v, Err(none), other).err().unwrap().op, "transpose");
}

#[test]
fn sums_over_the_leading_axes_agree_at_once_and_in_turn() {
    let mut g: G = Graph::new();
    let v: Vec<f32> = (0..24).map(|i| (i * 7 % 11) as f32 - 5.0).collect();
    let x = t(&v, &[2, 3, 4]);
    let once = ad::sum(&mut g, &x, Some(&[0, 1]), false).unwrap();
    let first = ad::sum(&mut g, &x, Some(&[0]), false).unwrap();
    let turned = ad::sum(&mut g, &first, Some(&[0]), false).unwrap();
    assert_eq!(once.shape(), &[4]);
    assert_eq!(once.to_vec_f32().unwrap(), turned.to_vec_f32().unwrap());
    let column: f32 = (0..6).map(|i| v[4 * i]).sum();
    assert_eq!(once.to_vec_f32().unwrap()[0], column);
}

#[test]
fn two_forms_of_the_slope_of_silu_agree() {
    let mut g: G = Graph::new();
    let x = leaf(&mut g, &[-2.0, -0.5, 0.0, 0.75, 3.0], &[5]);
    let y = ad::silu(&mut g, &x).unwrap();
    let loss = total(&mut g, &y);
    let recorded = grad(&mut g, &loss, &[&x]).unwrap()[0].to_vec_f32().unwrap();
    for (v, d) in x.to_vec_f32().unwrap().iter().zip(&recorded) {
        let s = 1.0 / (1.0 + (-v).exp());
        let factored = s * (1.0 + v * (1.0 - s));
        assert!((d - factored).abs() < 1e-6, "{v}: {d} vs {factored}");
    }
    assert_eq!(recorded[2], 0.5);
}
