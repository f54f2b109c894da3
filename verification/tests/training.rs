//! Losses, layers and optimizers.

use gtensor::classes::Reduce;
use gtensor::error::{Error, ErrorKind};
use gtensor::nodes::Graph;
use gtensor::optim::{AdamW, Sgd};
use gtensor::scalar::{Arith, Scalars};
use gtensor::tape::{grad, zero_grad};
use gtensor::tensor::Tensor;
use gtensor::{ad, classes, nn, softmax};

/// IEEE 754 numbers.
struct Ieee;

impl Arith<f32> for Ieee {
    fn zero() -> f32 {
        0.0
    }
    fn one() -> f32 {
        1.0
    }
    fn lowest() -> f32 {
        f32::NEG_INFINITY
    }
    fn undefined() -> f32 {
        f32::NAN
    }
    fn plus(x: f32, y: f32) -> f32 {
        x + y
    }
    fn minus(x: f32, y: f32) -> f32 {
        x - y
    }
    fn times(x: f32, y: f32) -> f32 {
        x * y
    }
    fn over(x: f32, y: f32) -> f32 {
        x / y
    }
    fn negated(x: f32) -> f32 {
        -x
    }
    fn above(x: f32, y: f32) -> bool {
        x > y
    }
    fn at_least(x: f32, y: f32) -> bool {
        x >= y
    }
    fn same(x: f32, y: f32) -> bool {
        x == y
    }
    fn greater(x: f32, y: f32) -> f32 {
        x.max(y)
    }
    fn held(x: f32, low: f32, high: f32) -> f32 {
        x.clamp(low, high)
    }
    fn scientific(m: i64, e: i32) -> f32 {
        format!("{m}e{e}").parse().unwrap()
    }
    fn magnitude(x: f32) -> f32 {
        x.abs()
    }
    fn exponential(x: f32) -> f32 {
        x.exp()
    }
    fn logarithm(x: f32) -> f32 {
        x.ln()
    }
    fn root(x: f32) -> f32 {
        x.sqrt()
    }
    fn tangent(x: f32) -> f32 {
        x.tanh()
    }
    fn sine(x: f32) -> f32 {
        x.sin()
    }
    fn cosine(x: f32) -> f32 {
        x.cos()
    }
    fn power(x: f32, p: f32) -> f32 {
        x.powf(p)
    }
    fn count(n: usize) -> f32 {
        n as f32
    }
    fn ratio(n: i64, d: i64) -> f32 {
        n as f32 / d as f32
    }
}

impl Arith<f64> for Ieee {
    fn zero() -> f64 {
        0.0
    }
    fn one() -> f64 {
        1.0
    }
    fn lowest() -> f64 {
        f64::NEG_INFINITY
    }
    fn undefined() -> f64 {
        f64::NAN
    }
    fn plus(x: f64, y: f64) -> f64 {
        x + y
    }
    fn minus(x: f64, y: f64) -> f64 {
        x - y
    }
    fn times(x: f64, y: f64) -> f64 {
        x * y
    }
    fn over(x: f64, y: f64) -> f64 {
        x / y
    }
    fn negated(x: f64) -> f64 {
        -x
    }
    fn above(x: f64, y: f64) -> bool {
        x > y
    }
    fn at_least(x: f64, y: f64) -> bool {
        x >= y
    }
    fn same(x: f64, y: f64) -> bool {
        x == y
    }
    fn greater(x: f64, y: f64) -> f64 {
        x.max(y)
    }
    fn held(x: f64, low: f64, high: f64) -> f64 {
        x.clamp(low, high)
    }
    fn scientific(m: i64, e: i32) -> f64 {
        format!("{m}e{e}").parse().unwrap()
    }
    fn magnitude(x: f64) -> f64 {
        x.abs()
    }
    fn exponential(x: f64) -> f64 {
        x.exp()
    }
    fn logarithm(x: f64) -> f64 {
        x.ln()
    }
    fn root(x: f64) -> f64 {
        x.sqrt()
    }
    fn tangent(x: f64) -> f64 {
        x.tanh()
    }
    fn sine(x: f64) -> f64 {
        x.sin()
    }
    fn cosine(x: f64) -> f64 {
        x.cos()
    }
    fn power(x: f64, p: f64) -> f64 {
        x.powf(p)
    }
    fn count(n: usize) -> f64 {
        n as f64
    }
    fn ratio(n: i64, d: i64) -> f64 {
        n as f64 / d as f64
    }
}

impl Scalars for Ieee {
    type F = f32;
    type D = f64;
    fn widen(x: f32) -> f64 {
        x as f64
    }
    fn narrow(x: f64) -> f32 {
        x as f32
    }
    fn truncate_f32(x: f32) -> i64 {
        x as i64
    }
    fn truncate_f64(x: f64) -> i64 {
        x as i64
    }
    fn integer_f32(i: i64) -> f32 {
        i as f32
    }
    fn integer_f64(i: i64) -> f64 {
        i as f64
    }
    fn natural_f64(n: u64) -> f64 {
        n as f64
    }
}

type T = Tensor<Ieee>;
type G = Graph<Ieee>;

fn t(data: &[f32], shape: &[usize]) -> T {
    Tensor::from_slice_f32(data, shape).unwrap()
}

fn i(data: &[i64], shape: &[usize]) -> T {
    Tensor::from_slice_i64(data, shape).unwrap()
}

fn leaf(g: &mut G, data: &[f32], shape: &[usize]) -> T {
    g.with_requires_grad(t(data, shape))
}

/// Class, op and message.
fn says<X>(x: Result<X, Error>, kind: ErrorKind, op: &str, message: &str) {
    match x {
        Ok(_) => panic!("expected an error"),
        Err(e) => assert_eq!((e.kind, e.op, e.message.as_str()), (kind, op, message)),
    }
}

fn close(x: &T, want: &[f32], tol: f32) {
    let got = x.to_vec_f32().unwrap();
    assert_eq!(got.len(), want.len());
    for (a, b) in got.iter().zip(want) {
        assert!((a - b).abs() <= tol, "{a} vs {b}");
    }
}

#[test]
fn categorical_log_prob_grad() {
    let mut g: G = Graph::new();
    let logits = leaf(&mut g, &[0.1, 0.2, 0.3, 0.0, -0.1, 0.4], &[2, 3]);
    let a = i(&[1, 2], &[2]);
    let lp = nn::categorical_log_prob(&mut g, &logits, &a).unwrap();
    assert_eq!(lp.shape(), &[2]);
    let loss = ad::mean(&mut g, &lp, None, false).unwrap();
    let gs = grad(&mut g, &loss, &[&logits]).unwrap();
    assert_eq!(gs[0].shape(), &[2, 3]);
}

#[test]
fn linear_shape() {
    let mut g: G = Graph::new();
    let x = t(&[1.0, 2.0, 3.0, 4.0], &[2, 2]);
    let w = t(&[1.0, 0.0, 0.0, 1.0], &[2, 2]);
    let y = nn::linear(&mut g, &x, &w, None).unwrap();
    assert_eq!(y.shape(), &[2, 2]);
    assert_eq!(y.to_vec_f32().unwrap(), vec![1.0, 2.0, 3.0, 4.0]);
}

#[test]
fn cross_entropy_descends() {
    let mut g: G = Graph::new();
    let x = t(&[0.1, -0.2, 0.3, 0.0, 0.4, -0.1], &[2, 3]);
    let mut w = leaf(
        &mut g,
        &[0.2, 0.0, -0.1, 0.1, 0.05, 0.0, -0.2, 0.1, 0.15],
        &[3, 3],
    );
    let y = i(&[0, 2], &[2]);
    let sgd: Sgd<Ieee> = Sgd { lr: 0.2 };
    let z = nn::linear(&mut g, &x, &w, None).unwrap();
    let l0 = classes::cross_entropy(&mut g, &z, &y, Reduce::Mean)
        .unwrap()
        .item_f32()
        .unwrap();
    for _ in 0..20 {
        zero_grad(&mut g, &[&w]);
        let z = nn::linear(&mut g, &x, &w, None).unwrap();
        let loss = classes::cross_entropy(&mut g, &z, &y, Reduce::Mean).unwrap();
        let gs = grad(&mut g, &loss, &[&w]).unwrap();
        w = g.with_requires_grad(sgd.step(&[&w], &gs).unwrap().remove(0));
    }
    let z = nn::linear(&mut g, &x, &w, None).unwrap();
    let l1 = classes::cross_entropy(&mut g, &z, &y, Reduce::Mean)
        .unwrap()
        .item_f32()
        .unwrap();
    assert!(l1 < l0, "{l1} vs {l0}");
}

#[test]
fn layer_norm_unit_stats() {
    let mut g: G = Graph::new();
    let x = t(&[1.0, 3.0, 5.0, 7.0], &[2, 2]);
    let y = nn::layer_norm(&mut g, &x, 1e-5).unwrap();
    assert_eq!(y.shape(), &[2, 2]);
    close(&y, &[-1.0, 1.0, -1.0, 1.0], 1e-4);
}

fn mlp(g: &mut G, x: &T, w1: &T, b1: &T, w2: &T, b2: &T) -> T {
    let h = nn::linear(g, x, w1, Some(b1)).unwrap();
    let h = nn::relu(g, &h).unwrap();
    nn::linear(g, &h, w2, Some(b2)).unwrap()
}

#[test]
fn one_and_many_steps_descend() {
    let mut g: G = Graph::new();
    let x = t(&[0.1, -0.2, 0.3, 0.4, -0.5, 0.6], &[2, 3]);
    let y = t(&[0.2, -0.1, 0.0, 0.5], &[2, 2]);
    let mut w1 = leaf(&mut g, &[0.2, -0.1, 0.05, 0.1, 0.0, -0.2], &[3, 2]);
    let mut b1 = leaf(&mut g, &[0.0, 0.0], &[2]);
    let mut w2 = leaf(&mut g, &[0.3, -0.2, 0.1, 0.25], &[2, 2]);
    let mut b2 = leaf(&mut g, &[0.0, 0.0], &[2]);

    let pred0 = mlp(&mut g, &x, &w1, &b1, &w2, &b2);
    let loss0 = nn::mse_loss(&mut g, &pred0, &y, Reduce::Mean)
        .unwrap()
        .item_f32()
        .unwrap();
    assert!(loss0.is_finite());

    let sgd: Sgd<Ieee> = Sgd { lr: 0.05 };
    let mut last = loss0;
    for _ in 0..25 {
        zero_grad(&mut g, &[&w1, &b1, &w2, &b2]);
        let pred = mlp(&mut g, &x, &w1, &b1, &w2, &b2);
        let loss = nn::mse_loss(&mut g, &pred, &y, Reduce::Mean).unwrap();
        let gs = grad(&mut g, &loss, &[&w1, &b1, &w2, &b2]).unwrap();
        let updated = sgd.step(&[&w1, &b1, &w2, &b2], &gs).unwrap();
        w1 = g.with_requires_grad(updated[0].clone());
        b1 = g.with_requires_grad(updated[1].clone());
        w2 = g.with_requires_grad(updated[2].clone());
        b2 = g.with_requires_grad(updated[3].clone());
        last = loss.item_f32().unwrap();
    }
    assert!(last < loss0, "expected descent: start {loss0} end {last}");
}

#[test]
fn an_affine_map_fits_or_is_refused() {
    let mut g: G = Graph::new();
    let x = t(&[1.0, 2.0], &[1, 2]);
    let w = t(&[1.0, 10.0, 100.0, 1000.0], &[2, 2]);
    let b = t(&[0.5, 0.25], &[2]);
    let y = nn::linear(&mut g, &x, &w, Some(&b)).unwrap();
    assert_eq!(y.to_vec_f32().unwrap(), vec![201.5, 2010.25]);
    let wide = t(&[1.0, 2.0, 3.0], &[1, 3]);
    says(
        nn::linear(&mut g, &wide, &w, None),
        ErrorKind::Shape,
        "linear",
        "x[..., 3] vs w[2, 2]",
    );
    says(
        nn::linear(&mut g, &x, &b, None),
        ErrorKind::Shape,
        "linear",
        "w must be rank 2 [in, out]",
    );
    says(
        nn::linear(&mut g, &t(&[1.0], &[]), &w, None),
        ErrorKind::Shape,
        "linear",
        "x rank >= 1",
    );
}

#[test]
fn losses_reduce_in_three_ways() {
    let mut g: G = Graph::new();
    let p = t(&[1.0, 2.0], &[2]);
    let y = t(&[0.0, 4.0], &[2]);
    let each = nn::mse_loss(&mut g, &p, &y, Reduce::Each).unwrap();
    assert_eq!(each.to_vec_f32().unwrap(), vec![1.0, 4.0]);
    let sum = nn::mse_loss(&mut g, &p, &y, Reduce::Sum).unwrap();
    assert_eq!(sum.item_f32().unwrap(), 5.0);
    let mean = nn::mse_loss(&mut g, &p, &y, Reduce::Mean).unwrap();
    assert_eq!(mean.item_f32().unwrap(), 2.5);
    let lp = t(&[-1.0, -2.0, -3.0, -4.0], &[2, 2]);
    let classes_ = i(&[1, 0], &[2]);
    let nll = classes::nll_loss(&mut g, &lp, &classes_, Reduce::Each).unwrap();
    assert_eq!(nll.to_vec_f32().unwrap(), vec![2.0, 3.0]);
    says(
        classes::nll_loss(&mut g, &lp, &i(&[1, 2], &[2]), Reduce::Sum),
        ErrorKind::Index,
        "nll_loss",
        "class oob",
    );
    says(
        classes::nll_loss(&mut g, &lp, &p, Reduce::Sum),
        ErrorKind::Dtype,
        "nll_loss",
        "targets must be i64 class indices",
    );
    says(
        classes::nll_loss(&mut g, &lp, &i(&[1], &[1]), Reduce::Sum),
        ErrorKind::Shape,
        "nll_loss",
        "batch mismatch",
    );
    says(
        classes::nll_loss(&mut g, &p, &classes_, Reduce::Sum),
        ErrorKind::Shape,
        "nll_loss",
        "expected [B,C] and [B]",
    );
}

#[test]
fn the_slope_of_a_class_loss() {
    let mut g: G = Graph::new();
    let logits = leaf(&mut g, &[0.0, 0.0], &[1, 2]);
    let loss = classes::cross_entropy(&mut g, &logits, &i(&[0], &[1]), Reduce::Sum).unwrap();
    close(&loss, &[2f32.ln()], 1e-6);
    let gs = grad(&mut g, &loss, &[&logits]).unwrap();
    close(&gs[0], &[-0.5, 0.5], 1e-6);
}

#[test]
fn softmax_along_any_axis() {
    let mut g: G = Graph::new();
    let x = t(&[0.0, 1.0, 0.0, 3.0], &[2, 2]);
    let e = (-2f32).exp();
    let last = softmax::softmax(&mut g, &x, -1).unwrap();
    let f = (-1f32).exp();
    let h = (-3f32).exp();
    close(
        &last,
        &[f / (1.0 + f), 1.0 / (1.0 + f), h / (1.0 + h), 1.0 / (1.0 + h)],
        1e-6,
    );
    let first = softmax::softmax(&mut g, &x, 0).unwrap();
    close(&first, &[0.5, e / (1.0 + e), 0.5, 1.0 / (1.0 + e)], 1e-6);
    let logs = softmax::log_softmax(&mut g, &x, 0).unwrap();
    let want: Vec<f32> = first.to_vec_f32().unwrap().iter().map(|p| p.ln()).collect();
    close(&logs, &want, 1e-6);
    says(
        softmax::log_softmax(&mut g, &t(&[], &[1, 0]), 1),
        ErrorKind::Shape,
        "log_softmax",
        "empty axis",
    );
}

#[test]
fn rows_and_indicators_of_classes() {
    let mut g: G = Graph::new();
    let w = leaf(&mut g, &[1.0, 2.0, 3.0, 4.0], &[2, 2]);
    let e = classes::embedding(&mut g, &w, &i(&[1, 1], &[2, 1])).unwrap();
    assert_eq!(e.shape(), &[2, 1, 2]);
    assert_eq!(e.to_vec_f32().unwrap(), vec![3.0, 4.0, 3.0, 4.0]);
    let s = ad::sum(&mut g, &e, None, false).unwrap();
    let gs = grad(&mut g, &s, &[&w]).unwrap();
    assert_eq!(gs[0].to_vec_f32().unwrap(), vec![0.0, 0.0, 2.0, 2.0]);
    says(
        classes::embedding(&mut g, &w, &i(&[2], &[1])),
        ErrorKind::Index,
        "embedding",
        "index oob",
    );
    let h: T = classes::one_hot(&i(&[2, 0], &[2]), 3).unwrap();
    assert_eq!(h.shape(), &[2, 3]);
    assert_eq!(h.to_vec_f32().unwrap(), vec![0.0, 0.0, 1.0, 1.0, 0.0, 0.0]);
    says(
        classes::one_hot::<Ieee>(&i(&[3], &[1]), 3),
        ErrorKind::Index,
        "one_hot",
        "class oob",
    );
}

#[test]
fn categorical_distributions() {
    let mut g: G = Graph::new();
    let logits = t(&[0.0, 0.0, 0.0, 0.0], &[1, 4]);
    let h = nn::categorical_entropy(&mut g, &logits).unwrap();
    close(&h, &[4f32.ln()], 1e-6);
    let lp = nn::categorical_log_prob(&mut g, &logits, &i(&[3], &[1])).unwrap();
    close(&lp, &[-(4f32.ln())], 1e-6);
}

#[test]
fn whitening() {
    let mut g: G = Graph::new();
    let y = nn::whiten(&mut g, &t(&[1.0, 3.0], &[2])).unwrap();
    close(&y, &[-1.0, 1.0], 1e-6);
}

#[test]
fn gradient_descent_takes_one_step() {
    let sgd: Sgd<Ieee> = Sgd { lr: 0.5 };
    let p = t(&[1.0, 2.0], &[2]);
    let out = sgd.step(&[&p], &[t(&[2.0, -2.0], &[2])]).unwrap();
    assert_eq!(out[0].to_vec_f32().unwrap(), vec![0.0, 3.0]);
    says(
        sgd.step(&[&p], &[]),
        ErrorKind::Shape,
        "sgd",
        "params/grads length",
    );
}

#[test]
fn adam_keeps_moments_and_decays_weights() {
    let (lr, b1, b2, eps, wd) = (0.1f64, 0.9f64, 0.99f64, 1e-8f64, 0.01f64);
    let mut p = t(&[1.0, -2.0], &[2]);
    let mut adam: AdamW<Ieee> = AdamW::new(&[&p], lr, b1, b2, eps, wd).unwrap();
    let mut want = [1.0f64, -2.0];
    let mut m = [0.0f64; 2];
    let mut v = [0.0f64; 2];
    for step in 1..4 {
        let g = [0.5f64 * step as f64, -0.25];
        p = adam
            .step(&[&p], &[t(&[g[0] as f32, g[1] as f32], &[2])])
            .unwrap()
            .remove(0);
        for k in 0..2 {
            m[k] = b1 * m[k] + (1.0 - b1) * g[k];
            v[k] = b2 * v[k] + (1.0 - b2) * g[k] * g[k];
            let mh = m[k] / (1.0 - b1.powi(step));
            let vh = v[k] / (1.0 - b2.powi(step));
            want[k] = want[k] * (1.0 - lr * wd) - lr * mh / (vh.sqrt() + eps);
        }
        close(&p, &[want[0] as f32, want[1] as f32], 1e-5);
    }
}
