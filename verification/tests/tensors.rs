//! Tensors, their views, and the operations on their elements.

use gtensor::construct::{arange_f32, eye, full_f32, linspace_f32};
use gtensor::device::Device;
use gtensor::dtype::Dtype;
use gtensor::error::{Error, ErrorKind};
use gtensor::indexing::{gather, scatter_add, take};
use gtensor::lookup::argmax_last;
use gtensor::matmul::matmul;
use gtensor::normal::randn_f32;
use gtensor::reduce::{amax, mean, sum};
use gtensor::rows::{log_softmax_last, rms_norm, softmax_last};
use gtensor::scalar::{Arith, Scalars};
use gtensor::scan::{gated_scan, gated_scan_backward};
use gtensor::storage::{Storage, StorageData};
use gtensor::tensor::Tensor;
use gtensor::{cpu, joining, lookup, loss, unary};

/// IEEE 754 numbers.
struct Ieee;

impl Arith<f32> for Ieee {
    fn zero() -> f32 {
        0.0
    }
    fn one() -> f32 {
        1.0
    }
    fn lowest() -> f32 {
        f32::NEG_INFINITY
    }
    fn undefined() -> f32 {
        f32::NAN
    }
    fn plus(x: f32, y: f32) -> f32 {
        x + y
    }
    fn minus(x: f32, y: f32) -> f32 {
        x - y
    }
    fn times(x: f32, y: f32) -> f32 {
        x * y
    }
    fn over(x: f32, y: f32) -> f32 {
        x / y
    }
    fn negated(x: f32) -> f32 {
        -x
    }
    fn above(x: f32, y: f32) -> bool {
        x > y
    }
    fn at_least(x: f32, y: f32) -> bool {
        x >= y
    }
    fn same(x: f32, y: f32) -> bool {
        x == y
    }
    fn greater(x: f32, y: f32) -> f32 {
        x.max(y)
    }
    fn held(x: f32, low: f32, high: f32) -> f32 {
        x.clamp(low, high)
    }
    fn scientific(m: i64, e: i32) -> f32 {
        format!("{m}e{e}").parse().unwrap()
    }
    fn magnitude(x: f32) -> f32 {
        x.abs()
    }
    fn exponential(x: f32) -> f32 {
        x.exp()
    }
    fn logarithm(x: f32) -> f32 {
        x.ln()
    }
    fn root(x: f32) -> f32 {
        x.sqrt()
    }
    fn tangent(x: f32) -> f32 {
        x.tanh()
    }
    fn sine(x: f32) -> f32 {
        x.sin()
    }
    fn cosine(x: f32) -> f32 {
        x.cos()
    }
    fn power(x: f32, p: f32) -> f32 {
        x.powf(p)
    }
    fn count(n: usize) -> f32 {
        n as f32
    }
    fn ratio(n: i64, d: i64) -> f32 {
        n as f32 / d as f32
    }
}

impl Arith<f64> for Ieee {
    fn zero() -> f64 {
        0.0
    }
    fn one() -> f64 {
        1.0
    }
    fn lowest() -> f64 {
        f64::NEG_INFINITY
    }
    fn undefined() -> f64 {
        f64::NAN
    }
    fn plus(x: f64, y: f64) -> f64 {
        x + y
    }
    fn minus(x: f64, y: f64) -> f64 {
        x - y
    }
    fn times(x: f64, y: f64) -> f64 {
        x * y
    }
    fn over(x: f64, y: f64) -> f64 {
        x / y
    }
    fn negated(x: f64) -> f64 {
        -x
    }
    fn above(x: f64, y: f64) -> bool {
        x > y
    }
    fn at_least(x: f64, y: f64) -> bool {
        x >= y
    }
    fn same(x: f64, y: f64) -> bool {
        x == y
    }
    fn greater(x: f64, y: f64) -> f64 {
        x.max(y)
    }
    fn held(x: f64, low: f64, high: f64) -> f64 {
        x.clamp(low, high)
    }
    fn scientific(m: i64, e: i32) -> f64 {
        format!("{m}e{e}").parse().unwrap()
    }
    fn magnitude(x: f64) -> f64 {
        x.abs()
    }
    fn exponential(x: f64) -> f64 {
        x.exp()
    }
    fn logarithm(x: f64) -> f64 {
        x.ln()
    }
    fn root(x: f64) -> f64 {
        x.sqrt()
    }
    fn tangent(x: f64) -> f64 {
        x.tanh()
    }
    fn sine(x: f64) -> f64 {
        x.sin()
    }
    fn cosine(x: f64) -> f64 {
        x.cos()
    }
    fn power(x: f64, p: f64) -> f64 {
        x.powf(p)
    }
    fn count(n: usize) -> f64 {
        n as f64
    }
    fn ratio(n: i64, d: i64) -> f64 {
        n as f64 / d as f64
    }
}

impl Scalars for Ieee {
    type F = f32;
    type D = f64;
    fn widen(x: f32) -> f64 {
        x as f64
    }
    fn narrow(x: f64) -> f32 {
        x as f32
    }
    fn truncate_f32(x: f32) -> i64 {
        x as i64
    }
    fn truncate_f64(x: f64) -> i64 {
        x as i64
    }
    fn integer_f32(i: i64) -> f32 {
        i as f32
    }
    fn integer_f64(i: i64) -> f64 {
        i as f64
    }
    fn natural_f64(n: u64) -> f64 {
        n as f64
    }
}

type T = Tensor<Ieee>;

fn t(data: &[f32], shape: &[usize]) -> T {
    Tensor::from_slice_f32(data, shape).unwrap()
}

fn d(data: &[f64], shape: &[usize]) -> T {
    Tensor::from_slice_f64(data, shape).unwrap()
}

fn i(data: &[i64], shape: &[usize]) -> T {
    Tensor::from_slice_i64(data, shape).unwrap()
}

fn f32s(x: Result<T, Error>) -> Vec<f32> {
    x.unwrap().to_vec_f32().unwrap()
}

fn f64s(x: Result<T, Error>) -> Vec<f64> {
    x.unwrap().to_vec_f64().unwrap()
}

fn fault<X>(x: Result<X, Error>) -> Error {
    match x {
        Ok(_) => panic!("expected an error"),
        Err(e) => e,
    }
}

/// Class, op and message.
fn says<X>(x: Result<X, Error>, kind: ErrorKind, op: &str, message: &str) {
    let e = fault(x);
    assert_eq!((e.kind, e.op, e.message.as_str()), (kind, op, message));
}

fn close(a: &[f32], b: &[f32], tol: f32) {
    assert_eq!(a.len(), b.len());
    for (x, y) in a.iter().zip(b) {
        assert!((x - y).abs() <= tol, "{x} vs {y}");
    }
}

#[test]
fn from_slice_and_item() {
    let x = t(&[3.0], &[]);
    assert_eq!(x.item_f32().unwrap(), 3.0);
    assert_eq!(x.rank(), 0);
}

#[test]
fn unique_after_clone_is_false() {
    let x = t(&[1.0, 2.0], &[2]);
    let _u = x.clone();
    assert!(!x.is_unique());
}

#[test]
fn reshape_empty() {
    let x: T = Tensor::zeros(&[0, 3], Dtype::F32).unwrap();
    let r = x.reshape(&[0, -1]).unwrap();
    assert_eq!(r.shape(), &[0, 3]);
}

#[test]
fn add_broadcast() {
    let a = t(&[1.0, 2.0], &[2, 1]);
    let b = t(&[10.0, 20.0, 30.0], &[1, 3]);
    let c = cpu::add(&a, &b).unwrap();
    assert_eq!(c.shape(), &[2, 3]);
    assert_eq!(
        c.to_vec_f32().unwrap(),
        vec![11.0, 21.0, 31.0, 12.0, 22.0, 32.0]
    );
}

#[test]
fn matmul_inner_mismatch() {
    let a = t(&[1.0, 2.0, 3.0], &[1, 3]);
    let b = t(&[1.0, 2.0, 3.0, 4.0], &[2, 2]);
    let e = fault(matmul(&a, &b));
    assert_eq!(e.kind, ErrorKind::BackendPrecheck);
    assert_eq!(
        e.describe(),
        "backend-precheck error in matmul: contracting dims differ 3 & 2"
    );
}

#[test]
fn empty_sum_is_zero() {
    let x: T = Tensor::zeros(&[2, 0, 3], Dtype::F32).unwrap();
    let s = sum(&x, Some(&[1]), false).unwrap();
    assert_eq!(s.shape(), &[2, 3]);
    assert!(s.to_vec_f32().unwrap().iter().all(|&v| v == 0.0));
}

#[test]
fn empty_mean_is_nan() {
    let x: T = Tensor::zeros(&[2, 0], Dtype::F32).unwrap();
    let m = mean(&x, Some(&[1]), false).unwrap();
    assert!(m.to_vec_f32().unwrap().iter().all(|v| v.is_nan()));
}

#[test]
fn matmul_with_transpose() {
    let q = t(&[1.0, 0.0, 0.0, 1.0, 0.0, 1.0, 1.0, 0.0], &[2, 4]);
    let k = t(&[1.0; 8], &[2, 4]);
    let kt = k.transpose().unwrap();
    assert_eq!(kt.shape(), &[4, 2], "kt {:?}", kt.shape());
    let s = matmul(&q, &kt).unwrap();
    assert_eq!(s.shape(), &[2, 2], "s {:?}", s.shape());
    assert_eq!(s.to_vec_f32().unwrap(), vec![2.0; 4]);
}

#[test]
fn vec_dot() {
    let a = t(&[1.0, 2.0, 3.0], &[3]);
    let b = t(&[4.0, 5.0, 6.0], &[3]);
    let c = matmul(&a, &b).unwrap();
    assert_eq!(c.shape(), &[] as &[usize]);
    assert_eq!(c.item_f32().unwrap(), 32.0);
}

#[test]
fn cat_and_amax() {
    let a = t(&[1.0, 2.0], &[2]);
    let b = t(&[3.0, 4.0], &[2]);
    let c = joining::cat(&[&a, &b], 0).unwrap();
    assert_eq!(c.to_vec_f32().unwrap(), vec![1.0, 2.0, 3.0, 4.0]);
    let m = amax(&c, 0, false).unwrap();
    assert_eq!(m.item_f32().unwrap(), 4.0);
    assert!(amax(&t(&[], &[0]), 0, false).is_err());
}

#[test]
fn arange_eye_randn() {
    let r: T = arange_f32(0.0, 4.0, 1.0).unwrap();
    assert_eq!(r.to_vec_f32().unwrap(), vec![0.0, 1.0, 2.0, 3.0]);
    let e: T = eye(2, Dtype::F32).unwrap();
    assert_eq!(e.to_vec_f32().unwrap(), vec![1.0, 0.0, 0.0, 1.0]);
    let z: T = randn_f32(&[8], 42).unwrap();
    assert_eq!(z.numel(), 8);
}

#[test]
fn a_tensor_holds_what_it_was_made_of() {
    let x = t(&[1.0, 2.0, 3.0, 4.0, 5.0, 6.0], &[2, 3]);
    assert_eq!((x.rank(), x.numel(), x.dtype()), (2, 6, Dtype::F32));
    assert_eq!((x.strides(), x.storage_offset()), (&[3, 1][..], 0));
    assert_eq!((x.device(), x.placement_trace()), (Device::Cpu, "cpu"));
    assert!(x.is_contiguous() && !x.requires_grad());
    assert_eq!(x.read_f32_at(&[1, 2]).unwrap(), 6.0);
    assert_eq!(d(&[1.5, 2.5], &[2]).read_f64_at(&[1]).unwrap(), 2.5);
    assert_eq!(i(&[7, 8], &[2]).read_i64_at(&[0]).unwrap(), 7);
    says(
        Tensor::<Ieee>::from_slice_f32(&[1.0], &[2]),
        ErrorKind::Shape,
        "from_slice",
        "len 1 != numel 2",
    );
    says(x.item_f32(), ErrorKind::Shape, "item", "numel must be 1");
    says(x.to_vec_f64(), ErrorKind::Dtype, "to_vec", "expected f64");
    says(x.to_vec_i64(), ErrorKind::Dtype, "to_vec", "expected i64");
    says(
        i(&[1], &[1]).to_vec_f32(),
        ErrorKind::Dtype,
        "to_vec",
        "expected f32",
    );
}

#[test]
fn a_buffer_of_the_wrong_type_is_refused() {
    let storage: Storage<Ieee> = Storage {
        data: StorageData::I64(vec![1, 2]),
    };
    says(
        Tensor::from_storage(storage, vec![2], Dtype::F32, Device::Cpu),
        ErrorKind::Dtype,
        "from_storage",
        "storage/dtype mismatch",
    );
}

#[test]
fn constants() {
    assert_eq!(f32s(Tensor::zeros(&[2], Dtype::F32)), vec![0.0; 2]);
    assert_eq!(f64s(Tensor::ones(&[2], Dtype::F64)), vec![1.0; 2]);
    let n: T = Tensor::ones(&[3], Dtype::I64).unwrap();
    assert_eq!(n.to_vec_i64().unwrap(), vec![1; 3]);
    assert_eq!(f32s(Tensor::full_f32(&[2], 2.5)), vec![2.5; 2]);
    assert_eq!(f32s(full_f32(&[2], 2.5)), vec![2.5; 2]);
    assert_eq!(f32s(Tensor::scalar_f32(4.0)), vec![4.0]);
    assert_eq!(f64s(Tensor::scalar_f64(4.0)), vec![4.0]);
    assert_eq!(f32s(linspace_f32(0.0, 1.0, 5)), vec![0.0, 0.25, 0.5, 0.75, 1.0]);
    assert_eq!(f32s(linspace_f32(3.0, 1.0, 1)), vec![3.0]);
    assert_eq!(f32s(linspace_f32(3.0, 1.0, 0)), Vec::<f32>::new());
    assert_eq!(f32s(arange_f32(3.0, 0.0, -1.5)), vec![3.0, 1.5]);
    says(
        arange_f32::<Ieee>(0.0, 1.0, 0.0),
        ErrorKind::Shape,
        "arange",
        "step must not be 0",
    );
    assert_eq!(f64s(eye(2, Dtype::F64)), vec![1.0, 0.0, 0.0, 1.0]);
}

#[test]
fn a_seed_gives_one_sample() {
    let mut state = 42u64 | 1;
    let mut next = || {
        state ^= state >> 12;
        state ^= state << 25;
        state ^= state >> 27;
        state = state.wrapping_mul(0x2545_f491_4f6c_dd1d);
        (state >> 11) as f64 / ((1u64 << 53) as f64)
    };
    let mut want = Vec::new();
    while want.len() < 6 {
        let u1 = next().max(1e-12);
        let u2 = next();
        let r = (-2.0 * u1.ln()).sqrt();
        let theta = 2.0 * std::f64::consts::PI * u2;
        want.push((r * theta.cos()) as f32);
        want.push((r * theta.sin()) as f32);
    }
    close(&f32s(randn_f32(&[5], 42)), &want[..5], 1e-6);
    assert_eq!(f32s(randn_f32(&[5], 42)), f32s(randn_f32(&[5], 42)));
    assert_ne!(f32s(randn_f32(&[5], 42)), f32s(randn_f32(&[5], 44)));
}

#[test]
fn views_share_the_buffer() {
    let x = t(&[1.0, 2.0, 3.0, 4.0, 5.0, 6.0], &[2, 3]);
    let v = x.transpose().unwrap();
    assert!(v.same_storage(&x) && !v.is_contiguous());
    assert_eq!((v.shape(), v.strides()), (&[3, 2][..], &[1, 3][..]));
    assert_eq!(v.to_vec_f32().unwrap(), vec![1.0, 4.0, 2.0, 5.0, 3.0, 6.0]);
    let c = v.to_contiguous().unwrap();
    assert!(c.is_contiguous() && !c.same_storage(&x));
    assert!(!x.copy().unwrap().same_storage(&x));
    assert_eq!(x.handle_count(), 2);
    assert_eq!(c.handle_count(), 1);
    says(
        v.view_as(&[6]),
        ErrorKind::Shape,
        "view",
        "view requires a contiguous tensor",
    );
    assert_eq!(v.reshape(&[6]).unwrap().to_vec_f32().unwrap(), c.to_vec_f32().unwrap());
    assert_eq!(x.flatten().unwrap().shape(), &[6]);
    assert!(x.view_as(&[3, 2]).unwrap().same_storage(&x));
}

#[test]
fn transposing_twice_gives_the_tensor_back() {
    let x = t(&[1.0, 2.0, 3.0, 4.0, 5.0, 6.0], &[1, 2, 3]);
    let y = x.transpose().unwrap().transpose().unwrap();
    assert_eq!((y.shape(), y.strides()), (x.shape(), x.strides()));
    says(
        t(&[1.0], &[1]).transpose(),
        ErrorKind::Shape,
        "transpose",
        "rank must be >= 2",
    );
}

#[test]
fn a_permutation_moves_axes() {
    let x = t(&[1.0, 2.0, 3.0, 4.0, 5.0, 6.0], &[1, 2, 3]);
    let p = x.permute(&[2, 0, -2]).unwrap();
    assert_eq!(p.shape(), &[3, 1, 2]);
    assert_eq!(p.to_vec_f32().unwrap(), vec![1.0, 4.0, 2.0, 5.0, 3.0, 6.0]);
    says(
        x.permute(&[0]),
        ErrorKind::Shape,
        "permute",
        "axes rank mismatch",
    );
    says(
        x.permute(&[0, 0, 1]),
        ErrorKind::Shape,
        "permute",
        "duplicate axis",
    );
}

#[test]
fn slices_and_selections() {
    let x = t(&[0.0, 1.0, 2.0, 3.0, 4.0, 5.0, 6.0, 7.0], &[2, 4]);
    let s = x.slice(&[(None, None, None), (Some(-3), None, Some(2))]).unwrap();
    assert_eq!(s.shape(), &[2, 2]);
    assert_eq!(s.to_vec_f32().unwrap(), vec![1.0, 3.0, 5.0, 7.0]);
    let r = x.slice(&[(Some(1), Some(2), None)]).unwrap();
    assert_eq!(r.to_vec_f32().unwrap(), vec![4.0, 5.0, 6.0, 7.0]);
    says(
        x.slice(&[(None, None, Some(0))]),
        ErrorKind::Index,
        "slice",
        "step must not be 0",
    );
    says(
        x.slice(&[(None, None, None); 3]),
        ErrorKind::Shape,
        "slice",
        "too many ranges",
    );
    let column = x.select(1, -1).unwrap();
    assert_eq!(column.shape(), &[2]);
    assert_eq!(column.to_vec_f32().unwrap(), vec![3.0, 7.0]);
    says(
        x.select(1, 4),
        ErrorKind::Index,
        "select",
        "index 4 out of 4",
    );
}

#[test]
fn axes_of_length_one() {
    let x = t(&[1.0, 2.0], &[2]);
    let u = x.unsqueeze(-1).unwrap();
    assert_eq!(u.shape(), &[2, 1]);
    let s = u.squeeze(Some(1)).unwrap();
    assert_eq!((s.shape(), s.strides()), (x.shape(), x.strides()));
    assert_eq!(x.unsqueeze(0).unwrap().squeeze(None).unwrap().shape(), &[2]);
    says(
        x.squeeze(Some(0)),
        ErrorKind::Shape,
        "squeeze",
        "axis size is not 1",
    );
    let b = u.broadcast_to(&[3, 2, 2]).unwrap();
    assert!(b.has_zero_stride() && !x.has_zero_stride());
    assert_eq!(b.to_vec_f32().unwrap()[..4], [1.0, 1.0, 2.0, 2.0]);
    assert!(x.broadcast_to(&[3]).is_err());
}

#[test]
fn casts_and_devices() {
    let x = t(&[1.75, -1.75], &[2]);
    assert_eq!(x.cast(Dtype::I64).unwrap().to_vec_i64().unwrap(), vec![1, -1]);
    assert_eq!(f64s(x.cast(Dtype::F64)), vec![1.75, -1.75]);
    assert_eq!(f32s(i(&[3, -4], &[2]).cast(Dtype::F32)), vec![3.0, -4.0]);
    assert!(x.to(Device::Cpu).unwrap().same_storage(&x));
    assert_eq!(fault(x.to(Device::Gpu)).kind, ErrorKind::Unsupported);
}

#[test]
fn in_place_needs_a_buffer_of_its_own() {
    let mut x = t(&[-1.0, 2.0], &[2]);
    let y = x.clone();
    says(
        cpu::relu_inplace(&mut x),
        ErrorKind::NotUnique,
        "relu_inplace",
        "in-place requires a unique untracked tensor",
    );
    assert_eq!(x.to_vec_f32().unwrap(), vec![-1.0, 2.0]);
    drop(y);
    cpu::relu_inplace(&mut x).unwrap();
    assert_eq!(x.to_vec_f32().unwrap(), vec![0.0, 2.0]);
    says(
        cpu::relu_inplace_among(&mut x, 2),
        ErrorKind::NotUnique,
        "relu_inplace",
        "in-place requires a unique untracked tensor",
    );
}

#[test]
fn overwriting_keeps_the_shape() {
    let mut x = t(&[1.0, 2.0], &[2, 1]).transpose().unwrap();
    x.overwrite_f32(&[5.0, 6.0]).unwrap();
    assert_eq!(x.shape(), &[1, 2]);
    assert_eq!(x.to_vec_f32().unwrap(), vec![5.0, 6.0]);
    assert!(x.overwrite_f32(&[5.0]).is_err());
    says(
        i(&[1], &[1]).overwrite_f32(&[1.0]),
        ErrorKind::Dtype,
        "overwrite",
        "expected f32",
    );
}

#[test]
fn arithmetic() {
    let a = t(&[1.0, 2.0, 3.0], &[3]);
    let b = t(&[4.0, 8.0, 2.0], &[3]);
    assert_eq!(f32s(cpu::sub(&a, &b)), vec![-3.0, -6.0, 1.0]);
    assert_eq!(f32s(cpu::mul(&a, &b)), vec![4.0, 16.0, 6.0]);
    assert_eq!(f32s(cpu::div(&a, &b)), vec![0.25, 0.25, 1.5]);
    assert_eq!(f32s(cpu::mul_scalar(&a, 0.5)), vec![0.5, 1.0, 1.5]);
    assert_eq!(f32s(cpu::neg(&a)), vec![-1.0, -2.0, -3.0]);
    assert_eq!(f32s(cpu::square(&a)), vec![1.0, 4.0, 9.0]);
    assert_eq!(f32s(cpu::pow_scalar(&a, 2.0)), vec![1.0, 4.0, 9.0]);
    assert_eq!(f32s(cpu::pow_scalar(&b, 0.5))[0], 2.0);
    assert_eq!(f32s(cpu::pow_scalar(&a, 3.0))[1], 8.0);
    let p = d(&[1.0, 2.0], &[2]);
    let q = d(&[0.5, 4.0], &[2]);
    assert_eq!(f64s(cpu::add(&p, &q)), vec![1.5, 6.0]);
    assert_eq!(f64s(cpu::div(&p, &q)), vec![2.0, 0.5]);
    assert_eq!(fault(cpu::add(&a, &p)).kind, ErrorKind::Dtype);
    assert_eq!(fault(cpu::add(&a, &t(&[1.0, 2.0], &[2]))).kind, ErrorKind::Shape);
    assert_eq!(fault(cpu::neg(&i(&[1], &[1]))).kind, ErrorKind::Dtype);
}

#[test]
fn functions_of_one_element() {
    let x = t(&[-2.0, 0.0, 0.5], &[3]);
    let at = |f: fn(f32) -> f32| -> Vec<f32> { [-2.0f32, 0.0, 0.5].map(f).to_vec() };
    assert_eq!(f32s(unary::abs(&x)), vec![2.0, 0.0, 0.5]);
    assert_eq!(f32s(unary::sign(&x)), vec![-1.0, 0.0, 1.0]);
    assert_eq!(f32s(unary::relu(&x)), vec![0.0, 0.0, 0.5]);
    close(&f32s(unary::exp(&x)), &at(|x| x.exp()), 1e-6);
    close(&f32s(unary::tanh(&x)), &at(|x| x.tanh()), 1e-6);
    close(&f32s(unary::sigmoid(&x)), &at(|x| 1.0 / (1.0 + (-x).exp())), 1e-6);
    close(&f32s(unary::silu(&x)), &at(|x| x / (1.0 + (-x).exp())), 1e-6);
    close(&f32s(unary::softplus(&x)), &at(|x| (1.0 + x.exp()).ln()), 1e-6);
    close(
        &f32s(unary::gelu(&x)),
        &at(|x| {
            let z = (2.0 / std::f32::consts::PI).sqrt() * (x + 0.044715 * x * x * x);
            0.5 * x * (1.0 + z.tanh())
        }),
        1e-5,
    );
    assert_eq!(f32s(cpu::leaky_relu(&x, 0.5)), vec![-1.0, 0.0, 0.5]);
    assert_eq!(f32s(cpu::clamp(&x, -1.0, 0.25)), vec![-1.0, 0.0, 0.25]);
    let y = t(&[1.0, 4.0], &[2]);
    assert_eq!(f32s(unary::sqrt(&y)), vec![1.0, 2.0]);
    assert_eq!(f32s(unary::log(&y)), vec![0.0, 4f32.ln()]);
    // Beyond 20 the softplus is the identity.
    assert_eq!(f32s(unary::softplus(&t(&[30.0], &[1]))), vec![30.0]);
    assert_eq!(f64s(unary::sqrt(&d(&[9.0], &[1]))), vec![3.0]);
    assert_eq!(f64s(unary::sigmoid(&d(&[0.0], &[1]))), vec![0.5]);
    says(
        unary::exp(&i(&[1], &[1])),
        ErrorKind::Dtype,
        "exp",
        "expected float",
    );
}

#[test]
fn large_tensors_match_one_element_at_a_time() {
    let n = 70_000usize;
    let v: Vec<f32> = (0..n).map(|k| (k % 1013) as f32 * 0.01 - 5.0).collect();
    let x = t(&v, &[n]);
    let want: Vec<f32> = v.iter().map(|x| x.exp()).collect();
    close(&f32s(unary::exp(&x)), &want, 1e-3);
    assert_eq!(f32s(unary::relu(&x)), v.iter().map(|x| x.max(0.0)).collect::<Vec<_>>());
    assert_eq!(f32s(cpu::add(&x, &x)), v.iter().map(|x| x + x).collect::<Vec<_>>());
    let grid = t(&v, &[700, 100]);
    let row = t(&v[..100], &[100]);
    let got = f32s(cpu::mul(&grid, &row));
    for (k, y) in got.iter().enumerate() {
        assert_eq!(*y, v[k] * v[k % 100]);
    }
    let turned = f32s(cpu::add(&grid.transpose().unwrap(), &t(&[1.0], &[])));
    for (k, y) in turned.iter().enumerate() {
        assert_eq!(*y, v[(k % 700) * 100 + k / 700] + 1.0);
    }
}

#[test]
fn reductions() {
    let x = t(&[1.0, 2.0, 3.0, 4.0, 5.0, 6.0], &[2, 3]);
    assert_eq!(f32s(sum(&x, None, false)), vec![21.0]);
    assert_eq!(f32s(sum(&x, Some(&[0]), false)), vec![5.0, 7.0, 9.0]);
    let kept = sum(&x, Some(&[-1]), true).unwrap();
    assert_eq!(kept.shape(), &[2, 1]);
    assert_eq!(kept.to_vec_f32().unwrap(), vec![6.0, 15.0]);
    assert_eq!(f32s(mean(&x, Some(&[1]), false)), vec![2.0, 5.0]);
    assert_eq!(f64s(sum(&d(&[1.0, 2.5], &[2]), None, false)), vec![3.5]);
    assert_eq!(f32s(amax(&x, 0, true)), vec![4.0, 5.0, 6.0]);
    assert_eq!(argmax_last(&x).unwrap().to_vec_i64().unwrap(), vec![2, 2]);
    assert_eq!(fault(sum(&x, Some(&[2]), false)).kind, ErrorKind::Shape);
    says(
        mean(&i(&[1], &[1]), None, false),
        ErrorKind::Dtype,
        "mean",
        "float only",
    );
}

#[test]
fn products_of_matrices() {
    let a = t(&[1.0, 2.0, 3.0, 4.0], &[2, 2]);
    let b = t(&[5.0, 6.0, 7.0, 8.0], &[2, 2]);
    assert_eq!(f32s(matmul(&a, &b)), vec![19.0, 22.0, 43.0, 50.0]);
    let v = t(&[1.0, 10.0], &[2]);
    let left = matmul(&v, &b).unwrap();
    assert_eq!(left.shape(), &[2]);
    assert_eq!(left.to_vec_f32().unwrap(), vec![75.0, 86.0]);
    let right = matmul(&b, &v).unwrap();
    assert_eq!(right.shape(), &[2]);
    assert_eq!(right.to_vec_f32().unwrap(), vec![65.0, 87.0]);
    let stack = t(&[1.0, 0.0, 0.0, 1.0, 2.0, 0.0, 0.0, 2.0], &[2, 2, 2]);
    let c = matmul(&stack, &b).unwrap();
    assert_eq!(c.shape(), &[2, 2, 2]);
    assert_eq!(
        c.to_vec_f32().unwrap(),
        vec![5.0, 6.0, 7.0, 8.0, 10.0, 12.0, 14.0, 16.0]
    );
    assert_eq!(
        f64s(matmul(&d(&[2.0], &[1, 1]), &d(&[3.0], &[1, 1]))),
        vec![6.0]
    );
    says(
        matmul(&t(&[1.0], &[]), &v),
        ErrorKind::Shape,
        "matmul",
        "rank-0 is not allowed",
    );
    assert_eq!(fault(matmul(&i(&[1], &[1]), &i(&[1], &[1]))).kind, ErrorKind::Dtype);
    assert!(!cpu::accelerate_enabled());
}

#[test]
fn gathering_and_scattering() {
    let x = t(&[1.0, 2.0, 3.0, 4.0], &[2, 2]);
    let index = i(&[1, 0, -1, -2], &[2, 2]);
    assert_eq!(f32s(gather(&x, 1, &index)), vec![2.0, 1.0, 4.0, 3.0]);
    says(
        gather(&x, 1, &i(&[2, 0, 0, 0], &[2, 2])),
        ErrorKind::Index,
        "gather",
        "index out of bounds",
    );
    says(
        gather(&d(&[1.0, 2.0], &[1, 2]), 1, &i(&[5], &[1, 1])),
        ErrorKind::Index,
        "gather",
        "index out of bounds",
    );
    says(
        gather(&x, 1, &x),
        ErrorKind::Dtype,
        "gather",
        "index must be i64",
    );
    let zero: T = Tensor::zeros(&[2, 2], Dtype::F32).unwrap();
    let src = t(&[1.0, 10.0, 100.0, 1000.0], &[2, 2]);
    assert_eq!(
        f32s(scatter_add(&zero, 1, &i(&[0, 0, 1, 0], &[2, 2]), &src)),
        vec![11.0, 0.0, 1000.0, 100.0]
    );
    says(
        scatter_add(&zero, 1, &i(&[0], &[1, 1]), &src),
        ErrorKind::Shape,
        "scatter_add",
        "index and src shapes must match",
    );
    says(
        scatter_add(&zero, 1, &i(&[0, 0, 3, 0], &[2, 2]), &src),
        ErrorKind::Index,
        "scatter_add",
        "index out of bounds",
    );
    assert_eq!(f32s(take(&x, 1, &i(&[1, -2], &[2]))), vec![2.0, 3.0]);
    says(
        take(&x, 1, &i(&[2, 0], &[2])),
        ErrorKind::Index,
        "take",
        "oob",
    );
    says(
        take(&x, 0, &i(&[0, 0], &[2])),
        ErrorKind::Shape,
        "take",
        "v1 take supports rank-2 axis=1 only",
    );
}

#[test]
fn joining_along_an_axis() {
    let a = t(&[1.0, 2.0], &[2, 1]);
    let b = t(&[3.0, 4.0, 5.0, 6.0], &[2, 2]);
    let c = joining::cat(&[&a, &b], -1).unwrap();
    assert_eq!(c.shape(), &[2, 3]);
    assert_eq!(c.to_vec_f32().unwrap(), vec![1.0, 3.0, 4.0, 2.0, 5.0, 6.0]);
    let s = joining::stack(&[&a, &a], 0).unwrap();
    assert_eq!(s.shape(), &[2, 2, 1]);
    assert_eq!(s.to_vec_f32().unwrap(), vec![1.0, 2.0, 1.0, 2.0]);
    assert!(joining::cat(&[&a, &b], 0).is_err());
    assert!(joining::cat::<Ieee>(&[], 0).is_err());
}

#[test]
fn rows_of_a_matrix() {
    let x = t(&[0.0, 0.0, 1.0, 3.0], &[2, 2]);
    let p = f32s(softmax_last(&x));
    close(&p[..2], &[0.5, 0.5], 1e-6);
    let e = (1f32 - 3.0).exp();
    close(&p[2..], &[e / (1.0 + e), 1.0 / (1.0 + e)], 1e-6);
    let l = f32s(log_softmax_last(&x));
    close(&l, &p.iter().map(|p| p.ln()).collect::<Vec<_>>(), 1e-6);
    let y = f32s(rms_norm(&t(&[3.0, 4.0], &[1, 2]), 0.0));
    let r = 1.0 / 12.5f32.sqrt();
    close(&y, &[3.0 * r, 4.0 * r], 1e-6);
    assert_eq!(
        f32s(lookup::embedding(
            &t(&[1.0, 2.0, 3.0, 4.0], &[2, 2]),
            &i(&[1, 0, 1], &[3])
        )),
        vec![3.0, 4.0, 1.0, 2.0, 3.0, 4.0]
    );
}

#[test]
fn a_masked_loss_counts_the_unmasked() {
    let logits = t(&[0.0, 0.0, 9.0, 1.0], &[2, 2]);
    let (loss, probs) =
        loss::masked_ce(&logits, &i(&[0, 1], &[2]), &t(&[1.0, 0.0], &[2])).unwrap();
    close(&loss.to_vec_f32().unwrap(), &[2f32.ln()], 1e-6);
    close(&probs.to_vec_f32().unwrap()[..2], &[0.5, 0.5], 1e-6);
    let slope =
        loss::masked_ce_backward(&probs, &i(&[0, 1], &[2]), &t(&[1.0, 0.0], &[2])).unwrap();
    close(&slope.to_vec_f32().unwrap(), &[-0.5, 0.5, 0.0, 0.0], 1e-6);
}

#[test]
fn a_recurrence_and_its_slopes() {
    let a = t(&[0.5, 0.5, 0.5], &[1, 3, 1]);
    let b = t(&[1.0, 1.0, 1.0], &[1, 3, 1]);
    let h = gated_scan(&a, &b).unwrap();
    assert_eq!(h.to_vec_f32().unwrap(), vec![1.0, 1.5, 1.75]);
    let (ga, gb) = gated_scan_backward(&a, &h, &t(&[1.0, 1.0, 1.0], &[1, 3, 1])).unwrap();
    assert_eq!(gb.to_vec_f32().unwrap(), vec![1.75, 1.5, 1.0]);
    assert_eq!(ga.to_vec_f32().unwrap(), vec![0.0, 1.5, 1.5]);
}
