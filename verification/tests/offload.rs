//! Devices, and products whose work is shared out among them. A plain loop stands for the kernel
//! of a device.

use gtensor::devices::{
    device_score, eligible_states, gpu_all_device_names, gpu_available, gpu_device_count,
    gpu_device_name, gpu_device_names, is_intel, set_include_integrated, Gpus, Visible,
};
use gtensor::error::Error;
use gtensor::gpu::{
    finish, gather_answers, gpu_work, join_halves, matmul_cpu_gpu, matmul_dims, plan, route,
    should_offload_matmul, start_of, GpuWork, Job, Route, Tried,
};
use gtensor::matmul::matmul;
use gtensor::scalar::{Arith, Scalars};
use gtensor::tensor::Tensor;

/// IEEE 754 numbers.
struct Ieee;

impl Arith<f32> for Ieee {
    fn zero() -> f32 {
        0.0
    }
    fn one() -> f32 {
        1.0
    }
    fn lowest() -> f32 {
        f32::NEG_INFINITY
    }
    fn undefined() -> f32 {
        f32::NAN
    }
    fn plus(x: f32, y: f32) -> f32 {
        x + y
    }
    fn minus(x: f32, y: f32) -> f32 {
        x - y
    }
    fn times(x: f32, y: f32) -> f32 {
        x * y
    }
    fn over(x: f32, y: f32) -> f32 {
        x / y
    }
    fn negated(x: f32) -> f32 {
        -x
    }
    fn above(x: f32, y: f32) -> bool {
        x > y
    }
    fn at_least(x: f32, y: f32) -> bool {
        x >= y
    }
    fn same(x: f32, y: f32) -> bool {
        x == y
    }
    fn greater(x: f32, y: f32) -> f32 {
        x.max(y)
    }
    fn held(x: f32, low: f32, high: f32) -> f32 {
        x.clamp(low, high)
    }
    fn scientific(m: i64, e: i32) -> f32 {
        format!("{m}e{e}").parse().unwrap()
    }
    fn magnitude(x: f32) -> f32 {
        x.abs()
    }
    fn exponential(x: f32) -> f32 {
        x.exp()
    }
    fn logarithm(x: f32) -> f32 {
        x.ln()
    }
    fn root(x: f32) -> f32 {
        x.sqrt()
    }
    fn tangent(x: f32) -> f32 {
        x.tanh()
    }
    fn sine(x: f32) -> f32 {
        x.sin()
    }
    fn cosine(x: f32) -> f32 {
        x.cos()
    }
    fn power(x: f32, p: f32) -> f32 {
        x.powf(p)
    }
    fn count(n: usize) -> f32 {
        n as f32
    }
    fn ratio(n: i64, d: i64) -> f32 {
        n as f32 / d as f32
    }
}

impl Arith<f64> for Ieee {
    fn zero() -> f64 {
        0.0
    }
    fn one() -> f64 {
        1.0
    }
    fn lowest() -> f64 {
        f64::NEG_INFINITY
    }
    fn undefined() -> f64 {
        f64::NAN
    }
    fn plus(x: f64, y: f64) -> f64 {
        x + y
    }
    fn minus(x: f64, y: f64) -> f64 {
        x - y
    }
    fn times(x: f64, y: f64) -> f64 {
        x * y
    }
    fn over(x: f64, y: f64) -> f64 {
        x / y
    }
    fn negated(x: f64) -> f64 {
        -x
    }
    fn above(x: f64, y: f64) -> bool {
        x > y
    }
    fn at_least(x: f64, y: f64) -> bool {
        x >= y
    }
    fn same(x: f64, y: f64) -> bool {
        x == y
    }
    fn greater(x: f64, y: f64) -> f64 {
        x.max(y)
    }
    fn held(x: f64, low: f64, high: f64) -> f64 {
        x.clamp(low, high)
    }
    fn scientific(m: i64, e: i32) -> f64 {
        format!("{m}e{e}").parse().unwrap()
    }
    fn magnitude(x: f64) -> f64 {
        x.abs()
    }
    fn exponential(x: f64) -> f64 {
        x.exp()
    }
    fn logarithm(x: f64) -> f64 {
        x.ln()
    }
    fn root(x: f64) -> f64 {
        x.sqrt()
    }
    fn tangent(x: f64) -> f64 {
        x.tanh()
    }
    fn sine(x: f64) -> f64 {
        x.sin()
    }
    fn cosine(x: f64) -> f64 {
        x.cos()
    }
    fn power(x: f64, p: f64) -> f64 {
        x.powf(p)
    }
    fn count(n: usize) -> f64 {
        n as f64
    }
    fn ratio(n: i64, d: i64) -> f64 {
        n as f64 / d as f64
    }
}

impl Scalars for Ieee {
    type F = f32;
    type D = f64;
    fn widen(x: f32) -> f64 {
        x as f64
    }
    fn narrow(x: f64) -> f32 {
        x as f32
    }
    fn truncate_f32(x: f32) -> i64 {
        x as i64
    }
    fn truncate_f64(x: f64) -> i64 {
        x as i64
    }
    fn integer_f32(i: i64) -> f32 {
        i as f32
    }
    fn integer_f64(i: i64) -> f64 {
        i as f64
    }
    fn natural_f64(n: u64) -> f64 {
        n as f64
    }
}

type T = Tensor<Ieee>;

fn t(data: &[f32], shape: &[usize]) -> T {
    Tensor::from_slice_f32(data, shape).unwrap()
}

fn close(a: f32, b: f32) -> bool {
    // The same dot products may be accumulated in different orders, so a
    // tiny relative error is expected at f32 magnitudes around 1e8.
    (a - b).abs() <= 1e-3 + 1e-5 * a.abs().max(b.abs())
}

fn all_close(a: &T, b: &T) {
    let x = a.to_vec_f32().unwrap();
    let y = b.to_vec_f32().unwrap();
    assert_eq!(x.len(), y.len());
    for (i, (x, y)) in x.iter().zip(&y).enumerate() {
        assert!(close(*x, *y), "{i}: {x} != {y}");
    }
}

/// What one device answers to its job.
fn answer(job: &Job, work: &GpuWork<f32>) -> Vec<f32> {
    let a = &work.operands.a[job.a_from..job.a_to];
    let b = &work.operands.b[job.b_from..job.b_to];
    let count: usize = job.batch.iter().product();
    let mut c = vec![0.0f32; count * job.m * job.n];
    for bi in 0..count {
        for i in 0..job.m {
            let row = &mut c[(bi * job.m + i) * job.n..(bi * job.m + i + 1) * job.n];
            for p in 0..job.k {
                let x = a[(bi * job.m + i) * job.k + p];
                if x != 0.0 {
                    let line = &b[(bi * job.k + p) * job.n..(bi * job.k + p + 1) * job.n];
                    for (y, z) in row.iter_mut().zip(line) {
                        *y += x * z;
                    }
                }
            }
        }
    }
    c
}

/// The product, its work shared out among `devices` devices.
fn on_devices(op: &'static str, a: &T, b: &T, devices: usize) -> Result<T, Error> {
    let work = gpu_work(op, a, b, devices)?;
    let jobs = plan(&work.dims, devices);
    let answers = jobs.iter().map(|j| Ok(answer(j, &work))).collect();
    gather_answers(&work.dims, answers)
}

/// The product, part of it on this machine and the rest on `gpus` devices.
fn shared(a: &T, b: &T, gpus: usize) -> T {
    let halves = matmul_cpu_gpu(a, b, gpus).unwrap();
    let cpu = matmul(&halves.cpu_a, &halves.cpu_b);
    let gpu = match on_devices("matmul", &halves.gpu_a, &halves.gpu_b, gpus) {
        Ok(y) => Ok(y),
        Err(_) => matmul(&halves.gpu_a, &halves.gpu_b),
    };
    join_halves(cpu, gpu).unwrap()
}

fn identities(b: usize, m: usize, k: usize) -> Vec<f32> {
    let mut a = vec![0.0f32; b * m * k];
    for bi in 0..b {
        for i in 0..m {
            a[(bi * m + i) * k + i] = 1.0;
        }
    }
    a
}

fn pattern(rows: usize, columns: usize, f: impl Fn(usize, usize) -> usize) -> Vec<f32> {
    let mut v = vec![0.0f32; rows * columns];
    for i in 0..rows {
        for j in 0..columns {
            v[i * columns + j] = f(i, j) as f32;
        }
    }
    v
}

fn visible(names: &[(&str, bool)]) -> Vec<Visible> {
    names
        .iter()
        .map(|(name, low_power)| Visible {
            name: (*name).to_owned(),
            low_power: *low_power,
        })
        .collect()
}

#[test]
fn batched_rank3_times_rank2_matches_cpu_reference() {
    // [2, 512, 512] @ [512, 512]. Sits exactly on the offload crossover, and the
    // identity LHS makes the expected output trivial to verify without
    // materializing a second matmul.
    let (b, m, n, k) = (2usize, 512usize, 512usize, 512usize);
    let rhs = pattern(k, n, |i, j| (i * 7 + j * 3) % 997);
    let at = t(&identities(b, m, k), &[b, m, k]);
    let bt = t(&rhs, &[k, n]);
    let y = on_devices("matmul", &at, &bt, 1).unwrap();
    assert_eq!(y.shape(), &[b, m, n]);

    let got = y.to_vec_f32().unwrap();
    for bi in 0..b {
        for (i, j) in [(0usize, 0usize), (1, 511), (511, 1), (511, 511)] {
            let expected = rhs[i * n + j];
            let actual = got[(bi * m + i) * n + j];
            assert!(
                close(actual, expected),
                "{bi} {i} {j}: {actual} != {expected}"
            );
        }
    }
}

#[test]
fn multi_device_rank3_times_rank2_matches_single() {
    let (b, m, n, k) = (2usize, 512usize, 512usize, 512usize);
    let at = t(&identities(b, m, k), &[b, m, k]);
    let bt = t(&pattern(k, n, |i, j| (i * 7 + j * 3) % 997), &[k, n]);
    let single = on_devices("matmul", &at, &bt, 1).unwrap();
    let multi = on_devices("matmul_multi_device", &at, &bt, 2).unwrap();
    all_close(&single, &multi);
}

#[test]
fn cpu_gpu_batched_matches_single() {
    let (b, m, n, k) = (6usize, 512usize, 512usize, 512usize);
    let at = t(&identities(b, m, k), &[b, m, k]);
    let bt = t(&pattern(k, n, |i, j| (i * 7 + j * 3) % 997), &[k, n]);
    let single = on_devices("matmul", &at, &bt, 1).unwrap();
    all_close(&shared(&at, &bt, 1), &single);
}

#[test]
fn cpu_gpu_rank3_times_rank3_matches_single() {
    let (b, m, n, k) = (6usize, 512usize, 512usize, 512usize);
    let mut a = Vec::new();
    let mut bmat = Vec::new();
    for bi in 0..b {
        a.extend(pattern(m, k, |i, j| (i * 3 + j * 5 + bi) % 991));
        bmat.extend(pattern(k, n, |i, j| (i * 7 + j * 11 + bi) % 983));
    }
    let at = t(&a, &[b, m, k]);
    let bt = t(&bmat, &[b, k, n]);
    let single = on_devices("matmul", &at, &bt, 1).unwrap();
    all_close(&shared(&at, &bt, 2), &single);
}

#[test]
fn cpu_gpu_rank2_matches_single() {
    let (m, n, k) = (1536usize, 512usize, 512usize);
    let at = t(&pattern(m, k, |i, j| (i * 3 + j * 5) % 991), &[m, k]);
    let bt = t(&pattern(k, n, |i, j| (i * 7 + j * 11) % 983), &[k, n]);
    let single = on_devices("matmul", &at, &bt, 1).unwrap();
    all_close(&shared(&at, &bt, 1), &single);
}

#[test]
fn multi_device_single_batch_rank3_matches_single() {
    let (m, n, k) = (768usize, 768usize, 768usize);
    let at = t(&identities(1, m, k), &[1, m, k]);
    let bt = t(&pattern(k, n, |i, j| (i * 7 + j * 3) % 997), &[k, n]);
    let single = on_devices("matmul", &at, &bt, 1).unwrap();
    let multi = on_devices("matmul_multi_device", &at, &bt, 3).unwrap();
    all_close(&single, &multi);
}

#[test]
fn multi_device_rank2_matches_single() {
    let (m, n, k) = (512usize, 512usize, 1024usize);
    let at = t(&pattern(m, k, |i, j| (i * 3 + j * 5) % 991), &[m, k]);
    let bt = t(&pattern(k, n, |i, j| (i * 7 + j * 11) % 983), &[k, n]);
    let single = matmul(&at, &bt).unwrap();
    let multi = on_devices("matmul_multi_device", &at, &bt, 3).unwrap();
    all_close(&single, &multi);
}

#[test]
fn batched_rank3_times_rank3_keeps_batch_pairing() {
    // [2, 512, 512] @ [2, 512, 512]. A diagonal LHS scaled per batch means
    // batch bi of the output must only depend on batch bi of the RHS.
    let (b, m, n, k) = (2usize, 512usize, 512usize, 512usize);
    let mut a = vec![0.0f32; b * m * k];
    let mut rhs = Vec::new();
    for bi in 0..b {
        let scale = (bi + 1) as f32;
        for i in 0..m {
            a[(bi * m + i) * k + i] = scale;
        }
        rhs.extend(pattern(k, n, |i, j| (i * 5 + j * 11 + bi * 3) % 991));
    }
    let at = t(&a, &[b, m, k]);
    let bt = t(&rhs, &[b, k, n]);
    let y = on_devices("matmul", &at, &bt, 2).unwrap();
    assert_eq!(y.shape(), &[b, m, n]);

    let got = y.to_vec_f32().unwrap();
    for bi in 0..b {
        let scale = (bi + 1) as f32;
        for (i, j) in [(0usize, 0usize), (7, 500), (500, 7), (511, 511)] {
            let expected = scale * rhs[(bi * k + i) * n + j];
            let actual = got[(bi * m + i) * n + j];
            assert!(
                close(actual, expected),
                "{bi} {i} {j}: {actual} != {expected}"
            );
        }
    }
}

#[test]
fn large_gemm_matches_cpu_small_patch() {
    // 1024 meets offload rule (max dim >= 1024 and volume).
    let n = 1024usize;
    let mut a = vec![0.0f32; n * n];
    let mut b = vec![0.0f32; n * n];
    for i in 0..n {
        a[i * n + i] = 1.0;
        b[i * n + (i % n)] = (i % 7) as f32 * 0.1;
    }
    let at = t(&a, &[n, n]);
    let bt = t(&b, &[n, n]);
    assert!(should_offload_matmul(&at, &bt));
    let y = on_devices("matmul", &at, &bt, 1).unwrap();
    // I @ B = B
    let got = y.to_vec_f32().unwrap();
    for i in 0..64 {
        assert!((got[i] - b[i]).abs() < 1e-4, "{i} {} {}", got[i], b[i]);
    }
}

#[test]
fn gpu_reports_metal_device() {
    let gpus = Gpus::new(&visible(&[("Apple M1", false)]));
    assert!(gpu_device_count(&gpus) >= 1);
    if let Some(name) = gpu_device_name(&gpus) {
        assert!(!name.is_empty());
        println!("gpu device: {name}");
    }
}

#[test]
fn igpu_include_loop_matches_single() {
    let mut gpus = Gpus::new(&visible(&[
        ("Intel(R) UHD Graphics 630", true),
        ("AMD Radeon Pro 5300M", false),
    ]));
    println!("all: {:?}", gpu_all_device_names(&gpus));
    println!("eligible default: {:?}", gpu_device_names(&gpus));
    set_include_integrated(&mut gpus, true);
    println!("eligible with igpu: {:?}", gpu_device_names(&gpus));
    assert_eq!(gpu_device_count(&gpus), 2);

    let (b, m, n, k) = (6usize, 512usize, 512usize, 512usize);
    let at = t(&identities(b, m, k), &[b, m, k]);
    let bt = t(&pattern(k, n, |i, j| (i * 7 + j * 3) % 997), &[k, n]);

    set_include_integrated(&mut gpus, false);
    assert_eq!(gpu_device_count(&gpus), 1);
    let single = on_devices("matmul", &at, &bt, gpu_device_count(&gpus)).unwrap();
    set_include_integrated(&mut gpus, true);
    for iter in 0..6 {
        let multi = on_devices("matmul", &at, &bt, gpu_device_count(&gpus)).unwrap();
        all_close(&single, &multi);
        println!("iter {iter} ok");
    }

    // A single-batch rank-3 product goes to one device even when both are
    // eligible (there is no batch axis worth fanning out).
    let m1 = 768usize;
    let a1t = t(&identities(1, m1, m1), &[1, m1, m1]);
    let b1t = t(&pattern(m1, m1, |i, j| (i * 5 + j * 7) % 997), &[m1, m1]);
    let work = gpu_work("matmul", &a1t, &b1t, 2).unwrap();
    assert_eq!(plan(&work.dims, 2).len(), 1);
    let got = on_devices("matmul", &a1t, &b1t, 2).unwrap();
    let want = on_devices("matmul", &a1t, &b1t, 1).unwrap();
    all_close(&got, &want);
}

#[test]
fn discrete_devices_come_first() {
    let gpus = Gpus::new(&visible(&[
        ("INTEL Iris", true),
        ("Some Device", false),
        ("NVIDIA GeForce", false),
        ("AMD Radeon", false),
    ]));
    let names = gpu_all_device_names(&gpus);
    assert_eq!(names.last().unwrap(), "INTEL Iris");
    assert_eq!(names.len(), 4);
    assert_eq!(gpu_device_names(&gpus).len(), 3);
    assert_eq!(gpu_device_name(&gpus), Some(names[0].clone()));
    assert_eq!(eligible_states(&gpus), vec![0, 1, 2]);
    assert!(device_score("AMD Radeon", false) > device_score("Intel UHD", true));
    assert!(device_score("NVIDIA Quadro", false) > device_score("Some Device", false));
    // Names are read in any case.
    assert_eq!(device_score("RADEON", false), device_score("radeon", false));
    assert!(is_intel("INTEL Iris") && !is_intel("AMD Radeon"));
}

#[test]
fn an_integrated_device_computes_where_it_is_the_only_one() {
    let gpus = Gpus::new(&visible(&[("Intel Iris", true)]));
    assert!(gpu_available(&gpus));
    assert_eq!(gpu_device_names(&gpus), vec!["Intel Iris".to_owned()]);
    let none = Gpus::new(&[]);
    assert!(!gpu_available(&none));
    assert_eq!(gpu_device_count(&none), 0);
    assert_eq!(gpu_device_name(&none), None);
}

#[test]
fn small_or_odd_products_stay_here() {
    let a = t(&[1.0; 4], &[2, 2]);
    assert!(!should_offload_matmul(&a, &a));
    let e = match on_devices("matmul", &a, &a, 1) {
        Ok(_) => panic!("expected an error"),
        Err(e) => e,
    };
    assert_eq!(
        e.describe(),
        "unsupported error in matmul: dtype=F32 device=Gpu: below crossover; use CPU"
    );
    let i: T = Tensor::from_slice_i64(&[1; 4], &[2, 2]).unwrap();
    assert!(matmul_dims(&i, &i).is_none());
    let e = match on_devices("matmul", &i, &i, 1) {
        Ok(_) => panic!("expected an error"),
        Err(e) => e,
    };
    assert_eq!(
        e.describe(),
        "unsupported error in matmul: dtype=I64 device=Gpu: unsupported shape/dtype"
    );
    let big = t(&identities(1, 1024, 1024), &[1024, 1024]);
    let e = match on_devices("matmul", &big, &big, 0) {
        Ok(_) => panic!("expected an error"),
        Err(e) => e,
    };
    assert_eq!(
        e.describe(),
        "unsupported error in matmul: dtype=F32 device=Gpu: no Metal device"
    );
    assert!(matmul_cpu_gpu(&big, &big, 0).is_none());
    assert!(matmul_cpu_gpu(&a, &a, 5).is_none());
}

#[test]
fn spans_tile_the_work() {
    let starts: Vec<usize> = (0..4).map(|p| start_of(10, 3, p)).collect();
    assert_eq!((starts[0], starts[3]), (0, 10));
    assert!(starts.windows(2).all(|w| w[0] < w[1]));
    let d = matmul_dims(&t(&[1.0; 6], &[3, 2]), &t(&[1.0; 4], &[2, 2])).unwrap();
    let jobs = plan(&d, 2);
    assert_eq!(jobs.len(), 2);
    assert_eq!(jobs[0].m + jobs[1].m, 3);
    assert_eq!(jobs[0].a_to, jobs[1].a_from);
    assert_eq!((jobs[0].a_from, jobs[1].a_to), (0, 6));
}

#[test]
fn vectors_are_rows_on_the_left_and_columns_on_the_right() {
    let v = t(&[1.0, 2.0], &[2]);
    let m = t(&[1.0, 2.0, 3.0, 4.0], &[2, 2]);
    let d = matmul_dims(&v, &m).unwrap();
    assert_eq!((d.m, d.n, d.k, d.left, d.right), (1, 2, 2, true, false));
    let y: T = finish(&d, vec![7.0, 10.0]).unwrap();
    let c = matmul(&v, &m).unwrap();
    assert_eq!(y.shape(), c.shape());
    assert_eq!(y.to_vec_f32().unwrap(), c.to_vec_f32().unwrap());
}

#[test]
fn one_failure_fails_the_product() {
    let d = matmul_dims(&t(&[1.0; 4], &[2, 2]), &t(&[1.0; 4], &[2, 2])).unwrap();
    let e = Error::device("matmul", "lost".to_owned());
    let r: Result<T, Error> = gather_answers(&d, vec![Ok(vec![1.0, 2.0]), Err(e)]);
    match r {
        Ok(_) => panic!("expected an error"),
        Err(e) => assert_eq!(e.describe(), "device error in matmul: lost"),
    }
    let y: T = gather_answers(&d, vec![Ok(vec![1.0, 2.0]), Ok(vec![3.0, 4.0])]).unwrap();
    assert_eq!(y.to_vec_f32().unwrap(), vec![1.0, 2.0, 3.0, 4.0]);
}

#[test]
fn a_large_product_is_shared_then_left_to_the_devices_then_computed_here() {
    let big = t(&identities(1, 1024, 1024), &[1024, 1024]);
    assert!(matches!(route(&big, &big, 1, Tried::Nothing), Route::Share(_)));
    assert!(matches!(route(&big, &big, 2, Tried::Shared), Route::Many));
    assert!(matches!(route(&big, &big, 1, Tried::Shared), Route::One));
    assert!(matches!(route(&big, &big, 0, Tried::Nothing), Route::One));
    assert!(matches!(route(&big, &big, 2, Tried::Devices), Route::Here));
    let small = t(&[1.0; 4], &[2, 2]);
    assert!(matches!(route(&small, &small, 2, Tried::Nothing), Route::Here));
    match route(&big, &big, 3, Tried::Nothing) {
        Route::Share(h) => {
            assert_eq!(h.cpu_a.shape(), &[256, 1024]);
            assert_eq!(h.gpu_a.shape(), &[768, 1024]);
            assert_eq!(h.cpu_b.shape(), h.gpu_b.shape());
        }
        _ => panic!("expected a split"),
    }
}
