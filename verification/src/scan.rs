//! Gated linear recurrence over `[batch, time, width]`.
use vstd::prelude::*;
use crate::dtype::Dtype;
use crate::error::{Error, ErrorKind};
use crate::index::{fits, volume};
use crate::indexing::same_shape;
use crate::scalar::{is_product, is_sum, is_zero, Arith, Scalars};
use crate::slopes::pair_outcome;
use crate::tensor::{numel_error, outcome, repeated, Model, Outcome, Tensor, TensorModel};

verus! {

/// `r` is `a * prev + b`.
pub open spec fn advances<T, A: Arith<T>>(a: T, prev: T, b: T, r: T) -> bool {
    exists|t: T| #[trigger] is_product::<T, A>(a, prev, t) && is_sum::<T, A>(t, b, r)
}

/// The state before place `p`: zero at the first time step, else that of the step before. A batch
/// is `step` elements, a time step `d`.
pub open spec fn state_before<T>(h: Seq<T>, step: int, d: int, z: T, p: int) -> T {
    if p % step < d {
        z
    } else {
        h[p - d]
    }
}

/// `h` is the recurrence `h_t = a_t * h_{t-1} + b_t`, from zero, in every batch.
pub open spec fn scans<T, A: Arith<T>>(a: Seq<T>, b: Seq<T>, step: int, d: int, h: Seq<T>) -> bool {
    exists|z: T| #[trigger] is_zero::<T, A>(z) && scans_from::<T, A>(a, b, step, d, z, h)
}

/// `h` is the recurrence from `z`.
pub open spec fn scans_from<T, A: Arith<T>>(
    a: Seq<T>,
    b: Seq<T>,
    step: int,
    d: int,
    z: T,
    h: Seq<T>,
) -> bool {
    &&& h.len() == a.len()
    &&& forall|p: int|
        0 <= p < h.len() ==> advances::<T, A>(
            a[p],
            state_before(h, step, d, z, p),
            b[p],
            #[trigger] h[p],
        )
}

/// Types and shapes are those that the recurrence asks for.
pub open spec fn scan_ready<F, D>(a: TensorModel<F, D>, b: TensorModel<F, D>) -> bool {
    &&& a.dtype() == Dtype::F32 && b.dtype() == Dtype::F32
    &&& a.shape.len() == 3 && b.shape.len() == 3
    &&& a.shape == b.shape
}

/// The recurrence is refused.
pub open spec fn scan_error<F, D>(e: Error, a: TensorModel<F, D>, b: TensorModel<F, D>) -> bool {
    if a.dtype() != Dtype::F32 || b.dtype() != Dtype::F32 {
        e.says(ErrorKind::Dtype, "gated_scan"@, "f32 only"@)
    } else if a.shape.len() != 3 || b.shape.len() != 3 {
        e.says(ErrorKind::Shape, "gated_scan"@, "expected [B, T, D]"@)
    } else if a.shape != b.shape {
        e.says(ErrorKind::Shape, "gated_scan"@, "gate/input shape mismatch"@)
    } else {
        !fits(a.shape) && numel_error(e)
    }
}

/// Checks types and shapes.
fn check<S: Scalars>(a: &Tensor<S>, b: &Tensor<S>) -> (r: Result<(), Error>)
    ensures
        r is Ok ==> scan_ready(a@, b@) && fits(a@.shape),
        r matches Err(e) ==> !(scan_ready(a@, b@) && fits(a@.shape)) && scan_error(e, a@, b@),
{
    if a.dtype() != Dtype::F32 || b.dtype() != Dtype::F32 {
        return Err(Error::dtype("gated_scan", "f32 only".to_owned()));
    }
    if a.rank() != 3 || b.rank() != 3 {
        return Err(Error::shape("gated_scan", "expected [B, T, D]".to_owned()));
    }
    if !same_shape(a.shape(), b.shape()) {
        return Err(Error::shape("gated_scan", "gate/input shape mismatch".to_owned()));
    }
    match crate::shape::numel(a.shape()) {
        Ok(_) => Ok(()),
        Err(e) => Err(e),
    }
}

/// Elements of a batch.
pub open spec fn batch_len(shape: Seq<usize>) -> int {
    shape[1] * shape[2]
}

/// A shape of three axes.
proof fn lemma_three(shape: Seq<usize>)
    requires
        shape.len() == 3,
    ensures
        volume(shape) == shape[0] * batch_len(shape),
{
    let a = shape.drop_last();
    assert(a.drop_last().drop_last().len() == 0);
    assert(volume(a.drop_last().drop_last()) == 1);
    assert(a.drop_last().last() == shape[0]);
    assert(a.last() == shape[1]);
    let x = shape[0] as nat;
    let y = shape[1] as nat;
    let w = shape[2] as nat;
    assert(volume(a.drop_last()) == 1 * x);
    assert(volume(a) == volume(a.drop_last()) * y);
    assert(volume(shape) == volume(a) * w);
    assert(((1 * x) * y) * w == x * (y * w)) by (nonlinear_arith);
}

/// What `gated_scan` comes to.
pub open spec fn gated_scan_out<S: Scalars>(a: Model<S>, b: Model<S>, r: Outcome<S>) -> bool {
    match r {
        Ok(t) => {
            &&& scan_ready(a, b) && fits(a.shape)
            &&& t.plain(a.shape) && t.valid() && t.elems() == t.data && t.data is F32
            &&& scans::<S::F, S>(
                a.f32s(),
                b.f32s(),
                batch_len(a.shape),
                a.shape[2] as int,
                t.data->F32_0,
            )
        },
        Err(e) => scan_error(e, a, b),
    }
}

fn advance_state<T: Copy, A: Arith<T>>(a: T, prev: T, b: T) -> (r: T)
    ensures
        advances::<T, A>(a, prev, b, r),
{
    let t: T = A::times(a, prev);
    assert(is_product::<T, A>(a, prev, t));
    A::plus(t, b)
}

/// The recurrence over all batches.
fn scan_values<T: Copy, A: Arith<T>>(a: &[T], b: &[T], step: usize, d: usize) -> (h: Vec<T>)
    requires
        a@.len() == b@.len(),
        a@.len() > 0 ==> 0 < d <= step,
    ensures
        scans::<T, A>(a@, b@, step as int, d as int, h@),
{
    let z: T = A::zero();
    assert(is_zero::<T, A>(z));
    let mut h: Vec<T> = Vec::new();
    let mut p: usize = 0;
    while p < a.len()
        invariant
            p <= a@.len() == b@.len(),
            a@.len() > 0 ==> 0 < d <= step,
            h@.len() == p,
            forall|q: int|
                0 <= q < p ==> advances::<T, A>(
                    a@[q],
                    state_before(h@, step as int, d as int, z, q),
                    b@[q],
                    #[trigger] h@[q],
                ),
        decreases a@.len() - p,
    {
        proof {
            if p % step >= d {
                assert(p % step <= p) by (nonlinear_arith)
                    requires
                        step > 0,
                        p >= 0,
                ;
            }
        }
        let prev: T = if p % step < d {
            z
        } else {
            h[p - d]
        };
        let ghost before = h@;
        let next: T = advance_state::<T, A>(a[p], prev, b[p]);
        h.push(next);
        proof {
            assert forall|q: int| 0 <= q < p + 1 implies advances::<T, A>(
                a@[q],
                state_before(h@, step as int, d as int, z, q),
                b@[q],
                #[trigger] h@[q],
            ) by {
                assert(q % (step as int) <= q) by (nonlinear_arith)
                    requires
                        step > 0,
                        q >= 0,
                ;
                if q < p {
                    assert(h@[q] == before[q]);
                    assert(state_before(h@, step as int, d as int, z, q) == state_before(
                        before,
                        step as int,
                        d as int,
                        z,
                        q,
                    ));
                }
            }
        }
        p = p + 1;
    }
    assert(scans_from::<T, A>(a@, b@, step as int, d as int, z, h@));
    h
}

/// Forward scan: `h_t = a_t * h_{t-1} + b_t`, with `h_{-1} = 0`.
pub fn gated_scan<S: Scalars>(a: &Tensor<S>, b: &Tensor<S>) -> (r: Result<Tensor<S>, Error>)
    ensures
        gated_scan_out::<S>(a@, b@, outcome(r)),
{
    match check(a, b) {
        Ok(_) => {},
        Err(e) => {
            return Err(e);
        },
    }
    match (a.to_vec_f32(), b.to_vec_f32()) {
        (Ok(av), Ok(bv)) => {
            proof {
                lemma_three(a@.shape);
            }
            if av.len() == 0 {
                let none: Vec<S::F> = Vec::new();
                let z: S::F = <S as Arith<S::F>>::zero();
                assert(is_zero::<S::F, S>(z));
                assert(scans_from::<S::F, S>(
                    av@,
                    bv@,
                    batch_len(a@.shape),
                    a@.shape[2] as int,
                    z,
                    none@,
                ));
                return Tensor::from_vec_f32(none, a.shape());
            }
            let t: usize = a.shape()[1];
            let d: usize = a.shape()[2];
            let ghost n = a@.shape[0] as int;
            assert(0 < t * d <= usize::MAX && 0 < d <= t * d) by (nonlinear_arith)
                requires
                    0 < n * (t * d) <= usize::MAX,
                    n >= 0,
                    t >= 0,
                    d >= 0,
            ;
            let h: Vec<S::F> = scan_values::<S::F, S>(av.as_slice(), bv.as_slice(), t * d, d);
            Tensor::from_vec_f32(h, a.shape())
        },
        (Err(e), _) => Err(e),
        (_, Err(e)) => Err(e),
    }
}

/// What comes to place `p` from the next time step: `a_{t+1} * G_{t+1}`, or zero at the last.
pub open spec fn carried<T, A: Arith<T>>(
    a: Seq<T>,
    g: Seq<T>,
    step: int,
    d: int,
    p: int,
    r: T,
) -> bool {
    if p % step + d < step {
        is_product::<T, A>(a[p + d], g[p + d], r)
    } else {
        is_zero::<T, A>(r)
    }
}

/// `g` is `gh_t + a_{t+1} * g_{t+1}` at place `p`.
pub open spec fn carries<T, A: Arith<T>>(
    a: Seq<T>,
    gh: Seq<T>,
    step: int,
    d: int,
    g: Seq<T>,
    p: int,
) -> bool {
    exists|next: T| #[trigger]
        carried::<T, A>(a, g, step, d, p, next) && is_sum::<T, A>(gh[p], next, g[p])
}

/// `ga` is `g_t * h_{t-1}` at place `p`, zero at the first time step.
pub open spec fn gate_slope<T, A: Arith<T>>(
    h: Seq<T>,
    g: Seq<T>,
    step: int,
    d: int,
    p: int,
    ga: T,
) -> bool {
    if p % step >= d {
        is_product::<T, A>(g[p], h[p - d], ga)
    } else {
        is_zero::<T, A>(ga)
    }
}

/// `ga` and `gb` are the cotangents of gates and inputs.
pub open spec fn scans_back<T, A: Arith<T>>(
    a: Seq<T>,
    h: Seq<T>,
    gh: Seq<T>,
    step: int,
    d: int,
    ga: Seq<T>,
    gb: Seq<T>,
) -> bool {
    &&& ga.len() == a.len() && gb.len() == a.len()
    &&& forall|p: int|
        0 <= p < a.len() ==> #[trigger] carries::<T, A>(a, gh, step, d, gb, p)
    &&& forall|p: int| 0 <= p < a.len() ==> gate_slope::<T, A>(h, gb, step, d, p, #[trigger] ga[p])
}

/// What `gated_scan_backward` comes to.
pub open spec fn gated_scan_backward_out<S: Scalars>(
    a: Model<S>,
    h: Model<S>,
    gh: Model<S>,
    r: Result<(Model<S>, Model<S>), Error>,
) -> bool {
    match r {
        Ok(p) => {
            &&& scan_ready(a, h) && fits(a.shape) && gh.dtype() == Dtype::F32
            &&& p.0.plain(a.shape) && p.0.valid() && p.0.elems() == p.0.data && p.0.data is F32
            &&& p.1.plain(a.shape) && p.1.valid() && p.1.elems() == p.1.data && p.1.data is F32
            &&& scans_back::<S::F, S>(
                a.f32s(),
                h.f32s(),
                gh.f32s(),
                batch_len(a.shape),
                a.shape[2] as int,
                p.0.data->F32_0,
                p.1.data->F32_0,
            )
        },
        Err(e) => if scan_ready(a, h) && gh.dtype() != Dtype::F32 {
            e.says(ErrorKind::Dtype, "to_vec"@, "expected f32"@)
        } else {
            scan_error(e, a, h)
        },
    }
}

/// The cotangents at all places, from the last to the first.
fn scan_back_values<T: Copy, A: Arith<T>>(
    a: &[T],
    h: &[T],
    gh: &[T],
    step: usize,
    d: usize,
) -> (r: (Vec<T>, Vec<T>))
    requires
        a@.len() == h@.len(),
        gh@.len() >= a@.len(),
        a@.len() > 0 ==> 0 < d <= step && a@.len() % (step as nat) == 0,
    ensures
        scans_back::<T, A>(a@, h@, gh@, step as int, d as int, r.0@, r.1@),
{
    let n: usize = a.len();
    let z: T = A::zero();
    assert(is_zero::<T, A>(z));
    let ghost s = step as int;
    let ghost w = d as int;
    let mut ga: Vec<T> = repeated(z, n);
    let mut gb: Vec<T> = repeated(z, n);
    let mut p: usize = n;
    while p > 0
        invariant
            p <= n == a@.len() == h@.len(),
            gh@.len() >= a@.len(),
            a@.len() > 0 ==> 0 < d <= step && a@.len() % (step as nat) == 0,
            is_zero::<T, A>(z),
            s == step,
            w == d,
            ga@.len() == n,
            gb@.len() == n,
            forall|q: int| p <= q < n ==> #[trigger] carries::<T, A>(a@, gh@, s, w, gb@, q),
            forall|q: int| p <= q < n ==> gate_slope::<T, A>(h@, gb@, s, w, q, #[trigger] ga@[q]),
        decreases p,
    {
        let ghost old_gb = gb@;
        let ghost old_ga = ga@;
        let ghost last = p;
        p = p - 1;
        proof {
            lemma_next_place(n as int, s, w, p as int);
            assert(p % step < step);
        }
        let at: usize = p % step;
        let next: T = if d < step - at {
            A::times(a[p + d], gb[p + d])
        } else {
            z
        };
        let g: T = A::plus(gh[p], next);
        gb.set(p, g);
        let slope: T = if at >= d {
            A::times(g, h[p - d])
        } else {
            z
        };
        ga.set(p, slope);
        proof {
            assert(carried::<T, A>(a@, gb@, s, w, p as int, next));
            assert(carries::<T, A>(a@, gh@, s, w, gb@, p as int));
            assert forall|q: int| p <= q < n implies #[trigger] carries::<T, A>(
                a@,
                gh@,
                s,
                w,
                gb@,
                q,
            ) by {
                if q > p {
                    assert(carries::<T, A>(a@, gh@, s, w, old_gb, q));
                    let nx = choose|nx: T| #[trigger]
                        carried::<T, A>(a@, old_gb, s, w, q, nx) && is_sum::<T, A>(
                            gh@[q],
                            nx,
                            old_gb[q],
                        );
                    lemma_next_place(n as int, s, w, q);
                    assert(carried::<T, A>(a@, gb@, s, w, q, nx));
                }
            }
            assert forall|q: int| p <= q < n implies gate_slope::<T, A>(
                h@,
                gb@,
                s,
                w,
                q,
                #[trigger] ga@[q],
            ) by {
                if q > p {
                    assert(gate_slope::<T, A>(h@, old_gb, s, w, q, old_ga[q]));
                }
            }
        }
    }
    (ga, gb)
}

/// The next time step of a place lies in the same batch, and the one before too.
proof fn lemma_next_place(n: int, step: int, d: int, p: int)
    requires
        0 <= p < n,
        0 < d <= step,
        n % step == 0,
    ensures
        p % step + d < step ==> p + d < n,
        p % step >= d ==> p - d >= 0,
        0 <= p % step < step,
{
    assert(0 <= p % step < step && p % step <= p) by (nonlinear_arith)
        requires
            step > 0,
            p >= 0,
    ;
    if p % step + d < step {
        let q = p / step;
        assert(p == q * step + p % step) by (nonlinear_arith)
            requires
                step > 0,
                q == p / step,
        ;
        let m = n / step;
        assert(n == m * step) by (nonlinear_arith)
            requires
                step > 0,
                m == n / step,
                n % step == 0,
        ;
        assert(q + 1 <= m) by (nonlinear_arith)
            requires
                q * step <= p < n,
                n == m * step,
                step > 0,
        ;
        assert((q + 1) * step <= m * step) by (nonlinear_arith)
            requires
                q + 1 <= m,
                step > 0,
        ;
        assert((q + 1) * step == q * step + step) by (nonlinear_arith);
    }
}

/// The cotangents of gates and inputs, given the cotangent `gh` of the states: with `G_t` summed
/// from the end, `G_t = gh_t + a_{t+1} G_{t+1}`, the inputs get `G_t` and the gates
/// `G_t * h_{t-1}`.
pub fn gated_scan_backward<S: Scalars>(a: &Tensor<S>, h: &Tensor<S>, gh: &Tensor<S>) -> (r: Result<
    (Tensor<S>, Tensor<S>),
    Error,
>)
    requires
        scan_ready(a@, h@) && gh@.data is F32 && fits(a@.shape) ==> volume(gh@.shape) >= volume(
            a@.shape,
        ),
    ensures
        gated_scan_backward_out::<S>(a@, h@, gh@, pair_outcome(r)),
{
    let checked: Result<(), Error> = check(a, h);
    let ready: bool = a.dtype() == Dtype::F32 && h.dtype() == Dtype::F32 && a.rank() == 3
        && h.rank() == 3 && same_shape(a.shape(), h.shape());
    if ready && gh.dtype() != Dtype::F32 {
        return Err(Error::dtype("to_vec", "expected f32".to_owned()));
    }
    match checked {
        Ok(_) => {},
        Err(e) => {
            return Err(e);
        },
    }
    match (a.to_vec_f32(), h.to_vec_f32(), gh.to_vec_f32()) {
        (Ok(av), Ok(hv), Ok(gv)) => {
            proof {
                lemma_three(a@.shape);
            }
            let t: usize = a.shape()[1];
            let d: usize = a.shape()[2];
            let ghost n = a@.shape[0] as int;
            let mut step: usize = 0;
            if av.len() > 0 {
                assert(0 < t * d <= usize::MAX && 0 < d <= t * d && (n * (t * d)) % (t * d) == 0)
                    by (nonlinear_arith)
                    requires
                        0 < n * (t * d) <= usize::MAX,
                        n >= 0,
                        t >= 0,
                        d >= 0,
                ;
                step = t * d;
            }
            let (ga, gb): (Vec<S::F>, Vec<S::F>) = scan_back_values::<S::F, S>(
                av.as_slice(),
                hv.as_slice(),
                gv.as_slice(),
                step,
                d,
            );
            proof {
                if av@.len() == 0 {
                    assert(scans_back::<S::F, S>(
                        av@,
                        hv@,
                        gv@,
                        batch_len(a@.shape),
                        a@.shape[2] as int,
                        ga@,
                        gb@,
                    ));
                }
            }
            match (Tensor::from_vec_f32(ga, a.shape()), Tensor::from_vec_f32(gb, a.shape())) {
                (Ok(x), Ok(y)) => Ok((x, y)),
                (Err(e), _) => Err(e),
                (_, Err(e)) => Err(e),
            }
        },
        (Err(e), _, _) => Err(e),
        (_, Err(e), _) => Err(e),
        (_, _, Err(e)) => Err(e),
    }
}

} // verus!
