//! Reductions over axes.
use vstd::prelude::*;

use crate::cpu::{mul_scalar, scaled_f32, scaled_f64};
use crate::dtype::Dtype;
use crate::elementwise::unary_value;
use crate::error::{Error, ErrorKind};
use crate::index::{
    fits, in_bounds, lemma_ravel, lemma_unravel, lemma_volume_concat, ravel, unravel, volume,
};
use crate::par::{div_ceil, par_fill, PAR_MIN};
use crate::scalar::{
    adding, every, folds, is_one, is_quotient, is_sum, is_zero, lemma_folds_agree,
    lemma_folds_start, lemma_folds_step, runs, Arith, Scalars,
};
use crate::shape::{axis_at, axis_error, axis_ok, normalize_axis, numel, saturating_times};
use crate::storage::Data;
use crate::tensor::{
    numel_error, repeated, slice_error, Tensor, TensorModel, Model, Outcome, outcome,
};

verus! {

/// What is left of a shape when the axes marked in `red` are reduced: they become one, or go.
pub open spec fn kept_shape(shape: Seq<usize>, red: Seq<bool>, keep: bool) -> Seq<usize>
    decreases shape.len(),
{
    if shape.len() == 0 {
        Seq::empty()
    } else {
        let front = kept_shape(shape.drop_last(), red.drop_last(), keep);
        if red.last() {
            if keep {
                front.push(1)
            } else {
                front
            }
        } else {
            front.push(shape.last())
        }
    }
}

/// What is left of a position.
pub open spec fn kept_index(idx: Seq<int>, red: Seq<bool>, keep: bool) -> Seq<int>
    decreases idx.len(),
{
    if idx.len() == 0 {
        Seq::empty()
    } else {
        let front = kept_index(idx.drop_last(), red.drop_last(), keep);
        if red.last() {
            if keep {
                front.push(0)
            } else {
                front
            }
        } else {
            front.push(idx.last())
        }
    }
}

/// Rank, in the reduced shape, of the element to which the one of rank `i` contributes.
pub open spec fn kept_rank(shape: Seq<usize>, red: Seq<bool>, keep: bool, i: int) -> int {
    ravel(kept_shape(shape, red, keep), kept_index(unravel(shape, i), red, keep))
}

/// The elements that contribute to output `o`.
pub open spec fn contributes(shape: Seq<usize>, red: Seq<bool>, keep: bool, o: int) -> spec_fn(
    int,
) -> bool {
    |i: int| kept_rank(shape, red, keep, i) == o
}

/// Every output is what `step` makes of `init` and the elements that contribute to it, in
/// row-major order.
pub open spec fn reduces<T>(
    step: spec_fn(T, T, T) -> bool,
    init: T,
    shape: Seq<usize>,
    red: Seq<bool>,
    keep: bool,
    xs: Seq<T>,
    out: Seq<T>,
) -> bool {
    &&& out.len() == volume(kept_shape(shape, red, keep))
    &&& forall|o: int|
        0 <= o < out.len() ==> folds(
            step,
            xs,
            contributes(shape, red, keep, o),
            xs.len() as int,
            init,
            #[trigger] out[o],
        )
}

/// Axis `i` is in range and is not an earlier one.
pub open spec fn reduce_entry_ok(axes: Seq<usize>, rank: int, i: int) -> bool {
    &&& axes[i] < rank
    &&& forall|j: int| 0 <= j < i ==> #[trigger] axes[j] != axes[i]
}

/// Which axes are named.
pub open spec fn marked(axes: Seq<usize>, rank: nat) -> Seq<bool> {
    Seq::new(rank, |k: int| exists|j: int| 0 <= j < axes.len() && #[trigger] axes[j] == k)
}

/// Why axes were refused.
pub open spec fn reduce_error(e: Error, axes: Seq<usize>, rank: int) -> bool {
    exists|i: int|
        {
            &&& 0 <= i < axes.len()
            &&& !(#[trigger] reduce_entry_ok(axes, rank, i))
            &&& forall|j: int| 0 <= j < i ==> #[trigger] reduce_entry_ok(axes, rank, j)
            &&& e.says(
                ErrorKind::Shape,
                "reduce"@,
                if axes[i] >= rank {
                    "axis oob"@
                } else {
                    "duplicate axis"@
                },
            )
        }
}

/// Every axis is in range, and none is named twice.
pub open spec fn reduce_ok(axes: Seq<usize>, rank: int) -> bool {
    forall|i: int| 0 <= i < axes.len() ==> #[trigger] reduce_entry_ok(axes, rank, i)
}

/// Marks the axes to be reduced, and gives the shape that is left.
pub fn reduce_axes(shape: &[usize], axes: &[usize], keepdims: bool) -> (r: Result<
    (Vec<bool>, Vec<usize>),
    Error,
>)
    ensures
        r matches Ok(p) ==> reduce_ok(axes@, shape@.len() as int) && p.0@ == marked(
            axes@,
            shape@.len(),
        ) && p.1@ == kept_shape(shape@, p.0@, keepdims),
        r matches Err(e) ==> !reduce_ok(axes@, shape@.len() as int) && reduce_error(
            e,
            axes@,
            shape@.len() as int,
        ),
{
    let rank: usize = shape.len();
    let mut drop: Vec<bool> = repeated(false, rank);
    let mut i: usize = 0;
    while i < axes.len()
        invariant
            i <= axes@.len(),
            rank == shape@.len(),
            drop@.len() == rank,
            forall|j: int| 0 <= j < i ==> #[trigger] reduce_entry_ok(axes@, rank as int, j),
            forall|k: int|
                0 <= k < rank ==> (#[trigger] drop@[k] <==> exists|j: int|
                    0 <= j < i && #[trigger] axes@[j] == k),
        decreases axes@.len() - i,
    {
        let a: usize = axes[i];
        if a >= rank {
            assert(!reduce_entry_ok(axes@, rank as int, i as int));
            return Err(Error::shape("reduce", "axis oob".to_owned()));
        }
        if drop[a] {
            proof {
                let j = choose|j: int| 0 <= j < i && #[trigger] axes@[j] == a;
                assert(axes@[j] == axes@[i as int]);
                assert(!reduce_entry_ok(axes@, rank as int, i as int));
            }
            return Err(Error::shape("reduce", "duplicate axis".to_owned()));
        }
        proof {
            assert forall|j: int| 0 <= j < i implies #[trigger] axes@[j] != axes@[i as int] by {
                if axes@[j] == a {
                    assert(drop@[a as int]);
                }
            }
            assert(reduce_entry_ok(axes@, rank as int, i as int));
        }
        let ghost before = drop@;
        drop.set(a, true);
        proof {
            assert forall|k: int| 0 <= k < rank implies (#[trigger] drop@[k] <==> exists|j: int|
                0 <= j < i + 1 && #[trigger] axes@[j] == k) by {
                if k == a {
                    assert(axes@[i as int] == k);
                } else if before[k] {
                    let j = choose|j: int| 0 <= j < i && #[trigger] axes@[j] == k;
                    assert(axes@[j] == k);
                }
            }
        }
        i = i + 1;
    }
    proof {
        assert(drop@ =~= marked(axes@, shape@.len()));
    }
    let mut out: Vec<usize> = Vec::new();
    let mut k: usize = 0;
    proof {
        assert(shape@.take(0).len() == 0);
    }
    while k < rank
        invariant
            k <= rank,
            rank == shape@.len(),
            drop@.len() == rank,
            out@ == kept_shape(shape@.take(k as int), drop@.take(k as int), keepdims),
        decreases rank - k,
    {
        proof {
            assert(shape@.take(k + 1).drop_last() =~= shape@.take(k as int));
            assert(drop@.take(k + 1).drop_last() =~= drop@.take(k as int));
        }
        if drop[k] {
            if keepdims {
                out.push(1);
            }
        } else {
            out.push(shape[k]);
        }
        k = k + 1;
    }
    proof {
        assert(shape@.take(k as int) =~= shape@);
        assert(drop@.take(k as int) =~= drop@);
    }
    Ok((drop, out))
}

/// A reduced position lies in the reduced shape.
pub proof fn lemma_kept_bounds(shape: Seq<usize>, red: Seq<bool>, keep: bool, idx: Seq<int>)
    requires
        red.len() == shape.len(),
        in_bounds(shape, idx),
    ensures
        in_bounds(kept_shape(shape, red, keep), kept_index(idx, red, keep)),
    decreases shape.len(),
{
    if shape.len() > 0 {
        let front = shape.drop_last();
        let head = idx.drop_last();
        assert forall|k: int| 0 <= k < front.len() implies 0 <= #[trigger] head[k] < front[k] by {
            assert(idx[k] == head[k]);
        }
        lemma_kept_bounds(front, red.drop_last(), keep, head);
        let ks = kept_shape(front, red.drop_last(), keep);
        let ki = kept_index(head, red.drop_last(), keep);
        let s = kept_shape(shape, red, keep);
        let i = kept_index(idx, red, keep);
        assert(0 <= idx[shape.len() - 1] < shape[shape.len() - 1]);
        assert forall|k: int| 0 <= k < s.len() implies 0 <= #[trigger] i[k] < s[k] by {
            if k < ks.len() {
                assert(i[k] == ki[k] && s[k] == ks[k]);
            }
        }
    }
}

/// Reducing acts on each axis alone.
pub(crate) proof fn lemma_kept_concat(a: Seq<usize>, ra: Seq<bool>, b: Seq<usize>, rb: Seq<bool>, keep: bool)
    requires
        a.len() == ra.len(),
        b.len() == rb.len(),
    ensures
        kept_shape(a + b, ra + rb, keep) == kept_shape(a, ra, keep) + kept_shape(b, rb, keep),
    decreases b.len(),
{
    if b.len() == 0 {
        assert(a + b =~= a);
        assert(ra + rb =~= ra);
        assert(kept_shape(a, ra, keep) + kept_shape(b, rb, keep) =~= kept_shape(a, ra, keep));
    } else {
        lemma_kept_concat(a, ra, b.drop_last(), rb.drop_last(), keep);
        assert((a + b).drop_last() =~= a + b.drop_last());
        assert((ra + rb).drop_last() =~= ra + rb.drop_last());
        assert(kept_shape(a + b, ra + rb, keep) =~= kept_shape(a, ra, keep) + kept_shape(
            b,
            rb,
            keep,
        ));
    }
}

/// Reducing leaves no more elements than there were, where there were any.
pub proof fn lemma_kept_volume(shape: Seq<usize>, red: Seq<bool>, keep: bool)
    requires
        red.len() == shape.len(),
        volume(shape) > 0,
    ensures
        0 < volume(kept_shape(shape, red, keep)) <= volume(shape),
    decreases shape.len(),
{
    if shape.len() > 0 {
        let d = shape.last() as int;
        let v = volume(shape.drop_last()) as int;
        assert(v > 0 && d > 0) by (nonlinear_arith)
            requires
                v * d > 0,
                v >= 0,
                d >= 0,
        ;
        lemma_kept_volume(shape.drop_last(), red.drop_last(), keep);
        let front = kept_shape(shape.drop_last(), red.drop_last(), keep);
        let w = volume(front) as int;
        assert(0 < w * d <= v * d && 0 < w * 1 <= v * d && w <= v * d) by (nonlinear_arith)
            requires
                0 < w <= v,
                d > 0,
        ;
        assert(front.push(1).drop_last() =~= front);
        assert(front.push(shape.last()).drop_last() =~= front);
    }
}

/// Output rank of the element of rank `r`, found by taking `r` apart from the last axis on.
fn output_rank(
    shape: &[usize],
    red: &[bool],
    r: usize,
    Ghost(keep): Ghost<bool>,
) -> (o: usize)
    requires
        red@.len() == shape@.len(),
        r < volume(shape@),
        volume(shape@) <= usize::MAX,
    ensures
        o == kept_rank(shape@, red@, keep, r as int),
        o < volume(kept_shape(shape@, red@, keep)),
{
    let ghost total = kept_rank(shape@, red@, keep, r as int);
    let ghost whole = volume(kept_shape(shape@, red@, keep)) as int;
    let mut key: usize = 0;
    let mut mult: usize = 1;
    let mut rem: usize = r;
    let mut k: usize = shape.len();
    proof {
        lemma_unravel(shape@, r as int);
        lemma_kept_bounds(shape@, red@, keep, unravel(shape@, r as int));
        lemma_ravel(
            kept_shape(shape@, red@, keep),
            kept_index(unravel(shape@, r as int), red@, keep),
        );
        lemma_kept_volume(shape@, red@, keep);
        assert(shape@.take(k as int) =~= shape@);
        assert(red@.take(k as int) =~= red@);
        assert(1 * total == total) by (nonlinear_arith);
        assert(shape@.skip(k as int) =~= Seq::<usize>::empty());
        assert(kept_shape(shape@.skip(k as int), red@.skip(k as int), keep) =~= Seq::<
            usize,
        >::empty());
    }
    while k > 0
        invariant
            k <= shape@.len(),
            red@.len() == shape@.len(),
            volume(shape@) <= usize::MAX,
            volume(shape@) > 0,
            total == kept_rank(shape@, red@, keep, r as int),
            whole == volume(kept_shape(shape@, red@, keep)),
            0 <= total < whole <= usize::MAX,
            rem < volume(shape@.take(k as int)),
            mult == volume(kept_shape(shape@.skip(k as int), red@.skip(k as int), keep)),
            key + mult * kept_rank(shape@.take(k as int), red@.take(k as int), keep, rem as int)
                == total,
        decreases k,
    {
        k = k - 1;
        let ghost lead = shape@.take(k + 1);
        let ghost lr = red@.take(k + 1);
        let d: usize = shape[k];
        proof {
            assert(lead.drop_last() =~= shape@.take(k as int));
            assert(lr.drop_last() =~= red@.take(k as int));
            let v = volume(shape@.take(k as int)) as int;
            assert(d > 0 && rem / d < v) by (nonlinear_arith)
                requires
                    0 <= rem < v * d,
                    d >= 0,
                    v >= 0,
            ;
        }
        let coord: usize = rem % d;
        let ghost inner = kept_rank(
            shape@.take(k as int),
            red@.take(k as int),
            keep,
            (rem / d) as int,
        );
        proof {
            let idx = unravel(lead, rem as int);
            assert(idx.drop_last() =~= unravel(shape@.take(k as int), (rem / d) as int));
            let fs = kept_shape(shape@.take(k as int), red@.take(k as int), keep);
            let fi = kept_index(idx.drop_last(), red@.take(k as int), keep);
            assert(fs.push(1).drop_last() =~= fs && fs.push(d).drop_last() =~= fs);
            assert(fi.push(0).drop_last() =~= fi && fi.push(coord as int).drop_last() =~= fi);
            assert(inner * 1 == inner) by (nonlinear_arith);
            let rank_here = kept_rank(lead, lr, keep, rem as int);
            if red@[k as int] {
                assert(rank_here == inner);
            } else {
                assert(rank_here == inner * d + coord);
                lemma_unravel(shape@.take(k as int), (rem / d) as int);
                lemma_kept_bounds(
                    shape@.take(k as int),
                    red@.take(k as int),
                    keep,
                    idx.drop_last(),
                );
                lemma_ravel(fs, fi);
                let m = mult as int;
                assert(m * (inner * d + coord) == (m * d) * inner + m * coord && 0 <= (m * d)
                    * inner && 0 <= m * coord) by (nonlinear_arith)
                    requires
                        m >= 0,
                        inner >= 0,
                        d >= 0,
                        coord >= 0,
                ;
            }
            let tail = shape@.skip(k + 1);
            let tr = red@.skip(k + 1);
            assert(shape@.skip(k as int) =~= seq![d] + tail);
            assert(red@.skip(k as int) =~= seq![red@[k as int]] + tr);
            lemma_kept_concat(seq![d], seq![red@[k as int]], tail, tr, keep);
            lemma_volume_concat(
                kept_shape(seq![d], seq![red@[k as int]], keep),
                kept_shape(tail, tr, keep),
            );
            lemma_kept_single(d, red@[k as int], keep);
            assert(shape@.take(k as int) + shape@.skip(k as int) =~= shape@);
            assert(red@.take(k as int) + red@.skip(k as int) =~= red@);
            lemma_kept_concat(
                shape@.take(k as int),
                red@.take(k as int),
                shape@.skip(k as int),
                red@.skip(k as int),
                keep,
            );
            lemma_volume_concat(
                kept_shape(shape@.take(k as int), red@.take(k as int), keep),
                kept_shape(shape@.skip(k as int), red@.skip(k as int), keep),
            );
            let p = volume(kept_shape(shape@.take(k as int), red@.take(k as int), keep)) as int;
            let q = volume(kept_shape(shape@.skip(k as int), red@.skip(k as int), keep)) as int;
            assert(q <= p * q && q > 0) by (nonlinear_arith)
                requires
                    p * q > 0,
                    p >= 0,
                    q >= 0,
            ;
            let m = mult as int;
            assert(1 * m == m && d * m == m * d) by (nonlinear_arith);
        }
        rem = rem / d;
        if !red[k] {
            key = key + mult * coord;
            mult = mult * d;
        }
    }
    proof {
        assert(shape@.take(0).len() == 0);
        let m = mult as int;
        assert(m * 0 == 0) by (nonlinear_arith);
    }
    key
}

proof fn lemma_kept_single(d: usize, r: bool, keep: bool)
    ensures
        volume(kept_shape(seq![d], seq![r], keep)) == if r {
            1
        } else {
            d as int
        },
{
    let s = seq![d];
    assert(s.drop_last() =~= Seq::<usize>::empty());
    assert(kept_shape(Seq::<usize>::empty(), seq![r].drop_last(), keep) =~= Seq::<usize>::empty());
    assert(Seq::<usize>::empty().push(1).drop_last() =~= Seq::<usize>::empty());
    assert(Seq::<usize>::empty().push(d).drop_last() =~= Seq::<usize>::empty());
    assert(volume(Seq::<usize>::empty()) == 1);
    assert(1 * (d as int) == d) by (nonlinear_arith);
}

/// Folds every element into the output that it contributes to, in row-major order.
fn reduce_kernel<T: Copy, F: Fn(T, T) -> T>(
    v: &[T],
    shape: &[usize],
    red: &[bool],
    out_n: usize,
    init: T,
    f: &F,
    Ghost(keep): Ghost<bool>,
) -> (out: Vec<T>)
    requires
        red@.len() == shape@.len(),
        v@.len() == volume(shape@),
        out_n == volume(kept_shape(shape@, red@, keep)),
        forall|p: T, x: T| #[trigger] call_requires(*f, (p, x)),
    ensures
        reduces(
            |p: T, x: T, r: T| call_ensures(*f, (p, x), r),
            init,
            shape@,
            red@,
            keep,
            v@,
            out@,
        ),
{
    let ghost step = |p: T, x: T, r: T| call_ensures(*f, (p, x), r);
    let mut acc: Vec<T> = repeated(init, out_n);
    let mut i: usize = 0;
    proof {
        assert forall|o: int| 0 <= o < acc@.len() implies folds(
            step,
            v@,
            contributes(shape@, red@, keep, o),
            0,
            init,
            #[trigger] acc@[o],
        ) by {
            lemma_folds_start(step, v@, contributes(shape@, red@, keep, o), init);
        }
    }
    while i < v.len()
        invariant
            i <= v@.len(),
            red@.len() == shape@.len(),
            v@.len() == volume(shape@),
            out_n == volume(kept_shape(shape@, red@, keep)),
            acc@.len() == out_n,
            step == (|p: T, x: T, r: T| call_ensures(*f, (p, x), r)),
            forall|p: T, x: T| #[trigger] call_requires(*f, (p, x)),
            forall|o: int|
                0 <= o < acc@.len() ==> folds(
                    step,
                    v@,
                    contributes(shape@, red@, keep, o),
                    i as int,
                    init,
                    #[trigger] acc@[o],
                ),
        decreases v@.len() - i,
    {
        let o: usize = output_rank(shape, red, i, Ghost(keep));
        let ghost before = acc@;
        let p: T = acc[o];
        let r: T = f(p, v[i]);
        acc.set(o, r);
        proof {
            assert forall|q: int| 0 <= q < acc@.len() implies folds(
                step,
                v@,
                contributes(shape@, red@, keep, q),
                i + 1,
                init,
                #[trigger] acc@[q],
            ) by {
                assert(folds(
                    step,
                    v@,
                    contributes(shape@, red@, keep, q),
                    i as int,
                    init,
                    before[q],
                ));
                lemma_folds_step(
                    step,
                    v@,
                    contributes(shape@, red@, keep, q),
                    i as int,
                    init,
                    before[q],
                    acc@[q],
                );
            }
        }
        i = i + 1;
    }
    acc
}

/// The items of `v` from `lo` to `hi`, folded from the left.
fn fold_span<T: Copy, F: Fn(T, T) -> T>(v: &[T], lo: usize, hi: usize, init: T, f: &F) -> (r: T)
    requires
        lo <= hi <= v@.len(),
        forall|p: T, x: T| #[trigger] call_requires(*f, (p, x)),
    ensures
        folds(
            |p: T, x: T, r: T| call_ensures(*f, (p, x), r),
            v@.subrange(lo as int, hi as int),
            every(),
            hi - lo,
            init,
            r,
        ),
{
    let ghost step = |p: T, x: T, r: T| call_ensures(*f, (p, x), r);
    let ghost part = v@.subrange(lo as int, hi as int);
    let mut acc: T = init;
    let mut i: usize = lo;
    proof {
        lemma_folds_start(step, part, every(), init);
    }
    while i < hi
        invariant
            lo <= i <= hi <= v@.len(),
            part == v@.subrange(lo as int, hi as int),
            step == (|p: T, x: T, r: T| call_ensures(*f, (p, x), r)),
            forall|p: T, x: T| #[trigger] call_requires(*f, (p, x)),
            folds(step, part, every(), i - lo, init, acc),
        decreases hi - i,
    {
        let next: T = f(acc, v[i]);
        proof {
            assert(part[i - lo] == v@[i as int]);
            lemma_folds_step(step, part, every(), i - lo, init, acc, next);
        }
        acc = next;
        i = i + 1;
    }
    acc
}

/// A fold of a window is a fold of the whole that picks the window.
proof fn lemma_folds_window<T, X>(
    step: spec_fn(T, X, T) -> bool,
    xs: Seq<X>,
    lo: int,
    hi: int,
    pick: spec_fn(int) -> bool,
    init: T,
    r: T,
)
    requires
        0 <= lo <= hi <= xs.len(),
        folds(step, xs.subrange(lo, hi), every(), hi - lo, init, r),
        forall|i: int| 0 <= i < xs.len() ==> (#[trigger] pick(i) <==> lo <= i < hi),
    ensures
        folds(step, xs, pick, xs.len() as int, init, r),
{
    let part = xs.subrange(lo, hi);
    let n = hi - lo;
    let inner = choose|acc: Seq<T>| #[trigger]
        runs(step, part, every(), n, init, acc) && acc[n] == r;
    let acc = Seq::new(
        xs.len() + 1,
        |i: int|
            if i <= lo {
                init
            } else if i <= hi {
                inner[i - lo]
            } else {
                r
            },
    );
    assert forall|i: int| 0 <= i < xs.len() implies if pick(i) {
        step(acc[i], xs[i], #[trigger] acc[i + 1])
    } else {
        acc[i + 1] == acc[i]
    } by {
        if pick(i) {
            assert(every()(i - lo));
            assert(step(inner[i - lo], part[i - lo], inner[i - lo + 1]));
        }
    }
    assert(runs(step, xs, pick, xs.len() as int, init, acc));
}

/// The same fold under a step that the first implies.
pub proof fn lemma_folds_weaken<T, X>(
    step: spec_fn(T, X, T) -> bool,
    step2: spec_fn(T, X, T) -> bool,
    xs: Seq<X>,
    pick: spec_fn(int) -> bool,
    n: int,
    init: T,
    r: T,
)
    requires
        folds(step, xs, pick, n, init, r),
        forall|p: T, x: X, q: T| #[trigger] step(p, x, q) ==> step2(p, x, q),
    ensures
        folds(step2, xs, pick, n, init, r),
{
    let acc = choose|acc: Seq<T>| #[trigger] runs(step, xs, pick, n, init, acc) && acc[n] == r;
    assert forall|i: int| 0 <= i < n implies if pick(i) {
        step2(acc[i], xs[i], #[trigger] acc[i + 1])
    } else {
        acc[i + 1] == acc[i]
    } by {
        if pick(i) {
            assert(step(acc[i], xs[i], acc[i + 1]));
        }
    }
    assert(runs(step2, xs, pick, n, init, acc));
}

/// The same reduction under a step that the first implies.
pub proof fn lemma_reduces_weaken<T>(
    step: spec_fn(T, T, T) -> bool,
    step2: spec_fn(T, T, T) -> bool,
    init: T,
    shape: Seq<usize>,
    red: Seq<bool>,
    keep: bool,
    xs: Seq<T>,
    out: Seq<T>,
)
    requires
        reduces(step, init, shape, red, keep, xs, out),
        forall|p: T, x: T, q: T| #[trigger] step(p, x, q) ==> step2(p, x, q),
    ensures
        reduces(step2, init, shape, red, keep, xs, out),
{
    assert forall|o: int| 0 <= o < out.len() implies folds(
        step2,
        xs,
        contributes(shape, red, keep, o),
        xs.len() as int,
        init,
        #[trigger] out[o],
    ) by {
        lemma_folds_weaken(
            step,
            step2,
            xs,
            contributes(shape, red, keep, o),
            xs.len() as int,
            init,
            out[o],
        );
    }
}

/// Only the last axis is marked.
pub open spec fn only_last(red: Seq<bool>) -> bool {
    &&& red.len() > 0
    &&& red.last()
    &&& forall|k: int| 0 <= k < red.len() - 1 ==> !#[trigger] red[k]
}

/// Every axis is marked.
pub open spec fn all_marked(red: Seq<bool>) -> bool {
    forall|k: int| 0 <= k < red.len() ==> #[trigger] red[k]
}

/// Where no axis is marked, a position is kept as it is.
proof fn lemma_kept_none(shape: Seq<usize>, red: Seq<bool>, keep: bool, idx: Seq<int>)
    requires
        red.len() == shape.len(),
        idx.len() == shape.len(),
        forall|k: int| 0 <= k < red.len() ==> !#[trigger] red[k],
    ensures
        kept_shape(shape, red, keep) == shape,
        kept_index(idx, red, keep) == idx,
    decreases shape.len(),
{
    if shape.len() == 0 {
        assert(shape =~= Seq::<usize>::empty());
        assert(idx =~= Seq::<int>::empty());
    } else {
        lemma_kept_none(shape.drop_last(), red.drop_last(), keep, idx.drop_last());
        assert(red[red.len() - 1] == red.last());
        assert(shape.drop_last().push(shape.last()) =~= shape);
        assert(idx.drop_last().push(idx.last()) =~= idx);
    }
}

/// Where only the last axis is marked, element `i` contributes to row `i / inner`.
proof fn lemma_kept_last(shape: Seq<usize>, red: Seq<bool>, keep: bool, i: int)
    requires
        red.len() == shape.len(),
        only_last(red),
        0 <= i < volume(shape),
    ensures
        kept_rank(shape, red, keep, i) == i / (shape.last() as int),
        volume(kept_shape(shape, red, keep)) == volume(shape.drop_last()),
{
    lemma_unravel(shape, i);
    let d = shape.last() as int;
    let front = shape.drop_last();
    let idx = unravel(shape, i);
    let v = volume(front) as int;
    assert(d > 0 && 0 <= i / d < v) by (nonlinear_arith)
        requires
            0 <= i < v * d,
            v >= 0,
            d >= 0,
    ;
    lemma_unravel(front, i / d);
    assert(idx.drop_last() =~= unravel(front, i / d));
    lemma_kept_none(front, red.drop_last(), keep, idx.drop_last());
    let r = i / d;
    assert(front.push(1).drop_last() =~= front);
    assert(idx.drop_last().push(0).drop_last() =~= idx.drop_last());
    assert(r * 1 == r && v * 1 == v) by (nonlinear_arith);
}

/// Where every axis is marked, every element contributes to the one output.
pub(crate) proof fn lemma_kept_all(shape: Seq<usize>, red: Seq<bool>, keep: bool, idx: Seq<int>)
    requires
        red.len() == shape.len(),
        idx.len() == shape.len(),
        all_marked(red),
    ensures
        volume(kept_shape(shape, red, keep)) == 1,
        ravel(kept_shape(shape, red, keep), kept_index(idx, red, keep)) == 0,
    decreases shape.len(),
{
    if shape.len() > 0 {
        let front = shape.drop_last();
        let head = idx.drop_last();
        lemma_kept_all(front, red.drop_last(), keep, head);
        assert(red[red.len() - 1] == red.last());
        let ks = kept_shape(front, red.drop_last(), keep);
        let ki = kept_index(head, red.drop_last(), keep);
        assert(ks.push(1).drop_last() =~= ks);
        assert(ki.push(0).drop_last() =~= ki);
    }
}

/// The number of elements in one block of a large sum.
pub const SUM_BLOCK: usize = 16384;

/// `r` is the sum, from the left and from a zero on, of those of `xs` that `pick` names.
pub open spec fn sums_picked<T, A: Arith<T>>(xs: Seq<T>, pick: spec_fn(int) -> bool, r: T) -> bool {
    exists|z: T| #[trigger]
        is_zero::<T, A>(z) && folds(adding::<T, A>(), xs, pick, xs.len() as int, z, r)
}

/// `r` is the sum of `xs` from the left, from a zero on.
pub open spec fn sums<T, A: Arith<T>>(xs: Seq<T>, r: T) -> bool {
    sums_picked::<T, A>(xs, every(), r)
}

/// Block `c` of `xs`.
pub open spec fn sum_block<T>(xs: Seq<T>, c: int) -> Seq<T> {
    xs.subrange(
        c * SUM_BLOCK,
        if xs.len() - c * SUM_BLOCK < SUM_BLOCK {
            xs.len() as int
        } else {
            c * SUM_BLOCK + SUM_BLOCK
        },
    )
}

/// `r` is the sum of the sums of the blocks of `xs`.
pub open spec fn sums_by_blocks<T, A: Arith<T>>(xs: Seq<T>, r: T) -> bool {
    exists|parts: Seq<T>|
        {
            &&& parts.len() == crate::par::ceiling(xs.len() as int, SUM_BLOCK as int)
            &&& forall|c: int|
                0 <= c < parts.len() ==> sums::<T, A>(sum_block(xs, c), #[trigger] parts[c])
            &&& #[trigger] sums::<T, A>(parts, r)
        }
}

/// Adds up a span in order.
pub fn add_up<T: Copy, A: Arith<T>>(v: &[T], lo: usize, hi: usize) -> (r: T)
    requires
        lo <= hi <= v@.len(),
    ensures
        sums::<T, A>(v@.subrange(lo as int, hi as int), r),
{
    let f = |p: T, x: T| -> (q: T)
        ensures
            is_sum::<T, A>(p, x, q)
    {
        A::plus(p, x)
    };
    let z: T = A::zero();
    assert(is_zero::<T, A>(z));
    let r: T = fold_span(v, lo, hi, z, &f);
    proof {
        lemma_folds_weaken(
            |p: T, x: T, q: T| call_ensures(f, (p, x), q),
            adding::<T, A>(),
            v@.subrange(lo as int, hi as int),
            every(),
            hi - lo,
            z,
            r,
        );
    }
    r
}

fn add_up_blocks<T: Copy + Send + Sync, A: Arith<T>>(v: &[T]) -> (r: T)
    ensures
        sums_by_blocks::<T, A>(v@, r),
{
    let n: usize = v.len();
    let count: usize = div_ceil(n, SUM_BLOCK);
    let block = |c: usize| -> (p: T)
        requires
            c < count,
            n == v@.len(),
            count > 0 ==> (count - 1) * SUM_BLOCK < n
        ensures
            sums::<T, A>(sum_block(v@, c as int), p)
    {
        let lo: usize = c * SUM_BLOCK;
        let hi: usize = if n - lo < SUM_BLOCK {
            n
        } else {
            lo + SUM_BLOCK
        };
        add_up::<T, A>(v, lo, hi)
    };
    let parts: Vec<T> = par_fill(count, block);
    let r: T = add_up::<T, A>(parts.as_slice(), 0, parts.len());
    proof {
        assert(parts@.subrange(0, parts@.len() as int) =~= parts@);
        assert forall|c: int| 0 <= c < parts@.len() implies sums::<T, A>(
            sum_block(v@, c),
            #[trigger] parts@[c],
        ) by {
            assert(call_ensures(block, (c as usize,), parts@[c]));
        }
        assert(sums::<T, A>(parts@, r));
    }
    r
}

/// Every output is the sum of the elements that contribute to it.
pub open spec fn axis_sums<T, A: Arith<T>>(
    shape: Seq<usize>,
    red: Seq<bool>,
    keep: bool,
    xs: Seq<T>,
    out: Seq<T>,
) -> bool {
    &&& out.len() == volume(kept_shape(shape, red, keep))
    &&& forall|o: int|
        0 <= o < out.len() ==> sums_picked::<T, A>(
            xs,
            contributes(shape, red, keep, o),
            #[trigger] out[o],
        )
}

/// Sums over the marked axes: rows in parallel where only the last axis of a packed tensor is
/// reduced, one walk over all elements otherwise.
fn sum_values<T: Copy + Send + Sync, A: Arith<T>>(
    v: &[T],
    shape: &[usize],
    red: &[bool],
    out_n: usize,
    by_rows: bool,
    Ghost(keep): Ghost<bool>,
) -> (out: Vec<T>)
    requires
        red@.len() == shape@.len(),
        v@.len() == volume(shape@),
        out_n == volume(kept_shape(shape@, red@, keep)),
        by_rows ==> only_last(red@) && v@.len() > 0,
    ensures
        axis_sums::<T, A>(shape@, red@, keep, v@, out@),
{
    if by_rows {
        let inner: usize = shape[shape.len() - 1];
        proof {
            lemma_kept_last(shape@, red@, keep, 0);
        }
        let n: usize = v.len();
        let row = |r: usize| -> (p: T)
            requires
                r < out_n,
                out_n * inner == v@.len(),
                v@.len() == n
            ensures
                sums::<T, A>(v@.subrange(r * inner, r * inner + inner), p)
        {
            proof {
                assert(0 <= r * inner && r * inner + inner <= out_n * inner) by (nonlinear_arith)
                    requires
                        0 <= r < out_n,
                        inner >= 0,
                ;
            }
            add_up::<T, A>(v, r * inner, r * inner + inner)
        };
        let out: Vec<T> = par_fill(out_n, row);
        proof {
            assert forall|o: int| 0 <= o < out@.len() implies sums_picked::<T, A>(
                v@,
                contributes(shape@, red@, keep, o),
                #[trigger] out@[o],
            ) by {
                assert(call_ensures(row, (o as usize,), out@[o]));
                let lo = o * inner;
                let hi = lo + inner;
                let part = v@.subrange(lo, hi);
                assert(0 <= lo && hi <= v@.len()) by (nonlinear_arith)
                    requires
                        0 <= o < out_n,
                        inner >= 0,
                        lo == o * inner,
                        hi == lo + inner,
                        out_n * inner == v@.len(),
                ;
                let z = choose|z: T| #[trigger]
                    is_zero::<T, A>(z) && folds(
                        adding::<T, A>(),
                        part,
                        every(),
                        part.len() as int,
                        z,
                        out@[o],
                    );
                let pick = contributes(shape@, red@, keep, o);
                assert forall|i: int| 0 <= i < v@.len() implies (#[trigger] pick(i) <==> lo <= i
                    < hi) by {
                    lemma_kept_last(shape@, red@, keep, i);
                    let d = inner as int;
                    assert(d > 0) by (nonlinear_arith)
                        requires
                            0 <= i < out_n * d,
                            d >= 0,
                    ;
                    assert((i / d == o) == (o * d <= i < o * d + d)) by (nonlinear_arith)
                        requires
                            d > 0,
                    ;
                }
                lemma_folds_window(adding::<T, A>(), v@, lo, hi, pick, z, out@[o]);
            }
        }
        return out;
    }
    let f = |p: T, x: T| -> (q: T)
        ensures
            is_sum::<T, A>(p, x, q)
    {
        A::plus(p, x)
    };
    let z: T = A::zero();
    assert(is_zero::<T, A>(z));
    let out: Vec<T> = reduce_kernel(v, shape, red, out_n, z, &f, Ghost(keep));
    proof {
        lemma_reduces_weaken(
            |p: T, x: T, q: T| call_ensures(f, (p, x), q),
            adding::<T, A>(),
            z,
            shape@,
            red@,
            keep,
            v@,
            out@,
        );
    }
    out
}

/// The value of a sum over the marked axes.
pub open spec fn sum_value<S: Scalars>(
    x: TensorModel<S::F, S::D>,
    red: Seq<bool>,
    keep: bool,
    r: TensorModel<S::F, S::D>,
) -> bool {
    &&& fits(kept_shape(x.shape, red, keep))
    &&& r.plain(kept_shape(x.shape, red, keep)) && r.valid() && r.elems() == r.data
    &&& match (x.elems(), r.data) {
        (Data::F32(v), Data::F32(w)) => if all_marked(red) && x.contiguous() && fits(x.shape)
            && v.len() >= PAR_MIN {
            w.len() == 1 && sums_by_blocks::<S::F, S>(v, w[0])
        } else {
            axis_sums::<S::F, S>(x.shape, red, keep, v, w)
        },
        (Data::F64(v), Data::F64(w)) => axis_sums::<S::D, S>(x.shape, red, keep, v, w),
        _ => false,
    }
}

fn all_true(red: &[bool]) -> (r: bool)
    ensures
        r == all_marked(red@),
{
    let mut k: usize = 0;
    while k < red.len()
        invariant
            k <= red@.len(),
            forall|j: int| 0 <= j < k ==> #[trigger] red@[j],
        decreases red@.len() - k,
    {
        if !red[k] {
            assert(!red@[k as int]);
            return false;
        }
        k = k + 1;
    }
    true
}

fn last_true(red: &[bool]) -> (r: bool)
    ensures
        r == only_last(red@),
{
    let n: usize = red.len();
    if n == 0 || !red[n - 1] {
        return false;
    }
    let mut k: usize = 0;
    while k < n - 1
        invariant
            k <= n - 1,
            n == red@.len(),
            n > 0,
            forall|j: int| 0 <= j < k ==> !#[trigger] red@[j],
        decreases n - 1 - k,
    {
        if red[k] {
            assert(red@[k as int]);
            return false;
        }
        k = k + 1;
    }
    true
}

/// Sum of 32-bit floats over the marked axes.
///
/// A large full reduction of a packed tensor adds up blocks in parallel; a reduction of the last
/// axis of a packed tensor adds up rows in parallel; the rest is one walk over the elements.
pub fn sum_f32<S: Scalars>(
    x: &Tensor<S>,
    reduced: &[bool],
    out_shape: &[usize],
    keepdims: bool,
) -> (r: Result<Tensor<S>, Error>)
    requires
        x@.data is F32,
        reduced@.len() == x@.shape.len(),
        out_shape@ == kept_shape(x@.shape, reduced@, keepdims),
    ensures
        r matches Ok(t) ==> sum_value::<S>(x@, reduced@, keepdims, t@),
        r matches Err(e) ==> !fits(out_shape@) && numel_error(e),
{
    let out_n: usize = match numel(out_shape) {
        Ok(n) => n,
        Err(e) => {
            return Err(e);
        },
    };
    let packed: bool = match x.as_slice_f32() {
        Ok(_) => true,
        Err(_) => false,
    };
    let v: Vec<S::F> = match x.to_vec_f32() {
        Ok(v) => v,
        Err(e) => {
            return Err(e);
        },
    };
    let shape: &[usize] = x.shape();
    let n: usize = v.len();
    if all_true(reduced) {
        proof {
            lemma_kept_all(
                x@.shape,
                reduced@,
                keepdims,
                crate::index::origin(x@.shape.len()),
            );
        }
        let total: S::F = if packed && n >= PAR_MIN {
            add_up_blocks::<S::F, S>(v.as_slice())
        } else {
            let t: S::F = add_up::<S::F, S>(v.as_slice(), 0, n);
            proof {
                assert(v@.subrange(0, n as int) =~= v@);
                let z = choose|z: S::F| #[trigger]
                    is_zero::<S::F, S>(z) && folds(
                        adding::<S::F, S>(),
                        v@,
                        every(),
                        n as int,
                        z,
                        t,
                    );
                let pick = contributes(x@.shape, reduced@, keepdims, 0);
                assert forall|i: int| 0 <= i < n implies #[trigger] every()(i) == pick(i) by {
                    lemma_unravel(x@.shape, i);
                    lemma_kept_all(x@.shape, reduced@, keepdims, unravel(x@.shape, i));
                }
                lemma_folds_agree(adding::<S::F, S>(), v@, v@, every(), pick, n as int, z, t);
                assert(sums_picked::<S::F, S>(v@, pick, t));
            }
            t
        };
        let mut out: Vec<S::F> = Vec::new();
        out.push(total);
        return Tensor::from_vec_f32(out, out_shape);
    }
    let by_rows: bool = packed && n > 0 && last_true(reduced);
    let out: Vec<S::F> = sum_values::<S::F, S>(
        v.as_slice(),
        shape,
        reduced,
        out_n,
        by_rows,
        Ghost(keepdims),
    );
    Tensor::from_vec_f32(out, out_shape)
}

/// The axes that a reduction is asked for: all of them, or those that are named.
pub open spec fn asked_axes(axes: Option<Seq<isize>>, rank: nat) -> Seq<usize> {
    match axes {
        None => Seq::new(rank, |k: int| k as usize),
        Some(ax) => Seq::new(ax.len(), |i: int| axis_at(ax[i] as int, rank as int) as usize),
    }
}

/// Every entry names one of the tensor's axes.
pub open spec fn names_ok(ax: Seq<isize>, rank: int) -> bool {
    forall|i: int| 0 <= i < ax.len() ==> axis_ok(#[trigger] ax[i] as int, rank)
}

/// Every named axis is one of the tensor's.
pub open spec fn axes_named(axes: Option<Seq<isize>>, rank: int) -> bool {
    axes matches Some(ax) ==> names_ok(ax, rank)
}

/// Axis `i` is the first that is not one of the tensor's, and is the one reported.
pub open spec fn axis_fault(e: Error, ax: Seq<isize>, rank: int, op: Seq<char>, i: int) -> bool {
    &&& 0 <= i < ax.len()
    &&& !axis_ok(ax[i] as int, rank)
    &&& forall|j: int| 0 <= j < i ==> axis_ok(#[trigger] ax[j] as int, rank)
    &&& axis_error(e, ax[i] as int, rank, op)
}

/// The first axis that is not one of the tensor's is reported.
pub open spec fn axes_error(e: Error, axes: Option<Seq<isize>>, rank: int, op: Seq<char>) -> bool {
    axes matches Some(ax) && has_axis_fault(e, ax, rank, op)
}

/// Some axis is the one reported.
pub open spec fn has_axis_fault(e: Error, ax: Seq<isize>, rank: int, op: Seq<char>) -> bool {
    exists|i: int| #[trigger] axis_fault(e, ax, rank, op, i)
}

/// The view of an optional slice.
pub open spec fn seen(axes: Option<&[isize]>) -> Option<Seq<isize>> {
    match axes {
        None => None,
        Some(ax) => Some(ax@),
    }
}

/// Resolves the axes that a reduction is asked for.
pub fn named_axes(axes: Option<&[isize]>, rank: usize, op: &'static str) -> (r: Result<
    Vec<usize>,
    Error,
>)
    ensures
        r matches Ok(v) ==> axes_named(seen(axes), rank as int) && v@ == asked_axes(
            seen(axes),
            rank as nat,
        ),
        r matches Err(e) ==> !axes_named(seen(axes), rank as int) && axes_error(
            e,
            seen(axes),
            rank as int,
            op@,
        ),
{
    let mut v: Vec<usize> = Vec::new();
    match axes {
        None => {
            let mut k: usize = 0;
            while k < rank
                invariant
                    k <= rank,
                    v@.len() == k,
                    forall|j: int| 0 <= j < k ==> #[trigger] v@[j] == j,
                decreases rank - k,
            {
                v.push(k);
                k = k + 1;
            }
        },
        Some(ax) => {
            let mut i: usize = 0;
            while i < ax.len()
                invariant
                    i <= ax@.len(),
                    v@.len() == i,
                    axes == Some(ax),
                    forall|j: int|
                        0 <= j < i ==> axis_ok(#[trigger] ax@[j] as int, rank as int) && v@[j]
                            == axis_at(ax@[j] as int, rank as int),
                decreases ax@.len() - i,
            {
                match normalize_axis(ax[i], rank, op) {
                    Ok(a) => {
                        v.push(a);
                    },
                    Err(e) => {
                        proof {
                            let s = ax@;
                            assert(seen(axes) == Some(s));
                            assert(!axis_ok(s[i as int] as int, rank as int));
                            assert(axis_error(e, s[i as int] as int, rank as int, op@));
                            assert(axis_fault(e, s, rank as int, op@, i as int));
                            assert(!names_ok(s, rank as int));
                            assert(has_axis_fault(e, s, rank as int, op@));
                        }
                        return Err(e);
                    },
                }
                i = i + 1;
            }
            proof {
                assert forall|j: int| 0 <= j < v@.len() implies v@[j] == asked_axes(
                    seen(axes),
                    rank as nat,
                )[j] by {
                    assert(axis_ok(ax@[j] as int, rank as int));
                }
            }
        },
    }
    proof {
        assert(v@ =~= asked_axes(seen(axes), rank as nat));
    }
    Ok(v)
}

/// A sum that is granted.
pub open spec fn sum_ok<F, D>(
    x: TensorModel<F, D>,
    axes: Option<Seq<isize>>,
    keep: bool,
) -> bool {
    let rank = x.shape.len();
    let ax = asked_axes(axes, rank);
    &&& x.dtype().floating()
    &&& axes_named(axes, rank as int)
    &&& reduce_ok(ax, rank as int)
    &&& fits(kept_shape(x.shape, marked(ax, rank), keep))
}

/// Why a sum was refused.
pub open spec fn sum_error<F, D>(
    e: Error,
    x: TensorModel<F, D>,
    axes: Option<Seq<isize>>,
) -> bool {
    let rank = x.shape.len();
    if !x.dtype().floating() {
        e.says(ErrorKind::Dtype, "sum"@, "v1 sum is float-only"@)
    } else if !axes_named(axes, rank as int) {
        axes_error(e, axes, rank as int, "sum"@)
    } else if !reduce_ok(asked_axes(axes, rank), rank as int) {
        reduce_error(e, asked_axes(axes, rank), rank as int)
    } else {
        numel_error(e)
    }
}

/// What `sum` comes to.
pub open spec fn sum_out<S: Scalars>(
    x: Model<S>,
    axes: Option<Seq<isize>>,
    keepdims: bool,
    r: Outcome<S>,
) -> bool {
    match r {
        Ok(t) => sum_ok(x, axes, keepdims) && sum_value::<S>(
            x,
            marked(asked_axes(axes, x.shape.len()), x.shape.len()),
            keepdims,
            t,
        ),
        Err(e) => !sum_ok(x, axes, keepdims) && sum_error(e, x, axes),
    }
}

/// Sum over `axes` (`None` = all of them); `keepdims` retains them as size 1.
pub fn sum<S: Scalars>(x: &Tensor<S>, axes: Option<&[isize]>, keepdims: bool) -> (r: Result<
    Tensor<S>,
    Error,
>)
    ensures
        sum_out::<S>(x@, seen(axes), keepdims, outcome(r)),
{
    let dtype: Dtype = x.dtype();
    if !dtype.is_float() {
        return Err(Error::dtype("sum", "v1 sum is float-only".to_owned()));
    }
    let axes_u: Vec<usize> = match named_axes(axes, x.rank(), "sum") {
        Ok(v) => v,
        Err(e) => {
            return Err(e);
        },
    };
    let (reduced, out_shape): (Vec<bool>, Vec<usize>) = match reduce_axes(
        x.shape(),
        axes_u.as_slice(),
        keepdims,
    ) {
        Ok(p) => p,
        Err(e) => {
            return Err(e);
        },
    };
    match dtype {
        Dtype::F32 => sum_f32(x, reduced.as_slice(), out_shape.as_slice(), keepdims),
        _ => {
            let out_n: usize = match numel(out_shape.as_slice()) {
                Ok(n) => n,
                Err(e) => {
                    return Err(e);
                },
            };
            let v: Vec<S::D> = match x.to_vec_f64() {
                Ok(v) => v,
                Err(e) => {
                    return Err(e);
                },
            };
            let out: Vec<S::D> = sum_values::<S::D, S>(
                v.as_slice(),
                x.shape(),
                reduced.as_slice(),
                out_n,
                false,
                Ghost(keepdims),
            );
            Tensor::from_vec_f64(out, out_shape.as_slice())
        },
    }
}

/// Product of the dimensions of the named axes, held at the greatest `usize`.
pub open spec fn axes_product(shape: Seq<usize>, axes: Seq<usize>) -> int
    decreases axes.len(),
{
    if axes.len() == 0 {
        1
    } else {
        let p = axes_product(shape, axes.drop_last()) * shape[axes.last() as int];
        if p > usize::MAX {
            usize::MAX as int
        } else {
            p
        }
    }
}

/// Every item is `u`.
pub open spec fn uniform<T>(v: Seq<T>, u: T) -> bool {
    forall|i: int| 0 <= i < v.len() ==> #[trigger] v[i] == u
}

/// Every element is one and the same undefined number.
pub open spec fn all_undefined<S: Scalars>(data: Data<S::F, S::D>) -> bool {
    match data {
        Data::F32(v) => exists|u: S::F| #[trigger]
            call_ensures(<S as Arith<S::F>>::undefined, (), u) && uniform(v, u),
        Data::F64(v) => exists|u: S::D| #[trigger]
            call_ensures(<S as Arith<S::D>>::undefined, (), u) && uniform(v, u),
        Data::I64(v) => false,
    }
}

/// `k` is one over `n`.
pub open spec fn is_share<T, A: Arith<T>>(n: usize, k: T) -> bool {
    exists|one: T, count: T| #[trigger]
        is_one::<T, A>(one) && #[trigger] call_ensures(A::count, (n,), count) && is_quotient::<
            T,
            A,
        >(one, count, k)
}

/// The value of a mean, given the sum: the sum times one over `n`, or nothing but undefined
/// numbers where nothing was summed.
pub open spec fn mean_of_sum<S: Scalars>(
    s: TensorModel<S::F, S::D>,
    n: usize,
    r: TensorModel<S::F, S::D>,
) -> bool {
    if n == 0 {
        &&& r.plain(s.shape) && r.valid() && r.elems() == r.data && r.dtype() == s.dtype()
        &&& all_undefined::<S>(r.data)
    } else {
        exists|k: S::D| #[trigger]
            is_share::<S::D, S>(n, k) && unary_value::<S>(
                s,
                scaled_f32::<S>(k),
                scaled_f64::<S>(k),
                r,
            )
    }
}

/// The value of a mean over the marked axes, `n` elements to each output.
pub open spec fn mean_value<S: Scalars>(
    x: TensorModel<S::F, S::D>,
    red: Seq<bool>,
    keep: bool,
    n: usize,
    r: TensorModel<S::F, S::D>,
) -> bool {
    exists|s: TensorModel<S::F, S::D>| #[trigger]
        sum_value::<S>(x, red, keep, s) && mean_of_sum::<S>(s, n, r)
}

/// Why a mean was refused.
pub open spec fn mean_error<F, D>(
    e: Error,
    x: TensorModel<F, D>,
    axes: Option<Seq<isize>>,
) -> bool {
    let rank = x.shape.len();
    if !x.dtype().floating() {
        e.says(ErrorKind::Dtype, "mean"@, "float only"@)
    } else if !axes_named(axes, rank as int) {
        axes_error(e, axes, rank as int, "mean"@)
    } else {
        sum_error(e, x, axes)
    }
}

/// What `mean` comes to.
pub open spec fn mean_out<S: Scalars>(
    x: Model<S>,
    axes: Option<Seq<isize>>,
    keepdims: bool,
    r: Outcome<S>,
) -> bool {
    match r {
        Ok(t) => sum_ok(x, axes, keepdims) && mean_value::<S>(
            x,
            marked(asked_axes(axes, x.shape.len()), x.shape.len()),
            keepdims,
            axes_product(x.shape, asked_axes(axes, x.shape.len())) as usize,
            t,
        ),
        Err(e) => !sum_ok(x, axes, keepdims) && mean_error(e, x, axes),
    }
}

/// Mean over `axes` (`None` = all of them); `keepdims` retains them as size 1. The mean of nothing
/// is undefined.
pub fn mean<S: Scalars>(x: &Tensor<S>, axes: Option<&[isize]>, keepdims: bool) -> (r: Result<
    Tensor<S>,
    Error,
>)
    ensures
        mean_out::<S>(x@, seen(axes), keepdims, outcome(r)),
{
    let dtype: Dtype = x.dtype();
    if !dtype.is_float() {
        return Err(Error::dtype("mean", "float only".to_owned()));
    }
    let rank: usize = x.rank();
    let axes_u: Vec<usize> = match named_axes(axes, rank, "mean") {
        Ok(v) => v,
        Err(e) => {
            return Err(e);
        },
    };
    let shape: &[usize] = x.shape();
    let mut n: usize = 1;
    let mut i: usize = 0;
    proof {
        assert(axes_u@.take(0).len() == 0);
        lemma_asked_range(seen(axes), rank as nat);
    }
    while i < axes_u.len()
        invariant
            i <= axes_u@.len(),
            shape@ == x@.shape,
            rank == shape@.len(),
            forall|j: int| 0 <= j < axes_u@.len() ==> #[trigger] axes_u@[j] < rank,
            n == axes_product(shape@, axes_u@.take(i as int)),
        decreases axes_u@.len() - i,
    {
        proof {
            assert(axes_u@.take(i + 1).drop_last() =~= axes_u@.take(i as int));
        }
        n = saturating_times(n, shape[axes_u[i]]);
        i = i + 1;
    }
    proof {
        assert(axes_u@.take(i as int) =~= axes_u@);
    }
    let s: Tensor<S> = match sum(x, axes, keepdims) {
        Ok(s) => s,
        Err(e) => {
            return Err(e);
        },
    };
    let ghost out_shape = s@.shape;
    proof {
        assert(out_shape.take(out_shape.len() as int) =~= out_shape);
    }
    if n == 0 {
        let count: usize = s.numel();
        let r: Result<Tensor<S>, Error> = match dtype {
            Dtype::F32 => {
                let u: S::F = <S as Arith<S::F>>::undefined();
                let v: Vec<S::F> = repeated(u, count);
                assert(uniform(v@, u));
                Tensor::from_vec_f32(v, s.shape())
            },
            _ => {
                let u: S::D = <S as Arith<S::D>>::undefined();
                let v: Vec<S::D> = repeated(u, count);
                assert(uniform(v@, u));
                Tensor::from_vec_f64(v, s.shape())
            },
        };
        assert(r is Ok ==> mean_of_sum::<S>(s@, 0, r->Ok_0@));
        r
    } else {
        let one: S::D = <S as Arith<S::D>>::one();
        assert(is_one::<S::D, S>(one));
        let count: S::D = <S as Arith<S::D>>::count(n);
        let k: S::D = <S as Arith<S::D>>::over(one, count);
        assert(is_share::<S::D, S>(n, k));
        let r: Result<Tensor<S>, Error> = mul_scalar(&s, k);
        assert(r is Ok ==> mean_of_sum::<S>(s@, n, r->Ok_0@));
        r
    }
}

pub proof fn lemma_asked_range(axes: Option<Seq<isize>>, rank: nat)
    requires
        axes_named(axes, rank as int),
        rank <= usize::MAX,
    ensures
        forall|j: int|
            0 <= j < asked_axes(axes, rank).len() ==> #[trigger] asked_axes(axes, rank)[j] < rank,
{
    if axes is Some {
        let ax = axes->Some_0;
        assert(names_ok(ax, rank as int));
        assert forall|j: int| 0 <= j < asked_axes(axes, rank).len() implies #[trigger] asked_axes(
            axes,
            rank,
        )[j] < rank by {
            assert(axis_ok(ax[j] as int, rank as int));
        }
    }
}

/// The greater of what was found and the next element.
pub open spec fn keeping_greater<T, A: Arith<T>>() -> spec_fn(T, T, T) -> bool {
    |p: T, x: T, r: T| call_ensures(A::greater, (p, x), r)
}

/// The next element where it is above what was found.
pub open spec fn keeping_above<T, A: Arith<T>>() -> spec_fn(T, T, T) -> bool {
    |p: T, x: T, r: T|
        {
            ||| call_ensures(A::above, (x, p), true) && r == x
            ||| call_ensures(A::above, (x, p), false) && r == p
        }
}

/// Every output is what `step` keeps of the elements that contribute to it, from a lowest number
/// on.
pub open spec fn axis_maxima<T, A: Arith<T>>(
    step: spec_fn(T, T, T) -> bool,
    shape: Seq<usize>,
    red: Seq<bool>,
    keep: bool,
    xs: Seq<T>,
    out: Seq<T>,
) -> bool {
    exists|low: T| #[trigger]
        call_ensures(A::lowest, (), low) && reduces(step, low, shape, red, keep, xs, out)
}

/// One axis marked.
pub open spec fn one_marked(rank: nat, ax: int) -> Seq<bool> {
    Seq::new(rank, |k: int| k == ax)
}

/// The value of a maximum over axis `ax`.
pub open spec fn amax_value<S: Scalars>(
    x: TensorModel<S::F, S::D>,
    ax: int,
    keep: bool,
    r: TensorModel<S::F, S::D>,
) -> bool {
    let red = one_marked(x.shape.len(), ax);
    let out = kept_shape(x.shape, red, keep);
    &&& fits(out) && r.plain(out) && r.valid() && r.elems() == r.data
    &&& match (x.elems(), r.data) {
        (Data::F32(v), Data::F32(w)) => axis_maxima::<S::F, S>(
            if ax == x.shape.len() - 1 {
                keeping_greater::<S::F, S>()
            } else {
                keeping_above::<S::F, S>()
            },
            x.shape,
            red,
            keep,
            v,
            w,
        ),
        (Data::F64(v), Data::F64(w)) => volume(out) > 0 && axis_maxima::<S::D, S>(
            keeping_above::<S::D, S>(),
            x.shape,
            red,
            keep,
            v,
            w,
        ),
        _ => false,
    }
}

/// Why a maximum was refused.
pub open spec fn amax_error<F, D>(
    e: Error,
    x: TensorModel<F, D>,
    axis: int,
    keep: bool,
) -> bool {
    let rank = x.shape.len() as int;
    if !axis_ok(axis, rank) {
        axis_error(e, axis, rank, "amax"@)
    } else {
        let ax = axis_at(axis, rank);
        let out = kept_shape(x.shape, one_marked(x.shape.len(), ax), keep);
        if x.shape[ax] == 0 {
            e.says(ErrorKind::Shape, "amax"@, "empty reduction has no identity"@)
        } else if !x.dtype().floating() {
            e.says(ErrorKind::Dtype, "amax"@, "float"@)
        } else if !fits(out) {
            numel_error(e)
        } else {
            x.dtype() == Dtype::F64 && volume(out) == 0 && slice_error(e, 1, out)
        }
    }
}

/// The maxima of the marked axes, from a lowest number on.
pub(crate) fn maxima<T: Copy, A: Arith<T>>(
    v: &[T],
    shape: &[usize],
    red: &[bool],
    out_n: usize,
    Ghost(keep): Ghost<bool>,
) -> (out: Vec<T>)
    requires
        red@.len() == shape@.len(),
        v@.len() == volume(shape@),
        out_n == volume(kept_shape(shape@, red@, keep)),
    ensures
        axis_maxima::<T, A>(keeping_above::<T, A>(), shape@, red@, keep, v@, out@),
{
    let f = |p: T, x: T| -> (q: T)
        ensures
            keeping_above::<T, A>()(p, x, q)
    {
        if A::above(x, p) {
            x
        } else {
            p
        }
    };
    let low: T = A::lowest();
    let out: Vec<T> = reduce_kernel(v, shape, red, out_n, low, &f, Ghost(keep));
    proof {
        lemma_reduces_weaken(
            |p: T, x: T, q: T| call_ensures(f, (p, x), q),
            keeping_above::<T, A>(),
            low,
            shape@,
            red@,
            keep,
            v@,
            out@,
        );
    }
    out
}

fn row_maxima<T: Copy + Send + Sync, A: Arith<T>>(
    v: &[T],
    shape: &[usize],
    red: &[bool],
    out_n: usize,
    Ghost(keep): Ghost<bool>,
) -> (out: Vec<T>)
    requires
        red@.len() == shape@.len(),
        v@.len() == volume(shape@),
        out_n == volume(kept_shape(shape@, red@, keep)),
        only_last(red@),
        shape@.last() > 0,
    ensures
        axis_maxima::<T, A>(keeping_greater::<T, A>(), shape@, red@, keep, v@, out@),
{
    let inner: usize = shape[shape.len() - 1];
    let n: usize = v.len();
    let low: T = A::lowest();
    proof {
        lemma_kept_last_volume(shape@, red@, keep);
    }
    let f = |p: T, x: T| -> (q: T)
        ensures
            keeping_greater::<T, A>()(p, x, q)
    {
        A::greater(p, x)
    };
    let g = &f;
    let ghost step = |p: T, x: T, q: T| call_ensures(*g, (p, x), q);
    let row = |r: usize| -> (p: T)
        requires
            r < out_n,
            out_n * inner == v@.len(),
            v@.len() == n,
            forall|p: T, x: T| #[trigger] call_requires(*g, (p, x))
        ensures
            folds(
                |p: T, x: T, q: T| call_ensures(*g, (p, x), q),
                v@.subrange(r * inner, r * inner + inner),
                every(),
                inner as int,
                low,
                p,
            )
    {
        proof {
            assert(0 <= r * inner && r * inner + inner <= out_n * inner) by (nonlinear_arith)
                requires
                    0 <= r < out_n,
                    inner >= 0,
            ;
        }
        fold_span(v, r * inner, r * inner + inner, low, g)
    };
    let out: Vec<T> = par_fill(out_n, row);
    proof {
        assert forall|o: int| 0 <= o < out@.len() implies folds(
            keeping_greater::<T, A>(),
            v@,
            contributes(shape@, red@, keep, o),
            v@.len() as int,
            low,
            #[trigger] out@[o],
        ) by {
            assert(call_ensures(row, (o as usize,), out@[o]));
            let lo = o * inner;
            let hi = lo + inner;
            assert(0 <= lo && hi <= v@.len()) by (nonlinear_arith)
                requires
                    0 <= o < out_n,
                    inner >= 0,
                    lo == o * inner,
                    hi == lo + inner,
                    out_n * inner == v@.len(),
            ;
            let pick = contributes(shape@, red@, keep, o);
            assert forall|i: int| 0 <= i < v@.len() implies (#[trigger] pick(i) <==> lo <= i
                < hi) by {
                lemma_kept_last(shape@, red@, keep, i);
                let d = inner as int;
                assert((i / d == o) == (o * d <= i < o * d + d)) by (nonlinear_arith)
                    requires
                        d > 0,
                ;
            }
            lemma_folds_window(step, v@, lo, hi, pick, low, out@[o]);
            lemma_folds_weaken(
                step,
                keeping_greater::<T, A>(),
                v@,
                pick,
                v@.len() as int,
                low,
                out@[o],
            );
        }
        assert(reduces(keeping_greater::<T, A>(), low, shape@, red@, keep, v@, out@));
    }
    out
}

proof fn lemma_kept_last_volume(shape: Seq<usize>, red: Seq<bool>, keep: bool)
    requires
        red.len() == shape.len(),
        only_last(red),
    ensures
        volume(kept_shape(shape, red, keep)) == volume(shape.drop_last()),
{
    let front = shape.drop_last();
    lemma_kept_none(front, red.drop_last(), keep, crate::index::origin(front.len()));
    assert(front.push(1).drop_last() =~= front);
    let v = volume(front) as int;
    assert(v * 1 == v) by (nonlinear_arith);
}

/// What `amax` comes to.
pub open spec fn amax_out<S: Scalars>(
    x: Model<S>,
    axis: isize,
    keepdims: bool,
    r: Outcome<S>,
) -> bool {
    match r {
        Ok(t) => axis_ok(axis as int, x.shape.len() as int) && x.shape[axis_at(
            axis as int,
            x.shape.len() as int,
        )] > 0 && amax_value::<S>(
            x,
            axis_at(axis as int, x.shape.len() as int),
            keepdims,
            t,
        ),
        Err(e) => amax_error(e, x, axis as int, keepdims),
    }
}

/// Reduce `x` by max over `axis` (`keepdims` retains it as size 1).
pub fn amax<S: Scalars>(x: &Tensor<S>, axis: isize, keepdims: bool) -> (r: Result<Tensor<S>, Error>)
    ensures
        amax_out::<S>(x@, axis, keepdims, outcome(r)),
{
    let rank: usize = x.rank();
    let ax: usize = match normalize_axis(axis, rank, "amax") {
        Ok(a) => a,
        Err(e) => {
            return Err(e);
        },
    };
    let shape: &[usize] = x.shape();
    if shape[ax] == 0 {
        return Err(Error::shape("amax", "empty reduction has no identity".to_owned()));
    }
    let axes: [usize; 1] = [ax];
    let (red, out_shape): (Vec<bool>, Vec<usize>) = match reduce_axes(shape, &axes, keepdims) {
        Ok(p) => p,
        Err(e) => {
            proof {
                assert(reduce_entry_ok(axes@, rank as int, 0));
            }
            return Err(e);
        },
    };
    proof {
        assert forall|k: int| 0 <= k < rank implies marked(axes@, rank as nat)[k] == (k == ax) by {
            if k == ax {
                assert(axes@[0] == k);
            }
        }
        assert(red@ =~= one_marked(rank as nat, ax as int));
    }
    match x.dtype() {
        Dtype::F32 => {
            let out_n: usize = match numel(out_shape.as_slice()) {
                Ok(n) => n,
                Err(e) => {
                    return Err(e);
                },
            };
            let v: Vec<S::F> = match x.to_vec_f32() {
                Ok(v) => v,
                Err(e) => {
                    return Err(e);
                },
            };
            let out: Vec<S::F> = if ax == rank - 1 {
                row_maxima::<S::F, S>(v.as_slice(), shape, red.as_slice(), out_n, Ghost(keepdims))
            } else {
                maxima::<S::F, S>(v.as_slice(), shape, red.as_slice(), out_n, Ghost(keepdims))
            };
            Tensor::from_vec_f32(out, out_shape.as_slice())
        },
        Dtype::F64 => {
            let out_n: usize = match numel(out_shape.as_slice()) {
                Ok(n) => n,
                Err(e) => {
                    return Err(e);
                },
            };
            if out_n == 0 {
                return Err(
                    Error::shape(
                        "from_slice",
                        crate::text::with_two_numbers("len ", 1, " != numel ", 0),
                    ),
                );
            }
            let v: Vec<S::D> = match x.to_vec_f64() {
                Ok(v) => v,
                Err(e) => {
                    return Err(e);
                },
            };
            let out: Vec<S::D> = maxima::<S::D, S>(
                v.as_slice(),
                shape,
                red.as_slice(),
                out_n,
                Ghost(keepdims),
            );
            Tensor::from_vec_f64(out, out_shape.as_slice())
        },
        Dtype::I64 => Err(Error::dtype("amax", "float".to_owned())),
    }
}

} // verus!
