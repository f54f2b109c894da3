//! Rules of differentiation that take the cotangent back to where the elements came from.
use vstd::prelude::*;
use crate::dtype::Dtype;
use crate::error::{Error, ErrorKind};
use crate::guarded::{cut, cut_out, misfit, misfit_error};
use crate::index::{
    fits, in_bounds, ints, lemma_origin, lemma_ravel, lemma_unravel, lemma_volume_zero, ravel,
    slots, unravel, volume,
};
use crate::indexing::{rank_of, same_shape, target_index};
use crate::lookup::{sum_into, sums_into};
use crate::loss::count_of;
use crate::reduce::uniform;
use crate::rules::{from_f32s_out, from_f64s_out, one_part};
use crate::scalar::{is_difference, is_zero, Arith, Scalars};
use crate::shape::{advance, numel, offset_of, zero_index};
use crate::storage::Data;
use crate::tape::{parts_outcome, views};
use crate::tensor::{
    gives, lemma_reaches, outcome, passes, repeated, zeros_out, Model, Outcome, Tensor,
};
use crate::views::{reshape_out, unsqueeze_out, Range3};

verus! {

/// One tensor as a list of one, or its error.
pub open spec fn single_out<S: Scalars>(o: Outcome<S>, r: Result<Seq<Model<S>>, Error>) -> bool {
    passes(o, r, gives(r, seq![o->Ok_0]))
}

/// One tensor as a list of one.
pub fn single<S: Scalars>(o: Result<Tensor<S>, Error>) -> (r: Result<Vec<Tensor<S>>, Error>)
    ensures
        single_out::<S>(outcome(o), parts_outcome(r)),
{
    match o {
        Ok(t) => Ok(one_part(t)),
        Err(e) => Err(e),
    }
}

/// All of every axis but one, and of that one the part from `start` to `end`.
pub open spec fn band(rank: nat, axis: int, start: int, end: int) -> Seq<Range3> {
    Seq::new(
        rank,
        |k: int|
            if k == axis {
                (Some(start as isize), Some(end as isize), Some(1isize))
            } else {
                (None, None, None)
            },
    )
}

fn band_of(rank: usize, axis: usize, start: isize, end: isize) -> (r: Vec<Range3>)
    ensures
        r@ == band(rank as nat, axis as int, start as int, end as int),
{
    let mut v: Vec<Range3> = Vec::new();
    let mut k: usize = 0;
    while k < rank
        invariant
            k <= rank,
            v@ == band(rank as nat, axis as int, start as int, end as int).take(k as int),
        decreases rank - k,
    {
        if k == axis {
            v.push((Some(start), Some(end), Some(1)));
        } else {
            v.push((None, None, None));
        }
        assert(v@ =~= band(rank as nat, axis as int, start as int, end as int).take(k + 1));
        k = k + 1;
    }
    assert(v@ =~= band(rank as nat, axis as int, start as int, end as int));
    v
}

/// The pieces of a concatenation from the `i`-th on: the parts of the cotangent, one after the
/// other along the axis.
pub open spec fn cat_parts<S: Scalars>(
    gy: Model<S>,
    axis: usize,
    sizes: Seq<usize>,
    i: int,
    start: int,
    done: Seq<Model<S>>,
    r: Result<Seq<Model<S>>, Error>,
) -> bool
    decreases sizes.len() - i,
{
    if i >= sizes.len() {
        gives(r, done)
    } else if axis >= gy.shape.len() || start + sizes[i] > isize::MAX {
        r is Err && misfit(r->Err_0, "cat"@)
    } else {
        exists|o: Outcome<S>| #[trigger]
            cut_out::<S>(
                "cat"@,
                gy,
                band(gy.shape.len(), axis as int, start, start + sizes[i]),
                o,
            ) && passes(
                o,
                r,
                cat_parts::<S>(gy, axis, sizes, i + 1, start + sizes[i], done.push(o->Ok_0), r),
            )
    }
}

/// Splits a cotangent along an axis, from the `i`-th piece on.
pub fn cat_vjp<S: Scalars>(
    gy: &Tensor<S>,
    axis: usize,
    sizes: &[usize],
    i: usize,
    start: isize,
    done: Vec<Tensor<S>>,
) -> (r: Result<Vec<Tensor<S>>, Error>)
    requires
        i <= sizes@.len(),
        start >= 0,
    ensures
        cat_parts::<S>(gy@, axis, sizes@, i as int, start as int, views(done@), parts_outcome(r)),
    decreases sizes@.len() - i,
{
    if i >= sizes.len() {
        return Ok(done);
    }
    if axis >= gy.rank() || sizes[i] as u128 + start as u128 > isize::MAX as u128 {
        return Err(misfit_error("cat"));
    }
    let end: isize = start + sizes[i] as isize;
    let ranges: Vec<Range3> = band_of(gy.rank(), axis, start, end);
    match cut("cat", gy, ranges.as_slice()) {
        Ok(t) => {
            let ghost m = t@;
            let ghost before = views(done@);
            let mut more: Vec<Tensor<S>> = done;
            more.push(t);
            assert(views(more@) =~= before.push(m));
            cat_vjp(gy, axis, sizes, i + 1, end, more)
        },
        Err(e) => Err(e),
    }
}

/// The buffer after the first `n` values have been written, each to its slot.
pub open spec fn poked<T>(data: Seq<T>, at: Seq<int>, values: Seq<T>, n: int) -> Seq<T>
    decreases n,
{
    if n <= 0 {
        data
    } else {
        poked(data, at, values, n - 1).update(at[n - 1], values[n - 1])
    }
}

/// Writing keeps the length.
proof fn lemma_poked_len<T>(data: Seq<T>, at: Seq<int>, values: Seq<T>, n: int)
    requires
        forall|i: int| 0 <= i < n ==> 0 <= #[trigger] at[i] < data.len(),
    ensures
        poked(data, at, values, n).len() == data.len(),
    decreases n,
{
    if n > 0 {
        lemma_poked_len(data, at, values, n - 1);
    }
}

/// The piece of a slice: zeros, with the cotangent written where the slice was.
#[verifier::opaque]
pub open spec fn slice_parts<S: Scalars>(
    shape: Seq<usize>,
    ranges: Seq<Range3>,
    gy: Model<S>,
    r: Result<Seq<Model<S>>, Error>,
) -> bool {
    exists|o: Outcome<S>| #[trigger]
        zeros_out::<S>(shape, gy.dtype(), o) && passes(
            o,
            r,
            slice_cut::<S>(o->Ok_0, ranges, gy, r),
        )
}

/// The place of the slice.
pub open spec fn slice_cut<S: Scalars>(
    full: Model<S>,
    ranges: Seq<Range3>,
    gy: Model<S>,
    r: Result<Seq<Model<S>>, Error>,
) -> bool {
    exists|o: Outcome<S>| #[trigger]
        cut_out::<S>("slice"@, full, ranges, o) && passes(
            o,
            r,
            slice_poked::<S>(full, o->Ok_0, gy, r),
        )
}

/// The cotangent written into that place.
pub open spec fn slice_poked<S: Scalars>(
    full: Model<S>,
    part: Model<S>,
    gy: Model<S>,
    r: Result<Seq<Model<S>>, Error>,
) -> bool {
    if gy.dtype() != Dtype::F32 {
        r is Err && r->Err_0.says(ErrorKind::Dtype, "to_vec"@, "expected f32"@)
    } else if gy.f32s().len() < volume(part.shape) {
        r is Err && misfit(r->Err_0, "slice"@)
    } else {
        exists|o: Outcome<S>| #[trigger]
            from_f32s_out::<S>(
                poked(
                    full.data->F32_0,
                    slots(part.offset, part.shape, part.strides),
                    gy.f32s(),
                    volume(part.shape) as int,
                ),
                full.shape,
                o,
            ) && single_out::<S>(o, r)
    }
}

/// Writes the first of the values into the place of a view.
fn poke<S: Scalars>(part: &Tensor<S>, data: &[S::F], values: &[S::F]) -> (out: Vec<S::F>)
    requires
        part@.valid(),
        part@.data.len() == data@.len(),
        values@.len() >= volume(part@.shape),
    ensures
        out@ == poked(
            data@,
            slots(part@.offset, part@.shape, part@.strides),
            values@,
            volume(part@.shape) as int,
        ),
{
    let ghost m = part@;
    let ghost at = slots(m.offset, m.shape, m.strides);
    let ghost total = volume(m.shape) as int;
    assert(values.len() == values@.len());
    let shape: &[usize] = part.shape();
    let strides: &[isize] = part.strides();
    let offset: usize = part.storage_offset();
    let mut out: Vec<S::F> = crate::tensor::copied(data);
    if crate::shape::has_zero(shape) {
        return out;
    }
    proof {
        assert forall|i: int| 0 <= i < total implies 0 <= #[trigger] at[i] < data@.len() by {
            lemma_unravel(m.shape, i);
            assert(0 <= m.slot(unravel(m.shape, i)) < m.data.len());
        }
        lemma_origin(m.shape, m.strides);
    }
    let mut idx: Vec<usize> = zero_index(shape.len());
    let mut i: usize = 0;
    let mut more: bool = true;
    while more
        invariant
            m == part@,
            m.valid(),
            m.data.len() == data@.len() <= usize::MAX,
            shape@ == m.shape,
            strides@ == m.strides,
            offset == m.offset,
            at == slots(m.offset, m.shape, m.strides),
            total == volume(m.shape),
            total <= values@.len() <= usize::MAX,
            forall|j: int| 0 <= j < total ==> 0 <= #[trigger] at[j] < data@.len(),
            out@ == poked(data@, at, values@, i as int),
            out@.len() == data@.len(),
            more ==> in_bounds(m.shape, ints(idx@)) && ravel(m.shape, ints(idx@)) == i,
            !more ==> i == total,
            i <= total,
        decreases total - i,
    {
        proof {
            lemma_ravel(m.shape, ints(idx@));
            lemma_reaches(m, ints(idx@));
            assert(m.strides.take(idx@.len() as int) =~= m.strides);
            assert(at[i as int] == m.slot(ints(idx@)));
        }
        let o: usize = offset_of(idx.as_slice(), offset, strides);
        out.set(o, values[i]);
        more = advance(shape, &mut idx);
        i = i + 1;
    }
    out
}

/// The piece of a slice.
pub fn slice_vjp<S: Scalars>(shape: &[usize], ranges: &[Range3], gy: &Tensor<S>) -> (r: Result<
    Vec<Tensor<S>>,
    Error,
>)
    ensures
        slice_parts::<S>(shape@, ranges@, gy@, parts_outcome(r)),
{
    proof {
        reveal(slice_parts);
    }
    let full: Tensor<S> = match Tensor::zeros(shape, gy.dtype()) {
        Ok(t) => t,
        Err(e) => {
            return Err(e);
        },
    };
    let part: Tensor<S> = match cut("slice", &full, ranges) {
        Ok(t) => t,
        Err(e) => {
            return Err(e);
        },
    };
    let gv: Vec<S::F> = match gy.to_vec_f32() {
        Ok(v) => v,
        Err(e) => {
            return Err(e);
        },
    };
    let fv: Vec<S::F> = match full.to_vec_f32() {
        Ok(v) => v,
        Err(e) => {
            return Err(e);
        },
    };
    if crate::guarded::holds_at_least(&part, gv.len() as u128 + 1) {
        return Err(misfit_error("slice"));
    }
    let out: Vec<S::F> = poke(&part, fv.as_slice(), gv.as_slice());
    let o: Result<Tensor<S>, Error> = Tensor::from_slice_f32(out.as_slice(), full.shape());
    assert(from_f32s_out::<S>(out@, full@.shape, outcome(o)));
    single(o)
}

/// `v` is above `x`, or, where it comes before `x`, equal to it.
pub open spec fn beats<T, A: Arith<T>>(v: T, x: T, before: bool, z: T) -> bool {
    call_ensures(A::above, (v, x), true) || (before && level::<T, A>(v, x, z, true))
}

/// `v` is not above `x` and, where it comes before `x`, not equal to it.
pub open spec fn spares<T, A: Arith<T>>(v: T, x: T, before: bool, z: T) -> bool {
    call_ensures(A::above, (v, x), false) && (before ==> level::<T, A>(v, x, z, false))
}

/// Whether the magnitude of `v - x` is at most zero.
pub open spec fn level<T, A: Arith<T>>(v: T, x: T, z: T, yes: bool) -> bool {
    exists|d: T, m: T| #[trigger]
        is_difference::<T, A>(v, x, d) && #[trigger] call_ensures(A::magnitude, (d,), m)
            && call_ensures(A::at_least, (z, m), yes)
}

/// Rank of the `j`-th position of the line along `ax` that position `i` lies on.
pub open spec fn along(shape: Seq<usize>, ax: int, i: int, j: int) -> int {
    ravel(shape, unravel(shape, i).update(ax, j))
}

/// Whether position `i` holds the first of the greatest of its line.
pub open spec fn leads<T, A: Arith<T>>(
    xs: Seq<T>,
    shape: Seq<usize>,
    ax: int,
    z: T,
    i: int,
    yes: bool,
) -> bool {
    if yes {
        forall|j: int|
            0 <= j < shape[ax] ==> spares::<T, A>(
                xs[#[trigger] along(shape, ax, i, j)],
                xs[i],
                j < unravel(shape, i)[ax],
                z,
            )
    } else {
        exists|j: int|
            0 <= j < shape[ax] && beats::<T, A>(
                xs[#[trigger] along(shape, ax, i, j)],
                xs[i],
                j < unravel(shape, i)[ax],
                z,
            )
    }
}

/// Rank, among the maxima, of the maximum of the line on which position `i` lies.
pub open spec fn line_of(shape: Seq<usize>, ax: int, i: int) -> int {
    ravel(shape.update(ax, 1), unravel(shape, i).update(ax, 0))
}

/// Position `i` gets the cotangent of its line's maximum if it is the first to hold it, and zero
/// else. Where there are no cotangents it gets zero.
pub open spec fn routed<T, A: Arith<T>>(
    xs: Seq<T>,
    shape: Seq<usize>,
    ax: int,
    z: T,
    gs: Option<Seq<T>>,
    i: int,
    y: T,
) -> bool {
    exists|yes: bool| #[trigger]
        leads::<T, A>(xs, shape, ax, z, i, yes) && y == if yes && gs is Some {
            gs->0[line_of(shape, ax, i)]
        } else {
            z
        }
}

/// Every position gets what it is due.
pub open spec fn routes<T, A: Arith<T>>(
    xs: Seq<T>,
    shape: Seq<usize>,
    ax: int,
    gs: Option<Seq<T>>,
    v: Seq<T>,
) -> bool {
    exists|z: T| #[trigger]
        is_zero::<T, A>(z) && v.len() == xs.len() && all_routed::<T, A>(xs, shape, ax, z, gs, v)
}

/// Every position gets what it is due, with `z` for zero.
pub open spec fn all_routed<T, A: Arith<T>>(
    xs: Seq<T>,
    shape: Seq<usize>,
    ax: int,
    z: T,
    gs: Option<Seq<T>>,
    v: Seq<T>,
) -> bool {
    forall|i: int|
        0 <= i < v.len() ==> routed::<T, A>(xs, shape, ax, z, gs, i, #[trigger] v[i])
}

/// A line along an axis stays in the box.
proof fn lemma_along(shape: Seq<usize>, ax: int, idx: Seq<int>, j: int)
    requires
        in_bounds(shape, idx),
        0 <= ax < shape.len(),
        0 <= j < shape[ax],
    ensures
        in_bounds(shape, idx.update(ax, j)),
        0 <= ravel(shape, idx.update(ax, j)) < volume(shape),
{
    let c = idx.update(ax, j);
    assert forall|k: int| 0 <= k < shape.len() implies 0 <= #[trigger] c[k] < shape[k] by {
        assert(0 <= idx[k] < shape[k]);
    }
    lemma_ravel(shape, c);
}

/// A position's line is one of the maxima.
proof fn lemma_line(shape: Seq<usize>, ax: int, idx: Seq<int>)
    requires
        in_bounds(shape, idx),
        0 <= ax < shape.len(),
    ensures
        in_bounds(shape.update(ax, 1), idx.update(ax, 0)),
        0 <= ravel(shape.update(ax, 1), idx.update(ax, 0)) < volume(shape.update(ax, 1)),
{
    let c = idx.update(ax, 0);
    let s = shape.update(ax, 1);
    assert forall|k: int| 0 <= k < s.len() implies 0 <= #[trigger] c[k] < s[k] by {
        assert(0 <= idx[k] < shape[k]);
    }
    lemma_ravel(s, c);
}

fn is_level<T: Copy, A: Arith<T>>(v: T, x: T, z: T) -> (yes: bool)
    ensures
        level::<T, A>(v, x, z, yes),
{
    let d: T = A::minus(v, x);
    assert(is_difference::<T, A>(v, x, d));
    let m: T = A::magnitude(d);
    A::at_least(z, m)
}

/// Whether a position holds the first of the greatest of its line.
fn leads_at<T: Copy, A: Arith<T>>(
    xs: &[T],
    shape: &[usize],
    ax: usize,
    z: T,
    idx: &[usize],
    i: usize,
) -> (yes: bool)
    requires
        ax < shape@.len(),
        xs@.len() == volume(shape@),
        in_bounds(shape@, ints(idx@)),
        i == ravel(shape@, ints(idx@)),
    ensures
        leads::<T, A>(xs@, shape@, ax as int, z, i as int, yes),
{
    assert(xs.len() == xs@.len());
    let ghost at = ints(idx@);
    proof {
        lemma_ravel(shape@, at);
        lemma_volume_zero(shape@);
    }
    let mut j: usize = 0;
    while j < shape[ax]
        invariant
            ax < shape@.len() == idx@.len(),
            j <= shape@[ax as int],
            xs@.len() == volume(shape@),
            volume(shape@) > 0,
            xs@.len() <= usize::MAX,
            at == ints(idx@),
            in_bounds(shape@, at),
            i == ravel(shape@, at),
            i < xs@.len(),
            unravel(shape@, i as int) == at,
            forall|k: int|
                0 <= k < j ==> spares::<T, A>(
                    xs@[#[trigger] along(shape@, ax as int, i as int, k)],
                    xs@[i as int],
                    k < at[ax as int],
                    z,
                ),
        decreases shape@[ax as int] - j,
    {
        let c: Vec<usize> = target_index(idx, ax, j, shape.len());
        proof {
            assert(c@ =~= idx@.update(ax as int, j));
            assert(ints(c@) =~= at.update(ax as int, j as int));
            lemma_along(shape@, ax as int, at, j as int);
        }
        let k: usize = rank_of(shape, c.as_slice());
        assert(k == along(shape@, ax as int, i as int, j as int));
        if A::above(xs[k], xs[i]) {
            return false;
        }
        if j < idx[ax] && is_level::<T, A>(xs[k], xs[i], z) {
            return false;
        }
        j = j + 1;
    }
    true
}

/// Takes every cotangent to the first of the greatest of its line.
fn route<T: Copy, A: Arith<T>>(xs: &[T], shape: &[usize], ax: usize, gs: Option<&[T]>) -> (v: Vec<
    T,
>)
    requires
        ax < shape@.len(),
        xs@.len() == volume(shape@),
        gs matches Some(g) ==> volume(shape@) > 0 ==> g@.len() == volume(
            shape@.update(ax as int, 1),
        ),
    ensures
        routes::<T, A>(
            xs@,
            shape@,
            ax as int,
            match gs {
                Some(g) => Some(g@),
                None => None,
            },
            v@,
        ),
{
    let z: T = A::zero();
    assert(is_zero::<T, A>(z));
    let ghost given: Option<Seq<T>> = match gs {
        Some(g) => Some(g@),
        None => None,
    };
    let n: usize = xs.len();
    let mut v: Vec<T> = Vec::new();
    if n == 0 {
        assert(all_routed::<T, A>(xs@, shape@, ax as int, z, given, v@));
        return v;
    }
    let mut lines: Vec<usize> = crate::tensor::copied(shape);
    lines.set(ax, 1);
    let mut idx: Vec<usize> = zero_index(shape.len());
    proof {
        lemma_origin(shape@, Seq::new(shape@.len(), |k: int| 0isize));
        assert(lines@ =~= shape@.update(ax as int, 1));
    }
    let mut i: usize = 0;
    while i < n
        invariant
            i <= n == xs@.len() == volume(shape@),
            ax < shape@.len(),
            lines@ == shape@.update(ax as int, 1),
            given == (match gs {
                Some(g) => Some(g@),
                None => None,
            }),
            gs matches Some(g) ==> g@.len() == volume(lines@),
            i < n ==> in_bounds(shape@, ints(idx@)) && ravel(shape@, ints(idx@)) == i,
            v@.len() == i,
            all_routed::<T, A>(xs@, shape@, ax as int, z, given, v@),
        decreases n - i,
    {
        let ghost at = ints(idx@);
        proof {
            lemma_ravel(shape@, at);
            lemma_line(shape@, ax as int, at);
        }
        let yes: bool = leads_at::<T, A>(xs, shape, ax, z, idx.as_slice(), i);
        let y: T = match gs {
            Some(g) => if yes {
                let c: Vec<usize> = target_index(idx.as_slice(), ax, 0, shape.len());
                assert(g.len() == g@.len());
                proof {
                    assert(c@ =~= idx@.update(ax as int, 0));
                    assert(ints(c@) =~= at.update(ax as int, 0));
                }
                let k: usize = rank_of(lines.as_slice(), c.as_slice());
                assert(k == line_of(shape@, ax as int, i as int));
                g[k]
            } else {
                z
            },
            None => z,
        };
        let ghost before = v@;
        v.push(y);
        proof {
            assert(routed::<T, A>(xs@, shape@, ax as int, z, given, i as int, y));
            assert forall|k: int| 0 <= k < v@.len() implies routed::<T, A>(
                xs@,
                shape@,
                ax as int,
                z,
                given,
                k,
                #[trigger] v@[k],
            ) by {
                if k < i {
                    assert(v@[k] == before[k]);
                }
            }
        }
        let _ = advance(shape, &mut idx);
        i = i + 1;
    }
    v
}

/// The piece of a maximum along an axis: the cotangents, each at the first place where its maximum
/// stands.
#[verifier::opaque]
pub open spec fn amax_parts<S: Scalars>(
    x: Model<S>,
    axis: usize,
    keep: bool,
    gy: Model<S>,
    r: Result<Seq<Model<S>>, Error>,
) -> bool {
    if keep {
        amax_routed::<S>(x, axis, gy, r)
    } else {
        exists|o: Outcome<S>| #[trigger]
            unsqueeze_out::<S>(gy, (axis as isize) as int, o) && passes(
                o,
                r,
                amax_routed::<S>(x, axis, o->Ok_0, r),
            )
    }
}

/// The 32-bit data of a tensor, if it has such.
pub open spec fn given_f32s<S: Scalars>(g: Model<S>) -> Option<Seq<S::F>> {
    if g.dtype() == Dtype::F32 {
        Some(g.f32s())
    } else {
        None
    }
}

/// The cotangents `g`, of which the axis has one, taken to their places.
pub open spec fn amax_routed<S: Scalars>(
    x: Model<S>,
    axis: usize,
    g: Model<S>,
    r: Result<Seq<Model<S>>, Error>,
) -> bool {
    if x.dtype() != Dtype::F32 {
        r is Err && r->Err_0.says(ErrorKind::Dtype, "amax"@, "f32 vjp in v1"@)
    } else if axis >= x.shape.len() || (g.dtype() == Dtype::F32 && volume(x.shape) > 0 && g.shape
        != x.shape.update(axis as int, 1)) {
        r is Err && misfit(r->Err_0, "amax"@)
    } else {
        exists|v: Seq<S::F>| #[trigger]
            routes::<S::F, S>(
                x.f32s(),
                x.shape,
                axis as int,
                given_f32s::<S>(g),
                v,
            ) && shaped_parts::<S>(v, x.shape, r)
    }
}

/// The values as a tensor.
pub open spec fn shaped_parts<S: Scalars>(
    v: Seq<S::F>,
    shape: Seq<usize>,
    r: Result<Seq<Model<S>>, Error>,
) -> bool {
    exists|o: Outcome<S>| #[trigger] from_f32s_out::<S>(v, shape, o) && single_out::<S>(o, r)
}

fn amax_route<S: Scalars>(x: &Tensor<S>, axis: usize, g: &Tensor<S>) -> (r: Result<
    Vec<Tensor<S>>,
    Error,
>)
    ensures
        amax_routed::<S>(x@, axis, g@, parts_outcome(r)),
{
    if x.dtype() != Dtype::F32 {
        return Err(Error::dtype("amax", "f32 vjp in v1".to_owned()));
    }
    if axis >= x.rank() {
        return Err(misfit_error("amax"));
    }
    let shape: &[usize] = x.shape();
    let mut lines: Vec<usize> = crate::tensor::copied(shape);
    lines.set(axis, 1);
    let float: bool = g.dtype() == Dtype::F32;
    if float && !crate::shape::has_zero(shape) && !same_shape(g.shape(), lines.as_slice()) {
        return Err(misfit_error("amax"));
    }
    let xs: Vec<S::F> = match x.to_vec_f32() {
        Ok(v) => v,
        Err(e) => {
            return Err(e);
        },
    };
    let v: Vec<S::F> = match g.to_vec_f32() {
        Ok(gs) => route::<S::F, S>(xs.as_slice(), shape, axis, Some(gs.as_slice())),
        Err(_) => route::<S::F, S>(xs.as_slice(), shape, axis, None),
    };
    let o: Result<Tensor<S>, Error> = Tensor::from_slice_f32(v.as_slice(), shape);
    assert(from_f32s_out::<S>(v@, x@.shape, outcome(o)));
    let r: Result<Vec<Tensor<S>>, Error> = single(o);
    assert(shaped_parts::<S>(v@, x@.shape, parts_outcome(r)));
    r
}

/// The piece of a maximum along an axis.
pub fn amax_vjp<S: Scalars>(x: &Tensor<S>, axis: usize, keep: bool, gy: &Tensor<S>) -> (r: Result<
    Vec<Tensor<S>>,
    Error,
>)
    ensures
        amax_parts::<S>(x@, axis, keep, gy@, parts_outcome(r)),
{
    proof {
        reveal(amax_parts);
    }
    if keep {
        return amax_route(x, axis, gy);
    }
    match gy.unsqueeze(axis as isize) {
        Ok(g) => amax_route(x, axis, &g),
        Err(e) => Err(e),
    }
}

/// Every row names a class, and there are machine numbers for all.
pub open spec fn classes_named(targets: Seq<i64>, classes: usize) -> bool {
    forall|i: int| 0 <= i < targets.len() ==> 0 <= #[trigger] targets[i] < classes
}

/// The targets of a negative log-likelihood, one for each row.
pub open spec fn nll_ready<S: Scalars>(targets: Model<S>, batch: usize, classes: usize) -> bool {
    &&& targets.dtype() == Dtype::I64 && targets.i64s().len() == batch
    &&& batch * classes <= usize::MAX
    &&& classes_named(targets.i64s(), classes)
}

/// The number that a tensor of one element holds, as a 32-bit float.
pub open spec fn item_of<S: Scalars>(m: Model<S>, v: S::F) -> bool {
    match m.elems() {
        Data::F32(x) => v == x[0],
        Data::F64(x) => call_ensures(S::narrow, (x[0],), v),
        Data::I64(x) => call_ensures(S::integer_f32, (x[0],), v),
    }
}

/// Element `(i, targets[i])` is the negative of `s[i]`; all others are `z`.
pub open spec fn negatives<T, A: Arith<T>>(
    targets: Seq<i64>,
    s: Seq<T>,
    classes: int,
    z: T,
    v: Seq<T>,
) -> bool {
    forall|o: int|
        0 <= o < v.len() ==> if targets[o / classes] == o % classes {
            call_ensures(A::negated, (s[o / classes],), #[trigger] v[o])
        } else {
            v[o] == z
        }
}

/// Minus one hot row for each target, weighted by `s`.
pub open spec fn hot_slopes<T, A: Arith<T>>(
    targets: Seq<i64>,
    s: Seq<T>,
    classes: int,
    v: Seq<T>,
) -> bool {
    exists|z: T| #[trigger]
        is_zero::<T, A>(z) && v.len() == targets.len() * classes && negatives::<T, A>(
            targets,
            s,
            classes,
            z,
            v,
        )
}

fn hot_slopes_of<T: Copy, A: Arith<T>>(targets: &[i64], s: &[T], classes: usize) -> (v: Vec<T>)
    requires
        s@.len() == targets@.len(),
        targets@.len() * classes <= usize::MAX,
        classes_named(targets@, classes),
    ensures
        hot_slopes::<T, A>(targets@, s@, classes as int, v@),
{
    let n: usize = targets.len();
    let z: T = A::zero();
    assert(is_zero::<T, A>(z));
    let mut v: Vec<T> = repeated(z, n * classes);
    let mut i: usize = 0;
    while i < n
        invariant
            i <= n == targets@.len() == s@.len(),
            n * classes <= usize::MAX,
            classes_named(targets@, classes),
            v@.len() == n * classes,
            forall|o: int|
                0 <= o < i * classes ==> if targets@[o / (classes as int)] == o % (classes as int) {
                    call_ensures(A::negated, (s@[o / (classes as int)],), #[trigger] v@[o])
                } else {
                    v@[o] == z
                },
            forall|o: int| i * classes <= o < v@.len() ==> #[trigger] v@[o] == z,
        decreases n - i,
    {
        let c: i64 = targets[i];
        let ghost w = classes as int;
        let ghost before = v@;
        proof {
            assert(0 <= targets@[i as int] < classes);
            assert(0 <= i * w && i * w + w <= n * w && (i + 1) * w == i * w + w) by (nonlinear_arith)
                requires
                    0 <= i < n,
                    w >= 0,
            ;
        }
        let y: T = A::negated(s[i]);
        v.set(i * classes + c as usize, y);
        proof {
            assert forall|o: int| 0 <= o < (i + 1) * classes implies if targets@[o / w] == o % w {
                call_ensures(A::negated, (s@[o / w],), #[trigger] v@[o])
            } else {
                v@[o] == z
            } by {
                if o < i * w {
                    assert(v@[o] == before[o]);
                } else {
                    assert(o / w == i && o % w == o - i * w) by (nonlinear_arith)
                        requires
                            w > 0,
                            i * w <= o < i * w + w,
                    ;
                }
            }
        }
        i = i + 1;
    }
    assert(negatives::<T, A>(targets@, s@, classes as int, z, v@));
    v
}

/// The weight of every row of a 32-bit loss: the one number that the cotangent holds, or the
/// cotangent's number for that row.
pub open spec fn nll_weights_f32<S: Scalars>(gy: Model<S>, batch: usize, s: Seq<S::F>) -> bool {
    &&& s.len() == batch
    &&& if count_of(gy.shape) == 1 {
        exists|c: S::F| #[trigger] item_of::<S>(gy, c) && uniform(s, c)
    } else {
        batch > 0 ==> s == gy.f32s()
    }
}

/// The weight of every row of a 64-bit loss.
pub open spec fn nll_weights_f64<S: Scalars>(gy: Model<S>, batch: usize, s: Seq<S::D>) -> bool {
    &&& s.len() == batch
    &&& if count_of(gy.shape) == 1 {
        exists|c: S::F, d: S::D| #[trigger]
            item_of::<S>(gy, c) && #[trigger] call_ensures(S::widen, (c,), d) && uniform(s, d)
    } else {
        batch > 0 ==> s == gy.f64s()
    }
}

/// The piece of a negative log-likelihood: minus the cotangent at each row's class, zero elsewhere.
#[verifier::opaque]
pub open spec fn nll_parts<S: Scalars>(
    targets: Model<S>,
    batch: usize,
    classes: usize,
    dtype: Dtype,
    gy: Model<S>,
    r: Result<Seq<Model<S>>, Error>,
) -> bool {
    if dtype == Dtype::I64 {
        r is Err && r->Err_0.says(ErrorKind::Dtype, "nll_loss"@, "float"@)
    } else if !nll_ready::<S>(targets, batch, classes) {
        r is Err && misfit(r->Err_0, "nll_loss"@)
    } else if count_of(gy.shape) != 1 && batch > 0 && gy.dtype() != dtype {
        r is Err && r->Err_0.says(
            ErrorKind::Dtype,
            "storage"@,
            if dtype == Dtype::F32 {
                "expected f32"@
            } else {
                "expected f64"@
            },
        )
    } else if count_of(gy.shape) != 1 && batch > 0 && volume(gy.shape) != batch {
        r is Err && misfit(r->Err_0, "nll_loss"@)
    } else if dtype == Dtype::F32 {
        exists|s: Seq<S::F>| #[trigger]
            nll_weights_f32::<S>(gy, batch, s) && nll_slopes_f32::<S>(targets.i64s(), s, batch, classes, r)
    } else {
        exists|s: Seq<S::D>| #[trigger]
            nll_weights_f64::<S>(gy, batch, s) && nll_slopes_f64::<S>(targets.i64s(), s, batch, classes, r)
    }
}

/// The shape of a matrix.
pub open spec fn matrix(rows: usize, columns: usize) -> Seq<usize> {
    seq![rows, columns]
}

/// The slopes as a 32-bit matrix.
pub open spec fn nll_slopes_f32<S: Scalars>(
    targets: Seq<i64>,
    s: Seq<S::F>,
    batch: usize,
    classes: usize,
    r: Result<Seq<Model<S>>, Error>,
) -> bool {
    exists|v: Seq<S::F>, o: Outcome<S>| #[trigger]
        hot_slopes::<S::F, S>(targets, s, classes as int, v) && #[trigger] from_f32s_out::<S>(
            v,
            matrix(batch, classes),
            o,
        ) && single_out::<S>(o, r)
}

/// The slopes as a 64-bit matrix.
pub open spec fn nll_slopes_f64<S: Scalars>(
    targets: Seq<i64>,
    s: Seq<S::D>,
    batch: usize,
    classes: usize,
    r: Result<Seq<Model<S>>, Error>,
) -> bool {
    exists|v: Seq<S::D>, o: Outcome<S>| #[trigger]
        hot_slopes::<S::D, S>(targets, s, classes as int, v) && #[trigger] from_f64s_out::<S>(
            v,
            matrix(batch, classes),
            o,
        ) && single_out::<S>(o, r)
}

/// Whether every row names a class.
pub fn all_named(targets: &[i64], classes: usize) -> (r: bool)
    ensures
        r == classes_named(targets@, classes),
{
    let mut i: usize = 0;
    while i < targets.len()
        invariant
            i <= targets@.len(),
            forall|j: int| 0 <= j < i ==> 0 <= #[trigger] targets@[j] < classes,
        decreases targets@.len() - i,
    {
        let c: i64 = targets[i];
        if c < 0 || c as u64 as u128 >= classes as u128 {
            assert(!(0 <= targets@[i as int] < classes));
            return false;
        }
        i = i + 1;
    }
    true
}

fn nll_back_f32<S: Scalars>(
    tg: &[i64],
    batch: usize,
    classes: usize,
    gy: &Tensor<S>,
) -> (r: Result<Vec<Tensor<S>>, Error>)
    requires
        tg@.len() == batch,
        batch * classes <= usize::MAX,
        classes_named(tg@, classes),
        count_of(gy@.shape) == 1 || batch == 0 || (gy@.dtype() == Dtype::F32 && volume(gy@.shape)
            == batch),
    ensures
        exists|s: Seq<S::F>| #[trigger]
            nll_weights_f32::<S>(gy@, batch, s) && nll_slopes_f32::<S>(
                tg@,
                s,
                batch,
                classes,
                parts_outcome(r),
            ),
{
    let s: Vec<S::F> = if gy.numel() == 1 {
        match gy.item_f32() {
            Ok(c) => {
                assert(item_of::<S>(gy@, c));
                repeated(c, batch)
            },
            Err(e) => {
                return Err(e);
            },
        }
    } else if batch == 0 {
        Vec::new()
    } else {
        match gy.to_vec_f32() {
            Ok(v) => v,
            Err(e) => {
                return Err(e);
            },
        }
    };
    assert(nll_weights_f32::<S>(gy@, batch, s@));
    let v: Vec<S::F> = hot_slopes_of::<S::F, S>(tg, s.as_slice(), classes);
    let shape: [usize; 2] = [batch, classes];
    assert(shape@ =~= matrix(batch, classes));
    let o: Result<Tensor<S>, Error> = Tensor::from_slice_f32(v.as_slice(), &shape);
    assert(from_f32s_out::<S>(v@, matrix(batch, classes), outcome(o)));
    let r: Result<Vec<Tensor<S>>, Error> = single(o);
    assert(nll_slopes_f32::<S>(tg@, s@, batch, classes, parts_outcome(r)));
    r
}

fn nll_back_f64<S: Scalars>(
    tg: &[i64],
    batch: usize,
    classes: usize,
    gy: &Tensor<S>,
) -> (r: Result<Vec<Tensor<S>>, Error>)
    requires
        tg@.len() == batch,
        batch * classes <= usize::MAX,
        classes_named(tg@, classes),
        count_of(gy@.shape) == 1 || batch == 0 || (gy@.dtype() == Dtype::F64 && volume(gy@.shape)
            == batch),
    ensures
        exists|s: Seq<S::D>| #[trigger]
            nll_weights_f64::<S>(gy@, batch, s) && nll_slopes_f64::<S>(
                tg@,
                s,
                batch,
                classes,
                parts_outcome(r),
            ),
{
    let s: Vec<S::D> = if gy.numel() == 1 {
        match gy.item_f32() {
            Ok(c) => {
                assert(item_of::<S>(gy@, c));
                let d: S::D = S::widen(c);
                repeated(d, batch)
            },
            Err(e) => {
                return Err(e);
            },
        }
    } else if batch == 0 {
        Vec::new()
    } else {
        match gy.to_vec_f64() {
            Ok(v) => v,
            Err(e) => {
                return Err(e);
            },
        }
    };
    assert(nll_weights_f64::<S>(gy@, batch, s@));
    let v: Vec<S::D> = hot_slopes_of::<S::D, S>(tg, s.as_slice(), classes);
    let shape: [usize; 2] = [batch, classes];
    assert(shape@ =~= matrix(batch, classes));
    let o: Result<Tensor<S>, Error> = Tensor::from_slice_f64(v.as_slice(), &shape);
    assert(from_f64s_out::<S>(v@, matrix(batch, classes), outcome(o)));
    let r: Result<Vec<Tensor<S>>, Error> = single(o);
    assert(nll_slopes_f64::<S>(tg@, s@, batch, classes, parts_outcome(r)));
    r
}

/// The piece of a negative log-likelihood.
pub fn nll_vjp<S: Scalars>(
    targets: &Tensor<S>,
    batch: usize,
    classes: usize,
    dtype: Dtype,
    gy: &Tensor<S>,
) -> (r: Result<Vec<Tensor<S>>, Error>)
    ensures
        nll_parts::<S>(targets@, batch, classes, dtype, gy@, parts_outcome(r)),
{
    proof {
        reveal(nll_parts);
    }
    if dtype == Dtype::I64 {
        return Err(Error::dtype("nll_loss", "float".to_owned()));
    }
    let tg: Vec<i64> = match targets.to_vec_i64() {
        Ok(v) => v,
        Err(_) => {
            return Err(misfit_error("nll_loss"));
        },
    };
    proof {
        assert(0 <= batch * classes <= u128::MAX) by (nonlinear_arith)
            requires
                0 <= batch <= usize::MAX,
                0 <= classes <= usize::MAX,
                usize::MAX <= 0xffff_ffff_ffff_ffff,
        ;
    }
    if tg.len() != batch || batch as u128 * classes as u128 > usize::MAX as u128 || !all_named(
        tg.as_slice(),
        classes,
    ) {
        return Err(misfit_error("nll_loss"));
    }
    if gy.numel() != 1 && batch > 0 {
        if gy.dtype() != dtype {
            return match dtype {
                Dtype::F32 => Err(Error::dtype("storage", "expected f32".to_owned())),
                _ => Err(Error::dtype("storage", "expected f64".to_owned())),
            };
        }
        if !crate::guarded::holds_at_least(gy, batch as u128) || crate::guarded::holds_at_least(
            gy,
            batch as u128 + 1,
        ) {
            return Err(misfit_error("nll_loss"));
        }
    }
    match dtype {
        Dtype::F32 => nll_back_f32(tg.as_slice(), batch, classes, gy),
        _ => nll_back_f64(tg.as_slice(), batch, classes, gy),
    }
}

/// All elements in one row.
pub open spec fn flat_shape() -> Seq<isize> {
    seq![-1isize]
}

/// Rows of `dim` elements.
pub open spec fn rows_shape(dim: usize) -> Seq<isize> {
    seq![-1isize, dim as isize]
}

/// The piece of a row lookup: the rows of the cotangent, each added to the row that it was looked
/// up from.
#[verifier::opaque]
pub open spec fn lookup_parts<S: Scalars>(
    indices: Model<S>,
    table: Seq<usize>,
    gy: Model<S>,
    r: Result<Seq<Model<S>>, Error>,
) -> bool {
    if table.len() != 2 || !fits(table) {
        r is Err && misfit(r->Err_0, "embedding"@)
    } else {
        exists|o: Outcome<S>| #[trigger]
            reshape_out::<S>(indices, flat_shape(), o) && passes(
                o,
                r,
                lookup_rows::<S>(o->Ok_0, table, gy, r),
            )
    }
}

/// The cotangent in rows.
pub open spec fn lookup_rows<S: Scalars>(
    flat: Model<S>,
    table: Seq<usize>,
    gy: Model<S>,
    r: Result<Seq<Model<S>>, Error>,
) -> bool {
    exists|o: Outcome<S>| #[trigger]
        reshape_out::<S>(gy, rows_shape(table[1]), o) && passes(
            o,
            r,
            lookup_sums::<S>(flat, table, o->Ok_0, r),
        )
}

/// The rows of `g`, added.
pub open spec fn lookup_sums<S: Scalars>(
    flat: Model<S>,
    table: Seq<usize>,
    g: Model<S>,
    r: Result<Seq<Model<S>>, Error>,
) -> bool {
    let n = volume(flat.shape);
    if n > 0 && flat.dtype() != Dtype::I64 {
        r is Err && r->Err_0.says(ErrorKind::Dtype, "storage"@, "expected i64"@)
    } else if n > 0 && table[1] > 0 && g.dtype() != Dtype::F32 {
        r is Err && r->Err_0.says(ErrorKind::Dtype, "storage"@, "expected f32"@)
    } else if n > 0 && table[1] > 0 && (!classes_named(flat.i64s(), table[0]) || volume(g.shape)
        < n * table[1]) {
        r is Err && misfit(r->Err_0, "embedding"@)
    } else {
        exists|v: Seq<S::F>| #[trigger]
            added_rows::<S>(flat, table, g, v) && shaped_parts::<S>(v, table, r)
    }
}

/// Every row of `v` is the sum of the rows of `g` that fall to it.
pub open spec fn added_rows<S: Scalars>(
    flat: Model<S>,
    table: Seq<usize>,
    g: Model<S>,
    v: Seq<S::F>,
) -> bool {
    &&& v.len() == table[0] * table[1]
    &&& if volume(flat.shape) == 0 || table[1] == 0 {
        exists|z: S::F| #[trigger] is_zero::<S::F, S>(z) && uniform(v, z)
    } else {
        sums_into::<S::F, S>(g.f32s(), table[1] as int, flat.i64s(), v)
    }
}

/// The piece of a row lookup.
pub fn lookup_vjp<S: Scalars>(indices: &Tensor<S>, table: &[usize], gy: &Tensor<S>) -> (r: Result<
    Vec<Tensor<S>>,
    Error,
>)
    ensures
        lookup_parts::<S>(indices@, table@, gy@, parts_outcome(r)),
{
    proof {
        reveal(lookup_parts);
    }
    if table.len() != 2 || numel(table).is_err() {
        return Err(misfit_error("embedding"));
    }
    let rows: usize = table[0];
    let dim: usize = table[1];
    proof {
        crate::lookup::lemma_matrix_volume(table@);
    }
    let one: [isize; 1] = [-1];
    assert(one@ =~= flat_shape());
    let flat: Tensor<S> = match indices.reshape(&one) {
        Ok(t) => t,
        Err(e) => {
            return Err(e);
        },
    };
    let two: [isize; 2] = [-1, dim as isize];
    assert(two@ =~= rows_shape(dim));
    let g: Tensor<S> = match gy.reshape(&two) {
        Ok(t) => t,
        Err(e) => {
            return Err(e);
        },
    };
    let some: bool = crate::guarded::holds_at_least(&flat, 1);
    let v: Vec<S::F> = if some {
        let iv: Vec<i64> = match flat.to_vec_i64() {
            Ok(v) => v,
            Err(_) => {
                return Err(Error::dtype("storage", "expected i64".to_owned()));
            },
        };
        if dim > 0 {
            let gv: Vec<S::F> = match g.to_vec_f32() {
                Ok(v) => v,
                Err(_) => {
                    return Err(Error::dtype("storage", "expected f32".to_owned()));
                },
            };
            let n: usize = iv.len();
            proof {
                assert(0 <= iv@.len() * dim <= u128::MAX) by (nonlinear_arith)
                    requires
                        0 <= iv@.len() <= usize::MAX,
                        0 <= dim <= usize::MAX,
                        usize::MAX <= 0xffff_ffff_ffff_ffff,
                ;
            }
            if !all_named(iv.as_slice(), rows) || n as u128 * dim as u128
                > gv.len() as u128 {
                return Err(misfit_error("embedding"));
            }
            sum_into::<S::F, S>(gv.as_slice(), rows, dim, iv.as_slice())
        } else {
            let z: S::F = <S as Arith<S::F>>::zero();
            assert(is_zero::<S::F, S>(z));
            repeated(z, rows * dim)
        }
    } else {
        let z: S::F = <S as Arith<S::F>>::zero();
        assert(is_zero::<S::F, S>(z));
        repeated(z, rows * dim)
    };
    assert(added_rows::<S>(flat@, table@, g@, v@));
    let o: Result<Tensor<S>, Error> = Tensor::from_slice_f32(v.as_slice(), table);
    assert(from_f32s_out::<S>(v@, table@, outcome(o)));
    let r: Result<Vec<Tensor<S>>, Error> = single(o);
    assert(shaped_parts::<S>(v@, table@, parts_outcome(r)));
    r
}

} // verus!
