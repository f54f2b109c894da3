//! Table lookups, greatest positions and masked cross-entropy.
use vstd::prelude::*;
use crate::dtype::Dtype;
use crate::elementwise::concat_rows;
use crate::error::{Error, ErrorKind};
use crate::index::{fits, volume};
use crate::par::par_fill;
use crate::reduce::uniform;
use crate::rows::{lead_count, row, row_error};
use crate::scalar::{
    adding, every, folds, is_zero, lemma_folds_start, lemma_folds_step, Arith, Scalars,
};
use crate::tensor::{
    copied, numel_error, outcome, repeated, slice_error, Model, Outcome, Tensor, TensorModel,
};

verus! {

/// `c` names one of `v` rows.
pub open spec fn class_ok(c: i64, v: usize) -> bool {
    0 <= c < (v as i64)
}

/// A class that names one of `v` rows is less than `v`.
pub proof fn lemma_class(c: i64, v: usize)
    requires
        class_ok(c, v),
    ensures
        0 <= c < v,
{
    let w = v as u64;
    assert(w > 0x7fff_ffff_ffff_ffffu64 ==> (w as i64) < 0) by (bit_vector);
    assert(v as i64 == w as i64) by (bit_vector)
        requires
            w == v as u64,
    ;
}

/// `d` is row `c` of the table, or zeros where there is no such row.
pub open spec fn looked_up<T>(
    table: Seq<T>,
    v: usize,
    inner: int,
    z: T,
    c: i64,
    d: Seq<T>,
) -> bool {
    if class_ok(c, v) {
        d == row(table, inner, c as int)
    } else {
        d.len() == inner && uniform(d, z)
    }
}

/// Row `p` of `out` is the row of the table that entry `p` names, or zeros.
pub open spec fn looks_up<T, A: Arith<T>>(
    table: Seq<T>,
    v: usize,
    inner: int,
    index: Seq<i64>,
    out: Seq<T>,
) -> bool {
    exists|z: T| #[trigger]
        is_zero::<T, A>(z) && out.len() == index.len() * inner && rows_looked_up(
            table,
            v,
            inner,
            z,
            index,
            out,
        )
}

/// Every row of `out` is the one that its entry names.
pub open spec fn rows_looked_up<T>(
    table: Seq<T>,
    v: usize,
    inner: int,
    z: T,
    index: Seq<i64>,
    out: Seq<T>,
) -> bool {
    forall|p: int|
        0 <= p < index.len() ==> looked_up(table, v, inner, z, index[p], #[trigger] row(
            out,
            inner,
            p,
        ))
}

fn look_up_row<T: Copy>(table: &[T], v: usize, inner: usize, z: T, c: i64) -> (d: Vec<T>)
    requires
        table@.len() == v * inner,
    ensures
        looked_up(table@, v, inner as int, z, c, d@),
        d@.len() == inner,
{
    if c < 0 || c >= v as i64 {
        return repeated(z, inner);
    }
    proof {
        lemma_class(c, v);
        assert(c * inner + inner <= v * inner && 0 <= c * inner) by (nonlinear_arith)
            requires
                0 <= c < v,
                inner >= 0,
        ;
    }
    assert(table.len() == table@.len());
    let lo: usize = c as usize * inner;
    copied(vstd::slice::slice_subrange(table, lo, lo + inner))
}

fn look_up_rows<T: Copy + Send + Sync, A: Arith<T>>(
    table: &[T],
    v: usize,
    inner: usize,
    index: &[i64],
) -> (out: Vec<T>)
    requires
        table@.len() == v * inner,
    ensures
        looks_up::<T, A>(table@, v, inner as int, index@, out@),
{
    let z: T = A::zero();
    assert(is_zero::<T, A>(z));
    let one = |p: usize| -> (d: Vec<T>)
        requires
            p < index@.len(),
            table@.len() == v * inner
        ensures
            looked_up(table@, v, inner as int, z, index@[p as int], d@),
            d@.len() == inner
    { look_up_row(table, v, inner, z, index[p]) };
    let n: usize = index.len();
    let parts: Vec<Vec<T>> = par_fill(n, one);
    proof {
        assert forall|k: int| 0 <= k < parts@.len() implies (#[trigger] parts@[k])@.len() == inner by {
            assert(call_ensures(one, (k as usize,), parts@[k]));
        }
    }
    let out: Vec<T> = concat_rows(&parts, inner);
    proof {
        assert forall|p: int| 0 <= p < index@.len() implies looked_up(
            table@,
            v,
            inner as int,
            z,
            index@[p],
            #[trigger] row(out@, inner as int, p),
        ) by {
            assert(call_ensures(one, (p as usize,), parts@[p]));
            assert(p * inner + inner <= n * inner && 0 <= p * inner) by (nonlinear_arith)
                requires
                    0 <= p < n,
                    inner >= 0,
            ;
            assert forall|j: int| 0 <= j < inner implies row(out@, inner as int, p)[j]
                == #[trigger] parts@[p]@[j] by {
                assert(out@[p * inner + j] == parts@[p]@[j]);
            }
            assert(row(out@, inner as int, p) =~= parts@[p]@);
        }
        assert(rows_looked_up(table@, v, inner as int, z, index@, out@));
    }
    out
}

/// A lookup is refused: the indices are not integers, the table is not contiguous 32-bit data, or
/// too many elements would come out.
pub open spec fn embedding_error<F, D>(
    e: Error,
    table: TensorModel<F, D>,
    idx: TensorModel<F, D>,
) -> bool {
    if idx.dtype() != Dtype::I64 {
        e.says(ErrorKind::Dtype, "embedding"@, "indices must be i64"@)
    } else if table.dtype() != Dtype::F32 {
        e.says(ErrorKind::Dtype, "storage"@, "expected f32"@)
    } else if !table.contiguous() {
        e.says(ErrorKind::Shape, "as_slice"@, "as_slice requires a contiguous tensor"@)
    } else {
        &&& !fits(table.shape) || !fits(idx.shape.push(table.shape[1]))
        &&& numel_error(e)
    }
}

/// What `embedding` comes to.
pub open spec fn embedding_out<S: Scalars>(table: Model<S>, idx: Model<S>, r: Outcome<S>) -> bool {
    match r {
        Ok(t) => {
            let shape = idx.shape.push(table.shape[1]);
            &&& idx.dtype() == Dtype::I64 && table.data is F32 && table.contiguous() && fits(
                table.shape,
            )
            &&& fits(shape) && t.plain(shape) && t.valid() && t.elems() == t.data && t.data is F32
            &&& looks_up::<S::F, S>(
                table.f32s(),
                table.shape[0],
                table.shape[1] as int,
                idx.i64s(),
                t.data->F32_0,
            )
        },
        Err(e) => embedding_error(e, table, idx),
    }
}

/// Volume of a matrix.
pub proof fn lemma_matrix_volume(shape: Seq<usize>)
    requires
        shape.len() == 2,
    ensures
        volume(shape) == shape[0] * shape[1],
        volume(shape.drop_last()) == shape[0],
{
    assert(shape.drop_last().drop_last().len() == 0);
    assert(volume(shape.drop_last().drop_last()) == 1);
    assert(shape.drop_last().last() == shape[0]);
    let d = shape[0] as nat;
    assert(volume(shape.drop_last()) == 1 * d);
    assert(1 * d == d) by (nonlinear_arith);
}

/// Row lookup in a table `[rows, columns]`: for each entry of `idx` the row that it names, or
/// zeros where there is no such row.
pub fn embedding<S: Scalars>(table: &Tensor<S>, idx: &Tensor<S>) -> (r: Result<Tensor<S>, Error>)
    requires
        table@.shape.len() == 2,
    ensures
        embedding_out::<S>(table@, idx@, outcome(r)),
{
    let iv: Vec<i64> = match idx.to_vec_i64() {
        Ok(v) => v,
        Err(_) => {
            return Err(Error::dtype("embedding", "indices must be i64".to_owned()));
        },
    };
    let tv: &[S::F] = match table.as_slice_f32() {
        Ok(v) => v,
        Err(e) => {
            return Err(e);
        },
    };
    let v: usize = table.shape()[0];
    let inner: usize = table.shape()[1];
    let mut shape: Vec<usize> = copied(idx.shape());
    shape.push(inner);
    match crate::shape::numel(shape.as_slice()) {
        Ok(_) => {},
        Err(e) => {
            return Err(e);
        },
    }
    proof {
        lemma_matrix_volume(table@.shape);
        assert(shape@.drop_last() =~= idx@.shape);
    }
    let out: Vec<S::F> = look_up_rows::<S::F, S>(tv, v, inner, iv.as_slice());
    Tensor::from_vec_f32(out, shape.as_slice())
}

/// Column `j` of rows of `inner` elements.
pub open spec fn column<T>(xs: Seq<T>, inner: int, j: int, n: nat) -> Seq<T> {
    Seq::new(n, |p: int| xs[p * inner + j])
}

/// The entries that name row `c`.
pub open spec fn names(index: Seq<i64>, c: int) -> spec_fn(int) -> bool {
    |p: int| index[p] == c
}

/// Row `c` of `out` is the sum of the rows of `gs` whose entries name it, in order.
pub open spec fn sums_into<T, A: Arith<T>>(
    gs: Seq<T>,
    inner: int,
    index: Seq<i64>,
    out: Seq<T>,
) -> bool {
    exists|z: T| #[trigger] is_zero::<T, A>(z) && all_summed::<T, A>(gs, inner, index, z, out)
}

/// Every element of `out` is the sum of the elements that fall to it, after `z`.
pub open spec fn all_summed<T, A: Arith<T>>(
    gs: Seq<T>,
    inner: int,
    index: Seq<i64>,
    z: T,
    out: Seq<T>,
) -> bool {
    forall|o: int|
        0 <= o < out.len() ==> folds(
            adding::<T, A>(),
            column(gs, inner, o % inner, index.len()),
            names(index, o / inner),
            index.len() as int,
            z,
            #[trigger] out[o],
        )
}

/// Adds a row of `gs` to a row of `buf`.
fn add_row<T: Copy, A: Arith<T>>(buf: &mut Vec<T>, at: usize, gs: &[T], lo: usize, inner: usize)
    requires
        at + inner <= old(buf)@.len(),
        lo + inner <= gs@.len(),
    ensures
        final(buf)@.len() == old(buf)@.len(),
        forall|o: int|
            0 <= o < at || at + inner <= o < old(buf)@.len() ==> #[trigger] final(buf)@[o] == old(
                buf,
            )@[o],
        forall|o: int|
            at <= o < at + inner ==> crate::scalar::is_sum::<T, A>(
                old(buf)@[o],
                gs@[lo + (o - at)],
                #[trigger] final(buf)@[o],
            ),
{
    let mut j: usize = 0;
    assert(buf.len() == buf@.len());
    assert(gs.len() == gs@.len());
    while j < inner
        invariant
            j <= inner,
            at + inner <= buf@.len() == old(buf)@.len() <= usize::MAX,
            lo + inner <= gs@.len() <= usize::MAX,
            forall|o: int|
                0 <= o < at || at + j <= o < buf@.len() ==> #[trigger] buf@[o] == old(buf)@[o],
            forall|o: int|
                at <= o < at + j ==> crate::scalar::is_sum::<T, A>(
                    old(buf)@[o],
                    gs@[lo + (o - at)],
                    #[trigger] buf@[o],
                ),
        decreases inner - j,
    {
        let total: T = A::plus(buf[at + j], gs[lo + j]);
        buf.set(at + j, total);
        j = j + 1;
    }
}

/// Sums the rows of `gs` into the rows that their entries name.
pub fn sum_into<T: Copy, A: Arith<T>>(
    gs: &[T],
    v: usize,
    inner: usize,
    index: &[i64],
) -> (out: Vec<T>)
    requires
        v * inner <= usize::MAX,
        gs@.len() >= index@.len() * inner,
    ensures
        out@.len() == v * inner,
        sums_into::<T, A>(gs@, inner as int, index@, out@),
{
    let z: T = A::zero();
    assert(is_zero::<T, A>(z));
    let ghost step = adding::<T, A>();
    let ghost w = inner as int;
    let ghost n = index@.len();
    let mut buf: Vec<T> = repeated(z, v * inner);
    proof {
        assert forall|o: int| 0 <= o < buf@.len() implies folds(
            step,
            column(gs@, w, o % w, n),
            names(index@, o / w),
            0,
            z,
            #[trigger] buf@[o],
        ) by {
            lemma_folds_start(step, column(gs@, w, o % w, n), names(index@, o / w), z);
        }
    }
    let mut p: usize = 0;
    while p < index.len()
        invariant
            p <= index@.len(),
            step == adding::<T, A>(),
            w == inner,
            n == index@.len(),
            buf@.len() == v * inner,
            v * inner <= usize::MAX,
            gs@.len() >= index@.len() * inner,
            forall|o: int|
                0 <= o < buf@.len() ==> folds(
                    step,
                    column(gs@, w, o % w, n),
                    names(index@, o / w),
                    p as int,
                    z,
                    #[trigger] buf@[o],
                ),
        decreases index@.len() - p,
    {
        let ghost before = buf@;
        let c: i64 = index[p];
        assert(gs.len() == gs@.len());
        proof {
            assert(p * inner + inner <= n * inner && 0 <= p * inner) by (nonlinear_arith)
                requires
                    0 <= p < n,
                    inner >= 0,
            ;
        }
        let inside: bool = c >= 0 && (c as u64 as u128) < v as u128;
        if inside {
            proof {
                assert(c * inner + inner <= v * inner && 0 <= c * inner) by (nonlinear_arith)
                    requires
                        0 <= c < v,
                        inner >= 0,
                ;
            }
            add_row::<T, A>(&mut buf, c as usize * inner, gs, p * inner, inner);
        }
        proof {
            assert forall|o: int| 0 <= o < buf@.len() implies folds(
                step,
                column(gs@, w, o % w, n),
                names(index@, o / w),
                p + 1,
                z,
                #[trigger] buf@[o],
            ) by {
                assert(w > 0) by (nonlinear_arith)
                    requires
                        0 <= o < v * w,
                        v >= 0,
                        w >= 0,
                ;
                assert(o == (o / w) * w + o % w && 0 <= o % w < w && 0 <= o / w < v)
                    by (nonlinear_arith)
                    requires
                        w > 0,
                        0 <= o < v * w,
                ;
                let q = o / w;
                if q == c {
                    assert(o == c * w + o % w);
                    assert(column(gs@, w, o % w, n)[p as int] == gs@[p * w + o % w]);
                } else {
                    assert(o < c * w || o >= c * w + w) by (nonlinear_arith)
                        requires
                            o == q * w + o % w,
                            0 <= o % w < w,
                            q != c,
                    ;
                }
                lemma_folds_step(
                    step,
                    column(gs@, w, o % w, n),
                    names(index@, o / w),
                    p as int,
                    z,
                    before[o],
                    buf@[o],
                );
            }
        }
        p = p + 1;
    }
    assert(all_summed::<T, A>(gs@, w, index@, z, buf@));
    buf
}

/// What `embedding_backward` comes to.
pub open spec fn embedding_backward_out<S: Scalars>(
    table: Model<S>,
    idx: Model<S>,
    gy: Model<S>,
    r: Outcome<S>,
) -> bool {
    match r {
        Ok(t) => {
            &&& idx.dtype() == Dtype::I64 && gy.dtype() == Dtype::F32 && fits(table.shape)
            &&& t.plain(table.shape) && t.valid() && t.elems() == t.data && t.data is F32
            &&& sums_into::<S::F, S>(
                gy.f32s(),
                table.shape[1] as int,
                idx.i64s(),
                t.data->F32_0,
            )
        },
        Err(e) => if idx.dtype() != Dtype::I64 {
            e.says(ErrorKind::Dtype, "to_vec"@, "expected i64"@)
        } else if gy.dtype() != Dtype::F32 {
            e.says(ErrorKind::Dtype, "to_vec"@, "expected f32"@)
        } else {
            !fits(table.shape) && numel_error(e)
        },
    }
}

/// The cotangent of the table under a lookup: the rows of `gy`, each added to the row that its
/// entry names.
pub fn embedding_backward<S: Scalars>(table: &Tensor<S>, idx: &Tensor<S>, gy: &Tensor<S>) -> (r:
    Result<Tensor<S>, Error>)
    requires
        table@.shape.len() == 2,
        idx@.data is I64 && gy@.data is F32 && fits(table@.shape) ==> volume(gy@.shape) >= volume(
            idx@.shape,
        ) * table@.shape[1],
    ensures
        embedding_backward_out::<S>(table@, idx@, gy@, outcome(r)),
{
    let iv: Vec<i64> = match idx.to_vec_i64() {
        Ok(v) => v,
        Err(e) => {
            return Err(e);
        },
    };
    let gv: Vec<S::F> = match gy.to_vec_f32() {
        Ok(v) => v,
        Err(e) => {
            return Err(e);
        },
    };
    match crate::shape::numel(table.shape()) {
        Ok(_) => {},
        Err(e) => {
            return Err(e);
        },
    }
    proof {
        lemma_matrix_volume(table@.shape);
    }
    let v: usize = table.shape()[0];
    let inner: usize = table.shape()[1];
    let out: Vec<S::F> = sum_into::<S::F, S>(gv.as_slice(), v, inner, iv.as_slice());
    Tensor::from_vec_f32(out, table.shape())
}

/// Keeping the greater of two values, each with its place; the first of equals stays.
pub open spec fn keeping_first<T, A: Arith<T>>() -> spec_fn((T, int), (T, int), (T, int)) -> bool {
    |p: (T, int), x: (T, int), r: (T, int)|
        {
            ||| call_ensures(A::above, (x.0, p.0), true) && r == x
            ||| call_ensures(A::above, (x.0, p.0), false) && r == p
        }
}

/// The elements of a row, each with its place.
pub open spec fn placed<T>(s: Seq<T>) -> Seq<(T, int)> {
    Seq::new(s.len(), |k: int| (s[k], k))
}

/// `r` is the first place of the greatest element of a row.
pub open spec fn first_peak<T, A: Arith<T>>(s: Seq<T>, r: int) -> bool {
    exists|low: T, best: T| #[trigger]
        call_ensures(A::lowest, (), low) && #[trigger] folds(
            keeping_first::<T, A>(),
            placed(s),
            every(),
            s.len() as int,
            (low, 0int),
            (best, r),
        )
}

fn first_peak_of<T: Copy, A: Arith<T>>(s: &[T]) -> (r: usize)
    ensures
        first_peak::<T, A>(s@, r as int),
        s@.len() > 0 ==> r < s@.len(),
{
    let low: T = A::lowest();
    let ghost step = keeping_first::<T, A>();
    let ghost items = placed(s@);
    let mut best: T = low;
    let mut at: usize = 0;
    let mut k: usize = 0;
    proof {
        lemma_folds_start(step, items, every(), (low, 0int));
    }
    while k < s.len()
        invariant
            k <= s@.len(),
            at <= k,
            s@.len() > 0 ==> at < s@.len(),
            step == keeping_first::<T, A>(),
            items == placed(s@),
            folds(step, items, every(), k as int, (low, 0int), (best, at as int)),
        decreases s@.len() - k,
    {
        let up: bool = A::above(s[k], best);
        let ghost old_pair = (best, at as int);
        if up {
            best = s[k];
            at = k;
        }
        proof {
            lemma_folds_step(
                step,
                items,
                every(),
                k as int,
                (low, 0int),
                old_pair,
                (best, at as int),
            );
        }
        k = k + 1;
    }
    assert(call_ensures(A::lowest, (), low));
    at
}

/// `out` holds for each row the first place of its greatest element.
pub open spec fn first_peaks<T, A: Arith<T>>(
    xs: Seq<T>,
    rows: int,
    inner: int,
    out: Seq<i64>,
) -> bool {
    &&& out.len() == rows
    &&& forall|r: int|
        0 <= r < rows ==> first_peak::<T, A>(row(xs, inner, r), (#[trigger] out[r]) as int)
}

/// What `argmax_last` comes to.
pub open spec fn argmax_last_out<S: Scalars>(x: Model<S>, r: Outcome<S>) -> bool {
    match r {
        Ok(t) => {
            let shape = x.shape.drop_last();
            &&& x.shape.len() > 0 && x.data is F32 && fits(x.shape)
            &&& x.shape.last() > 0 || volume(shape) == 0
            &&& t.plain(shape) && t.valid() && t.elems() == t.data && t.data is I64
            &&& first_peaks::<S::F, S>(
                x.f32s(),
                volume(shape) as int,
                x.shape.last() as int,
                t.data->I64_0,
            )
        },
        Err(e) => if x.shape.len() == 0 {
            e.says(ErrorKind::Shape, "argmax"@, "rank >= 1"@)
        } else if x.dtype() != Dtype::F32 || !fits(x.shape) {
            row_error(e, x)
        } else {
            x.shape.last() == 0 && volume(x.shape.drop_last()) > 0 && slice_error(
                e,
                0,
                x.shape.drop_last(),
            )
        },
    }
}

/// The first place of the greatest element along the last axis, 32-bit only.
pub fn argmax_last<S: Scalars>(x: &Tensor<S>) -> (r: Result<Tensor<S>, Error>)
    requires
        x@.shape.len() > 0 ==> x@.shape.last() <= i64::MAX,
    ensures
        argmax_last_out::<S>(x@, outcome(r)),
{
    let rank: usize = x.rank();
    if rank == 0 {
        return Err(Error::shape("argmax", "rank >= 1".to_owned()));
    }
    let v: Vec<S::F> = match x.to_vec_f32() {
        Ok(v) => v,
        Err(e) => {
            return Err(e);
        },
    };
    match crate::shape::numel(x.shape()) {
        Ok(_) => {},
        Err(e) => {
            return Err(e);
        },
    }
    let inner: usize = x.shape()[rank - 1];
    let rows: usize = lead_count(x.shape());
    let lead: &[usize] = vstd::slice::slice_subrange(x.shape(), 0, rank - 1);
    assert(lead@ =~= x@.shape.drop_last());
    proof {
        assert forall|k: int| 0 <= k <= lead@.len() implies volume(#[trigger] lead@.take(k))
            <= usize::MAX by {
            assert(lead@.take(k) =~= x@.shape.take(k));
        }
    }
    if inner == 0 {
        let none: Vec<i64> = Vec::new();
        return Tensor::from_vec_i64(none, lead);
    }
    let xs: &[S::F] = v.as_slice();
    let one = |r: usize| -> (o: i64)
        requires
            r < rows,
            0 < inner <= i64::MAX,
            xs@.len() == rows * inner
        ensures
            first_peak::<S::F, S>(row(xs@, inner as int, r as int), o as int)
    {
        assert(r * inner + inner <= rows * inner && 0 <= r * inner) by (nonlinear_arith)
            requires
                0 <= r < rows,
                inner >= 0,
        ;
        let lo: usize = r * inner;
        first_peak_of::<S::F, S>(vstd::slice::slice_subrange(xs, lo, lo + inner)) as i64
    };
    let out: Vec<i64> = par_fill(rows, one);
    proof {
        assert forall|r: int| 0 <= r < rows implies first_peak::<S::F, S>(
            row(xs@, inner as int, r),
            (#[trigger] out@[r]) as int,
        ) by {
            assert(call_ensures(one, (r as usize,), out@[r]));
        }
    }
    Tensor::from_vec_i64(out, lead)
}

} // verus!
