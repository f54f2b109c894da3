//! Taking a broadcast back: every element gets the sum of what its copies got.
use vstd::prelude::*;
use crate::algebra::{lemma_total_agree, lemma_total_alone};
use crate::elementwise::source_rank;
use crate::fused::first_axis;
use crate::index::{in_bounds, lemma_ravel, lemma_unravel, ravel, unravel, volume};
use crate::lines::{lemma_axis_marks, lemma_kept_ones, lemma_kept_zeros};
use crate::reduce::{asked_axes, kept_index, kept_shape, marked, one_marked, sum_out};
use crate::ring::{group_sums, grouped, law_sums_regroup, Ring};
use crate::rules::{
    axis_alone, extra_rank, folded_out, peeled_out, shaped_out, stretched_axes, unbroadcast_out,
};
use crate::scalar::Scalars;
use crate::sum_law::{goes_to, lemma_kept_source, lemma_sum_groups_f32, lemma_sum_groups_f64};
use crate::tensor::{passes, Model, Outcome};
use crate::views::narrowed;

verus! {

/// The element of the smaller shape that each position of the larger one reads.
pub open spec fn read_from(small: Seq<usize>, shape: Seq<usize>) -> spec_fn(int) -> int {
    |i: int| source_rank(small, shape, i)
}

/// Where a position goes when the first `e` axes are taken together.
spec fn tail_to(shape: Seq<usize>, e: int) -> spec_fn(int) -> int {
    |i: int| ravel(shape.skip(e), unravel(shape, i).skip(e))
}

/// The sum of one number.
proof fn lemma_total_one<T>(r: Ring<T>, xs: Seq<T>, pick: spec_fn(int) -> bool, at: int, n: int)
    requires
        r.lawful(),
        0 <= at < n <= xs.len(),
        forall|i: int| 0 <= i < n ==> #[trigger] pick(i) == (i == at),
    ensures
        r.total(xs, pick, n) == xs[at],
{
    let kept = Seq::new(xs.len(), |i: int| if i == at { xs[i] } else { r.zero });
    lemma_total_agree(r, xs, kept, pick, pick, n);
    lemma_total_alone(r, kept, pick, at, n);
    assert(pick(at));
}

/// Taking the first axis away.
proof fn lemma_drop_first(shape: Seq<usize>, idx: Seq<int>)
    requires
        shape.len() > 0,
        idx.len() == shape.len(),
    ensures
        kept_shape(shape, one_marked(shape.len(), 0), false) == shape.skip(1),
        kept_index(idx, one_marked(shape.len(), 0), false) == idx.skip(1),
    decreases shape.len(),
{
    let red = one_marked(shape.len(), 0);
    if shape.len() == 1 {
        reveal_with_fuel(kept_shape, 2);
        reveal_with_fuel(kept_index, 2);
        assert(red.last());
        assert(shape.skip(1) =~= Seq::<usize>::empty());
        assert(idx.skip(1) =~= Seq::<int>::empty());
        assert(shape.drop_last().len() == 0 && idx.drop_last().len() == 0);
    } else {
        let (s, x) = (shape.drop_last(), idx.drop_last());
        lemma_drop_first(s, x);
        assert(red.drop_last() =~= one_marked(s.len(), 0));
        assert(!red.last());
        assert(shape.skip(1) =~= s.skip(1).push(shape.last()));
        assert(idx.skip(1) =~= x.skip(1).push(idx.last()));
    }
}

/// A position without its first coordinates lies in the shape without its first sides.
proof fn lemma_tail(shape: Seq<usize>, e: int, i: int)
    requires
        0 <= e <= shape.len(),
        0 <= i < volume(shape),
    ensures
        in_bounds(shape.skip(e), unravel(shape, i).skip(e)),
        0 <= tail_to(shape, e)(i) < volume(shape.skip(e)),
        unravel(shape.skip(e), tail_to(shape, e)(i)) == unravel(shape, i).skip(e),
{
    lemma_unravel(shape, i);
    let idx = unravel(shape, i);
    let (s, x) = (shape.skip(e), idx.skip(e));
    assert forall|k: int| 0 <= k < s.len() implies 0 <= #[trigger] x[k] < s[k] by {
        assert(0 <= idx[k + e] < shape[k + e]);
    }
    lemma_ravel(s, x);
}

/// Which axes are taken together.
proof fn lemma_stretched(shape: Seq<usize>, target: Seq<usize>, n: int, k: int)
    requires
        0 <= n <= shape.len() <= isize::MAX,
        0 <= k < shape.len(),
    ensures
        stretched_axes(shape, target, n).contains(k as isize) <==> k < n && target[k] == 1
            && shape[k] > 1,
        forall|j: int|
            0 <= j < stretched_axes(shape, target, n).len() ==> 0 <= #[trigger] stretched_axes(
                shape,
                target,
                n,
            )[j] < n,
    decreases n,
{
    if n > 0 {
        lemma_stretched(shape, target, n - 1, k);
        let rest = stretched_axes(shape, target, n - 1);
        let all = stretched_axes(shape, target, n);
        if target[n - 1] == 1 && shape[n - 1] > 1 {
            assert(all == rest.push((n - 1) as isize));
            assert(all.last() == (n - 1) as isize);
            if rest.contains(k as isize) {
                let j = choose|j: int| 0 <= j < rest.len() && rest[j] == k as isize;
                assert(all[j] == k as isize);
            }
            if k == n - 1 {
                assert(all[all.len() - 1] == k as isize);
            }
            if all.contains(k as isize) {
                let j = choose|j: int| 0 <= j < all.len() && all[j] == k as isize;
                if j < rest.len() {
                    assert(rest[j] == k as isize);
                }
            }
        }
    }
}

/// Every side of a shape that holds something is positive.
proof fn lemma_positive_side(shape: Seq<usize>, k: int)
    requires
        volume(shape) > 0,
        0 <= k < shape.len(),
    ensures
        shape[k] > 0,
{
    lemma_unravel(shape, 0);
    assert(0 <= unravel(shape, 0)[k] < shape[k]);
}

/// The last axes of a shape that holds something hold something.
proof fn lemma_tail_volume(shape: Seq<usize>, e: int)
    requires
        volume(shape) > 0,
        0 <= e <= shape.len(),
    ensures
        volume(shape.skip(e)) > 0,
{
    lemma_tail(shape, e, 0);
}

/// Taking the first axes together, one by one.
proof fn lemma_peeled_f32<S: Scalars>(r: Ring<S::F>, m: Model<S>, n: nat, t: Model<S>)
    requires
        r.computes::<S>(),
        m.data is F32,
        n <= m.shape.len() <= isize::MAX,
        peeled_out::<S>(m, n, Ok(t)),
    ensures
        t.shape == m.shape.skip(n as int),
        t.data is F32,
        forall|o: int|
            0 <= o < volume(t.shape) ==> #[trigger] t.f32s()[o] == r.total(
                m.f32s(),
                grouped(tail_to(m.shape, n as int), o),
                volume(m.shape) as int,
            ),
    decreases n,
{
    let shape = m.shape;
    let vol = volume(shape) as int;
    if n == 0 {
        assert(shape.skip(0) =~= shape);
        assert forall|o: int| 0 <= o < vol implies #[trigger] t.f32s()[o] == r.total(
            m.f32s(),
            grouped(tail_to(shape, 0), o),
            vol,
        ) by {
            let pick = grouped(tail_to(shape, 0), o);
            assert forall|i: int| 0 <= i < vol implies #[trigger] pick(i) == (i == o) by {
                lemma_unravel(shape, i);
                assert(unravel(shape, i).skip(0) =~= unravel(shape, i));
            }
            lemma_total_one(r, m.f32s(), pick, o, vol);
        }
    } else {
        let res: Outcome<S> = Ok(t);
        let o1 = choose|o: Outcome<S>| #[trigger]
            sum_out::<S>(m, first_axis(), false, o) && passes(
                o,
                res,
                peeled_out::<S>(o->Ok_0, (n - 1) as nat, res),
            );
        let a = o1->Ok_0;
        let rank = shape.len();
        assert(first_axis() == axis_alone(0));
        lemma_axis_marks(0, rank);
        let red = one_marked(rank, 0);
        lemma_sum_groups_f32::<S>(r, m, red, false, a);
        lemma_drop_first(shape, Seq::new(rank, |k: int| 0int));
        lemma_peeled_f32::<S>(r, a, (n - 1) as nat, t);
        let (rest, e) = (shape.skip(1), n as int);
        assert(rest.skip(e - 1) =~= shape.skip(e));
        let to = goes_to(shape, red, false);
        assert(a.f32s() =~= group_sums(r, m.f32s(), to, volume(rest), vol));
        assert forall|o: int| 0 <= o < volume(t.shape) implies #[trigger] t.f32s()[o] == r.total(
            m.f32s(),
            grouped(tail_to(shape, e), o),
            vol,
        ) by {
            let pick = grouped(tail_to(rest, e - 1), o);
            let all = grouped(tail_to(shape, e), o);
            assert forall|i: int| 0 <= i < vol implies 0 <= #[trigger] to(i) < volume(rest) by {
                lemma_kept_source(shape, red, i);
            }
            assert forall|i: int| 0 <= i < vol implies #[trigger] all(i) == pick(to(i)) by {
                let idx = unravel(shape, i);
                lemma_unravel(shape, i);
                lemma_drop_first(shape, idx);
                lemma_tail(shape, 1, i);
                assert(to(i) == tail_to(shape, 1)(i));
                assert(unravel(rest, to(i)) == idx.skip(1));
                assert(idx.skip(1).skip(e - 1) =~= idx.skip(e));
            }
            law_sums_regroup(r, m.f32s(), to, volume(rest), pick, all, vol);
        }
    }
}

/// Taking a broadcast back: each element is the sum of the numbers at the positions that read it.
/// On 32-bit floats.
pub proof fn law_unbroadcast_f32<S: Scalars>(
    r: Ring<S::F>,
    g: Model<S>,
    target: Seq<usize>,
    t: Model<S>,
)
    requires
        r.computes::<S>(),
        g.data is F32,
        target.len() <= g.shape.len() <= isize::MAX,
        volume(g.shape) > 0,
        forall|k: int|
            0 <= k < target.len() ==> #[trigger] target[k] == 1 || target[k] == g.shape[k
                + g.shape.len() - target.len()],
        unbroadcast_out::<S>(g, target, Ok(t)),
    ensures
        t.shape == target,
        t.data is F32,
        forall|j: int|
            0 <= j < volume(target) ==> #[trigger] t.f32s()[j] == r.total(
                g.f32s(),
                grouped(read_from(target, g.shape), j),
                volume(g.shape) as int,
            ),
{
    let shape = g.shape;
    let vol = volume(shape) as int;
    let from = read_from(target, shape);
    if shape == target {
        assert forall|j: int| 0 <= j < vol implies #[trigger] t.f32s()[j] == r.total(
            g.f32s(),
            grouped(from, j),
            vol,
        ) by {
            let pick = grouped(from, j);
            assert forall|i: int| 0 <= i < vol implies #[trigger] pick(i) == (i == j) by {
                lemma_unravel(shape, i);
                let idx = unravel(shape, i);
                assert(narrowed(shape, idx) =~= idx) by {
                    assert forall|k: int| 0 <= k < shape.len() implies narrowed(shape, idx)[k]
                        == idx[k] by {
                        assert(0 <= idx[k] < shape[k]);
                    }
                }
            }
            lemma_total_one(r, g.f32s(), pick, j, vol);
        }
    } else {
        let res: Outcome<S> = Ok(t);
        let e = extra_rank(shape, target);
        let o = choose|o: Outcome<S>| #[trigger]
            peeled_out::<S>(g, e, o) && passes(o, res, folded_out::<S>(o->Ok_0, target, res));
        let a = o->Ok_0;
        lemma_peeled_f32::<S>(r, g, e, a);
        let sub = shape.skip(e as int);
        let rank = sub.len();
        assert(rank == target.len());
        let axes = stretched_axes(sub, target, rank as int);
        let marks = if axes.len() == 0 {
            Seq::new(rank, |k: int| false)
        } else {
            marked(asked_axes(Some(axes), rank), rank)
        };
        assert forall|k: int| 0 <= k < rank implies #[trigger] marks[k] == (target[k] == 1 && sub[k]
            > 1) by {
            lemma_stretched(sub, target, rank as int, k);
            if axes.len() > 0 {
                let asked = asked_axes(Some(axes), rank);
                if axes.contains(k as isize) {
                    let j = choose|j: int| 0 <= j < axes.len() && axes[j] == k as isize;
                    assert(asked[j] == k as usize);
                }
                if asked.contains(k as usize) {
                    let j = choose|j: int| 0 <= j < asked.len() && asked[j] == k as usize;
                    assert(0 <= axes[j] < rank);
                    assert(axes[j] == k as isize);
                }
            }
        }
        lemma_tail_volume(shape, e as int);
        assert forall|k: int| 0 <= k < rank implies #[trigger] sub[k] > 0 by {
            lemma_positive_side(shape, k + e);
        }
        lemma_kept_ones(sub, marks);
        assert(kept_shape(sub, marks, true) =~= target) by {
            assert forall|k: int| 0 <= k < rank implies kept_shape(sub, marks, true)[k]
                == target[k] by {
                assert(sub[k] > 0);
                assert(target[k] == 1 || target[k] == shape[k + e]);
            }
        }
        let to = goes_to(sub, marks, true);
        assert(t.shape == target && t.data is F32 && forall|j: int|
            0 <= j < volume(target) ==> #[trigger] t.f32s()[j] == r.total(
                a.f32s(),
                grouped(to, j),
                volume(sub) as int,
            )) by {
            if axes.len() == 0 {
                assert(sub =~= target) by {
                    assert forall|k: int| 0 <= k < rank implies sub[k] == target[k] by {
                        lemma_stretched(sub, target, rank as int, k);
                        assert(!axes.contains(k as isize));
                        assert(!marks[k]);
                        assert(sub[k] > 0);
                        assert(target[k] == 1 || target[k] == shape[k + e]);
                    }
                }
                assert(t == a);
                assert forall|j: int| 0 <= j < volume(target) implies #[trigger] t.f32s()[j]
                    == r.total(a.f32s(), grouped(to, j), volume(sub) as int) by {
                    let pick = grouped(to, j);
                    assert forall|i: int| 0 <= i < volume(sub) implies #[trigger] pick(i) == (i
                        == j) by {
                        lemma_unravel(sub, i);
                        lemma_kept_zeros(unravel(sub, i), marks);
                        assert(kept_index(unravel(sub, i), marks, true) =~= unravel(sub, i));
                    }
                    lemma_total_one(r, a.f32s(), pick, j, volume(sub) as int);
                }
            } else {
                let s = choose|s: Outcome<S>| #[trigger]
                    sum_out::<S>(a, Some(axes), true, s) && passes(
                        s,
                        res,
                        shaped_out::<S>(s->Ok_0, target, res),
                    );
                lemma_sum_groups_f32::<S>(r, a, marks, true, s->Ok_0);
                assert(t == s->Ok_0);
            }
        }
        // One map after the other.
        let first = tail_to(shape, e as int);
        assert(a.f32s() =~= group_sums(r, g.f32s(), first, volume(sub), vol)) by {
            assert(a.f32s().len() == volume(sub));
        }
        assert forall|j: int| 0 <= j < volume(target) implies #[trigger] t.f32s()[j] == r.total(
            g.f32s(),
            grouped(from, j),
            vol,
        ) by {
            let pick = grouped(to, j);
            let all = grouped(from, j);
            assert forall|i: int| 0 <= i < vol implies 0 <= #[trigger] first(i) < volume(sub) by {
                lemma_tail(shape, e as int, i);
            }
            assert forall|i: int| 0 <= i < vol implies #[trigger] all(i) == pick(first(i)) by {
                lemma_unravel(shape, i);
                lemma_tail(shape, e as int, i);
                let idx = unravel(shape, i);
                let x = idx.skip(e as int);
                assert(unravel(sub, first(i)) == x);
                lemma_kept_zeros(x, marks);
                assert(kept_index(x, marks, true) =~= narrowed(target, idx)) by {
                    assert forall|k: int| 0 <= k < rank implies kept_index(x, marks, true)[k]
                        == narrowed(target, idx)[k] by {
                        assert(0 <= x[k] < sub[k]);
                        assert(marks[k] == (target[k] == 1 && sub[k] > 1));
                        assert(target[k] == 1 || target[k] == shape[k + e]);
                    }
                }
            }
            law_sums_regroup(r, g.f32s(), first, volume(sub), pick, all, vol);
        }
    }
}

/// Taking the first axes together, one by one.
proof fn lemma_peeled_f64<S: Scalars>(r: Ring<S::D>, m: Model<S>, n: nat, t: Model<S>)
    requires
        r.computes::<S>(),
        m.data is F64,
        n <= m.shape.len() <= isize::MAX,
        peeled_out::<S>(m, n, Ok(t)),
    ensures
        t.shape == m.shape.skip(n as int),
        t.data is F64,
        forall|o: int|
            0 <= o < volume(t.shape) ==> #[trigger] t.f64s()[o] == r.total(
                m.f64s(),
                grouped(tail_to(m.shape, n as int), o),
                volume(m.shape) as int,
            ),
    decreases n,
{
    let shape = m.shape;
    let vol = volume(shape) as int;
    if n == 0 {
        assert(shape.skip(0) =~= shape);
        assert forall|o: int| 0 <= o < vol implies #[trigger] t.f64s()[o] == r.total(
            m.f64s(),
            grouped(tail_to(shape, 0), o),
            vol,
        ) by {
            let pick = grouped(tail_to(shape, 0), o);
            assert forall|i: int| 0 <= i < vol implies #[trigger] pick(i) == (i == o) by {
                lemma_unravel(shape, i);
                assert(unravel(shape, i).skip(0) =~= unravel(shape, i));
            }
            lemma_total_one(r, m.f64s(), pick, o, vol);
        }
    } else {
        let res: Outcome<S> = Ok(t);
        let o1 = choose|o: Outcome<S>| #[trigger]
            sum_out::<S>(m, first_axis(), false, o) && passes(
                o,
                res,
                peeled_out::<S>(o->Ok_0, (n - 1) as nat, res),
            );
        let a = o1->Ok_0;
        let rank = shape.len();
        assert(first_axis() == axis_alone(0));
        lemma_axis_marks(0, rank);
        let red = one_marked(rank, 0);
        lemma_sum_groups_f64::<S>(r, m, red, false, a);
        lemma_drop_first(shape, Seq::new(rank, |k: int| 0int));
        lemma_peeled_f64::<S>(r, a, (n - 1) as nat, t);
        let (rest, e) = (shape.skip(1), n as int);
        assert(rest.skip(e - 1) =~= shape.skip(e));
        let to = goes_to(shape, red, false);
        assert(a.f64s() =~= group_sums(r, m.f64s(), to, volume(rest), vol));
        assert forall|o: int| 0 <= o < volume(t.shape) implies #[trigger] t.f64s()[o] == r.total(
            m.f64s(),
            grouped(tail_to(shape, e), o),
            vol,
        ) by {
            let pick = grouped(tail_to(rest, e - 1), o);
            let all = grouped(tail_to(shape, e), o);
            assert forall|i: int| 0 <= i < vol implies 0 <= #[trigger] to(i) < volume(rest) by {
                lemma_kept_source(shape, red, i);
            }
            assert forall|i: int| 0 <= i < vol implies #[trigger] all(i) == pick(to(i)) by {
                let idx = unravel(shape, i);
                lemma_unravel(shape, i);
                lemma_drop_first(shape, idx);
                lemma_tail(shape, 1, i);
                assert(to(i) == tail_to(shape, 1)(i));
                assert(unravel(rest, to(i)) == idx.skip(1));
                assert(idx.skip(1).skip(e - 1) =~= idx.skip(e));
            }
            law_sums_regroup(r, m.f64s(), to, volume(rest), pick, all, vol);
        }
    }
}

/// Taking a broadcast back: each element is the sum of the numbers at the positions that read it.
/// On 64-bit floats.
pub proof fn law_unbroadcast_f64<S: Scalars>(
    r: Ring<S::D>,
    g: Model<S>,
    target: Seq<usize>,
    t: Model<S>,
)
    requires
        r.computes::<S>(),
        g.data is F64,
        target.len() <= g.shape.len() <= isize::MAX,
        volume(g.shape) > 0,
        forall|k: int|
            0 <= k < target.len() ==> #[trigger] target[k] == 1 || target[k] == g.shape[k
                + g.shape.len() - target.len()],
        unbroadcast_out::<S>(g, target, Ok(t)),
    ensures
        t.shape == target,
        t.data is F64,
        forall|j: int|
            0 <= j < volume(target) ==> #[trigger] t.f64s()[j] == r.total(
                g.f64s(),
                grouped(read_from(target, g.shape), j),
                volume(g.shape) as int,
            ),
{
    let shape = g.shape;
    let vol = volume(shape) as int;
    let from = read_from(target, shape);
    if shape == target {
        assert forall|j: int| 0 <= j < vol implies #[trigger] t.f64s()[j] == r.total(
            g.f64s(),
            grouped(from, j),
            vol,
        ) by {
            let pick = grouped(from, j);
            assert forall|i: int| 0 <= i < vol implies #[trigger] pick(i) == (i == j) by {
                lemma_unravel(shape, i);
                let idx = unravel(shape, i);
                assert(narrowed(shape, idx) =~= idx) by {
                    assert forall|k: int| 0 <= k < shape.len() implies narrowed(shape, idx)[k]
                        == idx[k] by {
                        assert(0 <= idx[k] < shape[k]);
                    }
                }
            }
            lemma_total_one(r, g.f64s(), pick, j, vol);
        }
    } else {
        let res: Outcome<S> = Ok(t);
        let e = extra_rank(shape, target);
        let o = choose|o: Outcome<S>| #[trigger]
            peeled_out::<S>(g, e, o) && passes(o, res, folded_out::<S>(o->Ok_0, target, res));
        let a = o->Ok_0;
        lemma_peeled_f64::<S>(r, g, e, a);
        let sub = shape.skip(e as int);
        let rank = sub.len();
        assert(rank == target.len());
        let axes = stretched_axes(sub, target, rank as int);
        let marks = if axes.len() == 0 {
            Seq::new(rank, |k: int| false)
        } else {
            marked(asked_axes(Some(axes), rank), rank)
        };
        assert forall|k: int| 0 <= k < rank implies #[trigger] marks[k] == (target[k] == 1 && sub[k]
            > 1) by {
            lemma_stretched(sub, target, rank as int, k);
            if axes.len() > 0 {
                let asked = asked_axes(Some(axes), rank);
                if axes.contains(k as isize) {
                    let j = choose|j: int| 0 <= j < axes.len() && axes[j] == k as isize;
                    assert(asked[j] == k as usize);
                }
                if asked.contains(k as usize) {
                    let j = choose|j: int| 0 <= j < asked.len() && asked[j] == k as usize;
                    assert(0 <= axes[j] < rank);
                    assert(axes[j] == k as isize);
                }
            }
        }
        lemma_tail_volume(shape, e as int);
        assert forall|k: int| 0 <= k < rank implies #[trigger] sub[k] > 0 by {
            lemma_positive_side(shape, k + e);
        }
        lemma_kept_ones(sub, marks);
        assert(kept_shape(sub, marks, true) =~= target) by {
            assert forall|k: int| 0 <= k < rank implies kept_shape(sub, marks, true)[k]
                == target[k] by {
                assert(sub[k] > 0);
                assert(target[k] == 1 || target[k] == shape[k + e]);
            }
        }
        let to = goes_to(sub, marks, true);
        assert(t.shape == target && t.data is F64 && forall|j: int|
            0 <= j < volume(target) ==> #[trigger] t.f64s()[j] == r.total(
                a.f64s(),
                grouped(to, j),
                volume(sub) as int,
            )) by {
            if axes.len() == 0 {
                assert(sub =~= target) by {
                    assert forall|k: int| 0 <= k < rank implies sub[k] == target[k] by {
                        lemma_stretched(sub, target, rank as int, k);
                        assert(!axes.contains(k as isize));
                        assert(!marks[k]);
                        assert(sub[k] > 0);
                        assert(target[k] == 1 || target[k] == shape[k + e]);
                    }
                }
                assert(t == a);
                assert forall|j: int| 0 <= j < volume(target) implies #[trigger] t.f64s()[j]
                    == r.total(a.f64s(), grouped(to, j), volume(sub) as int) by {
                    let pick = grouped(to, j);
                    assert forall|i: int| 0 <= i < volume(sub) implies #[trigger] pick(i) == (i
                        == j) by {
                        lemma_unravel(sub, i);
                        lemma_kept_zeros(unravel(sub, i), marks);
                        assert(kept_index(unravel(sub, i), marks, true) =~= unravel(sub, i));
                    }
                    lemma_total_one(r, a.f64s(), pick, j, volume(sub) as int);
                }
            } else {
                let s = choose|s: Outcome<S>| #[trigger]
                    sum_out::<S>(a, Some(axes), true, s) && passes(
                        s,
                        res,
                        shaped_out::<S>(s->Ok_0, target, res),
                    );
                lemma_sum_groups_f64::<S>(r, a, marks, true, s->Ok_0);
                assert(t == s->Ok_0);
            }
        }
        // One map after the other.
        let first = tail_to(shape, e as int);
        assert(a.f64s() =~= group_sums(r, g.f64s(), first, volume(sub), vol)) by {
            assert(a.f64s().len() == volume(sub));
        }
        assert forall|j: int| 0 <= j < volume(target) implies #[trigger] t.f64s()[j] == r.total(
            g.f64s(),
            grouped(from, j),
            vol,
        ) by {
            let pick = grouped(to, j);
            let all = grouped(from, j);
            assert forall|i: int| 0 <= i < vol implies 0 <= #[trigger] first(i) < volume(sub) by {
                lemma_tail(shape, e as int, i);
            }
            assert forall|i: int| 0 <= i < vol implies #[trigger] all(i) == pick(first(i)) by {
                lemma_unravel(shape, i);
                lemma_tail(shape, e as int, i);
                let idx = unravel(shape, i);
                let x = idx.skip(e as int);
                assert(unravel(sub, first(i)) == x);
                lemma_kept_zeros(x, marks);
                assert(kept_index(x, marks, true) =~= narrowed(target, idx)) by {
                    assert forall|k: int| 0 <= k < rank implies kept_index(x, marks, true)[k]
                        == narrowed(target, idx)[k] by {
                        assert(0 <= x[k] < sub[k]);
                        assert(marks[k] == (target[k] == 1 && sub[k] > 1));
                        assert(target[k] == 1 || target[k] == shape[k + e]);
                    }
                }
            }
            law_sums_regroup(r, g.f64s(), first, volume(sub), pick, all, vol);
        }
    }
}

} // verus!
