//! Mathematical model of shapes, row-major positions and strided addressing.
use vstd::prelude::*;

verus! {

/// Number of positions in a box of the given dimensions.
pub open spec fn volume(shape: Seq<usize>) -> nat
    decreases shape.len(),
{
    if shape.len() == 0 {
        1
    } else {
        volume(shape.drop_last()) * (shape.last() as nat)
    }
}

/// Every left-to-right partial product of the dimensions fits in a `usize`.
pub open spec fn fits(shape: Seq<usize>) -> bool {
    forall|k: int| 0 <= k <= shape.len() ==> volume(#[trigger] shape.take(k)) <= usize::MAX
}

/// `idx` names one position of the box `shape`.
pub open spec fn in_bounds(shape: Seq<usize>, idx: Seq<int>) -> bool {
    &&& idx.len() == shape.len()
    &&& forall|k: int| 0 <= k < shape.len() ==> 0 <= #[trigger] idx[k] < shape[k]
}

/// Row-major rank of a position.
pub open spec fn ravel(shape: Seq<usize>, idx: Seq<int>) -> int
    decreases shape.len(),
{
    if shape.len() == 0 {
        0
    } else {
        ravel(shape.drop_last(), idx.drop_last()) * shape.last() + idx.last()
    }
}

/// The position of row-major rank `i`.
pub open spec fn unravel(shape: Seq<usize>, i: int) -> Seq<int>
    decreases shape.len(),
{
    if shape.len() == 0 {
        Seq::empty()
    } else {
        unravel(shape.drop_last(), i / (shape.last() as int)).push(i % (shape.last() as int))
    }
}

/// Displacement of a position under the given strides.
pub open spec fn dot(idx: Seq<int>, strides: Seq<isize>) -> int
    decreases idx.len(),
{
    if idx.len() == 0 {
        0
    } else {
        dot(idx.drop_last(), strides.drop_last()) + idx.last() * strides.last()
    }
}

/// The same numbers, as mathematical integers.
pub open spec fn ints(s: Seq<usize>) -> Seq<int> {
    Seq::new(s.len(), |i: int| s[i] as int)
}

/// The origin of a box of the given rank.
pub open spec fn origin(rank: nat) -> Seq<int> {
    Seq::new(rank, |i: int| 0int)
}

/// The storage slots that a strided view visits, in row-major order.
pub open spec fn slots(offset: int, shape: Seq<usize>, strides: Seq<isize>) -> Seq<int> {
    Seq::new(volume(shape), |i: int| offset + dot(unravel(shape, i), strides))
}

/// The elements of `data` that a strided view shows, in row-major order.
pub open spec fn packed<T>(
    data: Seq<T>,
    offset: int,
    shape: Seq<usize>,
    strides: Seq<isize>,
) -> Seq<T> {
    Seq::new(volume(shape), |i: int| data[offset + dot(unravel(shape, i), strides)])
}

/// A shape has a zero dimension exactly when its volume is zero.
pub proof fn lemma_volume_zero(shape: Seq<usize>)
    ensures
        volume(shape) == 0 <==> exists|k: int| 0 <= k < shape.len() && #[trigger] shape[k] == 0,
    decreases shape.len(),
{
    if shape.len() > 0 {
        let front = shape.drop_last();
        lemma_volume_zero(front);
        let a = volume(front);
        let b = shape.last() as nat;
        assert((a * b == 0) == (a == 0 || b == 0)) by (nonlinear_arith);
        if a == 0 {
            let k = choose|k: int| 0 <= k < front.len() && #[trigger] front[k] == 0;
            assert(shape[k] == 0);
        }
        if b == 0 {
            assert(shape[shape.len() - 1] == 0);
        }
        if exists|k: int| 0 <= k < shape.len() && #[trigger] shape[k] == 0 {
            let k = choose|k: int| 0 <= k < shape.len() && #[trigger] shape[k] == 0;
            if k < front.len() {
                assert(front[k] == 0);
            }
        }
    }
}

/// The position of rank `i` lies inside the box and has rank `i` again.
pub proof fn lemma_unravel(shape: Seq<usize>, i: int)
    requires
        0 <= i < volume(shape),
    ensures
        in_bounds(shape, unravel(shape, i)),
        ravel(shape, unravel(shape, i)) == i,
    decreases shape.len(),
{
    if shape.len() > 0 {
        let front = shape.drop_last();
        let d = shape.last() as int;
        let v = volume(front) as int;
        assert(d > 0) by (nonlinear_arith)
            requires
                0 <= i < v * d,
                d >= 0,
                v >= 0,
        ;
        let q = i / d;
        let r = i % d;
        assert(0 <= q < v && i == q * d + r && 0 <= r < d) by (nonlinear_arith)
            requires
                0 <= i < v * d,
                d > 0,
                q == i / d,
                r == i % d,
        ;
        lemma_unravel(front, q);
        let idx = unravel(shape, i);
        assert(idx.drop_last() =~= unravel(front, q));
        assert forall|k: int| 0 <= k < shape.len() implies 0 <= #[trigger] idx[k] < shape[k] by {
            if k < front.len() {
                assert(idx[k] == unravel(front, q)[k]);
                assert(front[k] == shape[k]);
            }
        }
    }
}

/// A position inside the box has a rank below the volume, and unravels to itself.
pub proof fn lemma_ravel(shape: Seq<usize>, idx: Seq<int>)
    requires
        in_bounds(shape, idx),
    ensures
        0 <= ravel(shape, idx) < volume(shape),
        unravel(shape, ravel(shape, idx)) == idx,
    decreases shape.len(),
{
    if shape.len() == 0 {
        assert(idx =~= Seq::<int>::empty());
    } else {
        let front = shape.drop_last();
        let head = idx.drop_last();
        assert(in_bounds(front, head)) by {
            assert forall|k: int| 0 <= k < front.len() implies 0 <= #[trigger] head[k]
                < front[k] by {
                assert(idx[k] == head[k]);
            }
        }
        lemma_ravel(front, head);
        let d = shape.last() as int;
        let q = ravel(front, head);
        let r = idx.last();
        let v = volume(front) as int;
        assert(0 <= r < d) by {
            assert(idx[shape.len() - 1] == r);
        }
        assert(0 <= q * d + r < v * d && (q * d + r) / d == q && (q * d + r) % d == r)
            by (nonlinear_arith)
            requires
                0 <= q < v,
                0 <= r < d,
        ;
        assert(unravel(shape, q * d + r) =~= idx);
    }
}

/// A box without a zero dimension holds its origin, of rank zero and displacement zero.
pub proof fn lemma_origin(shape: Seq<usize>, strides: Seq<isize>)
    requires
        strides.len() == shape.len(),
        volume(shape) > 0,
    ensures
        in_bounds(shape, origin(shape.len())),
        ravel(shape, origin(shape.len())) == 0,
        unravel(shape, 0) == origin(shape.len()),
        dot(origin(shape.len()), strides) == 0,
    decreases shape.len(),
{
    lemma_volume_zero(shape);
    lemma_origin_ravel(shape);
    lemma_origin_dot(strides);
    lemma_ravel(shape, origin(shape.len()));
}

proof fn lemma_origin_ravel(shape: Seq<usize>)
    ensures
        ravel(shape, origin(shape.len())) == 0,
    decreases shape.len(),
{
    if shape.len() > 0 {
        lemma_origin_ravel(shape.drop_last());
        assert(origin(shape.len()).drop_last() =~= origin((shape.len() - 1) as nat));
        let d = shape.last() as int;
        assert(0 * d == 0) by (nonlinear_arith);
    }
}

/// Zero times every stride is no displacement.
pub proof fn lemma_origin_dot(strides: Seq<isize>)
    ensures
        dot(origin(strides.len()), strides) == 0,
    decreases strides.len(),
{
    if strides.len() > 0 {
        lemma_origin_dot(strides.drop_last());
        assert(origin(strides.len()).drop_last() =~= origin((strides.len() - 1) as nat));
        let s = strides.last() as int;
        assert(0 * s == 0) by (nonlinear_arith);
    }
}

/// Partial products never exceed the volume of a box without a zero dimension.
pub proof fn lemma_volume_prefix(shape: Seq<usize>, k: int)
    requires
        0 <= k <= shape.len(),
        volume(shape) > 0,
    ensures
        0 < volume(shape.take(k)) <= volume(shape),
    decreases shape.len(),
{
    if k == shape.len() {
        assert(shape.take(k) =~= shape);
    } else {
        let front = shape.drop_last();
        let a = volume(front) as int;
        let d = shape.last() as int;
        assert(0 < a && a <= a * d) by (nonlinear_arith)
            requires
                a * d > 0,
                a >= 0,
                d >= 0,
        ;
        lemma_volume_prefix(front, k);
        assert(front.take(k) =~= shape.take(k));
    }
}

/// Stepping position `k` up by one and clearing what follows it is the row-major successor,
/// when everything after `k` stood at its last value.
pub proof fn lemma_successor(shape: Seq<usize>, old_idx: Seq<int>, new_idx: Seq<int>, k: int)
    requires
        in_bounds(shape, old_idx),
        0 <= k < shape.len(),
        new_idx.len() == shape.len(),
        forall|j: int| 0 <= j < k ==> new_idx[j] == #[trigger] old_idx[j],
        new_idx[k] == old_idx[k] + 1,
        forall|j: int| k < j < shape.len() ==> #[trigger] new_idx[j] == 0,
        forall|j: int| k < j < shape.len() ==> #[trigger] old_idx[j] == shape[j] - 1,
    ensures
        ravel(shape, new_idx) == ravel(shape, old_idx) + 1,
    decreases shape.len(),
{
    let front = shape.drop_last();
    let d = shape.last() as int;
    if k == shape.len() - 1 {
        assert(new_idx.drop_last() =~= old_idx.drop_last());
    } else {
        let o = old_idx.drop_last();
        let n = new_idx.drop_last();
        assert forall|j: int| 0 <= j < front.len() implies 0 <= #[trigger] o[j] < front[j] by {
            assert(old_idx[j] == o[j]);
        }
        assert forall|j: int| 0 <= j < k implies n[j] == #[trigger] o[j] by {
            assert(old_idx[j] == o[j]);
        }
        assert forall|j: int| k < j < front.len() implies #[trigger] n[j] == 0 by {
            assert(new_idx[j] == n[j]);
        }
        assert forall|j: int| k < j < front.len() implies #[trigger] o[j] == front[j] - 1 by {
            assert(old_idx[j] == o[j]);
        }
        lemma_successor(front, o, n, k);
        assert(old_idx[shape.len() - 1] == shape[shape.len() - 1] - 1);
        let r = ravel(front, o);
        assert((r + 1) * d == r * d + d) by (nonlinear_arith);
    }
}

/// Every position at its last value has the greatest rank.
pub proof fn lemma_last(shape: Seq<usize>, idx: Seq<int>)
    requires
        in_bounds(shape, idx),
        forall|j: int| 0 <= j < shape.len() ==> #[trigger] idx[j] == shape[j] - 1,
    ensures
        ravel(shape, idx) == volume(shape) - 1,
    decreases shape.len(),
{
    if shape.len() > 0 {
        let front = shape.drop_last();
        let o = idx.drop_last();
        assert forall|j: int| 0 <= j < front.len() implies #[trigger] o[j] == front[j] - 1 && 0
            <= o[j] < front[j] by {
            assert(idx[j] == o[j]);
        }
        lemma_last(front, o);
        assert(idx[shape.len() - 1] == shape[shape.len() - 1] - 1);
        let v = volume(front) as int;
        let d = shape.last() as int;
        assert((v - 1) * d + (d - 1) == v * d - 1) by (nonlinear_arith);
    }
}

/// Volumes multiply when shapes are joined.
pub proof fn lemma_volume_concat(a: Seq<usize>, b: Seq<usize>)
    ensures
        volume(a + b) == volume(a) * volume(b),
    decreases b.len(),
{
    if b.len() == 0 {
        assert(a + b =~= a);
        assert(volume(a) * 1 == volume(a)) by (nonlinear_arith);
    } else {
        let front = b.drop_last();
        lemma_volume_concat(a, front);
        assert((a + b).drop_last() =~= a + front);
        let x = volume(a);
        let y = volume(front);
        let d = b.last() as nat;
        assert((x * y) * d == x * (y * d)) by (nonlinear_arith);
    }
}

/// The volume of a box is its first dimension times the volume of the rest.
pub proof fn lemma_volume_first(shape: Seq<usize>)
    requires
        shape.len() > 0,
    ensures
        volume(shape) == shape[0] * volume(shape.skip(1)),
{
    let head = shape.take(1);
    assert(head + shape.skip(1) =~= shape);
    lemma_volume_concat(head, shape.skip(1));
    assert(head.drop_last() =~= Seq::<usize>::empty());
    assert(volume(head) == 1 * (shape[0] as nat)) by {
        assert(head.last() == shape[0]);
        assert(volume(Seq::<usize>::empty()) == 1);
    }
    assert(1 * (shape[0] as nat) == shape[0]) by (nonlinear_arith);
}

/// The volume of a box, split at one of its dimensions.
pub proof fn lemma_volume_at(shape: Seq<usize>, k: int)
    requires
        0 <= k < shape.len(),
    ensures
        volume(shape) == volume(shape.take(k)) * (shape[k] * volume(shape.skip(k + 1))),
{
    assert(shape.take(k) + shape.skip(k) =~= shape);
    lemma_volume_concat(shape.take(k), shape.skip(k));
    lemma_volume_first(shape.skip(k));
    assert(shape.skip(k).skip(1) =~= shape.skip(k + 1));
}

/// Where each stride does what the row-major one times `c` would do, the displacement is the
/// rank times `c`.
pub proof fn lemma_dot_scaled(shape: Seq<usize>, strides: Seq<isize>, idx: Seq<int>, c: int)
    requires
        idx.len() == shape.len(),
        strides.len() == shape.len(),
        forall|k: int|
            0 <= k < shape.len() ==> #[trigger] idx[k] * strides[k] == idx[k] * (volume(
                shape.skip(k + 1),
            ) * c),
    ensures
        dot(idx, strides) == ravel(shape, idx) * c,
    decreases shape.len(),
{
    if shape.len() == 0 {
        assert(0 * c == 0) by (nonlinear_arith);
    } else {
        let n = shape.len() - 1;
        let front = shape.drop_last();
        let d = shape.last() as int;
        let head = idx.drop_last();
        assert forall|k: int| 0 <= k < front.len() implies #[trigger] head[k]
            * strides.drop_last()[k] == head[k] * (volume(front.skip(k + 1)) * (d * c)) by {
            assert(idx[k] == head[k]);
            assert(shape.skip(k + 1).drop_last() =~= front.skip(k + 1));
            let v = volume(front.skip(k + 1)) as int;
            assert((v * d) * c == v * (d * c)) by (nonlinear_arith);
        }
        lemma_dot_scaled(front, strides.drop_last(), head, d * c);
        assert(shape.skip(n + 1) =~= Seq::<usize>::empty());
        let r = ravel(front, head);
        let l = idx.last();
        assert(idx[n] == l);
        assert(volume(shape.skip(n + 1)) == 1);
        assert(1 * c == c) by (nonlinear_arith);
        assert(r * (d * c) + l * c == (r * d + l) * c) by (nonlinear_arith);
    }
}

/// Displacements split over the axes: all but the last, then the last.
pub proof fn lemma_dot_push(idx: Seq<int>, strides: Seq<isize>, i: int, s: isize)
    requires
        idx.len() == strides.len(),
    ensures
        dot(idx.push(i), strides.push(s)) == dot(idx, strides) + i * s,
{
    assert(idx.push(i).drop_last() =~= idx);
    assert(strides.push(s).drop_last() =~= strides);
}

/// Displacements add up over joined axes.
pub proof fn lemma_dot_concat(a: Seq<int>, sa: Seq<isize>, b: Seq<int>, sb: Seq<isize>)
    requires
        a.len() == sa.len(),
        b.len() == sb.len(),
    ensures
        dot(a + b, sa + sb) == dot(a, sa) + dot(b, sb),
    decreases b.len(),
{
    if b.len() == 0 {
        assert(a + b =~= a);
        assert(sa + sb =~= sa);
    } else {
        lemma_dot_concat(a, sa, b.drop_last(), sb.drop_last());
        assert((a + b).drop_last() =~= a + b.drop_last());
        assert((sa + sb).drop_last() =~= sa + sb.drop_last());
    }
}

/// Changing one coordinate moves the displacement by that much of the axis's stride.
pub proof fn lemma_dot_update(idx: Seq<int>, strides: Seq<isize>, k: int, v: int)
    requires
        idx.len() == strides.len(),
        0 <= k < idx.len(),
    ensures
        dot(idx.update(k, v), strides) == dot(idx, strides) + (v - idx[k]) * strides[k],
    decreases idx.len(),
{
    let n = idx.len() - 1;
    let s = strides.last() as int;
    if k == n {
        assert(idx.update(k, v).drop_last() =~= idx.drop_last());
        let o = idx.last();
        assert(v * s == o * s + (v - o) * s) by (nonlinear_arith);
    } else {
        assert(idx.update(k, v).drop_last() =~= idx.drop_last().update(k, v));
        lemma_dot_update(idx.drop_last(), strides.drop_last(), k, v);
    }
}

/// The position of rank `p` in a box of joined axes: the quotient places it among the leading
/// axes, the remainder among the trailing ones.
pub proof fn lemma_unravel_concat(a: Seq<usize>, b: Seq<usize>, p: int)
    requires
        0 <= p < volume(a) * volume(b),
    ensures
        volume(b) > 0,
        unravel(a + b, p) == unravel(a, p / (volume(b) as int)) + unravel(
            b,
            p % (volume(b) as int),
        ),
    decreases b.len(),
{
    let u = volume(a) as int;
    let v = volume(b) as int;
    assert(v > 0) by (nonlinear_arith)
        requires
            0 <= p < u * v,
            u >= 0,
            v >= 0,
    ;
    if b.len() == 0 {
        assert(a + b =~= a);
        assert(p / 1 == p && p % 1 == 0);
        assert(unravel(a, p) + unravel(b, 0) =~= unravel(a, p));
    } else {
        let front = b.drop_last();
        let d = b.last() as int;
        let w = volume(front) as int;
        assert((a + b).drop_last() =~= a + front);
        assert(d > 0 && w > 0 && 0 <= p / d < u * w) by (nonlinear_arith)
            requires
                v == w * d,
                v > 0,
                w >= 0,
                d >= 0,
                0 <= p < u * v,
                u >= 0,
        ;
        lemma_unravel_concat(a, front, p / d);
        lemma_divide_twice(p, w, d);
        assert(unravel(a + b, p) =~= unravel(a, p / v) + unravel(b, p % v));
    }
}

proof fn lemma_divide_twice(p: int, w: int, d: int)
    requires
        p >= 0,
        w > 0,
        d > 0,
    ensures
        (p / d) / w == p / (w * d),
        (p / d) % w == (p % (w * d)) / d,
        p % d == (p % (w * d)) % d,
{
    let q = p / d;
    let r = p % d;
    let q2 = q / w;
    let r2 = q % w;
    assert(p == (q2 * w + r2) * d + r && 0 <= r < d && 0 <= r2 < w && q2 >= 0) by (nonlinear_arith)
        requires
            p >= 0,
            w > 0,
            d > 0,
            q == p / d,
            r == p % d,
            q2 == q / w,
            r2 == q % w,
    ;
    let m = w * d;
    let t = r2 * d + r;
    assert(p == q2 * m + t && 0 <= t < m) by (nonlinear_arith)
        requires
            p == (q2 * w + r2) * d + r,
            m == w * d,
            t == r2 * d + r,
            0 <= r < d,
            0 <= r2 < w,
            w > 0,
            d > 0,
    ;
    assert(p / m == q2 && p % m == t) by (nonlinear_arith)
        requires
            p == q2 * m + t,
            0 <= t < m,
            m > 0,
            q2 >= 0,
    ;
    assert(t / d == r2 && t % d == r) by (nonlinear_arith)
        requires
            t == r2 * d + r,
            0 <= r < d,
            r2 >= 0,
            d > 0,
    ;
}

/// The position in a box of rank `n` that has `idx[i]` on axis `axes[i]`, and zero elsewhere.
pub open spec fn spread(idx: Seq<int>, axes: Seq<int>, n: nat) -> Seq<int>
    decreases axes.len(),
{
    if axes.len() == 0 {
        origin(n)
    } else {
        spread(idx.drop_last(), axes.drop_last(), n).update(axes.last(), idx.last())
    }
}

/// Axes of a box of rank `n`, none of them twice.
pub open spec fn distinct_axes(axes: Seq<int>, n: nat) -> bool {
    &&& forall|i: int| 0 <= i < axes.len() ==> 0 <= #[trigger] axes[i] < n
    &&& forall|i: int, j: int| 0 <= i < j < axes.len() ==> axes[i] != axes[j]
}

/// The items of `s` that `axes` name, in that order.
pub open spec fn chosen<T>(s: Seq<T>, axes: Seq<int>) -> Seq<T> {
    Seq::new(axes.len(), |i: int| s[axes[i]])
}

/// What [`spread`] puts where.
pub proof fn lemma_spread(idx: Seq<int>, axes: Seq<int>, n: nat)
    requires
        idx.len() == axes.len(),
        distinct_axes(axes, n),
    ensures
        spread(idx, axes, n).len() == n,
        forall|i: int|
            0 <= i < axes.len() ==> #[trigger] spread(idx, axes, n)[axes[i]] == idx[i],
        forall|q: int|
            0 <= q < n && !axes.contains(q) ==> #[trigger] spread(idx, axes, n)[q] == 0,
    decreases axes.len(),
{
    if axes.len() > 0 {
        let a = axes.drop_last();
        let v = idx.drop_last();
        lemma_spread(v, a, n);
        let inner = spread(v, a, n);
        assert forall|i: int| 0 <= i < axes.len() implies #[trigger] spread(idx, axes, n)[axes[i]]
            == idx[i] by {
            if i < a.len() {
                assert(axes[i] == a[i]);
                assert(inner[a[i]] == v[i]);
            }
        }
        assert forall|q: int| 0 <= q < n && !axes.contains(q) implies #[trigger] spread(
            idx,
            axes,
            n,
        )[q] == 0 by {
            assert(q != axes.last()) by {
                assert(axes[axes.len() - 1] == axes.last());
            }
            if a.contains(q) {
                let j = choose|j: int| 0 <= j < a.len() && a[j] == q;
                assert(axes[j] == q);
            }
            assert(inner[q] == 0);
        }
    }
}

/// Reading a position through some of the axes displaces as the spread position does.
pub proof fn lemma_dot_spread(idx: Seq<int>, axes: Seq<int>, strides: Seq<isize>)
    requires
        idx.len() == axes.len(),
        distinct_axes(axes, strides.len()),
    ensures
        dot(idx, chosen(strides, axes)) == dot(spread(idx, axes, strides.len()), strides),
    decreases axes.len(),
{
    let n = strides.len();
    if axes.len() == 0 {
        lemma_origin_dot(strides);
    } else {
        let a = axes.drop_last();
        let v = idx.drop_last();
        lemma_dot_spread(v, a, strides);
        lemma_spread(v, a, n);
        let inner = spread(v, a, n);
        let q = axes.last();
        assert(axes[axes.len() - 1] == q);
        assert(!a.contains(q)) by {
            if a.contains(q) {
                let j = choose|j: int| 0 <= j < a.len() && a[j] == q;
                assert(axes[j] == axes[axes.len() - 1]);
            }
        }
        assert(inner[q] == 0);
        lemma_dot_update(inner, strides, q, idx.last());
        assert(chosen(strides, axes).drop_last() =~= chosen(strides, a));
        assert(chosen(strides, axes).last() == strides[q]);
    }
}

/// As many distinct axes as there are name every axis.
pub proof fn lemma_distinct_axes_cover(axes: Seq<int>, n: nat)
    requires
        distinct_axes(axes, n),
        axes.len() == n,
    ensures
        forall|q: int| 0 <= q < n ==> axes.contains(q),
{
    let all = vstd::set_lib::set_int_range(0, n as int);
    vstd::set_lib::lemma_int_range(0, n as int);
    axes.unique_seq_to_set();
    let named = axes.to_set();
    assert(named.subset_of(all));
    vstd::set_lib::lemma_subset_equality(named, all);
    assert forall|q: int| 0 <= q < n implies axes.contains(q) by {
        assert(all.contains(q));
        assert(named.contains(q));
    }
}

/// Axes that displace nothing may be left out in front.
pub proof fn lemma_dot_padded(
    idx: Seq<int>,
    strides: Seq<isize>,
    idx2: Seq<int>,
    strides2: Seq<isize>,
    pad: int,
)
    requires
        idx.len() == strides.len(),
        idx2.len() == strides2.len(),
        0 <= pad == idx.len() - idx2.len(),
        forall|i: int| 0 <= i < pad ==> #[trigger] idx[i] * strides[i] == 0,
        forall|i: int|
            pad <= i < idx.len() ==> #[trigger] idx[i] * strides[i] == idx2[i - pad] * strides2[i
                - pad],
    ensures
        dot(idx, strides) == dot(idx2, strides2),
    decreases idx.len(),
{
    if idx.len() > 0 {
        let n = idx.len() - 1;
        assert(idx[n] == idx.last());
        let a = idx.drop_last();
        let s = strides.drop_last();
        assert forall|i: int| 0 <= i < a.len() implies #[trigger] a[i] * s[i] == idx[i]
            * strides[i] by {
            assert(a[i] == idx[i]);
        }
        if idx2.len() > 0 {
            let b = idx2.drop_last();
            let t = strides2.drop_last();
            assert forall|i: int| 0 <= i < pad implies #[trigger] a[i] * s[i] == 0 by {
                assert(idx[i] == a[i]);
            }
            assert forall|i: int| pad <= i < a.len() implies #[trigger] a[i] * s[i] == b[i - pad]
                * t[i - pad] by {
                assert(idx[i] == a[i]);
            }
            lemma_dot_padded(a, s, b, t, pad);
        } else {
            assert forall|i: int| 0 <= i < pad - 1 implies #[trigger] a[i] * s[i] == 0 by {
                assert(idx[i] == a[i]);
            }
            lemma_dot_padded(a, s, idx2, strides2, pad - 1);
        }
    }
}

/// Displacements add up over positions.
pub proof fn lemma_dot_affine(
    start: Seq<int>,
    strides: Seq<isize>,
    idx: Seq<int>,
    steps: Seq<isize>,
    whole: Seq<int>,
)
    requires
        start.len() == strides.len(),
        idx.len() == strides.len(),
        steps.len() == strides.len(),
        whole.len() == strides.len(),
        forall|k: int|
            0 <= k < strides.len() ==> #[trigger] whole[k] * strides[k] == start[k] * strides[k]
                + idx[k] * steps[k],
    ensures
        dot(whole, strides) == dot(start, strides) + dot(idx, steps),
    decreases strides.len(),
{
    if strides.len() > 0 {
        let n = strides.len() - 1;
        assert(whole[n] * strides[n] == start[n] * strides[n] + idx[n] * steps[n]);
        assert forall|k: int| 0 <= k < n implies #[trigger] whole.drop_last()[k]
            * strides.drop_last()[k] == start.drop_last()[k] * strides.drop_last()[k]
            + idx.drop_last()[k] * steps.drop_last()[k] by {
            assert(whole[k] == whole.drop_last()[k]);
        }
        lemma_dot_affine(
            start.drop_last(),
            strides.drop_last(),
            idx.drop_last(),
            steps.drop_last(),
            whole.drop_last(),
        );
    }
}

} // verus!
