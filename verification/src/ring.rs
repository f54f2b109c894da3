//! Arithmetic without rounding: sums that can be regrouped, and forms of a formula that agree.
use vstd::prelude::*;
use crate::device::Device;
use crate::dtype::Dtype;
use crate::fused::{first_axis, leading_axes};
use crate::index::{fits, lemma_ravel, lemma_unravel, unravel, volume};
use crate::reduce::{
    asked_axes, axis_sums, contributes, kept_index, kept_rank, kept_shape, marked, reduce_entry_ok,
    reduce_ok, sum_out, sums_picked,
};
use crate::scalar::{
    adding, folds, is_difference, is_one, is_product, is_sum, is_zero, lemma_folds_start,
    lemma_folds_step, runs, Arith, Scalars,
};
use crate::shape::row_strides;
use crate::storage::Data;
use crate::tensor::{lemma_plain_elems, Model, TensorModel};

verus! {

/// A commutative ring on the numbers `T`.
#[verifier::reject_recursive_types(T)]
pub ghost struct Ring<T> {
    pub zero: T,
    pub one: T,
    pub sum: spec_fn(T, T) -> T,
    pub difference: spec_fn(T, T) -> T,
    pub product: spec_fn(T, T) -> T,
}

impl<T> Ring<T> {
    /// `x + y`.
    pub open spec fn plus(self, x: T, y: T) -> T {
        (self.sum)(x, y)
    }

    /// `x - y`.
    pub open spec fn minus(self, x: T, y: T) -> T {
        (self.difference)(x, y)
    }

    /// `x * y`.
    pub open spec fn times(self, x: T, y: T) -> T {
        (self.product)(x, y)
    }

    /// Sums do not depend on the order of their addends.
    #[verifier::opaque]
    pub open spec fn adds_either_way(self) -> bool {
        forall|x: T, y: T| #[trigger] self.plus(x, y) == self.plus(y, x)
    }

    /// Nor on how they are grouped.
    #[verifier::opaque]
    pub open spec fn adds_in_groups(self) -> bool {
        forall|x: T, y: T, z: T| #[trigger]
            self.plus(self.plus(x, y), z) == self.plus(x, self.plus(y, z))
    }

    /// Zero adds nothing.
    #[verifier::opaque]
    pub open spec fn adds_nothing(self) -> bool {
        forall|x: T| #[trigger] self.plus(x, self.zero) == x
    }

    /// A difference and what was taken off add up again.
    #[verifier::opaque]
    pub open spec fn takes_off(self) -> bool {
        forall|x: T, y: T| self.plus(#[trigger] self.minus(x, y), y) == x
    }

    /// Products do not depend on the order of their factors.
    #[verifier::opaque]
    pub open spec fn multiplies_either_way(self) -> bool {
        forall|x: T, y: T| #[trigger] self.times(x, y) == self.times(y, x)
    }

    /// Nor on how they are grouped.
    #[verifier::opaque]
    pub open spec fn multiplies_in_groups(self) -> bool {
        forall|x: T, y: T, z: T| #[trigger]
            self.times(self.times(x, y), z) == self.times(x, self.times(y, z))
    }

    /// One scales nothing.
    #[verifier::opaque]
    pub open spec fn scales_nothing(self) -> bool {
        forall|x: T| #[trigger] self.times(x, self.one) == x
    }

    /// Products pass through sums.
    #[verifier::opaque]
    pub open spec fn distributes(self) -> bool {
        forall|x: T, y: T, z: T| #[trigger]
            self.times(x, self.plus(y, z)) == self.plus(self.times(x, y), self.times(x, z))
    }

    /// The laws of a commutative ring.
    pub open spec fn lawful(self) -> bool {
        &&& self.adds_either_way()
        &&& self.adds_in_groups()
        &&& self.adds_nothing()
        &&& self.takes_off()
        &&& self.multiplies_either_way()
        &&& self.multiplies_in_groups()
        &&& self.scales_nothing()
        &&& self.distributes()
    }

    /// The arithmetic computes in the ring.
    pub open spec fn computes<A: Arith<T>>(self) -> bool {
        &&& self.lawful()
        &&& forall|z: T| #[trigger] is_zero::<T, A>(z) == (z == self.zero)
        &&& forall|u: T| #[trigger] is_one::<T, A>(u) == (u == self.one)
        &&& forall|x: T, y: T, r: T| #[trigger] is_sum::<T, A>(x, y, r) == (r == self.plus(x, y))
        &&& forall|x: T, y: T, r: T| #[trigger]
            is_difference::<T, A>(x, y, r) == (r == self.minus(x, y))
        &&& forall|x: T, y: T, r: T| #[trigger]
            is_product::<T, A>(x, y, r) == (r == self.times(x, y))
    }

    /// The sum of those of the first `n` numbers that `pick` names.
    pub open spec fn total(self, xs: Seq<T>, pick: spec_fn(int) -> bool, n: int) -> T
        decreases n,
    {
        if n <= 0 {
            self.zero
        } else if pick(n - 1) {
            self.plus(self.total(xs, pick, n - 1), xs[n - 1])
        } else {
            self.total(xs, pick, n - 1)
        }
    }
}

/// The laws, of three numbers.
pub proof fn lemma_laws<T>(r: Ring<T>, x: T, y: T, z: T)
    requires
        r.lawful(),
    ensures
        r.plus(x, y) == r.plus(y, x),
        r.plus(r.plus(x, y), z) == r.plus(x, r.plus(y, z)),
        r.plus(x, r.zero) == x,
        r.plus(r.minus(x, y), y) == x,
        r.times(x, y) == r.times(y, x),
        r.times(r.times(x, y), z) == r.times(x, r.times(y, z)),
        r.times(x, r.one) == x,
        r.times(x, r.plus(y, z)) == r.plus(r.times(x, y), r.times(x, z)),
{
    assert(r.plus(x, y) == r.plus(y, x)) by {
        reveal(Ring::adds_either_way);
    }
    assert(r.plus(r.plus(x, y), z) == r.plus(x, r.plus(y, z))) by {
        reveal(Ring::adds_in_groups);
    }
    assert(r.plus(x, r.zero) == x) by {
        reveal(Ring::adds_nothing);
    }
    assert(r.plus(r.minus(x, y), y) == x) by {
        reveal(Ring::takes_off);
    }
    assert(r.times(x, y) == r.times(y, x)) by {
        reveal(Ring::multiplies_either_way);
    }
    assert(r.times(r.times(x, y), z) == r.times(x, r.times(y, z))) by {
        reveal(Ring::multiplies_in_groups);
    }
    assert(r.times(x, r.one) == x) by {
        reveal(Ring::scales_nothing);
    }
    assert(r.times(x, r.plus(y, z)) == r.plus(r.times(x, y), r.times(x, z))) by {
        reveal(Ring::distributes);
    }
}

/// Equal sums with one addend in common have the other in common too.
pub proof fn lemma_cancel<T>(r: Ring<T>, a: T, b: T, c: T)
    requires
        r.lawful(),
        r.plus(a, c) == r.plus(b, c),
    ensures
        a == b,
{
    let n = r.minus(r.zero, c);
    lemma_laws(r, r.zero, c, n);
    lemma_laws(r, n, c, n);
    lemma_laws(r, a, c, n);
    lemma_laws(r, b, c, n);
}

/// `s + x (s (1 - s))` is `s ((1 + x) - x s)`.
pub proof fn law_slope_forms<T>(r: Ring<T>, s: T, x: T)
    requires
        r.lawful(),
    ensures
        r.plus(s, r.times(x, r.times(s, r.minus(r.one, s)))) == r.times(
            s,
            r.minus(r.plus(r.one, x), r.times(x, s)),
        ),
{
    let d = r.minus(r.one, s);
    let xs = r.times(x, s);
    let lifted = r.plus(r.one, x);
    let rest = r.minus(lifted, xs);
    let tail = r.times(x, r.times(s, d));
    let left = r.plus(s, tail);
    let right = r.times(s, rest);
    let c = r.times(s, xs);
    // right + c == s (rest + x s) == s (1 + x) == s + s x
    assert(r.plus(right, c) == r.plus(s, xs)) by {
        lemma_laws(r, lifted, xs, xs);
        lemma_laws(r, s, rest, xs);
        lemma_laws(r, s, r.one, x);
        lemma_laws(r, s, x, x);
    }
    // tail + c == (x s) (d + s) == x s
    assert(r.plus(tail, c) == xs) by {
        lemma_laws(r, x, s, d);
        lemma_laws(r, s, xs, xs);
        lemma_laws(r, r.one, s, s);
        lemma_laws(r, xs, d, s);
    }
    lemma_laws(r, s, tail, c);
    lemma_cancel(r, left, right, c);
}

/// A fold of sums is the total.
pub proof fn lemma_folds_total<T, A: Arith<T>>(
    r: Ring<T>,
    xs: Seq<T>,
    pick: spec_fn(int) -> bool,
    n: int,
    v: T,
)
    requires
        r.computes::<A>(),
        0 <= n,
    ensures
        folds(adding::<T, A>(), xs, pick, n, r.zero, v) == (v == r.total(xs, pick, n)),
    decreases n,
{
    let step = adding::<T, A>();
    let sum = r.total(xs, pick, n);
    if n == 0 {
        lemma_folds_start(step, xs, pick, r.zero);
        if folds(step, xs, pick, n, r.zero, v) {
            let acc = choose|acc: Seq<T>| #[trigger]
                runs(step, xs, pick, n, r.zero, acc) && acc[n] == v;
        }
    } else {
        let before = r.total(xs, pick, n - 1);
        lemma_folds_total::<T, A>(r, xs, pick, n - 1, before);
        assert(is_sum::<T, A>(before, xs[n - 1], r.plus(before, xs[n - 1])));
        lemma_folds_step(step, xs, pick, n - 1, r.zero, before, sum);
        if folds(step, xs, pick, n, r.zero, v) {
            let acc = choose|acc: Seq<T>| #[trigger]
                runs(step, xs, pick, n, r.zero, acc) && acc[n] == v;
            let front = acc.take(n);
            assert forall|i: int| 0 <= i < n - 1 implies if pick(i) {
                step(front[i], xs[i], #[trigger] front[i + 1])
            } else {
                front[i + 1] == front[i]
            } by {
                assert(acc[i + 1] == front[i + 1]);
            }
            assert(runs(step, xs, pick, n - 1, r.zero, front));
            assert(folds(step, xs, pick, n - 1, r.zero, front[n - 1]));
            lemma_folds_total::<T, A>(r, xs, pick, n - 1, front[n - 1]);
            assert(acc[n - 1 + 1] == v);
            if pick(n - 1) {
                assert(step(acc[n - 1], xs[n - 1], acc[n - 1 + 1]));
                assert(is_sum::<T, A>(before, xs[n - 1], v));
            }
        }
    }
}

/// A sum of what is picked is the total.
pub proof fn lemma_sums_total<T, A: Arith<T>>(
    r: Ring<T>,
    xs: Seq<T>,
    pick: spec_fn(int) -> bool,
    v: T,
)
    requires
        r.computes::<A>(),
    ensures
        sums_picked::<T, A>(xs, pick, v) == (v == r.total(xs, pick, xs.len() as int)),
{
    let n = xs.len() as int;
    lemma_folds_total::<T, A>(r, xs, pick, n, v);
    assert(is_zero::<T, A>(r.zero));
    if sums_picked::<T, A>(xs, pick, v) {
        let z = choose|z: T| #[trigger]
            is_zero::<T, A>(z) && folds(adding::<T, A>(), xs, pick, n, z, v);
        assert(z == r.zero);
    }
}

/// One addend more, at one place.
pub proof fn lemma_total_grown<T>(
    r: Ring<T>,
    xs: Seq<T>,
    ys: Seq<T>,
    pick: spec_fn(int) -> bool,
    at: int,
    x: T,
    n: int,
)
    requires
        r.lawful(),
        0 <= n <= xs.len(),
        xs.len() == ys.len(),
        0 <= at < xs.len(),
        ys[at] == r.plus(xs[at], x),
        forall|j: int| 0 <= j < xs.len() && j != at ==> #[trigger] ys[j] == xs[j],
    ensures
        r.total(ys, pick, n) == if at < n && pick(at) {
            r.plus(r.total(xs, pick, n), x)
        } else {
            r.total(xs, pick, n)
        },
    decreases n,
{
    if n > 0 {
        lemma_total_grown(r, xs, ys, pick, at, x, n - 1);
        let a = r.total(xs, pick, n - 1);
        let v = xs[n - 1];
        if pick(n - 1) {
            lemma_laws(r, a, v, x);
            lemma_laws(r, a, x, v);
            lemma_laws(r, x, v, v);
        }
    }
}

/// Zeros add up to zero.
pub proof fn lemma_total_zero<T>(r: Ring<T>, xs: Seq<T>, pick: spec_fn(int) -> bool, n: int)
    requires
        r.lawful(),
        0 <= n <= xs.len(),
        forall|j: int| 0 <= j < xs.len() ==> #[trigger] xs[j] == r.zero,
    ensures
        r.total(xs, pick, n) == r.zero,
    decreases n,
{
    if n > 0 {
        lemma_total_zero(r, xs, pick, n - 1);
        lemma_laws(r, r.zero, r.zero, r.zero);
    }
}

/// Place `i` goes to group `to(i)`.
pub open spec fn grouped(to: spec_fn(int) -> int, j: int) -> spec_fn(int) -> bool {
    |i: int| to(i) == j
}

/// The sums of `count` groups of the first `n` numbers.
pub open spec fn group_sums<T>(
    r: Ring<T>,
    xs: Seq<T>,
    to: spec_fn(int) -> int,
    count: nat,
    n: int,
) -> Seq<T> {
    Seq::new(count, |j: int| r.total(xs, grouped(to, j), n))
}

/// A sum can be taken group by group.
pub proof fn law_sums_regroup<T>(
    r: Ring<T>,
    xs: Seq<T>,
    to: spec_fn(int) -> int,
    count: nat,
    pick: spec_fn(int) -> bool,
    all: spec_fn(int) -> bool,
    n: int,
)
    requires
        r.lawful(),
        0 <= n <= xs.len(),
        forall|i: int| 0 <= i < n ==> 0 <= #[trigger] to(i) < count,
        forall|i: int| 0 <= i < n ==> #[trigger] all(i) == pick(to(i)),
    ensures
        r.total(group_sums(r, xs, to, count, n), pick, count as int) == r.total(xs, all, n),
    decreases n,
{
    let now = group_sums(r, xs, to, count, n);
    if n == 0 {
        lemma_total_zero(r, now, pick, count as int);
    } else {
        law_sums_regroup(r, xs, to, count, pick, all, n - 1);
        let was = group_sums(r, xs, to, count, n - 1);
        let at = to(n - 1);
        assert(all(n - 1) == pick(to(n - 1)));
        assert forall|j: int| 0 <= j < count && j != at implies #[trigger] now[j] == was[j] by {
            assert(!grouped(to, j)(n - 1));
        }
        assert(grouped(to, at)(n - 1));
        lemma_total_grown(r, was, now, pick, at, xs[n - 1], count as int);
    }
}

/// A plain tensor is its shape and its elements.
pub proof fn lemma_plain_equal<S: Scalars>(a: Model<S>, b: Model<S>, shape: Seq<usize>)
    requires
        a.plain(shape),
        b.plain(shape),
        a.data == b.data,
    ensures
        a == b,
{
}

/// The plain tensor of a shape with these elements.
pub open spec fn plain_of<S: Scalars>(shape: Seq<usize>, data: Seq<S::F>) -> Model<S> {
    TensorModel {
        data: Data::F32(data),
        offset: 0,
        shape,
        strides: row_strides(shape),
        device: Device::Cpu,
        in_graph: false,
        leaf: None,
        grad_fn: None,
        placement: "cpu"@,
    }
}

pub proof fn lemma_plain_of<S: Scalars>(shape: Seq<usize>, data: Seq<S::F>)
    requires
        fits(shape),
        data.len() == volume(shape),
    ensures
        plain_of::<S>(shape, data).plain(shape),
        plain_of::<S>(shape, data).valid(),
        plain_of::<S>(shape, data).elems() == plain_of::<S>(shape, data).data,
        plain_of::<S>(shape, data).dtype() == Dtype::F32,
{
    assert(shape.take(shape.len() as int) =~= shape);
    lemma_plain_elems(plain_of::<S>(shape, data));
}

/// Where an element of a stack of matrices goes when the leading axes are summed away, at once or
/// in turn.
proof fn lemma_kept_ranks(b: usize, s: usize, n: usize, i: int)
    requires
        0 <= i < volume(seq![b, s, n]),
    ensures
        ({
            let one = kept_rank(seq![b, s, n], marked(asked_axes(first_axis(), 3), 3), false, i);
            &&& 0 <= one < s * n
            &&& kept_rank(seq![s, n], marked(asked_axes(first_axis(), 2), 2), false, one)
                == kept_rank(seq![b, s, n], marked(asked_axes(leading_axes(), 3), 3), false, i)
        }),
{
    let shape = seq![b, s, n];
    let idx = unravel(shape, i);
    lemma_unravel(shape, i);
    lemma_marks();
    let m1 = marked(asked_axes(first_axis(), 3), 3);
    let m2 = marked(asked_axes(leading_axes(), 3), 3);
    let m = marked(asked_axes(first_axis(), 2), 2);
    lemma_kept3(shape, m1);
    lemma_kept3(shape, m2);
    lemma_kept2(seq![s, n], m);
    lemma_kept_index3(idx, m1);
    lemma_kept_index3(idx, m2);
    let two = seq![idx[1], idx[2]];
    assert(0 <= idx[1] < shape[1] && 0 <= idx[2] < shape[2]);
    lemma_ravel(seq![s, n], two);
    lemma_kept_index2(two, m);
    lemma_matrix_volume(s, n);
}

pub proof fn lemma_matrix_volume(s: usize, n: usize)
    ensures
        volume(seq![s, n]) == s * n,
        volume(seq![n]) == n,
{
    let m = seq![s, n];
    reveal_with_fuel(volume, 3);
    assert(m.drop_last() =~= seq![s]);
    assert(m.drop_last().drop_last() =~= Seq::<usize>::empty());
    let row = seq![n];
    assert(row.drop_last() =~= Seq::<usize>::empty());
    let v = volume(row.drop_last());
    assert(volume(row) == v * (n as nat));
    assert(v * (n as nat) == n) by (nonlinear_arith)
        requires
            v == 1,
    ;
    assert((1 * (s as nat)) * (n as nat) == s * n) by (nonlinear_arith);
}

/// Which axes are marked.
proof fn lemma_marks()
    ensures
        marked(asked_axes(first_axis(), 3), 3) == seq![true, false, false],
        marked(asked_axes(leading_axes(), 3), 3) == seq![true, true, false],
        marked(asked_axes(first_axis(), 2), 2) == seq![true, false],
{
    let two = asked_axes(leading_axes(), 3);
    let one = asked_axes(first_axis(), 3);
    let last = asked_axes(first_axis(), 2);
    assert(two[0] == 0 && two[1] == 1 && two.len() == 2);
    assert(one[0] == 0 && one.len() == 1);
    assert(last[0] == 0 && last.len() == 1);
    assert(marked(one, 3) =~= seq![true, false, false]);
    assert(marked(two, 3) =~= seq![true, true, false]);
    assert(marked(last, 2) =~= seq![true, false]);
}

proof fn lemma_kept3(shape: Seq<usize>, red: Seq<bool>)
    requires
        shape.len() == 3,
        red == seq![true, false, false] || red == seq![true, true, false],
    ensures
        red[1] ==> kept_shape(shape, red, false) == seq![shape[2]],
        !red[1] ==> kept_shape(shape, red, false) == seq![shape[1], shape[2]],
{
    reveal_with_fuel(kept_shape, 4);
    assert(red.drop_last().last() == red[1]);
    assert(red.drop_last().drop_last().last() == red[0]);
    assert(shape.drop_last().last() == shape[1]);
    assert(shape.drop_last().drop_last().drop_last() =~= Seq::<usize>::empty());
    if red[1] {
        assert(kept_shape(shape, red, false) =~= seq![shape[2]]);
    } else {
        assert(kept_shape(shape, red, false) =~= seq![shape[1], shape[2]]);
    }
}

proof fn lemma_kept2(shape: Seq<usize>, red: Seq<bool>)
    requires
        shape.len() == 2,
        red == seq![true, false],
    ensures
        kept_shape(shape, red, false) == seq![shape[1]],
{
    reveal_with_fuel(kept_shape, 3);
    assert(red.drop_last().last() == red[0]);
    assert(shape.drop_last().drop_last() =~= Seq::<usize>::empty());
    assert(kept_shape(shape, red, false) =~= seq![shape[1]]);
}

proof fn lemma_kept_index3(idx: Seq<int>, red: Seq<bool>)
    requires
        idx.len() == 3,
        red == seq![true, false, false] || red == seq![true, true, false],
    ensures
        red[1] ==> kept_index(idx, red, false) == seq![idx[2]],
        !red[1] ==> kept_index(idx, red, false) == seq![idx[1], idx[2]],
{
    reveal_with_fuel(kept_index, 4);
    assert(red.drop_last().last() == red[1]);
    assert(red.drop_last().drop_last().last() == red[0]);
    assert(idx.drop_last().last() == idx[1]);
    assert(idx.drop_last().drop_last().drop_last() =~= Seq::<int>::empty());
    if red[1] {
        assert(kept_index(idx, red, false) =~= seq![idx[2]]);
    } else {
        assert(kept_index(idx, red, false) =~= seq![idx[1], idx[2]]);
    }
}

proof fn lemma_kept_index2(idx: Seq<int>, red: Seq<bool>)
    requires
        idx.len() == 2,
        red == seq![true, false],
    ensures
        kept_index(idx, red, false) == seq![idx[1]],
{
    reveal_with_fuel(kept_index, 3);
    assert(red.drop_last().last() == red[0]);
    assert(idx.drop_last().drop_last() =~= Seq::<int>::empty());
    assert(kept_index(idx, red, false) =~= seq![idx[1]]);
}

/// A matrix, or a row, fits where its size does.
pub proof fn lemma_matrix_fits(s: usize, n: usize)
    requires
        s * n <= usize::MAX,
    ensures
        fits(seq![s, n]),
{
    let m = seq![s, n];
    lemma_matrix_volume(s, n);
    lemma_matrix_volume(n, s);
    assert forall|k: int| 0 <= k <= m.len() implies volume(#[trigger] m.take(k)) <= usize::MAX by {
        if k == 0 {
            assert(m.take(0) =~= Seq::<usize>::empty());
        } else if k == 1 {
            assert(m.take(1) =~= seq![s]);
        } else {
            assert(m.take(2) =~= m);
        }
    }
}

/// Summing the leading axes away at once gives what summing them away in turn gives.
pub proof fn law_axes_in_turn<S: Scalars>(
    r: Ring<S::F>,
    p: Model<S>,
    b: usize,
    s: usize,
    n: usize,
    t: Model<S>,
) -> (mid: Model<S>)
    requires
        r.computes::<S>(),
        p.data is F32,
        p.shape == seq![b, s, n],
        s * n <= usize::MAX,
        sum_out::<S>(p, leading_axes(), false, Ok(t)),
    ensures
        sum_out::<S>(p, first_axis(), false, Ok(mid)),
        mid.shape == seq![s, n],
        t.shape == seq![n],
        sum_out::<S>(mid, first_axis(), false, Ok(t)),
{
    let shape = seq![b, s, n];
    let xs = p.f32s();
    let len = xs.len() as int;
    lemma_marks();
    let m1 = marked(asked_axes(first_axis(), 3), 3);
    let m2 = marked(asked_axes(leading_axes(), 3), 3);
    let m = marked(asked_axes(first_axis(), 2), 2);
    lemma_kept3(shape, m1);
    lemma_kept3(shape, m2);
    lemma_kept2(seq![s, n], m);
    lemma_matrix_volume(s, n);
    lemma_matrix_fits(s, n);
    let to = |i: int| kept_rank(shape, m1, false, i);
    let count = (s * n) as nat;
    let data = group_sums(r, xs, to, count, len);
    let mid = plain_of::<S>(seq![s, n], data);
    lemma_plain_of::<S>(seq![s, n], data);
    assert(axis_sums::<S::F, S>(shape, m1, false, xs, data)) by {
        assert forall|j: int| 0 <= j < data.len() implies sums_picked::<S::F, S>(
            xs,
            contributes(shape, m1, false, j),
            #[trigger] data[j],
        ) by {
            assert(grouped(to, j) =~= contributes(shape, m1, false, j));
            lemma_sums_total::<S::F, S>(r, xs, contributes(shape, m1, false, j), data[j]);
        }
    }
    let out = t.data->F32_0;
    assert(axis_sums::<S::F, S>(shape, m2, false, xs, out));
    assert(axis_sums::<S::F, S>(seq![s, n], m, false, data, out)) by {
        assert forall|o: int| 0 <= o < out.len() implies sums_picked::<S::F, S>(
            data,
            contributes(seq![s, n], m, false, o),
            #[trigger] out[o],
        ) by {
            let all = contributes(shape, m2, false, o);
            let pick = contributes(seq![s, n], m, false, o);
            lemma_sums_total::<S::F, S>(r, xs, all, out[o]);
            assert forall|i: int| 0 <= i < len implies 0 <= #[trigger] to(i) < count by {
                lemma_kept_ranks(b, s, n, i);
            }
            assert forall|i: int| 0 <= i < len implies #[trigger] all(i) == pick(to(i)) by {
                lemma_kept_ranks(b, s, n, i);
            }
            law_sums_regroup(r, xs, to, count, pick, all, len);
            lemma_sums_total::<S::F, S>(r, data, pick, out[o]);
        }
    }
    assert(reduce_ok(asked_axes(first_axis(), 3), 3)) by {
        assert(reduce_entry_ok(asked_axes(first_axis(), 3), 3, 0));
    }
    assert(reduce_ok(asked_axes(first_axis(), 2), 2)) by {
        assert(reduce_entry_ok(asked_axes(first_axis(), 2), 2, 0));
    }
    assert(!m1[1] && !m[1]);
    assert(sum_out::<S>(p, first_axis(), false, Ok(mid)));
    assert(sum_out::<S>(mid, first_axis(), false, Ok(t)));
    mid
}

} // verus!
