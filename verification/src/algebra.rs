//! Rules of arithmetic without rounding that follow from the laws of a commutative ring, and sums.
use vstd::prelude::*;
use crate::ring::{lemma_cancel, lemma_laws, Ring};
use crate::scalar::every;

verus! {

/// What makes `x` when `y` is added to it is `x - y`.
pub proof fn lemma_is_minus<T>(r: Ring<T>, x: T, y: T, z: T)
    requires
        r.lawful(),
        r.plus(z, y) == x,
    ensures
        z == r.minus(x, y),
{
    lemma_laws(r, x, y, y);
    lemma_cancel(r, z, r.minus(x, y), y);
}

/// Zero.
pub proof fn lemma_zero<T>(r: Ring<T>, x: T)
    requires
        r.lawful(),
    ensures
        r.plus(r.zero, x) == x,
        r.plus(x, r.zero) == x,
        r.times(x, r.zero) == r.zero,
        r.times(r.zero, x) == r.zero,
        r.times(r.one, x) == x,
        r.times(x, r.one) == x,
        r.minus(x, x) == r.zero,
        r.minus(x, r.zero) == x,
{
    lemma_laws(r, x, r.zero, r.zero);
    lemma_laws(r, r.zero, x, x);
    lemma_laws(r, r.zero, r.zero, r.zero);
    lemma_laws(r, x, r.one, r.one);
    lemma_laws(r, r.one, x, x);
    let p = r.times(x, r.zero);
    lemma_laws(r, r.zero, p, p);
    lemma_laws(r, p, r.zero, r.zero);
    lemma_cancel(r, p, r.zero, p);
    lemma_is_minus(r, x, x, r.zero);
    lemma_is_minus(r, x, r.zero, x);
}

/// Products pass through sums and differences, on either side.
pub proof fn lemma_spread<T>(r: Ring<T>, x: T, y: T, z: T)
    requires
        r.lawful(),
    ensures
        r.times(r.plus(y, z), x) == r.plus(r.times(y, x), r.times(z, x)),
        r.times(x, r.plus(y, z)) == r.plus(r.times(x, y), r.times(x, z)),
        r.times(x, r.minus(y, z)) == r.minus(r.times(x, y), r.times(x, z)),
        r.times(r.minus(y, z), x) == r.minus(r.times(y, x), r.times(z, x)),
{
    lemma_laws(r, x, y, z);
    lemma_laws(r, x, z, y);
    lemma_laws(r, x, r.plus(y, z), z);
    let d = r.minus(y, z);
    lemma_laws(r, y, z, z);
    lemma_laws(r, x, d, z);
    lemma_is_minus(r, r.times(x, y), r.times(x, z), r.times(x, d));
}

/// Sums of two sums, and of two differences, by their parts.
pub proof fn lemma_shuffle<T>(r: Ring<T>, a: T, b: T, c: T, d: T)
    requires
        r.lawful(),
    ensures
        r.plus(r.plus(a, b), r.plus(c, d)) == r.plus(r.plus(a, c), r.plus(b, d)),
        r.minus(r.plus(a, b), r.plus(c, d)) == r.plus(r.minus(a, c), r.minus(b, d)),
        r.minus(r.minus(a, b), r.minus(c, d)) == r.minus(r.minus(a, c), r.minus(b, d)),
{
    lemma_four(r, a, b, c, d);
    let (p, q) = (r.minus(a, c), r.minus(b, d));
    lemma_four(r, p, q, c, d);
    lemma_laws(r, a, c, c);
    lemma_laws(r, b, d, d);
    lemma_is_minus(r, r.plus(a, b), r.plus(c, d), r.plus(p, q));
    let z = r.minus(p, q);
    let w = r.minus(c, d);
    // (z + w) + (q + d) == p + c
    lemma_four(r, z, w, q, d);
    lemma_laws(r, p, q, q);
    lemma_laws(r, c, d, d);
    lemma_is_minus(r, a, b, r.plus(z, w));
    lemma_is_minus(r, r.minus(a, b), w, z);
}

proof fn lemma_four<T>(r: Ring<T>, a: T, b: T, c: T, d: T)
    requires
        r.lawful(),
    ensures
        r.plus(r.plus(a, b), r.plus(c, d)) == r.plus(r.plus(a, c), r.plus(b, d)),
{
    lemma_laws(r, a, b, r.plus(c, d));
    lemma_laws(r, b, c, d);
    lemma_laws(r, c, b, d);
    lemma_laws(r, a, c, r.plus(b, d));
}

/// Products of two products, by their parts.
pub proof fn lemma_factors<T>(r: Ring<T>, a: T, b: T, c: T, d: T)
    requires
        r.lawful(),
    ensures
        r.times(r.times(a, b), r.times(c, d)) == r.times(r.times(a, c), r.times(b, d)),
{
    lemma_laws(r, a, b, r.times(c, d));
    lemma_laws(r, b, c, d);
    lemma_laws(r, c, b, d);
    lemma_laws(r, a, c, r.times(b, d));
}

/// A sum of three, and a product of three, with the last two turned round.
pub proof fn lemma_turn<T>(r: Ring<T>, a: T, b: T, c: T)
    requires
        r.lawful(),
    ensures
        r.plus(r.plus(a, b), c) == r.plus(r.plus(a, c), b),
        r.times(r.times(a, b), c) == r.times(r.times(a, c), b),
        r.times(r.times(a, b), c) == r.times(b, r.times(a, c)),
        r.times(a, r.times(b, c)) == r.times(b, r.times(a, c)),
{
    lemma_laws(r, a, b, c);
    lemma_laws(r, a, c, b);
    lemma_laws(r, b, c, c);
    lemma_laws(r, b, a, c);
}

/// A sum less one of its addends, and a difference with what was taken off added first.
pub proof fn lemma_undo<T>(r: Ring<T>, a: T, b: T)
    requires
        r.lawful(),
    ensures
        r.minus(r.plus(a, b), b) == a,
        r.minus(r.plus(a, b), a) == b,
        r.plus(r.minus(a, b), b) == a,
        r.plus(b, r.minus(a, b)) == a,
{
    lemma_laws(r, a, b, b);
    lemma_is_minus(r, r.plus(a, b), b, a);
    lemma_is_minus(r, r.plus(a, b), a, b);
    lemma_laws(r, r.minus(a, b), b, b);
}

/// The products of two lists, place by place.
pub open spec fn products<T>(r: Ring<T>, a: Seq<T>, b: Seq<T>) -> Seq<T> {
    Seq::new(a.len(), |i: int| r.times(a[i], b[i]))
}

/// A list times a number.
pub open spec fn scaled<T>(r: Ring<T>, c: T, a: Seq<T>) -> Seq<T> {
    Seq::new(a.len(), |i: int| r.times(c, a[i]))
}

/// The sums of two lists, place by place.
pub open spec fn sums_of<T>(r: Ring<T>, a: Seq<T>, b: Seq<T>) -> Seq<T> {
    Seq::new(a.len(), |i: int| r.plus(a[i], b[i]))
}

/// The differences of two lists, place by place.
pub open spec fn differences<T>(r: Ring<T>, a: Seq<T>, b: Seq<T>) -> Seq<T> {
    Seq::new(a.len(), |i: int| r.minus(a[i], b[i]))
}

/// `n` ones added up.
pub open spec fn multiple<T>(r: Ring<T>, n: nat) -> T
    decreases n,
{
    if n == 0 {
        r.zero
    } else {
        r.plus(multiple(r, (n - 1) as nat), r.one)
    }
}

/// Sums of what is picked from two lists that agree there.
pub proof fn lemma_total_agree<T>(
    r: Ring<T>,
    xs: Seq<T>,
    ys: Seq<T>,
    p: spec_fn(int) -> bool,
    q: spec_fn(int) -> bool,
    n: int,
)
    requires
        forall|i: int| 0 <= i < n ==> #[trigger] p(i) == q(i),
        forall|i: int| 0 <= i < n && #[trigger] p(i) ==> xs[i] == ys[i],
    ensures
        r.total(xs, p, n) == r.total(ys, q, n),
    decreases n,
{
    if n > 0 {
        lemma_total_agree(r, xs, ys, p, q, n - 1);
        assert(p(n - 1) == q(n - 1));
    }
}

/// A number passes through a sum.
pub proof fn lemma_total_scaled<T>(
    r: Ring<T>,
    c: T,
    xs: Seq<T>,
    pick: spec_fn(int) -> bool,
    n: int,
)
    requires
        r.lawful(),
        n <= xs.len(),
    ensures
        r.total(scaled(r, c, xs), pick, n) == r.times(c, r.total(xs, pick, n)),
    decreases n,
{
    if n <= 0 {
        lemma_zero(r, c);
    } else {
        lemma_total_scaled(r, c, xs, pick, n - 1);
        lemma_spread(r, c, r.total(xs, pick, n - 1), xs[n - 1]);
    }
}

/// The sum of sums, and of differences.
pub proof fn lemma_total_parts<T>(
    r: Ring<T>,
    xs: Seq<T>,
    ys: Seq<T>,
    pick: spec_fn(int) -> bool,
    n: int,
)
    requires
        r.lawful(),
        n <= xs.len(),
        xs.len() == ys.len(),
    ensures
        r.total(sums_of(r, xs, ys), pick, n) == r.plus(
            r.total(xs, pick, n),
            r.total(ys, pick, n),
        ),
        r.total(differences(r, xs, ys), pick, n) == r.minus(
            r.total(xs, pick, n),
            r.total(ys, pick, n),
        ),
    decreases n,
{
    if n <= 0 {
        lemma_zero(r, r.zero);
    } else {
        lemma_total_parts(r, xs, ys, pick, n - 1);
        let (a, c) = (r.total(xs, pick, n - 1), r.total(ys, pick, n - 1));
        lemma_shuffle(r, a, xs[n - 1], c, ys[n - 1]);
        lemma_shuffle(r, a, c, xs[n - 1], ys[n - 1]);
    }
}

/// A sum of zeros but for one place.
pub proof fn lemma_total_alone<T>(
    r: Ring<T>,
    xs: Seq<T>,
    pick: spec_fn(int) -> bool,
    at: int,
    n: int,
)
    requires
        r.lawful(),
        0 <= n <= xs.len(),
        forall|i: int| 0 <= i < n && i != at ==> #[trigger] xs[i] == r.zero,
    ensures
        r.total(xs, pick, n) == if 0 <= at < n && pick(at) {
            xs[at]
        } else {
            r.zero
        },
    decreases n,
{
    if n > 0 {
        lemma_total_alone(r, xs, pick, at, n - 1);
        lemma_zero(r, r.total(xs, pick, n - 1));
        lemma_zero(r, xs[n - 1]);
    }
}

/// A sum of one number, `n` times over.
pub proof fn lemma_total_same<T>(r: Ring<T>, xs: Seq<T>, c: T, n: int)
    requires
        r.lawful(),
        0 <= n <= xs.len(),
        forall|i: int| 0 <= i < n ==> #[trigger] xs[i] == c,
    ensures
        r.total(xs, every(), n) == r.times(c, multiple(r, n as nat)),
    decreases n,
{
    lemma_zero(r, c);
    if n > 0 {
        lemma_total_same(r, xs, c, n - 1);
        lemma_spread(r, c, multiple(r, (n - 1) as nat), r.one);
    }
}

/// Sums one after the other.
pub proof fn lemma_total_joined<T>(
    r: Ring<T>,
    xs: Seq<T>,
    pick: spec_fn(int) -> bool,
    m: int,
    n: int,
)
    requires
        r.lawful(),
        0 <= m <= n <= xs.len(),
    ensures
        r.total(xs, pick, n) == r.plus(
            r.total(xs, pick, m),
            r.total(xs.skip(m), |i: int| pick(i + m), n - m),
        ),
    decreases n,
{
    let front = r.total(xs, pick, m);
    let late = |i: int| pick(i + m);
    if n == m {
        lemma_zero(r, front);
    } else {
        lemma_total_joined(r, xs, pick, m, n - 1);
        let back = r.total(xs.skip(m), late, n - 1 - m);
        assert(xs.skip(m)[n - 1 - m] == xs[n - 1]);
        assert(late(n - 1 - m) == pick(n - 1));
        lemma_laws(r, front, back, xs[n - 1]);
    }
}

/// The difference of two negatives.
pub proof fn lemma_flip<T>(r: Ring<T>, a: T, b: T)
    requires
        r.lawful(),
    ensures
        r.minus(r.minus(r.zero, a), r.minus(r.zero, b)) == r.minus(b, a),
        r.plus(r.minus(r.zero, a), a) == r.zero,
{
    let na = r.minus(r.zero, a);
    let nb = r.minus(r.zero, b);
    let d = r.minus(b, a);
    lemma_turn(r, d, nb, a);
    lemma_undo(r, b, a);
    lemma_undo(r, r.zero, b);
    lemma_undo(r, r.zero, a);
    lemma_is_minus(r, r.zero, a, r.plus(d, nb));
    lemma_is_minus(r, na, nb, d);
}

} // verus!
