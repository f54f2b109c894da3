//! The gradient of a matrix product follows from the rules of differentiation.
use vstd::prelude::*;
use crate::algebra::{lemma_shuffle, lemma_spread, lemma_turn, lemma_zero, products};
use crate::calculus::{lemma_change, Change};
use crate::ring::{lemma_laws, Ring};
use crate::rms_law::changes;
use crate::scalar::every;

verus! {

/// The sum of the first `n` values of `f`.
pub open spec fn over<T>(r: Ring<T>, f: spec_fn(int) -> T, n: int) -> T
    decreases n,
{
    if n <= 0 {
        r.zero
    } else {
        r.plus(over(r, f, n - 1), f(n - 1))
    }
}

/// Sums of equal values.
pub proof fn lemma_over_agree<T>(r: Ring<T>, f: spec_fn(int) -> T, g: spec_fn(int) -> T, n: int)
    requires
        forall|i: int| 0 <= i < n ==> #[trigger] f(i) == g(i),
    ensures
        over(r, f, n) == over(r, g, n),
    decreases n,
{
    if n > 0 {
        lemma_over_agree(r, f, g, n - 1);
        assert(f(n - 1) == g(n - 1));
    }
}

/// The sum of sums.
pub proof fn lemma_over_sum<T>(
    r: Ring<T>,
    f: spec_fn(int) -> T,
    g: spec_fn(int) -> T,
    h: spec_fn(int) -> T,
    n: int,
)
    requires
        r.lawful(),
        forall|i: int| 0 <= i < n ==> #[trigger] h(i) == r.plus(f(i), g(i)),
    ensures
        over(r, h, n) == r.plus(over(r, f, n), over(r, g, n)),
    decreases n,
{
    lemma_zero(r, r.zero);
    if n > 0 {
        lemma_over_sum(r, f, g, h, n - 1);
        assert(h(n - 1) == r.plus(f(n - 1), g(n - 1)));
        lemma_shuffle(r, over(r, f, n - 1), over(r, g, n - 1), f(n - 1), g(n - 1));
    }
}

/// The sum of multiples.
pub proof fn lemma_over_scaled<T>(
    r: Ring<T>,
    c: T,
    f: spec_fn(int) -> T,
    h: spec_fn(int) -> T,
    n: int,
)
    requires
        r.lawful(),
        forall|i: int| 0 <= i < n ==> #[trigger] h(i) == r.times(c, f(i)),
    ensures
        over(r, h, n) == r.times(c, over(r, f, n)),
    decreases n,
{
    lemma_zero(r, c);
    if n > 0 {
        lemma_over_scaled(r, c, f, h, n - 1);
        assert(h(n - 1) == r.times(c, f(n - 1)));
        lemma_spread(r, c, over(r, f, n - 1), f(n - 1));
    }
}

/// The sum of zeros.
proof fn lemma_over_zero<T>(r: Ring<T>, f: spec_fn(int) -> T, n: int)
    requires
        r.lawful(),
        forall|i: int| 0 <= i < n ==> #[trigger] f(i) == r.zero,
    ensures
        over(r, f, n) == r.zero,
    decreases n,
{
    lemma_zero(r, r.zero);
    if n > 0 {
        lemma_over_zero(r, f, n - 1);
        assert(f(n - 1) == r.zero);
    }
}

/// The change of a sum.
pub proof fn lemma_over_change<T>(
    r: Ring<T>,
    d: Change<T>,
    f: spec_fn(int) -> T,
    h: spec_fn(int) -> T,
    n: int,
)
    requires
        r.lawful(),
        d.adds(r),
        d.multiplies(r),
        forall|i: int| 0 <= i < n ==> #[trigger] h(i) == d.at(f(i)),
    ensures
        over(r, h, n) == d.at(over(r, f, n)),
    decreases n,
{
    lemma_change(r, d, r.zero, r.zero);
    if n > 0 {
        lemma_over_change(r, d, f, h, n - 1);
        assert(h(n - 1) == d.at(f(n - 1)));
        lemma_change(r, d, over(r, f, n - 1), f(n - 1));
    }
}

/// One row of a table.
pub open spec fn row_of<T>(f: spec_fn(int, int) -> T, i: int) -> spec_fn(int) -> T {
    |j: int| f(i, j)
}

/// One column of a table.
pub open spec fn column_of<T>(f: spec_fn(int, int) -> T, j: int) -> spec_fn(int) -> T {
    |i: int| f(i, j)
}

/// The sums of the rows, `n` long.
pub open spec fn row_sums<T>(r: Ring<T>, f: spec_fn(int, int) -> T, n: int) -> spec_fn(int) -> T {
    |i: int| over(r, row_of(f, i), n)
}

/// The sums of the columns, `m` long.
pub open spec fn column_sums<T>(r: Ring<T>, f: spec_fn(int, int) -> T, m: int) -> spec_fn(
    int,
) -> T {
    |j: int| over(r, column_of(f, j), m)
}

/// A table adds up to one sum by rows and by columns.
pub proof fn lemma_swap<T>(r: Ring<T>, f: spec_fn(int, int) -> T, m: int, n: int)
    requires
        r.lawful(),
        0 <= m,
    ensures
        over(r, row_sums(r, f, n), m) == over(r, column_sums(r, f, m), n),
    decreases m,
{
    if m == 0 {
        lemma_over_zero(r, column_sums(r, f, 0), n);
    } else {
        lemma_swap(r, f, m - 1, n);
        lemma_over_sum(
            r,
            column_sums(r, f, m - 1),
            row_of(f, m - 1),
            column_sums(r, f, m),
            n,
        );
    }
}

/// Two tables, one the other turned, add up alike.
pub proof fn lemma_turned<T>(
    r: Ring<T>,
    f: spec_fn(int, int) -> T,
    g: spec_fn(int, int) -> T,
    m: int,
    n: int,
)
    requires
        r.lawful(),
        0 <= m,
        forall|i: int, j: int| 0 <= i < m && 0 <= j < n ==> #[trigger] f(i, j) == g(j, i),
    ensures
        over(r, row_sums(r, f, n), m) == over(r, row_sums(r, g, m), n),
{
    lemma_swap(r, f, m, n);
    assert forall|j: int| 0 <= j < n implies #[trigger] column_sums(r, f, m)(j) == row_sums(
        r,
        g,
        m,
    )(j) by {
        assert forall|i: int| 0 <= i < m implies #[trigger] column_of(f, j)(i) == row_of(g, j)(
            i,
        ) by {
            assert(f(i, j) == g(j, i));
        }
        lemma_over_agree(r, column_of(f, j), row_of(g, j), m);
    }
    lemma_over_agree(r, column_sums(r, f, m), row_sums(r, g, m), n);
}

/// A list in rows of `n`.
pub open spec fn cells<T>(xs: Seq<T>, n: int) -> spec_fn(int, int) -> T {
    |i: int, j: int| xs[i * n + j]
}

proof fn lemma_flat_row<T>(r: Ring<T>, xs: Seq<T>, n: int, i: int, k: int)
    requires
        r.lawful(),
        0 <= k <= n,
        0 <= i,
    ensures
        r.total(xs, every(), i * n + k) == r.plus(
            r.total(xs, every(), i * n),
            over(r, row_of(cells(xs, n), i), k),
        ),
    decreases k,
{
    assert(i * n >= 0) by (nonlinear_arith)
        requires
            i >= 0,
            n >= 0,
    ;
    lemma_zero(r, r.total(xs, every(), i * n));
    if k > 0 {
        lemma_flat_row(r, xs, n, i, k - 1);
        lemma_laws(
            r,
            r.total(xs, every(), i * n),
            over(r, row_of(cells(xs, n), i), k - 1),
            xs[i * n + k - 1],
        );
    }
}

/// A list adds up by rows.
pub proof fn lemma_flat<T>(r: Ring<T>, xs: Seq<T>, m: int, n: int)
    requires
        r.lawful(),
        0 <= m,
        0 <= n,
    ensures
        r.total(xs, every(), m * n) == over(r, row_sums(r, cells(xs, n), n), m),
    decreases m,
{
    if m > 0 {
        lemma_flat(r, xs, m - 1, n);
        lemma_flat_row(r, xs, n, m - 1, n);
        assert((m - 1) * n + n == m * n) by (nonlinear_arith);
    } else {
        assert(m * n == 0) by (nonlinear_arith)
            requires
                m == 0,
        ;
    }
}

/// The products of a row of `a` and a column of `b`.
pub open spec fn terms<T>(
    r: Ring<T>,
    a: Seq<T>,
    b: Seq<T>,
    k: int,
    n: int,
    i: int,
    j: int,
) -> spec_fn(int) -> T {
    |p: int| r.times(a[i * k + p], b[p * n + j])
}

/// `y` is the product of the matrices `a`, `m` by `k`, and `b`, `k` by `n`.
pub open spec fn is_matrix_product<T>(
    r: Ring<T>,
    m: int,
    k: int,
    n: int,
    a: Seq<T>,
    b: Seq<T>,
    y: Seq<T>,
) -> bool {
    forall|i: int, j: int|
        0 <= i < m && 0 <= j < n ==> #[trigger] y[i * n + j] == over(
            r,
            terms(r, a, b, k, n, i, j),
            k,
        )
}

/// The matrix `a`, `m` by `n`, turned.
pub open spec fn turned<T>(a: Seq<T>, m: int, n: int, t: Seq<T>) -> bool {
    forall|i: int, j: int| 0 <= i < m && 0 <= j < n ==> #[trigger] t[j * m + i] == a[i * n + j]
}

/// The part of the change of entry `(i, j)` that comes from `a`, times the cotangent: by `j` and
/// `p`.
spec fn from_a<T>(
    r: Ring<T>,
    d: Change<T>,
    a: Seq<T>,
    b: Seq<T>,
    g: Seq<T>,
    k: int,
    n: int,
    i: int,
) -> spec_fn(int, int) -> T {
    |j: int, p: int| r.times(g[i * n + j], r.times(d.at(a[i * k + p]), b[p * n + j]))
}

/// The same by `p` and `j`.
spec fn from_a_turned<T>(
    r: Ring<T>,
    d: Change<T>,
    a: Seq<T>,
    b: Seq<T>,
    g: Seq<T>,
    k: int,
    n: int,
    i: int,
) -> spec_fn(int, int) -> T {
    |p: int, j: int| r.times(g[i * n + j], r.times(d.at(a[i * k + p]), b[p * n + j]))
}

/// The part that comes from `b`: by `i` and `p`.
spec fn from_b<T>(
    r: Ring<T>,
    d: Change<T>,
    a: Seq<T>,
    b: Seq<T>,
    g: Seq<T>,
    k: int,
    n: int,
    j: int,
) -> spec_fn(int, int) -> T {
    |i: int, p: int| r.times(g[i * n + j], r.times(a[i * k + p], d.at(b[p * n + j])))
}

/// The same by `p` and `i`.
spec fn from_b_turned<T>(
    r: Ring<T>,
    d: Change<T>,
    a: Seq<T>,
    b: Seq<T>,
    g: Seq<T>,
    k: int,
    n: int,
    j: int,
) -> spec_fn(int, int) -> T {
    |p: int, i: int| r.times(g[i * n + j], r.times(a[i * k + p], d.at(b[p * n + j])))
}

/// What entry `(i, j)` takes from `a`.
spec fn share_a<T>(
    r: Ring<T>,
    d: Change<T>,
    a: Seq<T>,
    b: Seq<T>,
    g: Seq<T>,
    k: int,
    n: int,
) -> spec_fn(int, int) -> T {
    |i: int, j: int| over(r, row_of(from_a(r, d, a, b, g, k, n, i), j), k)
}

/// What entry `(i, j)` takes from `b`.
spec fn share_b<T>(
    r: Ring<T>,
    d: Change<T>,
    a: Seq<T>,
    b: Seq<T>,
    g: Seq<T>,
    k: int,
    n: int,
) -> spec_fn(int, int) -> T {
    |i: int, j: int| over(r, row_of(from_b(r, d, a, b, g, k, n, j), i), k)
}

/// The change of entry `(i, j)`, times the cotangent, is what it takes from both.
proof fn lemma_entry<T>(
    r: Ring<T>,
    d: Change<T>,
    m: int,
    k: int,
    n: int,
    a: Seq<T>,
    b: Seq<T>,
    y: Seq<T>,
    g: Seq<T>,
    i: int,
    j: int,
)
    requires
        r.lawful(),
        d.adds(r),
        d.multiplies(r),
        0 <= i < m,
        0 <= j < n,
        is_matrix_product(r, m, k, n, a, b, y),
    ensures
        r.times(g[i * n + j], d.at(y[i * n + j])) == r.plus(
            share_a(r, d, a, b, g, k, n)(i, j),
            share_b(r, d, a, b, g, k, n)(i, j),
        ),
{
    let f = terms(r, a, b, k, n, i, j);
    let h = |p: int| d.at(f(p));
    assert(y[i * n + j] == over(r, f, k));
    lemma_over_change(r, d, f, h, k);
    let c = g[i * n + j];
    let s = |p: int| r.times(c, h(p));
    lemma_over_scaled(r, c, h, s, k);
    let u = row_of(from_a(r, d, a, b, g, k, n, i), j);
    let v = row_of(from_b(r, d, a, b, g, k, n, j), i);
    assert forall|p: int| 0 <= p < k implies #[trigger] s(p) == r.plus(u(p), v(p)) by {
        let (x, z) = (a[i * k + p], b[p * n + j]);
        lemma_change(r, d, x, z);
        lemma_spread(r, c, r.times(d.at(x), z), r.times(x, d.at(z)));
    }
    lemma_over_sum(r, u, v, s, k);
}

/// What all entries take from `a` is the pieces of `a` times its changes.
proof fn lemma_all_a<T>(
    r: Ring<T>,
    d: Change<T>,
    m: int,
    k: int,
    n: int,
    a: Seq<T>,
    b: Seq<T>,
    bt: Seq<T>,
    g: Seq<T>,
    pa: Seq<T>,
)
    requires
        r.lawful(),
        0 <= m,
        0 <= k,
        0 <= n,
        a.len() == m * k,
        pa.len() == m * k,
        turned(b, k, n, bt),
        is_matrix_product(r, m, n, k, g, bt, pa),
    ensures
        over(r, row_sums(r, share_a(r, d, a, b, g, k, n), n), m) == r.total(
            products(r, pa, changes(d, a)),
            every(),
            m * k,
        ),
{
    let w = products(r, pa, changes(d, a));
    lemma_flat(r, w, m, k);
    let left = row_sums(r, share_a(r, d, a, b, g, k, n), n);
    let right = row_sums(r, cells(w, k), k);
    assert forall|i: int| 0 <= i < m implies #[trigger] left(i) == right(i) by {
        let f = from_a(r, d, a, b, g, k, n, i);
        let t = from_a_turned(r, d, a, b, g, k, n, i);
        lemma_turned(r, f, t, n, k);
        assert forall|j: int| 0 <= j < n implies #[trigger] row_of(
            share_a(r, d, a, b, g, k, n),
            i,
        )(j) == row_sums(r, f, k)(j) by {
        }
        lemma_over_agree(r, row_of(share_a(r, d, a, b, g, k, n), i), row_sums(r, f, k), n);
        assert forall|p: int| 0 <= p < k implies #[trigger] row_sums(r, t, n)(p) == row_of(
            cells(w, k),
            i,
        )(p) by {
            let e = d.at(a[i * k + p]);
            let q = terms(r, g, bt, n, k, i, p);
            assert forall|j: int| 0 <= j < n implies #[trigger] row_of(t, p)(j) == r.times(
                e,
                q(j),
            ) by {
                assert(bt[j * k + p] == b[p * n + j]);
                lemma_turn(r, g[i * n + j], e, b[p * n + j]);
                lemma_laws(r, g[i * n + j], e, b[p * n + j]);
            }
            lemma_over_scaled(r, e, q, row_of(t, p), n);
            assert(pa[i * k + p] == over(r, q, n));
            assert(0 <= i * k + p < m * k) by (nonlinear_arith)
                requires
                    0 <= i < m,
                    0 <= p < k,
            ;
            assert(w[i * k + p] == r.times(pa[i * k + p], e));
            lemma_laws(r, e, pa[i * k + p], e);
        }
        lemma_over_agree(r, row_sums(r, t, n), row_of(cells(w, k), i), k);
    }
    lemma_over_agree(r, left, right, m);
}

/// What all entries take from `b` is the pieces of `b` times its changes.
proof fn lemma_all_b<T>(
    r: Ring<T>,
    d: Change<T>,
    m: int,
    k: int,
    n: int,
    a: Seq<T>,
    b: Seq<T>,
    at: Seq<T>,
    g: Seq<T>,
    pb: Seq<T>,
)
    requires
        r.lawful(),
        0 <= m,
        0 <= k,
        0 <= n,
        b.len() == k * n,
        pb.len() == k * n,
        turned(a, m, k, at),
        is_matrix_product(r, k, m, n, at, g, pb),
    ensures
        over(r, row_sums(r, share_b(r, d, a, b, g, k, n), n), m) == r.total(
            products(r, pb, changes(d, b)),
            every(),
            k * n,
        ),
{
    let w = products(r, pb, changes(d, b));
    lemma_flat(r, w, k, n);
    let sh = share_b(r, d, a, b, g, k, n);
    // By j first.
    lemma_swap(r, sh, m, n);
    let by_p = |j: int, p: int| over(r, row_of(from_b_turned(r, d, a, b, g, k, n, j), p), m);
    assert forall|j: int| 0 <= j < n implies #[trigger] column_sums(r, sh, m)(j) == row_sums(
        r,
        by_p,
        k,
    )(j) by {
        let f = from_b(r, d, a, b, g, k, n, j);
        let t = from_b_turned(r, d, a, b, g, k, n, j);
        lemma_turned(r, f, t, m, k);
        assert forall|i: int| 0 <= i < m implies #[trigger] column_of(sh, j)(i) == row_sums(
            r,
            f,
            k,
        )(i) by {
        }
        lemma_over_agree(r, column_of(sh, j), row_sums(r, f, k), m);
        assert forall|p: int| 0 <= p < k implies #[trigger] row_sums(r, t, m)(p) == row_of(
            by_p,
            j,
        )(p) by {
        }
        lemma_over_agree(r, row_sums(r, t, m), row_of(by_p, j), k);
    }
    lemma_over_agree(r, column_sums(r, sh, m), row_sums(r, by_p, k), n);
    // By p and j.
    let by_j = cells(w, n);
    assert forall|j: int, p: int| 0 <= j < n && 0 <= p < k implies #[trigger] by_p(j, p) == by_j(
        p,
        j,
    ) by {
        let e = d.at(b[p * n + j]);
        let q = terms(r, at, g, m, n, p, j);
        let t = from_b_turned(r, d, a, b, g, k, n, j);
        assert forall|i: int| 0 <= i < m implies #[trigger] row_of(t, p)(i) == r.times(
            e,
            q(i),
        ) by {
            let (x, c) = (a[i * k + p], g[i * n + j]);
            assert(at[p * m + i] == x);
            lemma_turn(r, x, c, e);
            lemma_laws(r, x, c, e);
            lemma_laws(r, c, x, e);
            lemma_laws(r, r.times(x, c), e, e);
        }
        lemma_over_scaled(r, e, q, row_of(t, p), m);
        assert(pb[p * n + j] == over(r, q, m));
        assert(0 <= p * n + j < k * n) by (nonlinear_arith)
            requires
                0 <= p < k,
                0 <= j < n,
        ;
        assert(w[p * n + j] == r.times(pb[p * n + j], e));
        lemma_laws(r, e, pb[p * n + j], e);
    }
    lemma_turned(r, by_p, by_j, n, k);
}

/// The gradient of a matrix product: with the piece of the left matrix the cotangent times the
/// right one turned, and that of the right matrix the left one turned times the cotangent, the
/// pieces, each times the change of its entry, add up to the cotangent times the change of the
/// product.
pub proof fn law_product_gradient<T>(
    r: Ring<T>,
    d: Change<T>,
    m: int,
    k: int,
    n: int,
    a: Seq<T>,
    b: Seq<T>,
    y: Seq<T>,
    g: Seq<T>,
    at: Seq<T>,
    bt: Seq<T>,
    pa: Seq<T>,
    pb: Seq<T>,
)
    requires
        r.lawful(),
        d.adds(r),
        d.multiplies(r),
        0 <= m,
        0 <= k,
        0 <= n,
        a.len() == m * k,
        b.len() == k * n,
        y.len() == m * n,
        g.len() == m * n,
        pa.len() == m * k,
        pb.len() == k * n,
        is_matrix_product(r, m, k, n, a, b, y),
        turned(a, m, k, at),
        turned(b, k, n, bt),
        is_matrix_product(r, m, n, k, g, bt, pa),
        is_matrix_product(r, k, m, n, at, g, pb),
    ensures
        r.plus(
            r.total(products(r, pa, changes(d, a)), every(), m * k),
            r.total(products(r, pb, changes(d, b)), every(), k * n),
        ) == r.total(products(r, g, changes(d, y)), every(), m * n),
{
    lemma_all_a(r, d, m, k, n, a, b, bt, g, pa);
    lemma_all_b(r, d, m, k, n, a, b, at, g, pb);
    let w = products(r, g, changes(d, y));
    lemma_flat(r, w, m, n);
    let (fa, fb) = (share_a(r, d, a, b, g, k, n), share_b(r, d, a, b, g, k, n));
    assert forall|i: int| 0 <= i < m implies #[trigger] row_sums(r, cells(w, n), n)(i) == r.plus(
        row_sums(r, fa, n)(i),
        row_sums(r, fb, n)(i),
    ) by {
        assert forall|j: int| 0 <= j < n implies #[trigger] row_of(cells(w, n), i)(j) == r.plus(
            row_of(fa, i)(j),
            row_of(fb, i)(j),
        ) by {
            assert(0 <= i * n + j < m * n) by (nonlinear_arith)
                requires
                    0 <= i < m,
                    0 <= j < n,
            ;
            lemma_entry(r, d, m, k, n, a, b, y, g, i, j);
        }
        lemma_over_sum(r, row_of(fa, i), row_of(fb, i), row_of(cells(w, n), i), n);
    }
    lemma_over_sum(
        r,
        row_sums(r, fa, n),
        row_sums(r, fb, n),
        row_sums(r, cells(w, n), n),
        m,
    );
}

} // verus!
