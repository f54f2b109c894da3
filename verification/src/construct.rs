//! Tensors from a rule.
use vstd::prelude::*;

use crate::dtype::Dtype;
use crate::error::{Error, ErrorKind};
use crate::index::{fits, volume};
use crate::scalar::{is_one, is_zero, Arith, Scalars};
use crate::storage::Data;
use crate::tensor::{numel_error, Tensor};

verus! {

/// The points of a half-open range: each but the first is the one before it plus `step`, and all
/// lie on the near side of `end`. The next one does not, unless there are as many as can be
/// counted.
pub open spec fn range_points<T, A: Arith<T>>(
    start: T,
    end: T,
    step: T,
    up: bool,
    v: Seq<T>,
) -> bool {
    &&& forall|i: int|
        0 <= i < v.len() ==> short_of::<T, A>(#[trigger] v[i], end, up, true)
    &&& v.len() > 0 ==> v[0] == start
    &&& forall|i: int|
        0 < i < v.len() ==> call_ensures(A::plus, (v[i - 1], step), #[trigger] v[i])
    &&& v.len() == 0 ==> short_of::<T, A>(start, end, up, false)
    &&& 0 < v.len() < usize::MAX ==> exists|x: T|
        call_ensures(A::plus, (v.last(), step), x) && #[trigger] short_of::<T, A>(
            x,
            end,
            up,
            false,
        )
}

/// Asked whether `x` has yet to reach `end`, going up or down, the arithmetic can answer `yes`.
pub open spec fn short_of<T, A: Arith<T>>(x: T, end: T, up: bool, yes: bool) -> bool {
    if up {
        call_ensures(A::above, (end, x), yes)
    } else {
        call_ensures(A::above, (x, end), yes)
    }
}

/// Half-open range `[start, end)` with step `step`.
pub fn arange_f32<S: Scalars>(start: S::F, end: S::F, step: S::F) -> (r: Result<Tensor<S>, Error>)
    ensures
        r matches Ok(t) ==> {
            &&& t@.data is F32 && t@.plain(seq![t@.data.len() as usize]) && t@.elems() == t@.data
            &&& exists|z: S::F, up: bool|
                {
                    &&& #[trigger] is_zero::<S::F, S>(z)
                    &&& call_ensures(<S as Arith<S::F>>::same, (step, z), false)
                    &&& call_ensures(<S as Arith<S::F>>::above, (step, z), up)
                    &&& #[trigger] range_points::<S::F, S>(start, end, step, up, t@.data->F32_0)
                }
        },
        r matches Err(e) ==> exists|z: S::F| #[trigger]
            is_zero::<S::F, S>(z) && call_ensures(<S as Arith<S::F>>::same, (step, z), true)
                && e.says(ErrorKind::Shape, "arange"@, "step must not be 0"@),
{
    let zero: S::F = <S as Arith<S::F>>::zero();
    assert(is_zero::<S::F, S>(zero));
    if <S as Arith<S::F>>::same(step, zero) {
        return Err(Error::shape("arange", "step must not be 0".to_owned()));
    }
    let up: bool = <S as Arith<S::F>>::above(step, zero);
    let mut v: Vec<S::F> = Vec::new();
    let mut x: S::F = start;
    let mut more: bool = if up {
        <S as Arith<S::F>>::above(end, x)
    } else {
        <S as Arith<S::F>>::above(x, end)
    };
    while more && v.len() < usize::MAX
        invariant
            v@.len() <= usize::MAX,
            short_of::<S::F, S>(x, end, up, more),
            v@.len() == 0 ==> x == start,
            v@.len() > 0 ==> v@[0] == start && call_ensures(
                <S as Arith<S::F>>::plus,
                (v@.last(), step),
                x,
            ),
            forall|i: int|
                0 <= i < v@.len() ==> short_of::<S::F, S>(#[trigger] v@[i], end, up, true),
            forall|i: int|
                0 < i < v@.len() ==> call_ensures(
                    <S as Arith<S::F>>::plus,
                    (v@[i - 1], step),
                    #[trigger] v@[i],
                ),
        decreases usize::MAX - v@.len(),
    {
        v.push(x);
        x = <S as Arith<S::F>>::plus(x, step);
        more = if up {
            <S as Arith<S::F>>::above(end, x)
        } else {
            <S as Arith<S::F>>::above(x, end)
        };
    }
    let n: usize = v.len();
    let shape: [usize; 1] = [n];
    proof {
        assert(range_points::<S::F, S>(start, end, step, up, v@));
        lemma_line(n);
        assert(shape@ =~= seq![n]);
    }
    Tensor::from_vec_f32(v, &shape)
}

/// A one-axis shape always fits, and its volume is its only dimension.
pub proof fn lemma_line(n: usize)
    ensures
        fits(seq![n]),
        volume(seq![n]) == n,
{
    let s = seq![n];
    assert(s.drop_last() =~= Seq::<usize>::empty());
    assert(volume(Seq::<usize>::empty()) == 1);
    assert(volume(s) == 1 * (n as nat));
    assert forall|k: int| 0 <= k <= s.len() implies volume(#[trigger] s.take(k)) <= usize::MAX by {
        if k == 0 {
            assert(s.take(0) =~= Seq::<usize>::empty());
        } else {
            assert(s.take(1) =~= s);
        }
    }
}

/// Point `i` of `num` from `start` to `end`: `start + (end - start) * i / (num - 1)`.
pub open spec fn line_point<T, A: Arith<T>>(start: T, end: T, num: usize, i: usize, y: T) -> bool {
    exists|span: T, at: T, den: T, part: T, share: T|
        {
            &&& call_ensures(A::minus, (end, start), span)
            &&& call_ensures(A::count, (i,), at)
            &&& call_ensures(A::count, ((num - 1) as usize,), den)
            &&& call_ensures(A::times, (span, at), part)
            &&& call_ensures(A::over, (part, den), share)
            &&& #[trigger] line_sum::<T, A>(start, span, at, den, part, share, y)
        }
}

/// The last step of a point on a line.
pub open spec fn line_sum<T, A: Arith<T>>(
    start: T,
    span: T,
    at: T,
    den: T,
    part: T,
    share: T,
    y: T,
) -> bool {
    call_ensures(A::plus, (start, share), y)
}

/// `num` equally spaced points from `start` to `end` inclusive.
pub fn linspace_f32<S: Scalars>(start: S::F, end: S::F, num: usize) -> (r: Result<Tensor<S>, Error>)
    ensures
        r matches Ok(t) && t@.plain(seq![num]) && t@.elems() == t@.data && t@.data is F32 && (num
            == 1 ==> t@.data->F32_0[0] == start) && (num > 1 ==> forall|i: int|
            0 <= i < num ==> line_point::<S::F, S>(
                start,
                end,
                num,
                i as usize,
                #[trigger] t@.data->F32_0[i],
            )),
{
    let shape: [usize; 1] = [num];
    proof {
        lemma_line(num);
        assert(shape@ =~= seq![num]);
    }
    let mut v: Vec<S::F> = Vec::new();
    if num == 1 {
        v.push(start);
        return Tensor::from_vec_f32(v, &shape);
    }
    if num > 1 {
        let den: S::F = <S as Arith<S::F>>::count(num - 1);
        let mut i: usize = 0;
        while i < num
            invariant
                i <= num,
                num > 1,
                v@.len() == i,
                call_ensures(<S as Arith<S::F>>::count, ((num - 1) as usize,), den),
                forall|j: int|
                    0 <= j < i ==> line_point::<S::F, S>(
                        start,
                        end,
                        num,
                        j as usize,
                        #[trigger] v@[j],
                    ),
            decreases num - i,
        {
            let span: S::F = <S as Arith<S::F>>::minus(end, start);
            let at: S::F = <S as Arith<S::F>>::count(i);
            let part: S::F = <S as Arith<S::F>>::times(span, at);
            let share: S::F = <S as Arith<S::F>>::over(part, den);
            let y: S::F = <S as Arith<S::F>>::plus(start, share);
            assert(line_sum::<S::F, S>(start, span, at, den, part, share, y));
            v.push(y);
            i = i + 1;
        }
    }
    Tensor::from_vec_f32(v, &shape)
}

/// `on` down the diagonal of an `n` by `n` table, `off` elsewhere.
pub open spec fn diagonal<T>(n: usize, off: T, on: T, v: Seq<T>) -> bool {
    &&& v.len() == n * n
    &&& forall|i: int|
        0 <= i < n * n ==> #[trigger] v[i] == if i / (n as int) == i % (n as int) {
            on
        } else {
            off
        }
}

fn diagonal_of<T: Copy>(n: usize, off: T, on: T) -> (r: Vec<T>)
    requires
        n * n <= usize::MAX,
    ensures
        diagonal(n, off, on, r@),
{
    let mut v: Vec<T> = Vec::new();
    let mut i: usize = 0;
    while i < n
        invariant
            i <= n,
            n * n <= usize::MAX,
            v@.len() == i * n,
            forall|k: int|
                0 <= k < i * n ==> #[trigger] v@[k] == if k / (n as int) == k % (n as int) {
                    on
                } else {
                    off
                },
        decreases n - i,
    {
        let mut j: usize = 0;
        while j < n
            invariant
                i < n,
                j <= n,
                v@.len() == i * n + j,
                forall|k: int|
                    0 <= k < i * n + j ==> #[trigger] v@[k] == if k / (n as int) == k % (n as int) {
                        on
                    } else {
                        off
                    },
            decreases n - j,
        {
            proof {
                let k = i * n + j;
                let d = n as int;
                assert(k / d == i && k % d == j) by (nonlinear_arith)
                    requires
                        k == i * d + j,
                        0 <= j < d,
                        0 <= i,
                ;
            }
            if i == j {
                v.push(on);
            } else {
                v.push(off);
            }
            j = j + 1;
        }
        proof {
            assert((i + 1) * n == i * n + n) by (nonlinear_arith);
        }
        i = i + 1;
    }
    v
}

/// `n × n` identity.
pub fn eye<S: Scalars>(n: usize, dtype: Dtype) -> (r: Result<Tensor<S>, Error>)
    requires
        n * n <= usize::MAX,
    ensures
        r matches Ok(t) && t@.plain(seq![n, n]) && t@.dtype() == dtype && t@.elems() == t@.data
            && match t@.data {
            Data::F32(v) => exists|z: S::F, u: S::F|
                is_zero::<S::F, S>(z) && is_one::<S::F, S>(u) && #[trigger] diagonal(n, z, u, v),
            Data::F64(v) => exists|z: S::D, u: S::D|
                is_zero::<S::D, S>(z) && is_one::<S::D, S>(u) && #[trigger] diagonal(n, z, u, v),
            Data::I64(v) => diagonal(n, 0i64, 1i64, v),
        },
{
    let shape: [usize; 2] = [n, n];
    proof {
        assert(shape@ =~= seq![n, n]);
        lemma_square(n);
    }
    match dtype {
        Dtype::F32 => {
            let v: Vec<S::F> = diagonal_of(n, <S as Arith<S::F>>::zero(), <S as Arith<S::F>>::one());
            Tensor::from_vec_f32(v, &shape)
        },
        Dtype::F64 => {
            let v: Vec<S::D> = diagonal_of(n, <S as Arith<S::D>>::zero(), <S as Arith<S::D>>::one());
            Tensor::from_vec_f64(v, &shape)
        },
        Dtype::I64 => Tensor::from_vec_i64(diagonal_of(n, 0, 1), &shape),
    }
}

proof fn lemma_square(n: usize)
    requires
        n * n <= usize::MAX,
    ensures
        fits(seq![n, n]),
        volume(seq![n, n]) == n * n,
{
    let s = seq![n, n];
    lemma_line(n);
    assert(s.drop_last() =~= seq![n]);
    assert forall|k: int| 0 <= k <= s.len() implies volume(#[trigger] s.take(k)) <= usize::MAX by {
        if k == 2 {
            assert(s.take(2) =~= s);
        } else {
            assert(s.take(k) =~= seq![n].take(k));
        }
    }
}

/// Every element equal to `value`.
pub fn full_f32<S: Scalars>(shape: &[usize], value: S::F) -> (r: Result<Tensor<S>, Error>)
    ensures
        r matches Ok(t) ==> {
            &&& fits(shape@) && t@.plain(shape@)
            &&& t@.data == Data::<S::F, S::D>::F32(Seq::new(volume(shape@), |i: int| value))
            &&& t@.valid() && t@.elems() == t@.data
        },
        r matches Err(e) ==> !fits(shape@) && numel_error(e),
{
    Tensor::full_f32(shape, value)
}

} // verus!
