//! Equally spaced points: where they begin, where they end, and how far apart they stand.
use vstd::prelude::*;
use crate::algebra::{lemma_is_minus, lemma_undo, lemma_zero, multiple};
use crate::calculus::{counts, exact, lemma_cancels, lemma_divides};
use crate::construct::{line_point, line_sum};
use crate::ring::{lemma_laws, Ring};
use crate::scalar::{is_difference, is_product, is_quotient, is_sum, Arith};

verus! {

/// Point `i` of `num` points: `num - 1` times its way from the start is `i` times the whole way. So
/// the first point is the start and the last is the end.
pub proof fn law_line_points<T, A: Arith<T>>(
    r: Ring<T>,
    start: T,
    end: T,
    num: usize,
    i: usize,
    y: T,
)
    requires
        exact::<T, A>(r),
        num > 1,
        i < num,
        multiple(r, (num - 1) as nat) != r.zero,
        line_point::<T, A>(start, end, num, i, y),
    ensures
        r.times(r.minus(y, start), multiple(r, (num - 1) as nat)) == r.times(
            r.minus(end, start),
            multiple(r, i as nat),
        ),
        i == 0 ==> y == start,
        i == num - 1 ==> y == end,
{
    let (span, at, den, part, share) = choose|span: T, at: T, den: T, part: T, share: T|
        {
            &&& call_ensures(A::minus, (end, start), span)
            &&& call_ensures(A::count, (i,), at)
            &&& call_ensures(A::count, ((num - 1) as usize,), den)
            &&& call_ensures(A::times, (span, at), part)
            &&& call_ensures(A::over, (part, den), share)
            &&& #[trigger] line_sum::<T, A>(start, span, at, den, part, share, y)
        };
    assert(at == multiple(r, i as nat) && den == multiple(r, (num - 1) as nat)) by {
        reveal(counts);
    }
    assert(is_difference::<T, A>(end, start, span));
    assert(is_product::<T, A>(span, at, part));
    assert(is_quotient::<T, A>(part, den, share));
    assert(is_sum::<T, A>(start, share, y));
    lemma_divides::<T, A>(r, part, den, share);
    lemma_laws(r, start, share, share);
    lemma_is_minus(r, y, start, share);
    lemma_undo(r, y, start);
    lemma_undo(r, end, start);
    lemma_laws(r, share, start, start);
    lemma_laws(r, span, start, start);
    if i == 0 {
        lemma_zero(r, span);
        lemma_zero(r, den);
        lemma_cancels(r, share, r.zero, den);
        lemma_zero(r, start);
    }
    if i == num - 1 {
        lemma_cancels(r, share, span, den);
    }
}

} // verus!
