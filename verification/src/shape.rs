//! Shape algebra: volumes, strides, broadcasting, reshaping and row-major walks.
use vstd::prelude::*;

use crate::error::{Error, ErrorKind};
use crate::index::{
    dot, fits, in_bounds, ints, lemma_dot_scaled, lemma_volume_at, lemma_volume_first,
    lemma_volume_prefix, lemma_volume_zero, ravel, volume,
};
use crate::text::{
    decimal, list, push_decimal, push_list, push_signed, signed_decimal, with_two_numbers,
};

verus! {

/// Product of the dimensions, by partial products from the left.
pub fn numel(shape: &[usize]) -> (r: Result<usize, Error>)
    ensures
        r matches Ok(n) ==> fits(shape@) && n == volume(shape@),
        r matches Err(e) ==> !fits(shape@) && e.says(
            ErrorKind::Shape,
            "numel"@,
            "shape volume overflow"@,
        ),
{
    let mut acc: usize = 1;
    let mut i: usize = 0;
    proof {
        assert(shape@.take(0).len() == 0);
    }
    while i < shape.len()
        invariant
            i <= shape@.len(),
            acc == volume(shape@.take(i as int)),
            forall|k: int| 0 <= k <= i ==> volume(#[trigger] shape@.take(k)) <= usize::MAX,
        decreases shape@.len() - i,
    {
        proof {
            assert(shape@.take(i + 1).drop_last() =~= shape@.take(i as int));
            assert(volume(shape@.take(i + 1)) == volume(shape@.take(i as int)) * (
            shape@[i as int] as nat));
        }
        match acc.checked_mul(shape[i]) {
            Some(p) => {
                acc = p;
            },
            None => {
                return Err(Error::shape("numel", "shape volume overflow".to_owned()));
            },
        }
        i = i + 1;
    }
    proof {
        assert(shape@.take(i as int) =~= shape@);
    }
    Ok(acc)
}

/// The nearest `isize` to an integer.
pub open spec fn clamped(i: int) -> isize {
    if i > isize::MAX {
        isize::MAX
    } else if i < isize::MIN {
        isize::MIN
    } else {
        i as isize
    }
}

/// Distance between neighbours along an axis that `shape` follows.
pub open spec fn pitch(shape: Seq<usize>) -> isize
    decreases shape.len(),
{
    if shape.len() == 0 {
        1
    } else {
        clamped(pitch(shape.skip(1)) * (shape[0] as isize))
    }
}

/// Row-major strides: each axis steps over everything that follows it.
pub open spec fn row_strides(shape: Seq<usize>) -> Seq<isize> {
    Seq::new(shape.len(), |k: int| pitch(shape.skip(k + 1)))
}

/// The distance is the volume of what follows, where that fits.
proof fn lemma_pitch(shape: Seq<usize>)
    requires
        0 < volume(shape) <= isize::MAX,
    ensures
        pitch(shape) == volume(shape),
    decreases shape.len(),
{
    if shape.len() > 0 {
        let rest = shape.skip(1);
        lemma_volume_first(shape);
        let d = shape[0] as int;
        let v = volume(rest) as int;
        assert(0 < v && v <= d * v && 0 < d && d <= d * v) by (nonlinear_arith)
            requires
                d * v > 0,
                d >= 0,
                v >= 0,
        ;
        lemma_pitch(rest);
        assert(v * d == d * v) by (nonlinear_arith);
    }
}

/// Row-major strides send every position to its rank.
pub proof fn lemma_row_strides(shape: Seq<usize>, idx: Seq<int>)
    requires
        in_bounds(shape, idx),
        volume(shape) <= usize::MAX,
    ensures
        dot(idx, row_strides(shape)) == ravel(shape, idx),
{
    let strides = row_strides(shape);
    crate::index::lemma_ravel(shape, idx);
    assert forall|k: int| 0 <= k < shape.len() implies #[trigger] idx[k] * strides[k] == idx[k] * (
    volume(shape.skip(k + 1)) * 1) by {
        let v = volume(shape.skip(k + 1)) as int;
        assert(v * 1 == v) by (nonlinear_arith);
        assert(0 <= idx[k] < shape[k]);
        if shape[k] == 1 {
            assert(0 * strides[k] == 0 && 0 * v == 0) by (nonlinear_arith);
        } else {
            lemma_volume_at(shape, k);
            let a = volume(shape.take(k)) as int;
            let d = shape[k] as int;
            assert(0 < v && 2 * v <= a * (d * v)) by (nonlinear_arith)
                requires
                    a * (d * v) > 0,
                    a >= 0,
                    d >= 2,
                    v >= 0,
            ;
            lemma_pitch(shape.skip(k + 1));
        }
    }
    lemma_dot_scaled(shape, strides, idx, 1);
    let r = ravel(shape, idx);
    assert(r * 1 == r) by (nonlinear_arith);
}

/// Strides of a packed row-major buffer.
pub fn row_major_strides(shape: &[usize]) -> (r: Vec<isize>)
    ensures
        r@ == row_strides(shape@),
{
    let n: usize = shape.len();
    let mut backwards: Vec<isize> = Vec::new();
    let mut acc: isize = 1;
    let mut i: usize = n;
    proof {
        assert(shape@.skip(n as int) =~= Seq::<usize>::empty());
    }
    while i > 0
        invariant
            i <= n,
            n == shape@.len(),
            backwards@.len() == n - i,
            acc == pitch(shape@.skip(i as int)),
            forall|j: int|
                0 <= j < n - i ==> #[trigger] backwards@[j] == pitch(shape@.skip(n - j)),
        decreases i,
    {
        i = i - 1;
        backwards.push(acc);
        proof {
            assert(shape@.skip(i as int).skip(1) =~= shape@.skip(i + 1));
        }
        acc = saturating_product(acc, shape[i] as isize);
    }
    let mut strides: Vec<isize> = Vec::new();
    let mut k: usize = 0;
    while k < n
        invariant
            k <= n,
            n == shape@.len(),
            backwards@.len() == n,
            strides@.len() == k,
            forall|j: int| 0 <= j < n ==> #[trigger] backwards@[j] == pitch(shape@.skip(n - j)),
            forall|j: int| 0 <= j < k ==> #[trigger] strides@[j] == pitch(shape@.skip(j + 1)),
        decreases n - k,
    {
        strides.push(backwards[n - 1 - k]);
        k = k + 1;
    }
    proof {
        assert(strides@ =~= row_strides(shape@));
    }
    strides
}

fn saturating_product(a: isize, b: isize) -> (r: isize)
    ensures
        r == clamped(a * b),
{
    proof {
        assert(-0x4000_0000_0000_0000_0000_0000_0000_0000int <= a * b
            <= 0x4000_0000_0000_0000_0000_0000_0000_0000int) by (nonlinear_arith)
            requires
                -0x8000_0000_0000_0000int <= a <= 0x8000_0000_0000_0000int,
                -0x8000_0000_0000_0000int <= b <= 0x8000_0000_0000_0000int,
        ;
    }
    let p: i128 = (a as i128) * (b as i128);
    if p > isize::MAX as i128 {
        isize::MAX
    } else if p < isize::MIN as i128 {
        isize::MIN
    } else {
        p as isize
    }
}

/// Whether strides and offset are those of a packed row-major buffer.
pub fn is_contiguous(shape: &[usize], strides: &[isize], offset: usize) -> (r: bool)
    ensures
        r == (offset == 0 && strides@ == row_strides(shape@)),
{
    if offset != 0 {
        return false;
    }
    let want: Vec<isize> = row_major_strides(shape);
    if strides.len() != want.len() {
        return false;
    }
    let mut i: usize = 0;
    while i < want.len()
        invariant
            i <= want@.len(),
            want@ == row_strides(shape@),
            strides@.len() == want@.len(),
            forall|j: int| 0 <= j < i ==> #[trigger] strides@[j] == want@[j],
        decreases want@.len() - i,
    {
        if strides[i] != want[i] {
            return false;
        }
        i = i + 1;
    }
    proof {
        assert(strides@ =~= want@);
    }
    true
}

/// Dimension `i` of `s`, seen as a shape of rank `rank` by filling with ones from the left.
pub open spec fn aligned(s: Seq<usize>, rank: int, i: int) -> usize {
    if i < rank - s.len() {
        1
    } else {
        s[i - (rank - s.len())]
    }
}

/// The greater of two ranks.
pub open spec fn joint_rank(a: Seq<usize>, b: Seq<usize>) -> nat {
    if a.len() >= b.len() {
        a.len()
    } else {
        b.len()
    }
}

/// Right-aligned dimensions agree wherever neither of them is one.
pub open spec fn compatible(a: Seq<usize>, b: Seq<usize>) -> bool {
    forall|i: int|
        0 <= i < joint_rank(a, b) ==> {
            let da = #[trigger] aligned(a, joint_rank(a, b) as int, i);
            let db = aligned(b, joint_rank(a, b) as int, i);
            da == db || da == 1 || db == 1
        }
}

/// The common shape of two compatible shapes. Size 0 with 1 gives 0.
pub open spec fn joined(a: Seq<usize>, b: Seq<usize>) -> Seq<usize> {
    Seq::new(
        joint_rank(a, b),
        |i: int|
            if aligned(a, joint_rank(a, b) as int, i) == 1 {
                aligned(b, joint_rank(a, b) as int, i)
            } else {
                aligned(a, joint_rank(a, b) as int, i)
            },
    )
}

/// The error that incompatible shapes give.
pub open spec fn broadcast_error(e: Error, a: Seq<usize>, b: Seq<usize>) -> bool {
    e.says(ErrorKind::Shape, "broadcast"@, "incompatible "@ + list(a) + " vs "@ + list(b))
}

/// Right-aligned broadcast. Size 0 with 1 → 0.
pub fn broadcast_shapes(a: &[usize], b: &[usize]) -> (r: Result<Vec<usize>, Error>)
    ensures
        r matches Ok(out) ==> compatible(a@, b@) && out@ == joined(a@, b@),
        r matches Err(e) ==> !compatible(a@, b@) && broadcast_error(e, a@, b@),
{
    let rank: usize = if a.len() >= b.len() {
        a.len()
    } else {
        b.len()
    };
    let mut out: Vec<usize> = Vec::new();
    let mut i: usize = 0;
    while i < rank
        invariant
            i <= rank,
            rank == joint_rank(a@, b@),
            out@.len() == i,
            forall|j: int| 0 <= j < i ==> #[trigger] out@[j] == joined(a@, b@)[j],
            forall|j: int|
                0 <= j < i ==> {
                    let da = #[trigger] aligned(a@, rank as int, j);
                    let db = aligned(b@, rank as int, j);
                    da == db || da == 1 || db == 1
                },
        decreases rank - i,
    {
        let da: usize = if i < rank - a.len() {
            1
        } else {
            a[i - (rank - a.len())]
        };
        let db: usize = if i < rank - b.len() {
            1
        } else {
            b[i - (rank - b.len())]
        };
        assert(da == aligned(a@, rank as int, i as int));
        assert(db == aligned(b@, rank as int, i as int));
        if da == db {
            out.push(da);
        } else if da == 1 {
            out.push(db);
        } else if db == 1 {
            out.push(da);
        } else {
            let mut message: String = "incompatible ".to_owned();
            push_list(&mut message, a);
            message.append(" vs ");
            push_list(&mut message, b);
            return Err(Error::shape("broadcast", message));
        }
        i = i + 1;
    }
    proof {
        assert(out@ =~= joined(a@, b@));
    }
    Ok(out)
}

/// Strides that show a box of `from` dimensions as one of `to` dimensions.
pub open spec fn stretched(from: Seq<usize>, strides: Seq<isize>, to: Seq<usize>) -> Seq<isize> {
    Seq::new(
        to.len(),
        |i: int|
            if aligned(from, to.len() as int, i) == 1 {
                0isize
            } else {
                strides[i - (to.len() - from.len())]
            },
    )
}

/// Strides for reading `from_shape` as `to_shape`: zero on the axes that are repeated.
pub fn broadcast_strides(
    from_shape: &[usize],
    from_strides: &[isize],
    to_shape: &[usize],
) -> (r: Result<Vec<isize>, Error>)
    requires
        compatible(from_shape@, to_shape@) ==> from_shape@.len() <= to_shape@.len(),
        compatible(from_shape@, to_shape@) ==> forall|k: int|
            0 <= k < from_shape@.len() && #[trigger] from_shape@[k] != 1 ==> k
                < from_strides@.len(),
    ensures
        r matches Ok(out) ==> compatible(from_shape@, to_shape@) && out@ == stretched(
            from_shape@,
            from_strides@,
            to_shape@,
        ),
        r matches Err(e) ==> !compatible(from_shape@, to_shape@) && broadcast_error(
            e,
            from_shape@,
            to_shape@,
        ),
{
    match broadcast_shapes(from_shape, to_shape) {
        Ok(_) => {},
        Err(e) => {
            return Err(e);
        },
    }
    let rank: usize = to_shape.len();
    let pad: usize = rank - from_shape.len();
    let mut strides: Vec<isize> = Vec::new();
    let mut i: usize = 0;
    while i < rank
        invariant
            i <= rank,
            rank == to_shape@.len(),
            pad == rank - from_shape@.len(),
            strides@.len() == i,
            forall|k: int|
                0 <= k < from_shape@.len() && #[trigger] from_shape@[k] != 1 ==> k
                    < from_strides@.len(),
            forall|j: int|
                0 <= j < i ==> #[trigger] strides@[j] == stretched(
                    from_shape@,
                    from_strides@,
                    to_shape@,
                )[j],
        decreases rank - i,
    {
        if i < pad {
            strides.push(0);
        } else {
            let d: usize = from_shape[i - pad];
            if d == 1 {
                strides.push(0);
            } else {
                strides.push(from_strides[i - pad]);
            }
        }
        i = i + 1;
    }
    proof {
        assert(strides@ =~= stretched(from_shape@, from_strides@, to_shape@));
    }
    Ok(strides)
}

/// The axis that `axis` names, counting from the end where it is negative.
pub open spec fn axis_at(axis: int, rank: int) -> int {
    if axis < 0 {
        axis + rank
    } else {
        axis
    }
}

/// `axis` names an axis of a tensor of the given rank.
pub open spec fn axis_ok(axis: int, rank: int) -> bool {
    0 <= axis_at(axis, rank) < rank
}

/// The error that an axis out of range gives.
pub open spec fn axis_error(e: Error, axis: int, rank: int, op: Seq<char>) -> bool {
    e.says(
        ErrorKind::Shape,
        op,
        "axis "@ + signed_decimal(axis) + " out of rank "@ + decimal(rank as nat),
    )
}

/// Resolve a possibly negative axis.
pub fn normalize_axis(axis: isize, rank: usize, op: &'static str) -> (r: Result<usize, Error>)
    ensures
        r matches Ok(a) ==> axis_ok(axis as int, rank as int) && a == axis_at(
            axis as int,
            rank as int,
        ),
        r matches Err(e) ==> !axis_ok(axis as int, rank as int) && axis_error(
            e,
            axis as int,
            rank as int,
            op@,
        ),
{
    let n: i128 = rank as i128;
    let a: i128 = if axis < 0 {
        axis as i128 + n
    } else {
        axis as i128
    };
    if a < 0 || a >= n {
        let mut message: String = "axis ".to_owned();
        push_signed(&mut message, axis);
        message.append(" out of rank ");
        push_decimal(&mut message, rank as u128);
        Err(Error::shape(op, message))
    } else {
        Ok(a as usize)
    }
}

/// Storage slot of a position.
pub fn offset_of(index: &[usize], offset: usize, strides: &[isize]) -> (r: usize)
    requires
        forall|k: int|
            0 <= k <= index@.len() && k <= strides@.len() ==> i128::MIN <= offset + #[trigger] dot(
                ints(index@).take(k),
                strides@.take(k),
            ) <= i128::MAX,
    ensures
        index@.len() <= strides@.len() ==> r == (offset + dot(
            ints(index@),
            strides@.take(index@.len() as int),
        )) as usize,
        strides@.len() <= index@.len() ==> r == (offset + dot(
            ints(index@).take(strides@.len() as int),
            strides@,
        )) as usize,
{
    let n: usize = if index.len() <= strides.len() {
        index.len()
    } else {
        strides.len()
    };
    let mut o: i128 = offset as i128;
    let mut k: usize = 0;
    proof {
        assert(ints(index@).take(0).len() == 0);
    }
    while k < n
        invariant
            k <= n,
            n <= index@.len(),
            n <= strides@.len(),
            o == offset + dot(ints(index@).take(k as int), strides@.take(k as int)),
            forall|k: int|
                0 <= k <= index@.len() && k <= strides@.len() ==> i128::MIN <= offset
                    + #[trigger] dot(ints(index@).take(k), strides@.take(k)) <= i128::MAX,
        decreases n - k,
    {
        let i: usize = index[k];
        let s: isize = strides[k];
        proof {
            lemma_step_product(i, s);
            assert(ints(index@).take(k + 1).drop_last() =~= ints(index@).take(k as int));
            assert(strides@.take(k + 1).drop_last() =~= strides@.take(k as int));
            assert(dot(ints(index@).take(k + 1), strides@.take(k + 1)) == dot(
                ints(index@).take(k as int),
                strides@.take(k as int),
            ) + i * s);
        }
        o = o + (i as i128) * (s as i128);
        k = k + 1;
    }
    proof {
        if index@.len() <= strides@.len() {
            assert(ints(index@).take(n as int) =~= ints(index@));
        }
        if strides@.len() <= index@.len() {
            assert(strides@.take(n as int) =~= strides@);
        }
    }
    o as usize
}

pub proof fn lemma_step_product(i: usize, s: isize)
    ensures
        i128::MIN <= i * s <= i128::MAX,
{
    assert(-0x8000_0000_0000_0000_0000_0000_0000_0000int <= i * s
        <= 0x7fff_ffff_ffff_ffff_ffff_ffff_ffff_ffffint) by (nonlinear_arith)
        requires
            0 <= i <= 0xffff_ffff_ffff_ffffint,
            -0x8000_0000_0000_0000int <= s <= 0x7fff_ffff_ffff_ffffint,
    ;
}

/// Product of the dimensions that a reshape request spells out, leaving the inferred one out.
pub open spec fn spelled(new: Seq<isize>) -> int
    decreases new.len(),
{
    if new.len() == 0 {
        1
    } else if new.last() == -1 {
        spelled(new.drop_last())
    } else {
        spelled(new.drop_last()) * new.last()
    }
}

/// Product of the positive numbers among `s`, held at the greatest `usize`.
pub open spec fn positive_product(s: Seq<int>) -> nat
    decreases s.len(),
{
    if s.len() == 0 {
        1
    } else {
        let p = positive_product(s.drop_last());
        if s.last() <= 0 {
            p
        } else if p * s.last() > usize::MAX {
            usize::MAX as nat
        } else {
            (p * s.last()) as nat
        }
    }
}

/// Entry `i` of a reshape request asks for a dimension to be inferred, as an earlier one did.
pub open spec fn second_infer(new: Seq<isize>, i: int) -> bool {
    new[i] == -1 && exists|j: int| 0 <= j < i && #[trigger] new[j] == -1
}

/// Entry `i` is the first that a reshape request cannot stand, with the message that it gives.
pub open spec fn reshape_fault(new: Seq<isize>, i: int, message: Seq<char>) -> bool {
    ||| second_infer(new, i) && message == "only one -1 is allowed"@
    ||| new[i] < -1 && message == "negative dimension other than -1"@
    ||| new[i] >= 0 && spelled(new.take(i + 1)) > usize::MAX && message == "reshape overflow"@
}

/// Entry `i` of a reshape request can stand.
pub open spec fn reshape_entry_ok(new: Seq<isize>, i: int) -> bool {
    &&& !second_infer(new, i)
    &&& new[i] >= -1
    &&& new[i] >= 0 ==> spelled(new.take(i + 1)) <= usize::MAX
}

/// Every entry of a reshape request can stand.
pub open spec fn reshape_entries_ok(new: Seq<isize>) -> bool {
    forall|i: int| 0 <= i < new.len() ==> #[trigger] reshape_entry_ok(new, i)
}

/// Some dimension is to be inferred.
pub open spec fn infers(new: Seq<isize>) -> bool {
    exists|i: int| 0 <= i < new.len() && #[trigger] new[i] == -1
}

/// The dimension that a reshape request leaves to be inferred.
pub open spec fn inferred(old_shape: Seq<usize>, new: Seq<isize>) -> int {
    if spelled(new) == 0 {
        positive_product(ints(old_shape)) as int / positive_product(signed_ints(new)) as int
    } else {
        volume(old_shape) as int / spelled(new)
    }
}

/// The same numbers, as mathematical integers.
pub open spec fn signed_ints(s: Seq<isize>) -> Seq<int> {
    Seq::new(s.len(), |i: int| s[i] as int)
}

/// The message with which a request whose entries can all stand still fails.
pub open spec fn reshape_mismatch(
    old_shape: Seq<usize>,
    new: Seq<isize>,
    message: Seq<char>,
) -> bool {
    let old_numel = volume(old_shape) as int;
    let known = spelled(new);
    if infers(new) {
        if known == 0 {
            old_numel != 0 && message == "cannot infer -1 with a zero dimension"@
        } else {
            old_numel % known != 0 && message == "cannot infer -1: numel "@ + decimal(
                old_numel as nat,
            ) + " not divisible by "@ + decimal(known as nat)
        }
    } else {
        known != old_numel && message == "reshape numel mismatch: "@ + decimal(old_numel as nat)
            + " vs "@ + decimal(known as nat)
    }
}

/// A reshape request that is granted.
pub open spec fn reshape_ok(old_shape: Seq<usize>, new: Seq<isize>) -> bool {
    &&& fits(old_shape)
    &&& reshape_entries_ok(new)
    &&& if infers(new) {
        if spelled(new) == 0 {
            volume(old_shape) == 0
        } else {
            volume(old_shape) as int % spelled(new) == 0
        }
    } else {
        spelled(new) == volume(old_shape)
    }
}

/// The shape that a granted reshape request gives.
pub open spec fn reshaped(old_shape: Seq<usize>, new: Seq<isize>) -> Seq<usize> {
    Seq::new(
        new.len(),
        |i: int|
            if new[i] == -1 {
                inferred(old_shape, new) as usize
            } else {
                new[i] as usize
            },
    )
}

/// The error with which a reshape request is refused.
pub open spec fn reshape_error(
    e: Error,
    old_shape: Seq<usize>,
    new: Seq<isize>,
    op: Seq<char>,
) -> bool {
    if !fits(old_shape) {
        e.says(ErrorKind::Shape, "numel"@, "shape volume overflow"@)
    } else {
        &&& e.kind == ErrorKind::Shape
        &&& e.op@ == op
        &&& if reshape_entries_ok(new) {
            reshape_mismatch(old_shape, new, e.message@)
        } else {
            exists|i: int|
                {
                    &&& 0 <= i < new.len()
                    &&& #[trigger] reshape_fault(new, i, e.message@)
                    &&& forall|j: int| 0 <= j < i ==> #[trigger] reshape_entry_ok(new, j)
                }
        }
    }
}

proof fn lemma_spelled_bound(new: Seq<isize>)
    requires
        reshape_entries_ok(new),
    ensures
        0 <= spelled(new) <= usize::MAX,
    decreases new.len(),
{
    if new.len() > 0 {
        let n = new.len() - 1;
        assert(reshape_entry_ok(new, n));
        assert(new.take(n + 1) =~= new);
        let front = new.drop_last();
        assert forall|i: int| 0 <= i < front.len() implies #[trigger] reshape_entry_ok(
            front,
            i,
        ) by {
            assert(reshape_entry_ok(new, i));
            assert(front.take(i + 1) =~= new.take(i + 1));
            if second_infer(front, i) {
                let j = choose|j: int| 0 <= j < i && #[trigger] front[j] == -1;
                assert(new[j] == -1);
            }
        }
        lemma_spelled_bound(front);
        let a = spelled(front);
        let b = new.last() as int;
        if b >= 0 {
            assert(a * b >= 0) by (nonlinear_arith)
                requires
                    a >= 0,
                    b >= 0,
            ;
        }
    }
}

proof fn lemma_positive_product(s: Seq<int>)
    ensures
        1 <= positive_product(s) <= usize::MAX,
    decreases s.len(),
{
    if s.len() > 0 {
        lemma_positive_product(s.drop_last());
        let p = positive_product(s.drop_last()) as int;
        let d = s.last();
        if d > 0 {
            assert(p * d >= 1) by (nonlinear_arith)
                requires
                    p >= 1,
                    d >= 1,
            ;
        }
    }
}

/// The product of two numbers, held at the greatest `usize`.
pub fn saturating_times(a: usize, b: usize) -> (r: usize)
    ensures
        r == if a * b > usize::MAX {
            usize::MAX as int
        } else {
            a * b
        },
{
    match a.checked_mul(b) {
        Some(p) => p,
        None => usize::MAX,
    }
}

fn positive_product_of(s: &[usize]) -> (r: usize)
    ensures
        r == positive_product(ints(s@)),
{
    let mut p: usize = 1;
    let mut i: usize = 0;
    while i < s.len()
        invariant
            i <= s@.len(),
            p == positive_product(ints(s@).take(i as int)),
        decreases s@.len() - i,
    {
        let d: usize = s[i];
        proof {
            assert(ints(s@).take(i + 1).drop_last() =~= ints(s@).take(i as int));
        }
        if d > 0 {
            p = saturating_times(p, d);
        }
        i = i + 1;
    }
    proof {
        assert(ints(s@).take(i as int) =~= ints(s@));
    }
    p
}

fn positive_product_of_signed(s: &[isize]) -> (r: usize)
    ensures
        r == positive_product(signed_ints(s@)),
{
    let mut p: usize = 1;
    let mut i: usize = 0;
    while i < s.len()
        invariant
            i <= s@.len(),
            p == positive_product(signed_ints(s@).take(i as int)),
        decreases s@.len() - i,
    {
        let d: isize = s[i];
        proof {
            assert(signed_ints(s@).take(i + 1).drop_last() =~= signed_ints(s@).take(i as int));
        }
        if d > 0 {
            p = saturating_times(p, d as usize);
        }
        i = i + 1;
    }
    proof {
        assert(signed_ints(s@).take(i as int) =~= signed_ints(s@));
    }
    p
}

/// Shape that a reshape request asks for. One `-1` is inferred.
pub fn resolve_reshape(old_shape: &[usize], new: &[isize], op: &'static str) -> (r: Result<
    Vec<usize>,
    Error,
>)
    ensures
        r matches Ok(out) ==> reshape_ok(old_shape@, new@) && out@ == reshaped(old_shape@, new@),
        r matches Err(e) ==> !reshape_ok(old_shape@, new@) && reshape_error(
            e,
            old_shape@,
            new@,
            op@,
        ),
{
    let old_numel: usize = match numel(old_shape) {
        Ok(n) => n,
        Err(e) => {
            return Err(e);
        },
    };
    let mut infer: Option<usize> = None;
    let mut known: usize = 1;
    let mut out: Vec<usize> = Vec::new();
    let mut i: usize = 0;
    proof {
        assert(new@.take(0).len() == 0);
    }
    while i < new.len()
        invariant
            i <= new@.len(),
            fits(old_shape@),
            old_numel == volume(old_shape@),
            out@.len() == i,
            known == spelled(new@.take(i as int)),
            infer matches Some(p) ==> p < i && new@[p as int] == -1,
            forall|j: int|
                0 <= j < i ==> (#[trigger] new@[j] == -1 <==> infer == Some(j as usize)),
            forall|j: int| 0 <= j < i ==> #[trigger] reshape_entry_ok(new@, j),
            forall|j: int|
                0 <= j < i && new@[j] != -1 ==> #[trigger] out@[j] == new@[j] as usize,
        decreases new@.len() - i,
    {
        let d: isize = new[i];
        proof {
            assert(new@.take(i + 1).drop_last() =~= new@.take(i as int));
            assert(new@.take(i + 1).last() == d);
        }
        if d == -1 {
            if infer.is_some() {
                proof {
                    let p = infer.unwrap() as int;
                    assert(new@[p] == -1);
                    assert(second_infer(new@, i as int));
                    assert(!reshape_entry_ok(new@, i as int));
                    assert(reshape_fault(new@, i as int, "only one -1 is allowed"@));
                }
                return Err(Error::shape(op, "only one -1 is allowed".to_owned()));
            }
            infer = Some(i);
            out.push(0);
        } else if d < 0 {
            proof {
                assert(!reshape_entry_ok(new@, i as int));
                assert(reshape_fault(new@, i as int, "negative dimension other than -1"@));
            }
            return Err(Error::shape(op, "negative dimension other than -1".to_owned()));
        } else {
            let u: usize = d as usize;
            match known.checked_mul(u) {
                Some(k) => {
                    known = k;
                },
                None => {
                    proof {
                        assert(!reshape_entry_ok(new@, i as int));
                        assert(reshape_fault(new@, i as int, "reshape overflow"@));
                    }
                    return Err(Error::shape(op, "reshape overflow".to_owned()));
                },
            }
            out.push(u);
        }
        i = i + 1;
    }
    proof {
        assert(new@.take(i as int) =~= new@);
        lemma_spelled_bound(new@);
        lemma_positive_product(signed_ints(new@));
        lemma_positive_product(ints(old_shape@));
    }
    match infer {
        Some(p) => {
            assert(new@[p as int] == -1);
            if known == 0 {
                if old_numel != 0 {
                    return Err(
                        Error::shape(op, "cannot infer -1 with a zero dimension".to_owned()),
                    );
                }
                let specified: usize = positive_product_of_signed(new);
                let before: usize = positive_product_of(old_shape);
                out.set(p, before / specified);
            } else if old_numel % known != 0 {
                return Err(
                    Error::shape(
                        op,
                        with_two_numbers(
                            "cannot infer -1: numel ",
                            old_numel,
                            " not divisible by ",
                            known,
                        ),
                    ),
                );
            } else {
                out.set(p, old_numel / known);
            }
        },
        None => {
            assert(!infers(new@));
            if known != old_numel {
                return Err(
                    Error::shape(
                        op,
                        with_two_numbers("reshape numel mismatch: ", old_numel, " vs ", known),
                    ),
                );
            }
        },
    }
    proof {
        assert(out@ =~= reshaped(old_shape@, new@));
    }
    Ok(out)
}

proof fn lemma_reshaped_prefix(old_shape: Seq<usize>, new: Seq<isize>, k: int)
    requires
        reshape_ok(old_shape, new),
        0 <= k <= new.len(),
        0 <= inferred(old_shape, new) <= usize::MAX,
    ensures
        volume(reshaped(old_shape, new).take(k)) == if infers(new.take(k)) {
            spelled(new.take(k)) * inferred(old_shape, new)
        } else {
            spelled(new.take(k))
        },
    decreases k,
{
    let out = reshaped(old_shape, new);
    if k > 0 {
        lemma_reshaped_prefix(old_shape, new, k - 1);
        assert(out.take(k).drop_last() =~= out.take(k - 1));
        assert(new.take(k).drop_last() =~= new.take(k - 1));
        assert(reshape_entry_ok(new, k - 1));
        let s = spelled(new.take(k - 1));
        let g = inferred(old_shape, new);
        let d = new[k - 1] as int;
        if infers(new.take(k - 1)) {
            let j = choose|j: int|
                0 <= j < new.take(k - 1).len() && #[trigger] new.take(k - 1)[j] == -1;
            assert(new[j] == -1);
            assert(new.take(k)[j] == -1);
            assert(d != -1);
            assert((s * g) * d == (s * d) * g) by (nonlinear_arith);
        } else if d == -1 {
            assert(new.take(k)[k - 1] == -1);
        } else {
            if infers(new.take(k)) {
                let j = choose|j: int| 0 <= j < new.take(k).len() && #[trigger] new.take(k)[j] == -1;
                assert(j != k - 1);
                assert(new.take(k - 1)[j] == -1);
            }
        }
    }
}

/// A granted reshape keeps the number of elements.
pub proof fn law_reshape_keeps_volume(old_shape: Seq<usize>, new: Seq<isize>)
    requires
        reshape_ok(old_shape, new),
    ensures
        volume(reshaped(old_shape, new)) == volume(old_shape),
{
    lemma_spelled_bound(new);
    lemma_positive_product(signed_ints(new));
    lemma_positive_product(ints(old_shape));
    let known = spelled(new);
    let n = volume(old_shape) as int;
    assert(old_shape.take(old_shape.len() as int) =~= old_shape);
    if known == 0 {
        let a = positive_product(ints(old_shape)) as int;
        let b = positive_product(signed_ints(new)) as int;
        assert(0 <= a / b <= a) by (nonlinear_arith)
            requires
                a >= 0,
                b >= 1,
        ;
    } else {
        assert(0 <= n / known <= n && (n % known == 0 ==> known * (n / known) == n))
            by (nonlinear_arith)
            requires
                n >= 0,
                known >= 1,
        ;
    }
    lemma_reshaped_prefix(old_shape, new, new.len() as int);
    assert(reshaped(old_shape, new).take(new.len() as int) =~= reshaped(old_shape, new));
    assert(new.take(new.len() as int) =~= new);
    if known == 0 {
        let g = inferred(old_shape, new);
        assert(0 * g == 0) by (nonlinear_arith);
    }
}

/// Whether a dimension is zero.
pub fn has_zero(shape: &[usize]) -> (r: bool)
    ensures
        r == (volume(shape@) == 0),
{
    proof {
        lemma_volume_zero(shape@);
    }
    let mut i: usize = 0;
    while i < shape.len()
        invariant
            i <= shape@.len(),
            forall|j: int| 0 <= j < i ==> #[trigger] shape@[j] != 0,
            volume(shape@) == 0 <==> exists|k: int|
                0 <= k < shape@.len() && #[trigger] shape@[k] == 0,
        decreases shape@.len() - i,
    {
        if shape[i] == 0 {
            assert(shape@[i as int] == 0);
            return true;
        }
        i = i + 1;
    }
    false
}

/// A vector of `n` zeros.
pub fn zero_index(n: usize) -> (r: Vec<usize>)
    ensures
        ints(r@) == crate::index::origin(n as nat),
        r@.len() == n,
{
    let mut v: Vec<usize> = Vec::new();
    let mut i: usize = 0;
    while i < n
        invariant
            i <= n,
            v@.len() == i,
            forall|j: int| 0 <= j < i ==> #[trigger] v@[j] == 0,
        decreases n - i,
    {
        v.push(0);
        i = i + 1;
    }
    proof {
        assert(ints(v@) =~= crate::index::origin(n as nat));
    }
    v
}

/// Moves `idx` to its row-major successor. After the last position it is the origin again, and
/// the answer is `false`.
pub fn advance(shape: &[usize], idx: &mut Vec<usize>) -> (more: bool)
    requires
        in_bounds(shape@, ints(old(idx)@)),
    ensures
        final(idx)@.len() == shape@.len(),
        more ==> in_bounds(shape@, ints(final(idx)@)) && ravel(shape@, ints(final(idx)@)) == ravel(
            shape@,
            ints(old(idx)@),
        ) + 1,
        !more ==> ravel(shape@, ints(old(idx)@)) == volume(shape@) - 1,
{
    let ghost before = ints(old(idx)@);
    let mut k: usize = shape.len();
    while k > 0
        invariant
            k <= shape@.len(),
            idx@.len() == shape@.len(),
            before == ints(old(idx)@),
            in_bounds(shape@, before),
            forall|j: int| 0 <= j < k ==> #[trigger] idx@[j] == before[j],
            forall|j: int| k <= j < shape@.len() ==> #[trigger] idx@[j] == 0,
            forall|j: int| k <= j < shape@.len() ==> #[trigger] before[j] == shape@[j] - 1,
        decreases k,
    {
        k = k - 1;
        assert(0 <= before[k as int] < shape@[k as int]);
        let next: usize = idx[k] + 1;
        if next < shape[k] {
            idx.set(k, next);
            proof {
                let after = ints(idx@);
                crate::index::lemma_successor(shape@, before, after, k as int);
                assert forall|j: int| 0 <= j < shape@.len() implies 0 <= #[trigger] after[j]
                    < shape@[j] by {
                    assert(0 <= before[j] < shape@[j]);
                }
            }
            return true;
        }
        idx.set(k, 0);
    }
    proof {
        crate::index::lemma_last(shape@, before);
    }
    false
}

/// Calls `f` at every position of the box, in row-major order, and gathers what it returns.
pub fn for_each_index<R, F: Fn(&[usize]) -> R>(shape: &[usize], f: F) -> (r: Vec<R>)
    requires
        forall|s: &[usize]| in_bounds(shape@, ints(s@)) ==> #[trigger] call_requires(f, (s,)),
    ensures
        r@.len() == volume(shape@),
        forall|i: int|
            0 <= i < r@.len() ==> called_at(f, crate::index::unravel(shape@, i), #[trigger] r@[i]),
{
    let mut out: Vec<R> = Vec::new();
    if has_zero(shape) {
        return out;
    }
    let mut idx: Vec<usize> = zero_index(shape.len());
    let ghost mut i: int = 0;
    let mut more: bool = true;
    proof {
        crate::index::lemma_origin(shape@, row_strides(shape@));
    }
    while more
        invariant
            out@.len() == i,
            0 <= i <= volume(shape@),
            more ==> in_bounds(shape@, ints(idx@)) && ravel(shape@, ints(idx@)) == i,
            !more ==> i == volume(shape@),
            forall|s: &[usize]| in_bounds(shape@, ints(s@)) ==> #[trigger] call_requires(f, (s,)),
            forall|j: int|
                0 <= j < i ==> called_at(
                    f,
                    crate::index::unravel(shape@, j),
                    #[trigger] out@[j],
                ),
        decreases volume(shape@) - i,
    {
        let y: R = f(idx.as_slice());
        proof {
            crate::index::lemma_ravel(shape@, ints(idx@));
            let s = idx@;
            assert(called_at(f, crate::index::unravel(shape@, i), y));
        }
        out.push(y);
        more = advance(shape, &mut idx);
        proof {
            i = i + 1;
            if more {
                crate::index::lemma_ravel(shape@, ints(idx@));
            }
        }
    }
    out
}

/// `f`, called at the position `idx`, returned `y`.
pub open spec fn called_at<R, F: Fn(&[usize]) -> R>(f: F, idx: Seq<int>, y: R) -> bool {
    exists|s: &[usize]| ints(s@) == idx && #[trigger] call_ensures(f, (s,), y)
}

/// Every slot of a strided walk is a number that the walk can hold.
pub open spec fn walk_fits(base: int, shape: Seq<usize>, strides: Seq<isize>) -> bool {
    &&& strides.len() == shape.len()
    &&& forall|idx: Seq<int>| #[trigger]
        in_bounds(shape, idx) ==> isize::MIN <= base + dot(idx, strides) <= usize::MAX
}

/// Moves `idx` to its row-major successor and `off` along with it.
fn advance_offset(
    shape: &[usize],
    strides: &[isize],
    idx: &mut Vec<usize>,
    off: i128,
    Ghost(base): Ghost<int>,
) -> (r: (bool, i128))
    requires
        walk_fits(base, shape@, strides@.take(shape@.len() as int)),
        shape@.len() <= strides@.len(),
        in_bounds(shape@, ints(old(idx)@)),
        off == base + dot(ints(old(idx)@), strides@.take(shape@.len() as int)),
    ensures
        final(idx)@.len() == shape@.len(),
        r.0 ==> in_bounds(shape@, ints(final(idx)@)) && ravel(shape@, ints(final(idx)@)) == ravel(
            shape@,
            ints(old(idx)@),
        ) + 1 && r.1 == base + dot(ints(final(idx)@), strides@.take(shape@.len() as int)),
        !r.0 ==> ravel(shape@, ints(old(idx)@)) == volume(shape@) - 1,
{
    let ghost before = ints(old(idx)@);
    let ghost st = strides@.take(shape@.len() as int);
    let mut o: i128 = off;
    let mut k: usize = shape.len();
    proof {
        assert(ints(idx@) =~= before);
    }
    while k > 0
        invariant
            k <= shape@.len(),
            shape@.len() <= strides@.len(),
            st == strides@.take(shape@.len() as int),
            idx@.len() == shape@.len(),
            before == ints(old(idx)@),
            in_bounds(shape@, before),
            walk_fits(base, shape@, st),
            o == base + dot(ints(idx@), st),
            forall|j: int| 0 <= j < k ==> #[trigger] idx@[j] == before[j],
            forall|j: int| k <= j < shape@.len() ==> #[trigger] idx@[j] == 0,
            forall|j: int| k <= j < shape@.len() ==> #[trigger] before[j] == shape@[j] - 1,
        decreases k,
    {
        k = k - 1;
        assert(0 <= before[k as int] < shape@[k as int]);
        let ghost here = ints(idx@);
        let next: usize = idx[k] + 1;
        let s: isize = strides[k];
        proof {
            assert forall|j: int| 0 <= j < shape@.len() implies 0 <= #[trigger] here[j]
                < shape@[j] by {
                assert(0 <= before[j] < shape@[j]);
            }
            assert(in_bounds(shape@, here));
            crate::index::lemma_dot_update(here, st, k as int, next as int);
            assert(1 * s == s) by (nonlinear_arith);
        }
        o = o + s as i128;
        idx.set(k, next);
        proof {
            assert(ints(idx@) =~= here.update(k as int, next as int));
        }
        if next < shape[k] {
            proof {
                let after = ints(idx@);
                crate::index::lemma_successor(shape@, before, after, k as int);
                assert forall|j: int| 0 <= j < shape@.len() implies 0 <= #[trigger] after[j]
                    < shape@[j] by {
                    assert(0 <= before[j] < shape@[j]);
                }
            }
            return (true, o);
        }
        proof {
            let beyond = ints(idx@);
            let d = shape@[k as int];
            lemma_step_product(d, s);
            crate::index::lemma_dot_update(beyond, st, k as int, 0);
            assert((0 - d) * s == -(s * d)) by (nonlinear_arith);
            assert(d * s == s * d) by (nonlinear_arith);
            let cleared = beyond.update(k as int, 0);
            assert forall|j: int| 0 <= j < shape@.len() implies 0 <= #[trigger] cleared[j]
                < shape@[j] by {
                assert(0 <= before[j] < shape@[j]);
            }
            assert(in_bounds(shape@, cleared));
        }
        o = o - (s as i128) * (shape[k] as i128);
        idx.set(k, 0);
        proof {
            assert(ints(idx@) =~= here.update(k as int, next as int).update(k as int, 0));
        }
    }
    proof {
        crate::index::lemma_last(shape@, before);
    }
    (false, o)
}

/// Calls `f` with the storage slot of every position, in row-major order, and gathers what it
/// returns. The slot is carried along from one position to the next.
pub fn for_each_offset<R, F: Fn(usize) -> R>(
    base: usize,
    shape: &[usize],
    strides: &[isize],
    f: F,
) -> (r: Vec<R>)
    requires
        volume(shape@) > 0 ==> shape@.len() <= strides@.len() && walk_fits(
            base as int,
            shape@,
            strides@.take(shape@.len() as int),
        ),
        forall|i: int|
            0 <= i < volume(shape@) ==> call_requires(
                f,
                (#[trigger] slot_at(base as int, shape@, strides@, i),),
            ),
    ensures
        r@.len() == volume(shape@),
        forall|i: int|
            0 <= i < r@.len() ==> call_ensures(
                f,
                (slot_at(base as int, shape@, strides@, i),),
                #[trigger] r@[i],
            ),
{
    let mut out: Vec<R> = Vec::new();
    if has_zero(shape) {
        return out;
    }
    let mut idx: Vec<usize> = zero_index(shape.len());
    let ghost mut i: int = 0;
    let ghost st = strides@.take(shape@.len() as int);
    let mut off: i128 = base as i128;
    let mut more: bool = true;
    proof {
        crate::index::lemma_origin(shape@, st);
    }
    while more
        invariant
            out@.len() == i,
            0 <= i <= volume(shape@),
            st == strides@.take(shape@.len() as int),
            shape@.len() <= strides@.len(),
            walk_fits(base as int, shape@, st),
            more ==> in_bounds(shape@, ints(idx@)) && ravel(shape@, ints(idx@)) == i && off == base
                + dot(ints(idx@), st),
            !more ==> i == volume(shape@),
            forall|i: int|
                0 <= i < volume(shape@) ==> call_requires(
                    f,
                    (#[trigger] slot_at(base as int, shape@, strides@, i),),
                ),
            forall|j: int|
                0 <= j < i ==> call_ensures(
                    f,
                    (slot_at(base as int, shape@, strides@, j),),
                    #[trigger] out@[j],
                ),
        decreases volume(shape@) - i,
    {
        proof {
            crate::index::lemma_ravel(shape@, ints(idx@));
            assert(off as usize == slot_at(base as int, shape@, strides@, i));
        }
        let y: R = f(off as usize);
        out.push(y);
        let step: (bool, i128) = advance_offset(shape, strides, &mut idx, off, Ghost(base as int));
        more = step.0;
        off = step.1;
        proof {
            i = i + 1;
            if more {
                crate::index::lemma_ravel(shape@, ints(idx@));
            }
        }
    }
    out
}

/// Storage slot of the position of rank `i`.
pub open spec fn slot_at(base: int, shape: Seq<usize>, strides: Seq<isize>, i: int) -> usize {
    (base + dot(crate::index::unravel(shape, i), strides.take(shape.len() as int))) as usize
}

/// Axis `j` lies packed in storage: it has one place, or one place follows the other without a gap.
pub open spec fn packs(shape: Seq<usize>, strides: Seq<isize>, j: int) -> bool {
    shape[j] == 1 || strides[j] == volume(shape.skip(j + 1))
}

/// The axes from `k` on lie packed in storage.
pub open spec fn dense_from(shape: Seq<usize>, strides: Seq<isize>, k: int) -> bool {
    forall|j: int| k <= j < shape.len() ==> #[trigger] packs(shape, strides, j)
}

/// The axes from `k` on are the longest packed tail.
pub open spec fn run_start(shape: Seq<usize>, strides: Seq<isize>, k: int) -> bool {
    &&& 0 <= k <= shape.len()
    &&& dense_from(shape, strides, k)
    &&& k > 0 ==> !packs(shape, strides, k - 1)
}

/// Splits a layout into contiguous inner runs: calls `f` with the first slot and the length of each
/// maximal run of elements that are unit-stride in storage, in row-major order, and gathers what it
/// returns.
pub fn for_each_run<R, F: Fn(usize, usize) -> R>(
    base: usize,
    shape: &[usize],
    strides: &[isize],
    f: F,
) -> (r: Vec<R>)
    requires
        volume(shape@) > 0 ==> shape@.len() <= strides@.len() && walk_fits(
            base as int,
            shape@,
            strides@.take(shape@.len() as int),
        ),
        volume(shape@) > 0 ==> forall|k: int| #[trigger]
            run_start(shape@, strides@, k) ==> volume(shape@.skip(k)) <= isize::MAX,
        volume(shape@) > 0 ==> forall|k: int| #[trigger]
            run_start(shape@, strides@, k) ==> runs_callable(base as int, shape@, strides@, k, f),
    ensures
        volume(shape@) == 0 ==> r@.len() == 0,
        volume(shape@) > 0 ==> exists|k: int| #[trigger]
            run_start(shape@, strides@, k) && runs_called(base as int, shape@, strides@, k, f, r@),
{
    if has_zero(shape) {
        return Vec::new();
    }
    let rank: usize = shape.len();
    let mut run: usize = 1;
    let mut split: usize = rank;
    let mut done: bool = false;
    proof {
        assert(shape@.skip(rank as int) =~= Seq::<usize>::empty());
        lemma_volume_zero(shape@);
    }
    while split > 0 && !done
        invariant
            split <= rank,
            rank == shape@.len(),
            rank <= strides@.len(),
            run == volume(shape@.skip(split as int)),
            volume(shape@) > 0,
            dense_from(shape@, strides@, split as int),
            done ==> run_start(shape@, strides@, split as int),
            forall|k: int| #[trigger]
                run_start(shape@, strides@, k) ==> volume(shape@.skip(k)) <= isize::MAX,
        decreases split, !done as int,
    {
        let k: usize = split - 1;
        proof {
            assert(shape@.skip(k as int).skip(1) =~= shape@.skip(split as int));
            lemma_volume_first(shape@.skip(k as int));
            lemma_tail_bound(shape@, strides@, split as int);
        }
        if shape[k] == 1 || (run <= isize::MAX as usize && strides[k] == run as isize) {
            proof {
                assert(packs(shape@, strides@, k as int));
                assert(dense_from(shape@, strides@, k as int));
                lemma_tail_bound(shape@, strides@, k as int);
                let a = shape@[k as int] as int;
                let b = run as int;
                assert(a * b == b * a) by (nonlinear_arith);
            }
            run = run * shape[k];
            split = k;
        } else {
            assert(!packs(shape@, strides@, k as int));
            done = true;
        }
    }
    let ghost at = split as int;
    proof {
        lemma_outer_walk(base as int, shape@, strides@.take(rank as int), at);
        assert(strides@.take(rank as int).take(at) =~= strides@.take(at));
        assert(strides@.subrange(0, at) =~= strides@.take(at));
        assert(shape@.subrange(0, at) =~= shape@.take(at));
        assert(strides@.take(at).take(at) =~= strides@.take(at));
        assert(run_start(shape@, strides@, at));
    }
    let outer_shape: &[usize] = vstd::slice::slice_subrange(shape, 0, split);
    let outer_strides: &[isize] = vstd::slice::slice_subrange(strides, 0, split);
    let same = |off: usize| -> (y: usize)
        ensures
            y == off
    {
        off
    };
    let starts: Vec<usize> = for_each_offset(base, outer_shape, outer_strides, same);
    let mut out: Vec<R> = Vec::new();
    let mut i: usize = 0;
    while i < starts.len()
        invariant
            i <= starts@.len(),
            out@.len() == i,
            run == volume(shape@.skip(at)),
            starts@.len() == volume(shape@.take(at)),
            forall|j: int|
                0 <= j < starts@.len() ==> #[trigger] starts@[j] == slot_at(
                    base as int,
                    shape@.take(at),
                    strides@.take(at),
                    j,
                ),
            volume(shape@.skip(at)) <= usize::MAX,
            runs_callable(base as int, shape@, strides@, at, f),
            forall|j: int|
                0 <= j < i ==> call_ensures(
                    f,
                    (
                        slot_at(base as int, shape@.take(at), strides@.take(at), j),
                        volume(shape@.skip(at)) as usize,
                    ),
                    #[trigger] out@[j],
                ),
        decreases starts@.len() - i,
    {
        assert(starts@[i as int] == slot_at(
            base as int,
            shape@.take(at),
            strides@.take(at),
            i as int,
        ));
        assert(run_at(base as int, shape@, strides@, at, i as int) == (starts@[i as int], run));
        let y: R = f(starts[i], run);
        out.push(y);
        i = i + 1;
    }
    proof {
        assert(runs_called(base as int, shape@, strides@, at, f, out@));
    }
    out
}

/// The first slot and the length of run `i` of the axes from `k` on.
pub open spec fn run_at(
    base: int,
    shape: Seq<usize>,
    strides: Seq<isize>,
    k: int,
    i: int,
) -> (usize, usize) {
    (slot_at(base, shape.take(k), strides.take(k), i), volume(shape.skip(k)) as usize)
}

/// `f` can be called for every run of the axes from `k` on.
pub open spec fn runs_callable<R, F: Fn(usize, usize) -> R>(
    base: int,
    shape: Seq<usize>,
    strides: Seq<isize>,
    k: int,
    f: F,
) -> bool {
    forall|i: int|
        0 <= i < volume(shape.take(k)) ==> call_requires(
            f,
            #[trigger] run_at(base, shape, strides, k, i),
        )
}

/// `f` was called for every run of the axes from `k` on.
pub open spec fn runs_called<R, F: Fn(usize, usize) -> R>(
    base: int,
    shape: Seq<usize>,
    strides: Seq<isize>,
    k: int,
    f: F,
    r: Seq<R>,
) -> bool {
    &&& r.len() == volume(shape.take(k))
    &&& forall|i: int|
        0 <= i < r.len() ==> call_ensures(
            f,
            (slot_at(base, shape.take(k), strides.take(k), i), volume(shape.skip(k)) as usize),
            #[trigger] r[i],
        )
}

proof fn lemma_tail_bound(shape: Seq<usize>, strides: Seq<isize>, k: int)
    requires
        0 <= k <= shape.len() <= strides.len(),
        volume(shape) > 0,
        dense_from(shape, strides, k),
        forall|k: int| #[trigger]
            run_start(shape, strides, k) ==> volume(shape.skip(k)) <= isize::MAX,
    ensures
        0 < volume(shape.skip(k)) <= isize::MAX,
    decreases k,
{
    assert(shape.take(k) + shape.skip(k) =~= shape);
    crate::index::lemma_volume_concat(shape.take(k), shape.skip(k));
    let a = volume(shape.take(k)) as int;
    let b = volume(shape.skip(k)) as int;
    assert(0 < b && 0 < a) by (nonlinear_arith)
        requires
            a * b > 0,
            a >= 0,
            b >= 0,
    ;
    if k > 0 && packs(shape, strides, k - 1) {
        assert(dense_from(shape, strides, k - 1));
        lemma_tail_bound(shape, strides, k - 1);
        let tail = shape.skip(k - 1);
        assert(tail.skip(1) =~= shape.skip(k));
        lemma_volume_first(tail);
        let d = tail[0] as int;
        assert(d * b >= b) by (nonlinear_arith)
            requires
                d * b > 0,
                b > 0,
        ;
    } else {
        assert(run_start(shape, strides, k));
    }
}

proof fn lemma_outer_walk(base: int, shape: Seq<usize>, strides: Seq<isize>, k: int)
    requires
        walk_fits(base, shape, strides),
        0 <= k <= shape.len(),
        volume(shape) > 0,
    ensures
        walk_fits(base, shape.take(k), strides.take(k)),
        volume(shape.take(k)) > 0,
{
    lemma_volume_prefix(shape, k);
    lemma_volume_zero(shape);
    let n = (shape.len() - k) as nat;
    let rest = crate::index::origin(n);
    assert forall|idx: Seq<int>| #[trigger] in_bounds(shape.take(k), idx) implies isize::MIN <= base
        + dot(idx, strides.take(k)) <= usize::MAX by {
        let whole = idx + rest;
        assert forall|j: int| 0 <= j < shape.len() implies 0 <= #[trigger] whole[j] < shape[j] by {
            if j < k {
                assert(whole[j] == idx[j]);
                assert(shape.take(k)[j] == shape[j]);
            }
        }
        assert(in_bounds(shape, whole));
        crate::index::lemma_dot_concat(idx, strides.take(k), rest, strides.skip(k));
        crate::index::lemma_origin_dot(strides.skip(k));
        assert(strides.take(k) + strides.skip(k) =~= strides);
    }
}

/// The runs, laid end to end, are the walk: position `p` lies `p % run` into run `p / run`.
pub proof fn law_runs_cover(base: int, shape: Seq<usize>, strides: Seq<isize>, k: int, p: int)
    requires
        strides.len() == shape.len(),
        run_start(shape, strides, k),
        0 <= p < volume(shape),
    ensures
        volume(shape.skip(k)) > 0,
        0 <= p / (volume(shape.skip(k)) as int) < volume(shape.take(k)),
        base + dot(crate::index::unravel(shape, p), strides) == base + dot(
            crate::index::unravel(shape.take(k), p / (volume(shape.skip(k)) as int)),
            strides.take(k),
        ) + p % (volume(shape.skip(k)) as int),
{
    let outer = shape.take(k);
    let inner = shape.skip(k);
    assert(outer + inner =~= shape);
    crate::index::lemma_volume_concat(outer, inner);
    let v = volume(inner) as int;
    let u = volume(outer) as int;
    assert(v > 0 && 0 <= p / v < u && 0 <= p % v < v) by (nonlinear_arith)
        requires
            0 <= p < u * v,
            u >= 0,
            v >= 0,
    ;
    crate::index::lemma_unravel_concat(outer, inner, p);
    let a = crate::index::unravel(outer, p / v);
    let b = crate::index::unravel(inner, p % v);
    crate::index::lemma_unravel(outer, p / v);
    crate::index::lemma_unravel(inner, p % v);
    crate::index::lemma_dot_concat(a, strides.take(k), b, strides.skip(k));
    assert(strides.take(k) + strides.skip(k) =~= strides);
    assert forall|j: int| 0 <= j < inner.len() implies #[trigger] b[j] * strides.skip(k)[j] == b[j]
        * (volume(inner.skip(j + 1)) * 1) by {
        assert(inner.skip(j + 1) =~= shape.skip(k + j + 1));
        assert(packs(shape, strides, k + j));
        assert(0 <= b[j] < inner[j]);
        let w = volume(inner.skip(j + 1)) as int;
        assert(w * 1 == w) by (nonlinear_arith);
        if inner[j] == 1 {
            let st = strides.skip(k)[j] as int;
            assert(0 * st == 0 && 0 * w == 0) by (nonlinear_arith);
        }
    }
    lemma_dot_scaled(inner, strides.skip(k), b, 1);
    let r = ravel(inner, b);
    assert(r * 1 == r) by (nonlinear_arith);
}

/// A row-major layout is one run: it starts at the base and holds every element.
pub proof fn law_row_major_is_one_run(base: usize, shape: Seq<usize>, k: int)
    requires
        run_start(shape, row_strides(shape), k),
        volume(shape) <= isize::MAX,
        volume(shape) > 0,
    ensures
        volume(shape.take(k)) == 1,
        volume(shape.skip(k)) == volume(shape),
        slot_at(base as int, shape.take(k), row_strides(shape).take(k), 0) == base,
{
    let strides = row_strides(shape);
    if k > 0 {
        let rest = shape.skip(k);
        assert(shape.take(k) + rest =~= shape);
        crate::index::lemma_volume_concat(shape.take(k), rest);
        let a = volume(shape.take(k)) as int;
        let b = volume(rest) as int;
        assert(0 < b <= a * b) by (nonlinear_arith)
            requires
                a * b > 0,
                a >= 0,
                b >= 0,
        ;
        lemma_pitch(rest);
        assert(packs(shape, strides, k - 1));
    }
    assert(shape.take(0) =~= Seq::<usize>::empty());
    assert(shape.skip(0) =~= shape);
    assert(crate::index::unravel(shape.take(0), 0) =~= Seq::<int>::empty());
}

} // verus!
