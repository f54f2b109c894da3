//! Seeded standard-normal numbers.
use vstd::prelude::*;
use crate::error::Error;
use crate::index::{fits, volume};
use crate::rules::from_f32s_out;
use crate::scalar::{is_product, is_quotient, is_ratio, Arith, Scalars};
use crate::shape::numel;
use crate::tensor::{numel_error, outcome, Outcome, Tensor};

verus! {

/// The multiplier of the generator.
pub const MULTIPLIER: u64 = 0x2545_f491_4f6c_dd1d;

/// The state of the generator after `s`.
pub open spec fn next_state(s: u64) -> u64 {
    let a = s ^ (s >> 12u64);
    let b = a ^ (a << 25u64);
    let c = b ^ (b >> 27u64);
    c.wrapping_mul(MULTIPLIER)
}

/// The state after `k` draws.
pub open spec fn state_after(seed: u64, k: nat) -> u64
    decreases k,
{
    if k == 0 {
        seed | 1
    } else {
        next_state(state_after(seed, (k - 1) as nat))
    }
}

fn advance_state(s: u64) -> (r: u64)
    ensures
        r == next_state(s),
{
    let a: u64 = s ^ (s >> 12u64);
    let b: u64 = a ^ (a << 25u64);
    let c: u64 = b ^ (b >> 27u64);
    c.wrapping_mul(MULTIPLIER)
}

/// `u` is the number between zero and one that a state stands for: its upper 53 bits over `2^53`.
pub open spec fn uniform_of<S: Scalars>(state: u64, u: S::D) -> bool {
    exists|n: S::D, d: S::D| #[trigger]
        call_ensures(S::natural_f64, (state >> 11u64,), n) && #[trigger] call_ensures(
            S::natural_f64,
            (0x20_0000_0000_0000u64,),
            d,
        ) && is_quotient::<S::D, S>(n, d, u)
}

fn uniform_scalar<S: Scalars>(state: u64) -> (u: S::D)
    ensures
        uniform_of::<S>(state, u),
{
    let n: S::D = S::natural_f64(state >> 11u64);
    let d: S::D = S::natural_f64(0x20_0000_0000_0000u64);
    <S as Arith<S::D>>::over(n, d)
}

/// The numbers on the way from two uniform numbers to two normal ones.
pub ghost struct NormalSteps<D> {
    pub floor: D,
    pub u1: D,
    pub logarithm: D,
    pub minus_two: D,
    pub square: D,
    pub radius: D,
    pub two: D,
    pub pi: D,
    pub turn: D,
    pub angle: D,
    pub cosine: D,
    pub first: D,
}

/// The radius is `sqrt(-2 ln(max(u, 1e-12)))`, the angle `2 pi u2`, and the first number the radius
/// times the angle's cosine.
pub open spec fn normal_steps<D, A: Arith<D>>(u: D, u2: D, w: NormalSteps<D>) -> bool {
    &&& is_ratio::<D, A>(1, 1000000000000, w.floor)
    &&& call_ensures(A::greater, (u, w.floor), w.u1)
    &&& call_ensures(A::logarithm, (w.u1,), w.logarithm)
    &&& is_ratio::<D, A>((-2) as i64, 1, w.minus_two)
    &&& is_product::<D, A>(w.minus_two, w.logarithm, w.square)
    &&& call_ensures(A::root, (w.square,), w.radius)
    &&& is_ratio::<D, A>(2, 1, w.two)
    &&& is_ratio::<D, A>(3141592653589793, 1000000000000000, w.pi)
    &&& is_product::<D, A>(w.two, w.pi, w.turn)
    &&& is_product::<D, A>(w.turn, u2, w.angle)
    &&& call_ensures(A::cosine, (w.angle,), w.cosine)
    &&& is_product::<D, A>(w.radius, w.cosine, w.first)
}

/// The second number is the radius times the angle's sine.
pub open spec fn second_normal<S: Scalars>(w: NormalSteps<S::D>, y: S::F) -> bool {
    exists|s: S::D, p: S::D| #[trigger]
        call_ensures(<S as Arith<S::D>>::sine, (w.angle,), s) && #[trigger] is_product::<S::D, S>(
            w.radius,
            s,
            p,
        ) && call_ensures(S::narrow, (p,), y)
}

/// Numbers `2j` and, where it is asked for, `2j + 1` come of draws `2j + 1` and `2j + 2`.
pub open spec fn pair_of_draws<S: Scalars>(seed: u64, j: nat, v: Seq<S::F>) -> bool {
    exists|u: S::D, u2: S::D, w: NormalSteps<S::D>|
        {
            &&& uniform_of::<S>(state_after(seed, 2 * j + 1), u)
            &&& uniform_of::<S>(state_after(seed, 2 * j + 2), u2)
            &&& #[trigger] normal_steps::<S::D, S>(u, u2, w)
            &&& call_ensures(S::narrow, (w.first,), v[(2 * j) as int])
            &&& 2 * j + 1 < v.len() ==> second_normal::<S>(w, v[(2 * j + 1) as int])
        }
}

/// All numbers come of their draws.
pub open spec fn normals<S: Scalars>(seed: u64, v: Seq<S::F>) -> bool {
    forall|j: nat| 2 * j < v.len() ==> #[trigger] pair_of_draws::<S>(seed, j, v)
}

/// What `randn_f32` comes to.
pub open spec fn randn_f32_out<S: Scalars>(shape: Seq<usize>, seed: u64, r: Outcome<S>) -> bool {
    if !fits(shape) {
        r is Err && numel_error(r->Err_0)
    } else {
        exists|v: Seq<S::F>| #[trigger]
            normals::<S>(seed, v) && v.len() == volume(shape) && from_f32s_out::<S>(v, shape, r)
    }
}

/// Seeded standard-normal 32-bit tensor (Box-Muller, no global generator).
pub fn randn_f32<S: Scalars>(shape: &[usize], seed: u64) -> (r: Result<Tensor<S>, Error>)
    ensures
        randn_f32_out::<S>(shape@, seed, outcome(r)),
{
    let n: usize = match numel(shape) {
        Ok(n) => n,
        Err(e) => {
            return Err(e);
        },
    };
    proof {
        assert(shape@.take(shape@.len() as int) =~= shape@);
    }
    let mut state: u64 = seed | 1;
    let mut v: Vec<S::F> = Vec::new();
    let ghost mut j: nat = 0;
    while v.len() < n
        invariant
            v@.len() <= n,
            v@.len() == 2 * j || v@.len() == n,
            v@.len() <= 2 * j,
            state == state_after(seed, 2 * j),
            forall|k: nat| k < j ==> #[trigger] pair_of_draws::<S>(seed, k, v@),
        decreases n - v@.len(),
    {
        let ghost before = v@;
        let first: u64 = advance_state(state);
        let second: u64 = advance_state(first);
        proof {
            assert(state_after(seed, 2 * j + 1) == first);
            assert(state_after(seed, 2 * j + 2) == second);
        }
        state = second;
        let u: S::D = uniform_scalar::<S>(first);
        let floor: S::D = <S as Arith<S::D>>::ratio(1, 1000000000000);
        let u1: S::D = <S as Arith<S::D>>::greater(u, floor);
        let u2: S::D = uniform_scalar::<S>(second);
        let logarithm: S::D = <S as Arith<S::D>>::logarithm(u1);
        let minus_two: S::D = <S as Arith<S::D>>::ratio(-2, 1);
        let square: S::D = <S as Arith<S::D>>::times(minus_two, logarithm);
        let radius: S::D = <S as Arith<S::D>>::root(square);
        let two: S::D = <S as Arith<S::D>>::ratio(2, 1);
        let pi: S::D = <S as Arith<S::D>>::ratio(3141592653589793, 1000000000000000);
        let turn: S::D = <S as Arith<S::D>>::times(two, pi);
        let angle: S::D = <S as Arith<S::D>>::times(turn, u2);
        let cosine: S::D = <S as Arith<S::D>>::cosine(angle);
        let one: S::D = <S as Arith<S::D>>::times(radius, cosine);
        let ghost w = NormalSteps {
            floor,
            u1,
            logarithm,
            minus_two,
            square,
            radius,
            two,
            pi,
            turn,
            angle,
            cosine,
            first: one,
        };
        assert(normal_steps::<S::D, S>(u, u2, w));
        let a: S::F = S::narrow(one);
        v.push(a);
        if v.len() < n {
            let sine: S::D = <S as Arith<S::D>>::sine(angle);
            let other: S::D = <S as Arith<S::D>>::times(radius, sine);
            let b: S::F = S::narrow(other);
            assert(is_product::<S::D, S>(w.radius, sine, other));
            assert(second_normal::<S>(w, b));
            v.push(b);
        }
        proof {
            assert(pair_of_draws::<S>(seed, j, v@));
            assert forall|k: nat| k < j + 1 implies #[trigger] pair_of_draws::<S>(seed, k, v@) by {
                if k < j {
                    assert(pair_of_draws::<S>(seed, k, before));
                    let (a0, b0, w0) = choose|u: S::D, u2: S::D, w: NormalSteps<S::D>|
                        {
                            &&& uniform_of::<S>(state_after(seed, 2 * k + 1), u)
                            &&& uniform_of::<S>(state_after(seed, 2 * k + 2), u2)
                            &&& #[trigger] normal_steps::<S::D, S>(u, u2, w)
                            &&& call_ensures(S::narrow, (w.first,), before[(2 * k) as int])
                            &&& 2 * k + 1 < before.len() ==> second_normal::<S>(
                                w,
                                before[(2 * k + 1) as int],
                            )
                        };
                    assert(normal_steps::<S::D, S>(a0, b0, w0));
                }
            }
            j = j + 1;
        }
    }
    assert(normals::<S>(seed, v@));
    let r: Result<Tensor<S>, Error> = Tensor::from_slice_f32(v.as_slice(), shape);
    assert(from_f32s_out::<S>(v@, shape@, outcome(r)));
    r
}

} // verus!
