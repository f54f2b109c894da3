//! Work splitting across cores.
use vstd::prelude::*;

use rayon::iter::{IntoParallelIterator, ParallelIterator};

verus! {

/// Below this element count, threading costs more than it saves.
pub const PAR_MIN: usize = 32768;

/// Number of worker threads the kernels will use.
///
/// Stands for `rayon::current_num_threads`. The number rests on the machine and on how the pool
/// was set up: nothing is stated of it.
#[verifier::external_body]
pub fn thread_count() -> usize {
    rayon::current_num_threads()
}

/// What `f` returns for every number below `n`, in order, computed in parallel.
///
/// Stands for `map` and `collect` on the indexed parallel iterator of a range: item `i` of what is
/// collected is what one call of `f` returned for `i`.
#[verifier::external_body]
fn collect_parallel<T: Send, F: Fn(usize) -> T + Sync + Send>(n: usize, f: F) -> (r: Vec<T>)
    requires
        forall|i: usize| i < n ==> #[trigger] call_requires(f, (i,)),
    ensures
        r@.len() == n,
        forall|i: int| 0 <= i < n ==> call_ensures(f, (i as usize,), #[trigger] r@[i]),
{
    (0..n).into_par_iter().map(f).collect()
}

/// `a / b`, rounded up.
pub open spec fn ceiling(a: int, b: int) -> int {
    if a % b == 0 {
        a / b
    } else {
        a / b + 1
    }
}

/// `n / d`, rounded up.
pub fn div_ceil(n: usize, d: usize) -> (r: usize)
    requires
        d > 0,
    ensures
        r == ceiling(n as int, d as int),
        r * d >= n,
        r > 0 ==> (r - 1) * d < n,
        r <= n,
{
    let q: usize = n / d;
    let rest: usize = n % d;
    proof {
        assert(n == q * d + rest && 0 <= rest < d && q <= n && (q + 1) * d == q * d + d && (rest > 0
            ==> q < n) && (q - 1) * d == q * d - d) by (nonlinear_arith)
            requires
                d > 0,
                q == n / d,
                rest == n % d,
                0 <= n,
        ;
    }
    if rest == 0 {
        q
    } else {
        q + 1
    }
}

/// Chunk length for `n` elements on `threads` threads: an even share of at least 1024, rounded up
/// to a multiple of 16.
pub fn chunk_len(n: usize, threads: usize) -> (r: usize)
    requires
        n <= usize::MAX - 16,
    ensures
        ({
            let workers = if threads == 0 {
                1
            } else {
                threads as int
            };
            let share = ceiling(n as int, workers);
            r == 16 * ceiling(
                if share < 1024 {
                    1024
                } else {
                    share
                },
                16,
            )
        }),
        r >= 1024,
{
    let workers: usize = if threads == 0 {
        1
    } else {
        threads
    };
    let share: usize = div_ceil(n, workers);
    let chunk: usize = if share < 1024 {
        1024
    } else {
        share
    };
    div_ceil(chunk, 16) * 16
}

/// What `f` returns for `lo`, `lo + 1`, and so on, up to but not at `hi`.
fn span<U, F: Fn(usize) -> U>(lo: usize, hi: usize, f: &F) -> (r: Vec<U>)
    requires
        lo <= hi,
        forall|i: usize| lo <= i < hi ==> #[trigger] call_requires(*f, (i,)),
    ensures
        r@.len() == hi - lo,
        forall|i: int|
            0 <= i < hi - lo ==> call_ensures(*f, ((lo + i) as usize,), #[trigger] r@[i]),
{
    let mut out: Vec<U> = Vec::with_capacity(hi - lo);
    let mut i: usize = lo;
    while i < hi
        invariant
            lo <= i <= hi,
            out@.len() == i - lo,
            forall|i: usize| lo <= i < hi ==> #[trigger] call_requires(*f, (i,)),
            forall|j: int|
                0 <= j < i - lo ==> call_ensures(*f, ((lo + j) as usize,), #[trigger] out@[j]),
        decreases hi - i,
    {
        out.push(f(i));
        i = i + 1;
    }
    out
}

/// What `f` returns for every number below `n`, in order, computed in parallel blocks.
fn blocks<U: Send, F: Fn(usize) -> U + Sync + Send>(n: usize, block: usize, f: F) -> (r: Vec<U>)
    requires
        block > 0,
        forall|i: usize| i < n ==> #[trigger] call_requires(f, (i,)),
    ensures
        r@.len() == n,
        forall|i: int| 0 <= i < n ==> call_ensures(f, (i as usize,), #[trigger] r@[i]),
{
    let count: usize = div_ceil(n, block);
    let g = &f;
    let task = |c: usize| -> (v: Vec<U>)
        requires
            c < count,
            block > 0,
            count > 0 ==> (count - 1) * block < n,
            forall|i: usize| i < n ==> #[trigger] call_requires(*g, (i,))
        ensures
            v@.len() == block_end(n as int, block as int, c as int) - c * block,
            forall|j: int|
                0 <= j < v@.len() ==> call_ensures(
                    *g,
                    ((c * block + j) as usize,),
                    #[trigger] v@[j],
                )
    {
        proof {
            assert(c * block <= (count - 1) * block && c * block >= 0) by (nonlinear_arith)
                requires
                    0 <= c < count,
                    block > 0,
            ;
        }
        let lo: usize = c * block;
        let hi: usize = if n - lo < block {
            n
        } else {
            lo + block
        };
        span(lo, hi, g)
    };
    let mut parts: Vec<Vec<U>> = collect_parallel(count, task);
    let ghost whole = parts@;
    let mut out: Vec<U> = Vec::with_capacity(n);
    let mut c: usize = 0;
    proof {
        assert(0 * block == 0) by (nonlinear_arith);
    }
    while c < count
        invariant
            c <= count,
            block > 0,
            count * block >= n,
            count > 0 ==> (count - 1) * block < n,
            parts@.len() == count,
            whole.len() == count,
            forall|i: int| 0 <= i < count ==> call_ensures(task, (i as usize,), #[trigger] whole[i]),
            forall|i: int| c <= i < count ==> #[trigger] parts@[i] == whole[i],
            out@.len() == if c == count {
                n as int
            } else {
                c * block
            },
            forall|c: usize, v: Vec<U>| #[trigger]
                call_ensures(task, (c,), v) ==> {
                    &&& v@.len() == block_end(n as int, block as int, c as int) - c * block
                    &&& forall|j: int|
                        0 <= j < v@.len() ==> call_ensures(
                            f,
                            ((c * block + j) as usize,),
                            #[trigger] v@[j],
                        )
                },
            forall|i: int|
                0 <= i < out@.len() ==> call_ensures(f, (i as usize,), #[trigger] out@[i]),
        decreases count - c,
    {
        let ghost before = out@;
        let mut part: Vec<U> = Vec::new();
        std::mem::swap(&mut part, &mut parts[c]);
        let ghost piece = part@;
        proof {
            assert(call_ensures(task, (c,), whole[c as int]));
            let k = c as int;
            let b = block as int;
            assert((k + 1) * b == k * b + b) by (nonlinear_arith);
            if c + 1 == count {
                assert(count * block == c * block + block);
            } else {
                assert((c + 1) * block <= (count - 1) * block) by (nonlinear_arith)
                    requires
                        c + 1 <= count - 1,
                        block > 0,
                ;
            }
        }
        out.append(&mut part);
        proof {
            assert forall|i: int| 0 <= i < out@.len() implies call_ensures(
                f,
                (i as usize,),
                #[trigger] out@[i],
            ) by {
                if i < before.len() {
                    assert(out@[i] == before[i]);
                } else {
                    assert(out@[i] == piece[i - before.len()]);
                }
            }
        }
        c = c + 1;
    }
    out
}

/// Where block `c` of `n` items ends.
pub open spec fn block_end(n: int, block: int, c: int) -> int {
    if n - c * block < block {
        n
    } else {
        c * block + block
    }
}

/// What `f` returns for every number below `n`, in order; in parallel above [`PAR_MIN`].
pub fn par_fill<U: Send, F: Fn(usize) -> U + Sync + Send>(n: usize, f: F) -> (r: Vec<U>)
    requires
        forall|i: usize| i < n ==> #[trigger] call_requires(f, (i,)),
    ensures
        r@.len() == n,
        forall|i: int| 0 <= i < n ==> call_ensures(f, (i as usize,), #[trigger] r@[i]),
{
    if n < PAR_MIN || n > usize::MAX - 16 {
        return span(0, n, &f);
    }
    let chunk: usize = chunk_len(n, thread_count());
    blocks(n, chunk, f)
}

} // verus!
