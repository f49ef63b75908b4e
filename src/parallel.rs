//! Work distribution: splitting a slice into contiguous chunks.

use vstd::prelude::*;

verus! {

/// Relies on rayon's `current_num_threads`: the size of the worker pool,
/// which rayon's builder never sets below one.
#[verifier::external_body]
pub(crate) fn current_num_threads() -> (r: usize)
    ensures
        r >= 1,
{
    rayon::current_num_threads()
}

/// The chunk length for `n` elements and `t` workers: `max(n / t, 1)`.
pub open spec fn chunk_len(n: int, t: int) -> int {
    if n / t >= 1 {
        n / t
    } else {
        1
    }
}

/// The number of chunks for `n` elements and `t` workers: `min(t, n)`.
pub open spec fn chunk_count(n: int, t: int) -> int {
    if t < n {
        t
    } else {
        n
    }
}

/// Where chunk `k` of `count` chunks of length `len` ends in a sequence of
/// `n` elements: the last chunk takes the remainder.
pub open spec fn chunk_stop(k: int, len: int, count: int, n: int) -> int {
    if k + 1 == count {
        n
    } else {
        (k + 1) * len
    }
}

/// The chunks of `n >= 1` elements for `t` workers: at least one chunk, of
/// at least one element, and all but the last end before `n`.
pub proof fn lemma_chunk_layout(n: int, t: int)
    requires
        n >= 1,
        t >= 1,
    ensures
        chunk_len(n, t) >= 1,
        chunk_count(n, t) >= 1,
        (chunk_count(n, t) - 1) * chunk_len(n, t) < n,
{
    let c = chunk_len(n, t);
    let cnt = chunk_count(n, t);
    if t < n {
        vstd::arithmetic::div_mod::lemma_div_non_zero(n, t);
        vstd::arithmetic::div_mod::lemma_fundamental_div_mod(n, t);
        vstd::arithmetic::div_mod::lemma_mod_bound(n, t);
        assert((cnt - 1) * c < n) by (nonlinear_arith)
            requires cnt == t, c == n / t, n == t * (n / t) + n % t, n % t >= 0, c >= 1;
    } else {
        vstd::arithmetic::div_mod::lemma_div_is_ordered(n, t, t);
        vstd::arithmetic::div_mod::lemma_div_basics(t);
        assert(c == 1);
    }
}

/// `k` numbers one of `count` chunks.
pub open spec fn is_chunk_index(k: int, count: int) -> bool {
    0 <= k < count
}

/// A worker count: at least one.
pub open spec fn is_worker_count(t: int) -> bool {
    t >= 1
}

fn run_chunks<T, F: Fn(&mut [T], usize)>(v: &mut [T], f: &F, len: usize, count: usize, start: usize)
    requires
        forall|s: &mut [T], i: usize| #[trigger] f.requires((s, i)),
        forall|s: &mut [T], i: usize| #[trigger] f.ensures((s, i), ()) ==> final(s)@.len() == (*s)@.len(),
        len >= 1,
        count >= 1,
        (count - 1) * len < old(v)@.len(),
        start + old(v)@.len() <= usize::MAX,
    ensures
        final(v)@.len() == old(v)@.len(),
        forall|k: int|
            #[trigger] is_chunk_index(k, count as int) ==> exists|s: &mut [T]|
                (*s)@ == old(v)@.subrange(k * len, chunk_stop(k, len as int, count as int, old(v)@.len() as int))
                    && final(s)@ == final(v)@.subrange(k * len, chunk_stop(k, len as int, count as int, old(v)@.len() as int))
                    && #[trigger] f.ensures((s, (start + k * len) as usize), ()),
    decreases count,
{
    let n = v.len();
    proof {
        if count >= 2 {
            assert(len <= (count - 1) * len) by (nonlinear_arith)
                requires count >= 2, len >= 1;
        }
    }
    if count == 1 {
        f(v, start);
        proof {
            assert(final(v)@.len() == n);
            assert(old(v)@.subrange(0, n as int) =~= old(v)@);
            assert(final(v)@.subrange(0, n as int) =~= final(v)@);
            assert(chunk_stop(0, len as int, count as int, n as int) == n);
            assert(0 * len == 0);
            assert forall|k: int|
                #![trigger chunk_stop(k, len as int, count as int, old(v)@.len() as int)]
                0 <= k < count implies exists|s: &mut [T]|
                (*s)@ == old(v)@.subrange(k * len, chunk_stop(k, len as int, count as int, old(v)@.len() as int))
                    && final(s)@ == final(v)@.subrange(k * len, chunk_stop(k, len as int, count as int, old(v)@.len() as int))
                    && #[trigger] f.ensures((s, (start + k * len) as usize), ()) by {
                assert(k == 0);
                assert(k * len == 0) by (nonlinear_arith)
                    requires k == 0;
                assert((start + k * len) as usize == start);
            }
        }
        return;
    }
    let first = len;
    let (head, tail) = v.split_at_mut(first);
    f(head, start);
    proof {
        assert((count - 2) * len == (count - 1) * len - len) by (nonlinear_arith);
    }
    let ghost tail0 = tail@;
    run_chunks(tail, f, len, count - 1, start + len);
    proof {
        assert forall|k: int|
            #[trigger] is_chunk_index(k, count as int) implies exists|s: &mut [T]|
            (*s)@ == old(v)@.subrange(k * len, chunk_stop(k, len as int, count as int, old(v)@.len() as int))
                && final(s)@ == final(v)@.subrange(k * len, chunk_stop(k, len as int, count as int, old(v)@.len() as int))
                && #[trigger] f.ensures((s, (start + k * len) as usize), ()) by {
            if k == 0 {
                assert(k * len == 0) by (nonlinear_arith)
                    requires k == 0;
                assert((start + k * len) as usize == start);
                assert(chunk_stop(k, len as int, count as int, old(v)@.len() as int) == first);
            } else {
                let j = k - 1;
                assert(is_chunk_index(j, (count - 1) as int));
                assert(k * len == j * len + len) by (nonlinear_arith)
                    requires j == k - 1;
                assert((start + k * len) as usize == ((start + len) + j * len) as usize);
                assert(tail0.len() == n - len);
                if k + 1 != count {
                    assert((k + 1) * len == len + (j + 1) * len) by (nonlinear_arith)
                        requires j == k - 1;
                    assert((j + 1) * len <= (count - 2) * len) by (nonlinear_arith)
                        requires j + 1 <= count - 2, len >= 1;
                } else {
                    assert(j * len <= (count - 2) * len) by (nonlinear_arith)
                        requires j <= count - 2, len >= 1;
                }
                assert(j * len + len == (j + 1) * len) by (nonlinear_arith);
                assert(0 <= j * len) by (nonlinear_arith)
                    requires j >= 0, len >= 1;
                assert(tail0 == old(v)@.subrange(len as int, n as int));
                assert(chunk_stop(k, len as int, count as int, old(v)@.len() as int) == len + chunk_stop(
                    j,
                    len as int,
                    (count - 1) as int,
                    tail0.len() as int,
                ));
                assert(old(v)@.subrange(k * len, chunk_stop(k, len as int, count as int, old(v)@.len() as int))
                    =~= tail0.subrange(j * len, chunk_stop(j, len as int, (count - 1) as int, tail0.len() as int)));

            }
        }
        assert(final(v)@.len() == old(v)@.len());
    }
}
/// Runs `f(chunk, offset)` once on each chunk of a partition of `v` into
/// `min(t, n)` contiguous chunks of `max(n / t, 1)` elements, the last one
/// taking the remainder; `t` is the worker count and `offset` is where the
/// chunk starts in `v`. Chunks never overlap, and `f` may assume nothing
/// about the order of the calls. (A closure cannot change the length of the
/// slice it is given; the contract asks `f` to say so.)
pub fn parallelize<T, F: Fn(&mut [T], usize)>(v: &mut [T], f: F)
    requires
        forall|s: &mut [T], i: usize| #[trigger] f.requires((s, i)),
        forall|s: &mut [T], i: usize| #[trigger] f.ensures((s, i), ()) ==> final(s)@.len() == (*s)@.len(),
    ensures
        final(v)@.len() == old(v)@.len(),
        exists|t: int|
            #[trigger] is_worker_count(t) && forall|k: int|
                #[trigger] is_chunk_index(k, chunk_count(old(v)@.len() as int, t)) ==> exists|s: &mut [T]|
                    (*s)@ == old(v)@.subrange(
                        k * chunk_len(old(v)@.len() as int, t),
                        chunk_stop(
                            k,
                            chunk_len(old(v)@.len() as int, t),
                            chunk_count(old(v)@.len() as int, t),
                            old(v)@.len() as int,
                        ),
                    ) && final(s)@ == final(v)@.subrange(
                        k * chunk_len(old(v)@.len() as int, t),
                        chunk_stop(
                            k,
                            chunk_len(old(v)@.len() as int, t),
                            chunk_count(old(v)@.len() as int, t),
                            old(v)@.len() as int,
                        ),
                    ) && #[trigger] f.ensures((s, (k * chunk_len(old(v)@.len() as int, t)) as usize), ()),
{
    let n = v.len();
    let num_threads = current_num_threads();
    if n == 0 {
        proof {
            assert(is_worker_count(num_threads as int));
            assert(chunk_count(0, num_threads as int) == 0);
        }
        return;
    }
    let mut chunk = n / num_threads;
    if chunk < 1 {
        chunk = 1;
    }
    let count = if num_threads < n { num_threads } else { n };
    proof {
        if num_threads < n {
            vstd::arithmetic::div_mod::lemma_div_non_zero(n as int, num_threads as int);
            vstd::arithmetic::div_mod::lemma_fundamental_div_mod(n as int, num_threads as int);
            vstd::arithmetic::div_mod::lemma_mod_bound(n as int, num_threads as int);
            assert((count - 1) * chunk < n) by (nonlinear_arith)
                requires count == num_threads, chunk == n / num_threads, n == num_threads * (n / num_threads) + n % num_threads, n % num_threads >= 0, chunk >= 1;
        } else {
            vstd::arithmetic::div_mod::lemma_div_is_ordered(n as int, num_threads as int, num_threads as int);
            vstd::arithmetic::div_mod::lemma_div_basics(num_threads as int);
            assert(chunk == 1);
        }
    }
    run_chunks(v, &f, chunk, count, 0);
    proof {
        assert(is_worker_count(num_threads as int));
        assert(chunk_len(n as int, num_threads as int) == chunk);
        assert(chunk_count(n as int, num_threads as int) == count);
    }
}

} // verus!
