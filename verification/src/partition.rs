//! Partitioning of an input of `len` elements into contiguous,
//! near-equal slices, one per worker.

use vstd::prelude::*;
use vstd::arithmetic::div_mod::lemma_div_pos_is_pos;
use vstd::arithmetic::div_mod::lemma_fundamental_div_mod;
use vstd::arithmetic::mul::lemma_mul_inequality;
use vstd::arithmetic::mul::lemma_mul_is_distributive_add_other_way;

verus! {

/// How many workers actually run for `len` elements when `requested` are
/// asked for: none for an empty input or a zero request, and never more
/// workers than elements.
pub open spec fn worker_count(len: int, requested: int) -> int {
    if len == 0 || requested == 0 {
        0
    } else if requested <= len {
        requested
    } else {
        len
    }
}

/// Length of slice `i` when `len` elements are split over `n` slices:
/// every slice gets `len / n` elements, and the first `len % n` slices
/// absorb one leftover element each.
pub open spec fn slice_len(len: int, n: int, i: int) -> int {
    len / n + if i < len % n { 1int } else { 0int }
}

/// Start index of slice `i`: slice 0 starts at index 0, and each further
/// slice starts where the one before it ends.
pub open spec fn slice_start(len: int, n: int, i: int) -> int
    decreases i,
{
    if i <= 0 {
        0
    } else {
        slice_start(len, n, i - 1) + slice_len(len, n, i - 1)
    }
}

/// Closed form for `slice_start`: slice `i` begins after `i` base-sized
/// slices plus the `min(i, len % n)` leftover elements handed out so far.
proof fn lemma_slice_start_closed(len: int, n: int, i: int)
    requires
        0 <= len,
        1 <= n,
        0 <= i,
    ensures
        slice_start(len, n, i) == i * (len / n) + (if i <= len % n {
            i
        } else {
            len % n
        }),
    decreases i,
{
    if i > 0 {
        lemma_slice_start_closed(len, n, i - 1);
        lemma_mul_is_distributive_add_other_way(len / n, i - 1, 1);
        assert(i * (len / n) == (i - 1) * (len / n) + 1 * (len / n));
        assert(1 * (len / n) == len / n) by (nonlinear_arith);
        assert(slice_start(len, n, i) == slice_start(len, n, i - 1) + slice_len(len, n, i - 1));
        assert(0 <= len % n < n);
        assert(slice_start(len, n, i) == i * (len / n) + (if i - 1 <= len % n {
            i - 1
        } else {
            len % n
        }) + (if i - 1 < len % n {
            1int
        } else {
            0int
        }));
    } else {
        assert(slice_start(len, n, 0) == 0);
        assert(0int * (len / n) == 0);
    }
}

/// No slice is empty beyond its base share: every slice length is
/// non-negative, so slice starts never decrease.
pub proof fn lemma_slice_len_nonneg(len: int, n: int, i: int)
    requires
        1 <= n <= len,
    ensures
        0 <= slice_len(len, n, i),
{
    lemma_div_pos_is_pos(len, n);
}

/// Slice starts stay inside the input, and the partition covers it
/// exactly: slice `n` would begin at `len`.
pub proof fn lemma_slice_start_bounds(len: int, n: int, i: int)
    requires
        1 <= n <= len,
        0 <= i <= n,
    ensures
        0 <= slice_start(len, n, i) <= len,
        i == n ==> slice_start(len, n, i) == len,
{
    lemma_slice_start_closed(len, n, i);
    lemma_fundamental_div_mod(len, n);
    lemma_div_pos_is_pos(len, n);
    lemma_mul_inequality(i, n, len / n);
    lemma_mul_inequality(0, i, len / n);
}

/// Splits `len` elements into `min(requested, len)` contiguous slices,
/// given as half-open `(start, end)` index ranges.
///
/// The slices are laid out in order without gaps or overlaps, cover the
/// input exactly, and their lengths differ by at most one: the first
/// `len % n` slices carry the remainder.  An empty input or a zero
/// request yields no slices at all.
pub fn make_slices(len: usize, requested: usize) -> (slices: Vec<(usize, usize)>)
    ensures
        slices@.len() == worker_count(len as int, requested as int),
        forall|i: int|
            0 <= i < slices@.len() ==> (#[trigger] slices@[i]).0 == slice_start(
                len as int,
                slices@.len() as int,
                i,
            ),
        forall|i: int|
            0 <= i < slices@.len() ==> (#[trigger] slices@[i]).1 == slice_start(
                len as int,
                slices@.len() as int,
                i,
            ) + slice_len(len as int, slices@.len() as int, i),
        slices@.len() > 0 ==> slices@[0].0 == 0,
        slices@.len() > 0 ==> slices@[slices@.len() - 1].1 == len,
        forall|i: int|
            0 <= i < slices@.len() - 1 ==> (#[trigger] slices@[i]).1 == slices@[i + 1].0,
        forall|i: int|
            0 <= i < slices@.len() ==> (#[trigger] slices@[i]).0 <= slices@[i].1 <= len,
        forall|i: int, j: int|
            0 <= i < slices@.len() && 0 <= j < slices@.len() ==> ((#[trigger] slices@[i]).1
                - slices@[i].0) - ((#[trigger] slices@[j]).1 - slices@[j].0) <= 1,
{
    if len == 0 || requested == 0 {
        return Vec::new();
    }
    let n: usize = if requested < len {
        requested
    } else {
        len
    };
    let base: usize = len / n;
    let rem: usize = len % n;
    let mut slices: Vec<(usize, usize)> = Vec::new();
    let mut start: usize = 0;
    let mut i: usize = 0;
    while i < n
        invariant
            1 <= n <= len,
            n as int == worker_count(len as int, requested as int),
            base == len as int / n as int,
            rem == len as int % n as int,
            i <= n,
            slices@.len() == i,
            start == slice_start(len as int, n as int, i as int),
            start <= len,
            forall|j: int|
                0 <= j < i ==> (#[trigger] slices@[j]).0 == slice_start(len as int, n as int, j),
            forall|j: int|
                0 <= j < i ==> (#[trigger] slices@[j]).1 == slice_start(len as int, n as int, j)
                    + slice_len(len as int, n as int, j),
        decreases n - i,
    {
        let extra: usize = if i < rem {
            1
        } else {
            0
        };
        proof {
            lemma_slice_start_bounds(len as int, n as int, i as int + 1);
        }
        let end: usize = start + base + extra;
        slices.push((start, end));
        start = end;
        i = i + 1;
    }
    proof {
        assert forall|i: int| 0 <= i < n - 1 implies (#[trigger] slices@[i]).1 == slices@[i
            + 1].0 by {
            assert(slices@[i + 1].0 == slice_start(len as int, n as int, i + 1));
        }
        assert forall|i: int| 0 <= i < n implies (#[trigger] slices@[i]).0 <= slices@[i].1
            <= len by {
            lemma_slice_len_nonneg(len as int, n as int, i);
            lemma_slice_start_bounds(len as int, n as int, i + 1);
        }
        assert(slices@[n - 1].1 == slice_start(len as int, n as int, n as int)) by {
            assert(slices@[n - 1].1 == slice_start(len as int, n as int, n as int - 1)
                + slice_len(len as int, n as int, n as int - 1));
        }
        lemma_slice_start_bounds(len as int, n as int, n as int);
    }
    slices
}

} // verus!
