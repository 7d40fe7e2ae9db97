//! Summation: the per-slice worker function, the sequential reference
//! sum, the combination of partial sums, and the full reduction.

use vstd::prelude::*;
use crate::partition::lemma_slice_len_nonneg;
use crate::partition::lemma_slice_start_bounds;
use crate::partition::make_slices;
use crate::partition::slice_len;
use crate::partition::slice_start;

verus! {

/// Mathematical sum of a sequence of elements, as an unbounded integer.
pub open spec fn seq_sum(s: Seq<i64>) -> int
    decreases s.len(),
{
    if s.len() == 0 {
        0
    } else {
        seq_sum(s.drop_last()) + s.last()
    }
}

/// Mathematical sum of a sequence of partial sums.
pub open spec fn partials_sum(s: Seq<i128>) -> int
    decreases s.len(),
{
    if s.len() == 0 {
        0
    } else {
        partials_sum(s.drop_last()) + s.last()
    }
}

/// The sum of a concatenation is the sum of the parts.
pub proof fn lemma_seq_sum_concat(a: Seq<i64>, b: Seq<i64>)
    ensures
        seq_sum(a + b) == seq_sum(a) + seq_sum(b),
    decreases b.len(),
{
    if b.len() == 0 {
        assert(a + b =~= a);
    } else {
        lemma_seq_sum_concat(a, b.drop_last());
        assert((a + b).drop_last() =~= a + b.drop_last());
    }
}

/// The sum of `len` elements of 64 bits lies between `len * i64::MIN`
/// and `len * i64::MAX`.
pub proof fn lemma_seq_sum_bounds(s: Seq<i64>)
    ensures
        s.len() * (i64::MIN as int) <= seq_sum(s) <= s.len() * (i64::MAX as int),
    decreases s.len(),
{
    if s.len() > 0 {
        lemma_seq_sum_bounds(s.drop_last());
    }
}

/// Overflow resistance: the sum of at most `u64::MAX` elements of 64
/// bits always fits in the 128-bit accumulator.
pub proof fn lemma_seq_sum_fits(s: Seq<i64>)
    requires
        s.len() <= u64::MAX,
    ensures
        i128::MIN <= seq_sum(s) <= i128::MAX,
{
    lemma_seq_sum_bounds(s);
}

/// Sum of the elements of `data` in the half-open range `[start, end)`:
/// the pure job of one worker, over its assigned slice only.  Each
/// element is widened to 128 bits before it is added, and the
/// accumulator is proved never to overflow.
pub fn slice_sum(data: &Vec<i64>, start: usize, end: usize) -> (partial: i128)
    requires
        start <= end <= data@.len(),
    ensures
        partial == seq_sum(data@.subrange(start as int, end as int)),
{
    let len: usize = data.len();
    let mut acc: i128 = 0;
    let mut i: usize = start;
    while i < end
        invariant
            start <= i <= end <= len,
            len == data@.len(),
            acc == seq_sum(data@.subrange(start as int, i as int)),
        decreases end - i,
    {
        let v: i64 = data[i];
        proof {
            let sub_next = data@.subrange(start as int, i as int + 1);
            assert(sub_next.drop_last() =~= data@.subrange(start as int, i as int));
            assert(sub_next.last() == data@[i as int]);
            lemma_seq_sum_fits(sub_next);
        }
        acc = acc + (v as i128);
        i = i + 1;
    }
    proof {
        assert(data@.subrange(start as int, end as int) =~= data@.subrange(
            start as int,
            i as int,
        ));
    }
    acc
}

/// Every prefix of a left-to-right fold of the partial sums stays within
/// the 128-bit accumulator: exactly the condition under which adding
/// them up in collection order neither overflows nor underflows.
pub open spec fn prefixes_fit(s: Seq<i128>) -> bool {
    forall|i: int|
        0 <= i <= s.len() ==> i128::MIN <= partials_sum(#[trigger] s.take(i)) <= i128::MAX
}

/// Adds the collected partial sums, in collection order, into the total:
/// the join step of the reduction.  `None` reports that some prefix of
/// the fold leaves the 128-bit range; partials taken from a partition of
/// one input sequence always fit (see `parallel_sum`).
pub fn combine_partials(partials: &Vec<i128>) -> (total: Option<i128>)
    ensures
        total is Some <==> prefixes_fit(partials@),
        total matches Some(t) ==> t == partials_sum(partials@),
{
    let n: usize = partials.len();
    let mut acc: i128 = 0;
    let mut i: usize = 0;
    while i < n
        invariant
            i <= n,
            n == partials@.len(),
            acc == partials_sum(partials@.take(i as int)),
            forall|j: int|
                0 <= j <= i ==> i128::MIN <= partials_sum(#[trigger] partials@.take(j))
                    <= i128::MAX,
        decreases n - i,
    {
        let v: i128 = partials[i];
        proof {
            let pre = partials@.take(i as int + 1);
            assert(pre.drop_last() =~= partials@.take(i as int));
            assert(pre.last() == partials@[i as int]);
        }
        let overflows: bool = if v >= 0 {
            acc > i128::MAX - v
        } else {
            acc < i128::MIN - v
        };
        if overflows {
            proof {
                assert(partials_sum(partials@.take(i as int + 1)) == acc + v);
                assert(!prefixes_fit(partials@));
            }
            return None;
        }
        acc = acc + v;
        i = i + 1;
    }
    proof {
        assert(partials@.take(n as int) =~= partials@);
    }
    Some(acc)
}

/// Sequential reference sum of the whole sequence.
pub fn sequential_sum(data: &Vec<i64>) -> (total: i128)
    ensures
        total == seq_sum(data@),
{
    let len: usize = data.len();
    let total: i128 = slice_sum(data, 0, len);
    proof {
        assert(data@.subrange(0, len as int) =~= data@);
    }
    total
}

/// Prefixes of the partials add up to prefixes of the input: the first
/// `i` partial sums of a partition into `n` slices add up to the sum of
/// all elements before slice `i`.
proof fn lemma_partials_prefix(data: Seq<i64>, n: int, partials: Seq<i128>, i: int)
    requires
        1 <= n <= data.len(),
        partials.len() == n,
        forall|j: int|
            0 <= j < n ==> #[trigger] partials[j] == seq_sum(data.subrange(
                slice_start(data.len() as int, n, j),
                slice_start(data.len() as int, n, j) + slice_len(data.len() as int, n, j),
            )),
        0 <= i <= n,
    ensures
        partials_sum(partials.take(i)) == seq_sum(data.subrange(
            0,
            slice_start(data.len() as int, n, i),
        )),
    decreases i,
{
    let dlen = data.len() as int;
    if i == 0 {
        assert(partials.take(0) =~= Seq::<i128>::empty());
        assert(data.subrange(0, 0) =~= Seq::<i64>::empty());
    } else {
        lemma_partials_prefix(data, n, partials, i - 1);
        lemma_slice_start_bounds(dlen, n, i - 1);
        lemma_slice_start_bounds(dlen, n, i);
        lemma_slice_len_nonneg(dlen, n, i - 1);
        let s0 = slice_start(dlen, n, i - 1);
        let s1 = slice_start(dlen, n, i);
        assert(s1 == s0 + slice_len(dlen, n, i - 1));
        lemma_seq_sum_concat(data.subrange(0, s0), data.subrange(s0, s1));
        assert(data.subrange(0, s0) + data.subrange(s0, s1) =~= data.subrange(0, s1));
        assert(partials.take(i).drop_last() =~= partials.take(i - 1));
        assert(partials.take(i).last() == partials[i - 1]);
    }
}

/// For every sequence and every request of at least one worker, the
/// parallel total equals the sequential total: `parallel_sum` and
/// `sequential_sum` each pin their result to `seq_sum` of the input, so
/// any totals that meet their contracts agree.
pub proof fn lemma_parallel_matches_sequential(
    data: Seq<i64>,
    requested: int,
    parallel_total: int,
    sequential_total: int,
)
    requires
        requested >= 1,
        parallel_total == seq_sum(data),
        sequential_total == seq_sum(data),
    ensures
        parallel_total == sequential_total,
{
}

/// Repeated calls agree: the contract of `parallel_sum` leaves the total
/// a function of the input and the request alone, so two totals for the
/// same input and the same request are equal, whatever order the partial
/// sums were produced in.
pub proof fn lemma_deterministic(
    data: Seq<i64>,
    requested: int,
    total_a: int,
    total_b: int,
)
    requires
        total_a == (if requested == 0 {
            0
        } else {
            seq_sum(data)
        }),
        total_b == (if requested == 0 {
            0
        } else {
            seq_sum(data)
        }),
    ensures
        total_a == total_b,
{
}

/// The whole reduction: partition the input into `min(requested, len)`
/// contiguous slices, compute one partial sum per slice, and combine the
/// partials into the total.
///
/// The total is pinned to the mathematical sum of the sequence, so it
/// always equals `sequential_sum(data)` when at least one worker is
/// requested, and any two calls on the same input return the same total.
/// A zero request short-circuits to zero without looking at the data.
pub fn parallel_sum(data: &Vec<i64>, requested: usize) -> (total: i128)
    ensures
        requested == 0 ==> total == 0,
        requested >= 1 ==> total == seq_sum(data@),
        data@.len() == 0 ==> total == 0,
{
    let len: usize = data.len();
    if len == 0 || requested == 0 {
        return 0;
    }
    let slices: Vec<(usize, usize)> = make_slices(len, requested);
    let n: usize = slices.len();
    let ghost gn: int = n as int;
    let mut partials: Vec<i128> = Vec::new();
    let mut k: usize = 0;
    while k < n
        invariant
            1 <= n <= len,
            n == slices@.len(),
            len == data@.len(),
            forall|i: int|
                0 <= i < n ==> (#[trigger] slices@[i]).0 == slice_start(len as int, n as int, i),
            forall|i: int|
                0 <= i < n ==> (#[trigger] slices@[i]).1 == slice_start(len as int, n as int, i)
                    + slice_len(len as int, n as int, i),
            forall|i: int|
                0 <= i < n ==> (#[trigger] slices@[i]).0 <= slices@[i].1 <= len,
            k <= n,
            partials@.len() == k,
            forall|j: int|
                0 <= j < k ==> #[trigger] partials@[j] == seq_sum(data@.subrange(
                    slice_start(len as int, n as int, j),
                    slice_start(len as int, n as int, j) + slice_len(len as int, n as int, j),
                )),
        decreases n - k,
    {
        let range: (usize, usize) = slices[k];
        let p: i128 = slice_sum(data, range.0, range.1);
        partials.push(p);
        k = k + 1;
    }
    proof {
        assert forall|i: int|
            0 <= i <= gn implies i128::MIN <= partials_sum(#[trigger] partials@.take(i))
            <= i128::MAX by {
            lemma_partials_prefix(data@, gn, partials@, i);
            lemma_slice_start_bounds(len as int, gn, i);
            lemma_seq_sum_fits(data@.subrange(0, slice_start(len as int, gn, i)));
        }
        assert(prefixes_fit(partials@));
    }
    let total: i128 = match combine_partials(&partials) {
        Some(t) => t,
        None => {
            proof {
                assert(false);
            }
            0
        },
    };
    proof {
        lemma_partials_prefix(data@, gn, partials@, gn);
        lemma_slice_start_bounds(len as int, gn, gn);
        assert(partials@.take(gn) =~= partials@);
        assert(data@.subrange(0, len as int) =~= data@);
    }
    total
}

} // verus!
