//! Sonar depth measurements: counting increases and summing sliding windows.

use vstd::prelude::*;

verus! {

/// Number of indices `i` with `0 < i < s.len()` whose measurement exceeds the
/// one before it.
pub open spec fn count_increases(s: Seq<i64>) -> nat
    decreases s.len(),
{
    if s.len() < 2 {
        0
    } else {
        count_increases(s.drop_last()) + if s[s.len() - 2] < s[s.len() - 1] {
            1nat
        } else {
            0nat
        }
    }
}

/// Sum of the measurements `s[i..j]`.
pub open spec fn segment_sum(s: Seq<i64>, i: int, j: int) -> int
    decreases j - i,
{
    if i >= j {
        0
    } else {
        segment_sum(s, i, j - 1) + s[j - 1]
    }
}

/// Counts how many measurements are strictly larger than their predecessor.
pub fn count_increasing(numbers: &Vec<i64>) -> (r: usize)
    ensures
        r == count_increases(numbers@),
{
    let n = numbers.len();
    if n < 2 {
        return 0;
    }
    let mut increasing: usize = 0;
    let mut i: usize = 1;
    while i < n
        invariant
            1 <= i <= n,
            n == numbers@.len(),
            increasing == count_increases(numbers@.take(i as int)),
            increasing < i,
        decreases n - i,
    {
        proof {
            assert(numbers@.take(i + 1).drop_last() =~= numbers@.take(i as int));
        }
        if numbers[i - 1] < numbers[i] {
            increasing = increasing + 1;
        }
        i = i + 1;
    }
    proof {
        assert(numbers@.take(n as int) =~= numbers@);
    }
    increasing
}

/// Sums every window of `size` consecutive measurements.
///
/// An empty result is returned when `size` is zero or exceeds the number of
/// measurements; otherwise entry `k` holds the sum of `numbers[k..k + size]`.
pub fn sum_sliding_window(numbers: &Vec<i64>, size: usize) -> (r: Vec<i64>)
    requires
        forall|i: int, j: int|
            0 <= i <= j <= numbers@.len() && j - i <= size ==> i64::MIN <= #[trigger] segment_sum(
                numbers@,
                i,
                j,
            ) <= i64::MAX,
    ensures
        size == 0 || numbers@.len() < size ==> r@.len() == 0,
        0 < size <= numbers@.len() ==> r@.len() == numbers@.len() - size + 1,
        forall|k: int|
            0 <= k < r@.len() ==> r@[k] == segment_sum(numbers@, k, k + size),
{
    let mut result: Vec<i64> = Vec::new();
    if size == 0 || numbers.len() < size {
        return result;
    }
    let n = numbers.len();
    let mut start: usize = 0;
    while start <= n - size
        invariant
            0 < size <= n,
            n == numbers@.len(),
            start <= n - size + 1,
            result@.len() == start,
            forall|k: int|
                0 <= k < start ==> result@[k] == segment_sum(numbers@, k, k + size),
            forall|i: int, j: int|
                0 <= i <= j <= numbers@.len() && j - i <= size ==> i64::MIN <= #[trigger] segment_sum(
                    numbers@,
                    i,
                    j,
                ) <= i64::MAX,
        decreases n - size - start + 1,
    {
        let mut sum: i64 = 0;
        let mut off: usize = 0;
        while off < size
            invariant
                0 < size <= n,
                n == numbers@.len(),
                start + size <= n,
                off <= size,
                sum == segment_sum(numbers@, start as int, start + off),
                forall|i: int, j: int|
                    0 <= i <= j <= numbers@.len() && j - i <= size ==> i64::MIN <= #[trigger] segment_sum(
                        numbers@,
                        i,
                        j,
                    ) <= i64::MAX,
            decreases size - off,
        {
            proof {
                assert(segment_sum(numbers@, start as int, start + off + 1) == segment_sum(
                    numbers@,
                    start as int,
                    start + off,
                ) + numbers@[start + off]);
            }
            sum = sum + numbers[start + off];
            off = off + 1;
        }
        result.push(sum);
        start = start + 1;
    }
    result
}

} // verus!
