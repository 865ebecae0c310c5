//! Crab alignment: choosing the target position with the cheapest total fuel.

use vstd::prelude::*;

verus! {

/// Distance between two positions.
pub open spec fn distance(a: u32, b: u32) -> int {
    if a >= b {
        a - b
    } else {
        b - a
    }
}

/// Fuel for one crab: the distance, or the triangular cost of the distance.
pub open spec fn move_cost(a: u32, b: u32, expensive: bool) -> int {
    if expensive {
        distance(a, b) * (distance(a, b) + 1) / 2
    } else {
        distance(a, b)
    }
}

/// Total fuel for aligning every crab at `target`.
pub open spec fn fuel_sum(s: Seq<u32>, target: u32, expensive: bool) -> int
    decreases s.len(),
{
    if s.len() == 0 {
        0
    } else {
        fuel_sum(s.drop_last(), target, expensive) + move_cost(s.last(), target, expensive)
    }
}

pub open spec fn seq_min(s: Seq<u32>) -> u32
    decreases s.len(),
{
    if s.len() <= 1 {
        s[0]
    } else if s.last() < seq_min(s.drop_last()) {
        s.last()
    } else {
        seq_min(s.drop_last())
    }
}

pub open spec fn seq_max(s: Seq<u32>) -> u32
    decreases s.len(),
{
    if s.len() <= 1 {
        s[0]
    } else if s.last() > seq_max(s.drop_last()) {
        s.last()
    } else {
        seq_max(s.drop_last())
    }
}

/// The simple fuel cost: one unit per step.
pub fn cheap_cost_function(a: u32, b: u32) -> (r: u32)
    ensures
        r == distance(a, b),
{
    if a >= b {
        a - b
    } else {
        b - a
    }
}

/// The triangular fuel cost: each further step costs one more unit.
pub fn expensive_cost_function(a: u32, b: u32) -> (r: u32)
    requires
        distance(a, b) * (distance(a, b) + 1) <= u32::MAX,
    ensures
        r == move_cost(a, b, true),
{
    let d = cheap_cost_function(a, b);
    proof {
        assert(d * (d + 1) <= u32::MAX);
        assert(d < u32::MAX) by (nonlinear_arith)
            requires
                d * (d + 1) <= u32::MAX,
                d >= 0,
        ;
    }
    d * (d + 1) / 2
}

proof fn lemma_move_cost_nonneg(a: u32, b: u32, expensive: bool)
    ensures
        move_cost(a, b, expensive) >= 0,
{
    if expensive {
        let d = distance(a, b);
        assert(d * (d + 1) >= 0) by (nonlinear_arith)
            requires
                d >= 0,
        ;
    }
}

proof fn lemma_fuel_sum_nonneg(s: Seq<u32>, target: u32, expensive: bool)
    ensures
        fuel_sum(s, target, expensive) >= 0,
    decreases s.len(),
{
    if s.len() > 0 {
        lemma_fuel_sum_nonneg(s.drop_last(), target, expensive);
        lemma_move_cost_nonneg(s.last(), target, expensive);
    }
}

/// Total fuel to align every crab at `target` under the chosen cost rule.
pub fn calc_fuel(numbers: &Vec<u32>, target: u32, expensive: bool) -> (r: u32)
    requires
        fuel_sum(numbers@, target, expensive) <= u32::MAX,
        expensive ==> forall|i: int|
            0 <= i < numbers@.len() ==> distance(#[trigger] numbers@[i], target) * (distance(
                numbers@[i],
                target,
            ) + 1) <= u32::MAX,
    ensures
        r == fuel_sum(numbers@, target, expensive),
{
    let mut total: u32 = 0;
    let mut i: usize = 0;
    while i < numbers.len()
        invariant
            i <= numbers@.len(),
            total == fuel_sum(numbers@.take(i as int), target, expensive),
            fuel_sum(numbers@, target, expensive) <= u32::MAX,
            expensive ==> forall|k: int|
                0 <= k < numbers@.len() ==> distance(#[trigger] numbers@[k], target) * (distance(
                    numbers@[k],
                    target,
                ) + 1) <= u32::MAX,
        decreases numbers@.len() - i,
    {
        proof {
            assert(numbers@.take(i + 1).drop_last() =~= numbers@.take(i as int));
            assert(numbers@.take(i + 1).last() == numbers@[i as int]);
            lemma_fuel_prefix_le(numbers@, i + 1, target, expensive);
        }
        let c = if expensive {
            expensive_cost_function(numbers[i], target)
        } else {
            cheap_cost_function(numbers[i], target)
        };
        total = total + c;
        i = i + 1;
    }
    proof {
        assert(numbers@.take(numbers@.len() as int) =~= numbers@);
    }
    total
}

proof fn lemma_fuel_prefix_le(s: Seq<u32>, n: int, target: u32, expensive: bool)
    requires
        0 <= n <= s.len(),
    ensures
        fuel_sum(s.take(n), target, expensive) <= fuel_sum(s, target, expensive),
    decreases s.len() - n,
{
    if n == s.len() {
        assert(s.take(n) =~= s);
    } else {
        lemma_fuel_prefix_le(s, n + 1, target, expensive);
        assert(s.take(n + 1).drop_last() =~= s.take(n));
        lemma_move_cost_nonneg(s.take(n + 1).last(), target, expensive);
    }
}

/// Finds the alignment target with the least total fuel between the least
/// and greatest crab position; ties go to the smaller target.
pub fn optimize(numbers: &Vec<u32>, expensive: bool) -> (r: (u32, u32))
    requires
        numbers@.len() > 0,
        forall|t: u32|
            seq_min(numbers@) <= t <= seq_max(numbers@) ==> #[trigger] fuel_sum(
                numbers@,
                t,
                expensive,
            ) <= u32::MAX,
        expensive ==> forall|t: u32, i: int|
            seq_min(numbers@) <= t <= seq_max(numbers@) && 0 <= i < numbers@.len()
                ==> #[trigger] distance(numbers@[i], t) * (distance(numbers@[i], t) + 1)
                <= u32::MAX,
    ensures
        seq_min(numbers@) <= r.0 <= seq_max(numbers@),
        r.1 == fuel_sum(numbers@, r.0, expensive),
        forall|t: u32|
            seq_min(numbers@) <= t <= seq_max(numbers@) ==> r.1 <= #[trigger] fuel_sum(
                numbers@,
                t,
                expensive,
            ),
        forall|t: u32|
            seq_min(numbers@) <= t < r.0 ==> r.1 < #[trigger] fuel_sum(numbers@, t, expensive),
{
    let mut lo = numbers[0];
    let mut hi = numbers[0];
    let mut i: usize = 1;
    while i < numbers.len()
        invariant
            1 <= i <= numbers@.len(),
            numbers@.len() > 0,
            lo == seq_min(numbers@.take(i as int)),
            hi == seq_max(numbers@.take(i as int)),
        decreases numbers@.len() - i,
    {
        proof {
            assert(numbers@.take(i + 1).drop_last() =~= numbers@.take(i as int));
            assert(numbers@.take(i + 1).last() == numbers@[i as int]);
        }
        if numbers[i] < lo {
            lo = numbers[i];
        }
        if numbers[i] > hi {
            hi = numbers[i];
        }
        i = i + 1;
    }
    proof {
        assert(numbers@.take(numbers@.len() as int) =~= numbers@);
        assert(numbers@.take(1).drop_last() =~= numbers@.take(0));
    }
    let mut best_target = lo;
    let mut best_score = calc_fuel(numbers, lo, expensive);
    let mut t = lo;
    loop
        invariant
            seq_min(numbers@) == lo,
            seq_max(numbers@) == hi,
            lo <= t <= hi,
            lo <= best_target <= t,
            best_score == fuel_sum(numbers@, best_target, expensive),
            forall|u: u32|
                lo <= u <= t ==> best_score <= #[trigger] fuel_sum(numbers@, u, expensive),
            forall|u: u32|
                lo <= u < best_target ==> best_score < #[trigger] fuel_sum(numbers@, u, expensive),
            forall|u: u32|
                seq_min(numbers@) <= u <= seq_max(numbers@) ==> #[trigger] fuel_sum(
                    numbers@,
                    u,
                    expensive,
                ) <= u32::MAX,
            expensive ==> forall|u: u32, k: int|
                seq_min(numbers@) <= u <= seq_max(numbers@) && 0 <= k < numbers@.len()
                    ==> #[trigger] distance(numbers@[k], u) * (distance(numbers@[k], u) + 1)
                    <= u32::MAX,
        ensures
            t == hi,
            lo <= best_target <= hi,
            best_score == fuel_sum(numbers@, best_target, expensive),
            forall|u: u32|
                lo <= u <= hi ==> best_score <= #[trigger] fuel_sum(numbers@, u, expensive),
            forall|u: u32|
                lo <= u < best_target ==> best_score < #[trigger] fuel_sum(numbers@, u, expensive),
        decreases hi - t,
    {
        if t == hi {
            break ;
        }
        let next = t + 1;
        let score = calc_fuel(numbers, next, expensive);
        if score < best_score {
            best_target = next;
            best_score = score;
        }
        t = next;
    }
    (best_target, best_score)
}

} // verus!
