//! Lanternfish growth: how many fish descend from one starting timer.

use vstd::prelude::*;

verus! {

/// Population after `days` of one fish whose spawn timer reads `timer`: on a
/// zero timer the fish resets to six and spawns a child at eight.
pub open spec fn population(timer: int, days: int) -> nat
    decreases days, timer,
{
    if days <= 0 {
        1
    } else if timer <= 0 {
        population(6, days - 1) + population(8, days - 1)
    } else {
        population(timer - 1, days - 1)
    }
}

/// Population after `days` of a school with the given starting timers.
pub open spec fn school_population(starts: Seq<u32>, days: int) -> nat
    decreases starts.len(),
{
    if starts.len() == 0 {
        0
    } else {
        school_population(starts.drop_last(), days) + population(starts.last() as int, days)
    }
}

/// Counts the descendants of one fish after `days` days.
pub fn count_fish(start: u32, days: u32) -> (r: u64)
    requires
        population(start as int, days as int) <= u64::MAX,
    ensures
        r == population(start as int, days as int),
    decreases days,
{
    if days == 0 {
        1
    } else if start == 0 {
        let a = count_fish(6, days - 1);
        let b = count_fish(8, days - 1);
        a + b
    } else {
        count_fish(start - 1, days - 1)
    }
}

/// Counts the whole school after `days` days.
pub fn count_fishes(starts: &Vec<u32>, days: u32) -> (r: u64)
    requires
        school_population(starts@, days as int) <= u64::MAX,
    ensures
        r == school_population(starts@, days as int),
{
    let mut total: u64 = 0;
    let mut i: usize = 0;
    while i < starts.len()
        invariant
            i <= starts@.len(),
            total == school_population(starts@.take(i as int), days as int),
            school_population(starts@, days as int) <= u64::MAX,
        decreases starts@.len() - i,
    {
        proof {
            assert(starts@.take(i + 1).drop_last() =~= starts@.take(i as int));
            assert(starts@.take(i + 1).last() == starts@[i as int]);
            lemma_school_prefix_le(starts@, i + 1, days as int);
        }
        let c = count_fish(starts[i], days);
        total = total + c;
        i = i + 1;
    }
    proof {
        assert(starts@.take(starts@.len() as int) =~= starts@);
    }
    total
}

proof fn lemma_school_prefix_le(s: Seq<u32>, n: int, days: int)
    requires
        0 <= n <= s.len(),
    ensures
        school_population(s.take(n), days) <= school_population(s, days),
    decreases s.len() - n,
{
    if n == s.len() {
        assert(s.take(n) =~= s);
    } else {
        lemma_school_prefix_le(s, n + 1, days);
        assert(s.take(n + 1).drop_last() =~= s.take(n));
    }
}

} // verus!
