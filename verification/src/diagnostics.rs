//! Power diagnostics: majority-bit rates and the oxygen/CO2 sieve.

use vstd::prelude::*;
use crate::text::chars_of;

verus! {

/// Why a diagnostic report was rejected.
#[derive(Clone, Copy, Debug, PartialEq, Eq, Structural)]
pub enum DiagError {
    InvalidBit,
    NoInput,
}

pub open spec fn is_bit(c: char) -> bool {
    c == '0' || c == '1'
}

pub open spec fn line_bits_ok(s: Seq<char>) -> bool {
    forall|i: int| 0 <= i < s.len() ==> is_bit(#[trigger] s[i])
}

pub open spec fn all_bits_ok(lines: Seq<Seq<char>>) -> bool {
    forall|k: int| 0 <= k < lines.len() ==> line_bits_ok(#[trigger] lines[k])
}

/// Length of the shortest line; zip truncation limits the counted columns to
/// this many.
pub open spec fn min_len(lines: Seq<Seq<char>>) -> int
    decreases lines.len(),
{
    if lines.len() == 0 {
        0
    } else if lines.len() == 1 {
        lines[0].len() as int
    } else if lines.last().len() < min_len(lines.drop_last()) {
        lines.last().len() as int
    } else {
        min_len(lines.drop_last())
    }
}

/// How many lines have a `1` in column `j`.
pub open spec fn column_ones(lines: Seq<Seq<char>>, j: int) -> int
    decreases lines.len(),
{
    if lines.len() == 0 {
        0
    } else {
        column_ones(lines.drop_last(), j) + if lines.last()[j] == '1' {
            1int
        } else {
            0int
        }
    }
}

/// The majority bit of column `j`: 1 when at least half the lines (rounding
/// down) show a 1.
pub open spec fn majority_bit(lines: Seq<Seq<char>>, j: int) -> int {
    if column_ones(lines, j) >= lines.len() / 2 {
        1
    } else {
        0
    }
}

/// The gamma rate over the first `upto` columns, most significant first.
pub open spec fn gamma_rec(lines: Seq<Seq<char>>, upto: int) -> int
    decreases upto,
{
    if upto <= 0 {
        0
    } else {
        gamma_rec(lines, upto - 1) * 2 + majority_bit(lines, upto - 1)
    }
}

proof fn lemma_gamma_bound(lines: Seq<Seq<char>>, upto: int)
    requires
        0 <= upto,
    ensures
        0 <= gamma_rec(lines, upto) < pow2(upto),
    decreases upto,
{
    if upto > 0 {
        lemma_gamma_bound(lines, upto - 1);
    }
}

pub open spec fn pow2(n: int) -> int
    decreases n,
{
    if n <= 0 {
        1
    } else {
        2 * pow2(n - 1)
    }
}

proof fn lemma_pow2_mono(a: int, b: int)
    requires
        0 <= a <= b,
    ensures
        1 <= pow2(a) <= pow2(b),
    decreases b - a,
{
    lemma_pow2_pos(a);
    if a < b {
        lemma_pow2_mono(a, b - 1);
        lemma_pow2_pos(b - 1);
        assert(pow2(b) == 2 * pow2(b - 1));
    }
}

proof fn lemma_pow2_pos(n: int)
    ensures
        pow2(n) >= 1,
    decreases n,
{
    if n > 0 {
        lemma_pow2_pos(n - 1);
    }
}

proof fn lemma_min_len_le(lines: Seq<Seq<char>>, x: int)
    requires
        0 <= x < lines.len(),
    ensures
        min_len(lines) <= lines[x].len(),
    decreases lines.len(),
{
    if lines.len() > 1 && x < lines.len() - 1 {
        lemma_min_len_le(lines.drop_last(), x);
    }
}

/// Computes the gamma rate of a diagnostic report: per column (up to the
/// shortest line), the majority bit; the result pairs the rate with the
/// number of columns counted.  Any character other than `0` or `1` on any
/// line is rejected, as is an empty report.
pub fn calc_gamma(lines: &Vec<String>) -> (r: Result<(u32, u8), DiagError>)
    requires
        lines@.len() <= 0xffff_ffff,
        lines@.len() > 0 && all_bits_ok(crate::navigation::line_views(lines@)) ==> min_len(
            crate::navigation::line_views(lines@),
        ) <= 32,
    ensures
        lines@.len() == 0 ==> r == Result::<(u32, u8), DiagError>::Err(DiagError::NoInput),
        lines@.len() > 0 && !all_bits_ok(crate::navigation::line_views(lines@)) ==> r == Result::<
            (u32, u8),
            DiagError,
        >::Err(DiagError::InvalidBit),
        lines@.len() > 0 && all_bits_ok(crate::navigation::line_views(lines@)) ==> r == Result::<
            (u32, u8),
            DiagError,
        >::Ok(
            (
                gamma_rec(
                    crate::navigation::line_views(lines@),
                    min_len(crate::navigation::line_views(lines@)),
                ) as u32,
                min_len(crate::navigation::line_views(lines@)) as u8,
            ),
        ),
{
    let ghost views = crate::navigation::line_views(lines@);
    if lines.len() == 0 {
        return Err(DiagError::NoInput);
    }
    let mut grid: Vec<Vec<char>> = Vec::new();
    let mut k: usize = 0;
    while k < lines.len()
        invariant
            views == crate::navigation::line_views(lines@),
            k <= lines@.len(),
            grid@.len() == k,
            forall|x: int| 0 <= x < k ==> #[trigger] grid@[x]@ == views[x],
            forall|x: int| 0 <= x < k ==> line_bits_ok(#[trigger] views[x]),
        decreases lines@.len() - k,
    {
        let row = chars_of(lines[k].as_str());
        let mut c: usize = 0;
        while c < row.len()
            invariant
                views == crate::navigation::line_views(lines@),
                0 < lines@.len(),
                k < lines@.len(),
                row@ == lines@[k as int]@,
                c <= row@.len(),
                forall|x: int| 0 <= x < c ==> is_bit(#[trigger] row@[x]),
            decreases row@.len() - c,
        {
            let ch = row[c];
            if !(ch == '0' || ch == '1') {
                proof {
                    assert(views[k as int] == lines@[k as int]@);
                    assert(!line_bits_ok(views[k as int]));
                }
                return Err(DiagError::InvalidBit);
            }
            c = c + 1;
        }
        grid.push(row);
        k = k + 1;
    }
    proof {
        assert(all_bits_ok(views));
    }
    let mut width = grid[0].len();
    let mut k: usize = 1;
    while k < grid.len()
        invariant
            views == crate::navigation::line_views(lines@),
            grid@.len() == lines@.len(),
            1 <= k <= grid@.len(),
            forall|x: int| 0 <= x < grid@.len() ==> #[trigger] grid@[x]@ == views[x],
            width == min_len(views.take(k as int)),
        decreases grid@.len() - k,
    {
        proof {
            assert(views.take(k + 1).drop_last() =~= views.take(k as int));
            assert(views.take(k + 1).last() == views[k as int]);
        }
        if grid[k].len() < width {
            width = grid[k].len();
        }
        k = k + 1;
    }
    proof {
        assert(views.take(views.len() as int) =~= views);
        assert(views.take(1).drop_last() =~= views.take(0));
        assert forall|x: int| 0 <= x < grid@.len() implies min_len(views) <= views[x].len() by {
            lemma_min_len_le(views, x);
        }
    }
    let n = lines.len();
    let half = n / 2;
    let mut gamma: u32 = 0;
    let mut j: usize = 0;
    while j < width
        invariant
            views == crate::navigation::line_views(lines@),
            grid@.len() == lines@.len(),
            n == lines@.len(),
            0 < n <= 0xffff_ffff,
            half == n / 2,
            j <= width,
            width == min_len(views),
            width <= 32,
            forall|x: int| 0 <= x < grid@.len() ==> #[trigger] grid@[x]@ == views[x],
            forall|x: int| 0 <= x < grid@.len() ==> width <= views[x].len(),
            gamma == gamma_rec(views, j as int),
        decreases width - j,
    {
        let mut ones: usize = 0;
        let mut k: usize = 0;
        while k < grid.len()
            invariant
                views == crate::navigation::line_views(lines@),
                grid@.len() == lines@.len(),
                k <= grid@.len(),
                j < width,
                forall|x: int| 0 <= x < grid@.len() ==> #[trigger] grid@[x]@ == views[x],
                forall|x: int| 0 <= x < grid@.len() ==> width <= views[x].len(),
                ones == column_ones(views.take(k as int), j as int),
                ones <= k,
            decreases grid@.len() - k,
        {
            proof {
                assert(views.take(k + 1).drop_last() =~= views.take(k as int));
                assert(views.take(k + 1).last() == views[k as int]);
            }
            if grid[k][j] == '1' {
                ones = ones + 1;
            }
            k = k + 1;
        }
        proof {
            assert(views.take(views.len() as int) =~= views);
        }
        let bit: u32 = if ones >= half {
            1
        } else {
            0
        };
        proof {
            assert(ones == column_ones(views, j as int));
            assert(bit == majority_bit(views, j as int));
            assert(gamma_rec(views, j + 1) == gamma_rec(views, j as int) * 2 + majority_bit(
                views,
                j as int,
            ));
            lemma_gamma_bound(views, j + 1);
            lemma_pow2_mono(j + 1, 32);
            assert(pow2(32) == 0x1_0000_0000) by {
                reveal_with_fuel(pow2, 33);
            }
        }
        gamma = gamma * 2 + bit;
        j = j + 1;
    }
    Ok((gamma, width as u8))
}

/// The epsilon rate: the bitwise complement of gamma over its counted
/// columns.
pub fn calc_epsilon(gamma: u32, num_bits: u8) -> (r: u32)
    requires
        1 <= num_bits <= 32,
    ensures
        r == !gamma & (u32::MAX >> ((32 - num_bits) as u32)),
{
    !gamma & (u32::MAX >> ((32 - num_bits) as u32))
}

/// Views of a vector of character rows.
pub open spec fn grid_views(v: Seq<Vec<char>>) -> Seq<Seq<char>> {
    Seq::new(v.len(), |i: int| v[i]@)
}

/// How many candidate lines have character `c` in column `index`.
pub open spec fn count_at(cands: Seq<Seq<char>>, index: int, c: char) -> int
    decreases cands.len(),
{
    if cands.len() == 0 {
        0
    } else {
        count_at(cands.drop_last(), index, c) + if cands.last()[index] == c {
            1int
        } else {
            0int
        }
    }
}

/// The bit value the sieve keeps in this column: the most common one (ties
/// going to `1`), or the least common one (ties going to `0`) when `inverse`.
pub open spec fn keep_char(cands: Seq<Seq<char>>, index: int, inverse: bool) -> char {
    let ones = count_at(cands, index, '1');
    let zeroes = cands.len() - ones;
    if (inverse && ones < zeroes) || (!inverse && ones >= zeroes) {
        '1'
    } else {
        '0'
    }
}

/// The candidate lines whose column `index` holds `c`, in order.
pub open spec fn keep_matching(cands: Seq<Seq<char>>, index: int, c: char) -> Seq<Seq<char>>
    decreases cands.len(),
{
    if cands.len() == 0 {
        Seq::empty()
    } else if cands.last()[index] == c {
        keep_matching(cands.drop_last(), index, c).push(cands.last())
    } else {
        keep_matching(cands.drop_last(), index, c)
    }
}

/// One sieve round: keep the lines matching the kept bit of this column.
pub open spec fn filter_step(cands: Seq<Seq<char>>, index: int, inverse: bool) -> Seq<Seq<char>> {
    keep_matching(cands, index, keep_char(cands, index, inverse))
}

/// Whether the sieve starting from these candidates reaches a single
/// survivor before running out of columns, never hitting an empty filter.
pub open spec fn sieve_safe(cands: Seq<Seq<char>>, index: int, len: int, inverse: bool) -> bool
    decreases len - index,
{
    if cands.len() == 0 {
        false
    } else if cands.len() == 1 {
        true
    } else if index >= len {
        false
    } else {
        sieve_safe(filter_step(cands, index, inverse), index + 1, len, inverse)
    }
}

/// The surviving line of the sieve.
pub open spec fn sieve_spec(cands: Seq<Seq<char>>, index: int, len: int, inverse: bool) -> Seq<
    char,
>
    decreases len - index,
    when sieve_safe(cands, index, len, inverse)
{
    if cands.len() == 1 {
        cands[0]
    } else {
        sieve_spec(filter_step(cands, index, inverse), index + 1, len, inverse)
    }
}

/// Value of a binary digit string.
pub open spec fn bits_val(s: Seq<char>) -> int
    decreases s.len(),
{
    if s.len() == 0 {
        0
    } else {
        bits_val(s.drop_last()) * 2 + if s.last() == '1' {
            1int
        } else {
            0int
        }
    }
}

/// What parsing a line as a base-2 `u32` yields: digits `0`/`1` after an
/// optional leading `+`, within range.
pub open spec fn radix2_of(s: Seq<char>) -> Option<u32> {
    let body = crate::text::unsigned_body(s);
    if body.len() > 0 && (forall|i: int| 0 <= i < body.len() ==> is_bit(#[trigger] body[i]))
        && bits_val(body) <= u32::MAX {
        Some(bits_val(body) as u32)
    } else {
        None
    }
}

proof fn lemma_bits_prefix_overflow(full: Seq<char>, pre: Seq<char>, bound: int)
    requires
        pre.len() <= full.len(),
        full.take(pre.len() as int) == pre,
        bits_val(pre) > bound,
        bound >= 0,
    ensures
        bits_val(full) > bound,
    decreases full.len() - pre.len(),
{
    if pre.len() == full.len() {
        assert(full =~= pre);
    } else {
        let next = full.take(pre.len() as int + 1);
        assert(next.drop_last() =~= pre);
        assert(bits_val(next) >= bits_val(pre) * 2);
        assert(next.take(next.len() as int) =~= next);
        lemma_bits_prefix_overflow(full, next, bound);
    }
}

/// Parses a binary line as the sieve reports it.
fn parse_radix2(v: &Vec<char>) -> (r: Option<u32>)
    ensures
        r == radix2_of(v@),
{
    let start: usize = if v.len() > 0 && v[0] == '+' {
        1
    } else {
        0
    };
    let ghost body = crate::text::unsigned_body(v@);
    proof {
        assert(body =~= v@.subrange(start as int, v@.len() as int));
    }
    if v.len() == start {
        return None;
    }
    let mut acc: u32 = 0;
    let mut i: usize = start;
    while i < v.len()
        invariant
            start <= i <= v@.len(),
            start < v@.len(),
            start == 0 || (v@.len() > 0 && v@[0] == '+' && start == 1),
            body == crate::text::unsigned_body(v@),
            body =~= v@.subrange(start as int, v@.len() as int),
            forall|k: int| start <= k < i ==> is_bit(#[trigger] v@[k]),
            acc == bits_val(v@.subrange(start as int, i as int)),
        decreases v@.len() - i,
    {
        let c = v[i];
        if !(c == '0' || c == '1') {
            proof {
                assert(!is_bit(body[i - start]));
            }
            return None;
        }
        let d: u32 = if c == '1' {
            1
        } else {
            0
        };
        proof {
            assert(v@.subrange(start as int, i + 1).drop_last() =~= v@.subrange(
                start as int,
                i as int,
            ));
            assert(v@.subrange(start as int, i + 1).last() == v@[i as int]);
        }
        if acc > (u32::MAX - d) / 2 {
            proof {
                let full = v@.subrange(start as int, v@.len() as int);
                let pre = v@.subrange(start as int, i + 1);
                assert(full.take(pre.len() as int) =~= pre);
                assert(bits_val(pre) == acc * 2 + d);
                lemma_bits_prefix_overflow(full, pre, u32::MAX as int);
                assert(bits_val(body) > u32::MAX);
            }
            return None;
        }
        acc = acc * 2 + d;
        i = i + 1;
    }
    proof {
        assert(v@.subrange(start as int, v@.len() as int) =~= body);
    }
    Some(acc)
}

/// Runs the rating sieve from the given column: repeatedly keep the lines
/// matching the most common bit of the column (least common when `inverse`)
/// until one line survives, then read it as a binary number.
pub fn sieve(lines: &Vec<String>, index: usize, inverse: bool) -> (r: Result<u32, DiagError>)
    requires
        lines@.len() > 0,
        forall|k: int|
            0 <= k < lines@.len() ==> (#[trigger] lines@[k]@).len() == lines@[0]@.len(),
        sieve_safe(
            crate::navigation::line_views(lines@),
            index as int,
            lines@[0]@.len() as int,
            inverse,
        ),
    ensures
        r == match radix2_of(
            sieve_spec(
                crate::navigation::line_views(lines@),
                index as int,
                lines@[0]@.len() as int,
                inverse,
            ),
        ) {
            Some(v) => Result::<u32, DiagError>::Ok(v),
            None => Result::<u32, DiagError>::Err(DiagError::InvalidBit),
        },
{
    let ghost views = crate::navigation::line_views(lines@);
    let ghost len = lines@[0]@.len() as int;
    let mut cands: Vec<Vec<char>> = Vec::new();
    let mut k: usize = 0;
    while k < lines.len()
        invariant
            views == crate::navigation::line_views(lines@),
            k <= lines@.len(),
            cands@.len() == k,
            forall|x: int| 0 <= x < k ==> #[trigger] cands@[x]@ == views[x],
        decreases lines@.len() - k,
    {
        let row = chars_of(lines[k].as_str());
        cands.push(row);
        k = k + 1;
    }
    proof {
        assert(grid_views(cands@) =~= views);
    }
    let mut idx = index;
    while cands.len() > 1
        invariant
            0 < cands@.len(),
            forall|x: int| 0 <= x < cands@.len() ==> (#[trigger] cands@[x]@).len() == len,
            sieve_safe(grid_views(cands@), idx as int, len, inverse),
            sieve_spec(grid_views(cands@), idx as int, len, inverse) == sieve_spec(
                views,
                index as int,
                len,
                inverse,
            ),
        decreases len - idx,
    {
        let ghost cviews = grid_views(cands@);
        proof {
            assert(cviews.len() >= 2);
            assert(idx < len);
        }
        let mut ones: usize = 0;
        let mut k: usize = 0;
        while k < cands.len()
            invariant
                cviews == grid_views(cands@),
                k <= cands@.len(),
                idx < len,
                forall|x: int| 0 <= x < cands@.len() ==> (#[trigger] cands@[x]@).len() == len,
                ones == count_at(cviews.take(k as int), idx as int, '1'),
                ones <= k,
            decreases cands@.len() - k,
        {
            proof {
                assert(cviews.take(k + 1).drop_last() =~= cviews.take(k as int));
                assert(cviews.take(k + 1).last() == cviews[k as int]);
            }
            if cands[k][idx] == '1' {
                ones = ones + 1;
            }
            k = k + 1;
        }
        proof {
            assert(cviews.take(cviews.len() as int) =~= cviews);
        }
        let zeroes = cands.len() - ones;
        let keep: char = if (inverse && ones < zeroes) || (!inverse && ones >= zeroes) {
            '1'
        } else {
            '0'
        };
        proof {
            assert(keep == keep_char(cviews, idx as int, inverse));
        }
        let mut next: Vec<Vec<char>> = Vec::new();
        let mut k: usize = 0;
        while k < cands.len()
            invariant
                cviews == grid_views(cands@),
                k <= cands@.len(),
                idx < len,
                forall|x: int| 0 <= x < cands@.len() ==> (#[trigger] cands@[x]@).len() == len,
                forall|x: int| 0 <= x < next@.len() ==> (#[trigger] next@[x]@).len() == len,
                grid_views(next@) =~= keep_matching(cviews.take(k as int), idx as int, keep),
            decreases cands@.len() - k,
        {
            proof {
                assert(cviews.take(k + 1).drop_last() =~= cviews.take(k as int));
                assert(cviews.take(k + 1).last() == cviews[k as int]);
            }
            if cands[k][idx] == keep {
                let row = crate::text::copy_range(&cands[k], 0, cands[k].len());
                proof {
                    assert(row@ =~= cviews[k as int]);
                }
                next.push(row);
                proof {
                    assert(grid_views(next@) =~= keep_matching(
                        cviews.take(k + 1),
                        idx as int,
                        keep,
                    ));
                }
            }
            k = k + 1;
        }
        proof {
            assert(cviews.take(cviews.len() as int) =~= cviews);
            assert(grid_views(next@) =~= filter_step(cviews, idx as int, inverse));
            assert(sieve_safe(filter_step(cviews, idx as int, inverse), idx + 1, len, inverse));
            assert(sieve_spec(cviews, idx as int, len, inverse) == sieve_spec(
                filter_step(cviews, idx as int, inverse),
                idx + 1,
                len,
                inverse,
            ));
        }
        cands = next;
        idx = idx + 1;
    }
    proof {
        assert(grid_views(cands@).len() == 1);
        assert(sieve_spec(grid_views(cands@), idx as int, len, inverse) == grid_views(cands@)[0]);
        assert(grid_views(cands@)[0] == cands@[0]@);
    }
    match parse_radix2(&cands[0]) {
        Some(v) => Ok(v),
        None => Err(DiagError::InvalidBit),
    }
}

} // verus!
