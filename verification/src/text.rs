//! Shared text helpers: character extraction, numeric parsing and splitting.

use vstd::prelude::*;

verus! {

/// Collects the characters of a string slice into a vector.
pub fn chars_of(s: &str) -> (r: Vec<char>)
    ensures
        r@ == s@,
{
    let len = s.unicode_len();
    let mut r: Vec<char> = Vec::new();
    let mut i: usize = 0;
    while i < len
        invariant
            i <= len,
            len == s@.len(),
            r@ == s@.take(i as int),
        decreases len - i,
    {
        let c = s.get_char(i);
        r.push(c);
        proof {
            assert(s@.take(i + 1) =~= s@.take(i as int).push(s@[i as int]));
        }
        i = i + 1;
    }
    proof {
        assert(s@.take(len as int) =~= s@);
    }
    r
}

/// Whether the vector holds the character `c`.
pub fn contains_char(v: &Vec<char>, c: char) -> (r: bool)
    ensures
        r == v@.contains(c),
{
    let mut i: usize = 0;
    while i < v.len()
        invariant
            i <= v@.len(),
            forall|k: int| 0 <= k < i ==> v@[k] != c,
        decreases v@.len() - i,
    {
        if v[i] == c {
            return true;
        }
        i = i + 1;
    }
    false
}

pub open spec fn is_digit(c: char) -> bool {
    '0' <= c && c <= '9'
}

pub open spec fn digit_val(c: char) -> int {
    c as int - '0' as int
}

/// Value of an unsigned decimal digit string.
pub open spec fn digits_val(s: Seq<char>) -> int
    decreases s.len(),
{
    if s.len() == 0 {
        0
    } else {
        digits_val(s.drop_last()) * 10 + digit_val(s.last())
    }
}

/// A non-empty run of decimal digits.
pub open spec fn all_digits(s: Seq<char>) -> bool {
    s.len() > 0 && forall|i: int| 0 <= i < s.len() ==> is_digit(#[trigger] s[i])
}

/// The digit run of an unsigned decimal string, after an optional leading `+`.
pub open spec fn unsigned_body(s: Seq<char>) -> Seq<char> {
    if s.len() > 0 && s[0] == '+' {
        s.drop_first()
    } else {
        s
    }
}

/// Whether `s` is a well-formed unsigned decimal string whose value fits below
/// `bound`.
pub open spec fn is_unsigned_within(s: Seq<char>, bound: int) -> bool {
    all_digits(unsigned_body(s)) && digits_val(unsigned_body(s)) <= bound
}

pub proof fn lemma_digits_val_nonneg(s: Seq<char>)
    requires
        forall|i: int| 0 <= i < s.len() ==> is_digit(#[trigger] s[i]),
    ensures
        digits_val(s) >= 0,
    decreases s.len(),
{
    if s.len() > 0 {
        lemma_digits_val_nonneg(s.drop_last());
    }
}

/// Parses an unsigned decimal string (optionally prefixed with `+`), exactly
/// as `u32::from_str` accepts it: `None` on empty input, a stray character or
/// a value above `u32::MAX`.
pub fn parse_u32(v: &Vec<char>) -> (r: Option<u32>)
    ensures
        is_unsigned_within(v@, u32::MAX as int) ==> r == Some(digits_val(unsigned_body(v@)) as u32),
        !is_unsigned_within(v@, u32::MAX as int) ==> r is None,
{
    let start: usize = if v.len() > 0 && v[0] == '+' {
        1
    } else {
        0
    };
    let ghost body = unsigned_body(v@);
    proof {
        assert(body =~= v@.subrange(start as int, v@.len() as int));
    }
    if v.len() == start {
        return None;
    }
    let mut acc: u32 = 0;
    let mut i: usize = start;
    while i < v.len()
        invariant
            start <= i <= v@.len(),
            start < v@.len(),
            start == 0 || (v@.len() > 0 && v@[0] == '+' && start == 1),
            body == unsigned_body(v@),
            body =~= v@.subrange(start as int, v@.len() as int),
            forall|k: int| start <= k < i ==> is_digit(#[trigger] v@[k]),
            acc == digits_val(v@.subrange(start as int, i as int)),
        decreases v@.len() - i,
    {
        let c = v[i];
        if !('0' <= c && c <= '9') {
            proof {
                assert(!is_digit(body[i - start]));
            }
            return None;
        }
        let d: u32 = (c as u32) - ('0' as u32);
        proof {
            assert(v@.subrange(start as int, i + 1).drop_last() =~= v@.subrange(
                start as int,
                i as int,
            ));
            assert(v@.subrange(start as int, i + 1).last() == v@[i as int]);
        }
        if acc > (u32::MAX - d) / 10 {
            proof {
                let full = v@.subrange(start as int, v@.len() as int);
                let pre = v@.subrange(start as int, i + 1);
                assert(full.take(pre.len() as int) =~= pre);
                assert(digits_val(pre) == acc * 10 + digit_val(v@[i as int]));
                assert(acc * 10 + d > u32::MAX) by (nonlinear_arith)
                    requires
                        acc > (u32::MAX - d) / 10,
                        0 <= d <= 9,
                        acc >= 0,
                ;
                if all_digits(full) {
                    lemma_digits_prefix_overflow(full, pre, u32::MAX as int);
                }
            }
            return None;
        }
        acc = acc * 10 + d;
        i = i + 1;
    }
    proof {
        assert(v@.subrange(start as int, v@.len() as int) =~= body);
    }
    Some(acc)
}

/// Index of the first occurrence of `sep` in `s` at or after `from`, or -1.
pub open spec fn first_occurrence(s: Seq<char>, sep: Seq<char>, from: int) -> int
    decreases s.len() - from,
    when sep.len() >= 1
{
    if from + sep.len() > s.len() {
        -1
    } else if s.subrange(from, from + sep.len()) == sep {
        from
    } else {
        first_occurrence(s, sep, from + 1)
    }
}

/// The pieces of `s` between non-overlapping occurrences of `sep`, scanned
/// left to right, as `str::split` produces them.
pub open spec fn split_by(s: Seq<char>, sep: Seq<char>) -> Seq<Seq<char>>
    decreases s.len(),
    when sep.len() >= 1
    via split_by_decreases
{
    let i = first_occurrence(s, sep, 0);
    if i < 0 {
        seq![s]
    } else {
        seq![s.subrange(0, i)] + split_by(s.subrange(i + sep.len(), s.len() as int), sep)
    }
}

#[via_fn]
proof fn split_by_decreases(s: Seq<char>, sep: Seq<char>) {
    lemma_first_occurrence_bounds(s, sep, 0);
}

proof fn lemma_first_occurrence_skip(s: Seq<char>, sep: Seq<char>, from: int, to: int)
    requires
        sep.len() >= 1,
        0 <= from <= to,
        forall|k: int| from <= k < to ==> #[trigger] s.subrange(k, k + sep.len()) != sep,
    ensures
        first_occurrence(s, sep, from) == first_occurrence(s, sep, to),
    decreases to - from,
{
    if from < to {
        lemma_first_occurrence_skip(s, sep, from + 1, to);
    }
}

proof fn lemma_first_occurrence_bounds(s: Seq<char>, sep: Seq<char>, from: int)
    requires
        sep.len() >= 1,
        0 <= from,
    ensures
        first_occurrence(s, sep, from) == -1 || (from <= first_occurrence(s, sep, from)
            && first_occurrence(s, sep, from) + sep.len() <= s.len() && s.subrange(
            first_occurrence(s, sep, from),
            first_occurrence(s, sep, from) + sep.len(),
        ) == sep),
    decreases s.len() - from,
{
    if from + sep.len() <= s.len() && s.subrange(from, from + sep.len()) != sep {
        lemma_first_occurrence_bounds(s, sep, from + 1);
    }
}

/// Copies `v[from..to]` into a fresh vector.
pub fn copy_range(v: &Vec<char>, from: usize, to: usize) -> (r: Vec<char>)
    requires
        from <= to <= v@.len(),
    ensures
        r@ == v@.subrange(from as int, to as int),
{
    let mut r: Vec<char> = Vec::new();
    let mut i: usize = from;
    while i < to
        invariant
            from <= i <= to <= v@.len(),
            r@ == v@.subrange(from as int, i as int),
        decreases to - i,
    {
        r.push(v[i]);
        proof {
            assert(v@.subrange(from as int, i + 1) =~= v@.subrange(from as int, i as int).push(
                v@[i as int],
            ));
        }
        i = i + 1;
    }
    r
}

/// Whether `sep` occurs in `v` starting at `at`.
fn matches_at(v: &Vec<char>, sep: &Vec<char>, at: usize) -> (r: bool)
    requires
        at + sep@.len() <= v@.len(),
    ensures
        r == (v@.subrange(at as int, at + sep@.len()) == sep@),
{
    let n = v.len();
    let mut i: usize = 0;
    while i < sep.len()
        invariant
            n == v@.len(),
            i <= sep@.len(),
            at + sep@.len() <= v@.len(),
            forall|k: int| 0 <= k < i ==> v@[at + k] == sep@[k],
        decreases sep@.len() - i,
    {
        if v[at + i] != sep[i] {
            proof {
                assert(v@.subrange(at as int, at + sep@.len())[i as int] != sep@[i as int]);
            }
            return false;
        }
        i = i + 1;
    }
    proof {
        assert(v@.subrange(at as int, at + sep@.len()) =~= sep@);
    }
    true
}

/// Index of the first occurrence of `sep` in `v`, if any.
pub fn find_first(v: &Vec<char>, sep: &Vec<char>) -> (r: Option<usize>)
    requires
        sep@.len() >= 1,
    ensures
        match r {
            Some(i) => first_occurrence(v@, sep@, 0) == i && i + sep@.len() <= v@.len()
                && v@.subrange(i as int, i + sep@.len()) == sep@,
            None => first_occurrence(v@, sep@, 0) == -1,
        },
{
    if sep.len() > v.len() {
        return None;
    }
    let n = v.len();
    let limit = n - sep.len();
    let mut from: usize = 0;
    while from <= limit
        invariant
            n == v@.len(),
            sep@.len() >= 1,
            sep@.len() <= v@.len(),
            limit == v@.len() - sep@.len(),
            from <= limit + 1,
            forall|k: int| 0 <= k < from ==> #[trigger] v@.subrange(k, k + sep@.len()) != sep@,
        decreases limit + 1 - from,
    {
        if matches_at(v, sep, from) {
            proof {
                lemma_first_occurrence_skip(v@, sep@, 0, from as int);
            }
            return Some(from);
        }
        from = from + 1;
    }
    proof {
        lemma_first_occurrence_skip(v@, sep@, 0, from as int);
    }
    None
}

/// Splits `v` on every occurrence of `sep`, exactly as `str::split` does.
pub fn split_on(v: &Vec<char>, sep: &Vec<char>) -> (r: Vec<Vec<char>>)
    requires
        sep@.len() >= 1,
    ensures
        r.deep_view() == split_by(v@, sep@),
    decreases v@.len(),
{
    let mut r: Vec<Vec<char>> = Vec::new();
    match find_first(v, sep) {
        None => {
            let whole = copy_range(v, 0, v.len());
            r.push(whole);
            proof {
                assert(v@.subrange(0, v@.len() as int) =~= v@);
                assert(r.deep_view() =~~= split_by(v@, sep@));
            }
        },
        Some(i) => {
            proof {
                lemma_first_occurrence_bounds(v@, sep@, 0);
            }
            let n = v.len();
            let head = copy_range(v, 0, i);
            let tail = copy_range(v, i + sep.len(), n);
            let mut rest = split_on(&tail, sep);
            r.push(head);
            r.append(&mut rest);
            proof {
                assert(r.deep_view() =~~= split_by(v@, sep@));
            }
        },
    }
    r
}

/// A digit string is at least as large as any of its digit prefixes scaled up;
/// so once a prefix overflows the bound, the whole string does.
proof fn lemma_digits_prefix_overflow(full: Seq<char>, pre: Seq<char>, bound: int)
    requires
        pre.len() <= full.len(),
        full.take(pre.len() as int) == pre,
        forall|i: int| 0 <= i < full.len() ==> is_digit(#[trigger] full[i]),
        digits_val(pre) > bound,
        bound >= 0,
    ensures
        digits_val(full) > bound,
    decreases full.len() - pre.len(),
{
    if pre.len() == full.len() {
        assert(full =~= pre);
    } else {
        let next = full.take(pre.len() as int + 1);
        assert(next.drop_last() =~= pre);
        assert(is_digit(next.last()));
        assert(digit_val(next.last()) >= 0);
        assert(digits_val(next) == digits_val(pre) * 10 + digit_val(next.last()));
        assert(digits_val(next) > bound) by (nonlinear_arith)
            requires
                digits_val(next) == digits_val(pre) * 10 + digit_val(next.last()),
                digits_val(pre) > bound,
                bound >= 0,
                digit_val(next.last()) >= 0,
        ;
        assert(next.take(next.len() as int) =~= next);
        lemma_digits_prefix_overflow(full, next, bound);
    }
}

/// The digit run of a signed decimal string, after an optional sign.
pub open spec fn signed_body(s: Seq<char>) -> Seq<char> {
    if s.len() > 0 && (s[0] == '+' || s[0] == '-') {
        s.drop_first()
    } else {
        s
    }
}

/// The value a signed decimal string denotes.
pub open spec fn signed_value(s: Seq<char>) -> int {
    if s.len() > 0 && s[0] == '-' {
        -digits_val(signed_body(s))
    } else {
        digits_val(signed_body(s))
    }
}

/// Whether `s` is a well-formed signed decimal string whose value fits `i64`,
/// exactly as `i64::from_str` accepts it.
pub open spec fn is_i64_str(s: Seq<char>) -> bool {
    all_digits(signed_body(s)) && i64::MIN <= signed_value(s) <= i64::MAX
}

/// Parses a signed decimal string exactly as `i64::from_str` does: `None` on
/// empty input, a stray character or a value outside the `i64` range.
pub fn parse_i64(v: &Vec<char>) -> (r: Option<i64>)
    ensures
        is_i64_str(v@) ==> r == Some(signed_value(v@) as i64),
        !is_i64_str(v@) ==> r is None,
{
    let negative = v.len() > 0 && v[0] == '-';
    let start: usize = if v.len() > 0 && (v[0] == '+' || v[0] == '-') {
        1
    } else {
        0
    };
    let ghost body = signed_body(v@);
    proof {
        assert(body =~= v@.subrange(start as int, v@.len() as int));
    }
    if v.len() == start {
        return None;
    }
    let limit: u64 = if negative {
        0x8000_0000_0000_0000
    } else {
        0x7fff_ffff_ffff_ffff
    };
    let mut acc: u64 = 0;
    let mut i: usize = start;
    while i < v.len()
        invariant
            start <= i <= v@.len(),
            start < v@.len(),
            start <= 1,
            start == 1 ==> v@.len() > 0 && (v@[0] == '+' || v@[0] == '-'),
            start == 0 ==> !(v@.len() > 0 && (v@[0] == '+' || v@[0] == '-')),
            negative == (v@.len() > 0 && v@[0] == '-'),
            limit == if negative {
                0x8000_0000_0000_0000u64
            } else {
                0x7fff_ffff_ffff_ffffu64
            },
            body == signed_body(v@),
            body =~= v@.subrange(start as int, v@.len() as int),
            forall|k: int| start <= k < i ==> is_digit(#[trigger] v@[k]),
            acc == digits_val(v@.subrange(start as int, i as int)),
            acc <= limit,
        decreases v@.len() - i,
    {
        let c = v[i];
        if !('0' <= c && c <= '9') {
            proof {
                assert(!is_digit(body[i - start]));
            }
            return None;
        }
        let d: u64 = (c as u64) - ('0' as u64);
        proof {
            assert(v@.subrange(start as int, i + 1).drop_last() =~= v@.subrange(
                start as int,
                i as int,
            ));
            assert(v@.subrange(start as int, i + 1).last() == v@[i as int]);
        }
        if acc > (limit - d) / 10 {
            proof {
                let full = v@.subrange(start as int, v@.len() as int);
                let pre = v@.subrange(start as int, i + 1);
                assert(full.take(pre.len() as int) =~= pre);
                assert(digits_val(pre) == acc * 10 + digit_val(v@[i as int]));
                assert(acc * 10 + d > limit) by (nonlinear_arith)
                    requires
                        acc > (limit - d) / 10,
                        0 <= d <= 9,
                        acc >= 0,
                        limit >= 0,
                ;
                if all_digits(full) {
                    lemma_digits_prefix_overflow(full, pre, limit as int);
                    assert(digits_val(body) > limit);
                }
            }
            return None;
        }
        acc = acc * 10 + d;
        i = i + 1;
    }
    proof {
        assert(v@.subrange(start as int, v@.len() as int) =~= body);
        assert(acc == digits_val(body));
    }
    if negative {
        if acc == 0x8000_0000_0000_0000 {
            Some(i64::MIN)
        } else {
            Some(-(acc as i64))
        }
    } else {
        Some(acc as i64)
    }
}

/// Whether two character vectors hold the same characters.
pub fn chars_eq(a: &Vec<char>, b: &Vec<char>) -> (r: bool)
    ensures
        r == (a@ =~= b@),
{
    if a.len() != b.len() {
        return false;
    }
    let mut i: usize = 0;
    while i < a.len()
        invariant
            a@.len() == b@.len(),
            i <= a@.len(),
            forall|k: int| 0 <= k < i ==> a@[k] == b@[k],
        decreases a@.len() - i,
    {
        if a[i] != b[i] {
            return false;
        }
        i = i + 1;
    }
    true
}

/// Relies on `String::from_iter` over the vector's characters: the returned
/// string holds exactly those characters in order.
#[verifier::external_body]
pub(crate) fn string_of_chars(v: &Vec<char>) -> (r: String)
    ensures
        r@ == v@,
{
    v.iter().collect()
}

/// Parses an unsigned decimal string (optionally prefixed with `+`), exactly
/// as `usize::from_str` accepts it.
pub fn parse_usize(v: &Vec<char>) -> (r: Option<usize>)
    ensures
        is_unsigned_within(v@, usize::MAX as int) ==> r == Some(
            digits_val(unsigned_body(v@)) as usize,
        ),
        !is_unsigned_within(v@, usize::MAX as int) ==> r is None,
{
    let start: usize = if v.len() > 0 && v[0] == '+' {
        1
    } else {
        0
    };
    let ghost body = unsigned_body(v@);
    proof {
        assert(body =~= v@.subrange(start as int, v@.len() as int));
    }
    if v.len() == start {
        return None;
    }
    let mut acc: usize = 0;
    let mut i: usize = start;
    while i < v.len()
        invariant
            start <= i <= v@.len(),
            start < v@.len(),
            start == 0 || (v@.len() > 0 && v@[0] == '+' && start == 1),
            body == unsigned_body(v@),
            body =~= v@.subrange(start as int, v@.len() as int),
            forall|k: int| start <= k < i ==> is_digit(#[trigger] v@[k]),
            acc == digits_val(v@.subrange(start as int, i as int)),
        decreases v@.len() - i,
    {
        let c = v[i];
        if !('0' <= c && c <= '9') {
            proof {
                assert(!is_digit(body[i - start]));
            }
            return None;
        }
        let d: usize = ((c as u32) - ('0' as u32)) as usize;
        proof {
            assert(v@.subrange(start as int, i + 1).drop_last() =~= v@.subrange(
                start as int,
                i as int,
            ));
            assert(v@.subrange(start as int, i + 1).last() == v@[i as int]);
        }
        if acc > (usize::MAX - d) / 10 {
            proof {
                let full = v@.subrange(start as int, v@.len() as int);
                let pre = v@.subrange(start as int, i + 1);
                assert(full.take(pre.len() as int) =~= pre);
                assert(digits_val(pre) == acc * 10 + digit_val(v@[i as int]));
                assert(acc * 10 + d > usize::MAX) by (nonlinear_arith)
                    requires
                        acc > (usize::MAX - d) / 10,
                        0 <= d <= 9,
                        acc >= 0,
                        usize::MAX >= 0,
                ;
                if all_digits(full) {
                    lemma_digits_prefix_overflow(full, pre, usize::MAX as int);
                }
            }
            return None;
        }
        acc = acc * 10 + d;
        i = i + 1;
    }
    proof {
        assert(v@.subrange(start as int, v@.len() as int) =~= body);
    }
    Some(acc)
}

/// Whether two string slices hold the same characters.
pub fn str_eq(a: &str, b: &str) -> (r: bool)
    ensures
        r == (a@ == b@),
{
    let av = chars_of(a);
    let bv = chars_of(b);
    chars_eq(&av, &bv)
}

} // verus!
