//! Bingo boards: parsing five-by-five boards and playing a number draw until
//! a row or column completes.

use vstd::prelude::*;
use crate::text::{chars_of, split_on, parse_u32, is_unsigned_within, unsigned_body, digits_val};

verus! {

/// Why board text was rejected: a token that is no `u8`, or a line without
/// exactly five numbers.
#[derive(Clone, Copy, Debug, PartialEq, Eq, Structural)]
pub enum BingoError {
    InvalidNumber,
    InvalidLine,
}

/// A five-by-five bingo board.
#[derive(Debug, PartialEq, Eq)]
pub struct BingoBoard(pub Vec<Vec<u8>>);

/// The step at which a board won and its score.
#[derive(Clone, Copy, Debug, PartialEq, Eq, Structural)]
pub struct BingoResult(pub usize, pub u32);

impl View for BingoBoard {
    type V = Seq<Seq<u8>>;

    open spec fn view(&self) -> Seq<Seq<u8>> {
        Seq::new(self.0@.len(), |i: int| self.0@[i]@)
    }
}

impl BingoBoard {
    /// A parsed board always has five rows of five numbers.
    pub open spec fn wf(&self) -> bool {
        self@.len() == 5 && forall|r: int| 0 <= r < 5 ==> (#[trigger] self@[r]).len() == 5
    }
}

pub open spec fn row_sum(row: Seq<u8>) -> int
    decreases row.len(),
{
    if row.len() == 0 {
        0
    } else {
        row_sum(row.drop_last()) + row.last()
    }
}

/// Sum of every number on the board.
pub open spec fn board_total(b: Seq<Seq<u8>>) -> int
    decreases b.len(),
{
    if b.len() == 0 {
        0
    } else {
        board_total(b.drop_last()) + row_sum(b.last())
    }
}

/// Marking state while playing: per-row hit counts, per-column hit counts,
/// and the sum of the numbers hit so far.
pub open spec fn start_state() -> (Seq<int>, Seq<int>, int) {
    (Seq::new(5, |i: int| 0int), Seq::new(5, |i: int| 0int), 0int)
}

/// Scans the 25 cells in row-major order for the drawn number, marking each
/// match; stops with the hit sum as soon as a row or column count reaches
/// five.
pub open spec fn scan_cells(b: Seq<Seq<u8>>, num: u8, st: (Seq<int>, Seq<int>, int), p: int) -> (
    (Seq<int>, Seq<int>, int),
    Option<int>,
)
    decreases 25 - p,
{
    if p < 0 || p >= 25 {
        (st, None)
    } else {
        let r = p / 5;
        let c = p % 5;
        if b[r][c] == num {
            let rows2 = st.0.update(r, st.0[r] + 1);
            let cols2 = st.1.update(c, st.1[c] + 1);
            let hits2 = st.2 + num;
            if rows2[r] == 5 || cols2[c] == 5 {
                ((rows2, cols2, hits2), Some(hits2))
            } else {
                scan_cells(b, num, (rows2, cols2, hits2), p + 1)
            }
        } else {
            scan_cells(b, num, st, p + 1)
        }
    }
}

/// Plays the draw from step `t`: the outcome (winning step and hit sum at
/// completion, if any) and the final hit sum.
pub open spec fn play_from(b: Seq<Seq<u8>>, numbers: Seq<u8>, t: int, st: (Seq<int>, Seq<int>, int))
    -> (Option<(int, int)>, int)
    decreases numbers.len() - t,
{
    if t < 0 || t >= numbers.len() {
        (None, st.2)
    } else {
        let stepped = scan_cells(b, numbers[t], st, 0);
        match stepped.1 {
            Option::Some(h) => (Some((t, h)), h),
            Option::None => play_from(b, numbers, t + 1, stepped.0),
        }
    }
}

/// The outcome of playing the whole draw against a fresh board.
pub open spec fn play(b: Seq<Seq<u8>>, numbers: Seq<u8>) -> (Option<(int, int)>, int) {
    play_from(b, numbers, 0, start_state())
}

/// The words of a line, with the empty ones dropped.
pub open spec fn nonempty_words(ws: Seq<Seq<char>>) -> Seq<Seq<char>>
    decreases ws.len(),
{
    if ws.len() == 0 {
        Seq::empty()
    } else if ws.last().len() == 0 {
        nonempty_words(ws.drop_last())
    } else {
        nonempty_words(ws.drop_last()).push(ws.last())
    }
}

pub open spec fn word_is_u8(w: Seq<char>) -> bool {
    is_unsigned_within(w, 255)
}

pub open spec fn words_all_u8(ws: Seq<Seq<char>>) -> bool {
    forall|i: int| 0 <= i < ws.len() ==> word_is_u8(#[trigger] ws[i])
}

/// What one board line parses to: its five numbers, or the error.
pub open spec fn parse_row_spec(s: Seq<char>) -> Result<Seq<u8>, BingoError> {
    let ws = nonempty_words(crate::text::split_by(s, seq![' ']));
    if !words_all_u8(ws) {
        Result::Err(BingoError::InvalidNumber)
    } else if ws.len() != 5 {
        Result::Err(BingoError::InvalidLine)
    } else {
        Result::Ok(Seq::new(5, |i: int| digits_val(unsigned_body(ws[i])) as u8))
    }
}

/// What reading one board from `pos` yields: five parsed rows (skipping
/// blank lines) and the next line index, `None` at end of input, or the
/// first line's error.
pub open spec fn read_board(lines: Seq<Seq<char>>, pos: int, rows_needed: int) -> Result<
    (Option<Seq<Seq<u8>>>, int),
    BingoError,
>
    decreases lines.len() - pos,
{
    if pos < 0 || pos >= lines.len() {
        Result::Ok((None, pos))
    } else if lines[pos].len() == 0 {
        read_board(lines, pos + 1, rows_needed)
    } else {
        match parse_row_spec(lines[pos]) {
            Result::Err(e) => Result::Err(e),
            Result::Ok(row) => {
                if rows_needed <= 1 {
                    Result::Ok((Some(seq![row]), pos + 1))
                } else {
                    match read_board(lines, pos + 1, rows_needed - 1) {
                        Result::Err(e) => Result::Err(e),
                        Result::Ok((Option::None, p)) => Result::Ok((None, p)),
                        Result::Ok((Option::Some(rest), p)) => Result::Ok(
                            (Some(seq![row] + rest), p),
                        ),
                    }
                }
            },
        }
    }
}

proof fn lemma_nonempty_words_member(ws: Seq<Seq<char>>, i: int)
    requires
        0 <= i < ws.len(),
        ws[i].len() > 0,
    ensures
        nonempty_words(ws).contains(ws[i]),
    decreases ws.len(),
{
    if i == ws.len() - 1 {
        assert(nonempty_words(ws).last() == ws[i]);
    } else {
        lemma_nonempty_words_member(ws.drop_last(), i);
        let j = choose|j: int|
            0 <= j < nonempty_words(ws.drop_last()).len() && nonempty_words(ws.drop_last())[j]
                == ws[i];
        assert(nonempty_words(ws)[j] == ws[i]);
    }
}

/// Parses one board line into its five numbers.
fn parse_row(line: &String) -> (r: Result<Vec<u8>, BingoError>)
    ensures
        match r {
            Result::Ok(row) => parse_row_spec(line@) == Result::<Seq<u8>, BingoError>::Ok(row@)
                && row@.len() == 5,
            Result::Err(e) => parse_row_spec(line@) == Result::<Seq<u8>, BingoError>::Err(e),
        },
{
    let chars = chars_of(line.as_str());
    let mut sep: Vec<char> = Vec::new();
    sep.push(' ');
    proof {
        assert(sep@ =~= seq![' ']);
    }
    let words = split_on(&chars, &sep);
    let ghost all = crate::text::split_by(line@, seq![' ']);
    let mut row: Vec<u8> = Vec::new();
    let mut i: usize = 0;
    while i < words.len()
        invariant
            all == crate::text::split_by(line@, seq![' ']),
            words.deep_view() == all,
            words@.len() == all.len(),
            i <= words@.len(),
            forall|k: int| 0 <= k < i ==> words.deep_view()[k] == words@[k]@,
            row@.len() == nonempty_words(all.take(i as int)).len(),
            words_all_u8(nonempty_words(all.take(i as int))),
            forall|k: int|
                0 <= k < row@.len() ==> row@[k] == digits_val(
                    unsigned_body(#[trigger] nonempty_words(all.take(i as int))[k]),
                ),
        decreases words@.len() - i,
    {
        proof {
            assert(all.take(i + 1).drop_last() =~= all.take(i as int));
            assert(all.take(i + 1).last() == all[i as int]);
            assert(words.deep_view()[i as int] == words@[i as int]@);
        }
        if words[i].len() > 0 {
            let ghost oldrows = nonempty_words(all.take(i as int));
            proof {
                lemma_nonempty_words_member(all, i as int);
            }
            let v = match parse_u32(&words[i]) {
                Some(v) => v,
                None => {
                    proof {
                        assert(words@[i as int]@ == all[i as int]);
                        assert(!is_unsigned_within(all[i as int], u32::MAX as int));
                        assert(!word_is_u8(all[i as int]));
                        assert(nonempty_words(all).contains(all[i as int]));
                        let j = choose|j: int|
                            0 <= j < nonempty_words(all).len() && nonempty_words(all)[j] == all[i as int];
                        assert(!word_is_u8(nonempty_words(all)[j]));
                        assert(!words_all_u8(nonempty_words(all)));
                    }
                    return Err(BingoError::InvalidNumber);
                },
            };
            if v > 255 {
                proof {
                    assert(words@[i as int]@ == all[i as int]);
                    assert(is_unsigned_within(all[i as int], u32::MAX as int));
                    crate::text::lemma_digits_val_nonneg(unsigned_body(all[i as int]));
                    assert(digits_val(unsigned_body(all[i as int])) == v);
                    assert(!word_is_u8(all[i as int]));
                    assert(nonempty_words(all).contains(all[i as int]));
                    let j = choose|j: int|
                        0 <= j < nonempty_words(all).len() && nonempty_words(all)[j] == all[i as int];
                    assert(!word_is_u8(nonempty_words(all)[j]));
                    assert(!words_all_u8(nonempty_words(all)));
                }
                return Err(BingoError::InvalidNumber);
            }
            proof {
                crate::text::lemma_digits_val_nonneg(unsigned_body(all[i as int]));
                assert(words@[i as int]@ == all[i as int]);
                assert(digits_val(unsigned_body(all[i as int])) == v);
                assert(word_is_u8(all[i as int]));
            }
            row.push(v as u8);
            proof {
                assert(nonempty_words(all.take(i + 1)) =~= oldrows.push(all[i as int]));
                assert(row@.last() == digits_val(unsigned_body(all[i as int])) as u8);
            }
        }
        i = i + 1;
    }
    proof {
        assert(all.take(all.len() as int) =~= all);
    }
    if row.len() != 5 {
        return Err(BingoError::InvalidLine);
    }
    proof {
        assert(row@ =~= Seq::new(
            5,
            |i: int| digits_val(unsigned_body(nonempty_words(all)[i])) as u8,
        ));
    }
    Ok(row)
}

/// Views of a vector of parsed rows.
pub open spec fn rows_views(v: Seq<Vec<u8>>) -> Seq<Seq<u8>> {
    Seq::new(v.len(), |i: int| v[i]@)
}

/// Reads rows for one board from `pos`, skipping blank lines.
fn read_rows(lines: &Vec<String>, pos: usize, rows_needed: usize) -> (r: Result<
    (Option<Vec<Vec<u8>>>, usize),
    BingoError,
>)
    requires
        pos <= lines@.len(),
        1 <= rows_needed,
    ensures
        match r {
            Result::Ok((Option::Some(rows), next)) => read_board(
                crate::navigation::line_views(lines@),
                pos as int,
                rows_needed as int,
            ) == Result::<(Option<Seq<Seq<u8>>>, int), BingoError>::Ok(
                (Some(rows_views(rows@)), next as int),
            ) && rows@.len() == rows_needed && (forall|k: int|
                0 <= k < rows@.len() ==> (#[trigger] rows@[k])@.len() == 5) && next <= lines@.len(),
            Result::Ok((Option::None, next)) => read_board(
                crate::navigation::line_views(lines@),
                pos as int,
                rows_needed as int,
            ) == Result::<(Option<Seq<Seq<u8>>>, int), BingoError>::Ok((None, next as int))
                && next <= lines@.len(),
            Result::Err(e) => read_board(
                crate::navigation::line_views(lines@),
                pos as int,
                rows_needed as int,
            ) == Result::<(Option<Seq<Seq<u8>>>, int), BingoError>::Err(e),
        },
    decreases lines@.len() - pos,
{
    let ghost views = crate::navigation::line_views(lines@);
    if pos >= lines.len() {
        return Ok((None, pos));
    }
    proof {
        assert(views[pos as int] == lines@[pos as int]@);
    }
    if lines[pos].as_str().unicode_len() == 0 {
        return read_rows(lines, pos + 1, rows_needed);
    }
    let row = match parse_row(&lines[pos]) {
        Ok(row) => row,
        Err(e) => {
            return Err(e);
        },
    };
    if rows_needed == 1 {
        let mut rows: Vec<Vec<u8>> = Vec::new();
        rows.push(row);
        proof {
            assert(rows_views(rows@) =~= seq![rows@[0]@]);
        }
        return Ok((Some(rows), pos + 1));
    }
    match read_rows(lines, pos + 1, rows_needed - 1) {
        Err(e) => Err(e),
        Ok((None, p)) => Ok((None, p)),
        Ok((Some(rest), p)) => {
            let ghost oldrest = rest@;
            let ghost rowview = row@;
            let mut rest = rest;
            rest.insert(0, row);
            proof {
                assert(rows_views(rest@) =~= seq![rowview] + rows_views(oldrest));
            }
            Ok((Some(rest), p))
        },
    }
}

impl BingoBoard {
    /// Reads the next board from the lines, starting at `start` and skipping
    /// blank lines: five rows of five numbers each.  Returns the board and
    /// the index of the first unread line, or `None` when the input ends
    /// before a full board.
    pub fn new(lines: &Vec<String>, start: usize) -> (r: Result<
        (Option<BingoBoard>, usize),
        BingoError,
    >)
        requires
            start <= lines@.len(),
        ensures
            match r {
                Result::Ok((Option::Some(b), next)) => read_board(
                    crate::navigation::line_views(lines@),
                    start as int,
                    5,
                ) == Result::<(Option<Seq<Seq<u8>>>, int), BingoError>::Ok((Some(b@), next as int))
                    && b.wf(),
                Result::Ok((Option::None, next)) => read_board(
                    crate::navigation::line_views(lines@),
                    start as int,
                    5,
                ) == Result::<(Option<Seq<Seq<u8>>>, int), BingoError>::Ok((None, next as int)),
                Result::Err(e) => read_board(crate::navigation::line_views(lines@), start as int, 5)
                    == Result::<(Option<Seq<Seq<u8>>>, int), BingoError>::Err(e),
            },
    {
        match read_rows(lines, start, 5) {
            Err(e) => Err(e),
            Ok((None, p)) => Ok((None, p)),
            Ok((Some(rows), p)) => {
                let board = BingoBoard(rows);
                proof {
                    assert(board@ =~= rows_views(board.0@));
                }
                Ok((Some(board), p))
            },
        }
    }
}

proof fn lemma_row_sum_bound(row: Seq<u8>)
    ensures
        0 <= row_sum(row) <= 255 * row.len(),
    decreases row.len(),
{
    if row.len() > 0 {
        lemma_row_sum_bound(row.drop_last());
    }
}

proof fn lemma_board_total_bound(b: Seq<Seq<u8>>)
    requires
        forall|r: int| 0 <= r < b.len() ==> (#[trigger] b[r]).len() == 5,
    ensures
        0 <= board_total(b) <= 1275 * b.len(),
    decreases b.len(),
{
    if b.len() > 0 {
        lemma_board_total_bound(b.drop_last());
        lemma_row_sum_bound(b.last());
    }
}

/// The hit sum never shrinks while scanning.
proof fn lemma_scan_mono(b: Seq<Seq<u8>>, num: u8, st: (Seq<int>, Seq<int>, int), p: int)
    ensures
        (scan_cells(b, num, st, p).0).2 >= st.2,
        scan_cells(b, num, st, p).1 is Some ==> scan_cells(b, num, st, p).1->0 >= st.2,
        scan_cells(b, num, st, p).1 is Some ==> scan_cells(b, num, st, p).1->0 == (scan_cells(
            b,
            num,
            st,
            p,
        ).0).2,
    decreases 25 - p,
{
    if !(p < 0 || p >= 25) {
        let r = p / 5;
        let c = p % 5;
        if b[r][c] == num {
            let rows2 = st.0.update(r, st.0[r] + 1);
            let cols2 = st.1.update(c, st.1[c] + 1);
            if !(rows2[r] == 5 || cols2[c] == 5) {
                lemma_scan_mono(b, num, (rows2, cols2, st.2 + num), p + 1);
            }
        } else {
            lemma_scan_mono(b, num, st, p + 1);
        }
    }
}

/// The hit sum never shrinks while playing.
proof fn lemma_play_mono(b: Seq<Seq<u8>>, numbers: Seq<u8>, t: int, st: (Seq<int>, Seq<int>, int))
    ensures
        play_from(b, numbers, t, st).1 >= st.2,
        play_from(b, numbers, t, st).0 is Some ==> ((play_from(b, numbers, t, st).0)->0).1 >= st.2,
    decreases numbers.len() - t,
{
    if !(t < 0 || t >= numbers.len()) {
        lemma_scan_mono(b, numbers[t], st, 0);
        let stepped = scan_cells(b, numbers[t], st, 0);
        if stepped.1 is None {
            lemma_play_mono(b, numbers, t + 1, stepped.0);
        }
    }
}

impl BingoBoard {
    /// Sum of every number on the board.
    pub fn sum(&self) -> (r: u32)
        requires
            self.wf(),
        ensures
            r == board_total(self@),
    {
        let mut total: u32 = 0;
        let mut r: usize = 0;
        while r < 5
            invariant
                self.wf(),
                r <= 5,
                total == board_total(self@.take(r as int)),
                total <= 1275 * r,
            decreases 5 - r,
        {
            proof {
                assert(self@.take(r + 1).drop_last() =~= self@.take(r as int));
                assert(self@.take(r + 1).last() == self@[r as int]);
                lemma_row_sum_bound(self@[r as int]);
            }
            let mut rowsum: u32 = 0;
            let mut c: usize = 0;
            while c < 5
                invariant
                    self.wf(),
                    r < 5,
                    c <= 5,
                    rowsum == row_sum(self@[r as int].take(c as int)),
                    rowsum <= 255 * c,
                decreases 5 - c,
            {
                proof {
                    assert(self@[r as int].take(c + 1).drop_last() =~= self@[r as int].take(
                        c as int,
                    ));
                    assert(self@[r as int].take(c + 1).last() == self@[r as int][c as int]);
                    assert(self@[r as int][c as int] == self.0@[r as int]@[c as int]);
                }
                rowsum = rowsum + (self.0[r][c] as u32);
                c = c + 1;
            }
            proof {
                assert(self@[r as int].take(5) =~= self@[r as int]);
            }
            total = total + rowsum;
            r = r + 1;
        }
        proof {
            assert(self@.take(5) =~= self@);
        }
        total
    }

    /// Plays the number draw against this board: marks each drawn number's
    /// cells in row-major order, and as soon as five cells of one row or
    /// column are marked, reports the step and the board's score, the drawn
    /// number times the sum of the unmarked numbers.
    pub fn bingo(&self, numbers: &[u8]) -> (r: Option<BingoResult>)
        requires
            self.wf(),
            play(self@, numbers@).0 is Some ==> ((play(self@, numbers@).0)->0).1 <= board_total(self@),
            play(self@, numbers@).0 is None ==> play(self@, numbers@).1 <= u32::MAX,
        ensures
            r == match play(self@, numbers@).0 {
                Option::Some(th) => Option::Some(
                    BingoResult(
                        th.0 as usize,
                        (numbers@[th.0] * (board_total(self@) - th.1)) as u32,
                    ),
                ),
                Option::None => Option::<BingoResult>::None,
            },
    {
        let ghost b = self@;
        let ghost nums = numbers@;
        let total = self.sum();
        proof {
            lemma_board_total_bound(b);
        }
        let mut rows: Vec<u8> = Vec::new();
        let mut cols: Vec<u8> = Vec::new();
        let mut k: usize = 0;
        while k < 5
            invariant
                k <= 5,
                rows@.len() == k,
                cols@.len() == k,
                forall|x: int| 0 <= x < k ==> rows@[x] == 0 && cols@[x] == 0,
            decreases 5 - k,
        {
            rows.push(0);
            cols.push(0);
            k = k + 1;
        }
        let ghost mut st: (Seq<int>, Seq<int>, int) = start_state();
        proof {
            assert(st.0 =~= Seq::new(5, |i: int| rows@[i] as int));
            assert(st.1 =~= Seq::new(5, |i: int| cols@[i] as int));
        }
        let mut hits: u32 = 0;
        let mut step: usize = 0;
        while step < numbers.len()
            invariant
                self.wf(),
                b == self@,
                nums == numbers@,
                total == board_total(b),
                total <= 6375,
                step <= nums.len(),
                rows@.len() == 5,
                cols@.len() == 5,
                st.0 =~= Seq::new(5, |i: int| rows@[i] as int),
                st.1 =~= Seq::new(5, |i: int| cols@[i] as int),
                st.2 == hits as int,
                forall|x: int| 0 <= x < 5 ==> rows@[x] <= 4 && cols@[x] <= 4,
                play_from(b, nums, step as int, st) == play(b, nums),
                play(b, nums).0 is Some ==> ((play(b, nums).0)->0).1 <= board_total(b),
                play(b, nums).0 is None ==> play(b, nums).1 <= u32::MAX,
            decreases nums.len() - step,
        {
            let num = numbers[step];
            let ghost st_outer = st;
            let mut p: usize = 0;
            while p < 25
                invariant
                    self.wf(),
                    b == self@,
                    nums == numbers@,
                    total == board_total(b),
                    total <= 6375,
                    step < nums.len(),
                    num == nums[step as int],
                    rows@.len() == 5,
                    cols@.len() == 5,
                    p <= 25,
                    st.0 =~= Seq::new(5, |i: int| rows@[i] as int),
                    st.1 =~= Seq::new(5, |i: int| cols@[i] as int),
                    st.2 == hits as int,
                    forall|x: int| 0 <= x < 5 ==> rows@[x] <= 4 && cols@[x] <= 4,
                    scan_cells(b, num, st, p as int) == scan_cells(b, num, st_outer, 0),
                    play_from(b, nums, step as int, st_outer) == play(b, nums),
                    play(b, nums).0 is Some ==> ((play(b, nums).0)->0).1 <= board_total(b),
                    play(b, nums).0 is None ==> play(b, nums).1 <= u32::MAX,
                decreases 25 - p,
            {
                let r = p / 5;
                let c = p % 5;
                proof {
                    assert(b[r as int][c as int] == self.0@[r as int]@[c as int]);
                }
                if self.0[r][c] == num {
                    let ghost rows2 = st.0.update(r as int, st.0[r as int] + 1);
                    let ghost cols2 = st.1.update(c as int, st.1[c as int] + 1);
                    let ghost hits2 = st.2 + num;
                    proof {
                        lemma_scan_mono(b, num, (rows2, cols2, hits2), p + 1);
                        if !(rows2[r as int] == 5 || cols2[c as int] == 5) {
                            assert(scan_cells(b, num, (rows2, cols2, hits2), p + 1) == scan_cells(
                                b,
                                num,
                                st_outer,
                                0,
                            ));
                            let fin = scan_cells(b, num, (rows2, cols2, hits2), p + 1);
                            lemma_play_mono(b, nums, step + 1, fin.0);
                            if fin.1 is Some {
                                assert(play(b, nums).0 == Some((step as int, fin.1->0)));
                                assert(hits2 <= board_total(b));
                            } else {
                                assert(play_from(b, nums, step + 1, fin.0) == play(b, nums));
                                assert(hits2 <= (fin.0).2);
                            }
                        } else {
                            assert(scan_cells(b, num, st, p as int).1 == Some(hits2));
                            assert(play(b, nums).0 == Some((step as int, hits2)));
                            assert(hits2 <= board_total(b));
                        }
                    }
                    rows[r] = rows[r] + 1;
                    cols[c] = cols[c] + 1;
                    hits = hits + (num as u32);
                    proof {
                        st = (rows2, cols2, hits2);
                        assert(st.0 =~= Seq::new(5, |i: int| rows@[i] as int));
                        assert(st.1 =~= Seq::new(5, |i: int| cols@[i] as int));
                    }
                    if rows[r] == 5 || cols[c] == 5 {
                        let unhit = total - hits;
                        proof {
                            assert((num as int) * (unhit as int) <= 255 * 6375)
                                by (nonlinear_arith)
                                requires
                                    0 <= num <= 255,
                                    0 <= unhit <= 6375,
                            ;
                        }
                        return Some(BingoResult(step, num as u32 * unhit));
                    }
                    proof {
                        assert(rows@[r as int] <= 4 && cols@[c as int] <= 4);
                    }
                } else {
                    proof {
                        assert(scan_cells(b, num, st, p + 1) == scan_cells(b, num, st_outer, 0));
                    }
                }
                p = p + 1;
            }
            proof {
                assert(scan_cells(b, num, st, 25).1 is None);
                assert(scan_cells(b, num, st_outer, 0).1 is None);
                assert(play_from(b, nums, step + 1, st) == play(b, nums));
            }
            step = step + 1;
        }
        None
    }
}

} // verus!
