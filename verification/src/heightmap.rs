//! Smoke heightmap: low points and basin flood fill.

use vstd::prelude::*;
use crate::text::{chars_of, is_digit, digit_val};

verus! {

/// Why heightmap text was rejected.
#[derive(Clone, Copy, Debug, PartialEq, Eq, Structural)]
pub enum MapError {
    InvalidDigit,
    WrongColumns,
    WrongRows,
}

/// A rectangular grid of heights 0-9.
#[derive(Debug, PartialEq, Eq)]
pub struct HeightMap(pub Vec<Vec<u8>>);

impl View for HeightMap {
    type V = Seq<Seq<u8>>;

    open spec fn view(&self) -> Seq<Seq<u8>> {
        Seq::new(self.0@.len(), |i: int| self.0@[i]@)
    }
}

impl HeightMap {
    /// Every row has the same width.
    pub open spec fn wf(&self) -> bool {
        forall|r: int| 0 <= r < self@.len() ==> (#[trigger] self@[r]).len() == self@[0].len()
    }
}

pub open spec fn line_digits_ok(s: Seq<char>) -> bool {
    forall|i: int| 0 <= i < s.len() ==> is_digit(#[trigger] s[i])
}

pub open spec fn map_line_bad(s: Seq<char>, cols: int) -> bool {
    !line_digits_ok(s) || s.len() != cols
}

/// Index of the first unusable line, or the line count if all parse.
pub open spec fn first_bad_map_line(lines: Seq<Seq<char>>, cols: int) -> int
    decreases lines.len(),
{
    if lines.len() == 0 {
        0
    } else if map_line_bad(lines[0], cols) {
        0
    } else {
        1 + first_bad_map_line(lines.drop_first(), cols)
    }
}

impl HeightMap {
    /// Parses a heightmap of exactly `rows` lines of `cols` digits each.
    pub fn parse(lines: &Vec<String>, rows: usize, cols: usize) -> (r: Result<HeightMap, MapError>)
        ensures
            ({
                let views = crate::navigation::line_views(lines@);
                let fb = first_bad_map_line(views, cols as int);
                match r {
                    Result::Ok(m) => fb == views.len() && views.len() == rows && m@.len() == rows
                        && (forall|i: int|
                        0 <= i < rows ==> (#[trigger] m@[i]).len() == cols) && (forall|
                        i: int,
                        j: int,
                    |
                        0 <= i < rows && 0 <= j < cols ==> m@[i][j] == digit_val(
                            #[trigger] views[i][j],
                        )) && m.wf(),
                    Result::Err(MapError::InvalidDigit) => fb < views.len() && !line_digits_ok(
                        views[fb],
                    ),
                    Result::Err(MapError::WrongColumns) => fb < views.len() && line_digits_ok(
                        views[fb],
                    ) && views[fb].len() != cols,
                    Result::Err(MapError::WrongRows) => fb == views.len() && views.len() != rows,
                }
            }),
    {
        let ghost views = crate::navigation::line_views(lines@);
        proof {
            assert(views.skip(0) =~= views);
        }
        let mut grid: Vec<Vec<u8>> = Vec::new();
        let mut i: usize = 0;
        while i < lines.len()
            invariant
                views == crate::navigation::line_views(lines@),
                views.len() == lines@.len(),
                i <= lines@.len(),
                grid@.len() == i,
                first_bad_map_line(views, cols as int) == i + first_bad_map_line(
                    views.skip(i as int),
                    cols as int,
                ),
                forall|k: int| 0 <= k < i ==> !map_line_bad(#[trigger] views[k], cols as int),
                forall|k: int| 0 <= k < i ==> (#[trigger] grid@[k])@.len() == cols,
                forall|k: int, j: int|
                    0 <= k < i && 0 <= j < cols ==> grid@[k]@[j] == digit_val(
                        #[trigger] views[k][j],
                    ),
            decreases lines@.len() - i,
        {
            let ghost rest = views.skip(i as int);
            proof {
                assert(rest[0] == views[i as int]);
                assert(rest.drop_first() =~= views.skip(i + 1));
            }
            let chars = chars_of(lines[i].as_str());
            let mut row: Vec<u8> = Vec::new();
            let mut c: usize = 0;
            while c < chars.len()
                invariant
                    chars@ == lines@[i as int]@,
                    views == crate::navigation::line_views(lines@),
                    views.len() == lines@.len(),
                    first_bad_map_line(views, cols as int) == i + first_bad_map_line(
                        views.skip(i as int),
                        cols as int,
                    ),
                    i < lines@.len(),
                    c <= chars@.len(),
                    row@.len() == c,
                    forall|x: int| 0 <= x < c ==> is_digit(#[trigger] chars@[x]),
                    forall|x: int| 0 <= x < c ==> row@[x] == digit_val(chars@[x]),
                decreases chars@.len() - c,
            {
                let ch = chars[c];
                if !('0' <= ch && ch <= '9') {
                    proof {
                        assert(views[i as int] == lines@[i as int]@);
                        assert(!line_digits_ok(views[i as int]));
                        assert(views.skip(i as int)[0] == views[i as int]);
                        assert(first_bad_map_line(views.skip(i as int), cols as int) == 0);
                    }
                    return Err(MapError::InvalidDigit);
                }
                row.push(((ch as u32) - ('0' as u32)) as u8);
                c = c + 1;
            }
            proof {
                assert(views[i as int] == lines@[i as int]@);
            }
            if row.len() != cols {
                proof {
                    assert(line_digits_ok(views[i as int]));
                    assert(views[i as int].len() != cols);
                    assert(first_bad_map_line(views.skip(i as int), cols as int) == 0);
                }
                return Err(MapError::WrongColumns);
            }
            grid.push(row);
            i = i + 1;
        }
        proof {
            assert(views.skip(views.len() as int) =~= Seq::<Seq<char>>::empty());
        }
        if grid.len() != rows {
            return Err(MapError::WrongRows);
        }
        let m = HeightMap(grid);
        proof {
            assert(forall|k: int| 0 <= k < rows ==> (#[trigger] m@[k]).len() == cols);
        }
        Ok(m)
    }

    /// Whether the cell is lower than every orthogonal neighbour.
    pub open spec fn is_lowpoint(m: Seq<Seq<u8>>, r: int, c: int) -> bool {
        &&& (r == 0 || m[r - 1][c] > m[r][c])
        &&& (r == m.len() - 1 || m[r + 1][c] > m[r][c])
        &&& (c == 0 || m[r][c - 1] > m[r][c])
        &&& (c == m[r].len() - 1 || m[r][c + 1] > m[r][c])
    }

    /// The heights of the low points among the first `p` cells in row-major
    /// order.
    pub open spec fn lowpoints_upto(m: Seq<Seq<u8>>, cols: int, p: int) -> Seq<u8>
        decreases p,
    {
        if p <= 0 || cols <= 0 {
            Seq::empty()
        } else {
            let prev = Self::lowpoints_upto(m, cols, p - 1);
            if Self::is_lowpoint(m, (p - 1) / cols, (p - 1) % cols) {
                prev.push(m[(p - 1) / cols][(p - 1) % cols])
            } else {
                prev
            }
        }
    }

    /// The heights of all cells lower than each of their neighbours, in
    /// row-major order.
    pub fn find_lowpoints(&self) -> (r: Vec<u8>)
        requires
            self.wf(),
            self@.len() * self@[0].len() <= usize::MAX,
        ensures
            r@ == Self::lowpoints_upto(
                self@,
                self@[0].len() as int,
                self@.len() * self@[0].len() as int,
            ),
    {
        let rows = self.0.len();
        let cols = if rows == 0 {
            0
        } else {
            self.0[0].len()
        };
        let mut r: Vec<u8> = Vec::new();
        if rows == 0 || cols == 0 {
            proof {
                let c0 = self@[0].len() as int;
                let rr = self@.len() as int;
                assert(rr * c0 == 0) by (nonlinear_arith)
                    requires
                        rr == 0 || c0 == 0,
                ;
                assert(r@ =~= Self::lowpoints_upto(self@, c0, rr * c0));
            }
            return r;
        }
        let total = rows * cols;
        let mut p: usize = 0;
        while p < total
            invariant
                self.wf(),
                rows == self@.len(),
                0 < cols == self@[0].len(),
                total == rows * cols,
                p <= total,
                r@ == Self::lowpoints_upto(self@, cols as int, p as int),
            decreases total - p,
        {
            let row = p / cols;
            let col = p % cols;
            proof {
                assert(row < rows) by (nonlinear_arith)
                    requires
                        p < rows * cols,
                        row == p as int / cols as int,
                        cols > 0,
                ;
                assert(col < cols) by (nonlinear_arith)
                    requires
                        col == p as int % cols as int,
                        cols > 0,
                ;
                assert(self@[row as int].len() == cols);
                assert(row > 0 ==> self@[row as int - 1].len() == cols);
                assert(row + 1 < rows ==> self@[row as int + 1].len() == cols);
            }
            let v = self.0[row][col];
            let mut low = true;
            if row > 0 && self.0[row - 1][col] <= v {
                low = false;
            }
            if row + 1 < rows && self.0[row + 1][col] <= v {
                low = false;
            }
            if col > 0 && self.0[row][col - 1] <= v {
                low = false;
            }
            if col + 1 < cols && self.0[row][col + 1] <= v {
                low = false;
            }
            proof {
                assert(low == Self::is_lowpoint(self@, row as int, col as int));
            }
            if low {
                r.push(v);
            }
            p = p + 1;
        }
        r
    }
}

/// How often a coordinate occurs in one basin.
pub open spec fn count_in(b: Seq<(usize, usize)>, rc: (usize, usize)) -> int
    decreases b.len(),
{
    if b.len() == 0 {
        0
    } else {
        count_in(b.drop_last(), rc) + if b.last() == rc {
            1int
        } else {
            0int
        }
    }
}

/// How often a coordinate occurs across all basins.
pub open spec fn coord_count(bs: Seq<Vec<(usize, usize)>>, rc: (usize, usize)) -> int
    decreases bs.len(),
{
    if bs.len() == 0 {
        0
    } else {
        coord_count(bs.drop_last(), rc) + count_in(bs.last()@, rc)
    }
}

/// Number of still-unvisited cells.
pub open spec fn row_unvisited(row: Seq<bool>) -> int
    decreases row.len(),
{
    if row.len() == 0 {
        0
    } else {
        row_unvisited(row.drop_last()) + if row.last() {
            0int
        } else {
            1int
        }
    }
}

pub open spec fn total_unvisited(vis: Seq<Vec<bool>>) -> int
    decreases vis.len(),
{
    if vis.len() == 0 {
        0
    } else {
        total_unvisited(vis.drop_last()) + row_unvisited(vis.last()@)
    }
}

proof fn lemma_row_unvisited_update(row: Seq<bool>, c: int)
    requires
        0 <= c < row.len(),
        !row[c],
    ensures
        row_unvisited(row.update(c, true)) == row_unvisited(row) - 1,
        row_unvisited(row) >= 1,
    decreases row.len(),
{
    lemma_row_unvisited_nonneg(row.drop_last());
    if c == row.len() - 1 {
        assert(row.update(c, true).drop_last() =~= row.drop_last());
    } else {
        lemma_row_unvisited_update(row.drop_last(), c);
        assert(row.update(c, true).drop_last() =~= row.drop_last().update(c, true));
    }
}

proof fn lemma_row_unvisited_nonneg(row: Seq<bool>)
    ensures
        row_unvisited(row) >= 0,
    decreases row.len(),
{
    if row.len() > 0 {
        lemma_row_unvisited_nonneg(row.drop_last());
    }
}

proof fn lemma_total_unvisited_nonneg(vis: Seq<Vec<bool>>)
    ensures
        total_unvisited(vis) >= 0,
    decreases vis.len(),
{
    if vis.len() > 0 {
        lemma_total_unvisited_nonneg(vis.drop_last());
        lemma_row_unvisited_nonneg(vis.last()@);
    }
}

proof fn lemma_total_unvisited_update(vis: Seq<Vec<bool>>, r: int, newrow: Vec<bool>, c: int)
    requires
        0 <= r < vis.len(),
        0 <= c < vis[r]@.len(),
        !vis[r]@[c],
        newrow@ == vis[r]@.update(c, true),
    ensures
        total_unvisited(vis.update(r, newrow)) == total_unvisited(vis) - 1,
        total_unvisited(vis) >= 1,
    decreases vis.len(),
{
    lemma_total_unvisited_nonneg(vis.drop_last());
    lemma_row_unvisited_nonneg(vis.last()@);
    if r == vis.len() - 1 {
        lemma_row_unvisited_update(vis.last()@, c);
        assert(vis.update(r, newrow).drop_last() =~= vis.drop_last());
        assert(vis.update(r, newrow).last() == newrow);
        lemma_total_unvisited_nonneg(vis.drop_last());
    } else {
        lemma_total_unvisited_update(vis.drop_last(), r, newrow, c);
        assert(vis.update(r, newrow).drop_last() =~= vis.drop_last().update(r, newrow));
        assert(vis.update(r, newrow).last() == vis.last());
    }
}

proof fn lemma_count_in_nonneg(b: Seq<(usize, usize)>, rc: (usize, usize))
    ensures
        count_in(b, rc) >= 0,
    decreases b.len(),
{
    if b.len() > 0 {
        lemma_count_in_nonneg(b.drop_last(), rc);
    }
}

proof fn lemma_coord_count_nonneg(bs: Seq<Vec<(usize, usize)>>, rc: (usize, usize))
    ensures
        coord_count(bs, rc) >= 0,
    decreases bs.len(),
{
    if bs.len() > 0 {
        lemma_coord_count_nonneg(bs.drop_last(), rc);
        lemma_count_in_nonneg(bs.last()@, rc);
    }
}

proof fn lemma_count_in_member(b: Seq<(usize, usize)>, j: int)
    requires
        0 <= j < b.len(),
    ensures
        count_in(b, b[j]) >= 1,
    decreases b.len(),
{
    lemma_count_in_nonneg(b.drop_last(), b[j]);
    if j < b.len() - 1 {
        lemma_count_in_member(b.drop_last(), j);
    }
}

proof fn lemma_coord_count_member(bs: Seq<Vec<(usize, usize)>>, k: int, j: int)
    requires
        0 <= k < bs.len(),
        0 <= j < bs[k]@.len(),
    ensures
        coord_count(bs, bs[k]@[j]) >= 1,
    decreases bs.len(),
{
    lemma_count_in_nonneg(bs.last()@, bs[k]@[j]);
    lemma_coord_count_nonneg(bs.drop_last(), bs[k]@[j]);
    if k < bs.len() - 1 {
        lemma_coord_count_member(bs.drop_last(), k, j);
    } else {
        lemma_count_in_member(bs.last()@, j);
    }
}

impl HeightMap {
    /// Flood-fills the basins: scanning in row-major order, each cell of
    /// height below nine that no earlier basin reached starts a basin, built
    /// by breadth-first search over orthogonal neighbours of height below
    /// nine.  Every such cell lands in exactly one basin.
    pub fn find_basins(&self) -> (r: Vec<Vec<(usize, usize)>>)
        requires
            self.wf(),
            self@.len() * self@[0].len() <= usize::MAX,
        ensures
            forall|k: int| 0 <= k < r@.len() ==> (#[trigger] r@[k])@.len() > 0,
            forall|k: int, j: int|
                0 <= k < r@.len() && 0 <= j < r@[k]@.len() ==> ({
                    let rc = (#[trigger] r@[k]@[j]);
                    rc.0 < self@.len() && rc.1 < self@[0].len() && self@[rc.0 as int][rc.1 as int]
                        != 9
                }),
            forall|rr: usize, cc: usize|
                rr < self@.len() && cc < self@[0].len() && self@[rr as int][cc as int] != 9
                    ==> coord_count(r@, (rr, cc)) == 1,
            forall|rc: (usize, usize)|
                !(rc.0 < self@.len() && rc.1 < self@[0].len() && self@[rc.0 as int][rc.1 as int]
                    != 9) ==> coord_count(r@, rc) == 0,
    {
        let rows = self.0.len();
        let cols = if rows == 0 {
            0
        } else {
            self.0[0].len()
        };
        let mut result: Vec<Vec<(usize, usize)>> = Vec::new();
        if rows == 0 || cols == 0 {
            proof {
                assert forall|rc: (usize, usize)| coord_count(result@, rc) == 0 by {}
            }
            return result;
        }
        let mut visited: Vec<Vec<bool>> = Vec::new();
        let mut vr: usize = 0;
        while vr < rows
            invariant
                vr <= rows,
                visited@.len() == vr,
                forall|x: int| 0 <= x < vr ==> (#[trigger] visited@[x])@.len() == cols,
                forall|x: int, y: int|
                    0 <= x < vr && 0 <= y < cols ==> !(#[trigger] visited@[x]@[y]),
            decreases rows - vr,
        {
            let mut vrow: Vec<bool> = Vec::new();
            let mut vc: usize = 0;
            while vc < cols
                invariant
                    vc <= cols,
                    vrow@.len() == vc,
                    forall|y: int| 0 <= y < vc ==> !vrow@[y],
                decreases cols - vc,
            {
                vrow.push(false);
                vc = vc + 1;
            }
            visited.push(vrow);
            vr = vr + 1;
        }
        let total = rows * cols;
        let mut p: usize = 0;
        while p < total
            invariant
                self.wf(),
                rows == self@.len(),
                0 < cols == self@[0].len(),
                total == rows * cols,
                p <= total,
                visited@.len() == rows,
                forall|x: int| 0 <= x < rows ==> (#[trigger] visited@[x])@.len() == cols,
                forall|x: int, y: int|
                    0 <= x < rows && 0 <= y < cols && #[trigger] visited@[x]@[y] ==> self@[x][y]
                        != 9,
                forall|rr: usize, cc: usize|
                    rr < rows && cc < cols ==> coord_count(result@, (rr, cc)) == (
                    if visited@[rr as int]@[cc as int] {
                        1int
                    } else {
                        0int
                    }),
                forall|rc: (usize, usize)|
                    !(rc.0 < rows && rc.1 < cols) ==> coord_count(result@, rc) == 0,
                forall|q: int|
                    0 <= q < p ==> (self@[#[trigger] (q / (cols as int))][q % (cols as int)] == 9
                        || visited@[q / (cols as int)]@[q % (cols as int)]),
                forall|k: int| 0 <= k < result@.len() ==> (#[trigger] result@[k])@.len() > 0,
            decreases total - p,
        {
            let row = p / cols;
            let col = p % cols;
            proof {
                assert(row < rows) by (nonlinear_arith)
                    requires
                        p < rows * cols,
                        row == p as int / cols as int,
                        cols > 0,
                ;
                assert(col < cols) by (nonlinear_arith)
                    requires
                        col == p as int % cols as int,
                        cols > 0,
                ;
                assert(self@[row as int] == self.0@[row as int]@);
                assert(self@[row as int].len() == cols);
            }
            if !visited[row][col] && self.0[row][col] != 9 {
                let mut coords: Vec<(usize, usize)> = Vec::new();
                let mut queue: Vec<(usize, usize)> = Vec::new();
                let mut head: usize = 0;
                queue.push((row, col));
                proof {
                    lemma_total_unvisited_nonneg(visited@);
                }
                while head < queue.len()
                    invariant
                        self.wf(),
                        rows == self@.len(),
                        0 < cols == self@[0].len(),
                        row < rows,
                        col < cols,
                        p < total,
                        total == rows * cols,
                        head <= queue@.len(),
                        coords@.len() == 0 ==> head == 0,
                        head == 0 ==> queue@.len() >= 1 && queue@[0] == (row, col)
                            && !visited@[row as int]@[col as int] && self@[row as int][col as int]
                            != 9,
                        head > 0 ==> visited@[row as int]@[col as int] && coords@.len() > 0,
                        visited@.len() == rows,
                        forall|x: int| 0 <= x < rows ==> (#[trigger] visited@[x])@.len() == cols,
                        forall|x: int, y: int|
                            0 <= x < rows && 0 <= y < cols && #[trigger] visited@[x]@[y]
                                ==> self@[x][y] != 9,
                        forall|k: int|
                            0 <= k < queue@.len() ==> (#[trigger] queue@[k]).0 < rows
                                && queue@[k].1 < cols,
                        forall|rr: usize, cc: usize|
                            rr < rows && cc < cols ==> coord_count(result@, (rr, cc)) + count_in(
                                coords@,
                                (rr, cc),
                            ) == (if visited@[rr as int]@[cc as int] {
                                1int
                            } else {
                                0int
                            }),
                        forall|rc: (usize, usize)|
                            !(rc.0 < rows && rc.1 < cols) ==> coord_count(result@, rc) + count_in(
                                coords@,
                                rc,
                            ) == 0,
                        forall|q: int|
                            0 <= q < p ==> (self@[#[trigger] (q / (cols as int))][q % (
                            cols as int)] == 9 || visited@[q / (cols as int)]@[q % (
                            cols as int)]),
                        forall|k: int|
                            0 <= k < result@.len() ==> (#[trigger] result@[k])@.len() > 0,
                    decreases 5 * total_unvisited(visited@) + queue@.len() - head,
                {
                    let (wr, wc) = queue[head];
                    let ghost oldhead = head;
                    head = head + 1;
                    proof {
                        assert(self@[wr as int] == self.0@[wr as int]@);
                        assert(self@[wr as int].len() == cols);
                    }
                    if !visited[wr][wc] && self.0[wr][wc] != 9 {
                        let ghost oldcoords = coords@;
                        coords.push((wr, wc));
                        let ghost oldvis = visited@;
                        visited[wr][wc] = true;
                        proof {
                            assert(visited@ =~= oldvis.update(wr as int, visited@[wr as int]));
                            assert(visited@[wr as int]@ =~= oldvis[wr as int]@.update(
                                wc as int,
                                true,
                            ));
                            lemma_total_unvisited_update(
                                oldvis,
                                wr as int,
                                visited@[wr as int],
                                wc as int,
                            );
                            assert(coords@.drop_last() =~= oldcoords);
                            assert(coords@.last() == (wr, wc));
                            assert forall|rr: usize, cc: usize|
                                rr < rows && cc < cols implies coord_count(result@, (rr, cc))
                                + count_in(coords@, (rr, cc)) == (
                            if visited@[rr as int]@[cc as int] {
                                1int
                            } else {
                                0int
                            }) by {
                                if rr == wr && cc == wc {
                                    assert(count_in(coords@, (rr, cc)) == count_in(
                                        oldcoords,
                                        (rr, cc),
                                    ) + 1);
                                } else {
                                    assert(count_in(coords@, (rr, cc)) == count_in(
                                        oldcoords,
                                        (rr, cc),
                                    ));
                                    assert(visited@[rr as int]@[cc as int] == oldvis[rr as int]@[cc
                                        as int]);
                                }
                            }
                            assert forall|rc: (usize, usize)|
                                !(rc.0 < rows && rc.1 < cols) implies coord_count(result@, rc)
                                + count_in(coords@, rc) == 0 by {
                                assert(rc != (wr, wc));
                                assert(count_in(coords@, rc) == count_in(oldcoords, rc));
                            }
                            assert forall|q: int|
                                0 <= q < p implies (self@[#[trigger] (q / (cols as int))][q % (
                            cols as int)] == 9 || visited@[q / (cols as int)]@[q % (
                            cols as int)]) by {
                                let x = q / (cols as int);
                                let y = q % (cols as int);
                                assert(0 <= x < rows) by (nonlinear_arith)
                                    requires
                                        0 <= q < rows * cols,
                                        x == q / (cols as int),
                                        cols > 0,
                                ;
                                assert(0 <= y < cols) by (nonlinear_arith)
                                    requires
                                        y == q % (cols as int),
                                        cols > 0,
                                ;
                                if self@[x][y] != 9 {
                                    assert(oldvis[x]@[y]);
                                    if x == wr as int && y == wc as int {
                                    } else {
                                        assert(visited@[x]@[y] == oldvis[x]@[y]);
                                    }
                                }
                            }
                        }
                        if wr > 0 {
                            queue.push((wr - 1, wc));
                        }
                        if wr + 1 < rows {
                            queue.push((wr + 1, wc));
                        }
                        if wc > 0 {
                            queue.push((wr, wc - 1));
                        }
                        if wc + 1 < cols {
                            queue.push((wr, wc + 1));
                        }
                    }
                    proof {
                        lemma_total_unvisited_nonneg(visited@);
                    }
                }
                let ghost oldresult = result@;
                result.push(coords);
                proof {
                    assert(result@.drop_last() =~= oldresult);
                    assert forall|rr: usize, cc: usize|
                        rr < rows && cc < cols implies coord_count(result@, (rr, cc)) == (
                    if visited@[rr as int]@[cc as int] {
                        1int
                    } else {
                        0int
                    }) by {
                        assert(coord_count(result@, (rr, cc)) == coord_count(oldresult, (rr, cc))
                            + count_in(result@.last()@, (rr, cc)));
                    }
                    assert forall|rc: (usize, usize)|
                        !(rc.0 < rows && rc.1 < cols) implies coord_count(result@, rc) == 0 by {
                        assert(coord_count(result@, rc) == coord_count(oldresult, rc) + count_in(
                            result@.last()@,
                            rc,
                        ));
                    }
                }
            }
            p = p + 1;
        }
        proof {
            assert forall|k: int, j: int|
                0 <= k < result@.len() && 0 <= j < (#[trigger] result@[k])@.len() implies ({
                let rc = #[trigger] result@[k]@[j];
                rc.0 < self@.len() && rc.1 < self@[0].len() && self@[rc.0 as int][rc.1 as int] != 9
            }) by {
                let rc = result@[k]@[j];
                lemma_coord_count_member(result@, k, j);
                assert(rc.0 < rows && rc.1 < cols);
                assert(visited@[rc.0 as int]@[rc.1 as int]);
            }
            assert forall|rr: usize, cc: usize|
                rr < self@.len() && cc < self@[0].len() && self@[rr as int][cc as int]
                    != 9 implies coord_count(result@, (rr, cc)) == 1 by {
                let q = rr as int * cols as int + cc as int;
                assert(0 <= q < total) by (nonlinear_arith)
                    requires
                        rr < rows,
                        cc < cols,
                        q == rr as int * cols as int + cc as int,
                        total == rows * cols,
                        cols > 0,
                ;
                assert(q / (cols as int) == rr && q % (cols as int) == cc) by (nonlinear_arith)
                    requires
                        q == rr as int * cols as int + cc as int,
                        0 <= cc < cols,
                        cols > 0,
                ;
            }
        }
        result
    }
}

} // verus!
