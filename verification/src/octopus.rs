//! Dumbo octopuses: energy steps, cascading flashes, synchronisation.

use vstd::prelude::*;
use crate::text::digit_val;

verus! {

/// Why octopus grid text was rejected.
#[derive(Clone, Copy, Debug, PartialEq, Eq, Structural)]
pub enum FieldError {
    InvalidDigit,
    WrongColumns,
    WrongRows,
}

/// A rectangular grid of octopus energy levels.
#[derive(Debug, PartialEq, Eq)]
pub struct Field(pub Vec<Vec<u8>>);

impl View for Field {
    type V = Seq<Seq<u8>>;

    open spec fn view(&self) -> Seq<Seq<u8>> {
        Seq::new(self.0@.len(), |i: int| self.0@[i]@)
    }
}

impl Field {
    pub open spec fn wf(&self) -> bool {
        forall|r: int| 0 <= r < self@.len() ==> (#[trigger] self@[r]).len() == self@[0].len()
    }

    /// Parses an energy grid of exactly `rows` lines of `cols` digits each.
    pub fn parse(lines: &Vec<String>, rows: usize, cols: usize) -> (r: Result<Field, FieldError>)
        ensures
            ({
                let views = crate::navigation::line_views(lines@);
                let fb = crate::heightmap::first_bad_map_line(views, cols as int);
                match r {
                    Result::Ok(f) => fb == views.len() && views.len() == rows && f@.len() == rows
                        && (forall|i: int|
                        0 <= i < rows ==> (#[trigger] f@[i]).len() == cols) && (forall|
                        i: int,
                        j: int,
                    |
                        0 <= i < rows && 0 <= j < cols ==> f@[i][j] == digit_val(
                            #[trigger] views[i][j],
                        )) && f.wf(),
                    Result::Err(FieldError::InvalidDigit) => fb < views.len()
                        && !crate::heightmap::line_digits_ok(views[fb]),
                    Result::Err(FieldError::WrongColumns) => fb < views.len()
                        && crate::heightmap::line_digits_ok(views[fb]) && views[fb].len() != cols,
                    Result::Err(FieldError::WrongRows) => fb == views.len() && views.len() != rows,
                }
            }),
    {
        match crate::heightmap::HeightMap::parse(lines, rows, cols) {
            Ok(m) => Ok(Field(m.0)),
            Err(crate::heightmap::MapError::InvalidDigit) => Err(FieldError::InvalidDigit),
            Err(crate::heightmap::MapError::WrongColumns) => Err(FieldError::WrongColumns),
            Err(crate::heightmap::MapError::WrongRows) => Err(FieldError::WrongRows),
        }
    }
}

/// Number of cells with energy below ten in one row.
pub open spec fn row_calm(row: Seq<u8>) -> int
    decreases row.len(),
{
    if row.len() == 0 {
        0
    } else {
        row_calm(row.drop_last()) + if row.last() < 10 {
            1int
        } else {
            0int
        }
    }
}

/// Number of cells with energy below ten.
pub open spec fn total_calm(g: Seq<Vec<u8>>) -> int
    decreases g.len(),
{
    if g.len() == 0 {
        0
    } else {
        total_calm(g.drop_last()) + row_calm(g.last()@)
    }
}

proof fn lemma_row_calm_bounds(row: Seq<u8>)
    ensures
        0 <= row_calm(row) <= row.len(),
    decreases row.len(),
{
    if row.len() > 0 {
        lemma_row_calm_bounds(row.drop_last());
    }
}

proof fn lemma_total_calm_bounds(g: Seq<Vec<u8>>, cols: int)
    requires
        forall|r: int| 0 <= r < g.len() ==> (#[trigger] g[r])@.len() == cols,
    ensures
        0 <= total_calm(g) <= g.len() * cols,
    decreases g.len(),
{
    if g.len() > 0 {
        lemma_total_calm_bounds(g.drop_last(), cols);
        lemma_row_calm_bounds(g.last()@);
        assert((g.len() - 1) * cols + cols == g.len() * cols) by (nonlinear_arith);
    }
}

proof fn lemma_row_calm_update(row: Seq<u8>, c: int, v: u8)
    requires
        0 <= c < row.len(),
    ensures
        row_calm(row.update(c, v)) == row_calm(row) - (if row[c] < 10 {
            1int
        } else {
            0int
        }) + (if v < 10 {
            1int
        } else {
            0int
        }),
    decreases row.len(),
{
    if c == row.len() - 1 {
        assert(row.update(c, v).drop_last() =~= row.drop_last());
    } else {
        lemma_row_calm_update(row.drop_last(), c, v);
        assert(row.update(c, v).drop_last() =~= row.drop_last().update(c, v));
    }
}

proof fn lemma_total_calm_update(g: Seq<Vec<u8>>, r: int, newrow: Vec<u8>, c: int, v: u8)
    requires
        0 <= r < g.len(),
        0 <= c < g[r]@.len(),
        newrow@ == g[r]@.update(c, v),
    ensures
        total_calm(g.update(r, newrow)) == total_calm(g) - (if g[r]@[c] < 10 {
            1int
        } else {
            0int
        }) + (if v < 10 {
            1int
        } else {
            0int
        }),
    decreases g.len(),
{
    if r == g.len() - 1 {
        lemma_row_calm_update(g.last()@, c, v);
        assert(g.update(r, newrow).drop_last() =~= g.drop_last());
        assert(g.update(r, newrow).last() == newrow);
    } else {
        lemma_total_calm_update(g.drop_last(), r, newrow, c, v);
        assert(g.update(r, newrow).drop_last() =~= g.drop_last().update(r, newrow));
        assert(g.update(r, newrow).last() == g.last());
    }
}

impl Field {
    /// Runs up to `steps` energy steps: every cell gains one energy, every
    /// cell passing nine flashes once and feeds its eight neighbours, and
    /// flashed cells reset to zero.  Returns the steps taken and the total
    /// number of flashes; with `end_at_synch`, stops at the first step in
    /// which the whole grid flashed and returns that step's index.
    pub fn run(self, steps: usize, end_at_synch: bool) -> (r: (usize, u64))
        requires
            self.wf(),
            self@.len() * self@[0].len() <= 0xffff_ffff,
            steps * (self@.len() * self@[0].len()) <= u64::MAX,
        ensures
            r.0 <= steps,
            !end_at_synch ==> r.0 == steps,
            r.1 <= (r.0 + 1) * (self@.len() * self@[0].len()),
    {
        let ghost gview = self@;
        let rows = self.0.len();
        let cols = if rows == 0 {
            0
        } else {
            self.0[0].len()
        };
        let ghost cell_count = self@.len() * self@[0].len();
        let mut grid = self.0;
        proof {
            assert forall|r: int| 0 <= r < rows implies (#[trigger] grid@[r])@.len() == cols by {
                assert(gview[r] == grid@[r]@);
                assert(gview[r].len() == gview[0].len());
            }
            if rows == 0 {
                assert(cell_count == 0) by (nonlinear_arith)
                    requires
                        cell_count == gview.len() * gview[0].len(),
                        gview.len() == 0,
                ;
                assert(rows * cols == 0);
            } else {
                assert(cols == gview[0].len());
            }
        }
        let mut flashes: u64 = 0;
        let mut step: usize = 0;
        while step < steps
            invariant
                step <= steps,
                grid@.len() == rows,
                forall|r: int| 0 <= r < rows ==> (#[trigger] grid@[r])@.len() == cols,
                rows * cols <= 0xffff_ffff,
                cell_count == rows * cols,
                cell_count == self@.len() * self@[0].len(),
                steps * cell_count <= u64::MAX,
                flashes <= step * cell_count,
            decreases steps - step,
        {
            let mut step_flashes: u64 = 0;
            let mut queue: Vec<(usize, usize)> = Vec::new();
            let mut head: usize = 0;
            let mut p: usize = 0;
            proof {
                lemma_total_calm_bounds(grid@, cols as int);
            }
            while p < rows * cols
                invariant
                    p <= rows * cols,
                    grid@.len() == rows,
                    forall|r: int| 0 <= r < rows ==> (#[trigger] grid@[r])@.len() == cols,
                    rows * cols <= 0xffff_ffff,
                    queue@.len() + total_calm(grid@) <= rows * cols,
                    forall|k: int|
                        0 <= k < queue@.len() ==> (#[trigger] queue@[k]).0 < rows && queue@[k].1
                            < cols,
                decreases rows * cols - p,
            {
                let r = p / cols;
                let c = p % cols;
                proof {
                    assert(cols > 0) by (nonlinear_arith)
                        requires
                            p < rows * cols,
                            p >= 0,
                            rows >= 0,
                            cols >= 0,
                    ;
                    assert(r < rows) by (nonlinear_arith)
                        requires
                            p < rows * cols,
                            r == p as int / cols as int,
                            cols > 0,
                    ;
                    assert(c < cols) by (nonlinear_arith)
                        requires
                            c == p as int % cols as int,
                            cols > 0,
                    ;
                }
                let ghost oldgrid = grid@;
                let v = grid[r][c];
                let nv: u8 = if v < 255 {
                    v + 1
                } else {
                    v
                };
                grid[r][c] = nv;
                proof {
                    assert(grid@ =~= oldgrid.update(r as int, grid@[r as int]));
                    assert(grid@[r as int]@ =~= oldgrid[r as int]@.update(c as int, nv));
                    lemma_total_calm_update(oldgrid, r as int, grid@[r as int], c as int, nv);
                }
                if nv == 10 {
                    queue.push((r, c));
                }
                p = p + 1;
            }
            proof {
                lemma_total_calm_bounds(grid@, cols as int);
            }
            while head < queue.len()
                invariant
                    head <= queue@.len(),
                    grid@.len() == rows,
                    forall|r: int| 0 <= r < rows ==> (#[trigger] grid@[r])@.len() == cols,
                    rows * cols <= 0xffff_ffff,
                    queue@.len() + total_calm(grid@) <= rows * cols,
                    0 <= total_calm(grid@),
                    step_flashes == head,
                    forall|k: int|
                        0 <= k < queue@.len() ==> (#[trigger] queue@[k]).0 < rows && queue@[k].1
                            < cols,
                decreases 10 * total_calm(grid@) + queue@.len() - head,
            {
                let (fr, fc) = queue[head];
                head = head + 1;
                step_flashes = step_flashes + 1;
                let ghost calm_before = total_calm(grid@);
                let ghost len_before = queue@.len() as int;
                let r_lo = if fr > 0 {
                    fr - 1
                } else {
                    fr
                };
                let r_hi = if fr + 1 < rows {
                    fr + 1
                } else {
                    fr
                };
                let c_lo = if fc > 0 {
                    fc - 1
                } else {
                    fc
                };
                let c_hi = if fc + 1 < cols {
                    fc + 1
                } else {
                    fc
                };
                let mut nr = r_lo;
                while nr <= r_hi
                    invariant
                        r_lo <= nr,
                        nr <= r_hi + 1,
                        r_hi < rows,
                        c_lo <= c_hi < cols,
                        grid@.len() == rows,
                        forall|r: int| 0 <= r < rows ==> (#[trigger] grid@[r])@.len() == cols,
                        rows * cols <= 0xffff_ffff,
                        queue@.len() + total_calm(grid@) <= rows * cols,
                        0 <= total_calm(grid@),
                        queue@.len() >= len_before,
                        head <= len_before,
                        10 * total_calm(grid@) + queue@.len() <= 10 * calm_before + len_before,
                        forall|k: int|
                            0 <= k < queue@.len() ==> (#[trigger] queue@[k]).0 < rows
                                && queue@[k].1 < cols,
                    decreases r_hi + 1 - nr,
                {
                    let mut nc = c_lo;
                    while nc <= c_hi
                        invariant
                            c_lo <= nc,
                            nc <= c_hi + 1,
                            nr < rows,
                            c_hi < cols,
                            grid@.len() == rows,
                            forall|r: int| 0 <= r < rows ==> (#[trigger] grid@[r])@.len() == cols,
                            rows * cols <= 0xffff_ffff,
                            queue@.len() + total_calm(grid@) <= rows * cols,
                            0 <= total_calm(grid@),
                            queue@.len() >= len_before,
                            head <= len_before,
                            10 * total_calm(grid@) + queue@.len() <= 10 * calm_before
                                + len_before,
                            forall|k: int|
                                0 <= k < queue@.len() ==> (#[trigger] queue@[k]).0 < rows
                                    && queue@[k].1 < cols,
                        decreases c_hi + 1 - nc,
                    {
                        let ghost oldgrid = grid@;
                        let v = grid[nr][nc];
                        let nv: u8 = if v < 255 {
                            v + 1
                        } else {
                            v
                        };
                        grid[nr][nc] = nv;
                        proof {
                            assert(grid@ =~= oldgrid.update(nr as int, grid@[nr as int]));
                            assert(grid@[nr as int]@ =~= oldgrid[nr as int]@.update(nc as int, nv));
                            lemma_total_calm_update(
                                oldgrid,
                                nr as int,
                                grid@[nr as int],
                                nc as int,
                                nv,
                            );
                            lemma_total_calm_bounds(grid@, cols as int);
                        }
                        if nv == 10 {
                            queue.push((nr, nc));
                        }
                        nc = nc + 1;
                    }
                    nr = nr + 1;
                }
                proof {
                    lemma_total_calm_bounds(grid@, cols as int);
                }
            }
            let mut p: usize = 0;
            while p < rows * cols
                invariant
                    p <= rows * cols,
                    grid@.len() == rows,
                    forall|r: int| 0 <= r < rows ==> (#[trigger] grid@[r])@.len() == cols,
                    rows * cols <= 0xffff_ffff,
                decreases rows * cols - p,
            {
                let r = p / cols;
                let c = p % cols;
                proof {
                    assert(cols > 0) by (nonlinear_arith)
                        requires
                            p < rows * cols,
                            p >= 0,
                    ;
                    assert(r < rows) by (nonlinear_arith)
                        requires
                            p < rows * cols,
                            r == p as int / cols as int,
                            cols > 0,
                    ;
                    assert(c < cols) by (nonlinear_arith)
                        requires
                            c == p as int % cols as int,
                            cols > 0,
                    ;
                }
                if grid[r][c] > 9 {
                    let ghost oldgrid = grid@;
                    grid[r][c] = 0;
                    proof {
                        assert(grid@ =~= oldgrid.update(r as int, grid@[r as int]));
                        assert(grid@[r as int]@ =~= oldgrid[r as int]@.update(c as int, 0u8));
                    }
                }
                p = p + 1;
            }
            proof {
                assert(step_flashes <= rows * cols);
                assert(flashes + step_flashes <= (step + 1) * cell_count) by (nonlinear_arith)
                    requires
                        flashes <= step * cell_count,
                        step_flashes <= cell_count,
                        cell_count == rows * cols,
                        flashes >= 0,
                        step_flashes >= 0,
                ;
                assert((step + 1) * cell_count <= steps * cell_count) by (nonlinear_arith)
                    requires
                        step < steps,
                        cell_count >= 0,
                ;
            }
            flashes = flashes + step_flashes;
            if end_at_synch && step_flashes == (rows * cols) as u64 {
                return (step, flashes);
            }
            step = step + 1;
        }
        proof {
            assert(flashes <= (steps + 1) * cell_count) by (nonlinear_arith)
                requires
                    flashes <= steps * cell_count,
                    cell_count >= 0,
            ;
        }
        (steps, flashes)
    }
}

} // verus!
