//! Hydrothermal vents: lines on a grid and how often each point is covered.

use vstd::prelude::*;
use crate::text::{
    chars_of,
    split_on,
    parse_u32,
    is_unsigned_within,
    unsigned_body,
    digits_val,
    copy_range,
    split_by,
};

verus! {

/// Why vent text was rejected.
#[derive(Clone, Copy, Debug, PartialEq, Eq, Structural)]
pub enum VentError {
    InvalidNumber,
    InvalidPoint,
    InvalidLine,
}

#[derive(Clone, Copy, Debug, PartialEq, Eq, Hash, Structural)]
pub struct Point {
    pub x: u32,
    pub y: u32,
}

#[derive(Clone, Copy, Debug, PartialEq, Eq, Hash, Structural)]
pub struct Line(pub Point, pub Point);

pub open spec fn is_space(c: char) -> bool {
    c == ' ' || c == '\t' || c == '\n' || c == '\r'
}

/// The string with leading spaces removed.
pub open spec fn trim_front_spec(s: Seq<char>) -> Seq<char>
    decreases s.len(),
{
    if s.len() > 0 && is_space(s[0]) {
        trim_front_spec(s.drop_first())
    } else {
        s
    }
}

/// The string with trailing spaces removed.
pub open spec fn trim_back_spec(s: Seq<char>) -> Seq<char>
    decreases s.len(),
{
    if s.len() > 0 && is_space(s.last()) {
        trim_back_spec(s.drop_last())
    } else {
        s
    }
}

/// The string with surrounding spaces removed.
pub open spec fn trim_spec(s: Seq<char>) -> Seq<char> {
    trim_back_spec(trim_front_spec(s))
}

fn trim_front(v: &Vec<char>) -> (r: Vec<char>)
    ensures
        r@ == trim_front_spec(v@),
    decreases v@.len(),
{
    if v.len() > 0 && (v[0] == ' ' || v[0] == '\t' || v[0] == '\n' || v[0] == '\r') {
        let rest = copy_range(v, 1, v.len());
        proof {
            assert(rest@ =~= v@.drop_first());
        }
        trim_front(&rest)
    } else {
        copy_range(v, 0, v.len())
    }
}

fn trim_back(v: &Vec<char>) -> (r: Vec<char>)
    ensures
        r@ == trim_back_spec(v@),
    decreases v@.len(),
{
    let n = v.len();
    if n > 0 && (v[n - 1] == ' ' || v[n - 1] == '\t' || v[n - 1] == '\n' || v[n - 1] == '\r') {
        let rest = copy_range(v, 0, n - 1);
        proof {
            assert(rest@ =~= v@.drop_last());
        }
        trim_back(&rest)
    } else {
        copy_range(v, 0, v.len())
    }
}

/// Whether a comma-separated part denotes a `u32` after trimming.
pub open spec fn part_is_u32(s: Seq<char>) -> bool {
    is_unsigned_within(trim_spec(s), u32::MAX as int)
}

pub open spec fn part_value(s: Seq<char>) -> int {
    digits_val(unsigned_body(trim_spec(s)))
}

/// What a point text `x,y` parses to.
pub open spec fn point_spec(s: Seq<char>) -> Result<Point, VentError> {
    let parts = split_by(s, seq![',']);
    if exists|i: int| 0 <= i < parts.len() && !part_is_u32(#[trigger] parts[i]) {
        Result::Err(VentError::InvalidNumber)
    } else if parts.len() != 2 {
        Result::Err(VentError::InvalidPoint)
    } else {
        Result::Ok(Point { x: part_value(parts[0]) as u32, y: part_value(parts[1]) as u32 })
    }
}

impl Point {
    pub fn new(x: u32, y: u32) -> (r: Point)
        ensures
            r == (Point { x, y }),
    {
        Point { x, y }
    }

    /// Parses `x,y`, with spaces around either coordinate allowed.
    pub fn parse(s: &str) -> (r: Result<Point, VentError>)
        ensures
            r == point_spec(s@),
    {
        let chars = chars_of(s);
        let mut sep: Vec<char> = Vec::new();
        sep.push(',');
        proof {
            assert(sep@ =~= seq![',']);
        }
        let parts = split_on(&chars, &sep);
        let ghost pseq = split_by(s@, seq![',']);
        let mut vals: Vec<u32> = Vec::new();
        let mut i: usize = 0;
        while i < parts.len()
            invariant
                pseq == split_by(s@, seq![',']),
                parts.deep_view() == pseq,
                parts@.len() == pseq.len(),
                i <= parts@.len(),
                vals@.len() == i,
                forall|k: int| 0 <= k < i ==> part_is_u32(#[trigger] pseq[k]),
                forall|k: int| 0 <= k < i ==> vals@[k] == part_value(pseq[k]),
            decreases parts@.len() - i,
        {
            proof {
                assert(parts.deep_view()[i as int] == parts@[i as int]@);
            }
            let trimmed = trim_back(&trim_front(&parts[i]));
            let v = match parse_u32(&trimmed) {
                Some(v) => v,
                None => {
                    proof {
                        assert(!part_is_u32(pseq[i as int]));
                    }
                    return Err(VentError::InvalidNumber);
                },
            };
            proof {
                crate::text::lemma_digits_val_nonneg(unsigned_body(trim_spec(pseq[i as int])));
            }
            vals.push(v);
            i = i + 1;
        }
        if vals.len() != 2 {
            return Err(VentError::InvalidPoint);
        }
        Ok(Point { x: vals[0], y: vals[1] })
    }
}

/// What a line text `x1,y1 -> x2,y2` parses to.
pub open spec fn line_spec(s: Seq<char>) -> Result<Line, VentError> {
    let parts = split_by(s, seq!['-', '>']);
    if parts.len() != 2 {
        Result::Err(VentError::InvalidLine)
    } else {
        match point_spec(parts[0]) {
            Result::Err(e) => Result::Err(e),
            Result::Ok(a) => match point_spec(parts[1]) {
                Result::Err(e) => Result::Err(e),
                Result::Ok(b) => Result::Ok(Line(a, b)),
            },
        }
    }
}

impl Line {
    /// Parses `x1,y1 -> x2,y2`.
    pub fn parse(s: &str) -> (r: Result<Line, VentError>)
        ensures
            r == line_spec(s@),
    {
        let chars = chars_of(s);
        let mut sep: Vec<char> = Vec::new();
        sep.push('-');
        sep.push('>');
        proof {
            assert(sep@ =~= seq!['-', '>']);
        }
        let parts = split_on(&chars, &sep);
        if parts.len() != 2 {
            return Err(VentError::InvalidLine);
        }
        proof {
            assert(parts.deep_view()[0] == parts@[0]@);
            assert(parts.deep_view()[1] == parts@[1]@);
        }
        let sa = crate::text::string_of_chars(&parts[0]);
        let a = match Point::parse(sa.as_str()) {
            Ok(a) => a,
            Err(e) => {
                return Err(e);
            },
        };
        let sb = crate::text::string_of_chars(&parts[1]);
        let b = match Point::parse(sb.as_str()) {
            Ok(b) => b,
            Err(e) => {
                return Err(e);
            },
        };
        Ok(Line(a, b))
    }

    /// The points a line covers: along a row, a column, or (when allowed) a
    /// perfect diagonal, stepping from the first endpoint towards the second.
    pub fn get_points(&self, diagonal: bool) -> (r: Option<Vec<Point>>)
        requires
            range_len(self.0.x, self.1.x) <= usize::MAX,
            range_len(self.0.y, self.1.y) <= usize::MAX,
        ensures
            match r {
                Option::Some(v) => line_points(*self, diagonal) == Some(v@),
                Option::None => line_points(*self, diagonal) is None,
            },
    {
        let Line(a, b) = *self;
        if a.x == b.x {
            let mut pts: Vec<Point> = Vec::new();
            let len = range_size(a.y, b.y);
            let mut i: usize = 0;
            while i < len
                invariant
                    len == range_len(a.y, b.y),
                    i <= len,
                    pts@.len() == i,
                    forall|k: int|
                        0 <= k < i ==> pts@[k] == (Point {
                            x: a.x,
                            y: range_at(a.y, b.y, k) as u32,
                        }),
                decreases len - i,
            {
                pts.push(Point { x: a.x, y: range_value(a.y, b.y, i) });
                i = i + 1;
            }
            proof {
                assert(pts@ =~= Seq::new(
                    range_len(a.y, b.y) as nat,
                    |k: int| Point { x: a.x, y: range_at(a.y, b.y, k) as u32 },
                ));
            }
            Some(pts)
        } else if a.y == b.y {
            let mut pts: Vec<Point> = Vec::new();
            let len = range_size(a.x, b.x);
            let mut i: usize = 0;
            while i < len
                invariant
                    len == range_len(a.x, b.x),
                    i <= len,
                    pts@.len() == i,
                    forall|k: int|
                        0 <= k < i ==> pts@[k] == (Point {
                            x: range_at(a.x, b.x, k) as u32,
                            y: a.y,
                        }),
                decreases len - i,
            {
                pts.push(Point { x: range_value(a.x, b.x, i), y: a.y });
                i = i + 1;
            }
            proof {
                assert(pts@ =~= Seq::new(
                    range_len(a.x, b.x) as nat,
                    |k: int| Point { x: range_at(a.x, b.x, k) as u32, y: a.y },
                ));
            }
            Some(pts)
        } else if diagonal {
            let mut pts: Vec<Point> = Vec::new();
            let lx = range_size(a.x, b.x);
            let ly = range_size(a.y, b.y);
            let len = if lx < ly {
                lx
            } else {
                ly
            };
            let mut i: usize = 0;
            while i < len
                invariant
                    lx == range_len(a.x, b.x),
                    ly == range_len(a.y, b.y),
                    len == if lx < ly {
                        lx
                    } else {
                        ly
                    },
                    i <= len,
                    pts@.len() == i,
                    forall|k: int|
                        0 <= k < i ==> pts@[k] == (Point {
                            x: range_at(a.x, b.x, k) as u32,
                            y: range_at(a.y, b.y, k) as u32,
                        }),
                decreases len - i,
            {
                pts.push(
                    Point { x: range_value(a.x, b.x, i), y: range_value(a.y, b.y, i) },
                );
                i = i + 1;
            }
            proof {
                assert(pts@ =~= diagonal_points(*self));
            }
            Some(pts)
        } else {
            None
        }
    }
}

/// Number of grid steps on the inclusive range between `a` and `b`.
pub open spec fn range_len(a: u32, b: u32) -> int {
    if b >= a {
        b - a + 1
    } else {
        a - b + 1
    }
}

/// The `i`-th coordinate stepping from `a` towards `b`.
pub open spec fn range_at(a: u32, b: u32, i: int) -> int {
    if b >= a {
        a + i
    } else {
        a - i
    }
}

/// Executable mirror of `range_len`.
fn range_size(a: u32, b: u32) -> (r: usize)
    requires
        range_len(a, b) <= usize::MAX,
    ensures
        r == range_len(a, b),
{
    if b >= a {
        (b - a) as usize + 1
    } else {
        (a - b) as usize + 1
    }
}

/// Executable mirror of `range_at`.
fn range_value(a: u32, b: u32, i: usize) -> (r: u32)
    requires
        0 <= i < range_len(a, b),
    ensures
        r == range_at(a, b, i as int),
{
    if b >= a {
        a + (i as u32)
    } else {
        a - (i as u32)
    }
}

/// The points of a perfect or truncated diagonal between the endpoints.
pub open spec fn diagonal_points(l: Line) -> Seq<Point> {
    let lx = range_len(l.0.x, l.1.x);
    let ly = range_len(l.0.y, l.1.y);
    let len = if lx < ly {
        lx
    } else {
        ly
    };
    Seq::new(
        len as nat,
        |k: int| Point { x: range_at(l.0.x, l.1.x, k) as u32, y: range_at(l.0.y, l.1.y, k) as u32 },
    )
}

/// The points a line covers, if it runs along a row, a column, or (when
/// `diagonal` is allowed) any diagonal.
pub open spec fn line_points(l: Line, diagonal: bool) -> Option<Seq<Point>> {
    if l.0.x == l.1.x {
        Some(
            Seq::new(
                range_len(l.0.y, l.1.y) as nat,
                |k: int| Point { x: l.0.x, y: range_at(l.0.y, l.1.y, k) as u32 },
            ),
        )
    } else if l.0.y == l.1.y {
        Some(
            Seq::new(
                range_len(l.0.x, l.1.x) as nat,
                |k: int| Point { x: range_at(l.0.x, l.1.x, k) as u32, y: l.0.y },
            ),
        )
    } else if diagonal {
        Some(diagonal_points(l))
    } else {
        None
    }
}

/// The covered points of all lines, in order.
pub open spec fn flat_points(lines: Seq<Line>, diagonal: bool) -> Seq<Point>
    decreases lines.len(),
{
    if lines.len() == 0 {
        Seq::empty()
    } else {
        flat_points(lines.drop_last(), diagonal) + match line_points(lines.last(), diagonal) {
            Option::Some(pts) => pts,
            Option::None => Seq::empty(),
        }
    }
}

/// How often `p` occurs among the covered points.
pub open spec fn cover_count(pts: Seq<Point>, p: Point) -> int
    decreases pts.len(),
{
    if pts.len() == 0 {
        0
    } else {
        cover_count(pts.drop_last(), p) + if pts.last() == p {
            1int
        } else {
            0int
        }
    }
}

proof fn lemma_cover_count_nonneg(pts: Seq<Point>, p: Point)
    ensures
        cover_count(pts, p) >= 0,
    decreases pts.len(),
{
    if pts.len() > 0 {
        lemma_cover_count_nonneg(pts.drop_last(), p);
    }
}

proof fn lemma_cover_count_concat(a: Seq<Point>, b: Seq<Point>, p: Point)
    ensures
        cover_count(a + b, p) == cover_count(a, p) + cover_count(b, p),
    decreases b.len(),
{
    if b.len() == 0 {
        assert(a + b =~= a);
    } else {
        assert((a + b).drop_last() =~= a + b.drop_last());
        lemma_cover_count_concat(a, b.drop_last(), p);
    }
}

/// Counts, for every covered point, by how many line points it is covered;
/// each point appears once, with its exact count.
pub fn get_covered_points(lines: &Vec<Line>, diagonal: bool) -> (r: Vec<(Point, u32)>)
    requires
        flat_points(lines@, diagonal).len() <= u32::MAX,
        forall|k: int|
            0 <= k < lines@.len() ==> range_len(
                (#[trigger] lines@[k]).0.x,
                lines@[k].1.x,
            ) <= usize::MAX && range_len(lines@[k].0.y, lines@[k].1.y) <= usize::MAX,
    ensures
        forall|i: int, j: int| 0 <= i < j < r@.len() ==> (#[trigger] r@[i]).0 != (#[trigger] r@[j]).0,
        forall|i: int|
            0 <= i < r@.len() ==> (#[trigger] r@[i]).1 == cover_count(
                flat_points(lines@, diagonal),
                r@[i].0,
            ) && r@[i].1 > 0,
        forall|p: Point|
            cover_count(flat_points(lines@, diagonal), p) > 0 ==> exists|i: int|
                0 <= i < r@.len() && (#[trigger] r@[i]).0 == p,
{
    let ghost all = flat_points(lines@, diagonal);
    let mut r: Vec<(Point, u32)> = Vec::new();
    let mut li: usize = 0;
    while li < lines.len()
        invariant
            li <= lines@.len(),
            all == flat_points(lines@, diagonal),
            all.len() <= u32::MAX,
            forall|k: int|
                0 <= k < lines@.len() ==> range_len(
                    (#[trigger] lines@[k]).0.x,
                    lines@[k].1.x,
                ) <= usize::MAX && range_len(lines@[k].0.y, lines@[k].1.y) <= usize::MAX,
            forall|i: int, j: int|
                0 <= i < j < r@.len() ==> (#[trigger] r@[i]).0 != (#[trigger] r@[j]).0,
            forall|i: int|
                0 <= i < r@.len() ==> (#[trigger] r@[i]).1 == cover_count(
                    flat_points(lines@.take(li as int), diagonal),
                    r@[i].0,
                ) && r@[i].1 > 0,
            forall|p: Point|
                cover_count(flat_points(lines@.take(li as int), diagonal), p) > 0 ==> exists|
                    i: int,
                |
                    0 <= i < r@.len() && (#[trigger] r@[i]).0 == p,
        decreases lines@.len() - li,
    {
        proof {
            assert(lines@.take(li + 1).drop_last() =~= lines@.take(li as int));
            assert(lines@.take(li + 1).last() == lines@[li as int]);
        }
        let maybe = lines[li].get_points(diagonal);
        if maybe.is_none() {
            proof {
                assert(flat_points(lines@.take(li + 1), diagonal) =~= flat_points(
                    lines@.take(li as int),
                    diagonal,
                ));
            }
            li = li + 1;
        } else {
            let pts = maybe.unwrap();
            let ghost before = flat_points(lines@.take(li as int), diagonal);
            proof {
                assert(flat_points(lines@.take(li + 1), diagonal) =~= before + pts@);
                lemma_flat_take_le(lines@, diagonal, li + 1);
            }
            let mut pi: usize = 0;
            while pi < pts.len()
                invariant
                    pi <= pts@.len(),
                    li < lines@.len(),
                    all == flat_points(lines@, diagonal),
                    all.len() <= u32::MAX,
                    before == flat_points(lines@.take(li as int), diagonal),
                    flat_points(lines@.take(li + 1), diagonal) == before + pts@,
                    flat_points(lines@.take(li + 1), diagonal).len() <= all.len(),
                    forall|i: int, j: int|
                        0 <= i < j < r@.len() ==> (#[trigger] r@[i]).0 != (#[trigger] r@[j]).0,
                    forall|i: int|
                        0 <= i < r@.len() ==> (#[trigger] r@[i]).1 == cover_count(
                            before + pts@.take(pi as int),
                            r@[i].0,
                        ) && r@[i].1 > 0,
                    forall|p: Point|
                        cover_count(before + pts@.take(pi as int), p) > 0 ==> exists|i: int|
                            0 <= i < r@.len() && (#[trigger] r@[i]).0 == p,
                decreases pts@.len() - pi,
            {
                let ghost seen = before + pts@.take(pi as int);
                let ghost seen2 = before + pts@.take(pi + 1);
                proof {
                    assert(pts@.take(pi + 1).drop_last() =~= pts@.take(pi as int));
                    assert(pts@.take(pi + 1).last() == pts@[pi as int]);
                    assert forall|p: Point|
                        cover_count(seen2, p) == cover_count(seen, p) + (
                    if p == pts@[pi as int] {
                        1int
                    } else {
                        0int
                    }) by {
                        lemma_cover_count_concat(before, pts@.take(pi + 1), p);
                        lemma_cover_count_concat(before, pts@.take(pi as int), p);
                    }
                    assert(seen.len() == before.len() + pi);
                    assert(seen.len() < (before + pts@).len());
                }
                let pt = pts[pi];
                let mut found = false;
                let mut j: usize = 0;
                while j < r.len() && !found
                    invariant
                        j <= r@.len(),
                        found ==> j < r@.len() && r@[j as int].0 == pt,
                        !found ==> forall|k: int| 0 <= k < j ==> (#[trigger] r@[k]).0 != pt,
                    decreases r@.len() - j + (if found {
                        0int
                    } else {
                        1int
                    }),
                {
                    if r[j].0 == pt {
                        found = true;
                    } else {
                        j = j + 1;
                    }
                }
                if found {
                    proof {
                        lemma_count_le_len(seen, pt);
                    }
                    let ghost oldr = r@;
                    let old_count = r[j].1;
                    r[j] = (pt, old_count + 1);
                    proof {
                        assert forall|p: Point| cover_count(seen2, p) > 0 implies exists|i: int|
                            0 <= i < r@.len() && (#[trigger] r@[i]).0 == p by {
                            if p == pt {
                                assert(r@[j as int].0 == p);
                            } else {
                                assert(cover_count(seen, p) > 0);
                                let i = choose|i: int|
                                    0 <= i < oldr.len() && (#[trigger] oldr[i]).0 == p;
                                assert(r@[i].0 == p);
                            }
                        }
                    }
                } else {
                    proof {
                        lemma_cover_count_nonneg(seen, pt);
                        if cover_count(seen, pt) > 0 {
                            let i = choose|i: int|
                                0 <= i < r@.len() && (#[trigger] r@[i]).0 == pt;
                        }
                        assert(cover_count(seen, pt) == 0);
                    }
                    let ghost oldr = r@;
                    r.push((pt, 1));
                    proof {
                        assert forall|p: Point| cover_count(seen2, p) > 0 implies exists|i: int|
                            0 <= i < r@.len() && (#[trigger] r@[i]).0 == p by {
                            if p == pt {
                                assert(r@[r@.len() - 1].0 == p);
                            } else {
                                assert(cover_count(seen, p) > 0);
                                let i = choose|i: int|
                                    0 <= i < oldr.len() && (#[trigger] oldr[i]).0 == p;
                                assert(r@[i].0 == p);
                            }
                        }
                    }
                }
                pi = pi + 1;
            }
            proof {
                assert(pts@.take(pts@.len() as int) =~= pts@);
            }
            li = li + 1;
        }
    }
    proof {
        assert(lines@.take(lines@.len() as int) =~= lines@);
    }
    r
}

proof fn lemma_count_le_len(pts: Seq<Point>, p: Point)
    ensures
        cover_count(pts, p) <= pts.len(),
    decreases pts.len(),
{
    if pts.len() > 0 {
        lemma_count_le_len(pts.drop_last(), p);
    }
}

proof fn lemma_flat_take_le(lines: Seq<Line>, diagonal: bool, n: int)
    requires
        0 <= n <= lines.len(),
    ensures
        flat_points(lines.take(n), diagonal).len() <= flat_points(lines, diagonal).len(),
    decreases lines.len() - n,
{
    if n == lines.len() {
        assert(lines.take(n) =~= lines);
    } else {
        lemma_flat_take_le(lines, diagonal, n + 1);
        assert(lines.take(n + 1).drop_last() =~= lines.take(n));
    }
}

} // verus!
