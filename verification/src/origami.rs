//! Transparent origami: dots on a sheet folded along grid lines.

use vstd::prelude::*;
use crate::text::{chars_of, copy_range, find_first, parse_usize, is_unsigned_within,
    unsigned_body, digits_val};

verus! {

/// Why origami text was rejected.
#[derive(Clone, Copy, Debug, PartialEq, Eq, Structural)]
pub enum OrigamiError {
    InvalidCoordinate,
    NoFolds,
}

/// One dot on the sheet: column, then row.
#[derive(Clone, Copy, Debug, PartialEq, Eq, Hash, Structural)]
pub struct Pixel(pub usize, pub usize);

/// Dot order on the sheet: by row, then by column.
pub open spec fn pixel_lt(p: Pixel, q: Pixel) -> bool {
    p.1 < q.1 || (p.1 == q.1 && p.0 < q.0)
}

/// The dot after folding the sheet up along row `y`.
pub open spec fn fold_h_spec(p: Pixel, y: int) -> Pixel {
    if p.1 > y {
        Pixel { 0: p.0, 1: (2 * y - p.1) as usize }
    } else {
        p
    }
}

/// The dot after folding the sheet left along column `x`.
pub open spec fn fold_v_spec(p: Pixel, x: int) -> Pixel {
    if p.0 > x {
        Pixel { 0: (2 * x - p.0) as usize, 1: p.1 }
    } else {
        p
    }
}

impl Pixel {
    /// Mirrors the dot across the horizontal fold line `y` if it lies below.
    pub fn fold_horizontal(&self, y: usize) -> (r: Pixel)
        requires
            self.1 > y ==> self.1 <= 2 * y,
            2 * y <= usize::MAX,
        ensures
            r == fold_h_spec(*self, y as int),
    {
        if self.1 > y {
            Pixel(self.0, 2 * y - self.1)
        } else {
            Pixel(self.0, self.1)
        }
    }

    /// Mirrors the dot across the vertical fold line `x` if it lies right.
    pub fn fold_vertical(&self, x: usize) -> (r: Pixel)
        requires
            self.0 > x ==> self.0 <= 2 * x,
            2 * x <= usize::MAX,
        ensures
            r == fold_v_spec(*self, x as int),
    {
        if self.0 > x {
            Pixel(2 * x - self.0, self.1)
        } else {
            Pixel(self.0, self.1)
        }
    }
}

/// The dots of the sheet, kept sorted by row then column with no duplicate.
#[derive(Debug, PartialEq, Eq)]
pub struct Image {
    pixels: Vec<Pixel>,
}

impl Image {
    /// The dots, in order.
    pub closed spec fn dots_seq(&self) -> Seq<Pixel> {
        self.pixels@
    }

    /// Whether the sheet shows a dot.
    pub open spec fn has(&self, p: Pixel) -> bool {
        self.dots_seq().contains(p)
    }

    pub open spec fn wf(&self) -> bool {
        forall|i: int, j: int|
            0 <= i < j < self.dots_seq().len() ==> pixel_lt(
                #[trigger] self.dots_seq()[i],
                #[trigger] self.dots_seq()[j],
            )
    }
}

/// Inserts a dot into a sorted dot list, keeping it sorted and duplicate
/// free.
fn insert_sorted(v: &mut Vec<Pixel>, p: Pixel)
    requires
        forall|i: int, j: int|
            0 <= i < j < old(v)@.len() ==> pixel_lt(#[trigger] old(v)@[i], #[trigger] old(v)@[j]),
    ensures
        forall|i: int, j: int|
            0 <= i < j < final(v)@.len() ==> pixel_lt(
                #[trigger] final(v)@[i],
                #[trigger] final(v)@[j],
            ),
        forall|q: Pixel| final(v)@.contains(q) <==> (old(v)@.contains(q) || q == p),
{
    let ghost oldv = v@;
    let mut idx: usize = 0;
    while idx < v.len() && (v[idx].1 < p.1 || (v[idx].1 == p.1 && v[idx].0 < p.0))
        invariant
            v@ == oldv,
            idx <= v@.len(),
            forall|k: int| 0 <= k < idx ==> pixel_lt(#[trigger] v@[k], p),
        decreases v@.len() - idx,
    {
        idx = idx + 1;
    }
    if idx < v.len() && v[idx].0 == p.0 && v[idx].1 == p.1 {
        proof {
            assert(v@[idx as int] == p);
            assert(v@.contains(p));
        }
        return ;
    }
    proof {
        if idx < oldv.len() {
            assert(!pixel_lt(oldv[idx as int], p));
            assert(oldv[idx as int] != p);
            assert(pixel_lt(p, oldv[idx as int]));
        }
    }
    v.insert(idx, p);
    proof {
        assert(v@ == oldv.insert(idx as int, p));
        assert(v@.len() == oldv.len() + 1);
        assert(v@[idx as int] == p);
        assert(forall|m: int| 0 <= m < idx ==> v@[m] == oldv[m]);
        assert(forall|m: int| idx < m < v@.len() ==> v@[m] == oldv[m - 1]);
        assert forall|i: int, j: int| 0 <= i < j < v@.len() implies pixel_lt(
            #[trigger] v@[i],
            #[trigger] v@[j],
        ) by {
            let iv = if i < idx {
                oldv[i]
            } else if i == idx {
                p
            } else {
                oldv[i - 1]
            };
            let jv = if j < idx {
                oldv[j]
            } else if j == idx {
                p
            } else {
                oldv[j - 1]
            };
            assert(v@[i] == iv && v@[j] == jv);
            if i < idx && j > idx {
                assert(pixel_lt(oldv[i], p));
                assert(pixel_lt(p, oldv[idx as int]));
                if idx < j - 1 {
                    assert(pixel_lt(oldv[idx as int], oldv[j - 1]));
                }
            } else if i == idx && j > idx {
                assert(pixel_lt(p, oldv[idx as int]));
                if idx < j - 1 {
                    assert(pixel_lt(oldv[idx as int], oldv[j - 1]));
                }
            }
        }
        assert forall|q: Pixel| v@.contains(q) implies (oldv.contains(q) || q == p) by {
            let k = choose|k: int| 0 <= k < v@.len() && v@[k] == q;
            if k < idx {
                assert(oldv[k] == q);
            } else if k > idx {
                assert(oldv[k - 1] == q);
            }
        }
        assert forall|q: Pixel| oldv.contains(q) || q == p implies v@.contains(q) by {
            if q == p {
                assert(v@[idx as int] == q);
            } else {
                let k = choose|k: int| 0 <= k < oldv.len() && oldv[k] == q;
                if k < idx {
                    assert(v@[k] == q);
                } else {
                    assert(v@[k + 1] == q);
                }
            }
        }
    }
}

/// Whether a line announces a fold.
pub open spec fn starts_with_fold(s: Seq<char>) -> bool {
    s.len() >= 4 && s.subrange(0, 4) == "fold"@
}

/// What a coordinate line `x,y` parses to: both parts around the first comma
/// as machine-sized numbers.
pub open spec fn pixel_line_spec(s: Seq<char>) -> Option<Pixel> {
    let i = crate::text::first_occurrence(s, seq![','], 0);
    if i < 0 {
        None
    } else {
        let xs = s.subrange(0, i);
        let ys = s.subrange(i + 1, s.len() as int);
        if is_unsigned_within(xs, usize::MAX as int) && is_unsigned_within(ys, usize::MAX as int) {
            Some(
                Pixel {
                    0: digits_val(unsigned_body(xs)) as usize,
                    1: digits_val(unsigned_body(ys)) as usize,
                },
            )
        } else {
            None
        }
    }
}

/// How scanning the dot section ends: the index of the first fold line, or
/// the error met before one.
pub open spec fn scan_dots(lines: Seq<Seq<char>>, k: int) -> Result<int, OrigamiError>
    decreases lines.len() - k,
{
    if k < 0 || k >= lines.len() {
        Result::Err(OrigamiError::NoFolds)
    } else if lines[k].len() == 0 {
        scan_dots(lines, k + 1)
    } else if starts_with_fold(lines[k]) {
        Result::Ok(k)
    } else if pixel_line_spec(lines[k]) is None {
        Result::Err(OrigamiError::InvalidCoordinate)
    } else {
        scan_dots(lines, k + 1)
    }
}

impl Image {
    /// Builds a sheet from any dot list; duplicates collapse.
    pub fn from_pixels(pixels: Vec<Pixel>) -> (r: Image)
        ensures
            r.wf(),
            forall|q: Pixel| r.has(q) <==> pixels@.contains(q),
    {
        let mut sorted: Vec<Pixel> = Vec::new();
        let mut i: usize = 0;
        while i < pixels.len()
            invariant
                i <= pixels@.len(),
                forall|x: int, y: int|
                    0 <= x < y < sorted@.len() ==> pixel_lt(
                        #[trigger] sorted@[x],
                        #[trigger] sorted@[y],
                    ),
                forall|q: Pixel| sorted@.contains(q) <==> pixels@.take(i as int).contains(q),
            decreases pixels@.len() - i,
        {
            let ghost before = sorted@;
            insert_sorted(&mut sorted, pixels[i]);
            proof {
                assert forall|q: Pixel|
                    sorted@.contains(q) <==> pixels@.take(i + 1).contains(q) by {
                    assert(pixels@.take(i + 1).drop_last() =~= pixels@.take(i as int));
                    if sorted@.contains(q) {
                        if q == pixels@[i as int] {
                            assert(pixels@.take(i + 1)[i as int] == q);
                        } else {
                            assert(before.contains(q));
                            let k = choose|k: int|
                                0 <= k < pixels@.take(i as int).len() && pixels@.take(i as int)[k]
                                    == q;
                            assert(pixels@.take(i + 1)[k] == q);
                        }
                    }
                    if pixels@.take(i + 1).contains(q) {
                        let k = choose|k: int|
                            0 <= k < pixels@.take(i + 1).len() && #[trigger] pixels@.take(i + 1)[k]
                                == q;
                        if k < i {
                            assert(pixels@.take(i as int)[k] == q);
                        } else {
                            assert(q == pixels@[i as int]);
                        }
                    }
                }
            }
            i = i + 1;
        }
        proof {
            assert(pixels@.take(pixels@.len() as int) =~= pixels@);
        }
        Image { pixels: sorted }
    }

    /// Parses the dot section of the input: one `x,y` line per dot, blank
    /// lines skipped, ending at the first `fold` line, whose index is
    /// returned beside the sheet.
    pub fn parse(lines: &Vec<String>) -> (r: Result<(Image, usize), OrigamiError>)
        ensures
            match r {
                Result::Ok((img, rest)) => scan_dots(crate::navigation::line_views(lines@), 0)
                    == Result::<int, OrigamiError>::Ok(rest as int) && img.wf() && (forall|q: Pixel|
                    img.has(q) <==> exists|k: int|
                        0 <= k < rest && pixel_line_spec(
                            #[trigger] crate::navigation::line_views(lines@)[k],
                        ) == Some(q)),
                Result::Err(e) => scan_dots(crate::navigation::line_views(lines@), 0) == Result::<
                    int,
                    OrigamiError,
                >::Err(e),
            },
    {
        let ghost views = crate::navigation::line_views(lines@);
        let mut sorted: Vec<Pixel> = Vec::new();
        let mut k: usize = 0;
        loop
            invariant
                views == crate::navigation::line_views(lines@),
                views.len() == lines@.len(),
                k <= lines@.len(),
                scan_dots(views, 0) == scan_dots(views, k as int),
                forall|x: int, y: int|
                    0 <= x < y < sorted@.len() ==> pixel_lt(
                        #[trigger] sorted@[x],
                        #[trigger] sorted@[y],
                    ),
                forall|q: Pixel|
                    sorted@.contains(q) <==> exists|j: int|
                        0 <= j < k && pixel_line_spec(#[trigger] views[j]) == Some(q),
            ensures
                views == crate::navigation::line_views(lines@),
                k <= lines@.len(),
                scan_dots(views, 0) == scan_dots(views, k as int),
                forall|x: int, y: int|
                    0 <= x < y < sorted@.len() ==> pixel_lt(
                        #[trigger] sorted@[x],
                        #[trigger] sorted@[y],
                    ),
                forall|q: Pixel|
                    sorted@.contains(q) <==> exists|j: int|
                        0 <= j < k && pixel_line_spec(#[trigger] views[j]) == Some(q),
                k >= lines@.len() || starts_with_fold(views[k as int]),
                k < lines@.len() ==> scan_dots(views, k as int) == Result::<
                    int,
                    OrigamiError,
                >::Ok(k as int),
            decreases lines@.len() - k,
        {
            if k >= lines.len() {
                break ;
            }
            let chars = chars_of(lines[k].as_str());
            proof {
                assert(views[k as int] == lines@[k as int]@);
            }
            if chars.len() == 0 {
                k = k + 1;
            } else {
                let fold_word = chars_of("fold");
                let is_fold = chars.len() >= 4 && {
                    let head = copy_range(&chars, 0, 4);
                    crate::text::chars_eq(&head, &fold_word)
                };
                if is_fold {
                    break ;
                }
                let mut sep: Vec<char> = Vec::new();
                sep.push(',');
                proof {
                    assert(sep@ =~= seq![',']);
                }
                let i = match find_first(&chars, &sep) {
                    Some(i) => i,
                    None => {
                        return Err(OrigamiError::InvalidCoordinate);
                    },
                };
                let xs = copy_range(&chars, 0, i);
                let ys = copy_range(&chars, i + 1, chars.len());
                let x = match parse_usize(&xs) {
                    Some(x) => x,
                    None => {
                        return Err(OrigamiError::InvalidCoordinate);
                    },
                };
                let y = match parse_usize(&ys) {
                    Some(y) => y,
                    None => {
                        return Err(OrigamiError::InvalidCoordinate);
                    },
                };
                proof {
                    crate::text::lemma_digits_val_nonneg(
                        unsigned_body(views[k as int].subrange(0, i as int)),
                    );
                    crate::text::lemma_digits_val_nonneg(
                        unsigned_body(
                            views[k as int].subrange(i + 1, views[k as int].len() as int),
                        ),
                    );
                    assert(pixel_line_spec(views[k as int]) == Some(Pixel { 0: x, 1: y }));
                }
                let ghost before = sorted@;
                insert_sorted(&mut sorted, Pixel(x, y));
                proof {
                    assert forall|q: Pixel|
                        sorted@.contains(q) <==> exists|j: int|
                            0 <= j < k + 1 && pixel_line_spec(#[trigger] views[j]) == Some(q) by {
                        if sorted@.contains(q) {
                            if q == (Pixel { 0: x, 1: y }) {
                                assert(pixel_line_spec(views[k as int]) == Some(q));
                            } else {
                                assert(before.contains(q));
                            }
                        }
                        if exists|j: int|
                            0 <= j < k + 1 && pixel_line_spec(#[trigger] views[j]) == Some(q) {
                            let j = choose|j: int|
                                0 <= j < k + 1 && pixel_line_spec(#[trigger] views[j]) == Some(q);
                            if j < k {
                                assert(before.contains(q));
                            } else {
                                assert(q == (Pixel { 0: x, 1: y }));
                            }
                        }
                    }
                }
                k = k + 1;
            }
        }
        if k >= lines.len() {
            return Err(OrigamiError::NoFolds);
        }
        Ok((Image { pixels: sorted }, k))
    }

    /// The folded sheet: every dot mirrored across the horizontal line `y`.
    pub fn fold_horizontal(&self, y: usize) -> (r: Image)
        requires
            self.wf(),
            forall|p: Pixel| self.has(p) ==> (p.1 > y ==> p.1 <= 2 * y),
            2 * y <= usize::MAX,
        ensures
            r.wf(),
            forall|q: Pixel|
                r.has(q) <==> exists|p: Pixel|
                    #[trigger] self.has(p) && fold_h_spec(p, y as int) == q,
    {
        let mut sorted: Vec<Pixel> = Vec::new();
        let mut i: usize = 0;
        while i < self.pixels.len()
            invariant
                self.wf(),
                forall|p: Pixel| self.has(p) ==> (p.1 > y ==> p.1 <= 2 * y),
                2 * y <= usize::MAX,
                i <= self.pixels@.len(),
                forall|x2: int, y2: int|
                    0 <= x2 < y2 < sorted@.len() ==> pixel_lt(
                        #[trigger] sorted@[x2],
                        #[trigger] sorted@[y2],
                    ),
                forall|q: Pixel|
                    sorted@.contains(q) <==> exists|j: int|
                        0 <= j < i && fold_h_spec(#[trigger] self.pixels@[j], y as int) == q,
            decreases self.pixels@.len() - i,
        {
            proof {
                assert(self.pixels@.contains(self.pixels@[i as int]));
                assert(self.has(self.pixels@[i as int]));
            }
            let folded = self.pixels[i].fold_horizontal(y);
            let ghost before = sorted@;
            insert_sorted(&mut sorted, folded);
            proof {
                assert forall|q: Pixel|
                    sorted@.contains(q) <==> exists|j: int|
                        0 <= j < i + 1 && fold_h_spec(#[trigger] self.pixels@[j], y as int)
                            == q by {
                    if sorted@.contains(q) {
                        if q == folded {
                            assert(fold_h_spec(self.pixels@[i as int], y as int) == q);
                        } else {
                            assert(before.contains(q));
                        }
                    }
                    if exists|j: int|
                        0 <= j < i + 1 && fold_h_spec(#[trigger] self.pixels@[j], y as int) == q {
                        let j = choose|j: int|
                            0 <= j < i + 1 && fold_h_spec(#[trigger] self.pixels@[j], y as int)
                                == q;
                        if j < i {
                            assert(before.contains(q));
                        }
                    }
                }
            }
            i = i + 1;
        }
        let r = Image { pixels: sorted };
        proof {
            assert forall|q: Pixel|
                r.has(q) <==> exists|p: Pixel|
                    #[trigger] self.has(p) && fold_h_spec(p, y as int) == q by {
                if r.has(q) {
                    let j = choose|j: int|
                        0 <= j < self.pixels@.len() && fold_h_spec(
                            #[trigger] self.pixels@[j],
                            y as int,
                        ) == q;
                    assert(self.has(self.pixels@[j]));
                }
                if exists|p: Pixel| #[trigger] self.has(p) && fold_h_spec(p, y as int) == q {
                    let p = choose|p: Pixel|
                        #[trigger] self.has(p) && fold_h_spec(p, y as int) == q;
                    let j = choose|j: int|
                        0 <= j < self.pixels@.len() && self.pixels@[j] == p;
                    assert(fold_h_spec(self.pixels@[j], y as int) == q);
                }
            }
        }
        r
    }

    /// The folded sheet: every dot mirrored across the vertical line `x`.
    pub fn fold_vertical(&self, x: usize) -> (r: Image)
        requires
            self.wf(),
            forall|p: Pixel| self.has(p) ==> (p.0 > x ==> p.0 <= 2 * x),
            2 * x <= usize::MAX,
        ensures
            r.wf(),
            forall|q: Pixel|
                r.has(q) <==> exists|p: Pixel|
                    #[trigger] self.has(p) && fold_v_spec(p, x as int) == q,
    {
        let mut sorted: Vec<Pixel> = Vec::new();
        let mut i: usize = 0;
        while i < self.pixels.len()
            invariant
                self.wf(),
                forall|p: Pixel| self.has(p) ==> (p.0 > x ==> p.0 <= 2 * x),
                2 * x <= usize::MAX,
                i <= self.pixels@.len(),
                forall|x2: int, y2: int|
                    0 <= x2 < y2 < sorted@.len() ==> pixel_lt(
                        #[trigger] sorted@[x2],
                        #[trigger] sorted@[y2],
                    ),
                forall|q: Pixel|
                    sorted@.contains(q) <==> exists|j: int|
                        0 <= j < i && fold_v_spec(#[trigger] self.pixels@[j], x as int) == q,
            decreases self.pixels@.len() - i,
        {
            proof {
                assert(self.pixels@.contains(self.pixels@[i as int]));
                assert(self.has(self.pixels@[i as int]));
            }
            let folded = self.pixels[i].fold_vertical(x);
            let ghost before = sorted@;
            insert_sorted(&mut sorted, folded);
            proof {
                assert forall|q: Pixel|
                    sorted@.contains(q) <==> exists|j: int|
                        0 <= j < i + 1 && fold_v_spec(#[trigger] self.pixels@[j], x as int)
                            == q by {
                    if sorted@.contains(q) {
                        if q == folded {
                            assert(fold_v_spec(self.pixels@[i as int], x as int) == q);
                        } else {
                            assert(before.contains(q));
                        }
                    }
                    if exists|j: int|
                        0 <= j < i + 1 && fold_v_spec(#[trigger] self.pixels@[j], x as int) == q {
                        let j = choose|j: int|
                            0 <= j < i + 1 && fold_v_spec(#[trigger] self.pixels@[j], x as int)
                                == q;
                        if j < i {
                            assert(before.contains(q));
                        }
                    }
                }
            }
            i = i + 1;
        }
        let r = Image { pixels: sorted };
        proof {
            assert forall|q: Pixel|
                r.has(q) <==> exists|p: Pixel|
                    #[trigger] self.has(p) && fold_v_spec(p, x as int) == q by {
                if r.has(q) {
                    let j = choose|j: int|
                        0 <= j < self.pixels@.len() && fold_v_spec(
                            #[trigger] self.pixels@[j],
                            x as int,
                        ) == q;
                    assert(self.has(self.pixels@[j]));
                }
                if exists|p: Pixel| #[trigger] self.has(p) && fold_v_spec(p, x as int) == q {
                    let p = choose|p: Pixel|
                        #[trigger] self.has(p) && fold_v_spec(p, x as int) == q;
                    let j = choose|j: int|
                        0 <= j < self.pixels@.len() && self.pixels@[j] == p;
                    assert(fold_v_spec(self.pixels@[j], x as int) == q);
                }
            }
        }
        r
    }

    /// Number of visible dots.
    pub fn dots(&self) -> (r: usize)
        ensures
            r == self.dots_seq().len(),
    {
        self.pixels.len()
    }

    /// The dots as a list, sorted by row then column.
    pub fn pixel_list(&self) -> (r: Vec<Pixel>)
        ensures
            r@ == self.dots_seq(),
    {
        let mut r: Vec<Pixel> = Vec::new();
        let mut i: usize = 0;
        while i < self.pixels.len()
            invariant
                i <= self.pixels@.len(),
                r@ == self.pixels@.take(i as int),
            decreases self.pixels@.len() - i,
        {
            r.push(self.pixels[i]);
            proof {
                assert(self.pixels@.take(i + 1) =~= self.pixels@.take(i as int).push(
                    self.pixels@[i as int],
                ));
            }
            i = i + 1;
        }
        proof {
            assert(self.pixels@.take(self.pixels@.len() as int) =~= self.pixels@);
        }
        r
    }
}

/// Largest column among the dots.
pub open spec fn max_x(s: Seq<Pixel>) -> int
    decreases s.len(),
{
    if s.len() <= 1 {
        s[0].0 as int
    } else if s.last().0 as int > max_x(s.drop_last()) {
        s.last().0 as int
    } else {
        max_x(s.drop_last())
    }
}

/// Largest row among the dots.
pub open spec fn max_y(s: Seq<Pixel>) -> int
    decreases s.len(),
{
    if s.len() <= 1 {
        s[0].1 as int
    } else if s.last().1 as int > max_y(s.drop_last()) {
        s.last().1 as int
    } else {
        max_y(s.drop_last())
    }
}

/// One text row of the sheet: width dot cells and a newline.
pub open spec fn sheet_row(img: &Image, y: int, width: int) -> Seq<char> {
    Seq::new(
        (width + 1) as nat,
        |x: int|
            if x == width {
                '\n'
            } else if img.has(Pixel { 0: x as usize, 1: y as usize }) {
                '#'
            } else {
                '.'
            },
    )
}

/// The sheet as text, top row first.
pub open spec fn sheet_paint(img: &Image, rows: int, width: int) -> Seq<char>
    decreases rows,
{
    if rows <= 0 {
        Seq::empty()
    } else {
        sheet_paint(img, rows - 1, width) + sheet_row(img, rows - 1, width)
    }
}

impl Image {
    /// Whether the sheet shows a dot at the given position.
    pub fn has_pixel(&self, x: usize, y: usize) -> (r: bool)
        ensures
            r == self.has(Pixel { 0: x, 1: y }),
    {
        let mut i: usize = 0;
        while i < self.pixels.len()
            invariant
                i <= self.pixels@.len(),
                forall|k: int| 0 <= k < i ==> #[trigger] self.pixels@[k] != (Pixel { 0: x, 1: y }),
            decreases self.pixels@.len() - i,
        {
            if self.pixels[i].0 == x && self.pixels[i].1 == y {
                proof {
                    assert(self.pixels@[i as int] == (Pixel { 0: x, 1: y }));
                }
                return true;
            }
            i = i + 1;
        }
        false
    }

    /// The sheet as text: `#` for a dot, `.` elsewhere, sized to the
    /// furthest dot, one line per row.
    pub fn paint(&self) -> (r: String)
        requires
            self.dots_seq().len() > 0,
            max_x(self.dots_seq()) + 2 <= usize::MAX,
            max_y(self.dots_seq()) + 1 <= usize::MAX,
            (max_y(self.dots_seq()) + 1) * (max_x(self.dots_seq()) + 2) <= usize::MAX,
        ensures
            r@ == sheet_paint(
                self,
                max_y(self.dots_seq()) + 1,
                max_x(self.dots_seq()) + 1,
            ),
    {
        let mut mx: usize = self.pixels[0].0;
        let mut my: usize = self.pixels[0].1;
        let mut i: usize = 1;
        while i < self.pixels.len()
            invariant
                1 <= i <= self.pixels@.len(),
                self.pixels@.len() > 0,
                mx == max_x(self.pixels@.take(i as int)),
                my == max_y(self.pixels@.take(i as int)),
            decreases self.pixels@.len() - i,
        {
            proof {
                assert(self.pixels@.take(i + 1).drop_last() =~= self.pixels@.take(i as int));
                assert(self.pixels@.take(i + 1).last() == self.pixels@[i as int]);
            }
            if self.pixels[i].0 > mx {
                mx = self.pixels[i].0;
            }
            if self.pixels[i].1 > my {
                my = self.pixels[i].1;
            }
            i = i + 1;
        }
        proof {
            assert(self.pixels@.take(self.pixels@.len() as int) =~= self.pixels@);
            assert(self.pixels@.take(1).drop_last() =~= self.pixels@.take(0));
        }
        let width = mx + 1;
        let height = my + 1;
        let mut out: Vec<char> = Vec::new();
        let mut y: usize = 0;
        while y < height
            invariant
                y <= height,
                width == max_x(self.dots_seq()) + 1,
                height == max_y(self.dots_seq()) + 1,
                width + 1 <= usize::MAX,
                height * (width + 1) <= usize::MAX,
                out@ == sheet_paint(self, y as int, width as int),
                out@.len() == y * (width + 1),
            decreases height - y,
        {
            let mut x: usize = 0;
            let ghost rowstart = out@;
            while x < width
                invariant
                    x <= width,
                    y < height,
                    width == max_x(self.dots_seq()) + 1,
                    out@ == rowstart + sheet_row(self, y as int, width as int).take(x as int),
                decreases width - x,
            {
                proof {
                    assert(sheet_row(self, y as int, width as int).take(x + 1) =~= sheet_row(
                        self,
                        y as int,
                        width as int,
                    ).take(x as int).push(sheet_row(self, y as int, width as int)[x as int]));
                }
                if self.has_pixel(x, y) {
                    out.push('#');
                } else {
                    out.push('.');
                }
                x = x + 1;
            }
            out.push('\n');
            proof {
                assert(out@ =~= rowstart + sheet_row(self, y as int, width as int));
                assert(out@ =~= sheet_paint(self, y + 1, width as int));
                assert(y * (width + 1) + (width + 1) == (y + 1) * (width + 1)) by (nonlinear_arith);
                assert((y + 1) * (width + 1) <= height * (width + 1)) by (nonlinear_arith)
                    requires
                        y + 1 <= height,
                        width + 1 >= 0,
                ;
            }
            y = y + 1;
        }
        crate::text::string_of_chars(&out)
    }
}

} // verus!
