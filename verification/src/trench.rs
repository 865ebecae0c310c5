//! Trench map enhancement: an infinite image refined by a 512-entry lookup.

use vstd::prelude::*;
use crate::text::chars_of;

verus! {

/// Why enhancer or image text was rejected.
#[derive(Clone, Copy, Debug, PartialEq, Eq, Structural)]
pub enum TrenchError {
    InvalidPixel,
    WrongLength,
}

/// The 512-entry enhancement lookup.
#[derive(Debug, PartialEq, Eq)]
pub struct ImageEnhancer(pub Vec<bool>);

impl ImageEnhancer {
    pub open spec fn wf(&self) -> bool {
        self.0@.len() == 512
    }
}

pub open spec fn is_pixel_char(c: char) -> bool {
    c == '#' || c == '.'
}

pub open spec fn line_pixels_ok(s: Seq<char>) -> bool {
    forall|i: int| 0 <= i < s.len() ==> is_pixel_char(#[trigger] s[i])
}

impl ImageEnhancer {
    /// Parses the lookup line: exactly 512 `#` or `.` characters.
    pub fn parse(line: &str) -> (r: Result<ImageEnhancer, TrenchError>)
        ensures
            match r {
                Result::Ok(e) => line_pixels_ok(line@) && line@.len() == 512 && e.wf() && forall|
                    i: int,
                |
                    0 <= i < 512 ==> e.0@[i] == (line@[i] == '#'),
                Result::Err(TrenchError::InvalidPixel) => !line_pixels_ok(line@),
                Result::Err(TrenchError::WrongLength) => line_pixels_ok(line@) && line@.len()
                    != 512,
            },
    {
        let chars = chars_of(line);
        let mut bits: Vec<bool> = Vec::new();
        let mut i: usize = 0;
        while i < chars.len()
            invariant
                chars@ == line@,
                i <= chars@.len(),
                bits@.len() == i,
                forall|k: int| 0 <= k < i ==> is_pixel_char(#[trigger] chars@[k]),
                forall|k: int| 0 <= k < i ==> bits@[k] == (chars@[k] == '#'),
            decreases chars@.len() - i,
        {
            let c = chars[i];
            if c == '#' {
                bits.push(true);
            } else if c == '.' {
                bits.push(false);
            } else {
                return Err(TrenchError::InvalidPixel);
            }
            i = i + 1;
        }
        if bits.len() != 512 {
            return Err(TrenchError::WrongLength);
        }
        Ok(ImageEnhancer(bits))
    }
}

/// A finite window of the infinite image, with the surrounding plane's
/// default state.
#[derive(Debug, PartialEq, Eq)]
pub struct Image {
    pub pixels: Vec<Vec<bool>>,
    pub width: usize,
    pub height: usize,
    pub default_pixel: bool,
}

/// The pixel at a possibly out-of-window position.
pub open spec fn sample_spec(img: &Image, x: int, y: int) -> bool {
    if x < 0 || y < 0 {
        img.default_pixel
    } else if x < img.pixels@.len() && y < img.pixels@[x]@.len() {
        img.pixels@[x]@[y]
    } else {
        img.default_pixel
    }
}

pub open spec fn sample_bit(img: &Image, x: int, y: int) -> int {
    if sample_spec(img, x, y) {
        1
    } else {
        0
    }
}

/// The 9-bit lookup index around a position, most significant bit first in
/// reading order.
pub open spec fn grid_index_spec(img: &Image, x: int, y: int) -> int {
    256 * sample_bit(img, x - 1, y - 1) + 128 * sample_bit(img, x - 1, y) + 64 * sample_bit(
        img,
        x - 1,
        y + 1,
    ) + 32 * sample_bit(img, x, y - 1) + 16 * sample_bit(img, x, y) + 8 * sample_bit(img, x, y + 1)
        + 4 * sample_bit(img, x + 1, y - 1) + 2 * sample_bit(img, x + 1, y) + sample_bit(
        img,
        x + 1,
        y + 1,
    )
}

/// Index of the first unusable line: a character other than `#`/`.`, or a
/// length differing from the first line's.
pub open spec fn first_bad_image_line(lines: Seq<Seq<char>>, cols: int) -> int
    decreases lines.len(),
{
    if lines.len() == 0 {
        0
    } else if !line_pixels_ok(lines[0]) || lines[0].len() != cols {
        0
    } else {
        1 + first_bad_image_line(lines.drop_first(), cols)
    }
}

impl Image {
    /// Parses the image window: every line as long as the first, darkness
    /// around it.
    pub fn parse(lines: &Vec<String>) -> (r: Result<Image, TrenchError>)
        requires
            lines@.len() > 0,
        ensures
            ({
                let views = crate::navigation::line_views(lines@);
                let cols = views[0].len() as int;
                let fb = first_bad_image_line(views, cols);
                match r {
                    Result::Ok(img) => fb == views.len() && img.height == views.len() && img.width
                        == cols && img.default_pixel == false && img.pixels@.len() == views.len()
                        && (forall|i: int|
                        0 <= i < views.len() ==> (#[trigger] img.pixels@[i])@.len() == cols) && (
                    forall|i: int, j: int|
                        0 <= i < views.len() && 0 <= j < cols ==> img.pixels@[i]@[j] == (
                        #[trigger] views[i][j] == '#')),
                    Result::Err(TrenchError::InvalidPixel) => fb < views.len() && !line_pixels_ok(
                        views[fb],
                    ),
                    Result::Err(TrenchError::WrongLength) => fb < views.len() && line_pixels_ok(
                        views[fb],
                    ) && views[fb].len() != cols,
                }
            }),
    {
        let ghost views = crate::navigation::line_views(lines@);
        proof {
            assert(views.skip(0) =~= views);
        }
        let width = lines[0].as_str().unicode_len();
        proof {
            assert(views[0] == lines@[0]@);
        }
        let mut grid: Vec<Vec<bool>> = Vec::new();
        let mut i: usize = 0;
        while i < lines.len()
            invariant
                views == crate::navigation::line_views(lines@),
                views.len() == lines@.len(),
                0 < lines@.len(),
                width == views[0].len(),
                i <= lines@.len(),
                grid@.len() == i,
                first_bad_image_line(views, width as int) == i + first_bad_image_line(
                    views.skip(i as int),
                    width as int,
                ),
                forall|k: int|
                    0 <= k < i ==> line_pixels_ok(#[trigger] views[k]) && views[k].len() == width,
                forall|k: int| 0 <= k < i ==> (#[trigger] grid@[k])@.len() == width,
                forall|k: int, j: int|
                    0 <= k < i && 0 <= j < width ==> grid@[k]@[j] == (#[trigger] views[k][j]
                        == '#'),
            decreases lines@.len() - i,
        {
            let ghost rest = views.skip(i as int);
            proof {
                assert(rest[0] == views[i as int]);
                assert(rest.drop_first() =~= views.skip(i + 1));
            }
            let chars = chars_of(lines[i].as_str());
            let mut row: Vec<bool> = Vec::new();
            let mut c: usize = 0;
            while c < chars.len()
                invariant
                    chars@ == lines@[i as int]@,
                    views == crate::navigation::line_views(lines@),
                    views.len() == lines@.len(),
                    first_bad_image_line(views, width as int) == i + first_bad_image_line(
                        views.skip(i as int),
                        width as int,
                    ),
                    i < lines@.len(),
                    c <= chars@.len(),
                    row@.len() == c,
                    forall|k: int| 0 <= k < c ==> is_pixel_char(#[trigger] chars@[k]),
                    forall|k: int| 0 <= k < c ==> row@[k] == (chars@[k] == '#'),
                decreases chars@.len() - c,
            {
                let ch = chars[c];
                if ch == '#' {
                    row.push(true);
                } else if ch == '.' {
                    row.push(false);
                } else {
                    proof {
                        assert(views[i as int] == lines@[i as int]@);
                        assert(!line_pixels_ok(views[i as int]));
                        assert(views.skip(i as int)[0] == views[i as int]);
                        assert(first_bad_image_line(views.skip(i as int), width as int) == 0);
                    }
                    return Err(TrenchError::InvalidPixel);
                }
                c = c + 1;
            }
            proof {
                assert(views[i as int] == lines@[i as int]@);
            }
            if row.len() != width {
                proof {
                    assert(line_pixels_ok(views[i as int]));
                    assert(first_bad_image_line(views.skip(i as int), width as int) == 0);
                }
                return Err(TrenchError::WrongLength);
            }
            grid.push(row);
            i = i + 1;
        }
        proof {
            assert(views.skip(views.len() as int) =~= Seq::<Seq<char>>::empty());
        }
        Ok(Image { pixels: grid, width, height: lines.len(), default_pixel: false })
    }

    /// The pixel at a position, the plane's default outside the window.
    pub fn sample(&self, x: i64, y: i64) -> (r: bool)
        requires
            x <= usize::MAX,
            y <= usize::MAX,
        ensures
            r == sample_spec(self, x as int, y as int),
    {
        if x < 0 || y < 0 {
            self.default_pixel
        } else if (x as usize) < self.pixels.len() && (y as usize) < self.pixels[x as usize].len() {
            self.pixels[x as usize][y as usize]
        } else {
            self.default_pixel
        }
    }

    /// The 9-bit enhancement index of the 3-by-3 box around a position.
    #[verifier::rlimit(50)]
    pub fn sample_grid(&self, x: i64, y: i64) -> (r: usize)
        requires
            -0x7fff_0002 <= x <= 0x7fff_0002,
            -0x7fff_0002 <= y <= 0x7fff_0002,
        ensures
            r == grid_index_spec(self, x as int, y as int),
            r < 512,
    {
        let b8: usize = if self.sample(x - 1, y - 1) {
            1
        } else {
            0
        };
        let b7: usize = if self.sample(x - 1, y) {
            1
        } else {
            0
        };
        let b6: usize = if self.sample(x - 1, y + 1) {
            1
        } else {
            0
        };
        let b5: usize = if self.sample(x, y - 1) {
            1
        } else {
            0
        };
        let b4: usize = if self.sample(x, y) {
            1
        } else {
            0
        };
        let b3: usize = if self.sample(x, y + 1) {
            1
        } else {
            0
        };
        let b2: usize = if self.sample(x + 1, y - 1) {
            1
        } else {
            0
        };
        let b1: usize = if self.sample(x + 1, y) {
            1
        } else {
            0
        };
        let b0: usize = if self.sample(x + 1, y + 1) {
            1
        } else {
            0
        };
        256 * b8 + 128 * b7 + 64 * b6 + 32 * b5 + 16 * b4 + 8 * b3 + 4 * b2 + 2 * b1 + b0
    }

    /// How many window pixels are lit.
    pub fn lit_pixels(&self) -> (r: usize)
        requires
            self.pixels@.len() * 0x1_0000_0000 <= usize::MAX,
            forall|i: int| 0 <= i < self.pixels@.len() ==> (#[trigger] self.pixels@[i])@.len()
                < 0x1_0000_0000,
        ensures
            r == lit_count(self.pixels@),
    {
        let mut total: usize = 0;
        let mut i: usize = 0;
        while i < self.pixels.len()
            invariant
                i <= self.pixels@.len(),
                total == lit_count(self.pixels@.take(i as int)),
                total <= i * 0x1_0000_0000,
                self.pixels@.len() * 0x1_0000_0000 <= usize::MAX,
                forall|k: int| 0 <= k < self.pixels@.len() ==> (#[trigger] self.pixels@[k])@.len()
                    < 0x1_0000_0000,
            decreases self.pixels@.len() - i,
        {
            proof {
                assert(self.pixels@.take(i + 1).drop_last() =~= self.pixels@.take(i as int));
                assert(self.pixels@.take(i + 1).last() == self.pixels@[i as int]);
                lemma_row_lit_bounds(self.pixels@[i as int]@);
                assert(i * 0x1_0000_0000 + 0x1_0000_0000 == (i + 1) * 0x1_0000_0000)
                    by (nonlinear_arith);
                assert((i + 1) * 0x1_0000_0000 <= self.pixels@.len() * 0x1_0000_0000)
                    by (nonlinear_arith)
                    requires
                        i + 1 <= self.pixels@.len(),
                ;
            }
            let row = &self.pixels[i];
            let mut cnt: usize = 0;
            let mut j: usize = 0;
            while j < row.len()
                invariant
                    row@ == self.pixels@[i as int]@,
                    j <= row@.len(),
                    cnt == row_lit(row@.take(j as int)),
                    cnt <= j,
                decreases row@.len() - j,
            {
                proof {
                    assert(row@.take(j + 1).drop_last() =~= row@.take(j as int));
                    assert(row@.take(j + 1).last() == row@[j as int]);
                }
                if row[j] {
                    cnt = cnt + 1;
                }
                j = j + 1;
            }
            proof {
                assert(row@.take(row@.len() as int) =~= row@);
                lemma_row_lit_bounds(row@);
            }
            total = total + cnt;
            i = i + 1;
        }
        proof {
            assert(self.pixels@.take(self.pixels@.len() as int) =~= self.pixels@);
        }
        total
    }

    /// The window as text: `#` for lit, `.` for dark, one line per row.
    pub fn paint(&self) -> (r: String)
        ensures
            r@ == paint_spec(self.pixels@),
    {
        let mut out: Vec<char> = Vec::new();
        let mut i: usize = 0;
        while i < self.pixels.len()
            invariant
                i <= self.pixels@.len(),
                out@ == paint_spec(self.pixels@.take(i as int)),
            decreases self.pixels@.len() - i,
        {
            proof {
                assert(self.pixels@.take(i + 1).drop_last() =~= self.pixels@.take(i as int));
                assert(self.pixels@.take(i + 1).last() == self.pixels@[i as int]);
            }
            let row = &self.pixels[i];
            let ghost outstart = out@;
            let mut j: usize = 0;
            while j < row.len()
                invariant
                    row@ == self.pixels@[i as int]@,
                    j <= row@.len(),
                    out@ == outstart + row_paint(row@).take(j as int),
                decreases row@.len() - j,
            {
                proof {
                    assert(row_paint(row@).take(j + 1) =~= row_paint(row@).take(j as int).push(
                        row_paint(row@)[j as int],
                    ));
                }
                if row[j] {
                    out.push('#');
                } else {
                    out.push('.');
                }
                j = j + 1;
            }
            out.push('\n');
            proof {
                assert(row_paint(row@).take(row@.len() as int) =~= row_paint(row@));
                assert(out@ =~= paint_spec(self.pixels@.take(i + 1)));
            }
            i = i + 1;
        }
        proof {
            assert(self.pixels@.take(self.pixels@.len() as int) =~= self.pixels@);
        }
        crate::text::string_of_chars(&out)
    }
}

pub open spec fn row_lit(row: Seq<bool>) -> int
    decreases row.len(),
{
    if row.len() == 0 {
        0
    } else {
        row_lit(row.drop_last()) + if row.last() {
            1int
        } else {
            0int
        }
    }
}

pub open spec fn lit_count(g: Seq<Vec<bool>>) -> int
    decreases g.len(),
{
    if g.len() == 0 {
        0
    } else {
        lit_count(g.drop_last()) + row_lit(g.last()@)
    }
}

proof fn lemma_row_lit_bounds(row: Seq<bool>)
    ensures
        0 <= row_lit(row) <= row.len(),
    decreases row.len(),
{
    if row.len() > 0 {
        lemma_row_lit_bounds(row.drop_last());
    }
}

/// One row as text.
pub open spec fn row_paint(row: Seq<bool>) -> Seq<char> {
    Seq::new(
        row.len(),
        |i: int|
            if row[i] {
                '#'
            } else {
                '.'
            },
    )
}

/// The whole window as text, row by row, each ended with a newline.
pub open spec fn paint_spec(g: Seq<Vec<bool>>) -> Seq<char>
    decreases g.len(),
{
    if g.len() == 0 {
        Seq::empty()
    } else {
        paint_spec(g.drop_last()) + row_paint(g.last()@) + seq!['\n']
    }
}

impl ImageEnhancer {
    /// Applies the lookup to every position of the window grown by one in
    /// each direction; the plane's default flips according to the lookup's
    /// all-dark and all-lit entries.
    pub fn enhance(&self, image: Image) -> (r: Image)
        requires
            self.wf(),
            image.width <= 0x7fff_0000,
            image.height <= 0x7fff_0000,
        ensures
            r.width == image.width + 2,
            r.height == image.height + 2,
            r.default_pixel == (if image.default_pixel {
                self.0@[511]
            } else {
                self.0@[0]
            }),
            r.pixels@.len() == image.width + 2,
            forall|i: int|
                0 <= i < r.pixels@.len() ==> (#[trigger] r.pixels@[i])@.len() == image.height + 2,
            forall|i: int, j: int|
                0 <= i < image.width + 2 && 0 <= j < image.height + 2 ==> r.pixels@[i]@[j]
                    == self.0@[grid_index_spec(&image, i - 1, j - 1)],
    {
        let mut grid: Vec<Vec<bool>> = Vec::new();
        let mut xi: usize = 0;
        while xi < image.width + 2
            invariant
                self.wf(),
                image.width <= 0x7fff_0000,
                image.height <= 0x7fff_0000,
                xi <= image.width + 2,
                grid@.len() == xi,
                forall|i: int|
                    0 <= i < grid@.len() ==> (#[trigger] grid@[i])@.len() == image.height + 2,
                forall|i: int, j: int|
                    0 <= i < xi && 0 <= j < image.height + 2 ==> grid@[i]@[j] == self.0@[
                        grid_index_spec(&image, i - 1, j - 1)],
            decreases image.width + 2 - xi,
        {
            let mut row: Vec<bool> = Vec::new();
            let mut yj: usize = 0;
            while yj < image.height + 2
                invariant
                    self.wf(),
                    image.width <= 0x7fff_0000,
                    image.height <= 0x7fff_0000,
                    xi <= image.width + 1,
                    yj <= image.height + 2,
                    row@.len() == yj,
                    forall|j: int|
                        0 <= j < yj ==> row@[j] == self.0@[grid_index_spec(
                            &image,
                            xi - 1,
                            j - 1,
                        )],
                decreases image.height + 2 - yj,
            {
                let x = (xi as i64) - 1;
                let y = (yj as i64) - 1;
                let idx = image.sample_grid(x, y);
                row.push(self.0[idx]);
                yj = yj + 1;
            }
            grid.push(row);
            xi = xi + 1;
        }
        let default_pixel = if image.default_pixel {
            self.0[511]
        } else {
            self.0[0]
        };
        Image {
            pixels: grid,
            width: image.width + 2,
            height: image.height + 2,
            default_pixel,
        }
    }
}

} // verus!
