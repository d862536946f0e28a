//! Rasters of pixels, the pixel that stands for "no data", and the box
//! filter that halves a raster.

use vstd::prelude::*;
use crate::config::AttachmentFormat;

verus! {

/// One pixel. Elevation uses `r` alone; imagery uses all three channels.
#[derive(Clone, Copy, Debug, PartialEq, Eq, Structural)]
pub struct Pixel {
    pub r: u16,
    pub g: u16,
    pub b: u16,
}

/// The pixel that marks a place without data: zero for elevation, magenta
/// for imagery.
pub open spec fn nodata_pixel(format: AttachmentFormat) -> Pixel {
    Pixel { r: format.spec_nodata(0), g: format.spec_nodata(1), b: format.spec_nodata(2) }
}

/// Whether `p` can be stored in `format`: every channel that the format has
/// is in range and the others are zero.
pub open spec fn pixel_fits(format: AttachmentFormat, p: Pixel) -> bool {
    match format {
        AttachmentFormat::R16 => p.g == 0 && p.b == 0,
        AttachmentFormat::Rgb8 => p.r <= 255 && p.g <= 255 && p.b <= 255,
    }
}

/// Whether `p` is a pixel of `format` that carries data.
pub open spec fn is_data(format: AttachmentFormat, p: Pixel) -> bool {
    pixel_fits(format, p) && p != nodata_pixel(format)
}

/// The pixel nearest to `p` that carries data: `p` itself unless it
/// coincides with the pixel that marks missing data, in which case it is
/// moved by the least step (elevation 0 becomes 1, magenta loses one unit of
/// blue).
pub open spec fn spec_as_data(format: AttachmentFormat, p: Pixel) -> Pixel {
    if p == nodata_pixel(format) {
        match format {
            AttachmentFormat::R16 => Pixel { r: 1, g: 0, b: 0 },
            AttachmentFormat::Rgb8 => Pixel { r: 255, g: 0, b: 254 },
        }
    } else {
        p
    }
}

/// The mean of `sum` over `count` values, rounded to the nearest integer.
pub open spec fn rounded_mean(sum: int, count: int) -> int {
    (sum + count / 2) / count
}

/// The sum of channel `c` over those of the four pixels that carry data.
pub open spec fn data_sum(format: AttachmentFormat, q: Seq<Pixel>, c: int) -> int
    decreases q.len(),
{
    if q.len() == 0 {
        0
    } else {
        data_sum(format, q.drop_last(), c) + if q.last() != nodata_pixel(format) {
            channel(q.last(), c) as int
        } else {
            0
        }
    }
}

/// How many of the pixels carry data.
pub open spec fn data_count(format: AttachmentFormat, q: Seq<Pixel>) -> int
    decreases q.len(),
{
    if q.len() == 0 {
        0
    } else {
        data_count(format, q.drop_last()) + if q.last() != nodata_pixel(format) {
            1int
        } else {
            0
        }
    }
}

/// Channel `c` of a pixel (0, 1, 2 for `r`, `g`, `b`).
pub open spec fn channel(p: Pixel, c: int) -> u16 {
    if c == 0 {
        p.r
    } else if c == 1 {
        p.g
    } else {
        p.b
    }
}

/// What a block of pixels becomes when a raster is halved: the rounded mean,
/// channel by channel, of those that carry data, itself made to carry data;
/// or the missing-data pixel where none does.
pub open spec fn spec_merge(format: AttachmentFormat, q: Seq<Pixel>) -> Pixel {
    let n = data_count(format, q);
    if n == 0 {
        nodata_pixel(format)
    } else {
        spec_as_data(
            format,
            Pixel {
                r: rounded_mean(data_sum(format, q, 0), n) as u16,
                g: rounded_mean(data_sum(format, q, 1), n) as u16,
                b: rounded_mean(data_sum(format, q, 2), n) as u16,
            },
        )
    }
}

/// The pixel that marks a place without data.
pub fn nodata(format: AttachmentFormat) -> (p: Pixel)
    ensures
        p == nodata_pixel(format),
        pixel_fits(format, p),
{
    Pixel { r: format.nodata(0), g: format.nodata(1), b: format.nodata(2) }
}

/// The pixel nearest to `p` that carries data.
pub fn as_data(format: AttachmentFormat, p: Pixel) -> (d: Pixel)
    ensures
        d == spec_as_data(format, p),
        d != nodata_pixel(format),
        pixel_fits(format, p) ==> is_data(format, d),
{
    let n = nodata(format);
    if p.r == n.r && p.g == n.g && p.b == n.b {
        match format {
            AttachmentFormat::R16 => Pixel { r: 1, g: 0, b: 0 },
            AttachmentFormat::Rgb8 => Pixel { r: 255, g: 0, b: 254 },
        }
    } else {
        p
    }
}

/// The sums and the count of a block are bounded by its size.
pub proof fn lemma_data_bounds(format: AttachmentFormat, q: Seq<Pixel>, c: int)
    ensures
        0 <= data_count(format, q) <= q.len(),
        0 <= data_sum(format, q, c) <= 65535 * data_count(format, q),
    decreases q.len(),
{
    if q.len() > 0 {
        lemma_data_bounds(format, q.drop_last(), c);
    }
}

/// Where every pixel of a block that carries data has the value `p`, and
/// one does, so has the merged pixel.
pub proof fn lemma_merge_constant(format: AttachmentFormat, q: Seq<Pixel>, p: Pixel)
    requires
        q.len() <= 4,
        p != nodata_pixel(format),
        forall|i: int| 0 <= i < q.len() ==> q[i] == p || q[i] == nodata_pixel(format),
        exists|i: int| 0 <= i < q.len() && q[i] == p,
    ensures
        spec_merge(format, q) == p,
{
    let n = data_count(format, q);
    lemma_constant_sums(format, q, p, 0);
    lemma_constant_sums(format, q, p, 1);
    lemma_constant_sums(format, q, p, 2);
    lemma_data_bounds(format, q, 0);
    let w = choose|i: int| 0 <= i < q.len() && q[i] == p;
    lemma_count_positive(format, q, w);
    assert(1 <= n <= 4);
    lemma_mean_of_constant(p.r as int, n);
    lemma_mean_of_constant(p.g as int, n);
    lemma_mean_of_constant(p.b as int, n);
}

/// A block without a pixel that carries data merges to the missing-data
/// pixel.
pub proof fn lemma_merge_nodata(format: AttachmentFormat, q: Seq<Pixel>)
    requires
        forall|i: int| 0 <= i < q.len() ==> q[i] == nodata_pixel(format),
    ensures
        data_count(format, q) == 0,
        spec_merge(format, q) == nodata_pixel(format),
    decreases q.len(),
{
    if q.len() > 0 {
        let r = q.drop_last();
        assert forall|i: int| 0 <= i < r.len() implies r[i] == nodata_pixel(format) by {
            assert(r[i] == q[i]);
        }
        lemma_merge_nodata(format, r);
    }
}

/// The sum of a channel over a block whose data pixels all equal `p`.
proof fn lemma_constant_sums(format: AttachmentFormat, q: Seq<Pixel>, p: Pixel, c: int)
    requires
        p != nodata_pixel(format),
        forall|i: int| 0 <= i < q.len() ==> q[i] == p || q[i] == nodata_pixel(format),
    ensures
        data_sum(format, q, c) == data_count(format, q) * channel(p, c),
    decreases q.len(),
{
    if q.len() > 0 {
        let r = q.drop_last();
        assert forall|i: int| 0 <= i < r.len() implies r[i] == p || r[i] == nodata_pixel(
            format,
        ) by {
            assert(r[i] == q[i]);
        }
        lemma_constant_sums(format, r, p, c);
        let n = data_count(format, r);
        let v = channel(p, c) as int;
        assert((n + 1) * v == n * v + v) by (nonlinear_arith);
    }
}

/// A block with a data pixel has a positive count.
proof fn lemma_count_positive(format: AttachmentFormat, q: Seq<Pixel>, w: int)
    requires
        0 <= w < q.len(),
        q[w] != nodata_pixel(format),
    ensures
        data_count(format, q) >= 1,
    decreases q.len(),
{
    lemma_data_bounds(format, q.drop_last(), 0);
    if w < q.len() - 1 {
        assert(q.drop_last()[w] == q[w]);
        lemma_count_positive(format, q.drop_last(), w);
    }
}

/// The rounded mean of `n` copies of `v` is `v`.
proof fn lemma_mean_of_constant(v: int, n: int)
    requires
        1 <= n <= 4,
        v >= 0,
    ensures
        rounded_mean(n * v, n) == v,
{
    if n == 1 {
        assert(rounded_mean(1 * v, 1) == v);
    } else if n == 2 {
        assert(rounded_mean(2 * v, 2) == v);
    } else if n == 3 {
        assert(rounded_mean(3 * v, 3) == v);
    } else {
        assert(rounded_mean(4 * v, 4) == v);
    }
}

/// The mean of at most four samples is a sample.
proof fn lemma_mean_bound(sum: int, n: int)
    requires
        1 <= n <= 4,
        0 <= sum <= 65535 * n,
    ensures
        0 <= rounded_mean(sum, n) <= 65535,
{
    if n == 1 {
        assert(0 <= rounded_mean(sum, 1) <= 65535);
    } else if n == 2 {
        assert(0 <= rounded_mean(sum, 2) <= 65535);
    } else if n == 3 {
        assert(0 <= rounded_mean(sum, 3) <= 65535);
    } else {
        assert(0 <= rounded_mean(sum, 4) <= 65535);
    }
}

/// The sum of a channel over a block is at most the count times a bound on
/// the channel of its pixels.
proof fn lemma_sum_bound(format: AttachmentFormat, q: Seq<Pixel>, c: int, bound: int)
    requires
        bound >= 0,
        forall|i: int| 0 <= i < q.len() ==> channel(#[trigger] q[i], c) <= bound,
    ensures
        0 <= data_sum(format, q, c) <= bound * data_count(format, q),
    decreases q.len(),
{
    if q.len() > 0 {
        let r = q.drop_last();
        assert forall|i: int| 0 <= i < r.len() implies channel(#[trigger] r[i], c) <= bound by {
            assert(r[i] == q[i]);
        }
        lemma_sum_bound(format, r, c, bound);
        lemma_data_bounds(format, r, c);
        let n = data_count(format, r);
        assert(bound * (n + 1) == bound * n + bound) by (nonlinear_arith);
        assert(channel(q[q.len() - 1], c) <= bound);
    }
}

/// The rounded mean of at most four values is at most a bound on them.
proof fn lemma_mean_within(sum: int, n: int, bound: int)
    requires
        1 <= n <= 4,
        0 <= sum <= bound * n,
    ensures
        0 <= rounded_mean(sum, n) <= bound,
{
    assert(bound * n == n * bound) by (nonlinear_arith);
    if n == 1 {
        assert(sum <= 1 * bound);
        assert(0 <= rounded_mean(sum, 1) <= bound);
    } else if n == 2 {
        assert(sum <= 2 * bound);
        assert(0 <= rounded_mean(sum, 2) <= bound);
    } else if n == 3 {
        assert(sum <= 3 * bound);
        assert(0 <= rounded_mean(sum, 3) <= bound);
    } else {
        assert(sum <= 4 * bound);
        assert(sum + 2 < 4 * (bound + 1));
        assert((sum + 2) / 4 <= bound);
        assert(0 <= rounded_mean(sum, 4) <= bound);
    }
}

/// A block of pixels that fit the format merges to a pixel that fits it.
pub proof fn lemma_merge_fits(format: AttachmentFormat, q: Seq<Pixel>)
    requires
        q.len() <= 4,
        forall|i: int| 0 <= i < q.len() ==> pixel_fits(format, #[trigger] q[i]),
    ensures
        pixel_fits(format, spec_merge(format, q)),
{
    let n = data_count(format, q);
    lemma_data_bounds(format, q, 0);
    if n > 0 {
        match format {
            AttachmentFormat::R16 => {
                lemma_sum_bound(format, q, 1, 0);
                lemma_sum_bound(format, q, 2, 0);
                assert(0 * n == 0);
                lemma_mean_within(data_sum(format, q, 1), n, 0);
                lemma_mean_within(data_sum(format, q, 2), n, 0);
            },
            AttachmentFormat::Rgb8 => {
                lemma_sum_bound(format, q, 0, 255);
                lemma_sum_bound(format, q, 1, 255);
                lemma_sum_bound(format, q, 2, 255);
                lemma_mean_within(data_sum(format, q, 0), n, 255);
                lemma_mean_within(data_sum(format, q, 1), n, 255);
                lemma_mean_within(data_sum(format, q, 2), n, 255);
            },
        }
    }
}

/// The pixel that a block of at most four pixels becomes when a raster is
/// halved.
pub fn merge(format: AttachmentFormat, block: &Vec<Pixel>) -> (p: Pixel)
    requires
        1 <= block.len() <= 4,
    ensures
        p == spec_merge(format, block@),
{
    let none = nodata(format);
    let mut n: u32 = 0;
    let mut r: u32 = 0;
    let mut g: u32 = 0;
    let mut b: u32 = 0;
    let mut i: usize = 0;
    while i < block.len()
        invariant
            i <= block.len() <= 4,
            none == nodata_pixel(format),
            n == data_count(format, block@.take(i as int)),
            r == data_sum(format, block@.take(i as int), 0),
            g == data_sum(format, block@.take(i as int), 1),
            b == data_sum(format, block@.take(i as int), 2),
            n <= i,
            r <= 65535 * n,
            g <= 65535 * n,
            b <= 65535 * n,
        decreases block.len() - i,
    {
        let p = block[i];
        proof {
            assert(block@.take(i + 1).drop_last() =~= block@.take(i as int));
            assert(block@.take(i + 1).last() == p);
        }
        if !(p.r == none.r && p.g == none.g && p.b == none.b) {
            n = n + 1;
            r = r + p.r as u32;
            g = g + p.g as u32;
            b = b + p.b as u32;
        }
        i += 1;
    }
    proof {
        assert(block@.take(block.len() as int) =~= block@);
    }
    if n == 0 {
        none
    } else {
        proof {
            lemma_mean_bound(r as int, n as int);
            lemma_mean_bound(g as int, n as int);
            lemma_mean_bound(b as int, n as int);
        }
        as_data(
            format,
            Pixel {
                r: ((r + n / 2) / n) as u16,
                g: ((g + n / 2) / n) as u16,
                b: ((b + n / 2) / n) as u16,
            },
        )
    }
}

/// A raster: `height` rows of `width` pixels each.
pub struct Raster {
    width: usize,
    height: usize,
    rows: Vec<Vec<Pixel>>,
}

impl View for Raster {
    type V = Seq<Seq<Pixel>>;

    closed spec fn view(&self) -> Seq<Seq<Pixel>> {
        Seq::new(self.rows@.len(), |y: int| self.rows@[y]@)
    }
}

/// Whether `grid` has `height` rows of `width` pixels.
pub open spec fn is_grid(grid: Seq<Seq<Pixel>>, width: nat, height: nat) -> bool {
    &&& grid.len() == height
    &&& forall|y: int| 0 <= y < height ==> (#[trigger] grid[y]).len() == width
}

/// Every pixel of `grid` can be stored in `format`.
pub open spec fn grid_fits(format: AttachmentFormat, grid: Seq<Seq<Pixel>>) -> bool {
    forall|x: int, y: int|
        0 <= y < grid.len() && 0 <= x < grid[y].len() ==> pixel_fits(format, #[trigger] grid[y][x])
}

/// The grid of `height` rows of `width` pixels, all of them `p`.
pub open spec fn constant_grid(width: nat, height: nat, p: Pixel) -> Seq<Seq<Pixel>> {
    Seq::new(height, |y: int| Seq::new(width, |x: int| p))
}

/// The size of a halved side: half of it, rounded up.
pub open spec fn half(n: nat) -> nat {
    (n + 1) / 2
}

/// The least of `a` and `b`.
pub open spec fn least(a: int, b: int) -> int {
    if a <= b {
        a
    } else {
        b
    }
}

/// The block of `grid` that becomes pixel `(x, y)` of the halved grid. At an
/// odd edge the last row or column is taken twice.
pub open spec fn block_of(grid: Seq<Seq<Pixel>>, width: nat, height: nat, x: int, y: int) -> Seq<
    Pixel,
> {
    let x1 = least(2 * x + 1, width - 1);
    let y1 = least(2 * y + 1, height - 1);
    seq![grid[2 * y][2 * x], grid[2 * y][x1], grid[y1][2 * x], grid[y1][x1]]
}

/// The grid halved by the box filter.
pub open spec fn halved(format: AttachmentFormat, grid: Seq<Seq<Pixel>>, width: nat, height: nat)
    -> Seq<Seq<Pixel>> {
    Seq::new(
        half(height),
        |y: int|
            Seq::new(half(width), |x: int| spec_merge(format, block_of(grid, width, height, x, y))),
    )
}

impl Raster {
    /// The number of columns.
    pub closed spec fn spec_width(&self) -> nat {
        self.width as nat
    }

    /// The number of rows.
    pub closed spec fn spec_height(&self) -> nat {
        self.height as nat
    }

    /// The invariant of a raster: its rows have the sizes it declares.
    pub open spec fn wf(&self) -> bool {
        is_grid(self@, self.spec_width(), self.spec_height())
    }

    /// The pixel in column `x` of row `y`.
    pub open spec fn at(&self, x: int, y: int) -> Pixel {
        self@[y][x]
    }

    /// A raster filled with the pixel `p`.
    pub fn filled(width: usize, height: usize, p: Pixel) -> (r: Raster)
        ensures
            r.wf(),
            r.spec_width() == width,
            r.spec_height() == height,
            r@ == constant_grid(width as nat, height as nat, p),
    {
        let mut rows: Vec<Vec<Pixel>> = Vec::new();
        let mut y: usize = 0;
        while y < height
            invariant
                y <= height,
                rows.len() == y,
                forall|j: int| 0 <= j < y ==> (#[trigger] rows[j])@ == Seq::new(
                    width as nat,
                    |x: int| p,
                ),
            decreases height - y,
        {
            let mut row: Vec<Pixel> = Vec::new();
            let mut x: usize = 0;
            while x < width
                invariant
                    x <= width,
                    row.len() == x,
                    forall|i: int| 0 <= i < x ==> row[i] == p,
                decreases width - x,
            {
                row.push(p);
                x += 1;
            }
            assert(row@ =~= Seq::new(width as nat, |x: int| p));
            rows.push(row);
            y += 1;
        }
        let r = Raster { width, height, rows };
        assert(r@ =~= constant_grid(width as nat, height as nat, p));
        r
    }

    /// A raster of the given rows, if they all have the length `width`.
    pub fn from_rows(width: usize, rows: Vec<Vec<Pixel>>) -> (r: Option<Raster>)
        ensures
            r.is_some() == (forall|y: int| 0 <= y < rows.len() ==> (#[trigger] rows[y]).len()
                == width),
            r matches Some(raster) ==> {
                &&& raster.wf()
                &&& raster.spec_width() == width
                &&& raster.spec_height() == rows.len()
                &&& raster@ == Seq::new(rows@.len(), |y: int| rows@[y]@)
            },
    {
        let mut y: usize = 0;
        while y < rows.len()
            invariant
                y <= rows.len(),
                forall|j: int| 0 <= j < y ==> (#[trigger] rows[j]).len() == width,
            decreases rows.len() - y,
        {
            if rows[y].len() != width {
                return None;
            }
            y += 1;
        }
        let height = rows.len();
        Some(Raster { width, height, rows })
    }

    /// The number of columns.
    pub fn width(&self) -> (w: usize)
        ensures
            w == self.spec_width(),
    {
        self.width
    }

    /// The number of rows.
    pub fn height(&self) -> (h: usize)
        ensures
            h == self.spec_height(),
    {
        self.height
    }

    /// The pixel in column `x` of row `y`, if the raster has one there.
    pub fn get(&self, x: usize, y: usize) -> (p: Option<Pixel>)
        requires
            self.wf(),
        ensures
            p == if x < self.spec_width() && y < self.spec_height() {
                Some(self.at(x as int, y as int))
            } else {
                None
            },
    {
        if x < self.width && y < self.height {
            assert(self@[y as int].len() == self.width);
            Some(self.rows[y][x])
        } else {
            None
        }
    }

    /// The pixel in column `x` of row `y`.
    pub fn pixel(&self, x: usize, y: usize) -> (p: Pixel)
        requires
            self.wf(),
            x < self.spec_width(),
            y < self.spec_height(),
        ensures
            p == self.at(x as int, y as int),
    {
        assert(self@[y as int].len() == self.width);
        self.rows[y][x]
    }

    /// The raster halved by the box filter: each pixel is merged from a
    /// block of two by two pixels, and at an odd edge from the last row or
    /// column taken twice.
    pub fn downsample(&self, format: AttachmentFormat) -> (r: Raster)
        requires
            self.wf(),
            self.spec_width() > 0,
            self.spec_height() > 0,
        ensures
            r.wf(),
            r.spec_width() == half(self.spec_width()),
            r.spec_height() == half(self.spec_height()),
            r@ == halved(format, self@, self.spec_width(), self.spec_height()),
            grid_fits(format, self@) ==> grid_fits(format, r@),
    {
        proof {
            if grid_fits(format, self@) {
                lemma_halved_fits(format, self@, self.spec_width(), self.spec_height());
            }
        }
        let w = self.width;
        let h = self.height;
        let ow: usize = w / 2 + w % 2;
        let oh: usize = h / 2 + h % 2;
        let ghost target = halved(format, self@, w as nat, h as nat);
        let mut rows: Vec<Vec<Pixel>> = Vec::new();
        let mut y: usize = 0;
        while y < oh
            invariant
                self.wf(),
                w == self.spec_width(),
                h == self.spec_height(),
                w > 0,
                h > 0,
                ow == half(w as nat),
                oh == half(h as nat),
                y <= oh,
                rows.len() == y,
                target == halved(format, self@, w as nat, h as nat),
                forall|j: int| 0 <= j < y ==> (#[trigger] rows[j])@ == target[j],
            decreases oh - y,
        {
            let y0: usize = 2 * y;
            let y1: usize = if 2 * y + 1 < h {
                2 * y + 1
            } else {
                h - 1
            };
            let mut row: Vec<Pixel> = Vec::new();
            let mut x: usize = 0;
            while x < ow
                invariant
                    self.wf(),
                    w == self.spec_width(),
                    h == self.spec_height(),
                    w > 0,
                    h > 0,
                    ow == half(w as nat),
                    oh == half(h as nat),
                    y < oh,
                    y0 == 2 * y,
                    y1 == least(2 * y + 1, h - 1),
                    x <= ow,
                    row.len() == x,
                    target == halved(format, self@, w as nat, h as nat),
                    forall|i: int| 0 <= i < x ==> row[i] == target[y as int][i],
                decreases ow - x,
            {
                let x0: usize = 2 * x;
                let x1: usize = if 2 * x + 1 < w {
                    2 * x + 1
                } else {
                    w - 1
                };
                let mut block: Vec<Pixel> = Vec::new();
                block.push(self.pixel(x0, y0));
                block.push(self.pixel(x1, y0));
                block.push(self.pixel(x0, y1));
                block.push(self.pixel(x1, y1));
                proof {
                    assert(block@ =~= block_of(self@, w as nat, h as nat, x as int, y as int));
                }
                let p = merge(format, &block);
                row.push(p);
                x += 1;
            }
            assert(row@ =~= target[y as int]);
            rows.push(row);
            y += 1;
        }
        let r = Raster { width: ow, height: oh, rows };
        assert(r@ =~= target);
        r
    }
}

/// Halving a grid in which every pixel carries the same data gives a grid of
/// that same pixel.
pub proof fn lemma_halved_constant(format: AttachmentFormat, width: nat, height: nat, p: Pixel)
    requires
        width > 0,
        height > 0,
        p != nodata_pixel(format),
    ensures
        halved(format, constant_grid(width, height, p), width, height) == constant_grid(
            half(width),
            half(height),
            p,
        ),
{
    let grid = constant_grid(width, height, p);
    let out = halved(format, grid, width, height);
    let want = constant_grid(half(width), half(height), p);
    assert forall|y: int| 0 <= y < half(height) implies out[y] =~= want[y] by {
        assert forall|x: int| 0 <= x < half(width) implies out[y][x] == p by {
            let q = block_of(grid, width, height, x, y);
            assert(q[0] == p);
            assert forall|i: int| 0 <= i < q.len() implies q[i] == p || q[i] == nodata_pixel(
                format,
            ) by {
                if i == 0 {
                } else if i == 1 {
                } else if i == 2 {
                } else {
                }
            }
            lemma_merge_constant(format, q, p);
        }
    }
    assert(out =~= want);
}

/// Halving a grid whose pixels fit the format gives one whose pixels fit it.
pub proof fn lemma_halved_fits(format: AttachmentFormat, grid: Seq<Seq<Pixel>>, width: nat, height: nat)
    requires
        width > 0,
        height > 0,
        is_grid(grid, width, height),
        grid_fits(format, grid),
    ensures
        is_grid(halved(format, grid, width, height), half(width), half(height)),
        grid_fits(format, halved(format, grid, width, height)),
{
    let out = halved(format, grid, width, height);
    assert forall|x: int, y: int| 0 <= y < out.len() && 0 <= x < out[y].len() implies pixel_fits(
        format,
        #[trigger] out[y][x],
    ) by {
        let q = block_of(grid, width, height, x, y);
        let x1 = least(2 * x + 1, width - 1);
        let y1 = least(2 * y + 1, height - 1);
        assert(pixel_fits(format, grid[2 * y][2 * x]));
        assert(pixel_fits(format, grid[2 * y][x1]));
        assert(pixel_fits(format, grid[y1][2 * x]));
        assert(pixel_fits(format, grid[y1][x1]));
        lemma_merge_fits(format, q);
    }
}

} // verus!
