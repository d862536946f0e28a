//! The byte layout of rasters: pixels row by row, each pixel in the fixed
//! number of bytes of its format, 16-bit samples low byte first.

use vstd::prelude::*;
use crate::config::AttachmentFormat;
use crate::raster::{grid_fits, is_grid, pixel_fits, Pixel, Raster};

verus! {

/// The bytes of one pixel.
pub open spec fn spec_encode_pixel(format: AttachmentFormat, p: Pixel) -> Seq<u8> {
    match format {
        AttachmentFormat::R16 => seq![(p.r % 256) as u8, (p.r / 256) as u8],
        AttachmentFormat::Rgb8 => seq![p.r as u8, p.g as u8, p.b as u8],
    }
}

/// The pixel that the first bytes of `bytes` stand for.
pub open spec fn spec_decode_pixel(format: AttachmentFormat, bytes: Seq<u8>) -> Pixel {
    match format {
        AttachmentFormat::R16 => Pixel { r: (bytes[0] + 256 * bytes[1]) as u16, g: 0, b: 0 },
        AttachmentFormat::Rgb8 => Pixel { r: bytes[0] as u16, g: bytes[1] as u16, b: bytes[2] as u16 },
    }
}

/// Where the bytes of pixel `(x, y)` of a raster of width `width` begin,
/// counted from the raster's first byte.
pub open spec fn pixel_offset(format: AttachmentFormat, width: int, x: int, y: int) -> int {
    (y * width + x) * format.spec_pixel_bytes()
}

/// The bytes in `bytes` where pixel `(x, y)` of the raster at `base` stands.
pub open spec fn pixel_bytes_at(
    format: AttachmentFormat,
    bytes: Seq<u8>,
    base: int,
    width: int,
    x: int,
    y: int,
) -> Seq<u8> {
    bytes.subrange(
        base + pixel_offset(format, width, x, y),
        base + pixel_offset(format, width, x, y) + format.spec_pixel_bytes(),
    )
}

/// The number of bytes of a raster.
pub open spec fn raster_bytes(format: AttachmentFormat, width: int, height: int) -> int {
    width * height * format.spec_pixel_bytes()
}

/// `bytes` holds `grid` at `base`: each pixel's bytes stand at the pixel's
/// offset.
pub open spec fn holds_grid(
    format: AttachmentFormat,
    bytes: Seq<u8>,
    base: int,
    grid: Seq<Seq<Pixel>>,
    width: int,
    height: int,
) -> bool {
    &&& 0 <= base
    &&& base + raster_bytes(format, width, height) <= bytes.len()
    &&& forall|x: int, y: int|
        0 <= x < width && 0 <= y < height ==> #[trigger] pixel_bytes_at(
            format,
            bytes,
            base,
            width,
            x,
            y,
        ) == spec_encode_pixel(format, grid[y][x])
}

/// The raster of the given size that `bytes` holds at `base`.
pub open spec fn decoded(
    format: AttachmentFormat,
    bytes: Seq<u8>,
    base: int,
    width: int,
    height: int,
) -> Seq<Seq<Pixel>> {
    Seq::new(
        height as nat,
        |y: int|
            Seq::new(
                width as nat,
                |x: int| spec_decode_pixel(format, pixel_bytes_at(format, bytes, base, width, x, y)),
            ),
    )
}

/// A pixel that fits its format is what its bytes stand for.
pub proof fn lemma_pixel_round_trip(format: AttachmentFormat, p: Pixel)
    requires
        pixel_fits(format, p),
    ensures
        spec_decode_pixel(format, spec_encode_pixel(format, p)) == p,
        spec_encode_pixel(format, p).len() == format.spec_pixel_bytes(),
{
}

/// The bytes of pixel `(x, y)` lie inside the bytes of the raster, and
/// before those of every pixel that follows it in row-major order.
pub proof fn lemma_pixel_offset(
    format: AttachmentFormat,
    width: int,
    height: int,
    x: int,
    y: int,
)
    requires
        0 <= x < width,
        0 <= y < height,
    ensures
        0 <= pixel_offset(format, width, x, y),
        pixel_offset(format, width, x, y) + format.spec_pixel_bytes() <= raster_bytes(
            format,
            width,
            height,
        ),
        pixel_offset(format, width, x, y) + format.spec_pixel_bytes() == if x + 1 < width {
            pixel_offset(format, width, x + 1, y)
        } else {
            pixel_offset(format, width, 0, y + 1)
        },
        pixel_offset(format, width, 0, y) + width * format.spec_pixel_bytes() == pixel_offset(
            format,
            width,
            0,
            y + 1,
        ),
        pixel_offset(format, width, 0, height) == raster_bytes(format, width, height),
{
    let pb = format.spec_pixel_bytes() as int;
    assert(1 <= pb <= 3);
    assert(0 <= y * width + x && y * width + x + 1 <= width * height && (y + 1) * width == y
        * width + width && height * width == width * height) by (nonlinear_arith)
        requires
            0 <= x < width,
            0 <= y < height,
    ;
    assert(0 <= (y * width + x) * pb && (y * width + x) * pb + pb == (y * width + x + 1) * pb
        && (y * width + x + 1) * pb <= (width * height) * pb && (y * width + 0) * pb + width * pb
        == ((y + 1) * width + 0) * pb) by (nonlinear_arith)
        requires
            0 <= y * width + x,
            y * width + x + 1 <= width * height,
            (y + 1) * width == y * width + width,
            pb >= 1,
    ;
}

/// Where the rows of a raster begin: each after the one before, the first at
/// the raster's first byte, and the one past the last at its end.
pub proof fn lemma_row_offsets(format: AttachmentFormat, width: int, height: int, y: int)
    requires
        0 <= width,
        0 <= y < height,
    ensures
        pixel_offset(format, width, 0, 0) == 0,
        pixel_offset(format, width, 0, y) + width * format.spec_pixel_bytes() == pixel_offset(
            format,
            width,
            0,
            y + 1,
        ),
        pixel_offset(format, width, 0, y + 1) <= raster_bytes(format, width, height),
        pixel_offset(format, width, 0, height) == raster_bytes(format, width, height),
{
    let pb = format.spec_pixel_bytes() as int;
    assert((0 * width + 0) * pb == 0 && (y * width + 0) * pb + width * pb == ((y + 1) * width + 0)
        * pb && ((y + 1) * width + 0) * pb <= width * height * pb && (height * width + 0) * pb
        == width * height * pb) by (nonlinear_arith)
        requires
            0 <= width,
            0 <= y < height,
            pb >= 1,
    ;
}

/// A raster whose pixels fit the format is what its bytes decode to.
pub proof fn lemma_round_trip(
    format: AttachmentFormat,
    bytes: Seq<u8>,
    base: int,
    grid: Seq<Seq<Pixel>>,
    width: int,
    height: int,
)
    requires
        0 <= width,
        0 <= height,
        is_grid(grid, width as nat, height as nat),
        grid_fits(format, grid),
        holds_grid(format, bytes, base, grid, width, height),
    ensures
        decoded(format, bytes, base, width, height) == grid,
{
    let d = decoded(format, bytes, base, width, height);
    assert forall|y: int| 0 <= y < height implies d[y] =~= grid[y] by {
        assert forall|x: int| 0 <= x < width implies d[y][x] == grid[y][x] by {
            assert(pixel_bytes_at(format, bytes, base, width, x, y) == spec_encode_pixel(
                format,
                grid[y][x],
            ));
            assert(pixel_fits(format, grid[y][x]));
            lemma_pixel_round_trip(format, grid[y][x]);
        }
    }
    assert(d =~= grid);
}

/// Appends the bytes of one pixel.
pub fn encode_pixel(format: AttachmentFormat, p: Pixel, out: &mut Vec<u8>)
    requires
        pixel_fits(format, p),
    ensures
        final(out)@ == old(out)@ + spec_encode_pixel(format, p),
{
    match format {
        AttachmentFormat::R16 => {
            out.push((p.r % 256) as u8);
            out.push((p.r / 256) as u8);
        },
        AttachmentFormat::Rgb8 => {
            out.push(p.r as u8);
            out.push(p.g as u8);
            out.push(p.b as u8);
        },
    }
    assert(out@ =~= old(out)@ + spec_encode_pixel(format, p));
}

/// The pixel whose bytes begin at `pos`.
pub fn decode_pixel(format: AttachmentFormat, bytes: &Vec<u8>, pos: usize) -> (p: Pixel)
    requires
        pos + format.spec_pixel_bytes() <= bytes.len(),
    ensures
        p == spec_decode_pixel(
            format,
            bytes@.subrange(pos as int, pos + format.spec_pixel_bytes()),
        ),
        pixel_fits(format, p),
{
    match format {
        AttachmentFormat::R16 => {
            let lo: u16 = bytes[pos] as u16;
            let hi: u16 = bytes[pos + 1] as u16;
            Pixel { r: lo + 256 * hi, g: 0, b: 0 }
        },
        AttachmentFormat::Rgb8 => Pixel {
            r: bytes[pos] as u16,
            g: bytes[pos + 1] as u16,
            b: bytes[pos + 2] as u16,
        },
    }
}

/// Appends the bytes of a raster, row by row.
pub fn encode_raster(format: AttachmentFormat, raster: &Raster, out: &mut Vec<u8>)
    requires
        raster.wf(),
        grid_fits(format, raster@),
    ensures
        final(out)@.len() == old(out)@.len() + raster_bytes(
            format,
            raster.spec_width() as int,
            raster.spec_height() as int,
        ),
        final(out)@.subrange(0, old(out)@.len() as int) == old(out)@,
        holds_grid(
            format,
            final(out)@,
            old(out)@.len() as int,
            raster@,
            raster.spec_width() as int,
            raster.spec_height() as int,
        ),
{
    let w = raster.width();
    let h = raster.height();
    let ghost base = out@.len() as int;
    let ghost wi = w as int;
    let ghost hi = h as int;
    let ghost pb = format.spec_pixel_bytes() as int;
    let mut y: usize = 0;
    proof {
        assert(pixel_offset(format, wi, 0, 0) == 0) by (nonlinear_arith)
            requires
                pixel_offset(format, wi, 0, 0) == (0 * wi + 0) * pb,
        ;
        assert(out@.subrange(0, base) =~= old(out)@);
    }
    while y < h
        invariant
            raster.wf(),
            grid_fits(format, raster@),
            w == raster.spec_width(),
            h == raster.spec_height(),
            wi == w,
            hi == h,
            pb == format.spec_pixel_bytes(),
            base == old(out)@.len(),
            y <= h,
            out@.len() == base + pixel_offset(format, wi, 0, y as int),
            out@.subrange(0, base) == old(out)@,
            forall|x: int, j: int|
                0 <= x < wi && 0 <= j < y ==> #[trigger] pixel_bytes_at(
                    format,
                    out@,
                    base,
                    wi,
                    x,
                    j,
                ) == spec_encode_pixel(format, raster@[j][x]),
        decreases h - y,
    {
        let mut x: usize = 0;
        while x < w
            invariant
                raster.wf(),
                grid_fits(format, raster@),
                w == raster.spec_width(),
                h == raster.spec_height(),
                wi == w,
                hi == h,
                pb == format.spec_pixel_bytes(),
                base == old(out)@.len(),
                y < h,
                x <= w,
                out@.len() == base + pixel_offset(format, wi, 0, y as int) + x * pb,
                x < w ==> out@.len() == base + pixel_offset(format, wi, x as int, y as int),
                out@.subrange(0, base) == old(out)@,
                forall|i: int, j: int|
                    0 <= i < wi && 0 <= j < y ==> #[trigger] pixel_bytes_at(
                        format,
                        out@,
                        base,
                        wi,
                        i,
                        j,
                    ) == spec_encode_pixel(format, raster@[j][i]),
                forall|i: int|
                    0 <= i < x ==> #[trigger] pixel_bytes_at(format, out@, base, wi, i, y as int)
                        == spec_encode_pixel(format, raster@[y as int][i]),
            decreases w - x,
        {
            let p = raster.pixel(x, y);
            let ghost before = out@;
            proof {
                assert(pixel_fits(format, raster@[y as int][x as int]));
                lemma_pixel_offset(format, wi, hi, x as int, y as int);
                lemma_pixel_round_trip(format, p);
            }
            encode_pixel(format, p, out);
            proof {
                assert(out@.subrange(0, base) =~= old(out)@);
                assert(pixel_bytes_at(format, out@, base, wi, x as int, y as int)
                    =~= spec_encode_pixel(format, p));
                assert forall|i: int, j: int| 0 <= i < wi && 0 <= j < y implies #[trigger] pixel_bytes_at(
                    format,
                    out@,
                    base,
                    wi,
                    i,
                    j,
                ) == spec_encode_pixel(format, raster@[j][i]) by {
                    lemma_pixel_offset(format, wi, hi, i, j);
                    lemma_row_before(format, wi, i, j, y as int);
                    assert(pixel_bytes_at(format, out@, base, wi, i, j) =~= pixel_bytes_at(
                        format,
                        before,
                        base,
                        wi,
                        i,
                        j,
                    ));
                }
                assert forall|i: int| 0 <= i < x + 1 implies #[trigger] pixel_bytes_at(
                    format,
                    out@,
                    base,
                    wi,
                    i,
                    y as int,
                ) == spec_encode_pixel(format, raster@[y as int][i]) by {
                    if i < x {
                        lemma_pixel_before(format, wi, i, x as int, y as int);
                        assert(pixel_bytes_at(format, out@, base, wi, i, y as int)
                            =~= pixel_bytes_at(format, before, base, wi, i, y as int));
                    }
                }
                assert((x + 1) * pb == x * pb + pb) by (nonlinear_arith);
                if x + 1 < w {
                    lemma_pixel_offset(format, wi, hi, x + 1, y as int);
                }
            }
            x += 1;
        }
        proof {
            lemma_row_offsets(format, wi, hi, y as int);
        }
        y += 1;
    }
    proof {
        if h > 0 {
            lemma_row_offsets(format, wi, hi, 0);
        } else {
            assert(raster_bytes(format, wi, 0) == 0) by (nonlinear_arith)
                requires
                    raster_bytes(format, wi, 0) == wi * 0 * pb,
            ;
        }
    }
}

/// The bytes of a pixel of an earlier row end where the later row begins, or
/// before.
proof fn lemma_row_before(format: AttachmentFormat, width: int, x: int, j: int, y: int)
    requires
        0 <= x < width,
        0 <= j < y,
    ensures
        pixel_offset(format, width, x, j) + format.spec_pixel_bytes() <= pixel_offset(
            format,
            width,
            0,
            y,
        ),
{
    let pb = format.spec_pixel_bytes() as int;
    assert(j * width + x + 1 <= y * width) by (nonlinear_arith)
        requires
            0 <= x < width,
            0 <= j < y,
    ;
    assert((j * width + x) * pb + pb <= (y * width + 0) * pb) by (nonlinear_arith)
        requires
            j * width + x + 1 <= y * width,
            pb >= 1,
    ;
}

/// The bytes of a pixel end where a later pixel of the same row begins, or
/// before.
proof fn lemma_pixel_before(format: AttachmentFormat, width: int, i: int, x: int, y: int)
    requires
        0 <= i < x,
    ensures
        pixel_offset(format, width, i, y) + format.spec_pixel_bytes() <= pixel_offset(
            format,
            width,
            x,
            y,
        ),
{
    let pb = format.spec_pixel_bytes() as int;
    assert((y * width + i) * pb + pb <= (y * width + x) * pb) by (nonlinear_arith)
        requires
            i + 1 <= x,
            pb >= 1,
    ;
}

/// The raster of the given size whose bytes begin at `base`.
pub fn decode_raster(
    format: AttachmentFormat,
    bytes: &Vec<u8>,
    base: usize,
    width: usize,
    height: usize,
) -> (r: Raster)
    requires
        base + raster_bytes(format, width as int, height as int) <= bytes.len(),
    ensures
        r.wf(),
        r.spec_width() == width,
        r.spec_height() == height,
        r@ == decoded(format, bytes@, base as int, width as int, height as int),
        grid_fits(format, r@),
{
    let pb = format.pixel_bytes();
    let ghost target = decoded(format, bytes@, base as int, width as int, height as int);
    let mut rows: Vec<Vec<Pixel>> = Vec::new();
    let mut pos: usize = base;
    let mut y: usize = 0;
    proof {
        assert(pixel_offset(format, width as int, 0, 0) == 0) by (nonlinear_arith)
            requires
                pixel_offset(format, width as int, 0, 0) == (0 * width + 0)
                    * format.spec_pixel_bytes(),
        ;
    }
    while y < height
        invariant
            base + raster_bytes(format, width as int, height as int) <= bytes.len(),
            pb == format.spec_pixel_bytes(),
            y <= height,
            rows.len() == y,
            pos == base + pixel_offset(format, width as int, 0, y as int),
            target == decoded(format, bytes@, base as int, width as int, height as int),
            forall|j: int| 0 <= j < y ==> (#[trigger] rows[j])@ == target[j],
            forall|i: int, j: int|
                0 <= j < y && 0 <= i < width ==> pixel_fits(format, #[trigger] rows[j]@[i]),
        decreases height - y,
    {
        let mut row: Vec<Pixel> = Vec::new();
        let mut x: usize = 0;
        proof {
            lemma_row_offsets(format, width as int, height as int, y as int);
        }
        while x < width
            invariant
                base + raster_bytes(format, width as int, height as int) <= bytes.len(),
                pb == format.spec_pixel_bytes(),
                y < height,
                x <= width,
                row.len() == x,
                x < width ==> pos == base + pixel_offset(format, width as int, x as int, y as int),
                x == width ==> pos == base + pixel_offset(format, width as int, 0, y + 1),
                target == decoded(format, bytes@, base as int, width as int, height as int),
                forall|i: int| 0 <= i < x ==> row[i] == target[y as int][i],
                forall|i: int| 0 <= i < x ==> pixel_fits(format, #[trigger] row[i]),
            decreases width - x,
        {
            proof {
                lemma_pixel_offset(format, width as int, height as int, x as int, y as int);
            }
            let p = decode_pixel(format, bytes, pos);
            row.push(p);
            pos = pos + pb;
            x += 1;
        }
        proof {
            assert(row@ =~= target[y as int]);
        }
        rows.push(row);
        y += 1;
    }
    let r = Raster::from_rows(width, rows).unwrap();
    proof {
        assert(r@ =~= target);
    }
    r
}

} // verus!
