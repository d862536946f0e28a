//! The source of an attachment: a grid of square tiles, some of which may be
//! missing, addressed by global pixel coordinates.

use vstd::prelude::*;
use crate::codec::{decode_raster, decoded, raster_bytes};
use crate::config::AttachmentFormat;
use crate::qoi::{spec_height, spec_unpack, spec_width, unpack, Rgba};
use crate::raster::{
    as_data, grid_fits, is_data, is_grid, nodata, nodata_pixel, pixel_fits, spec_as_data, Pixel,
    Raster,
};

verus! {

/// The container in which source tiles are stored.
#[derive(Clone, Copy, Debug, PartialEq, Eq, Structural)]
pub enum FileFormat {
    /// Elevation grids of 16-bit samples, row by row, low byte first.
    DTM,
    /// Colour images in the QOI container.
    QOI,
}

impl FileFormat {
    /// The pixel format of the tiles that the container holds.
    pub open spec fn spec_pixel_format(self) -> AttachmentFormat {
        match self {
            FileFormat::DTM => AttachmentFormat::R16,
            FileFormat::QOI => AttachmentFormat::Rgb8,
        }
    }

    /// The pixel format of the tiles that the container holds.
    pub fn pixel_format(&self) -> (f: AttachmentFormat)
        ensures
            f == self.spec_pixel_format(),
    {
        match self {
            FileFormat::DTM => AttachmentFormat::R16,
            FileFormat::QOI => AttachmentFormat::Rgb8,
        }
    }
}

/// Where the source tiles of an attachment are and what they look like.
pub struct TileConfig {
    pub path: String,
    /// The side length of a tile in pixels.
    pub size: u32,
    pub file_format: FileFormat,
}

impl TileConfig {
    /// The least number of tiles along one side that cover a terrain of
    /// the given side length, at one pixel for each world unit; 0 where
    /// the tiles have no size.
    pub open spec fn spec_tiles_per_side(&self, terrain_size: u32) -> nat {
        if self.size == 0 {
            0
        } else {
            ((terrain_size + self.size - 1) / (self.size as int)) as nat
        }
    }

    /// The number of tiles along one side of the tile grid of a terrain.
    pub fn tiles_per_side(&self, terrain_size: u32) -> (n: usize)
        ensures
            n == self.spec_tiles_per_side(terrain_size),
    {
        if self.size == 0 {
            return 0;
        }
        let size: u64 = self.size as u64;
        let n: u64 = (terrain_size as u64 + size - 1) / size;
        proof {
            let t = terrain_size as int;
            let s = size as int;
            assert(0 <= (t + s - 1) / s <= t) by (nonlinear_arith)
                requires
                    t >= 0,
                    s >= 1,
            ;
        }
        n as usize
    }
}

/// Why source data was rejected.
#[derive(Clone, Copy, Debug, PartialEq, Eq, Structural)]
pub enum SourceReadError {
    /// The tile at this position of the tile grid does not have the size of
    /// a tile.
    Malformed { tile_x: usize, tile_y: usize },
    /// This row of the tile grid does not have the width of the grid.
    RowLength { tile_y: usize },
    /// The tiles have no extent.
    TileSize,
}

/// The tile that `bytes` holds: its pixels, each made to carry data.
pub open spec fn spec_decode_tile(format: AttachmentFormat, size: nat, bytes: Seq<u8>) -> Seq<
    Seq<Pixel>,
> {
    Seq::new(
        size,
        |y: int|
            Seq::new(
                size,
                |x: int|
                    spec_as_data(format, decoded(format, bytes, 0, size as int, size as int)[y][x]),
            ),
    )
}

/// Reads a tile of `size` by `size` pixels. Bytes of any other length than
/// that of such a tile are rejected. A pixel that coincides with the one
/// that marks missing data is moved off it by the least step.
pub fn decode_tile(format: AttachmentFormat, size: u32, bytes: &Vec<u8>) -> (r: Option<Raster>)
    ensures
        r.is_some() == (bytes.len() == raster_bytes(format, size as int, size as int)),
        r matches Some(tile) ==> {
            &&& tile.wf()
            &&& tile.spec_width() == size
            &&& tile.spec_height() == size
            &&& tile@ == spec_decode_tile(format, size as nat, bytes@)
            &&& is_tile(format, size as nat, tile@)
        },
{
    let pb: u128 = format.pixel_bytes() as u128;
    let s: u128 = size as u128;
    assert(s * s <= 0xffff_ffff * 0xffff_ffff) by (nonlinear_arith)
        requires
            0 <= s <= 0xffff_ffff,
    ;
    assert(s * s * pb <= 0xffff_ffff * 0xffff_ffff * 3) by (nonlinear_arith)
        requires
            0 <= s * s <= 0xffff_ffff * 0xffff_ffff,
            0 <= pb <= 3,
    ;
    if s * s * pb != bytes.len() as u128 {
        return None;
    }
    let raw = decode_raster(format, bytes, 0, size as usize, size as usize);
    let mut rows: Vec<Vec<Pixel>> = Vec::new();
    let ghost target = spec_decode_tile(format, size as nat, bytes@);
    let mut y: usize = 0;
    while y < size as usize
        invariant
            raw.wf(),
            raw.spec_width() == size,
            raw.spec_height() == size,
            raw@ == decoded(format, bytes@, 0, size as int, size as int),
            grid_fits(format, raw@),
            y <= size,
            rows.len() == y,
            target == spec_decode_tile(format, size as nat, bytes@),
            forall|j: int| 0 <= j < y ==> (#[trigger] rows[j])@ == target[j],
        decreases size - y,
    {
        let mut row: Vec<Pixel> = Vec::new();
        let mut x: usize = 0;
        while x < size as usize
            invariant
                raw.wf(),
                raw.spec_width() == size,
                raw.spec_height() == size,
                raw@ == decoded(format, bytes@, 0, size as int, size as int),
                y < size,
                x <= size,
                row.len() == x,
                target == spec_decode_tile(format, size as nat, bytes@),
                forall|i: int| 0 <= i < x ==> row[i] == target[y as int][i],
            decreases size - x,
        {
            row.push(as_data(format, raw.pixel(x, y)));
            x += 1;
        }
        assert(row@ =~= target[y as int]);
        rows.push(row);
        y += 1;
    }
    let tile = Raster::from_rows(size as usize, rows).unwrap();
    proof {
        assert(tile@ =~= target);
        assert forall|x: int, y: int| 0 <= y < size && 0 <= x < size implies is_data(
            format,
            #[trigger] tile@[y][x],
        ) by {
            assert(pixel_fits(format, raw@[y][x]));
        }
    }
    Some(tile)
}

/// Whether `grid` is a tile of the given size in which every pixel carries
/// data.
pub open spec fn is_tile(format: AttachmentFormat, size: nat, grid: Seq<Seq<Pixel>>) -> bool {
    &&& is_grid(grid, size, size)
    &&& forall|x: int, y: int|
        0 <= y < size && 0 <= x < size ==> is_data(format, #[trigger] grid[y][x])
}

/// The pixel of an unpacked image, without its alpha channel.
pub open spec fn from_rgba(p: Rgba) -> Pixel {
    Pixel { r: p.r as u16, g: p.g as u16, b: p.b as u16 }
}

/// The tile that a file holds; `None` where the file is no tile of the given
/// size: an elevation grid of another length, or bytes that are no image or
/// an image of another size.
pub open spec fn spec_read_tile(file_format: FileFormat, size: nat, bytes: Seq<u8>) -> Option<
    Seq<Seq<Pixel>>,
> {
    match file_format {
        FileFormat::DTM => if bytes.len() == raster_bytes(
            AttachmentFormat::R16,
            size as int,
            size as int,
        ) {
            Some(spec_decode_tile(AttachmentFormat::R16, size, bytes))
        } else {
            None
        },
        FileFormat::QOI => match spec_unpack(bytes) {
            Some(pixels) => if spec_width(bytes) == size && spec_height(bytes) == size {
                Some(
                    Seq::new(
                        size,
                        |y: int|
                            Seq::new(
                                size,
                                |x: int|
                                    spec_as_data(
                                        AttachmentFormat::Rgb8,
                                        from_rgba(pixels[y * size + x]),
                                    ),
                            ),
                    ),
                )
            } else {
                None
            },
            None => None,
        },
    }
}

/// Reads a tile of `size` by `size` pixels from the bytes of its file: an
/// elevation grid of 16-bit samples, low byte first, or an image in the QOI
/// container. A pixel that coincides with the one that marks missing data
/// is moved off it by the least step.
pub fn read_tile(file_format: FileFormat, size: u32, bytes: &Vec<u8>) -> (r: Option<Raster>)
    ensures
        r.is_some() == spec_read_tile(file_format, size as nat, bytes@).is_some(),
        r matches Some(tile) ==> {
            &&& tile.wf()
            &&& tile.spec_width() == size
            &&& tile.spec_height() == size
            &&& Some(tile@) == spec_read_tile(file_format, size as nat, bytes@)
            &&& is_tile(file_format.spec_pixel_format(), size as nat, tile@)
        },
{
    match file_format {
        FileFormat::DTM => decode_tile(AttachmentFormat::R16, size, bytes),
        FileFormat::QOI => {
            let image = match unpack(bytes) {
                Some(image) => image,
                None => {
                    return None;
                },
            };
            if image.width != size || image.height != size {
                return None;
            }
            let ghost target = spec_read_tile(file_format, size as nat, bytes@)->Some_0;
            let ghost n = size as int;
            let mut rows: Vec<Vec<Pixel>> = Vec::new();
            let mut k: usize = 0;
            let mut y: u32 = 0;
            while y < size
                invariant
                    n == size,
                    image.pixels@.len() == n * n,
                    Some(image.pixels@) == spec_unpack(bytes@),
                    spec_width(bytes@) == size,
                    spec_height(bytes@) == size,
                    file_format == FileFormat::QOI,
                    Some(target) == spec_read_tile(file_format, size as nat, bytes@),
                    y <= size,
                    rows.len() == y,
                    k == y * n,
                    forall|j: int| 0 <= j < y ==> (#[trigger] rows[j])@ == target[j],
                    forall|i: int, j: int|
                        0 <= j < y && 0 <= i < size ==> is_data(
                            AttachmentFormat::Rgb8,
                            #[trigger] rows[j]@[i],
                        ),
                decreases size - y,
            {
                let mut row: Vec<Pixel> = Vec::new();
                let mut x: u32 = 0;
                while x < size
                    invariant
                        n == size,
                        image.pixels@.len() == n * n,
                        Some(image.pixels@) == spec_unpack(bytes@),
                        spec_width(bytes@) == size,
                        spec_height(bytes@) == size,
                        file_format == FileFormat::QOI,
                        Some(target) == spec_read_tile(file_format, size as nat, bytes@),
                        y < size,
                        x <= size,
                        row.len() == x,
                        k == y * n + x,
                        forall|i: int| 0 <= i < x ==> row[i] == target[y as int][i],
                        forall|i: int|
                            0 <= i < x ==> is_data(AttachmentFormat::Rgb8, #[trigger] row[i]),
                    decreases size - x,
                {
                    proof {
                        assert(y * n + x < n * n) by (nonlinear_arith)
                            requires
                                0 <= x < n,
                                0 <= y < n,
                        ;
                    }
                    assert(k < image.pixels.len());
                    let p = image.pixels[k];
                    row.push(
                        as_data(
                            AttachmentFormat::Rgb8,
                            Pixel { r: p.r as u16, g: p.g as u16, b: p.b as u16 },
                        ),
                    );
                    k = k + 1;
                    x += 1;
                }
                proof {
                    assert(row@ =~= target[y as int]);
                    assert((y + 1) * n == y * n + n) by (nonlinear_arith);
                }
                rows.push(row);
                y += 1;
            }
            let tile = Raster::from_rows(size as usize, rows).unwrap();
            proof {
                assert(tile@ =~= target);
            }
            Some(tile)
        },
    }
}

/// The abstract state of a source: the tiles by row and column of the tile
/// grid, `None` where a tile is missing.
pub struct SourceView {
    pub format: AttachmentFormat,
    pub tile_size: nat,
    pub cols: nat,
    pub tiles: Seq<Seq<Option<Seq<Seq<Pixel>>>>>,
}

impl SourceView {
    /// The number of rows of the tile grid.
    pub open spec fn rows(self) -> nat {
        self.tiles.len()
    }

    /// The tiles have an extent, every row has the width of the grid, and
    /// every tile has the size of a tile and carries data throughout.
    pub open spec fn wf(self) -> bool {
        &&& self.tile_size > 0
        &&& forall|ty: int| 0 <= ty < self.tiles.len() ==> (#[trigger] self.tiles[ty]).len()
            == self.cols
        &&& forall|tx: int, ty: int|
            0 <= ty < self.tiles.len() && 0 <= tx < self.cols ==> (
            #[trigger] self.tiles[ty][tx] matches Some(tile) ==> is_tile(
                self.format,
                self.tile_size,
                tile,
            ))
    }

    /// The pixel at the global position `(gx, gy)`: that of the tile which
    /// covers the position, and the missing-data pixel where the position
    /// lies outside the tile grid or its tile is missing.
    pub open spec fn sample(self, gx: int, gy: int) -> Pixel {
        let ts = self.tile_size as int;
        if gx < 0 || gy < 0 || gx / ts >= self.cols || gy / ts >= self.rows() {
            nodata_pixel(self.format)
        } else {
            match self.tiles[gy / ts][gx / ts] {
                Some(tile) => tile[gy % ts][gx % ts],
                None => nodata_pixel(self.format),
            }
        }
    }

    /// Every tile is present and every pixel has the value `p`.
    pub open spec fn constant(self, p: Pixel) -> bool {
        forall|tx: int, ty: int|
            0 <= ty < self.tiles.len() && 0 <= tx < self.cols ==> (
            #[trigger] self.tiles[ty][tx] matches Some(tile) && forall|x: int, y: int|
                0 <= y < self.tile_size && 0 <= x < self.tile_size ==> #[trigger] tile[y][x] == p)
    }
}

/// The source tiles of one attachment.
pub struct TileGrid {
    format: AttachmentFormat,
    tile_size: u32,
    cols: usize,
    tiles: Vec<Vec<Option<Raster>>>,
}

/// The view of a tile that may be missing.
pub open spec fn tile_view(tile: Option<Raster>) -> Option<Seq<Seq<Pixel>>> {
    match tile {
        Some(t) => Some(t@),
        None => None,
    }
}

impl View for TileGrid {
    type V = SourceView;

    closed spec fn view(&self) -> SourceView {
        SourceView {
            format: self.format,
            tile_size: self.tile_size as nat,
            cols: self.cols as nat,
            tiles: Seq::new(
                self.tiles@.len(),
                |ty: int|
                    Seq::new(self.tiles@[ty]@.len(), |tx: int| tile_view(self.tiles@[ty]@[tx])),
            ),
        }
    }
}

/// The tiles that the given files hold, missing where no file is given.
pub open spec fn spec_tiles(
    file_format: FileFormat,
    tile_size: nat,
    files: Seq<Vec<Option<Vec<u8>>>>,
) -> Seq<Seq<Option<Seq<Seq<Pixel>>>>> {
    Seq::new(
        files.len(),
        |ty: int|
            Seq::new(
                files[ty]@.len(),
                |tx: int|
                    match files[ty]@[tx] {
                        Some(b) => spec_read_tile(file_format, tile_size, b@),
                        None => None,
                    },
            ),
    )
}

/// The first defect of the given files, in row-major order, if there is
/// one.
pub open spec fn first_defect(
    file_format: FileFormat,
    tile_size: u32,
    cols: usize,
    files: Seq<Vec<Option<Vec<u8>>>>,
    error: SourceReadError,
) -> bool {
    match error {
        SourceReadError::TileSize => tile_size == 0,
        SourceReadError::RowLength { tile_y } => {
            &&& tile_size > 0
            &&& tile_y < files.len()
            &&& files[tile_y as int]@.len() != cols
            &&& rows_sound(file_format, tile_size, cols, files, tile_y as int)
        },
        SourceReadError::Malformed { tile_x, tile_y } => {
            &&& tile_size > 0
            &&& tile_y < files.len()
            &&& files[tile_y as int]@.len() == cols
            &&& tile_x < cols
            &&& rows_sound(file_format, tile_size, cols, files, tile_y as int)
            &&& tiles_sound(file_format, tile_size, files[tile_y as int]@, tile_x as int)
            &&& !tile_sound(file_format, tile_size, files[tile_y as int]@[tile_x as int])
        },
    }
}

/// The tile is missing, or its file holds a tile of the given size.
pub open spec fn tile_sound(file_format: FileFormat, tile_size: u32, tile: Option<Vec<u8>>) -> bool {
    tile matches Some(b) ==> spec_read_tile(file_format, tile_size as nat, b@).is_some()
}

/// The first `n` tiles of a row are sound.
pub open spec fn tiles_sound(
    file_format: FileFormat,
    tile_size: u32,
    row: Seq<Option<Vec<u8>>>,
    n: int,
) -> bool {
    forall|tx: int| 0 <= tx < n ==> tile_sound(file_format, tile_size, #[trigger] row[tx])
}

/// The first `n` rows have the width of the grid and sound tiles.
pub open spec fn rows_sound(
    file_format: FileFormat,
    tile_size: u32,
    cols: usize,
    files: Seq<Vec<Option<Vec<u8>>>>,
    n: int,
) -> bool {
    forall|ty: int|
        0 <= ty < n ==> (#[trigger] files[ty])@.len() == cols && tiles_sound(
            file_format,
            tile_size,
            files[ty]@,
            cols as int,
        )
}

impl TileGrid {
    /// Every tile has the size that the source declares.
    pub closed spec fn tiles_wf(&self) -> bool {
        forall|ty: int, tx: int|
            0 <= ty < self.tiles@.len() && 0 <= tx < self.tiles@[ty]@.len() ==> (
            #[trigger] self.tiles@[ty]@[tx] matches Some(t) ==> t.wf() && t.spec_width()
                == self.tile_size && t.spec_height() == self.tile_size)
    }

    /// The invariant of a source.
    pub open spec fn wf(&self) -> bool {
        self@.wf() && self.tiles_wf()
    }

    /// The source made of the given tiles: `files[ty][tx]` holds the bytes
    /// of the file of the tile in column `tx` of row `ty`, or `None` where
    /// that tile is missing or could not be read. A missing tile is no
    /// error; a file that holds no tile of the given size is, and so is a
    /// row of the wrong width.
    pub fn from_tiles(
        file_format: FileFormat,
        tile_size: u32,
        cols: usize,
        files: &Vec<Vec<Option<Vec<u8>>>>,
    ) -> (r: Result<TileGrid, SourceReadError>)
        ensures
            match r {
                Ok(grid) => {
                    &&& grid.wf()
                    &&& tile_size > 0
                    &&& rows_sound(file_format, tile_size, cols, files@, files@.len() as int)
                    &&& grid@ == (SourceView {
                        format: file_format.spec_pixel_format(),
                        tile_size: tile_size as nat,
                        cols: cols as nat,
                        tiles: spec_tiles(file_format, tile_size as nat, files@),
                    })
                },
                Err(e) => first_defect(file_format, tile_size, cols, files@, e),
            },
    {
        if tile_size == 0 {
            return Err(SourceReadError::TileSize);
        }
        let format = file_format.pixel_format();
        let ghost target = spec_tiles(file_format, tile_size as nat, files@);
        let mut out: Vec<Vec<Option<Raster>>> = Vec::new();
        let mut ty: usize = 0;
        while ty < files.len()
            invariant
                tile_size > 0,
                format == file_format.spec_pixel_format(),
                ty <= files.len(),
                out.len() == ty,
                target == spec_tiles(file_format, tile_size as nat, files@),
                rows_sound(file_format, tile_size, cols, files@, ty as int),
                forall|j: int|
                    0 <= j < ty ==> (#[trigger] out[j])@.len() == cols && forall|i: int|
                        0 <= i < cols ==> tile_view(#[trigger] out[j]@[i]) == target[j][i],
                forall|j: int, i: int|
                    0 <= j < ty && 0 <= i < cols ==> (#[trigger] out[j]@[i] matches Some(t)
                        ==> is_tile(format, tile_size as nat, t@) && t.wf() && t.spec_width()
                        == tile_size && t.spec_height() == tile_size),
            decreases files.len() - ty,
        {
            if files[ty].len() != cols {
                return Err(SourceReadError::RowLength { tile_y: ty });
            }
            let mut row: Vec<Option<Raster>> = Vec::new();
            let mut tx: usize = 0;
            while tx < cols
                invariant
                    tile_size > 0,
                    format == file_format.spec_pixel_format(),
                    ty < files.len(),
                    files[ty as int]@.len() == cols,
                    tx <= cols,
                    row.len() == tx,
                    target == spec_tiles(file_format, tile_size as nat, files@),
                    rows_sound(file_format, tile_size, cols, files@, ty as int),
                    tiles_sound(file_format, tile_size, files[ty as int]@, tx as int),
                    forall|i: int| 0 <= i < tx ==> tile_view(#[trigger] row[i]) == target[ty as int][i],
                    forall|i: int|
                        0 <= i < tx ==> (#[trigger] row[i] matches Some(t) ==> is_tile(
                            format,
                            tile_size as nat,
                            t@,
                        ) && t.wf() && t.spec_width() == tile_size && t.spec_height()
                            == tile_size),
                decreases cols - tx,
            {
                match &files[ty][tx] {
                    None => {
                        row.push(None);
                    },
                    Some(bytes) => {
                        match read_tile(file_format, tile_size, bytes) {
                            None => {
                                return Err(SourceReadError::Malformed { tile_x: tx, tile_y: ty });
                            },
                            Some(tile) => {
                                row.push(Some(tile));
                            },
                        }
                    },
                }
                tx += 1;
            }
            out.push(row);
            ty += 1;
        }
        let grid = TileGrid { format, tile_size, cols, tiles: out };
        proof {
            assert forall|j: int| 0 <= j < files.len() implies grid@.tiles[j] =~= target[j] by {
                assert(out[j]@.len() == cols);
            }
            assert(grid@.tiles =~= target);
        }
        Ok(grid)
    }

    /// The pixel format of the tiles.
    pub fn format(&self) -> (f: AttachmentFormat)
        ensures
            f == self@.format,
    {
        self.format
    }

    /// The side length of a tile in pixels.
    pub fn tile_size(&self) -> (s: u32)
        ensures
            s == self@.tile_size,
    {
        self.tile_size
    }

    /// The number of columns of the tile grid.
    pub fn cols(&self) -> (c: usize)
        ensures
            c == self@.cols,
    {
        self.cols
    }

    /// The number of rows of the tile grid.
    pub fn rows(&self) -> (c: usize)
        ensures
            c == self@.rows(),
    {
        self.tiles.len()
    }

    /// The pixel at the global position `(gx, gy)`.
    pub fn sample(&self, gx: i128, gy: i128) -> (p: Pixel)
        requires
            self.wf(),
        ensures
            p == self@.sample(gx as int, gy as int),
            pixel_fits(self@.format, p),
    {
        let none = nodata(self.format);
        if gx < 0 || gy < 0 {
            return none;
        }
        let ts: u128 = self.tile_size as u128;
        let ux: u128 = gx as u128;
        let uy: u128 = gy as u128;
        let tx: u128 = ux / ts;
        let ty: u128 = uy / ts;
        if tx >= self.cols as u128 || ty >= self.tiles.len() as u128 {
            return none;
        }
        let lx: usize = (ux % ts) as usize;
        let ly: usize = (uy % ts) as usize;
        assert(self@.tiles[ty as int].len() == self.cols);
        match &self.tiles[ty as usize][tx as usize] {
            None => none,
            Some(tile) => {
                proof {
                    assert(self@.tiles[ty as int][tx as int] == Some(tile@));
                    assert(is_tile(self.format, self.tile_size as nat, tile@));
                    assert(is_data(self.format, tile@[ly as int][lx as int]));
                }
                tile.pixel(lx, ly)
            },
        }
    }
}

/// In a source whose tiles are all present and hold the pixel `p`
/// throughout, every position inside the tile grid gives `p` and every
/// position outside gives the missing-data pixel.
pub proof fn lemma_constant_source(s: SourceView, p: Pixel, gx: int, gy: int)
    requires
        s.wf(),
        s.constant(p),
    ensures
        s.sample(gx, gy) == if 0 <= gx < s.cols * s.tile_size && 0 <= gy < s.rows() * s.tile_size {
            p
        } else {
            nodata_pixel(s.format)
        },
{
    let ts = s.tile_size as int;
    let c = s.cols as int;
    let r = s.rows() as int;
    lemma_tile_index(gx, ts, c);
    lemma_tile_index(gy, ts, r);
    if 0 <= gx < c * ts && 0 <= gy < r * ts {
        let tx = gx / ts;
        let ty = gy / ts;
        assert(s.tiles[ty][tx] is Some);
        let tile = s.tiles[ty][tx]->Some_0;
        assert(0 <= gx % ts < ts && 0 <= gy % ts < ts) by (nonlinear_arith)
            requires
                ts > 0,
        ;
        assert(tile[gy % ts][gx % ts] == p);
    }
}

/// A position lies in one of the first `n` tiles exactly if it lies below
/// `n` tile sizes.
pub proof fn lemma_tile_index(g: int, ts: int, n: int)
    requires
        ts > 0,
        n >= 0,
    ensures
        g >= 0 ==> (g / ts < n <==> g < n * ts),
        g >= 0 ==> g / ts >= 0,
{
    if g >= 0 {
        vstd::arithmetic::div_mod::lemma_fundamental_div_mod(g, ts);
        let q = g / ts;
        let r = g % ts;
        assert(0 <= r < ts) by (nonlinear_arith)
            requires
                ts > 0,
                r == g % ts,
        ;
        assert(q >= 0 && (q < n <==> g < n * ts)) by (nonlinear_arith)
            requires
                g == ts * q + r,
                0 <= r < ts,
                g >= 0,
                ts > 0,
                n >= 0,
        ;
    }
}

} // verus!
