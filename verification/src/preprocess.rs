//! Preprocessing: from the source tiles of an attachment to the artifacts of
//! its nodes.
//!
//! The image of a node is cut from the source at the node's position, with
//! the border around it; a node of level `l` takes every `2^l`-th source
//! pixel. The mip levels follow by halving, each from the one before, so
//! that no node needs its neighbours' images. The artifact stores the mip
//! levels one after the other, finest first.

use vstd::prelude::*;
use vstd::arithmetic::power2::{lemma2_to64, lemma_pow2_pos, lemma_pow2_strictly_increases, lemma_pow2_unfold, pow2};
use vstd::bits::lemma_u64_shl_is_mul;
use crate::codec::{
    decode_raster, decoded, encode_raster, holds_grid, lemma_pixel_offset, lemma_round_trip,
    pixel_bytes_at, raster_bytes,
};
use crate::config::{
    lemma_border_bound, lemma_mip_size, nodes_per_side, AttachmentConfig, ConfigError,
    TerrainConfig, MAX_LOD_COUNT,
};
use crate::node::NodeId;
use crate::raster::{
    grid_fits, half, halved, is_data, is_grid, lemma_halved_fits, nodata_pixel, pixel_fits, Pixel,
    Raster,
};
use crate::source::{SourceView, TileConfig, TileGrid};

verus! {

/// The source position, along one axis, of pixel `i` of the node at grid
/// position `coord` of level `lod`.
pub open spec fn source_position(att: &AttachmentConfig, coord: u32, lod: u32, i: int) -> int {
    (coord * att.spec_center_size() + i - att.spec_mip_border(0)) * pow2(lod as nat)
}

/// The image of a node: mip level 0 of its artifact.
pub open spec fn node_image(att: &AttachmentConfig, source: SourceView, node: NodeId) -> Seq<
    Seq<Pixel>,
> {
    Seq::new(
        att.texture_size as nat,
        |j: int|
            Seq::new(
                att.texture_size as nat,
                |i: int|
                    source.sample(
                        source_position(att, node.x, node.lod, i),
                        source_position(att, node.y, node.lod, j),
                    ),
            ),
    )
}

/// Mip level `k` of a node with the given image: the image halved `k`
/// times.
pub open spec fn mip_level(att: &AttachmentConfig, image: Seq<Seq<Pixel>>, k: nat) -> Seq<
    Seq<Pixel>,
>
    decreases k,
{
    if k == 0 {
        image
    } else {
        halved(
            att.format,
            mip_level(att, image, (k - 1) as nat),
            att.spec_mip_size((k - 1) as nat),
            att.spec_mip_size((k - 1) as nat),
        )
    }
}

/// `bytes` is the artifact of a node with the given image: it has the size
/// of an artifact and holds every mip level at the level's offset.
pub open spec fn is_artifact(att: &AttachmentConfig, bytes: Seq<u8>, image: Seq<Seq<Pixel>>) -> bool {
    &&& bytes.len() == att.spec_artifact_size()
    &&& forall|k: nat|
        k < att.mip_level_count ==> #[trigger] holds_grid(
            att.format,
            bytes,
            att.spec_mip_offset(k) as int,
            mip_level(att, image, k),
            att.spec_mip_size(k) as int,
            att.spec_mip_size(k) as int,
        )
}

/// Each mip level has half the side length of the one before.
pub proof fn lemma_mip_halves(att: &AttachmentConfig, k: nat)
    requires
        att.valid(),
        k + 1 < att.mip_level_count,
    ensures
        att.spec_mip_size(0) == att.texture_size,
        att.spec_mip_size(k + 1) == half(att.spec_mip_size(k)),
        att.spec_mip_size(k) == 2 * att.spec_mip_size(k + 1),
{
    lemma_mip_size(*att, k);
    lemma_mip_size(*att, k + 1);
    lemma_mip_size(*att, 0);
    lemma2_to64();
    lemma_pow2_unfold(k + 1);
    lemma_pow2_pos(k);
    let a = att.spec_mip_size(k) as int;
    let b = att.spec_mip_size(k + 1) as int;
    let p = pow2(k) as int;
    assert(a == 2 * b) by (nonlinear_arith)
        requires
            a * p == b * (2 * p),
            p > 0,
    ;
}

/// The mip levels of an image that fits the format are grids of the sizes
/// of the levels, and fit the format.
pub proof fn lemma_mip_levels(att: &AttachmentConfig, image: Seq<Seq<Pixel>>, k: nat)
    requires
        att.valid(),
        k < att.mip_level_count,
        is_grid(image, att.texture_size as nat, att.texture_size as nat),
        grid_fits(att.format, image),
    ensures
        is_grid(mip_level(att, image, k), att.spec_mip_size(k), att.spec_mip_size(k)),
        grid_fits(att.format, mip_level(att, image, k)),
    decreases k,
{
    lemma_mip_size(*att, 0);
    lemma2_to64();
    if k > 0 {
        let j = (k - 1) as nat;
        lemma_mip_levels(att, image, j);
        lemma_mip_size(*att, j);
        lemma_mip_halves(att, j);
        lemma_halved_fits(att.format, mip_level(att, image, j), att.spec_mip_size(j), att.spec_mip_size(j));
    }
}

/// Decoding a mip level of an artifact gives that level of the node's
/// image, pixel for pixel.
pub proof fn lemma_artifact_round_trip(
    att: &AttachmentConfig,
    bytes: Seq<u8>,
    image: Seq<Seq<Pixel>>,
    k: nat,
)
    requires
        att.valid(),
        k < att.mip_level_count,
        is_grid(image, att.texture_size as nat, att.texture_size as nat),
        grid_fits(att.format, image),
        is_artifact(att, bytes, image),
    ensures
        decoded(
            att.format,
            bytes,
            att.spec_mip_offset(k) as int,
            att.spec_mip_size(k) as int,
            att.spec_mip_size(k) as int,
        ) == mip_level(att, image, k),
{
    lemma_mip_levels(att, image, k);
    assert(holds_grid(
        att.format,
        bytes,
        att.spec_mip_offset(k) as int,
        mip_level(att, image, k),
        att.spec_mip_size(k) as int,
        att.spec_mip_size(k) as int,
    ));
    lemma_round_trip(
        att.format,
        bytes,
        att.spec_mip_offset(k) as int,
        mip_level(att, image, k),
        att.spec_mip_size(k) as int,
        att.spec_mip_size(k) as int,
    );
}

/// The source position, along one axis, of pixel `i` of a node.
fn source_coordinate(att: &AttachmentConfig, coord: u32, lod: u32, i: u32) -> (g: i128)
    requires
        att.valid(),
        lod < MAX_LOD_COUNT,
        i < att.texture_size,
    ensures
        g == source_position(att, coord, lod, i as int),
{
    let center: i128 = att.center_size() as i128;
    let pad: i128 = att.mip_border(0) as i128;
    proof {
        lemma2_to64();
        lemma_pow2_pos(lod as nat);
        if lod < 31 {
            lemma_pow2_strictly_increases(lod as nat, 31);
        }
        lemma_u64_shl_is_mul(1, lod as u64);
        lemma_border_bound((att.mip_level_count - 1) as u32);
    }
    let scale: i128 = (1u64 << (lod as u64)) as i128;
    let c: i128 = coord as i128;
    assert(0 <= c * center <= 0xffff_ffff * 8192) by (nonlinear_arith)
        requires
            0 <= c <= 0xffff_ffff,
            0 <= center <= 8192,
    ;
    let v: i128 = c * center + i as i128 - pad;
    assert(-0x1_0000_0000_0000_0000 <= v * scale <= 0x1_0000_0000_0000_0000_0000)
        by (nonlinear_arith)
        requires
            -4096 <= v <= 0xffff_ffff * 8192 + 8192,
            0 < scale <= 0x8000_0000,
    ;
    v * scale
}

/// Cuts the image of a node from the source.
pub fn build_node_image(att: &AttachmentConfig, source: &TileGrid, node: NodeId) -> (image: Raster)
    requires
        att.valid(),
        source.wf(),
        source@.format == att.format,
        node.lod < MAX_LOD_COUNT,
    ensures
        image.wf(),
        image.spec_width() == att.texture_size,
        image.spec_height() == att.texture_size,
        image@ == node_image(att, source@, node),
        grid_fits(att.format, image@),
{
    let size: u32 = att.texture_size;
    let ghost target = node_image(att, source@, node);
    let mut rows: Vec<Vec<Pixel>> = Vec::new();
    let mut j: u32 = 0;
    while j < size
        invariant
            att.valid(),
            source.wf(),
            source@.format == att.format,
            node.lod < MAX_LOD_COUNT,
            size == att.texture_size,
            j <= size,
            rows.len() == j,
            target == node_image(att, source@, node),
            forall|y: int| 0 <= y < j ==> (#[trigger] rows[y])@ == target[y],
            forall|x: int, y: int|
                0 <= y < j && 0 <= x < size ==> pixel_fits(att.format, #[trigger] rows[y]@[x]),
        decreases size - j,
    {
        let gy = source_coordinate(att, node.y, node.lod, j);
        let mut row: Vec<Pixel> = Vec::new();
        let mut i: u32 = 0;
        while i < size
            invariant
                att.valid(),
                source.wf(),
                source@.format == att.format,
                node.lod < MAX_LOD_COUNT,
                size == att.texture_size,
                j < size,
                i <= size,
                row.len() == i,
                gy == source_position(att, node.y, node.lod, j as int),
                target == node_image(att, source@, node),
                forall|x: int| 0 <= x < i ==> row[x] == target[j as int][x],
                forall|x: int| 0 <= x < i ==> pixel_fits(att.format, #[trigger] row[x]),
            decreases size - i,
        {
            let gx = source_coordinate(att, node.x, node.lod, i);
            row.push(source.sample(gx, gy));
            i += 1;
        }
        assert(row@ =~= target[j as int]);
        rows.push(row);
        j += 1;
    }
    let image = Raster::from_rows(size as usize, rows).unwrap();
    assert(image@ =~= target);
    image
}

/// Builds the mip levels of a node from its image.
pub fn build_mip_chain(att: &AttachmentConfig, image: Raster) -> (chain: Vec<Raster>)
    requires
        att.valid(),
        image.wf(),
        image.spec_width() == att.texture_size,
        image.spec_height() == att.texture_size,
        grid_fits(att.format, image@),
    ensures
        chain.len() == att.mip_level_count,
        forall|k: int|
            0 <= k < chain.len() ==> {
                &&& (#[trigger] chain[k]).wf()
                &&& chain[k].spec_width() == att.spec_mip_size(k as nat)
                &&& chain[k].spec_height() == att.spec_mip_size(k as nat)
                &&& chain[k]@ == mip_level(att, image@, k as nat)
                &&& grid_fits(att.format, chain[k]@)
            },
{
    let ghost first = image@;
    let mut chain: Vec<Raster> = Vec::new();
    proof {
        lemma_mip_size(*att, 0);
        lemma2_to64();
    }
    chain.push(image);
    let mut k: u32 = 1;
    while k < att.mip_level_count
        invariant
            att.valid(),
            1 <= k <= att.mip_level_count,
            chain.len() == k,
            forall|j: int|
                0 <= j < k ==> {
                    &&& (#[trigger] chain[j]).wf()
                    &&& chain[j].spec_width() == att.spec_mip_size(j as nat)
                    &&& chain[j].spec_height() == att.spec_mip_size(j as nat)
                    &&& chain[j]@ == mip_level(att, first, j as nat)
                    &&& grid_fits(att.format, chain[j]@)
                },
        decreases att.mip_level_count - k,
    {
        proof {
            lemma_mip_size(*att, (k - 1) as nat);
            lemma_mip_halves(att, (k - 1) as nat);
        }
        let next = chain[k as usize - 1].downsample(att.format);
        chain.push(next);
        k += 1;
    }
    chain
}

/// The bytes of a raster at `base` stay what they are when bytes are
/// appended.
pub proof fn lemma_holds_after_append(
    format: crate::config::AttachmentFormat,
    before: Seq<u8>,
    after: Seq<u8>,
    base: int,
    grid: Seq<Seq<Pixel>>,
    width: int,
    height: int,
)
    requires
        holds_grid(format, before, base, grid, width, height),
        before.len() <= after.len(),
        after.subrange(0, before.len() as int) == before,
    ensures
        holds_grid(format, after, base, grid, width, height),
{
    assert forall|x: int, y: int| 0 <= x < width && 0 <= y < height implies #[trigger] pixel_bytes_at(
        format,
        after,
        base,
        width,
        x,
        y,
    ) == crate::codec::spec_encode_pixel(format, grid[y][x]) by {
        lemma_pixel_offset(format, width, height, x, y);
        let lo = base + crate::codec::pixel_offset(format, width, x, y);
        let hi = lo + format.spec_pixel_bytes();
        assert(after.subrange(lo, hi) =~= after.subrange(0, before.len() as int).subrange(lo, hi));
        assert(pixel_bytes_at(format, before, base, width, x, y) == crate::codec::spec_encode_pixel(
            format,
            grid[y][x],
        ));
    }
}

/// Writes the artifact of a node from its mip levels.
pub fn encode_artifact(att: &AttachmentConfig, chain: &Vec<Raster>) -> (bytes: Vec<u8>)
    requires
        att.valid(),
        chain.len() == att.mip_level_count,
        forall|k: int|
            0 <= k < chain.len() ==> {
                &&& (#[trigger] chain[k]).wf()
                &&& chain[k].spec_width() == att.spec_mip_size(k as nat)
                &&& chain[k].spec_height() == att.spec_mip_size(k as nat)
                &&& grid_fits(att.format, chain[k]@)
            },
    ensures
        bytes@.len() == att.spec_artifact_size(),
        forall|k: int|
            0 <= k < chain.len() ==> #[trigger] holds_grid(
                att.format,
                bytes@,
                att.spec_mip_offset(k as nat) as int,
                chain[k]@,
                att.spec_mip_size(k as nat) as int,
                att.spec_mip_size(k as nat) as int,
            ),
{
    let mut bytes: Vec<u8> = Vec::new();
    let mut k: usize = 0;
    while k < chain.len()
        invariant
            att.valid(),
            chain.len() == att.mip_level_count,
            forall|j: int|
                0 <= j < chain.len() ==> {
                    &&& (#[trigger] chain[j]).wf()
                    &&& chain[j].spec_width() == att.spec_mip_size(j as nat)
                    &&& chain[j].spec_height() == att.spec_mip_size(j as nat)
                    &&& grid_fits(att.format, chain[j]@)
                },
            k <= chain.len(),
            bytes@.len() == att.spec_mip_offset(k as nat),
            forall|j: int|
                0 <= j < k ==> #[trigger] holds_grid(
                    att.format,
                    bytes@,
                    att.spec_mip_offset(j as nat) as int,
                    chain[j]@,
                    att.spec_mip_size(j as nat) as int,
                    att.spec_mip_size(j as nat) as int,
                ),
        decreases chain.len() - k,
    {
        let ghost before = bytes@;
        assert(chain[k as int].wf());
        encode_raster(att.format, &chain[k], &mut bytes);
        proof {
            let s = att.spec_mip_size(k as nat) as int;
            assert(raster_bytes(att.format, s, s) == att.spec_mip_bytes(k as nat));
            assert(att.spec_mip_offset((k + 1) as nat) == att.spec_mip_offset(k as nat)
                + att.spec_mip_bytes(k as nat));
            assert forall|j: int| 0 <= j < k implies #[trigger] holds_grid(
                att.format,
                bytes@,
                att.spec_mip_offset(j as nat) as int,
                chain[j]@,
                att.spec_mip_size(j as nat) as int,
                att.spec_mip_size(j as nat) as int,
            ) by {
                lemma_holds_after_append(
                    att.format,
                    before,
                    bytes@,
                    att.spec_mip_offset(j as nat) as int,
                    chain[j]@,
                    att.spec_mip_size(j as nat) as int,
                    att.spec_mip_size(j as nat) as int,
                );
            }
        }
        k += 1;
    }
    bytes
}

/// Preprocesses one node: cuts its image from the source, builds the mip
/// levels and writes the artifact.
pub fn preprocess_node(att: &AttachmentConfig, source: &TileGrid, node: NodeId) -> (bytes: Vec<u8>)
    requires
        att.valid(),
        source.wf(),
        source@.format == att.format,
        node.lod < MAX_LOD_COUNT,
    ensures
        is_artifact(att, bytes@, node_image(att, source@, node)),
{
    let image = build_node_image(att, source, node);
    let chain = build_mip_chain(att, image);
    let bytes = encode_artifact(att, &chain);
    proof {
        let img = node_image(att, source@, node);
        assert forall|k: nat| k < att.mip_level_count implies #[trigger] holds_grid(
            att.format,
            bytes@,
            att.spec_mip_offset(k) as int,
            mip_level(att, img, k),
            att.spec_mip_size(k) as int,
            att.spec_mip_size(k) as int,
        ) by {
            assert(chain[k as int]@ == mip_level(att, img, k));
            assert(holds_grid(
                att.format,
                bytes@,
                att.spec_mip_offset(k as int as nat) as int,
                chain[k as int]@,
                att.spec_mip_size(k as int as nat) as int,
                att.spec_mip_size(k as int as nat) as int,
            ));
        }
    }
    bytes
}

/// Reads mip level `k` from an artifact. Bytes that do not have the size of
/// an artifact are rejected, and so is a level that the attachment does not
/// have.
pub fn decode_level(att: &AttachmentConfig, artifact: &Vec<u8>, k: u32) -> (r: Option<Raster>)
    requires
        att.valid(),
    ensures
        r.is_some() == (artifact@.len() == att.spec_artifact_size() && k < att.mip_level_count),
        r matches Some(level) ==> {
            &&& level.wf()
            &&& level.spec_width() == att.spec_mip_size(k as nat)
            &&& level.spec_height() == att.spec_mip_size(k as nat)
            &&& level@ == decoded(
                att.format,
                artifact@,
                att.spec_mip_offset(k as nat) as int,
                att.spec_mip_size(k as nat) as int,
                att.spec_mip_size(k as nat) as int,
            )
        },
{
    if k >= att.mip_level_count || artifact.len() != att.artifact_size() {
        return None;
    }
    let base = att.mip_offset(k);
    let size = att.mip_size(k) as usize;
    proof {
        lemma_offsets_grow(att, (k + 1) as nat, att.mip_level_count as nat);
        let s = size as int;
        assert(raster_bytes(att.format, s, s) == att.spec_mip_bytes(k as nat));
        assert(att.spec_mip_offset((k + 1) as nat) == att.spec_mip_offset(k as nat)
            + att.spec_mip_bytes(k as nat));
    }
    Some(decode_raster(att.format, artifact, base, size, size))
}

/// The mip levels stand one after the other: a later level begins no earlier
/// than an earlier one.
pub proof fn lemma_offsets_grow(att: &AttachmentConfig, j: nat, k: nat)
    requires
        j <= k,
    ensures
        att.spec_mip_offset(j) <= att.spec_mip_offset(k),
    decreases k,
{
    if j < k {
        lemma_offsets_grow(att, j, (k - 1) as nat);
    }
}

/// Position `i` of mip level `k` lies inside the border.
pub open spec fn in_center(att: &AttachmentConfig, k: nat, i: int) -> bool {
    att.spec_mip_border(k) <= i < att.spec_mip_size(k) - att.spec_mip_border(k)
}

/// Every pixel of `grid` is `p` or the missing-data pixel, and every pixel
/// inside the border of mip level `k` is `p`.
pub open spec fn constant_inside(
    att: &AttachmentConfig,
    grid: Seq<Seq<Pixel>>,
    k: nat,
    p: Pixel,
) -> bool {
    forall|i: int, j: int|
        0 <= i < att.spec_mip_size(k) && 0 <= j < att.spec_mip_size(k) ==> {
            &&& (#[trigger] grid[j][i] == p || grid[j][i] == nodata_pixel(att.format))
            &&& in_center(att, k, i) && in_center(att, k, j) ==> grid[j][i] == p
        }
}

/// The footprint of the node lies inside the tile grid of the source.
pub open spec fn covered(att: &AttachmentConfig, source: SourceView, node: NodeId) -> bool {
    &&& (node.x + 1) * att.spec_center_size() * pow2(node.lod as nat) <= source.cols
        * source.tile_size
    &&& (node.y + 1) * att.spec_center_size() * pow2(node.lod as nat) <= source.rows()
        * source.tile_size
}

/// The source positions of the pixels inside the border are those of the
/// node's footprint.
proof fn lemma_center_position(att: &AttachmentConfig, coord: u32, lod: u32, i: int, extent: int)
    requires
        att.valid(),
        in_center(att, 0, i),
        (coord + 1) * att.spec_center_size() * pow2(lod as nat) <= extent,
    ensures
        0 <= source_position(att, coord, lod, i) < extent,
{
    lemma_mip_size(*att, 0);
    lemma2_to64();
    lemma_pow2_pos(lod as nat);
    let c = att.spec_center_size() as int;
    let pad = att.spec_mip_border(0) as int;
    let s = pow2(lod as nat) as int;
    let x = coord as int;
    let v = x * c + i - pad;
    assert(att.spec_mip_size(0) == att.texture_size);
    assert(att.texture_size == 2 * pad + c);
    assert(0 <= v * s < (x + 1) * c * s) by (nonlinear_arith)
        requires
            v == x * c + i - pad,
            pad <= i < pad + c,
            x >= 0,
            c >= 0,
            s > 0,
    ;
}

/// The image of a node cut from a source that holds the pixel `p`
/// throughout has `p` everywhere inside the border, where the node's
/// footprint lies inside the tile grid, and nothing but `p` and the
/// missing-data pixel in the border.
pub proof fn lemma_constant_image(
    att: &AttachmentConfig,
    source: SourceView,
    node: NodeId,
    p: Pixel,
)
    requires
        att.valid(),
        source.wf(),
        source.format == att.format,
        source.constant(p),
        covered(att, source, node),
    ensures
        constant_inside(att, node_image(att, source, node), 0, p),
{
    let image = node_image(att, source, node);
    lemma_mip_size(*att, 0);
    lemma2_to64();
    assert forall|i: int, j: int|
        0 <= i < att.spec_mip_size(0) && 0 <= j < att.spec_mip_size(0) implies {
        &&& (#[trigger] image[j][i] == p || image[j][i] == nodata_pixel(att.format))
        &&& in_center(att, 0, i) && in_center(att, 0, j) ==> image[j][i] == p
    } by {
        let gx = source_position(att, node.x, node.lod, i);
        let gy = source_position(att, node.y, node.lod, j);
        crate::source::lemma_constant_source(source, p, gx, gy);
        if in_center(att, 0, i) && in_center(att, 0, j) {
            lemma_center_position(
                att,
                node.x,
                node.lod,
                i,
                (source.cols * source.tile_size) as int,
            );
            lemma_center_position(
                att,
                node.y,
                node.lod,
                j,
                (source.rows() * source.tile_size) as int,
            );
        }
    }
}

/// Halving keeps an image constant inside the border: where mip level 0 has
/// the pixel `p` everywhere inside the border and nothing but `p` and the
/// missing-data pixel in it, so has every mip level.
pub proof fn lemma_constant_mips(att: &AttachmentConfig, image: Seq<Seq<Pixel>>, p: Pixel, k: nat)
    requires
        att.valid(),
        k < att.mip_level_count,
        is_grid(image, att.texture_size as nat, att.texture_size as nat),
        p != nodata_pixel(att.format),
        constant_inside(att, image, 0, p),
    ensures
        constant_inside(att, mip_level(att, image, k), k, p),
    decreases k,
{
    if k > 0 {
        let j = (k - 1) as nat;
        lemma_constant_mips(att, image, p, j);
        lemma_mip_halves(att, j);
        lemma_mip_size(*att, j);
        lemma_mip_size(*att, k);
        lemma_pow2_unfold((att.mip_level_count - 1 - j) as nat);
        let prev = mip_level(att, image, j);
        let cur = mip_level(att, image, k);
        let sp = att.spec_mip_size(j);
        let sc = att.spec_mip_size(k);
        assert(sp == 2 * sc);
        assert(att.spec_mip_border(j) == 2 * att.spec_mip_border(k));
        assert forall|x: int, y: int| 0 <= x < sc && 0 <= y < sc implies {
            &&& (#[trigger] cur[y][x] == p || cur[y][x] == nodata_pixel(att.format))
            &&& in_center(att, k, x) && in_center(att, k, y) ==> cur[y][x] == p
        } by {
            let q = crate::raster::block_of(prev, sp, sp, x, y);
            let x1 = crate::raster::least(2 * x + 1, sp - 1);
            let y1 = crate::raster::least(2 * y + 1, sp - 1);
            assert(x1 == 2 * x + 1 && y1 == 2 * y + 1);
            assert(cur[y][x] == crate::raster::spec_merge(att.format, q));
            assert(prev[2 * y][2 * x] == p || prev[2 * y][2 * x] == nodata_pixel(att.format));
            assert(prev[2 * y][x1] == p || prev[2 * y][x1] == nodata_pixel(att.format));
            assert(prev[y1][2 * x] == p || prev[y1][2 * x] == nodata_pixel(att.format));
            assert(prev[y1][x1] == p || prev[y1][x1] == nodata_pixel(att.format));
            if exists|i: int| 0 <= i < q.len() && q[i] == p {
                crate::raster::lemma_merge_constant(att.format, q, p);
            } else {
                crate::raster::lemma_merge_nodata(att.format, q);
            }
            if in_center(att, k, x) && in_center(att, k, y) {
                assert(in_center(att, j, 2 * x) && in_center(att, j, 2 * y));
                assert(q[0] == p);
            }
        }
    }
}

/// A constant source survives preprocessing: every mip level decoded from
/// the artifact of a node whose footprint lies inside the tile grid has the
/// source's pixel everywhere inside the border, and nothing but that pixel
/// and the missing-data pixel in the border.
pub proof fn lemma_constant_round_trip(
    att: &AttachmentConfig,
    source: SourceView,
    node: NodeId,
    p: Pixel,
    bytes: Seq<u8>,
    k: nat,
)
    requires
        att.valid(),
        k < att.mip_level_count,
        source.wf(),
        source.format == att.format,
        source.constant(p),
        is_data(att.format, p),
        covered(att, source, node),
        is_artifact(att, bytes, node_image(att, source, node)),
    ensures
        constant_inside(
            att,
            decoded(
                att.format,
                bytes,
                att.spec_mip_offset(k) as int,
                att.spec_mip_size(k) as int,
                att.spec_mip_size(k) as int,
            ),
            k,
            p,
        ),
{
    let image = node_image(att, source, node);
    lemma_constant_image(att, source, node, p);
    lemma_mip_size(*att, 0);
    lemma2_to64();
    assert forall|x: int, y: int|
        0 <= y < image.len() && 0 <= x < image[y].len() implies pixel_fits(
        att.format,
        #[trigger] image[y][x],
    ) by {
        assert(image[y][x] == p || image[y][x] == nodata_pixel(att.format));
    }
    lemma_constant_mips(att, image, p, k);
    lemma_artifact_round_trip(att, bytes, image, k);
}

/// The nodes of level `lod` in a grid of `n` by `n`, row by row.
pub open spec fn level_nodes(lod: u32, n: nat) -> Seq<NodeId> {
    Seq::new(n * n, |k: int| NodeId { lod, x: (k % (n as int)) as u32, y: (k / (n as int)) as u32 })
}

/// A grid of nodes holds each of its nodes once, at the place that its
/// position gives, and no others.
pub proof fn lemma_level_nodes(lod: u32, n: nat, x: int, y: int)
    requires
        0 <= x < n <= u32::MAX,
        0 <= y < n,
    ensures
        0 <= y * n + x < n * n,
        level_nodes(lod, n)[y * n + x] == (NodeId { lod, x: x as u32, y: y as u32 }),
        level_nodes(lod, n).contains(NodeId { lod, x: x as u32, y: y as u32 }),
{
    let k = y * n + x;
    let d = n as int;
    assert(0 <= y * d + x < d * d) by (nonlinear_arith)
        requires
            0 <= x < d,
            0 <= y < d,
    ;
    vstd::arithmetic::div_mod::lemma_fundamental_div_mod_converse(k, d, y, x);
}

/// The nodes of a grid are pairwise different and lie in the grid.
pub proof fn lemma_level_nodes_distinct(lod: u32, n: nat)
    requires
        n <= u32::MAX,
    ensures
        level_nodes(lod, n).no_duplicates(),
        forall|k: int|
            0 <= k < level_nodes(lod, n).len() ==> {
                &&& (#[trigger] level_nodes(lod, n)[k]).lod == lod
                &&& level_nodes(lod, n)[k].x < n
                &&& level_nodes(lod, n)[k].y < n
            },
{
    let s = level_nodes(lod, n);
    let d = n as int;
    assert forall|k: int| 0 <= k < s.len() implies (#[trigger] s[k]).lod == lod && s[k].x < n
        && s[k].y < n by {
        lemma_cell(k, d);
    }
    assert forall|i: int, j: int| 0 <= i < s.len() && 0 <= j < s.len() && i != j implies s[i]
        != s[j] by {
        lemma_cell(i, d);
        lemma_cell(j, d);
        vstd::arithmetic::div_mod::lemma_fundamental_div_mod(i, d);
        vstd::arithmetic::div_mod::lemma_fundamental_div_mod(j, d);
    }
}

/// Position `k` of a grid of `d` by `d` lies in column `k % d` of row
/// `k / d`.
proof fn lemma_cell(k: int, d: int)
    requires
        0 <= d,
        0 <= k < d * d,
    ensures
        0 <= k % d < d,
        0 <= k / d < d,
{
    assert(d > 0) by (nonlinear_arith)
        requires
            0 <= d,
            0 <= k < d * d,
    ;
    vstd::arithmetic::div_mod::lemma_fundamental_div_mod(k, d);
    let q = k / d;
    let r = k % d;
    assert(0 <= r < d) by (nonlinear_arith)
        requires
            d > 0,
            r == k % d,
    ;
    assert(0 <= q < d) by (nonlinear_arith)
        requires
            k == d * q + r,
            0 <= r < d,
            0 <= k < d * d,
            d > 0,
    ;
}

/// The nodes of level `lod` in a grid of `n` by `n`, row by row.
pub fn list_level_nodes(lod: u32, n: u32) -> (nodes: Vec<NodeId>)
    ensures
        nodes@ == level_nodes(lod, n as nat),
{
    let mut nodes: Vec<NodeId> = Vec::new();
    let ghost d = n as nat;
    let mut y: u32 = 0;
    while y < n
        invariant
            d == n,
            y <= n,
            nodes@.len() == y * d,
            forall|k: int| 0 <= k < nodes@.len() ==> nodes@[k] == level_nodes(lod, d)[k],
        decreases n - y,
    {
        let mut x: u32 = 0;
        while x < n
            invariant
                d == n,
                y < n,
                x <= n,
                nodes@.len() == y * d + x,
                forall|k: int| 0 <= k < nodes@.len() ==> nodes@[k] == level_nodes(lod, d)[k],
            decreases n - x,
        {
            proof {
                lemma_level_nodes(lod, d, x as int, y as int);
            }
            nodes.push(NodeId { lod, x, y });
            x += 1;
        }
        proof {
            assert((y + 1) * d == y * d + d) by (nonlinear_arith);
        }
        y += 1;
    }
    proof {
        assert(nodes@.len() == d * d) by (nonlinear_arith)
            requires
                nodes@.len() == n * d,
                d == n,
        ;
        assert(nodes@ =~= level_nodes(lod, d));
    }
    nodes
}

/// One registered attachment: what its nodes look like and where its
/// source tiles are.
pub struct Pipeline {
    pub attachment: AttachmentConfig,
    pub tiles: TileConfig,
}

impl Pipeline {
    /// The first reason to reject this pipeline, if there is one.
    pub open spec fn error(&self) -> Option<ConfigError> {
        if self.attachment.error().is_some() {
            self.attachment.error()
        } else if self.tiles.size == 0 {
            Some(ConfigError::TileSize)
        } else if self.tiles.file_format.spec_pixel_format() != self.attachment.format {
            Some(ConfigError::TileFormat)
        } else {
            None
        }
    }

    /// Nothing speaks against the pipeline.
    pub open spec fn valid(&self) -> bool {
        self.error().is_none()
    }
}

/// The artifact of one node.
pub struct PreprocessedNode {
    pub node: NodeId,
    pub artifact: Vec<u8>,
}

/// Why an attachment could not be preprocessed.
#[derive(Clone, Copy, Debug, PartialEq, Eq, Structural)]
pub enum PreprocessError {
    /// No attachment is registered under this index.
    UnknownAttachment,
    /// The source does not have the tile size and the format that were
    /// registered for the attachment.
    SourceMismatch,
    /// The terrain does not have this level of detail.
    UnknownLevel,
}

/// The attachments to preprocess.
pub struct Preprocessor {
    pub pipelines: Vec<Pipeline>,
}

impl Default for Preprocessor {
    /// A preprocessor without attachments.
    fn default() -> (p: Preprocessor)
        ensures
            p.wf(),
            p.pipelines@.len() == 0,
    {
        Preprocessor { pipelines: Vec::new() }
    }
}

impl Preprocessor {
    /// Every registered pipeline is valid.
    pub open spec fn wf(&self) -> bool {
        forall|i: int| 0 <= i < self.pipelines@.len() ==> (#[trigger] self.pipelines@[i]).valid()
    }

    /// A preprocessor without attachments.
    pub fn new() -> (p: Preprocessor)
        ensures
            p.wf(),
            p.pipelines@.len() == 0,
    {
        Preprocessor { pipelines: Vec::new() }
    }

    /// The first reason to reject one of the first `n` pipelines, if there
    /// is one.
    pub open spec fn error(&self, n: nat) -> Option<ConfigError>
        decreases n,
    {
        if n == 0 {
            None
        } else if self.error((n - 1) as nat).is_some() {
            self.error((n - 1) as nat)
        } else {
            self.pipelines@[n - 1].error()
        }
    }

    /// Checks every registered pipeline again, as is needed after the list
    /// was changed by hand, and reports the first inconsistency.
    pub fn check(&self) -> (r: Result<(), ConfigError>)
        ensures
            r.is_ok() == self.wf(),
            r == match self.error(self.pipelines@.len()) {
                Some(e) => Err::<(), ConfigError>(e),
                None => Ok::<(), ConfigError>(()),
            },
    {
        let mut i: usize = 0;
        while i < self.pipelines.len()
            invariant
                i <= self.pipelines.len(),
                self.error(i as nat).is_none(),
                forall|j: int| 0 <= j < i ==> (#[trigger] self.pipelines@[j]).valid(),
            decreases self.pipelines.len() - i,
        {
            let pipeline = &self.pipelines[i];
            let found = match pipeline.attachment.check() {
                Err(e) => Some(e),
                Ok(()) => if pipeline.tiles.size == 0 {
                    Some(ConfigError::TileSize)
                } else if pipeline.tiles.file_format.pixel_format() != pipeline.attachment.format {
                    Some(ConfigError::TileFormat)
                } else {
                    None
                },
            };
            match found {
                Some(e) => {
                    proof {
                        assert(self.error((i + 1) as nat) == Some(e));
                        self.lemma_error_rest((i + 1) as nat, self.pipelines@.len());
                        assert(!self.pipelines@[i as int].valid());
                    }
                    return Err(e);
                },
                None => {},
            }
            i += 1;
        }
        Ok(())
    }

    /// The first rejection among the first `n` pipelines stays the first
    /// among more of them.
    pub proof fn lemma_error_rest(&self, n: nat, m: nat)
        requires
            n <= m,
            self.error(n).is_some(),
        ensures
            self.error(m) == self.error(n),
        decreases m,
    {
        if n < m {
            self.lemma_error_rest(n, (m - 1) as nat);
        }
    }

    /// Registers an attachment with the layout of its source tiles and
    /// returns its index. An attachment that is inconsistent in itself or
    /// with its tiles is rejected and nothing is registered.
    pub fn add_attachment(&mut self, attachment: AttachmentConfig, tiles: TileConfig) -> (r: Result<
        usize,
        ConfigError,
    >)
        requires
            old(self).wf(),
        ensures
            final(self).wf(),
            match r {
                Ok(i) => {
                    &&& (Pipeline { attachment, tiles }).valid()
                    &&& i == old(self).pipelines@.len()
                    &&& final(self).pipelines@ == old(self).pipelines@.push(
                        Pipeline { attachment, tiles },
                    )
                },
                Err(e) => {
                    &&& (Pipeline { attachment, tiles }).error() == Some(e)
                    &&& final(self).pipelines@ == old(self).pipelines@
                },
            },
    {
        match attachment.check() {
            Err(e) => {
                return Err(e);
            },
            Ok(()) => {},
        }
        if tiles.size == 0 {
            return Err(ConfigError::TileSize);
        }
        if tiles.file_format.pixel_format() != attachment.format {
            return Err(ConfigError::TileFormat);
        }
        let i = self.pipelines.len();
        self.pipelines.push(Pipeline { attachment, tiles });
        Ok(i)
    }

    /// What preprocessing a level reports, apart from the artifacts.
    pub open spec fn level_error(
        &self,
        index: usize,
        terrain: &TerrainConfig,
        source: SourceView,
        lod: u32,
    ) -> Option<PreprocessError> {
        if index >= self.pipelines@.len() {
            Some(PreprocessError::UnknownAttachment)
        } else if source.format != self.pipelines@[index as int].attachment.format
            || source.tile_size != self.pipelines@[index as int].tiles.size {
            Some(PreprocessError::SourceMismatch)
        } else if lod >= terrain.lod_count {
            Some(PreprocessError::UnknownLevel)
        } else {
            None
        }
    }

    /// Preprocesses the nodes of one level of an attachment: one artifact
    /// for every node of the level that it takes to cover the terrain, row
    /// by row.
    pub fn preprocess_level(
        &self,
        index: usize,
        terrain: &TerrainConfig,
        source: &TileGrid,
        lod: u32,
    ) -> (r: Result<Vec<PreprocessedNode>, PreprocessError>)
        requires
            self.wf(),
            terrain.valid(),
            source.wf(),
        ensures
            match r {
                Err(e) => self.level_error(index, terrain, source@, lod) == Some(e),
                Ok(nodes) => {
                    &&& self.level_error(index, terrain, source@, lod).is_none()
                    &&& is_level(
                        &self.pipelines@[index as int].attachment,
                        source@,
                        level_nodes(
                            lod,
                            nodes_per_side(terrain.terrain_size, terrain.leaf_node_size, lod as nat),
                        ),
                        nodes@,
                    )
                },
            },
    {
        if index >= self.pipelines.len() {
            return Err(PreprocessError::UnknownAttachment);
        }
        let att = &self.pipelines[index].attachment;
        if source.format() != att.format || source.tile_size() != self.pipelines[index].tiles.size {
            return Err(PreprocessError::SourceMismatch);
        }
        if lod >= terrain.lod_count {
            return Err(PreprocessError::UnknownLevel);
        }
        assert(self.pipelines@[index as int].valid());
        let n = terrain.nodes_per_side(lod);
        let nodes = list_level_nodes(lod, n);
        let mut out: Vec<PreprocessedNode> = Vec::new();
        let mut i: usize = 0;
        while i < nodes.len()
            invariant
                att.valid(),
                source.wf(),
                source@.format == att.format,
                lod < MAX_LOD_COUNT,
                nodes@ == level_nodes(lod, n as nat),
                i <= nodes.len(),
                out.len() == i,
                forall|k: int|
                    0 <= k < i ==> (#[trigger] out[k]).node == nodes[k] && is_artifact(
                        att,
                        out[k].artifact@,
                        node_image(att, source@, nodes[k]),
                    ),
            decreases nodes.len() - i,
        {
            let node = nodes[i];
            let artifact = preprocess_node(att, source, node);
            out.push(PreprocessedNode { node, artifact });
            i += 1;
        }
        Ok(out)
    }

    /// Preprocesses an attachment: every level of detail of the terrain,
    /// finest first, each as `preprocess_level` does it.
    pub fn preprocess(&self, index: usize, terrain: &TerrainConfig, source: &TileGrid) -> (r:
        Result<Vec<Vec<PreprocessedNode>>, PreprocessError>)
        requires
            self.wf(),
            terrain.valid(),
            source.wf(),
        ensures
            match r {
                Err(e) => self.level_error(index, terrain, source@, 0) == Some(e),
                Ok(levels) => {
                    &&& self.level_error(index, terrain, source@, 0).is_none()
                    &&& levels@.len() == terrain.lod_count
                    &&& forall|lod: int|
                        0 <= lod < levels@.len() ==> is_level(
                            &self.pipelines@[index as int].attachment,
                            source@,
                            level_nodes(
                                lod as u32,
                                nodes_per_side(
                                    terrain.terrain_size,
                                    terrain.leaf_node_size,
                                    lod as nat,
                                ),
                            ),
                            (#[trigger] levels@[lod])@,
                        )
                },
            },
    {
        let mut levels: Vec<Vec<PreprocessedNode>> = Vec::new();
        let mut lod: u32 = 0;
        while lod < terrain.lod_count
            invariant
                self.wf(),
                terrain.valid(),
                source.wf(),
                lod <= terrain.lod_count,
                levels@.len() == lod,
                lod > 0 ==> self.level_error(index, terrain, source@, 0).is_none(),
                forall|l: int|
                    0 <= l < lod ==> is_level(
                        &self.pipelines@[index as int].attachment,
                        source@,
                        level_nodes(
                            l as u32,
                            nodes_per_side(terrain.terrain_size, terrain.leaf_node_size, l as nat),
                        ),
                        (#[trigger] levels@[l])@,
                    ),
            decreases terrain.lod_count - lod,
        {
            match self.preprocess_level(index, terrain, source, lod) {
                Err(e) => {
                    return Err(e);
                },
                Ok(nodes) => {
                    levels.push(nodes);
                },
            }
            lod += 1;
        }
        Ok(levels)
    }
}

/// `out` holds the artifacts of the nodes `nodes`, in their order.
pub open spec fn is_level(
    att: &AttachmentConfig,
    source: SourceView,
    nodes: Seq<NodeId>,
    out: Seq<PreprocessedNode>,
) -> bool {
    &&& out.len() == nodes.len()
    &&& forall|k: int|
        0 <= k < out.len() ==> (#[trigger] out[k]).node == nodes[k] && is_artifact(
            att,
            out[k].artifact@,
            node_image(att, source, nodes[k]),
        )
}

} // verus!
