//! Terrain, attachment and view configuration, and the checks that reject an
//! inconsistent one before any traversal or load can happen.

use vstd::prelude::*;
use vstd::arithmetic::power2::{lemma2_to64, lemma_pow2_pos, lemma_pow2_strictly_increases, pow2};
use vstd::bits::{lemma_u32_mul_pow2_le_max_iff_max_shr, lemma_u32_shl_is_mul, lemma_u32_shr_is_div};
use crate::node::NodeId;

verus! {

/// The largest number of levels of detail of a terrain.
pub const MAX_LOD_COUNT: u32 = 32;

/// The largest number of mip levels of an attachment.
pub const MAX_MIP_LEVEL_COUNT: u32 = 12;

/// The largest side length of a node texture, in pixels.
pub const MAX_TEXTURE_SIZE: u32 = 8192;

/// Why a configuration was rejected.
#[derive(Clone, Copy, Debug, PartialEq, Eq, Structural)]
pub enum ConfigError {
    /// The number of levels of detail is zero or above `MAX_LOD_COUNT`, or
    /// the root node's side length does not fit in 32 bits.
    LodCount,
    /// The side length of a leaf node is zero.
    LeafNodeSize,
    /// The terrain is empty or larger than the root node.
    TerrainSize,
    /// The node atlas has no slot.
    AtlasSize,
    /// The number of mip levels is zero or above `MAX_MIP_LEVEL_COUNT`.
    MipLevelCount,
    /// The texture is larger than `MAX_TEXTURE_SIZE`, or its side length is
    /// no multiple of the border, so that some mip level would have a
    /// fractional size.
    TextureSize,
    /// The border takes half of the texture or more.
    BorderTooLarge,
    /// The source tiles have no extent.
    TileSize,
    /// The source tiles do not hold pixels of the attachment's format.
    TileFormat,
}

/// The pixel format of an attachment.
#[derive(Clone, Copy, Debug, PartialEq, Eq, Structural)]
pub enum AttachmentFormat {
    /// One channel of 16 bits, as used for elevation.
    R16,
    /// Three channels of 8 bits, as used for imagery.
    Rgb8,
}

impl AttachmentFormat {
    /// The number of samples per pixel.
    pub open spec fn spec_channels(self) -> nat {
        match self {
            AttachmentFormat::R16 => 1,
            AttachmentFormat::Rgb8 => 3,
        }
    }

    /// The number of bytes that store one sample.
    pub open spec fn spec_sample_bytes(self) -> nat {
        match self {
            AttachmentFormat::R16 => 2,
            AttachmentFormat::Rgb8 => 1,
        }
    }

    /// The number of bytes that store one pixel.
    pub open spec fn spec_pixel_bytes(self) -> nat {
        self.spec_channels() * self.spec_sample_bytes()
    }

    /// The largest value of a sample.
    pub open spec fn spec_max_sample(self) -> nat {
        match self {
            AttachmentFormat::R16 => 65535,
            AttachmentFormat::Rgb8 => 255,
        }
    }

    /// The sample that marks channel `channel` of a pixel without data: zero
    /// for elevation, magenta for imagery.
    pub open spec fn spec_nodata(self, channel: nat) -> u16 {
        match self {
            AttachmentFormat::R16 => 0,
            AttachmentFormat::Rgb8 => if channel == 1 {
                0
            } else {
                255
            },
        }
    }

    /// The number of samples per pixel.
    pub fn channels(&self) -> (c: usize)
        ensures
            c == self.spec_channels(),
    {
        match self {
            AttachmentFormat::R16 => 1,
            AttachmentFormat::Rgb8 => 3,
        }
    }

    /// The number of bytes that store one sample.
    pub fn sample_bytes(&self) -> (b: usize)
        ensures
            b == self.spec_sample_bytes(),
    {
        match self {
            AttachmentFormat::R16 => 2,
            AttachmentFormat::Rgb8 => 1,
        }
    }

    /// The number of bytes that store one pixel.
    pub fn pixel_bytes(&self) -> (b: usize)
        ensures
            b == self.spec_pixel_bytes(),
    {
        match self {
            AttachmentFormat::R16 => 2,
            AttachmentFormat::Rgb8 => 3,
        }
    }

    /// The largest value of a sample.
    pub fn max_sample(&self) -> (s: u16)
        ensures
            s == self.spec_max_sample(),
    {
        match self {
            AttachmentFormat::R16 => 65535,
            AttachmentFormat::Rgb8 => 255,
        }
    }

    /// The sample that marks the given channel of a pixel without data.
    pub fn nodata(&self, channel: usize) -> (s: u16)
        ensures
            s == self.spec_nodata(channel as nat),
            s <= self.spec_max_sample(),
    {
        match self {
            AttachmentFormat::R16 => 0,
            AttachmentFormat::Rgb8 => if channel == 1 {
                0
            } else {
                255
            },
        }
    }
}

/// One data channel of a terrain: the geometry and format of its node
/// textures.
///
/// A node texture is a square of `texture_size` pixels a side with
/// `mip_level_count` mip levels. Its border is `2^mip_level_count` pixels
/// wide in total, half of it on each side, so that the coarsest mip level
/// still has a border of one pixel a side.
pub struct AttachmentConfig {
    pub name: String,
    pub texture_size: u32,
    pub mip_level_count: u32,
    pub format: AttachmentFormat,
}

impl AttachmentConfig {
    /// The total width of the border in pixels of mip level 0.
    pub open spec fn spec_border_size(&self) -> nat {
        pow2(self.mip_level_count as nat)
    }

    /// The first reason to reject this attachment, if there is one.
    pub open spec fn error(&self) -> Option<ConfigError> {
        if self.mip_level_count == 0 || self.mip_level_count > MAX_MIP_LEVEL_COUNT {
            Some(ConfigError::MipLevelCount)
        } else if self.texture_size > MAX_TEXTURE_SIZE {
            Some(ConfigError::TextureSize)
        } else if 2 * self.spec_border_size() >= self.texture_size {
            Some(ConfigError::BorderTooLarge)
        } else if self.texture_size as nat % self.spec_border_size() != 0 {
            Some(ConfigError::TextureSize)
        } else {
            None
        }
    }

    /// Nothing speaks against the attachment.
    pub open spec fn valid(&self) -> bool {
        self.error().is_none()
    }

    /// The side length of the part of the texture inside the border.
    pub open spec fn spec_center_size(&self) -> nat {
        (self.texture_size - self.spec_border_size()) as nat
    }

    /// The side length of mip level `k`.
    pub open spec fn spec_mip_size(&self, k: nat) -> nat {
        self.texture_size as nat / pow2(k)
    }

    /// The width of the border on each side of mip level `k`.
    pub open spec fn spec_mip_border(&self, k: nat) -> nat {
        pow2((self.mip_level_count - 1 - k) as nat)
    }

    /// The number of bytes of mip level `k`.
    pub open spec fn spec_mip_bytes(&self, k: nat) -> nat {
        self.spec_mip_size(k) * self.spec_mip_size(k) * self.format.spec_pixel_bytes()
    }

    /// The offset of mip level `k` in a node artifact: the levels are stored
    /// one after the other, finest first.
    pub open spec fn spec_mip_offset(&self, k: nat) -> nat
        decreases k,
    {
        if k == 0 {
            0
        } else {
            self.spec_mip_offset((k - 1) as nat) + self.spec_mip_bytes((k - 1) as nat)
        }
    }

    /// The number of bytes of a node artifact.
    pub open spec fn spec_artifact_size(&self) -> nat {
        self.spec_mip_offset(self.mip_level_count as nat)
    }

    /// An attachment of the given geometry; `check` tells whether it is
    /// consistent.
    pub fn new(name: String, texture_size: u32, mip_level_count: u32, format: AttachmentFormat) -> (a:
        AttachmentConfig)
        ensures
            a == (AttachmentConfig { name, texture_size, mip_level_count, format }),
    {
        AttachmentConfig { name, texture_size, mip_level_count, format }
    }

    /// Checks the attachment and reports the first inconsistency.
    pub fn check(&self) -> (r: Result<(), ConfigError>)
        ensures
            r == match self.error() {
                Some(e) => Err::<(), ConfigError>(e),
                None => Ok::<(), ConfigError>(()),
            },
    {
        if self.mip_level_count == 0 || self.mip_level_count > MAX_MIP_LEVEL_COUNT {
            return Err(ConfigError::MipLevelCount);
        }
        if self.texture_size > MAX_TEXTURE_SIZE {
            return Err(ConfigError::TextureSize);
        }
        proof {
            lemma_border_bound(self.mip_level_count);
            lemma_u32_shl_is_mul(1, self.mip_level_count);
        }
        let border: u32 = 1u32 << self.mip_level_count;
        if 2 * border >= self.texture_size {
            return Err(ConfigError::BorderTooLarge);
        }
        if self.texture_size % border != 0 {
            return Err(ConfigError::TextureSize);
        }
        Ok(())
    }

    /// The total width of the border in pixels of mip level 0.
    pub fn border_size(&self) -> (b: u32)
        requires
            self.valid(),
        ensures
            b == self.spec_border_size(),
            0 < 2 * b < self.texture_size,
    {
        proof {
            lemma_border_bound(self.mip_level_count);
            lemma_u32_shl_is_mul(1, self.mip_level_count);
        }
        1u32 << self.mip_level_count
    }

    /// The side length of the part of the texture inside the border.
    pub fn center_size(&self) -> (c: u32)
        requires
            self.valid(),
        ensures
            c == self.spec_center_size(),
            c > 0,
    {
        let b = self.border_size();
        self.texture_size - b
    }

    /// The side length of mip level `k`.
    pub fn mip_size(&self, k: u32) -> (s: u32)
        requires
            self.valid(),
            k < self.mip_level_count,
        ensures
            s == self.spec_mip_size(k as nat),
            0 < s <= self.texture_size,
    {
        proof {
            lemma_u32_shr_is_div(self.texture_size, k);
            lemma_mip_size(*self, k as nat);
        }
        self.texture_size >> k
    }

    /// The width of the border on each side of mip level `k`.
    pub fn mip_border(&self, k: u32) -> (b: u32)
        requires
            self.valid(),
            k < self.mip_level_count,
        ensures
            b == self.spec_mip_border(k as nat),
            b > 0,
    {
        let e: u32 = self.mip_level_count - 1 - k;
        proof {
            lemma_border_bound(e);
            lemma_u32_shl_is_mul(1, e);
        }
        1u32 << e
    }

    /// The number of bytes of mip level `k`.
    pub fn mip_bytes(&self, k: u32) -> (b: usize)
        requires
            self.valid(),
            k < self.mip_level_count,
        ensures
            b == self.spec_mip_bytes(k as nat),
            b <= 201326592,
    {
        let s: u64 = self.mip_size(k) as u64;
        let p: u64 = self.format.pixel_bytes() as u64;
        assert(s * s <= 8192 * 8192) by (nonlinear_arith)
            requires
                0 <= s <= 8192,
        ;
        assert(s * s * p <= 201326592) by (nonlinear_arith)
            requires
                0 <= s * s <= 67108864,
                0 <= p <= 3,
        ;
        (s * s * p) as usize
    }

    /// The offset of mip level `k` in a node artifact; with `k` the number of
    /// levels, the size of the artifact.
    pub fn mip_offset(&self, k: u32) -> (o: usize)
        requires
            self.valid(),
            k <= self.mip_level_count,
        ensures
            o == self.spec_mip_offset(k as nat),
            o <= k * 201326592,
    {
        let mut o: usize = 0;
        let mut j: u32 = 0;
        while j < k
            invariant
                self.valid(),
                j <= k <= self.mip_level_count,
                o == self.spec_mip_offset(j as nat),
                o <= j * 201326592,
            decreases k - j,
        {
            let b = self.mip_bytes(j);
            o = o + b;
            j = j + 1;
        }
        o
    }

    /// The number of bytes of a node artifact.
    pub fn artifact_size(&self) -> (s: usize)
        requires
            self.valid(),
        ensures
            s == self.spec_artifact_size(),
    {
        self.mip_offset(self.mip_level_count)
    }
}

/// Powers of two up to the twelfth fit comfortably in 32 bits.
pub proof fn lemma_border_bound(m: u32)
    requires
        m <= MAX_MIP_LEVEL_COUNT,
    ensures
        0 < pow2(m as nat) <= 4096,
        1 * pow2(m as nat) <= u32::MAX,
{
    lemma2_to64();
    lemma_pow2_pos(m as nat);
    if m < 12 {
        lemma_pow2_strictly_increases(m as nat, 12);
    }
}

/// Every mip level of a valid attachment has a positive size, and the
/// texture size is that size times `2^k`.
pub proof fn lemma_mip_size(a: AttachmentConfig, k: nat)
    requires
        a.valid(),
        k < a.mip_level_count,
    ensures
        0 < a.spec_mip_size(k) <= a.texture_size,
        a.spec_mip_size(k) * pow2(k) == a.texture_size,
        a.spec_mip_size(k) == 2 * a.spec_mip_border(k) + a.spec_center_size() / pow2(k),
        a.spec_center_size() % pow2(k) == 0,
        a.spec_border_size() == 2 * a.spec_mip_border(k) * pow2(k),
{
    let m = a.mip_level_count as nat;
    let t = a.texture_size as int;
    let b = pow2(m) as int;
    let p = pow2(k) as int;
    let r = pow2((m - 1 - k) as nat) as int;
    lemma_border_bound(a.mip_level_count);
    lemma_pow2_pos(k);
    lemma_pow2_pos((m - 1 - k) as nat);
    vstd::arithmetic::power2::lemma_pow2_adds(k, (m - 1 - k) as nat);
    vstd::arithmetic::power2::lemma_pow2_unfold(m);
    assert(pow2((m - 1) as nat) == p * r) by (nonlinear_arith)
        requires
            pow2(k + (m - 1 - k) as nat) == pow2(k) * pow2((m - 1 - k) as nat),
            p == pow2(k),
            r == pow2((m - 1 - k) as nat),
            k + (m - 1 - k) as nat == (m - 1) as nat,
    ;
    assert(b == 2 * r * p) by (nonlinear_arith)
        requires
            b == 2 * pow2((m - 1) as nat),
            pow2((m - 1) as nat) == p * r,
    ;
    // t is a multiple of b, hence of p.
    let q = t / b;
    vstd::arithmetic::div_mod::lemma_fundamental_div_mod(t, b);
    assert(t == b * q);
    assert(t == p * (2 * r * q)) by (nonlinear_arith)
        requires
            t == b * q,
            b == 2 * r * p,
    ;
    vstd::arithmetic::div_mod::lemma_div_multiples_vanish(2 * r * q, p);
    assert((p * (2 * r * q)) / p == 2 * r * q) by (nonlinear_arith)
        requires
            ((2 * r * q) * p) / p == 2 * r * q,
    ;
    assert(a.spec_mip_size(k) == 2 * r * q);
    assert(q >= 3) by (nonlinear_arith)
        requires
            t == b * q,
            2 * b < t,
            b > 0,
    ;
    assert(2 * r * q > 0 && 2 * r * q * p == t && 2 * r * q <= t) by (nonlinear_arith)
        requires
            q >= 3,
            r > 0,
            p > 0,
            t == p * (2 * r * q),
    ;
    // The center is t - b = p * (2 * r * (q - 1)).
    let c = t - b;
    assert(c == p * (2 * r * (q - 1))) by (nonlinear_arith)
        requires
            c == t - b,
            t == p * (2 * r * q),
            b == 2 * r * p,
    ;
    vstd::arithmetic::div_mod::lemma_div_multiples_vanish(2 * r * (q - 1), p);
    vstd::arithmetic::div_mod::lemma_mod_multiples_basic(2 * r * (q - 1), p);
    assert((p * (2 * r * (q - 1))) / p == 2 * r * (q - 1) && (p * (2 * r * (q - 1))) % p == 0)
        by (nonlinear_arith)
        requires
            ((2 * r * (q - 1)) * p) / p == 2 * r * (q - 1),
            ((2 * r * (q - 1)) * p) % p == 0,
    ;
    assert(2 * r * q == 2 * r + 2 * r * (q - 1)) by (nonlinear_arith);
}

/// The tunables of one viewer.
#[derive(Clone, Copy, Debug, PartialEq, Eq, Structural)]
pub struct TerrainViewConfig {
    /// The distance, in world units, below which a node of level 0 would be
    /// refined; a node of level `l` is refined below `2^l` times this
    /// distance.
    pub view_distance: u32,
    /// The largest number of refinements between the root and a selected
    /// node. A cap of 0 keeps the root; a cap of `lod_count - 1` or more
    /// lets the selection reach level 0. A view that instead counts the
    /// refinements it allows beyond those that lead to level 0 gets its cap
    /// from `refinement_cap_for`.
    pub refinement_cap: u32,
    /// How far the viewer has to move, in world units, before the quadtree
    /// is traversed again.
    pub hysteresis: u32,
    /// The number of cells along one side of the mesh that draws a node. No
    /// rule of the selection reads it; it is kept here for the consumer of
    /// the selection.
    pub grid_size: u32,
}

impl Default for TerrainViewConfig {
    /// A view that refines a node of level `l` below a distance of
    /// `4 * 2^l` world units, as deep as the quadtree goes, traverses again
    /// after any movement, and draws a node with 8 by 8 cells.
    fn default() -> (c: TerrainViewConfig)
        ensures
            c == (TerrainViewConfig {
                view_distance: 4,
                refinement_cap: MAX_LOD_COUNT,
                hysteresis: 0,
                grid_size: 8,
            }),
    {
        TerrainViewConfig {
            view_distance: 4,
            refinement_cap: MAX_LOD_COUNT,
            hysteresis: 0,
            grid_size: 8,
        }
    }
}

/// The refinement cap that allows `additional_refinement` refinements
/// beyond the `lod_count - 1` that lead from the root to level 0.
pub open spec fn spec_refinement_cap_for(lod_count: u32, additional_refinement: u32) -> int {
    let depth = if lod_count > 0 {
        lod_count - 1
    } else {
        0
    };
    if depth + additional_refinement <= u32::MAX {
        depth + additional_refinement
    } else {
        u32::MAX as int
    }
}

/// The refinement cap of a view that counts its refinements from the depth
/// of the quadtree. Level 0 is never refined, so with such a cap the levels
/// alone bound the selection, whatever `additional_refinement` is; the
/// refinements beyond level 0 are left to the consumer, who may subdivide
/// what it draws.
pub fn refinement_cap_for(lod_count: u32, additional_refinement: u32) -> (cap: u32)
    ensures
        cap == spec_refinement_cap_for(lod_count, additional_refinement),
        lod_count > 0 ==> cap >= lod_count - 1,
{
    let depth: u32 = if lod_count > 0 {
        lod_count - 1
    } else {
        0
    };
    if additional_refinement <= u32::MAX - depth {
        depth + additional_refinement
    } else {
        u32::MAX
    }
}

/// The constants of one terrain.
pub struct TerrainConfig {
    /// The number of levels of detail; the root node has level
    /// `lod_count - 1`.
    pub lod_count: u32,
    /// The side length of a node of level 0, in world units.
    pub leaf_node_size: u32,
    /// The side length of the terrain, in world units.
    pub terrain_size: u32,
    /// The number of slots of each node atlas.
    pub node_atlas_size: usize,
    /// Where the preprocessed nodes of the terrain are stored.
    pub path: String,
    pub attachments: Vec<AttachmentConfig>,
}

/// The side length of a node of level `lod`, in world units.
pub open spec fn node_size(leaf_node_size: u32, lod: nat) -> nat {
    (leaf_node_size * pow2(lod)) as nat
}

/// The first reason to reject these terrain constants, if there is one.
pub open spec fn terrain_error(
    terrain_size: u32,
    lod_count: u32,
    leaf_node_size: u32,
    node_atlas_size: usize,
) -> Option<ConfigError> {
    if leaf_node_size == 0 {
        Some(ConfigError::LeafNodeSize)
    } else if lod_count == 0 || lod_count > MAX_LOD_COUNT || node_size(
        leaf_node_size,
        (lod_count - 1) as nat,
    ) > u32::MAX {
        Some(ConfigError::LodCount)
    } else if terrain_size == 0 || terrain_size > node_size(
        leaf_node_size,
        (lod_count - 1) as nat,
    ) {
        Some(ConfigError::TerrainSize)
    } else if node_atlas_size == 0 {
        Some(ConfigError::AtlasSize)
    } else {
        None
    }
}

/// Checks terrain constants and reports the first inconsistency.
pub fn check_terrain(
    terrain_size: u32,
    lod_count: u32,
    leaf_node_size: u32,
    node_atlas_size: usize,
) -> (r: Result<(), ConfigError>)
    ensures
        r == match terrain_error(terrain_size, lod_count, leaf_node_size, node_atlas_size) {
            Some(e) => Err::<(), ConfigError>(e),
            None => Ok::<(), ConfigError>(()),
        },
{
    if leaf_node_size == 0 {
        return Err(ConfigError::LeafNodeSize);
    }
    if lod_count == 0 || lod_count > MAX_LOD_COUNT {
        return Err(ConfigError::LodCount);
    }
    let shift: u32 = lod_count - 1;
    proof {
        lemma_u32_mul_pow2_le_max_iff_max_shr(leaf_node_size, shift, u32::MAX);
    }
    if leaf_node_size > (u32::MAX >> shift) {
        return Err(ConfigError::LodCount);
    }
    proof {
        lemma_u32_shl_is_mul(leaf_node_size, shift);
    }
    let root_size: u32 = leaf_node_size << shift;
    if terrain_size == 0 || terrain_size > root_size {
        return Err(ConfigError::TerrainSize);
    }
    if node_atlas_size == 0 {
        return Err(ConfigError::AtlasSize);
    }
    Ok(())
}

/// The first reason to reject one of the first `n` attachments, if there is
/// one.
pub open spec fn attachments_error(attachments: Seq<AttachmentConfig>, n: nat) -> Option<
    ConfigError,
>
    decreases n,
{
    if n == 0 {
        None
    } else if attachments_error(attachments, (n - 1) as nat).is_some() {
        attachments_error(attachments, (n - 1) as nat)
    } else {
        attachments[n - 1].error()
    }
}

/// No attachment is rejected exactly if every attachment is valid.
pub proof fn lemma_attachments_error(attachments: Seq<AttachmentConfig>, n: nat)
    requires
        n <= attachments.len(),
    ensures
        attachments_error(attachments, n).is_none() <==> forall|i: int|
            0 <= i < n ==> (#[trigger] attachments[i]).valid(),
    decreases n,
{
    if n > 0 {
        lemma_attachments_error(attachments, (n - 1) as nat);
        if attachments_error(attachments, n).is_none() {
            assert forall|i: int| 0 <= i < n implies (#[trigger] attachments[i]).valid() by {
                if i == n - 1 {
                    assert(attachments[n - 1].error().is_none());
                }
            }
        } else if attachments_error(attachments, (n - 1) as nat).is_none() {
            assert(!attachments[n - 1].valid());
        }
    }
}

/// The first rejection among the first `n` attachments stays the first
/// among more of them.
pub proof fn lemma_attachments_rest(attachments: Seq<AttachmentConfig>, n: nat, m: nat)
    requires
        n <= m,
        attachments_error(attachments, n).is_some(),
    ensures
        attachments_error(attachments, m) == attachments_error(attachments, n),
    decreases m,
{
    if n < m {
        lemma_attachments_rest(attachments, n, (m - 1) as nat);
    }
}

impl TerrainConfig {
    /// The first reason to reject this configuration, if there is one: that
    /// of the terrain constants, else that of the first attachment that is
    /// rejected.
    pub open spec fn error(&self) -> Option<ConfigError> {
        if terrain_error(
            self.terrain_size,
            self.lod_count,
            self.leaf_node_size,
            self.node_atlas_size,
        ).is_some() {
            terrain_error(
                self.terrain_size,
                self.lod_count,
                self.leaf_node_size,
                self.node_atlas_size,
            )
        } else {
            attachments_error(self.attachments@, self.attachments@.len())
        }
    }

    /// The terrain constants are consistent and so is every attachment.
    pub open spec fn valid(&self) -> bool {
        &&& terrain_error(
            self.terrain_size,
            self.lod_count,
            self.leaf_node_size,
            self.node_atlas_size,
        ).is_none()
        &&& forall|i: int|
            0 <= i < self.attachments@.len() ==> (#[trigger] self.attachments@[i]).valid()
    }

    /// The root of the quadtree.
    pub open spec fn spec_root(&self) -> NodeId {
        NodeId { lod: (self.lod_count - 1) as u32, x: 0, y: 0 }
    }

    /// A terrain without attachments, or the reason why the constants are
    /// rejected.
    pub fn new(
        terrain_size: u32,
        lod_count: u32,
        leaf_node_size: u32,
        node_atlas_size: usize,
        path: String,
    ) -> (r: Result<TerrainConfig, ConfigError>)
        ensures
            match r {
                Ok(config) => {
                    &&& terrain_error(
                        terrain_size,
                        lod_count,
                        leaf_node_size,
                        node_atlas_size,
                    ).is_none()
                    &&& config.valid()
                    &&& config.terrain_size == terrain_size
                    &&& config.lod_count == lod_count
                    &&& config.leaf_node_size == leaf_node_size
                    &&& config.node_atlas_size == node_atlas_size
                    &&& config.path == path
                    &&& config.attachments@.len() == 0
                },
                Err(e) => terrain_error(terrain_size, lod_count, leaf_node_size, node_atlas_size)
                    == Some(e),
            },
    {
        match check_terrain(terrain_size, lod_count, leaf_node_size, node_atlas_size) {
            Err(e) => Err(e),
            Ok(()) => Ok(
                TerrainConfig {
                    lod_count,
                    leaf_node_size,
                    terrain_size,
                    node_atlas_size,
                    path,
                    attachments: Vec::new(),
                },
            ),
        }
    }

    /// Checks the whole configuration again, as is needed after a field was
    /// changed by hand, and reports the first inconsistency.
    pub fn check(&self) -> (r: Result<(), ConfigError>)
        ensures
            r.is_ok() == self.valid(),
            r == match self.error() {
                Some(e) => Err::<(), ConfigError>(e),
                None => Ok::<(), ConfigError>(()),
            },
    {
        match check_terrain(
            self.terrain_size,
            self.lod_count,
            self.leaf_node_size,
            self.node_atlas_size,
        ) {
            Err(e) => {
                return Err(e);
            },
            Ok(()) => {},
        }
        let mut i: usize = 0;
        while i < self.attachments.len()
            invariant
                i <= self.attachments.len(),
                terrain_error(
                    self.terrain_size,
                    self.lod_count,
                    self.leaf_node_size,
                    self.node_atlas_size,
                ).is_none(),
                attachments_error(self.attachments@, i as nat).is_none(),
            decreases self.attachments.len() - i,
        {
            match self.attachments[i].check() {
                Err(e) => {
                    proof {
                        assert(attachments_error(self.attachments@, (i + 1) as nat) == Some(e));
                        lemma_attachments_rest(
                            self.attachments@,
                            (i + 1) as nat,
                            self.attachments@.len(),
                        );
                        lemma_attachments_error(self.attachments@, self.attachments@.len());
                        assert(!self.attachments@[i as int].valid());
                    }
                    return Err(e);
                },
                Ok(()) => {},
            }
            i += 1;
        }
        proof {
            lemma_attachments_error(self.attachments@, self.attachments@.len());
        }
        Ok(())
    }

    /// Adds an attachment to the terrain and returns its index. An
    /// inconsistent attachment is rejected and the terrain stays as it was.
    pub fn add_attachment(&mut self, attachment: AttachmentConfig) -> (r: Result<
        usize,
        ConfigError,
    >)
        requires
            old(self).valid(),
        ensures
            final(self).valid(),
            final(self).lod_count == old(self).lod_count,
            final(self).leaf_node_size == old(self).leaf_node_size,
            final(self).terrain_size == old(self).terrain_size,
            final(self).node_atlas_size == old(self).node_atlas_size,
            final(self).path == old(self).path,
            match r {
                Ok(i) => {
                    &&& attachment.valid()
                    &&& i == old(self).attachments@.len()
                    &&& final(self).attachments@ == old(self).attachments@.push(attachment)
                },
                Err(e) => {
                    &&& attachment.error() == Some(e)
                    &&& final(self).attachments@ == old(self).attachments@
                },
            },
    {
        match attachment.check() {
            Err(e) => Err(e),
            Ok(()) => {
                let i = self.attachments.len();
                self.attachments.push(attachment);
                Ok(i)
            },
        }
    }

    /// The root of the quadtree.
    pub fn root(&self) -> (n: NodeId)
        requires
            self.valid(),
        ensures
            n == self.spec_root(),
    {
        NodeId { lod: self.lod_count - 1, x: 0, y: 0 }
    }

    /// The number of nodes of level `lod` along one side of the terrain.
    pub fn nodes_per_side(&self, lod: u32) -> (n: u32)
        requires
            self.valid(),
            lod < self.lod_count,
        ensures
            n == nodes_per_side(self.terrain_size, self.leaf_node_size, lod as nat),
            n >= 1,
    {
        let size: u64 = self.node_size(lod) as u64;
        let n: u64 = (self.terrain_size as u64 + size - 1) / size;
        proof {
            let t = self.terrain_size as int;
            let s = size as int;
            assert(1 <= (t + s - 1) / s <= t) by (nonlinear_arith)
                requires
                    t >= 1,
                    s >= 1,
            ;
        }
        n as u32
    }

    /// The side length of a node of level `lod`, in world units.
    pub fn node_size(&self, lod: u32) -> (s: u32)
        requires
            self.valid(),
            lod < self.lod_count,
        ensures
            s == node_size(self.leaf_node_size, lod as nat),
            s > 0,
    {
        proof {
            lemma_node_size(self.leaf_node_size, lod as nat, (self.lod_count - 1) as nat);
            lemma_u32_shl_is_mul(self.leaf_node_size, lod);
        }
        self.leaf_node_size << lod
    }
}

/// The number of nodes of level `lod` along one side of the terrain: as many
/// as it takes to cover it.
pub open spec fn nodes_per_side(terrain_size: u32, leaf_node_size: u32, lod: nat) -> nat {
    ((terrain_size + node_size(leaf_node_size, lod) - 1) / (node_size(leaf_node_size, lod) as int))
        as nat
}

/// The side length of a node grows with its level.
pub proof fn lemma_node_size(leaf_node_size: u32, lod: nat, top: nat)
    requires
        lod <= top,
        leaf_node_size > 0,
    ensures
        0 < node_size(leaf_node_size, lod) <= node_size(leaf_node_size, top),
{
    lemma_pow2_pos(lod);
    if lod < top {
        lemma_pow2_strictly_increases(lod, top);
    }
    let l = leaf_node_size as int;
    let a = pow2(lod) as int;
    let b = pow2(top) as int;
    assert(0 < l * a <= l * b) by (nonlinear_arith)
        requires
            0 < a <= b,
            l > 0,
    ;
}

} // verus!
