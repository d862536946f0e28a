use terrain_streaming::config::{
    check_terrain, refinement_cap_for, AttachmentConfig, AttachmentFormat, ConfigError, TerrainConfig,
    MAX_LOD_COUNT, MAX_MIP_LEVEL_COUNT, MAX_TEXTURE_SIZE,
};
use terrain_streaming::node::NodeId;

fn attachment(texture_size: u32, mip_level_count: u32, format: AttachmentFormat) -> AttachmentConfig {
    AttachmentConfig::new(String::from("a"), texture_size, mip_level_count, format)
}

#[test]
fn formats_have_their_layout() {
    assert_eq!(AttachmentFormat::R16.channels(), 1);
    assert_eq!(AttachmentFormat::R16.sample_bytes(), 2);
    assert_eq!(AttachmentFormat::R16.pixel_bytes(), 2);
    assert_eq!(AttachmentFormat::R16.max_sample(), 65535);
    assert_eq!(AttachmentFormat::Rgb8.channels(), 3);
    assert_eq!(AttachmentFormat::Rgb8.sample_bytes(), 1);
    assert_eq!(AttachmentFormat::Rgb8.pixel_bytes(), 3);
    assert_eq!(AttachmentFormat::Rgb8.max_sample(), 255);
    assert_eq!(AttachmentFormat::R16.nodata(0), 0);
    assert_eq!(AttachmentFormat::Rgb8.nodata(0), 255);
    assert_eq!(AttachmentFormat::Rgb8.nodata(1), 0);
    assert_eq!(AttachmentFormat::Rgb8.nodata(2), 255);
}

#[test]
fn attachment_geometry_follows_from_the_mip_count() {
    let a = attachment(512, 4, AttachmentFormat::R16);
    assert_eq!(a.check(), Ok(()));
    assert_eq!(a.border_size(), 16);
    assert_eq!(a.center_size(), 496);
    assert_eq!(a.mip_size(0), 512);
    assert_eq!(a.mip_size(1), 256);
    assert_eq!(a.mip_size(3), 64);
    assert_eq!(a.mip_border(0), 8);
    assert_eq!(a.mip_border(1), 4);
    assert_eq!(a.mip_border(3), 1);
    assert_eq!(a.mip_bytes(0), 512 * 512 * 2);
    assert_eq!(a.mip_bytes(3), 64 * 64 * 2);
    assert_eq!(a.mip_offset(0), 0);
    assert_eq!(a.mip_offset(1), 524288);
    assert_eq!(a.mip_offset(2), 524288 + 131072);
    assert_eq!(a.artifact_size(), 696320);
}

#[test]
fn imagery_takes_three_bytes_a_pixel() {
    let a = attachment(128, 2, AttachmentFormat::Rgb8);
    assert_eq!(a.check(), Ok(()));
    assert_eq!(a.center_size(), 124);
    assert_eq!(a.mip_bytes(1), 64 * 64 * 3);
    assert_eq!(a.artifact_size(), 61440);
}

#[test]
fn largest_attachment_is_accepted() {
    let a = attachment(MAX_TEXTURE_SIZE, 11, AttachmentFormat::Rgb8);
    assert_eq!(a.check(), Ok(()));
    assert_eq!(a.mip_bytes(0), 8192 * 8192 * 3);
    assert_eq!(a.mip_size(10), 8);
    assert_eq!(a.artifact_size(), 268435392);
}

#[test]
fn mip_level_count_is_checked() {
    assert_eq!(attachment(512, 0, AttachmentFormat::R16).check(), Err(ConfigError::MipLevelCount));
    assert_eq!(
        attachment(512, MAX_MIP_LEVEL_COUNT + 1, AttachmentFormat::R16).check(),
        Err(ConfigError::MipLevelCount)
    );
    assert_eq!(attachment(512, 40, AttachmentFormat::R16).check(), Err(ConfigError::MipLevelCount));
}

#[test]
fn border_of_half_the_texture_is_too_large() {
    assert_eq!(attachment(32, 4, AttachmentFormat::R16).check(), Err(ConfigError::BorderTooLarge));
    assert_eq!(attachment(16, 4, AttachmentFormat::R16).check(), Err(ConfigError::BorderTooLarge));
    assert_eq!(attachment(0, 1, AttachmentFormat::R16).check(), Err(ConfigError::BorderTooLarge));
    assert_eq!(attachment(4, 1, AttachmentFormat::R16).check(), Err(ConfigError::BorderTooLarge));
    assert_eq!(attachment(6, 1, AttachmentFormat::R16).check(), Ok(()));
    assert_eq!(attachment(48, 4, AttachmentFormat::R16).check(), Ok(()));
    assert_eq!(
        attachment(8192, MAX_MIP_LEVEL_COUNT, AttachmentFormat::R16).check(),
        Err(ConfigError::BorderTooLarge)
    );
}

#[test]
fn texture_size_is_checked() {
    assert_eq!(attachment(130, 2, AttachmentFormat::R16).check(), Err(ConfigError::TextureSize));
    assert_eq!(attachment(500, 4, AttachmentFormat::R16).check(), Err(ConfigError::TextureSize));
    assert_eq!(
        attachment(MAX_TEXTURE_SIZE + 16, 4, AttachmentFormat::R16).check(),
        Err(ConfigError::TextureSize)
    );
    assert_eq!(attachment(132, 2, AttachmentFormat::R16).check(), Ok(()));
    assert_eq!(attachment(642, 1, AttachmentFormat::Rgb8).check(), Ok(()));
}

#[test]
fn terrain_constants_are_checked_in_order() {
    assert_eq!(check_terrain(1000, 3, 0, 8), Err(ConfigError::LeafNodeSize));
    assert_eq!(check_terrain(1000, 0, 0, 8), Err(ConfigError::LeafNodeSize));
    assert_eq!(check_terrain(1000, 0, 496, 8), Err(ConfigError::LodCount));
    assert_eq!(check_terrain(1000, MAX_LOD_COUNT + 1, 1, 8), Err(ConfigError::LodCount));
    assert_eq!(check_terrain(1000, 32, 2, 8), Err(ConfigError::LodCount));
    assert_eq!(check_terrain(1000, 25, 496, 8), Err(ConfigError::LodCount));
    assert_eq!(check_terrain(0, 3, 496, 8), Err(ConfigError::TerrainSize));
    assert_eq!(check_terrain(1985, 3, 496, 8), Err(ConfigError::TerrainSize));
    assert_eq!(check_terrain(1984, 3, 496, 0), Err(ConfigError::AtlasSize));
    assert_eq!(check_terrain(1984, 3, 496, 8), Ok(()));
    assert_eq!(check_terrain(u32::MAX, 32, 1, 1), Err(ConfigError::TerrainSize));
    assert_eq!(check_terrain(1 << 31, 32, 1, 1), Ok(()));
    assert_eq!(check_terrain(u32::MAX, 1, u32::MAX, 1), Ok(()));
}

#[test]
fn terrain_is_built_from_valid_constants() {
    let config = TerrainConfig::new(1984, 3, 496, 64, String::from("terrains/a")).unwrap();
    assert_eq!(config.terrain_size, 1984);
    assert_eq!(config.lod_count, 3);
    assert_eq!(config.leaf_node_size, 496);
    assert_eq!(config.node_atlas_size, 64);
    assert_eq!(config.path, "terrains/a");
    assert!(config.attachments.is_empty());
    assert_eq!(config.check(), Ok(()));
    assert_eq!(config.root(), NodeId::new(2, 0, 0));
    assert_eq!(config.node_size(0), 496);
    assert_eq!(config.node_size(2), 1984);
    assert_eq!(
        TerrainConfig::new(1984, 3, 496, 0, String::new()).err(),
        Some(ConfigError::AtlasSize)
    );
    assert_eq!(
        TerrainConfig::new(2000, 2, 496, 8, String::new()).err(),
        Some(ConfigError::TerrainSize)
    );
}

#[test]
fn terrain_is_covered_by_whole_nodes() {
    let config = TerrainConfig::new(1000, 3, 496, 64, String::new()).unwrap();
    assert_eq!(config.nodes_per_side(0), 3);
    assert_eq!(config.nodes_per_side(1), 2);
    assert_eq!(config.nodes_per_side(2), 1);
    let exact = TerrainConfig::new(992, 3, 496, 64, String::new()).unwrap();
    assert_eq!(exact.nodes_per_side(0), 2);
    assert_eq!(exact.nodes_per_side(1), 1);
    let large = TerrainConfig::new(u32::MAX, 1, u32::MAX, 1, String::new()).unwrap();
    assert_eq!(large.nodes_per_side(0), 1);
}

#[test]
fn attachments_are_added_when_consistent() {
    let mut config = TerrainConfig::new(1900, 3, 496, 64, String::new()).unwrap();
    assert_eq!(config.add_attachment(attachment(512, 4, AttachmentFormat::R16)), Ok(0));
    assert_eq!(
        config.add_attachment(attachment(32, 4, AttachmentFormat::R16)),
        Err(ConfigError::BorderTooLarge)
    );
    assert_eq!(config.add_attachment(attachment(642, 1, AttachmentFormat::Rgb8)), Ok(1));
    assert_eq!(config.attachments.len(), 2);
    assert_eq!(config.attachments[1].texture_size, 642);
    assert_eq!(config.check(), Ok(()));
}

#[test]
fn changed_configuration_is_checked_again() {
    let mut config = TerrainConfig::new(1900, 3, 496, 64, String::new()).unwrap();
    config.add_attachment(attachment(512, 4, AttachmentFormat::R16)).unwrap();
    config.leaf_node_size = 100;
    assert_eq!(config.check(), Err(ConfigError::TerrainSize));
    config.leaf_node_size = 512 - (1 << 4);
    assert_eq!(config.check(), Ok(()));
    config.attachments[0].mip_level_count = 0;
    assert_eq!(config.check(), Err(ConfigError::MipLevelCount));
}

#[test]
fn cap_counted_from_the_depth_of_the_quadtree() {
    assert_eq!(refinement_cap_for(4, 0), 3);
    assert_eq!(refinement_cap_for(4, 2), 5);
    assert_eq!(refinement_cap_for(1, 0), 0);
    assert_eq!(refinement_cap_for(0, 5), 5);
    assert_eq!(refinement_cap_for(4, u32::MAX), u32::MAX);
}
