use terrain_streaming::config::{TerrainConfig, TerrainViewConfig};
use terrain_streaming::lod::{LodParams, QuadtreeNode, Refinement, Viewer};
use terrain_streaming::node::NodeId;
use terrain_streaming::quadtree::{contains_node, node_difference, Quadtree};

fn node(lod: u32, x: u32, y: u32) -> NodeId {
    NodeId::new(lod, x, y)
}

fn terrain(lod_count: u32) -> TerrainConfig {
    TerrainConfig::new(100 << (lod_count - 1), lod_count, 100, 16, String::from("terrain")).unwrap()
}

fn params(lod_count: u32, view_distance: u32, refinement_cap: u32) -> LodParams {
    LodParams { lod_count, leaf_node_size: 100, view_distance, refinement_cap }
}

#[test]
fn parent_halves_the_position() {
    assert_eq!(node(0, 5, 6).parent(), Some(node(1, 2, 3)));
    assert_eq!(node(3, 0, 1).parent(), Some(node(4, 0, 0)));
    assert_eq!(node(u32::MAX, 4, 4).parent(), None);
}

#[test]
fn children_subdivide_the_footprint() {
    assert_eq!(
        node(2, 3, 1).children(),
        Some([node(1, 6, 2), node(1, 7, 2), node(1, 6, 3), node(1, 7, 3)])
    );
    assert_eq!(node(0, 3, 1).children(), None);
    assert_eq!(node(1, u32::MAX, 0).children(), None);
    assert_eq!(node(1, 0, 1 << 31).children(), None);
    for child in node(2, 3, 1).children().unwrap() {
        assert_eq!(child.parent(), Some(node(2, 3, 1)));
    }
}

#[test]
fn subtree_membership() {
    assert!(node(0, 5, 6).is_within(&node(1, 2, 3)));
    assert!(node(0, 5, 6).is_within(&node(2, 1, 1)));
    assert!(node(0, 5, 6).is_within(&node(0, 5, 6)));
    assert!(!node(0, 5, 6).is_within(&node(1, 2, 2)));
    assert!(!node(1, 2, 3).is_within(&node(0, 5, 6)));
    assert!(!node(0, 5, 6).is_within(&node(2, 0, 1)));
}

#[test]
fn distance_is_measured_to_the_footprint() {
    let p = params(3, 100, 8);
    let n = node(1, 1, 0);
    // The footprint is 200..400 by 0..200.
    assert_eq!(p.node_distance_sq(Viewer { x: 300, z: 100, height: 0 }, n), 0);
    assert_eq!(p.node_distance_sq(Viewer { x: 200, z: 200, height: 0 }, n), 0);
    assert_eq!(p.node_distance_sq(Viewer { x: 190, z: 100, height: 0 }, n), 100);
    assert_eq!(p.node_distance_sq(Viewer { x: 410, z: 230, height: 0 }, n), 100 + 900);
    assert_eq!(p.node_distance_sq(Viewer { x: 300, z: -3, height: -4 }, n), 9 + 16);
    assert_eq!(
        p.node_distance_sq(Viewer { x: i32::MIN, z: i32::MAX, height: i32::MIN }, n),
        (2147483648u128 + 200) * (2147483648u128 + 200)
            + (2147483647u128 - 200) * (2147483647u128 - 200)
            + 2147483648u128 * 2147483648u128
    );
}

#[test]
fn threshold_doubles_with_the_level() {
    let p = params(3, 150, 8);
    assert_eq!(p.split_threshold(0), 150);
    assert_eq!(p.split_threshold(1), 300);
    assert_eq!(p.split_threshold(2), 600);
    assert_eq!(params(32, u32::MAX, 8).split_threshold(31), (u32::MAX as u64) << 31);
}

#[test]
fn viewer_at_the_threshold_keeps_the_node_coarse() {
    let p = params(3, 100, 8);
    let n = node(1, 1, 0);
    assert!(p.should_split(Viewer { x: 1, z: 100, height: 0 }, n));
    assert!(!p.should_split(Viewer { x: 0, z: 100, height: 0 }, n));
    assert!(!p.should_split(Viewer { x: -1, z: 100, height: 0 }, n));
    assert!(p.refines(n, 39999));
    assert!(!p.refines(n, 40000));
}

#[test]
fn level_zero_is_never_refined() {
    let p = params(3, 1000, 8);
    assert!(!p.should_split(Viewer { x: 50, z: 50, height: 0 }, node(0, 0, 0)));
    assert!(!p.refines(node(0, 0, 0), 0));
}

#[test]
fn refinement_cap_limits_the_depth() {
    let p = params(3, 1000, 1);
    assert!(p.should_split(Viewer { x: 0, z: 0, height: 0 }, node(2, 0, 0)));
    assert!(!p.should_split(Viewer { x: 0, z: 0, height: 0 }, node(1, 0, 0)));
    let none = params(3, 1000, 0);
    assert!(!none.should_split(Viewer { x: 0, z: 0, height: 0 }, node(2, 0, 0)));
}

#[test]
fn traversal_selects_finer_nodes_near_the_viewer() {
    let view = TerrainViewConfig { view_distance: 100, refinement_cap: 8, hysteresis: 0, grid_size: 8 };
    let mut quadtree = Quadtree::from_configs(&terrain(3), &view);
    assert!(quadtree.desired().is_empty());
    assert_eq!(quadtree.last_viewer(), None);
    quadtree.traverse(Viewer { x: 0, z: 0, height: 0 });
    assert_eq!(
        quadtree.desired(),
        &vec![
            node(0, 0, 0),
            node(0, 1, 0),
            node(0, 0, 1),
            node(0, 1, 1),
            node(1, 1, 0),
            node(1, 0, 1),
            node(1, 1, 1),
        ]
    );
    assert_eq!(quadtree.demanded(), quadtree.desired());
    assert!(quadtree.released().is_empty());
    assert_eq!(quadtree.last_viewer(), Some(Viewer { x: 0, z: 0, height: 0 }));
    assert_eq!(
        quadtree.nodes(),
        &vec![
            QuadtreeNode { id: node(2, 0, 0), decision: Refinement::Split, distance_sq: 0 },
            QuadtreeNode { id: node(1, 0, 0), decision: Refinement::Split, distance_sq: 0 },
            QuadtreeNode { id: node(0, 0, 0), decision: Refinement::Coarse, distance_sq: 0 },
            QuadtreeNode { id: node(0, 1, 0), decision: Refinement::Coarse, distance_sq: 10000 },
            QuadtreeNode { id: node(0, 0, 1), decision: Refinement::Coarse, distance_sq: 10000 },
            QuadtreeNode { id: node(0, 1, 1), decision: Refinement::Coarse, distance_sq: 20000 },
            QuadtreeNode { id: node(1, 1, 0), decision: Refinement::Coarse, distance_sq: 40000 },
            QuadtreeNode { id: node(1, 0, 1), decision: Refinement::Coarse, distance_sq: 40000 },
            QuadtreeNode { id: node(1, 1, 1), decision: Refinement::Coarse, distance_sq: 80000 },
        ]
    );
}

#[test]
fn traversal_respects_the_refinement_cap() {
    let view = TerrainViewConfig { view_distance: 100, refinement_cap: 1, hysteresis: 0, grid_size: 8 };
    let mut quadtree = Quadtree::from_configs(&terrain(3), &view);
    quadtree.traverse(Viewer { x: 0, z: 0, height: 0 });
    assert_eq!(
        quadtree.desired(),
        &vec![node(1, 0, 0), node(1, 1, 0), node(1, 0, 1), node(1, 1, 1)]
    );
}

#[test]
fn selection_stays_within_the_levels_and_the_cap() {
    for cap in 0..5u32 {
        let view = TerrainViewConfig { view_distance: 300, refinement_cap: cap, hysteresis: 0, grid_size: 8 };
        let mut quadtree = Quadtree::from_configs(&terrain(4), &view);
        quadtree.traverse(Viewer { x: 333, z: 517, height: 20 });
        let desired = quadtree.desired();
        assert!(!desired.is_empty());
        for (i, n) in desired.iter().enumerate() {
            assert!(n.lod < 4);
            assert!(3 - n.lod <= cap);
            assert!(n.is_within(&node(3, 0, 0)));
            for m in desired.iter().skip(i + 1) {
                assert_ne!(n, m);
            }
        }
    }
}

#[test]
fn selection_covers_the_terrain_once() {
    let view = TerrainViewConfig { view_distance: 250, refinement_cap: 8, hysteresis: 0, grid_size: 8 };
    let mut quadtree = Quadtree::from_configs(&terrain(4), &view);
    quadtree.traverse(Viewer { x: 420, z: 130, height: 60 });
    let area: u64 = quadtree.desired().iter().map(|n| 1u64 << (2 * n.lod)).sum();
    assert_eq!(area, 64);
}

#[test]
fn high_viewer_sees_the_root_only() {
    let view = TerrainViewConfig { view_distance: 100, refinement_cap: 8, hysteresis: 0, grid_size: 8 };
    let mut quadtree = Quadtree::from_configs(&terrain(3), &view);
    quadtree.traverse(Viewer { x: 200, z: 200, height: 400 });
    assert_eq!(quadtree.desired(), &vec![node(2, 0, 0)]);
    quadtree.traverse(Viewer { x: 200, z: 200, height: -399 });
    assert_eq!(
        quadtree.desired(),
        &vec![node(1, 0, 0), node(1, 1, 0), node(1, 0, 1), node(1, 1, 1)]
    );
    quadtree.traverse(Viewer { x: 200, z: 200, height: 199 });
    assert_eq!(quadtree.desired().len(), 16);
}

#[test]
fn approaching_viewer_splits_the_node_down_to_level_zero() {
    let config = terrain(2);
    let view = TerrainViewConfig { view_distance: 400, refinement_cap: 8, hysteresis: 50, grid_size: 8 };
    let mut quadtree = Quadtree::from_configs(&config, &view);
    let leaf = 100;

    assert!(quadtree.update(Viewer { x: -10 * leaf, z: 100, height: 0 }));
    assert_eq!(quadtree.desired(), &vec![node(1, 0, 0)]);
    assert_eq!(quadtree.demanded(), &vec![node(1, 0, 0)]);

    let mut split = false;
    let mut x = -10 * leaf;
    while x < -leaf - 60 {
        x += 60;
        assert!(quadtree.update(Viewer { x, z: 100, height: 0 }));
        let now = quadtree.desired().len() == 4;
        assert!(now || !split);
        split = now;
    }
    assert!(split);

    assert!(quadtree.update(Viewer { x: -leaf, z: 100, height: 0 }));
    assert_eq!(
        quadtree.desired(),
        &vec![node(0, 0, 0), node(0, 1, 0), node(0, 0, 1), node(0, 1, 1)]
    );

    // Within the hysteresis distance nothing is traversed and nothing changes.
    assert!(!quadtree.needs_traversal(Viewer { x: -leaf - 30, z: 100 + 40, height: 0 }));
    assert!(!quadtree.update(Viewer { x: -leaf - 30, z: 100 + 40, height: 0 }));
    assert_eq!(quadtree.desired().len(), 4);
    assert!(quadtree.demanded().is_empty());
    assert!(quadtree.released().is_empty());
    assert_eq!(quadtree.last_viewer(), Some(Viewer { x: -leaf, z: 100, height: 0 }));
    assert!(quadtree.needs_traversal(Viewer { x: -leaf - 30, z: 100 + 41, height: 0 }));
}

#[test]
fn traversal_reports_what_changed() {
    let view = TerrainViewConfig { view_distance: 400, refinement_cap: 8, hysteresis: 0, grid_size: 8 };
    let mut quadtree = Quadtree::from_configs(&terrain(2), &view);
    quadtree.traverse(Viewer { x: 100, z: 100, height: 0 });
    assert_eq!(quadtree.desired().len(), 4);
    quadtree.traverse(Viewer { x: -2000, z: 100, height: 0 });
    assert_eq!(quadtree.desired(), &vec![node(1, 0, 0)]);
    assert_eq!(quadtree.demanded(), &vec![node(1, 0, 0)]);
    assert_eq!(
        quadtree.released(),
        &vec![node(0, 0, 0), node(0, 1, 0), node(0, 0, 1), node(0, 1, 1)]
    );
    quadtree.traverse(Viewer { x: -2000, z: 100, height: 0 });
    assert!(quadtree.demanded().is_empty());
    assert!(quadtree.released().is_empty());
}

#[test]
fn changed_view_config_forces_a_traversal() {
    let mut quadtree = Quadtree::from_configs(
        &terrain(2),
        &TerrainViewConfig { view_distance: 10, refinement_cap: 8, hysteresis: 1000, grid_size: 8 },
    );
    let v = Viewer { x: -50, z: 100, height: 0 };
    assert!(quadtree.update(v));
    assert_eq!(quadtree.desired(), &vec![node(1, 0, 0)]);
    assert!(!quadtree.update(v));
    quadtree.set_view_config(&TerrainViewConfig {
        view_distance: 400,
        refinement_cap: 8,
        hysteresis: 1000,
        grid_size: 8,
    });
    assert_eq!(quadtree.params().view_distance, 400);
    assert!(quadtree.needs_traversal(v));
    assert!(quadtree.update(v));
    assert_eq!(quadtree.desired().len(), 4);
    assert_eq!(quadtree.released(), &vec![node(1, 0, 0)]);
}

#[test]
fn difference_keeps_the_order() {
    let a = vec![node(0, 0, 0), node(0, 1, 0), node(1, 0, 0), node(0, 1, 1)];
    let b = vec![node(0, 1, 0), node(2, 0, 0), node(0, 1, 1)];
    assert_eq!(node_difference(&a, &b), vec![node(0, 0, 0), node(1, 0, 0)]);
    assert_eq!(node_difference(&b, &a), vec![node(2, 0, 0)]);
    assert_eq!(node_difference(&a, &a), vec![]);
    assert_eq!(node_difference(&a, &vec![]), a);
    assert!(contains_node(&a, node(1, 0, 0)));
    assert!(!contains_node(&a, node(1, 0, 1)));
}

#[test]
fn parameters_and_nodes_can_be_tested_before_the_rule_is_asked() {
    let params = LodParams { lod_count: 3, leaf_node_size: 100, view_distance: 400, refinement_cap: 8 };
    assert!(params.is_valid());
    assert!(!LodParams { lod_count: 0, ..params }.is_valid());
    assert!(!LodParams { lod_count: 33, ..params }.is_valid());
    assert!(!LodParams { leaf_node_size: 0, ..params }.is_valid());
    assert!(LodParams { lod_count: 32, leaf_node_size: 1, ..params }.is_valid());
    assert!(LodParams { lod_count: 32, leaf_node_size: 2, ..params }.is_valid() == false);
    assert!(params.contains(node(2, 0, 0)));
    assert!(!params.contains(node(2, 1, 0)));
    assert!(!params.contains(node(3, 0, 0)));
    assert!(params.contains(node(0, 3, 3)));
    assert!(!params.contains(node(0, 3, 4)));
    assert!(params.contains(node(1, 1, 1)));
    assert!(!params.contains(node(1, 2, 0)));
}

#[test]
fn nearer_viewer_gets_no_coarser_selection() {
    let view = TerrainViewConfig { view_distance: 150, refinement_cap: 8, hysteresis: 0, grid_size: 8 };
    let mut quadtree = Quadtree::from_configs(&terrain(4), &view);
    let mut finest = 3;
    let mut x = -3000;
    while x <= 0 {
        quadtree.update(Viewer { x, z: 400, height: 20 });
        let now = quadtree.desired().iter().map(|n| n.lod).min().unwrap();
        assert!(now <= finest, "at {x} the finest level rose from {finest} to {now}");
        finest = now;
        x += 37;
    }
    assert_eq!(finest, 0);
    quadtree.update(Viewer { x: -3000, z: 400, height: 20 });
    assert_eq!(quadtree.desired(), &vec![node(3, 0, 0)]);
}
