use terrain_streaming::atlas_model::{LoadError, RequestStatus, SlotState};
use terrain_streaming::config::{AttachmentConfig, AttachmentFormat, TerrainConfig, TerrainViewConfig};
use terrain_streaming::lod::Viewer;
use terrain_streaming::node::NodeId;
use terrain_streaming::node_atlas::NodeAtlas;
use terrain_streaming::quadtree::Quadtree;
use terrain_streaming::streaming::{
    atlas_for, ready_ancestor, refresh_nodes, release_nodes, renew_nodes, request_nodes,
    start_pending, update_nodes, LoadRequest, Selection,
};

fn node(lod: u32, x: u32, y: u32) -> NodeId {
    NodeId::new(lod, x, y)
}

fn artifact(fill: u8) -> Option<Vec<u8>> {
    Some(vec![fill; 8])
}

#[test]
fn new_atlas_is_empty() {
    let atlas = NodeAtlas::new(3, 8);
    assert_eq!(atlas.capacity(), 3);
    assert_eq!(atlas.artifact_size(), 8);
    assert_eq!(atlas.frame(), 0);
    assert_eq!(atlas.pending_count(), 0);
    assert_eq!(atlas.state_of(node(0, 0, 0)), SlotState::Unloaded);
    assert!(!atlas.is_ready(node(0, 0, 0)));
    assert_eq!(atlas.slot_of(node(0, 0, 0)), None);
}

#[test]
fn full_atlas_defers_the_fifth_request() {
    let mut atlas = NodeAtlas::new(4, 8);
    for i in 0..4u32 {
        assert_eq!(atlas.request(node(0, i, 0)), RequestStatus::Started(i as usize));
    }
    assert_eq!(atlas.pending_count(), 0);
    assert_eq!(atlas.request(node(0, 4, 0)), RequestStatus::Deferred);
    assert_eq!(atlas.pending_count(), 1);
    assert_eq!(atlas.state_of(node(0, 4, 0)), SlotState::Unloaded);
    for i in 0..4u32 {
        assert_eq!(atlas.state_of(node(0, i, 0)), SlotState::Loading);
    }
}

#[test]
fn full_atlas_of_loaded_nodes_defers_too() {
    let mut atlas = NodeAtlas::new(4, 8);
    for i in 0..4u32 {
        atlas.request(node(0, i, 0));
        assert_eq!(atlas.complete_load(node(0, i, 0), artifact(i as u8)), Ok(i as usize));
    }
    assert_eq!(atlas.request(node(0, 4, 0)), RequestStatus::Deferred);
    assert_eq!(atlas.pending_count(), 1);
    for i in 0..4u32 {
        assert!(atlas.is_ready(node(0, i, 0)));
        assert_eq!(atlas.slot_of(node(0, i, 0)), Some(i as usize));
    }
}

#[test]
fn deferred_request_is_queued_once() {
    let mut atlas = NodeAtlas::new(1, 8);
    atlas.request(node(0, 0, 0));
    assert_eq!(atlas.request(node(0, 1, 0)), RequestStatus::Deferred);
    assert_eq!(atlas.request(node(0, 1, 0)), RequestStatus::Deferred);
    assert_eq!(atlas.pending_count(), 1);
}

#[test]
fn atlas_without_slots_defers_everything() {
    let mut atlas = NodeAtlas::new(0, 8);
    assert_eq!(atlas.request(node(0, 0, 0)), RequestStatus::Deferred);
    assert_eq!(atlas.pending_count(), 1);
    assert_eq!(atlas.next_pending(), None);
}

#[test]
fn repeated_request_starts_one_load() {
    let mut atlas = NodeAtlas::new(2, 8);
    let n = node(1, 3, 5);
    assert_eq!(atlas.request(n), RequestStatus::Started(0));
    assert_eq!(atlas.request(n), RequestStatus::Loading(0));
    assert_eq!(atlas.request(n), RequestStatus::Loading(0));
    assert_eq!(atlas.state_of(n), SlotState::Loading);
    assert_eq!(atlas.request(node(1, 3, 6)), RequestStatus::Started(1));
}

#[test]
fn request_of_a_loaded_node_reports_its_slot() {
    let mut atlas = NodeAtlas::new(2, 8);
    let n = node(0, 1, 1);
    atlas.request(n);
    atlas.complete_load(n, artifact(1)).unwrap();
    assert_eq!(atlas.request(n), RequestStatus::Ready(0));
}

#[test]
fn no_node_occupies_two_slots() {
    let mut atlas = NodeAtlas::new(3, 8);
    let a = node(0, 0, 0);
    let b = node(0, 1, 0);
    atlas.request(a);
    atlas.request(b);
    atlas.request(a);
    atlas.complete_load(a, artifact(1)).unwrap();
    atlas.complete_load(b, artifact(2)).unwrap();
    atlas.release(a);
    atlas.request(a);
    assert_eq!(atlas.slot_of(a), Some(0));
    assert_eq!(atlas.slot_of(b), Some(1));
    assert_eq!(atlas.request(node(0, 2, 0)), RequestStatus::Started(2));
}

#[test]
fn loaded_node_is_ready_with_its_data() {
    let mut atlas = NodeAtlas::new(2, 4);
    let n = node(2, 0, 1);
    atlas.request(n);
    assert!(!atlas.is_ready(n));
    assert_eq!(atlas.slot_of(n), None);
    assert_eq!(atlas.node_data(n), None);
    assert_eq!(atlas.complete_load(n, Some(vec![1, 2, 3, 4])), Ok(0));
    assert!(atlas.is_ready(n));
    assert_eq!(atlas.state_of(n), SlotState::Loaded);
    assert_eq!(atlas.slot_of(n), Some(0));
    assert_eq!(atlas.node_data(n), Some(&vec![1, 2, 3, 4]));
}

#[test]
fn ready_node_stays_ready_until_released() {
    let mut atlas = NodeAtlas::new(2, 8);
    let n = node(0, 0, 0);
    atlas.request(n);
    atlas.complete_load(n, artifact(7)).unwrap();
    atlas.advance_frame();
    atlas.request(node(0, 1, 0));
    atlas.request(node(0, 2, 0));
    atlas.release(node(0, 9, 9));
    assert_eq!(atlas.complete_load(node(0, 1, 0), None), Err(LoadError::ArtifactMissing));
    assert_eq!(atlas.complete_load(n, artifact(8)), Err(LoadError::NotLoading));
    atlas.next_pending();
    atlas.advance_frame();
    assert!(atlas.is_ready(n));
    assert_eq!(atlas.slot_of(n), Some(0));
    assert_eq!(atlas.node_data(n), Some(&vec![7u8; 8]));
    atlas.release(n);
    assert!(!atlas.is_ready(n));
    assert_eq!(atlas.state_of(n), SlotState::Evictable);
    assert_eq!(atlas.slot_of(n), None);
}

#[test]
fn released_node_becomes_wanted_again() {
    let mut atlas = NodeAtlas::new(1, 8);
    let n = node(0, 0, 0);
    atlas.request(n);
    atlas.complete_load(n, artifact(3)).unwrap();
    atlas.release(n);
    assert_eq!(atlas.request(n), RequestStatus::Ready(0));
    assert!(atlas.is_ready(n));
    assert_eq!(atlas.node_data(n), Some(&vec![3u8; 8]));
}

#[test]
fn eviction_takes_the_least_recently_used_released_node() {
    let mut atlas = NodeAtlas::new(3, 8);
    let a = node(0, 0, 0);
    let b = node(0, 1, 0);
    let c = node(0, 2, 0);
    atlas.request(a);
    atlas.request(b);
    atlas.request(c);
    atlas.complete_load(a, artifact(1)).unwrap();
    atlas.complete_load(b, artifact(2)).unwrap();
    atlas.complete_load(c, artifact(3)).unwrap();
    atlas.advance_frame();
    atlas.request(a);
    atlas.advance_frame();
    atlas.request(c);
    atlas.release(a);
    atlas.release(b);
    // `b` was last used in frame 0 and `a` in frame 1: `b` goes first.
    assert_eq!(atlas.request(node(0, 3, 0)), RequestStatus::Started(1));
    assert_eq!(atlas.state_of(b), SlotState::Unloaded);
    assert_eq!(atlas.state_of(a), SlotState::Evictable);
    assert_eq!(atlas.request(node(0, 4, 0)), RequestStatus::Started(0));
    assert_eq!(atlas.state_of(a), SlotState::Unloaded);
    assert!(atlas.is_ready(c));
    assert_eq!(atlas.request(node(0, 5, 0)), RequestStatus::Deferred);
    assert!(atlas.is_ready(c));
}

#[test]
fn eviction_prefers_the_lower_slot_among_equals() {
    let mut atlas = NodeAtlas::new(2, 8);
    let a = node(0, 0, 0);
    let b = node(0, 1, 0);
    atlas.request(a);
    atlas.request(b);
    atlas.complete_load(a, artifact(1)).unwrap();
    atlas.complete_load(b, artifact(2)).unwrap();
    atlas.release(b);
    atlas.release(a);
    assert_eq!(atlas.request(node(0, 2, 0)), RequestStatus::Started(0));
    assert_eq!(atlas.state_of(b), SlotState::Evictable);
}

#[test]
fn free_slot_is_used_before_any_eviction() {
    let mut atlas = NodeAtlas::new(2, 8);
    let a = node(0, 0, 0);
    atlas.request(a);
    atlas.complete_load(a, artifact(1)).unwrap();
    atlas.release(a);
    assert_eq!(atlas.request(node(0, 1, 0)), RequestStatus::Started(1));
    assert_eq!(atlas.state_of(a), SlotState::Evictable);
}

#[test]
fn loading_node_is_never_evicted() {
    let mut atlas = NodeAtlas::new(1, 8);
    let a = node(0, 0, 0);
    atlas.request(a);
    atlas.release(a);
    assert_eq!(atlas.state_of(a), SlotState::Loading);
    assert_eq!(atlas.request(node(0, 1, 0)), RequestStatus::Deferred);
    assert_eq!(atlas.state_of(a), SlotState::Loading);
}

#[test]
fn release_in_flight_makes_the_result_evictable() {
    let mut atlas = NodeAtlas::new(1, 8);
    let a = node(0, 0, 0);
    atlas.request(a);
    atlas.release(a);
    assert_eq!(atlas.complete_load(a, artifact(5)), Ok(0));
    assert_eq!(atlas.state_of(a), SlotState::Evictable);
    assert!(!atlas.is_ready(a));
    assert_eq!(atlas.request(node(0, 1, 0)), RequestStatus::Started(0));
}

#[test]
fn request_after_release_in_flight_keeps_the_node() {
    let mut atlas = NodeAtlas::new(1, 8);
    let a = node(0, 0, 0);
    atlas.request(a);
    atlas.release(a);
    assert_eq!(atlas.request(a), RequestStatus::Loading(0));
    assert_eq!(atlas.complete_load(a, artifact(5)), Ok(0));
    assert!(atlas.is_ready(a));
}

#[test]
fn missing_artifact_is_reported() {
    let mut atlas = NodeAtlas::new(1, 8);
    let n = node(1, 0, 0);
    assert_eq!(atlas.request(n), RequestStatus::Started(0));
    assert_eq!(atlas.complete_load(n, None), Err(LoadError::ArtifactMissing));
    assert_eq!(atlas.state_of(n), SlotState::Unloaded);
    assert!(!atlas.is_ready(n));
    assert_eq!(atlas.request(node(1, 1, 0)), RequestStatus::Started(0));
}

#[test]
fn corrupt_artifact_is_reported() {
    let mut atlas = NodeAtlas::new(1, 8);
    let n = node(1, 0, 0);
    atlas.request(n);
    assert_eq!(atlas.complete_load(n, Some(vec![0; 7])), Err(LoadError::ArtifactCorrupt));
    assert_eq!(atlas.state_of(n), SlotState::Unloaded);
    assert_eq!(atlas.request(n), RequestStatus::Started(0));
    assert_eq!(atlas.complete_load(n, Some(vec![0; 9])), Err(LoadError::ArtifactCorrupt));
}

#[test]
fn completion_without_a_load_is_reported() {
    let mut atlas = NodeAtlas::new(1, 8);
    let n = node(1, 0, 0);
    assert_eq!(atlas.complete_load(n, artifact(1)), Err(LoadError::NotLoading));
    atlas.request(n);
    atlas.complete_load(n, artifact(1)).unwrap();
    assert_eq!(atlas.complete_load(n, artifact(2)), Err(LoadError::NotLoading));
    assert_eq!(atlas.node_data(n), Some(&vec![1u8; 8]));
}

#[test]
fn failed_load_does_not_touch_other_nodes() {
    let mut atlas = NodeAtlas::new(2, 8);
    let a = node(0, 0, 0);
    let b = node(0, 1, 0);
    atlas.request(a);
    atlas.request(b);
    atlas.complete_load(a, artifact(1)).unwrap();
    assert_eq!(atlas.complete_load(b, None), Err(LoadError::ArtifactMissing));
    assert!(atlas.is_ready(a));
    assert_eq!(atlas.node_data(a), Some(&vec![1u8; 8]));
}

#[test]
fn pending_request_starts_when_a_slot_frees() {
    let mut atlas = NodeAtlas::new(1, 8);
    let a = node(0, 0, 0);
    let b = node(0, 1, 0);
    let c = node(0, 2, 0);
    atlas.request(a);
    atlas.complete_load(a, artifact(1)).unwrap();
    assert_eq!(atlas.request(b), RequestStatus::Deferred);
    assert_eq!(atlas.request(c), RequestStatus::Deferred);
    assert_eq!(atlas.pending_count(), 2);
    assert_eq!(atlas.next_pending(), None);
    atlas.release(a);
    assert_eq!(atlas.next_pending(), Some((b, 0)));
    assert_eq!(atlas.pending_count(), 1);
    assert_eq!(atlas.state_of(b), SlotState::Loading);
    assert_eq!(atlas.state_of(a), SlotState::Unloaded);
    assert_eq!(atlas.next_pending(), None);
    assert_eq!(atlas.pending_count(), 1);
}

#[test]
fn release_withdraws_a_pending_request() {
    let mut atlas = NodeAtlas::new(1, 8);
    atlas.request(node(0, 0, 0));
    atlas.request(node(0, 1, 0));
    atlas.request(node(0, 2, 0));
    assert_eq!(atlas.pending_count(), 2);
    atlas.release(node(0, 1, 0));
    assert_eq!(atlas.pending_count(), 1);
    atlas.complete_load(node(0, 0, 0), None).unwrap_err();
    assert_eq!(atlas.next_pending(), Some((node(0, 2, 0), 0)));
}

#[test]
fn request_of_a_pending_node_takes_a_freed_slot() {
    let mut atlas = NodeAtlas::new(1, 8);
    let a = node(0, 0, 0);
    let b = node(0, 1, 0);
    atlas.request(a);
    atlas.request(b);
    atlas.complete_load(a, None).unwrap_err();
    assert_eq!(atlas.request(b), RequestStatus::Started(0));
    assert_eq!(atlas.pending_count(), 0);
}

#[test]
fn frame_counter_advances() {
    let mut atlas = NodeAtlas::new(1, 8);
    atlas.advance_frame();
    atlas.advance_frame();
    assert_eq!(atlas.frame(), 2);
}

#[test]
fn nodes_are_released_and_requested_in_order() {
    let mut atlas = NodeAtlas::new(2, 8);
    let a = node(0, 0, 0);
    let b = node(0, 1, 0);
    let c = node(0, 2, 0);
    let loads = request_nodes(&mut atlas, &vec![a, b, a, c]);
    assert_eq!(loads, vec![LoadRequest { node: a, slot: 0 }, LoadRequest { node: b, slot: 1 }]);
    assert_eq!(atlas.pending_count(), 1);
    atlas.complete_load(a, artifact(1)).unwrap();
    release_nodes(&mut atlas, &vec![a, c]);
    assert_eq!(atlas.state_of(a), SlotState::Evictable);
    assert_eq!(atlas.pending_count(), 0);
}

#[test]
fn traversal_drives_the_atlas() {
    let config = TerrainConfig::new(200, 2, 100, 8, String::from("terrain")).unwrap();
    let attachment = AttachmentConfig::new(String::from("height"), 8, 1, AttachmentFormat::R16);
    assert_eq!(attachment.check(), Ok(()));
    let mut atlas = atlas_for(&config, &attachment);
    assert_eq!(atlas.capacity(), 8);
    assert_eq!(atlas.artifact_size(), 128);
    let view = TerrainViewConfig { view_distance: 400, refinement_cap: 8, hysteresis: 10, grid_size: 8 };
    let mut quadtree = Quadtree::from_configs(&config, &view);

    assert!(quadtree.update(Viewer { x: -1000, z: 100, height: 0 }));
    let loads = update_nodes(&mut atlas, &quadtree);
    assert_eq!(loads, vec![LoadRequest { node: node(1, 0, 0), slot: 0 }]);
    assert_eq!(atlas.frame(), 1);
    atlas.complete_load(node(1, 0, 0), Some(vec![0; 128])).unwrap();

    assert!(quadtree.update(Viewer { x: -100, z: 100, height: 0 }));
    let loads = update_nodes(&mut atlas, &quadtree);
    assert_eq!(
        loads,
        vec![
            LoadRequest { node: node(0, 0, 0), slot: 1 },
            LoadRequest { node: node(0, 1, 0), slot: 2 },
            LoadRequest { node: node(0, 0, 1), slot: 3 },
            LoadRequest { node: node(0, 1, 1), slot: 4 },
        ]
    );
    assert_eq!(atlas.state_of(node(1, 0, 0)), SlotState::Evictable);

    assert!(!quadtree.update(Viewer { x: -100, z: 105, height: 0 }));
    assert!(update_nodes(&mut atlas, &quadtree).is_empty());
    assert_eq!(atlas.frame(), 3);
}

#[test]
fn unready_node_falls_back_to_its_nearest_ready_ancestor() {
    let mut atlas = NodeAtlas::new(4, 8);
    let leaf = node(0, 5, 6);
    let parent = node(1, 2, 3);
    let grandparent = node(2, 1, 1);
    assert_eq!(ready_ancestor(&atlas, leaf, 3), None);
    atlas.request(grandparent);
    atlas.complete_load(grandparent, artifact(1)).unwrap();
    atlas.request(leaf);
    assert_eq!(ready_ancestor(&atlas, leaf, 3), Some(grandparent));
    assert_eq!(ready_ancestor(&atlas, leaf, 2), Some(grandparent));
    assert_eq!(ready_ancestor(&atlas, leaf, 1), None);
    atlas.request(parent);
    atlas.complete_load(parent, artifact(2)).unwrap();
    assert_eq!(ready_ancestor(&atlas, leaf, 3), Some(parent));
    atlas.complete_load(leaf, artifact(3)).unwrap();
    assert_eq!(ready_ancestor(&atlas, leaf, 3), Some(leaf));
    assert_eq!(ready_ancestor(&atlas, leaf, 0), Some(leaf));
    assert_eq!(ready_ancestor(&atlas, node(0, 4, 6), 3), Some(parent));
    assert_eq!(ready_ancestor(&atlas, node(0, 6, 6), 3), Some(grandparent));
    assert_eq!(ready_ancestor(&atlas, node(0, 8, 6), 3), None);
    assert_eq!(ready_ancestor(&atlas, grandparent, 1), None);
    atlas.release(parent);
    assert_eq!(ready_ancestor(&atlas, node(0, 4, 6), 3), Some(grandparent));
}

#[test]
fn default_view_refines_as_deep_as_the_quadtree_goes() {
    let view = TerrainViewConfig::default();
    assert_eq!(view, TerrainViewConfig { view_distance: 4, refinement_cap: 32, hysteresis: 0, grid_size: 8 });
}

fn two_level_quadtree() -> Quadtree {
    let config = TerrainConfig::new(200, 2, 100, 2, String::from("terrain")).unwrap();
    let view =
        TerrainViewConfig { view_distance: 400, refinement_cap: 8, hysteresis: 10, grid_size: 8 };
    Quadtree::from_configs(&config, &view)
}

const NEAR: Viewer = Viewer { x: -100, z: 100, height: 0 };
const FAR: Viewer = Viewer { x: -1000, z: 100, height: 0 };

#[test]
fn frame_keeps_a_selected_node_that_was_released_before() {
    let mut atlas = NodeAtlas::new(2, 1);
    let mut quadtree = two_level_quadtree();
    let root = node(1, 0, 0);
    let children = vec![node(0, 0, 0), node(0, 1, 0), node(0, 0, 1), node(0, 1, 1)];

    assert!(quadtree.update(NEAR));
    assert_eq!(quadtree.desired(), &children);
    let loads = update_nodes(&mut atlas, &quadtree);
    assert_eq!(
        loads,
        vec![
            LoadRequest { node: children[0], slot: 0 },
            LoadRequest { node: children[1], slot: 1 },
        ]
    );
    assert_eq!(atlas.pending_count(), 2);
    atlas.complete_load(children[0], Some(vec![10])).unwrap();
    atlas.complete_load(children[1], Some(vec![11])).unwrap();

    assert!(quadtree.update(FAR));
    assert_eq!(quadtree.desired(), &vec![root]);
    let loads = update_nodes(&mut atlas, &quadtree);
    assert_eq!(loads, vec![LoadRequest { node: root, slot: 0 }]);
    assert_eq!(atlas.pending_count(), 0);
    atlas.complete_load(root, Some(vec![20])).unwrap();
    assert_eq!(atlas.state_of(children[0]), SlotState::Unloaded);
    assert_eq!(atlas.state_of(children[1]), SlotState::Evictable);

    assert!(quadtree.update(NEAR));
    assert_eq!(quadtree.demanded(), &children);
    let loads = update_nodes(&mut atlas, &quadtree);
    assert_eq!(loads, vec![LoadRequest { node: children[0], slot: 0 }]);
    assert!(atlas.is_ready(children[1]));
    assert_eq!(atlas.slot_of(children[1]), Some(1));
    assert_eq!(atlas.node_data(children[1]), Some(&vec![11]));
    assert_eq!(atlas.state_of(children[0]), SlotState::Loading);
    assert_eq!(atlas.state_of(root), SlotState::Unloaded);
    assert_eq!(atlas.pending_count(), 2);
}

#[test]
fn node_that_another_view_selects_is_not_released() {
    let mut atlas = NodeAtlas::new(8, 1);
    let mut left = two_level_quadtree();
    let mut right = two_level_quadtree();
    let root = node(1, 0, 0);
    let children = vec![node(0, 0, 0), node(0, 1, 0), node(0, 0, 1), node(0, 1, 1)];

    left.update(NEAR);
    right.update(NEAR);
    let mut selection = Selection::new();
    selection.add(&left);
    selection.add(&right);
    assert_eq!(selection.desired.len(), 8);
    let loads = refresh_nodes(&mut atlas, &selection);
    assert_eq!(loads.len(), 4);
    for load in &loads {
        atlas.complete_load(load.node, Some(vec![1])).unwrap();
    }

    assert!(left.update(FAR));
    assert!(!right.update(NEAR));
    assert_eq!(left.released(), &children);
    let mut selection = Selection::new();
    selection.add(&left);
    selection.add(&right);
    let loads = refresh_nodes(&mut atlas, &selection);
    assert_eq!(loads, vec![LoadRequest { node: root, slot: 4 }]);
    for child in &children {
        assert_eq!(atlas.state_of(*child), SlotState::Loaded);
    }

    assert!(!left.update(FAR));
    assert!(right.update(FAR));
    let mut selection = Selection::new();
    selection.add(&left);
    selection.add(&right);
    assert!(refresh_nodes(&mut atlas, &selection).is_empty());
    for child in &children {
        assert_eq!(atlas.state_of(*child), SlotState::Evictable);
    }
    assert_eq!(atlas.state_of(root), SlotState::Loading);
}

#[test]
fn deferred_requests_start_once_a_slot_can_be_had() {
    let mut atlas = NodeAtlas::new(1, 1);
    let a = node(0, 0, 0);
    let b = node(0, 1, 0);
    let c = node(0, 2, 0);
    assert_eq!(atlas.request(a), RequestStatus::Started(0));
    assert_eq!(atlas.request(b), RequestStatus::Deferred);
    assert_eq!(atlas.request(c), RequestStatus::Deferred);
    let mut loads = Vec::new();
    start_pending(&mut atlas, &mut loads);
    assert!(loads.is_empty());
    atlas.complete_load(a, Some(vec![1])).unwrap();
    atlas.release(a);
    start_pending(&mut atlas, &mut loads);
    assert_eq!(loads, vec![LoadRequest { node: b, slot: 0 }]);
    assert_eq!(atlas.pending_count(), 1);
    assert!(!atlas.is_resident(a));
    assert!(atlas.is_resident(b));
}

#[test]
fn renewing_requests_only_what_holds_a_slot() {
    let mut atlas = NodeAtlas::new(2, 1);
    let a = node(0, 0, 0);
    let b = node(0, 1, 0);
    atlas.request(a);
    atlas.complete_load(a, Some(vec![7])).unwrap();
    atlas.release(a);
    renew_nodes(&mut atlas, &vec![b, a]);
    assert_eq!(atlas.state_of(a), SlotState::Loaded);
    assert_eq!(atlas.state_of(b), SlotState::Unloaded);
    assert_eq!(atlas.pending_count(), 0);
    assert_eq!(atlas.node_data(a), Some(&vec![7]));
}
