//! The step from the traversals of a frame to the atlas: what no view
//! selects any longer is released, what the views select and the atlas
//! still holds is kept, what they newly select is requested.

use vstd::prelude::*;
use crate::atlas_model::{
    lemma_index_of, lemma_next_pending_shortens, lemma_next_pending_wf, lemma_release_other,
    lemma_release_wf, lemma_request_resident, lemma_request_wf, lemma_step_wf,
    lemma_wanted_never_evicted, AtlasOp, AtlasView, RequestStatus,
};
use crate::config::{AttachmentConfig, TerrainConfig};
use crate::node::NodeId;
use crate::node_atlas::NodeAtlas;
use crate::quadtree::{difference, lemma_difference, node_difference, Quadtree, QuadtreeView};

verus! {

/// A load that the caller has to perform: the node whose artifact is to be
/// read, and the slot that was reserved for it.
#[derive(Clone, Copy, Debug, PartialEq, Eq, Structural)]
pub struct LoadRequest {
    pub node: NodeId,
    pub slot: usize,
}

/// What the views of one terrain select in one frame, as the atlas of that
/// terrain has to know it.
#[derive(Debug)]
pub struct Selection {
    /// The nodes that the views select, view after view.
    pub desired: Vec<NodeId>,
    /// The nodes that a view selects and had not selected before.
    pub demanded: Vec<NodeId>,
    /// The nodes that a view has ceased to select.
    pub released: Vec<NodeId>,
}

/// The abstract state of a `Selection`.
pub struct SelectionView {
    pub desired: Seq<NodeId>,
    pub demanded: Seq<NodeId>,
    pub released: Seq<NodeId>,
}

impl SelectionView {
    /// The selection of no view.
    pub open spec fn empty() -> SelectionView {
        SelectionView { desired: Seq::empty(), demanded: Seq::empty(), released: Seq::empty() }
    }

    /// The selection with what the view `q` selects added.
    pub open spec fn with(self, q: QuadtreeView) -> SelectionView {
        SelectionView {
            desired: self.desired + q.desired,
            demanded: self.demanded + q.demanded,
            released: self.released + q.released,
        }
    }

    /// The nodes to release: those that a view has ceased to select and no
    /// view selects.
    pub open spec fn dropped(self) -> Seq<NodeId> {
        difference(self.released, self.desired)
    }
}

impl View for Selection {
    type V = SelectionView;

    open spec fn view(&self) -> SelectionView {
        SelectionView {
            desired: self.desired@,
            demanded: self.demanded@,
            released: self.released@,
        }
    }
}

/// Appends `more` to `list`.
fn append_nodes(list: &mut Vec<NodeId>, more: &Vec<NodeId>)
    ensures
        final(list)@ == old(list)@ + more@,
{
    let mut i: usize = 0;
    proof {
        assert(old(list)@ + more@.take(0) =~= old(list)@);
    }
    while i < more.len()
        invariant
            i <= more.len(),
            list@ == old(list)@ + more@.take(i as int),
        decreases more.len() - i,
    {
        list.push(more[i]);
        i += 1;
        proof {
            assert(list@ =~= old(list)@ + more@.take(i as int));
        }
    }
    proof {
        assert(more@.take(more.len() as int) =~= more@);
    }
}

impl Selection {
    /// The selection of no view.
    pub fn new() -> (s: Selection)
        ensures
            s@ == SelectionView::empty(),
    {
        Selection { desired: Vec::new(), demanded: Vec::new(), released: Vec::new() }
    }

    /// Adds what the view `quadtree` selects after its last update.
    pub fn add(&mut self, quadtree: &Quadtree)
        ensures
            final(self)@ == old(self)@.with(quadtree@),
    {
        append_nodes(&mut self.desired, quadtree.desired());
        append_nodes(&mut self.demanded, quadtree.demanded());
        append_nodes(&mut self.released, quadtree.released());
    }
}

/// A selection holds what every view added to it selects.
pub proof fn lemma_with_holds(s: SelectionView, q: QuadtreeView, n: NodeId)
    requires
        s.desired.contains(n) || q.desired.contains(n),
    ensures
        s.with(q).desired.contains(n),
{
    let all = s.with(q).desired;
    if s.desired.contains(n) {
        let k = choose|k: int| 0 <= k < s.desired.len() && s.desired[k] == n;
        assert(all[k] == n);
    } else {
        let k = choose|k: int| 0 <= k < q.desired.len() && q.desired[k] == n;
        assert(all[s.desired.len() + k] == n);
    }
}

/// The atlas after the nodes were released one after the other.
pub open spec fn release_all(a: AtlasView, nodes: Seq<NodeId>) -> AtlasView
    decreases nodes.len(),
{
    if nodes.len() == 0 {
        a
    } else {
        release_all(a, nodes.drop_last()).release(nodes.last())
    }
}

/// The atlas after those of the nodes that occupy a slot were requested,
/// one after the other. No such request needs a slot, so none evicts.
pub open spec fn renew_all(a: AtlasView, nodes: Seq<NodeId>) -> AtlasView
    decreases nodes.len(),
{
    if nodes.len() == 0 {
        a
    } else {
        let before = renew_all(a, nodes.drop_last());
        if before.resident(nodes.last()) {
            before.request(nodes.last())
        } else {
            before
        }
    }
}

/// The atlas after the nodes were requested one after the other.
pub open spec fn request_all(a: AtlasView, nodes: Seq<NodeId>) -> AtlasView
    decreases nodes.len(),
{
    if nodes.len() == 0 {
        a
    } else {
        request_all(a, nodes.drop_last()).request(nodes.last())
    }
}

/// The loads that requesting the nodes one after the other starts, in their
/// order.
pub open spec fn loads_started(a: AtlasView, nodes: Seq<NodeId>) -> Seq<LoadRequest>
    decreases nodes.len(),
{
    if nodes.len() == 0 {
        Seq::empty()
    } else {
        let before = loads_started(a, nodes.drop_last());
        match request_all(a, nodes.drop_last()).request_status(nodes.last()) {
            RequestStatus::Started(slot) => before.push(LoadRequest { node: nodes.last(), slot }),
            _ => before,
        }
    }
}

/// The atlas, and the loads to perform, after at most `k` deferred requests
/// were started, oldest first, as long as a slot could be had; `loads` are
/// the loads that were to perform before.
pub open spec fn resume(a: AtlasView, loads: Seq<LoadRequest>, k: nat) -> (
    AtlasView,
    Seq<LoadRequest>,
)
    decreases k,
{
    if k == 0 || !a.can_start_pending() {
        (a, loads)
    } else {
        resume(
            a.next_pending(),
            loads.push(LoadRequest { node: a.pending[0], slot: a.target()->Some_0 as usize }),
            (k - 1) as nat,
        )
    }
}

/// The atlas, and the loads to perform, after a frame in which the views
/// select `s`: the frame is counted; the nodes that no view selects any
/// longer are released; the selected nodes that occupy a slot are requested
/// and thereby kept; then the newly selected nodes are requested; then
/// deferred requests are started as long as a slot can be had.
pub open spec fn refresh(a: AtlasView, s: SelectionView) -> (AtlasView, Seq<LoadRequest>) {
    let renewed = renew_all(release_all(a.advance_frame(), s.dropped()), s.desired);
    let requested = request_all(renewed, s.demanded);
    resume(requested, loads_started(renewed, s.demanded), requested.pending.len())
}

/// What a frame owes to a selected node `n` that occupied a slot of `a`: in
/// `b` it is wanted and occupies the same slot, and where the slot held its
/// data, it is ready with that data.
pub open spec fn kept(a: AtlasView, b: AtlasView, n: NodeId) -> bool {
    &&& b.wanted(n)
    &&& b.index_of(n) == a.index_of(n)
    &&& a.holds_data(a.index_of(n)) ==> b.is_ready(n) && b.data[a.index_of(n)] == a.data[a.index_of(
        n,
    )]
}

/// Releasing nodes leaves every other node in its slot, in its state and
/// with its data.
pub proof fn lemma_release_all_keeps(a: AtlasView, nodes: Seq<NodeId>, n: NodeId)
    requires
        a.wf(),
        a.resident(n),
        !nodes.contains(n),
    ensures
        release_all(a, nodes).wf(),
        release_all(a, nodes).resident(n),
        release_all(a, nodes).index_of(n) == a.index_of(n),
        release_all(a, nodes).slots[a.index_of(n)] == a.slots[a.index_of(n)],
        release_all(a, nodes).data[a.index_of(n)] == a.data[a.index_of(n)],
    decreases nodes.len(),
{
    if nodes.len() > 0 {
        let rest = nodes.drop_last();
        if rest.contains(n) {
            let k = choose|k: int| 0 <= k < rest.len() && rest[k] == n;
            assert(nodes[k] == n);
        }
        assert(nodes[nodes.len() - 1] != n);
        lemma_release_all_keeps(a, rest, n);
        lemma_release_wf(release_all(a, rest), nodes.last());
        lemma_release_other(release_all(a, rest), nodes.last(), n);
    }
}

/// Requesting the resident ones among `nodes` leaves every resident node in
/// its slot and with its data; a node among `nodes` is wanted afterwards,
/// and ready if its slot held its data.
pub proof fn lemma_renew_all_keeps(a: AtlasView, nodes: Seq<NodeId>, n: NodeId)
    requires
        a.wf(),
        a.resident(n),
    ensures
        renew_all(a, nodes).wf(),
        renew_all(a, nodes).resident(n),
        renew_all(a, nodes).index_of(n) == a.index_of(n),
        renew_all(a, nodes).data[a.index_of(n)] == a.data[a.index_of(n)],
        a.holds_data(a.index_of(n)) ==> renew_all(a, nodes).holds_data(a.index_of(n)),
        nodes.contains(n) ==> renew_all(a, nodes).wanted(n),
        nodes.contains(n) && a.holds_data(a.index_of(n)) ==> renew_all(a, nodes).is_ready(n),
    decreases nodes.len(),
{
    if nodes.len() > 0 {
        let rest = nodes.drop_last();
        let m = nodes.last();
        let before = renew_all(a, rest);
        lemma_renew_all_keeps(a, rest, n);
        if nodes.contains(n) && m != n {
            let k = choose|k: int| 0 <= k < nodes.len() && nodes[k] == n;
            assert(rest[k] == n);
        }
        if before.resident(m) {
            lemma_request_wf(before, m);
            lemma_request_resident(before, m, n);
        }
    }
}

/// Requests take no slot from a wanted node: it keeps its slot, its state
/// and its data through any number of them.
pub proof fn lemma_request_all_keeps(a: AtlasView, nodes: Seq<NodeId>, n: NodeId)
    requires
        a.wf(),
        a.wanted(n),
    ensures
        request_all(a, nodes).wf(),
        request_all(a, nodes).wanted(n),
        request_all(a, nodes).index_of(n) == a.index_of(n),
        request_all(a, nodes).slots[a.index_of(n)].state == a.slots[a.index_of(n)].state,
        request_all(a, nodes).data[a.index_of(n)] == a.data[a.index_of(n)],
    decreases nodes.len(),
{
    if nodes.len() > 0 {
        let before = request_all(a, nodes.drop_last());
        lemma_request_all_keeps(a, nodes.drop_last(), n);
        lemma_request_wf(before, nodes.last());
        lemma_wanted_never_evicted(before, AtlasOp::Request(nodes.last()), n);
    }
}

/// Starting deferred requests takes no slot from a wanted node.
pub proof fn lemma_resume_keeps(a: AtlasView, loads: Seq<LoadRequest>, k: nat, n: NodeId)
    requires
        a.wf(),
        a.wanted(n),
    ensures
        resume(a, loads, k).0.wf(),
        resume(a, loads, k).0.wanted(n),
        resume(a, loads, k).0.index_of(n) == a.index_of(n),
        resume(a, loads, k).0.slots[a.index_of(n)].state == a.slots[a.index_of(n)].state,
        resume(a, loads, k).0.data[a.index_of(n)] == a.data[a.index_of(n)],
    decreases k,
{
    if k > 0 && a.can_start_pending() {
        lemma_next_pending_wf(a);
        lemma_wanted_never_evicted(a, AtlasOp::NextPending, n);
        lemma_resume_keeps(
            a.next_pending(),
            loads.push(LoadRequest { node: a.pending[0], slot: a.target()->Some_0 as usize }),
            (k - 1) as nat,
            n,
        );
    }
}

/// A frame never evicts a node that a view selects. Every selected node
/// that occupied a slot before the frame occupies the same slot after it
/// and is wanted; where the slot held the node's data, the node is ready
/// with the same data.
pub proof fn lemma_selection_kept(a: AtlasView, s: SelectionView, n: NodeId)
    requires
        a.wf(),
        s.desired.contains(n),
        a.resident(n),
    ensures
        refresh(a, s).0.wf(),
        kept(a, refresh(a, s).0, n),
{
    let i = a.index_of(n);
    let counted = a.advance_frame();
    assert(a.holds(i, n));
    lemma_step_wf(a, AtlasOp::AdvanceFrame);
    assert(counted.holds(i, n));
    lemma_index_of(counted, i, n);
    lemma_difference(s.released, s.desired, n);
    let released = release_all(counted, s.dropped());
    lemma_release_all_keeps(counted, s.dropped(), n);
    let renewed = renew_all(released, s.desired);
    lemma_renew_all_keeps(released, s.desired, n);
    let requested = request_all(renewed, s.demanded);
    lemma_request_all_keeps(renewed, s.demanded, n);
    lemma_resume_keeps(
        requested,
        loads_started(renewed, s.demanded),
        requested.pending.len(),
        n,
    );
}

/// An atlas for one attachment of a terrain: as many slots as the terrain
/// is configured with, each for one artifact of the attachment.
pub fn atlas_for(config: &TerrainConfig, attachment: &AttachmentConfig) -> (atlas: NodeAtlas)
    requires
        config.valid(),
        attachment.valid(),
    ensures
        atlas.wf(),
        atlas@ == crate::node_atlas::empty_atlas(
            config.node_atlas_size,
            attachment.spec_artifact_size() as usize,
        ),
{
    NodeAtlas::new(config.node_atlas_size, attachment.artifact_size())
}

/// Releases the given nodes, one after the other.
pub fn release_nodes(atlas: &mut NodeAtlas, nodes: &Vec<NodeId>)
    requires
        old(atlas).wf(),
    ensures
        final(atlas).wf(),
        final(atlas)@ == release_all(old(atlas)@, nodes@),
{
    let mut i: usize = 0;
    proof {
        assert(nodes@.take(0) =~= Seq::<NodeId>::empty());
    }
    while i < nodes.len()
        invariant
            i <= nodes.len(),
            atlas.wf(),
            atlas@ == release_all(old(atlas)@, nodes@.take(i as int)),
        decreases nodes.len() - i,
    {
        proof {
            assert(nodes@.take(i + 1).drop_last() =~= nodes@.take(i as int));
        }
        atlas.release(nodes[i]);
        i += 1;
    }
    proof {
        assert(nodes@.take(nodes.len() as int) =~= nodes@);
    }
}

/// Requests those of the given nodes that occupy a slot, one after the
/// other: they are wanted again, and none of them can be evicted.
pub fn renew_nodes(atlas: &mut NodeAtlas, nodes: &Vec<NodeId>)
    requires
        old(atlas).wf(),
    ensures
        final(atlas).wf(),
        final(atlas)@ == renew_all(old(atlas)@, nodes@),
{
    let mut i: usize = 0;
    proof {
        assert(nodes@.take(0) =~= Seq::<NodeId>::empty());
    }
    while i < nodes.len()
        invariant
            i <= nodes.len(),
            atlas.wf(),
            atlas@ == renew_all(old(atlas)@, nodes@.take(i as int)),
        decreases nodes.len() - i,
    {
        proof {
            assert(nodes@.take(i + 1).drop_last() =~= nodes@.take(i as int));
        }
        if atlas.is_resident(nodes[i]) {
            atlas.request(nodes[i]);
        }
        i += 1;
    }
    proof {
        assert(nodes@.take(nodes.len() as int) =~= nodes@);
    }
}

/// Requests the given nodes, one after the other, and returns the loads
/// that the caller has to perform.
pub fn request_nodes(atlas: &mut NodeAtlas, nodes: &Vec<NodeId>) -> (loads: Vec<LoadRequest>)
    requires
        old(atlas).wf(),
    ensures
        final(atlas).wf(),
        final(atlas)@ == request_all(old(atlas)@, nodes@),
        loads@ == loads_started(old(atlas)@, nodes@),
{
    let mut loads: Vec<LoadRequest> = Vec::new();
    let mut i: usize = 0;
    proof {
        assert(nodes@.take(0) =~= Seq::<NodeId>::empty());
    }
    while i < nodes.len()
        invariant
            i <= nodes.len(),
            atlas.wf(),
            atlas@ == request_all(old(atlas)@, nodes@.take(i as int)),
            loads@ == loads_started(old(atlas)@, nodes@.take(i as int)),
        decreases nodes.len() - i,
    {
        proof {
            assert(nodes@.take(i + 1).drop_last() =~= nodes@.take(i as int));
        }
        match atlas.request(nodes[i]) {
            RequestStatus::Started(slot) => {
                loads.push(LoadRequest { node: nodes[i], slot });
            },
            _ => {},
        }
        i += 1;
    }
    proof {
        assert(nodes@.take(nodes.len() as int) =~= nodes@);
    }
    loads
}

/// Starts deferred requests, oldest first, as long as a slot can be had,
/// and adds the loads that the caller has to perform to `loads`.
pub fn start_pending(atlas: &mut NodeAtlas, loads: &mut Vec<LoadRequest>)
    requires
        old(atlas).wf(),
    ensures
        final(atlas).wf(),
        final(atlas)@ == resume(old(atlas)@, old(loads)@, old(atlas)@.pending.len()).0,
        final(loads)@ == resume(old(atlas)@, old(loads)@, old(atlas)@.pending.len()).1,
{
    let ghost whole = resume(old(atlas)@, old(loads)@, old(atlas)@.pending.len());
    loop
        invariant
            atlas.wf(),
            whole == resume(old(atlas)@, old(loads)@, old(atlas)@.pending.len()),
            whole == resume(atlas@, loads@, atlas@.pending.len()),
        decreases atlas@.pending.len(),
    {
        let ghost before = atlas@;
        match atlas.next_pending() {
            None => {
                proof {
                    assert(!before.can_start_pending());
                    assert(whole == (atlas@, loads@));
                }
                return ;
            },
            Some((node, slot)) => {
                proof {
                    lemma_next_pending_shortens(before);
                }
                loads.push(LoadRequest { node, slot });
            },
        }
    }
}

/// Brings the atlas up to date with what the views of its terrain select
/// in a new frame, and returns the loads that the caller has to perform.
/// No selected node that occupies a slot loses it.
pub fn refresh_nodes(atlas: &mut NodeAtlas, selection: &Selection) -> (loads: Vec<LoadRequest>)
    requires
        old(atlas).wf(),
    ensures
        final(atlas).wf(),
        final(atlas)@ == refresh(old(atlas)@, selection@).0,
        loads@ == refresh(old(atlas)@, selection@).1,
        forall|n: NodeId|
            selection@.desired.contains(n) && old(atlas)@.resident(n) ==> #[trigger] kept(
                old(atlas)@,
                final(atlas)@,
                n,
            ),
{
    atlas.advance_frame();
    let dropped = node_difference(&selection.released, &selection.desired);
    release_nodes(atlas, &dropped);
    renew_nodes(atlas, &selection.desired);
    let mut loads = request_nodes(atlas, &selection.demanded);
    start_pending(atlas, &mut loads);
    proof {
        assert forall|n: NodeId|
            selection@.desired.contains(n) && old(atlas)@.resident(n) implies #[trigger] kept(
            old(atlas)@,
            atlas@,
            n,
        ) by {
            lemma_selection_kept(old(atlas)@, selection@, n);
        }
    }
    loads
}

/// Brings the atlas up to date with the last update of the one view of its
/// terrain in a new frame, and returns the loads that the caller has to
/// perform. No node that the traversal selects loses its slot.
pub fn update_nodes(atlas: &mut NodeAtlas, quadtree: &Quadtree) -> (loads: Vec<LoadRequest>)
    requires
        old(atlas).wf(),
    ensures
        final(atlas).wf(),
        final(atlas)@ == refresh(old(atlas)@, SelectionView::empty().with(quadtree@)).0,
        loads@ == refresh(old(atlas)@, SelectionView::empty().with(quadtree@)).1,
        forall|n: NodeId|
            quadtree@.desired.contains(n) && old(atlas)@.resident(n) ==> #[trigger] kept(
                old(atlas)@,
                final(atlas)@,
                n,
            ),
{
    let mut selection = Selection::new();
    selection.add(quadtree);
    proof {
        assert forall|n: NodeId| quadtree@.desired.contains(n) implies selection@.desired.contains(
            n,
        ) by {
            lemma_with_holds(SelectionView::empty(), quadtree@, n);
        }
    }
    refresh_nodes(atlas, &selection)
}

/// The nearest node that is ready among the ancestors of `n` from the
/// `k`-th to the `max`-th, the `0`-th being `n` itself.
pub open spec fn nearest_ready(a: AtlasView, n: NodeId, k: nat, max: nat) -> Option<NodeId>
    decreases max + 1 - k,
{
    if k > max {
        None
    } else if a.is_ready(n.ancestor(k)) {
        Some(n.ancestor(k))
    } else {
        nearest_ready(a, n, k + 1, max)
    }
}

/// The node to draw in place of `node`: `node` itself if it is ready, else
/// its nearest ancestor that is, up to the level `root_lod`. `None` where
/// none of them is ready or `node` lies above that level.
pub fn ready_ancestor(atlas: &NodeAtlas, node: NodeId, root_lod: u32) -> (r: Option<NodeId>)
    requires
        atlas.wf(),
    ensures
        r == if node.lod <= root_lod {
            nearest_ready(atlas@, node, 0, (root_lod - node.lod) as nat)
        } else {
            None
        },
{
    if node.lod > root_lod {
        return None;
    }
    let ghost max = (root_lod - node.lod) as nat;
    let mut cur = node;
    let mut k: u32 = 0;
    loop
        invariant
            atlas.wf(),
            node.lod <= root_lod,
            max == root_lod - node.lod,
            k <= max,
            cur.lod == node.lod + k,
            cur == node.ancestor(k as nat),
            nearest_ready(atlas@, node, 0, max) == nearest_ready(atlas@, node, k as nat, max),
        decreases max - k,
    {
        if atlas.is_ready(cur) {
            return Some(cur);
        }
        if cur.lod == root_lod {
            proof {
                assert(nearest_ready(atlas@, node, (k + 1) as nat, max).is_none());
            }
            return None;
        }
        cur = NodeId { lod: cur.lod + 1, x: cur.x / 2, y: cur.y / 2 };
        k = k + 1;
    }
}

} // verus!
