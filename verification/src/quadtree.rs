//! The quadtree of one terrain as one viewer sees it: the nodes that the
//! last traversal selected, and what changed against the traversal before.

use vstd::prelude::*;
use crate::config::{TerrainConfig, TerrainViewConfig};
use crate::lod::{
    lemma_child_in_tree, lemma_root_in_tree, moved_sq, LodParams, QuadtreeNode, Refinement, Viewer,
};
use crate::node::NodeId;

verus! {

/// The predicate "is not an element of `b`".
pub open spec fn not_in(b: Seq<NodeId>) -> spec_fn(NodeId) -> bool {
    |n: NodeId| !b.contains(n)
}

/// The elements of `a` that `b` does not hold, in the order of `a`.
pub open spec fn difference(a: Seq<NodeId>, b: Seq<NodeId>) -> Seq<NodeId> {
    a.filter(not_in(b))
}

/// The abstract state of a quadtree.
pub struct QuadtreeView {
    pub params: LodParams,
    pub hysteresis: u32,
    /// The nodes that the last traversal visited, each before its children.
    pub nodes: Seq<QuadtreeNode>,
    /// The nodes that the last traversal selected.
    pub desired: Seq<NodeId>,
    /// The selected nodes that the traversal before had not selected.
    pub demanded: Seq<NodeId>,
    /// The nodes that the traversal before had selected and the last one did
    /// not.
    pub released: Seq<NodeId>,
    /// Where the viewer was at the last traversal.
    pub last_viewer: Option<Viewer>,
}

impl QuadtreeView {
    /// After a traversal the quadtree holds what the rule selects for the
    /// viewer of that traversal.
    pub open spec fn wf(self) -> bool {
        &&& self.params.valid()
        &&& self.last_viewer matches Some(v) ==> {
            &&& self.desired == self.params.select(v, self.params.root())
            &&& self.nodes == self.params.visit(v, self.params.root())
        }
    }

    /// Whether the viewer's position calls for a new traversal: none was
    /// made yet, or the viewer has moved farther than the hysteresis
    /// distance since the last one.
    pub open spec fn needs_traversal(self, v: Viewer) -> bool {
        match self.last_viewer {
            None => true,
            Some(last) => moved_sq(last, v) > self.hysteresis * self.hysteresis,
        }
    }

    /// The state after a traversal for the viewer `v`.
    pub open spec fn traverse(self, v: Viewer) -> QuadtreeView {
        let desired = self.params.select(v, self.params.root());
        QuadtreeView {
            nodes: self.params.visit(v, self.params.root()),
            desired,
            demanded: difference(desired, self.desired),
            released: difference(self.desired, desired),
            last_viewer: Some(v),
            ..self
        }
    }

    /// The state after a frame in which no traversal was needed.
    pub open spec fn rest(self) -> QuadtreeView {
        QuadtreeView { demanded: Seq::empty(), released: Seq::empty(), ..self }
    }

    /// The state after `update(v)`.
    pub open spec fn update(self, v: Viewer) -> QuadtreeView {
        if self.needs_traversal(v) {
            self.traverse(v)
        } else {
            self.rest()
        }
    }
}

/// While the viewer stays within the hysteresis distance of the place of
/// the last traversal, an update keeps the selection and reports no change:
/// the selection cannot oscillate under small movements.
pub proof fn lemma_hysteresis(q: QuadtreeView, v: Viewer)
    requires
        q.last_viewer matches Some(last) && moved_sq(last, v) <= q.hysteresis * q.hysteresis,
    ensures
        q.update(v).desired == q.desired,
        q.update(v).nodes == q.nodes,
        q.update(v).last_viewer == q.last_viewer,
        q.update(v).demanded.len() == 0,
        q.update(v).released.len() == 0,
{
}

/// What a traversal reports as changed is what it selects and the traversal
/// before did not, and the other way round.
pub proof fn lemma_traversal_changes(q: QuadtreeView, v: Viewer, n: NodeId)
    ensures
        q.traverse(v).demanded.contains(n) <==> q.traverse(v).desired.contains(n)
            && !q.desired.contains(n),
        q.traverse(v).released.contains(n) <==> q.desired.contains(n) && !q.traverse(
            v,
        ).desired.contains(n),
{
    let new = q.traverse(v).desired;
    lemma_difference(new, q.desired, n);
    lemma_difference(q.desired, new, n);
}

/// The difference holds an element exactly if the first sequence holds it
/// and the second does not.
pub proof fn lemma_difference(a: Seq<NodeId>, b: Seq<NodeId>, n: NodeId)
    ensures
        difference(a, b).contains(n) <==> a.contains(n) && !b.contains(n),
{
    if difference(a, b).contains(n) {
        let i = choose|i: int| 0 <= i < difference(a, b).len() && difference(a, b)[i] == n;
        a.lemma_filter_pred(not_in(b), i);
        a.lemma_filter_contains_rev(not_in(b), n);
    }
    if a.contains(n) && !b.contains(n) {
        let i = choose|i: int| 0 <= i < a.len() && a[i] == n;
        a.lemma_filter_contains(not_in(b), i);
    }
}

/// The quadtree of one terrain for one viewer.
pub struct Quadtree {
    params: LodParams,
    hysteresis: u32,
    nodes: Vec<QuadtreeNode>,
    desired: Vec<NodeId>,
    demanded: Vec<NodeId>,
    released: Vec<NodeId>,
    last_viewer: Option<Viewer>,
}

impl View for Quadtree {
    type V = QuadtreeView;

    closed spec fn view(&self) -> QuadtreeView {
        QuadtreeView {
            params: self.params,
            hysteresis: self.hysteresis,
            nodes: self.nodes@,
            desired: self.desired@,
            demanded: self.demanded@,
            released: self.released@,
            last_viewer: self.last_viewer,
        }
    }
}

/// Whether `list` holds `n`.
pub fn contains_node(list: &Vec<NodeId>, n: NodeId) -> (b: bool)
    ensures
        b == list@.contains(n),
{
    let mut k: usize = 0;
    while k < list.len()
        invariant
            k <= list.len(),
            forall|j: int| 0 <= j < k ==> list[j] != n,
        decreases list.len() - k,
    {
        if list[k] == n {
            return true;
        }
        k += 1;
    }
    false
}

/// The elements of `a` that `b` does not hold, in the order of `a`.
pub fn node_difference(a: &Vec<NodeId>, b: &Vec<NodeId>) -> (d: Vec<NodeId>)
    ensures
        d@ == difference(a@, b@),
{
    let mut d: Vec<NodeId> = Vec::new();
    let mut i: usize = 0;
    proof {
        assert(a@.take(0) =~= Seq::<NodeId>::empty());
        Seq::<NodeId>::empty().lemma_all_neg_filter_empty(not_in(b@));
    }
    while i < a.len()
        invariant
            i <= a.len(),
            d@ == a@.take(i as int).filter(not_in(b@)),
        decreases a.len() - i,
    {
        let n = a[i];
        proof {
            assert(a@.take(i + 1) =~= a@.take(i as int).push(n));
            a@.take(i as int).lemma_filter_push(n, not_in(b@));
        }
        if !contains_node(b, n) {
            d.push(n);
        }
        i += 1;
    }
    proof {
        assert(a@.take(a.len() as int) =~= a@);
    }
    d
}

/// Visits the subtree of `n` and appends what the traversal sees and
/// selects.
fn visit_node(
    p: LodParams,
    v: Viewer,
    n: NodeId,
    nodes: &mut Vec<QuadtreeNode>,
    desired: &mut Vec<NodeId>,
)
    requires
        p.valid(),
        p.in_tree(n),
    ensures
        final(nodes)@ == old(nodes)@ + p.visit(v, n),
        final(desired)@ == old(desired)@ + p.select(v, n),
    decreases n.lod,
{
    let d = p.node_distance_sq(v, n);
    if p.refines(n, d) {
        nodes.push(QuadtreeNode { id: n, decision: Refinement::Split, distance_sq: d });
        proof {
            lemma_child_in_tree(p, n, 0);
            lemma_child_in_tree(p, n, 1);
            lemma_child_in_tree(p, n, 2);
            lemma_child_in_tree(p, n, 3);
        }
        let c = n.children().unwrap();
        visit_node(p, v, c[0], nodes, desired);
        visit_node(p, v, c[1], nodes, desired);
        visit_node(p, v, c[2], nodes, desired);
        visit_node(p, v, c[3], nodes, desired);
        proof {
            assert(c[0] == n.spec_child(0));
            assert(c[1] == n.spec_child(1));
            assert(c[2] == n.spec_child(2));
            assert(c[3] == n.spec_child(3));
            assert(nodes@ =~= old(nodes)@ + p.visit(v, n));
            assert(desired@ =~= old(desired)@ + p.select(v, n));
        }
    } else {
        nodes.push(QuadtreeNode { id: n, decision: Refinement::Coarse, distance_sq: d });
        desired.push(n);
        proof {
            assert(nodes@ =~= old(nodes)@ + p.visit(v, n));
            assert(desired@ =~= old(desired)@ + p.select(v, n));
        }
    }
}

/// Whether two viewer positions are farther apart than `hysteresis`.
fn moved_beyond(a: Viewer, b: Viewer, hysteresis: u32) -> (r: bool)
    ensures
        r == (moved_sq(a, b) > hysteresis * hysteresis),
{
    let dx: i64 = a.x as i64 - b.x as i64;
    let dz: i64 = a.z as i64 - b.z as i64;
    let dh: i64 = a.height as i64 - b.height as i64;
    let h: i64 = hysteresis as i64;
    assert(0 <= dx * dx <= 0x1_0000_0000 * 0x1_0000_0000) by (nonlinear_arith)
        requires
            -0x1_0000_0000 <= dx <= 0x1_0000_0000,
    ;
    assert(0 <= dz * dz <= 0x1_0000_0000 * 0x1_0000_0000) by (nonlinear_arith)
        requires
            -0x1_0000_0000 <= dz <= 0x1_0000_0000,
    ;
    assert(0 <= dh * dh <= 0x1_0000_0000 * 0x1_0000_0000) by (nonlinear_arith)
        requires
            -0x1_0000_0000 <= dh <= 0x1_0000_0000,
    ;
    assert(0 <= h * h <= 0x1_0000_0000 * 0x1_0000_0000) by (nonlinear_arith)
        requires
            0 <= h <= 0x1_0000_0000,
    ;
    let m: i128 = (dx as i128) * (dx as i128) + (dz as i128) * (dz as i128) + (dh as i128) * (
    dh as i128);
    m > (h as i128) * (h as i128)
}

impl Quadtree {
    /// The invariant of the quadtree: after a traversal it holds what the
    /// level-of-detail rule selects for the viewer of that traversal.
    pub open spec fn wf(&self) -> bool {
        self@.wf()
    }

    /// The quadtree of a terrain for one viewer, before its first traversal.
    pub fn from_configs(config: &TerrainConfig, view_config: &TerrainViewConfig) -> (q: Quadtree)
        requires
            config.valid(),
        ensures
            q.wf(),
            q@.params == (LodParams {
                lod_count: config.lod_count,
                leaf_node_size: config.leaf_node_size,
                view_distance: view_config.view_distance,
                refinement_cap: view_config.refinement_cap,
            }),
            q@.hysteresis == view_config.hysteresis,
            q@.nodes.len() == 0,
            q@.desired.len() == 0,
            q@.demanded.len() == 0,
            q@.released.len() == 0,
            q@.last_viewer.is_none(),
    {
        Quadtree {
            params: LodParams {
                lod_count: config.lod_count,
                leaf_node_size: config.leaf_node_size,
                view_distance: view_config.view_distance,
                refinement_cap: view_config.refinement_cap,
            },
            hysteresis: view_config.hysteresis,
            nodes: Vec::new(),
            desired: Vec::new(),
            demanded: Vec::new(),
            released: Vec::new(),
            last_viewer: None,
        }
    }

    /// Replaces the viewer's tunables. The next `update` traverses again,
    /// wherever the viewer is.
    pub fn set_view_config(&mut self, view_config: &TerrainViewConfig)
        requires
            old(self).wf(),
        ensures
            final(self).wf(),
            final(self)@ == (QuadtreeView {
                params: LodParams {
                    view_distance: view_config.view_distance,
                    refinement_cap: view_config.refinement_cap,
                    ..old(self)@.params
                },
                hysteresis: view_config.hysteresis,
                last_viewer: None,
                ..old(self)@
            }),
    {
        self.params.view_distance = view_config.view_distance;
        self.params.refinement_cap = view_config.refinement_cap;
        self.hysteresis = view_config.hysteresis;
        self.last_viewer = None;
    }

    /// The constants that the selection depends on.
    pub fn params(&self) -> (p: LodParams)
        ensures
            p == self@.params,
    {
        self.params
    }

    /// The nodes that the last traversal selected, in its order.
    pub fn desired(&self) -> (d: &Vec<NodeId>)
        ensures
            d@ == self@.desired,
    {
        &self.desired
    }

    /// The selected nodes that the traversal before had not selected.
    pub fn demanded(&self) -> (d: &Vec<NodeId>)
        ensures
            d@ == self@.demanded,
    {
        &self.demanded
    }

    /// The nodes that the last traversal no longer selected.
    pub fn released(&self) -> (d: &Vec<NodeId>)
        ensures
            d@ == self@.released,
    {
        &self.released
    }

    /// The nodes that the last traversal visited, with its decisions.
    pub fn nodes(&self) -> (d: &Vec<QuadtreeNode>)
        ensures
            d@ == self@.nodes,
    {
        &self.nodes
    }

    /// Where the viewer was at the last traversal.
    pub fn last_viewer(&self) -> (v: Option<Viewer>)
        ensures
            v == self@.last_viewer,
    {
        self.last_viewer
    }

    /// Whether the viewer's position calls for a new traversal.
    pub fn needs_traversal(&self, v: Viewer) -> (b: bool)
        ensures
            b == self@.needs_traversal(v),
    {
        match self.last_viewer {
            None => true,
            Some(last) => moved_beyond(last, v, self.hysteresis),
        }
    }

    /// Traverses the quadtree from the root for the viewer `v` and records
    /// the selection and its difference to the selection before.
    pub fn traverse(&mut self, v: Viewer)
        requires
            old(self).wf(),
        ensures
            final(self).wf(),
            final(self)@ == old(self)@.traverse(v),
    {
        let p = self.params;
        let root = NodeId { lod: p.lod_count - 1, x: 0, y: 0 };
        let mut nodes: Vec<QuadtreeNode> = Vec::new();
        let mut desired: Vec<NodeId> = Vec::new();
        proof {
            lemma_root_in_tree(p);
        }
        visit_node(p, v, root, &mut nodes, &mut desired);
        proof {
            assert(nodes@ =~= p.visit(v, root));
            assert(desired@ =~= p.select(v, root));
        }
        self.demanded = node_difference(&desired, &self.desired);
        self.released = node_difference(&self.desired, &desired);
        self.nodes = nodes;
        self.desired = desired;
        self.last_viewer = Some(v);
    }

    /// Brings the quadtree up to date for this frame: traverses if the
    /// viewer has moved beyond the hysteresis distance since the last
    /// traversal (or none was made), and otherwise keeps the selection and
    /// reports no change. Returns whether it traversed.
    pub fn update(&mut self, v: Viewer) -> (traversed: bool)
        requires
            old(self).wf(),
        ensures
            final(self).wf(),
            traversed == old(self)@.needs_traversal(v),
            final(self)@ == old(self)@.update(v),
    {
        if self.needs_traversal(v) {
            self.traverse(v);
            true
        } else {
            self.demanded = Vec::new();
            self.released = Vec::new();
            assert(self@.demanded =~= Seq::<NodeId>::empty());
            assert(self@.released =~= Seq::<NodeId>::empty());
            false
        }
    }
}

} // verus!
