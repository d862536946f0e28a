//! The level-of-detail rule: which nodes of the quadtree a viewer needs.
//!
//! A node is refined into its four children when the viewer is closer to it
//! than a threshold that doubles with each level. A viewer exactly at the
//! threshold keeps the node coarse. Level 0 is never refined, and no node is
//! refined that lies `refinement_cap` refinements below the root.

use vstd::prelude::*;
use vstd::arithmetic::power2::{
    lemma2_to64, lemma_pow2_adds, lemma_pow2_pos, lemma_pow2_strictly_increases,
    lemma_pow2_unfold, pow2,
};
use vstd::bits::{lemma_u32_shl_is_mul, lemma_u64_shl_is_mul};
use crate::config::{lemma_node_size, node_size, MAX_LOD_COUNT};
use crate::node::{lemma_subtrees_disjoint, lemma_within_child, NodeId};

verus! {

/// The position of a viewer in world units: `x` and `z` on the ground plane,
/// measured from the terrain's origin, and the height above it.
#[derive(Clone, Copy, Debug, PartialEq, Eq, Structural)]
pub struct Viewer {
    pub x: i32,
    pub z: i32,
    pub height: i32,
}

/// What a traversal decided for a node.
#[derive(Clone, Copy, Debug, PartialEq, Eq, Structural)]
pub enum Refinement {
    /// The node is selected as it is.
    Coarse,
    /// The node is replaced by its four children.
    Split,
}

/// A node as a traversal saw it.
#[derive(Clone, Copy, Debug, PartialEq, Eq, Structural)]
pub struct QuadtreeNode {
    pub id: NodeId,
    pub decision: Refinement,
    /// The squared distance from the viewer to the node, on which the
    /// decision rests.
    pub distance_sq: u128,
}

/// The constants that the selection depends on.
#[derive(Clone, Copy, Debug, PartialEq, Eq, Structural)]
pub struct LodParams {
    pub lod_count: u32,
    pub leaf_node_size: u32,
    pub view_distance: u32,
    pub refinement_cap: u32,
}

/// The least of four levels.
pub open spec fn least_of(a: nat, b: nat, c: nat, d: nat) -> nat {
    let ab = if a <= b {
        a
    } else {
        b
    };
    let cd = if c <= d {
        c
    } else {
        d
    };
    if ab <= cd {
        ab
    } else {
        cd
    }
}

/// The distance from the point `p` to the interval from `lo` to `hi`.
pub open spec fn axis_distance(p: int, lo: int, hi: int) -> int {
    if p < lo {
        lo - p
    } else if p > hi {
        p - hi
    } else {
        0
    }
}

/// The squared distance between two viewer positions.
pub open spec fn moved_sq(a: Viewer, b: Viewer) -> int {
    (a.x - b.x) * (a.x - b.x) + (a.z - b.z) * (a.z - b.z) + (a.height - b.height) * (a.height
        - b.height)
}

impl LodParams {
    /// The quadtree has a level, and its root fits in 32 bits.
    pub open spec fn valid(self) -> bool {
        &&& self.leaf_node_size > 0
        &&& 1 <= self.lod_count <= MAX_LOD_COUNT
        &&& node_size(self.leaf_node_size, (self.lod_count - 1) as nat) <= u32::MAX
    }

    /// The root of the quadtree.
    pub open spec fn root(self) -> NodeId {
        NodeId { lod: (self.lod_count - 1) as u32, x: 0, y: 0 }
    }

    /// The number of refinements between the root and `n`.
    pub open spec fn depth(self, n: NodeId) -> int {
        self.lod_count - 1 - n.lod
    }

    /// `n` is a node of this quadtree: its level exists and its position
    /// lies in the grid of that level.
    pub open spec fn in_tree(self, n: NodeId) -> bool {
        &&& n.lod < self.lod_count
        &&& n.x < pow2(self.depth(n) as nat)
        &&& n.y < pow2(self.depth(n) as nat)
    }

    /// The side length of `n` in world units.
    pub open spec fn size(self, n: NodeId) -> int {
        node_size(self.leaf_node_size, n.lod as nat) as int
    }

    /// The squared distance from the viewer to the footprint of `n`; the
    /// viewer's height counts in full.
    pub open spec fn distance_sq(self, v: Viewer, n: NodeId) -> int {
        let s = self.size(n);
        let dx = axis_distance(v.x as int, n.x * s, (n.x + 1) * s);
        let dz = axis_distance(v.z as int, n.y * s, (n.y + 1) * s);
        dx * dx + dz * dz + v.height * v.height
    }

    /// The distance below which a node of level `lod` is refined.
    pub open spec fn threshold(self, lod: nat) -> int {
        self.view_distance * pow2(lod)
    }

    /// Whether the traversal refines `n`.
    pub open spec fn splits(self, v: Viewer, n: NodeId) -> bool {
        &&& n.lod > 0
        &&& self.depth(n) < self.refinement_cap
        &&& self.distance_sq(v, n) < self.threshold(n.lod as nat) * self.threshold(n.lod as nat)
    }

    /// What the traversal decides for `n`.
    pub open spec fn decision(self, v: Viewer, n: NodeId) -> Refinement {
        if self.splits(v, n) {
            Refinement::Split
        } else {
            Refinement::Coarse
        }
    }

    /// The record that a traversal keeps of `n`.
    pub open spec fn record(self, v: Viewer, n: NodeId) -> QuadtreeNode {
        QuadtreeNode {
            id: n,
            decision: self.decision(v, n),
            distance_sq: self.distance_sq(v, n) as u128,
        }
    }

    /// The nodes selected in the subtree of `n`, in the order of the
    /// traversal: `n` itself where it is kept coarse, else what its four
    /// children select.
    pub open spec fn select(self, v: Viewer, n: NodeId) -> Seq<NodeId>
        decreases n.lod,
    {
        if self.splits(v, n) {
            self.select(v, n.spec_child(0)) + self.select(v, n.spec_child(1)) + self.select(
                v,
                n.spec_child(2),
            ) + self.select(v, n.spec_child(3))
        } else {
            seq![n]
        }
    }

    /// The finest level among the nodes selected in the subtree of `n`.
    pub open spec fn finest(self, v: Viewer, n: NodeId) -> nat
        decreases n.lod,
    {
        if self.splits(v, n) {
            least_of(
                self.finest(v, n.spec_child(0)),
                self.finest(v, n.spec_child(1)),
                self.finest(v, n.spec_child(2)),
                self.finest(v, n.spec_child(3)),
            )
        } else {
            n.lod as nat
        }
    }

    /// The level that is reached from a node of level `lod`, `depth`
    /// refinements below the root, by refining as long as the rule refines
    /// a node at the squared distance `distance_sq`.
    pub open spec fn finest_at(self, distance_sq: int, lod: nat, depth: int) -> nat
        decreases lod,
    {
        if lod > 0 && depth < self.refinement_cap && distance_sq < self.threshold(lod)
            * self.threshold(lod) {
            self.finest_at(distance_sq, (lod - 1) as nat, depth + 1)
        } else {
            lod
        }
    }

    /// The nodes visited in the subtree of `n`, each before its children.
    pub open spec fn visit(self, v: Viewer, n: NodeId) -> Seq<QuadtreeNode>
        decreases n.lod,
    {
        if self.splits(v, n) {
            seq![self.record(v, n)] + self.visit(v, n.spec_child(0)) + self.visit(
                v,
                n.spec_child(1),
            ) + self.visit(v, n.spec_child(2)) + self.visit(v, n.spec_child(3))
        } else {
            seq![self.record(v, n)]
        }
    }
}

/// The root is a node of the quadtree.
pub proof fn lemma_root_in_tree(p: LodParams)
    requires
        p.valid(),
    ensures
        p.in_tree(p.root()),
{
    lemma2_to64();
}

/// The children of a node of the quadtree above level 0 are nodes of the
/// quadtree.
pub proof fn lemma_child_in_tree(p: LodParams, n: NodeId, q: int)
    requires
        p.valid(),
        p.in_tree(n),
        n.lod > 0,
        0 <= q < 4,
    ensures
        n.can_split(),
        p.in_tree(n.spec_child(q)),
        p.depth(n.spec_child(q)) == p.depth(n) + 1,
{
    let d = p.depth(n) as nat;
    lemma2_to64();
    lemma_pow2_unfold(d + 1);
    if d + 1 < 31 {
        lemma_pow2_strictly_increases(d + 1, 31);
    }
}

/// The footprint of a node of the quadtree lies inside the root's.
pub proof fn lemma_footprint(p: LodParams, n: NodeId)
    requires
        p.valid(),
        p.in_tree(n),
    ensures
        0 < p.size(n) <= u32::MAX,
        0 <= n.x * p.size(n) < (n.x + 1) * p.size(n) <= u32::MAX,
        0 <= n.y * p.size(n) < (n.y + 1) * p.size(n) <= u32::MAX,
{
    let top = (p.lod_count - 1) as nat;
    let d = p.depth(n) as nat;
    let l = p.leaf_node_size as int;
    let s = p.size(n);
    let a = pow2(n.lod as nat) as int;
    let b = pow2(d) as int;
    lemma_node_size(p.leaf_node_size, n.lod as nat, top);
    lemma_pow2_adds(n.lod as nat, d);
    lemma_pow2_pos(d);
    assert(pow2(top) == a * b);
    assert(s * b == node_size(p.leaf_node_size, top)) by (nonlinear_arith)
        requires
            s == l * a,
            node_size(p.leaf_node_size, top) == l * pow2(top),
            pow2(top) == a * b,
    ;
    let x = n.x as int;
    let y = n.y as int;
    assert(0 <= x * s < (x + 1) * s <= s * b) by (nonlinear_arith)
        requires
            0 <= x < b,
            s > 0,
    ;
    assert(0 <= y * s < (y + 1) * s <= s * b) by (nonlinear_arith)
        requires
            0 <= y < b,
            s > 0,
    ;
}

/// The part of a concatenation of four sequences that holds position `k`,
/// and the position in that part.
pub open spec fn locate(lens: Seq<int>, k: int) -> (int, int) {
    if k < lens[0] {
        (0, k)
    } else if k < lens[0] + lens[1] {
        (1, k - lens[0])
    } else if k < lens[0] + lens[1] + lens[2] {
        (2, k - lens[0] - lens[1])
    } else {
        (3, k - lens[0] - lens[1] - lens[2])
    }
}

/// The children's selections make up the selection of a node that is
/// refined: each position of it is a position in one child's selection.
pub proof fn lemma_select_parts(p: LodParams, v: Viewer, n: NodeId, k: int) -> (r: (int, int))
    requires
        p.splits(v, n),
        0 <= k < p.select(v, n).len(),
    ensures
        0 <= r.0 < 4,
        0 <= r.1 < p.select(v, n.spec_child(r.0)).len(),
        p.select(v, n)[k] == p.select(v, n.spec_child(r.0))[r.1],
        r == locate(
            seq![
                p.select(v, n.spec_child(0)).len() as int,
                p.select(v, n.spec_child(1)).len() as int,
                p.select(v, n.spec_child(2)).len() as int,
            ],
            k,
        ),
{
    let lens = seq![
        p.select(v, n.spec_child(0)).len() as int,
        p.select(v, n.spec_child(1)).len() as int,
        p.select(v, n.spec_child(2)).len() as int,
    ];
    locate(lens, k)
}

/// What a traversal selects below a node of the quadtree lies in that
/// node's subtree and in the quadtree, at most `refinement_cap` refinements
/// below the root.
pub proof fn lemma_select_within(p: LodParams, v: Viewer, n: NodeId, e: NodeId)
    requires
        p.valid(),
        p.in_tree(n),
        p.depth(n) <= p.refinement_cap,
        p.select(v, n).contains(e),
    ensures
        e.within(n),
        p.in_tree(e),
        p.depth(e) <= p.refinement_cap,
    decreases n.lod,
{
    if p.splits(v, n) {
        let k = choose|k: int| 0 <= k < p.select(v, n).len() && p.select(v, n)[k] == e;
        let (q, kq) = lemma_select_parts(p, v, n, k);
        assert(p.select(v, n.spec_child(q)).contains(e));
        lemma_child_in_tree(p, n, q);
        lemma_select_within(p, v, n.spec_child(q), e);
        lemma_within_child(e, n, q);
    } else {
        assert(e == n);
    }
}

/// No node is selected twice.
pub proof fn lemma_select_no_duplicates(p: LodParams, v: Viewer, n: NodeId)
    requires
        p.valid(),
        p.in_tree(n),
        p.depth(n) <= p.refinement_cap,
    ensures
        p.select(v, n).no_duplicates(),
    decreases n.lod,
{
    let s = p.select(v, n);
    if p.splits(v, n) {
        lemma_child_in_tree(p, n, 0);
        lemma_child_in_tree(p, n, 1);
        lemma_child_in_tree(p, n, 2);
        lemma_child_in_tree(p, n, 3);
        lemma_select_no_duplicates(p, v, n.spec_child(0));
        lemma_select_no_duplicates(p, v, n.spec_child(1));
        lemma_select_no_duplicates(p, v, n.spec_child(2));
        lemma_select_no_duplicates(p, v, n.spec_child(3));
        assert forall|i: int, j: int| 0 <= i < s.len() && 0 <= j < s.len() && i != j implies s[i]
            != s[j] by {
            let (qi, ki) = lemma_select_parts(p, v, n, i);
            let (qj, kj) = lemma_select_parts(p, v, n, j);
            let si = p.select(v, n.spec_child(qi));
            let sj = p.select(v, n.spec_child(qj));
            if qi != qj {
                if s[i] == s[j] {
                    assert(si.contains(s[i]));
                    assert(sj.contains(s[i]));
                    lemma_select_within(p, v, n.spec_child(qi), s[i]);
                    lemma_select_within(p, v, n.spec_child(qj), s[i]);
                    lemma_subtrees_disjoint(s[i], n, qi, qj);
                }
            } else {
                assert(ki != kj);
            }
        }
    }
}

/// The selection covers the subtree: every node in the subtree of a node of
/// the quadtree that is as fine as the selection there, or finer, lies in
/// the subtree of a selected node. Together with the next law this makes
/// the selection a partition of the terrain.
pub proof fn lemma_select_covers(p: LodParams, v: Viewer, n: NodeId, c: NodeId) -> (e: NodeId)
    requires
        p.valid(),
        p.in_tree(n),
        c.within(n),
        c.lod == 0,
    ensures
        p.select(v, n).contains(e),
        c.within(e),
    decreases n.lod,
{
    if p.splits(v, n) {
        lemma_child_in_tree(p, n, 0);
        let q = crate::node::lemma_within_some_child(c, n);
        lemma_child_in_tree(p, n, q);
        let e = lemma_select_covers(p, v, n.spec_child(q), c);
        let s0 = p.select(v, n.spec_child(0));
        let s1 = p.select(v, n.spec_child(1));
        let s2 = p.select(v, n.spec_child(2));
        let s3 = p.select(v, n.spec_child(3));
        let sq = p.select(v, n.spec_child(q));
        let k = choose|k: int| 0 <= k < sq.len() && sq[k] == e;
        let off = if q == 0 {
            0
        } else if q == 1 {
            s0.len() as int
        } else if q == 2 {
            s0.len() as int + s1.len() as int
        } else {
            s0.len() as int + s1.len() as int + s2.len() as int
        };
        assert(p.select(v, n)[off + k] == e);
        e
    } else {
        assert(p.select(v, n)[0] == n);
        n
    }
}

/// No cell of the terrain is covered twice: two selected nodes whose
/// subtrees share a node are one node.
pub proof fn lemma_select_disjoint(p: LodParams, v: Viewer, n: NodeId, a: NodeId, b: NodeId, c: NodeId)
    requires
        p.valid(),
        p.in_tree(n),
        p.depth(n) <= p.refinement_cap,
        p.select(v, n).contains(a),
        p.select(v, n).contains(b),
        c.within(a),
        c.within(b),
    ensures
        a == b,
    decreases n.lod,
{
    if p.splits(v, n) {
        let ka = choose|k: int| 0 <= k < p.select(v, n).len() && p.select(v, n)[k] == a;
        let kb = choose|k: int| 0 <= k < p.select(v, n).len() && p.select(v, n)[k] == b;
        let (qa, ia) = lemma_select_parts(p, v, n, ka);
        let (qb, ib) = lemma_select_parts(p, v, n, kb);
        assert(p.select(v, n.spec_child(qa)).contains(a));
        assert(p.select(v, n.spec_child(qb)).contains(b));
        lemma_child_in_tree(p, n, qa);
        lemma_child_in_tree(p, n, qb);
        lemma_select_within(p, v, n.spec_child(qa), a);
        lemma_select_within(p, v, n.spec_child(qb), b);
        crate::node::lemma_within_transitive(c, a, n.spec_child(qa));
        crate::node::lemma_within_transitive(c, b, n.spec_child(qb));
        lemma_subtrees_disjoint(c, n, qa, qb);
        lemma_select_disjoint(p, v, n.spec_child(qa), a, b, c);
    } else {
        assert(a == n && b == n);
    }
}

/// The selection never goes below level 0, never above the root, and never
/// more than `refinement_cap` refinements deep.
pub proof fn lemma_select_bounds(p: LodParams, v: Viewer, e: NodeId)
    requires
        p.valid(),
        p.select(v, p.root()).contains(e),
    ensures
        0 <= e.lod < p.lod_count,
        p.lod_count - 1 - e.lod <= p.refinement_cap,
        e.within(p.root()),
{
    lemma_root_in_tree(p);
    lemma_select_within(p, v, p.root(), e);
}

/// Refinement is monotone in the distance: a viewer that is no farther from
/// a node than one for which the node is refined has it refined too.
pub proof fn lemma_split_monotone(p: LodParams, near: Viewer, far: Viewer, n: NodeId)
    requires
        p.distance_sq(near, n) <= p.distance_sq(far, n),
        p.splits(far, n),
    ensures
        p.splits(near, n),
{
}

/// Along one axis a node's footprint is made up of the two halves that its
/// children cover: no half is nearer to a point than the whole, and the
/// half on the point's side is as near.
proof fn lemma_axis_halves(pt: int, x: int, b: int, s: int, h: int)
    requires
        s == 2 * h,
        h >= 0,
        b == 0 || b == 1,
    ensures
        axis_distance(pt, (2 * x + b) * h, (2 * x + b + 1) * h) >= axis_distance(
            pt,
            x * s,
            (x + 1) * s,
        ) >= 0,
        b == (if pt <= x * s + h {
            0int
        } else {
            1int
        }) ==> axis_distance(pt, (2 * x + b) * h, (2 * x + b + 1) * h) == axis_distance(
            pt,
            x * s,
            (x + 1) * s,
        ),
{
    assert((2 * x + b) * h == x * s + b * h && (2 * x + b + 1) * h == x * s + b * h + h && (x + 1)
        * s == x * s + 2 * h) by (nonlinear_arith)
        requires
            s == 2 * h,
    ;
    assert(b * h == if b == 0 {
        0
    } else {
        h
    }) by (nonlinear_arith)
        requires
            b == 0 || b == 1,
    ;
}

/// The distances from a viewer to a node and to its child in quadrant `q`,
/// axis by axis.
proof fn lemma_child_axes(p: LodParams, v: Viewer, n: NodeId, q: int)
    requires
        p.valid(),
        p.in_tree(n),
        n.lod > 0,
        0 <= q < 4,
    ensures
        ({
            let c = n.spec_child(q);
            let s = p.size(n);
            let h = p.size(c);
            let dx = axis_distance(v.x as int, n.x * s, (n.x + 1) * s);
            let dz = axis_distance(v.z as int, n.y * s, (n.y + 1) * s);
            let cx = axis_distance(v.x as int, c.x * h, (c.x + 1) * h);
            let cz = axis_distance(v.z as int, c.y * h, (c.y + 1) * h);
            &&& s == 2 * h
            &&& h >= 0
            &&& cx >= dx >= 0
            &&& cz >= dz >= 0
            &&& q % 2 == (if v.x <= n.x * s + h {
                0int
            } else {
                1int
            }) ==> cx == dx
            &&& q / 2 == (if v.z <= n.y * s + h {
                0int
            } else {
                1int
            }) ==> cz == dz
        }),
{
    let c = n.spec_child(q);
    let s = p.size(n);
    let h = p.size(c);
    lemma_child_in_tree(p, n, q);
    lemma_pow2_unfold(n.lod as nat);
    let l = p.leaf_node_size as int;
    let e = pow2((n.lod - 1) as nat) as int;
    assert(l * (2 * e) == 2 * (l * e)) by (nonlinear_arith);
    assert(s == 2 * h);
    assert(c.x == 2 * n.x + q % 2);
    assert(c.y == 2 * n.y + q / 2);
    lemma_axis_halves(v.x as int, n.x as int, q % 2, s, h);
    lemma_axis_halves(v.z as int, n.y as int, q / 2, s, h);
}

/// No child of a node is nearer to the viewer than the node.
pub proof fn lemma_child_distance(p: LodParams, v: Viewer, n: NodeId, q: int)
    requires
        p.valid(),
        p.in_tree(n),
        n.lod > 0,
        0 <= q < 4,
    ensures
        p.distance_sq(v, n.spec_child(q)) >= p.distance_sq(v, n),
{
    let c = n.spec_child(q);
    let s = p.size(n);
    let h = p.size(c);
    let dx = axis_distance(v.x as int, n.x * s, (n.x + 1) * s);
    let dz = axis_distance(v.z as int, n.y * s, (n.y + 1) * s);
    let cx = axis_distance(v.x as int, c.x * h, (c.x + 1) * h);
    let cz = axis_distance(v.z as int, c.y * h, (c.y + 1) * h);
    lemma_child_axes(p, v, n, q);
    assert(cx * cx >= dx * dx) by (nonlinear_arith)
        requires
            cx >= dx >= 0,
    ;
    assert(cz * cz >= dz * dz) by (nonlinear_arith)
        requires
            cz >= dz >= 0,
    ;
}

/// One child of a node is as near to the viewer as the node: the children
/// cover the node's footprint.
pub proof fn lemma_nearest_child(p: LodParams, v: Viewer, n: NodeId) -> (q: int)
    requires
        p.valid(),
        p.in_tree(n),
        n.lod > 0,
    ensures
        0 <= q < 4,
        p.distance_sq(v, n.spec_child(q)) == p.distance_sq(v, n),
{
    let s = p.size(n);
    let h = p.size(n.spec_child(0));
    lemma_child_axes(p, v, n, 0);
    let qx: int = if v.x <= n.x * s + h {
        0
    } else {
        1
    };
    let qz: int = if v.z <= n.y * s + h {
        0
    } else {
        1
    };
    let q = qx + 2 * qz;
    lemma_child_axes(p, v, n, q);
    assert(p.size(n.spec_child(q)) == h);
    q
}

/// The level reached by refining is no coarser at a smaller distance, and
/// never coarser than the level from which the refining starts.
pub proof fn lemma_finest_at_monotone(p: LodParams, near: int, far: int, lod: nat, depth: int)
    requires
        near <= far,
    ensures
        p.finest_at(near, lod, depth) <= p.finest_at(far, lod, depth) <= lod,
    decreases lod,
{
    if lod > 0 {
        lemma_finest_at_monotone(p, near, far, (lod - 1) as nat, depth + 1);
    }
}

/// The finest level selected under a node depends on the viewer's distance
/// to that node alone: it is the level reached by refining at that
/// distance.
pub proof fn lemma_finest_by_distance(p: LodParams, v: Viewer, n: NodeId)
    requires
        p.valid(),
        p.in_tree(n),
    ensures
        p.finest(v, n) == p.finest_at(p.distance_sq(v, n), n.lod as nat, p.depth(n)),
    decreases n.lod,
{
    if p.splits(v, n) {
        let d = p.distance_sq(v, n);
        let below = (n.lod - 1) as nat;
        let depth = p.depth(n) + 1;
        let reached = p.finest_at(d, below, depth);
        assert forall|q: int| 0 <= q < 4 implies p.finest(v, n.spec_child(q)) >= reached && (
        p.distance_sq(v, n.spec_child(q)) == d ==> #[trigger] p.finest(v, n.spec_child(q))
            == reached) by {
            lemma_child_in_tree(p, n, q);
            lemma_finest_by_distance(p, v, n.spec_child(q));
            lemma_child_distance(p, v, n, q);
            lemma_finest_at_monotone(p, d, p.distance_sq(v, n.spec_child(q)), below, depth);
        }
        let q = lemma_nearest_child(p, v, n);
        assert(p.finest(v, n.spec_child(q)) == reached);
        assert(p.finest(v, n.spec_child(0)) >= reached);
        assert(p.finest(v, n.spec_child(1)) >= reached);
        assert(p.finest(v, n.spec_child(2)) >= reached);
        assert(p.finest(v, n.spec_child(3)) >= reached);
    }
}

/// No selected node is finer than the finest level.
pub proof fn lemma_finest_bounds(p: LodParams, v: Viewer, n: NodeId, e: NodeId)
    requires
        p.select(v, n).contains(e),
    ensures
        e.lod >= p.finest(v, n),
    decreases n.lod,
{
    if p.splits(v, n) {
        let k = choose|k: int| 0 <= k < p.select(v, n).len() && p.select(v, n)[k] == e;
        let (q, kq) = lemma_select_parts(p, v, n, k);
        assert(p.select(v, n.spec_child(q)).contains(e));
        lemma_finest_bounds(p, v, n.spec_child(q), e);
    } else {
        assert(e == n);
    }
}

/// A node of the finest level is selected.
pub proof fn lemma_finest_selected(p: LodParams, v: Viewer, n: NodeId) -> (e: NodeId)
    ensures
        p.select(v, n).contains(e),
        e.lod == p.finest(v, n),
    decreases n.lod,
{
    if p.splits(v, n) {
        let a = p.select(v, n.spec_child(0));
        let b = p.select(v, n.spec_child(1));
        let c = p.select(v, n.spec_child(2));
        let d = p.select(v, n.spec_child(3));
        let all = p.select(v, n);
        assert(all == a + b + c + d);
        let f = p.finest(v, n);
        let q: int = if p.finest(v, n.spec_child(0)) == f {
            0
        } else if p.finest(v, n.spec_child(1)) == f {
            1
        } else if p.finest(v, n.spec_child(2)) == f {
            2
        } else {
            3
        };
        let e = lemma_finest_selected(p, v, n.spec_child(q));
        let part = p.select(v, n.spec_child(q));
        let j = choose|j: int| 0 <= j < part.len() && part[j] == e;
        if q == 0 {
            assert(all[j] == e);
        } else if q == 1 {
            assert(all[a.len() + j] == e);
        } else if q == 2 {
            assert(all[a.len() + b.len() + j] == e);
        } else {
            assert(all[a.len() + b.len() + c.len() + j] == e);
        }
        e
    } else {
        assert(p.select(v, n)[0] == n);
        n
    }
}

/// Detail follows the distance. Of two viewers, the one that is no farther
/// from a node gets a selection under that node that is no coarser: for
/// every node selected for the farther viewer, a node of that level or a
/// finer one is selected for the nearer.
pub proof fn lemma_detail_follows_distance(
    p: LodParams,
    near: Viewer,
    far: Viewer,
    n: NodeId,
    e: NodeId,
)
    requires
        p.valid(),
        p.in_tree(n),
        p.distance_sq(near, n) <= p.distance_sq(far, n),
        p.select(far, n).contains(e),
    ensures
        p.finest(near, n) <= p.finest(far, n) <= e.lod,
        exists|f: NodeId| p.select(near, n).contains(f) && f.lod <= e.lod,
{
    lemma_finest_bounds(p, far, n, e);
    lemma_finest_by_distance(p, far, n);
    lemma_finest_by_distance(p, near, n);
    lemma_finest_at_monotone(
        p,
        p.distance_sq(near, n),
        p.distance_sq(far, n),
        n.lod as nat,
        p.depth(n),
    );
    let f = lemma_finest_selected(p, near, n);
    assert(p.select(near, n).contains(f) && f.lod <= e.lod);
}

/// The distance from the coordinate `p` to the interval from `lo` to `hi`.
fn axis_gap(p: i32, lo: u32, hi: u32) -> (d: u64)
    requires
        lo <= hi,
    ensures
        d == axis_distance(p as int, lo as int, hi as int),
        d <= 0x1_8000_0000,
{
    let p: i64 = p as i64;
    let lo: i64 = lo as i64;
    let hi: i64 = hi as i64;
    if p < lo {
        (lo - p) as u64
    } else if p > hi {
        (p - hi) as u64
    } else {
        0
    }
}

/// The square of a distance.
fn square(d: u64) -> (s: u128)
    requires
        d <= 0x8000_0000_0000_0000,
    ensures
        s == d * d,
{
    assert(d * d <= 0x4000_0000_0000_0000_0000_0000_0000_0000) by (nonlinear_arith)
        requires
            0 <= d <= 0x8000_0000_0000_0000,
    ;
    (d as u128) * (d as u128)
}

impl LodParams {
    /// Whether the constants describe a quadtree.
    pub fn is_valid(&self) -> (b: bool)
        ensures
            b == self.valid(),
    {
        if self.leaf_node_size == 0 || self.lod_count == 0 || self.lod_count > MAX_LOD_COUNT {
            return false;
        }
        let top: u32 = self.lod_count - 1;
        proof {
            lemma2_to64();
            lemma_pow2_pos(top as nat);
            if top < 31 {
                lemma_pow2_strictly_increases(top as nat, 31);
            }
            let l = self.leaf_node_size as int;
            let e = pow2(top as nat) as int;
            assert(l * e < 0x8000_0000_0000_0000) by (nonlinear_arith)
                requires
                    0 <= l < 0x1_0000_0000,
                    0 < e <= 0x8000_0000,
            ;
            lemma_u64_shl_is_mul(self.leaf_node_size as u64, top as u64);
        }
        let size: u64 = (self.leaf_node_size as u64) << (top as u64);
        size <= 0xFFFF_FFFF
    }

    /// Whether `n` is a node of the quadtree.
    pub fn contains(&self, n: NodeId) -> (b: bool)
        ensures
            b == self.in_tree(n),
    {
        if n.lod >= self.lod_count {
            return false;
        }
        let depth: u32 = self.lod_count - 1 - n.lod;
        proof {
            lemma2_to64();
            if depth > 32 {
                lemma_pow2_strictly_increases(32, depth as nat);
            }
        }
        if depth >= 32 {
            return true;
        }
        proof {
            if depth < 31 {
                lemma_pow2_strictly_increases(depth as nat, 31);
            }
            lemma_u64_shl_is_mul(1, depth as u64);
        }
        let side: u64 = 1u64 << (depth as u64);
        (n.x as u64) < side && (n.y as u64) < side
    }

    /// The side length of `n` in world units.
    pub fn node_size(&self, n: NodeId) -> (s: u32)
        requires
            self.valid(),
            self.in_tree(n),
        ensures
            s == self.size(n),
    {
        proof {
            lemma_footprint(*self, n);
            lemma_u32_shl_is_mul(self.leaf_node_size, n.lod);
        }
        self.leaf_node_size << n.lod
    }

    /// The corner of the footprint of `n` with the lowest coordinates, in
    /// world units.
    pub fn node_origin(&self, n: NodeId) -> (o: (u32, u32))
        requires
            self.valid(),
            self.in_tree(n),
        ensures
            o.0 == n.x * self.size(n),
            o.1 == n.y * self.size(n),
    {
        proof {
            lemma_footprint(*self, n);
        }
        let s = self.node_size(n);
        (n.x * s, n.y * s)
    }

    /// The squared distance from the viewer to the footprint of `n`.
    pub fn node_distance_sq(&self, v: Viewer, n: NodeId) -> (d: u128)
        requires
            self.valid(),
            self.in_tree(n),
        ensures
            d == self.distance_sq(v, n),
            d <= 0x7_0000_0000_0000_0000,
    {
        proof {
            lemma_footprint(*self, n);
            lemma_u32_shl_is_mul(self.leaf_node_size, n.lod);
        }
        let s: u32 = self.leaf_node_size << n.lod;
        let x0: u32 = n.x * s;
        let y0: u32 = n.y * s;
        assert((n.x + 1) * self.size(n) == x0 + s) by (nonlinear_arith)
            requires
                x0 == n.x * s,
                s == self.size(n),
        ;
        assert((n.y + 1) * self.size(n) == y0 + s) by (nonlinear_arith)
            requires
                y0 == n.y * s,
                s == self.size(n),
        ;
        let dx = axis_gap(v.x, x0, x0 + s);
        let dz = axis_gap(v.z, y0, y0 + s);
        let h: u64 = if v.height < 0 {
            (-(v.height as i64)) as u64
        } else {
            v.height as u64
        };
        assert(h * h == v.height * v.height) by (nonlinear_arith)
            requires
                h == v.height || h == -v.height,
        ;
        assert(dx * dx <= 0x1_8000_0000 * 0x1_8000_0000) by (nonlinear_arith)
            requires
                0 <= dx <= 0x1_8000_0000,
        ;
        assert(dz * dz <= 0x1_8000_0000 * 0x1_8000_0000) by (nonlinear_arith)
            requires
                0 <= dz <= 0x1_8000_0000,
        ;
        assert(h * h <= 0x8000_0000 * 0x8000_0000) by (nonlinear_arith)
            requires
                0 <= h <= 0x8000_0000,
        ;
        square(dx) + square(dz) + square(h)
    }

    /// The distance below which a node of level `lod` is refined.
    pub fn split_threshold(&self, lod: u32) -> (t: u64)
        requires
            lod < MAX_LOD_COUNT,
        ensures
            t == self.threshold(lod as nat),
            t < 0x8000_0000_0000_0000,
    {
        proof {
            lemma2_to64();
            lemma_pow2_pos(lod as nat);
            if lod < 31 {
                lemma_pow2_strictly_increases(lod as nat, 31);
            }
            let v = self.view_distance as int;
            let e = pow2(lod as nat) as int;
            assert(v * e < 0x8000_0000_0000_0000) by (nonlinear_arith)
                requires
                    0 <= v < 0x1_0000_0000,
                    0 < e <= 0x8000_0000,
            ;
            lemma_u64_shl_is_mul(self.view_distance as u64, lod as u64);
        }
        (self.view_distance as u64) << (lod as u64)
    }

    /// Whether the traversal refines `n`, given the squared distance of the
    /// viewer to it. At exactly the threshold the node is kept coarse.
    pub fn refines(&self, n: NodeId, distance_sq: u128) -> (b: bool)
        requires
            self.valid(),
            self.in_tree(n),
        ensures
            b == (n.lod > 0 && self.depth(n) < self.refinement_cap && distance_sq
                < self.threshold(n.lod as nat) * self.threshold(n.lod as nat)),
    {
        if n.lod == 0 || self.lod_count - 1 - n.lod >= self.refinement_cap {
            return false;
        }
        let t = self.split_threshold(n.lod);
        distance_sq < square(t)
    }

    /// Whether the traversal refines `n` for the viewer `v`.
    pub fn should_split(&self, v: Viewer, n: NodeId) -> (b: bool)
        requires
            self.valid(),
            self.in_tree(n),
        ensures
            b == self.splits(v, n),
    {
        let d = self.node_distance_sq(v, n);
        self.refines(n, d)
    }
}

} // verus!
