//! Quadtree node coordinates and the parent/child relation between them.

use vstd::prelude::*;

verus! {

/// Addresses one node of the quadtree: a level of detail and a grid position
/// at that level. Level 0 is the finest; each level above halves the
/// resolution, so the node `(lod, x, y)` covers the four nodes
/// `(lod - 1, 2x + {0, 1}, 2y + {0, 1})`.
#[derive(Clone, Copy, Debug, PartialEq, Eq, Structural, Hash)]
pub struct NodeId {
    pub lod: u32,
    pub x: u32,
    pub y: u32,
}

impl NodeId {
    /// The node one level coarser whose footprint contains this one.
    pub open spec fn spec_parent(self) -> NodeId {
        NodeId { lod: (self.lod + 1) as u32, x: self.x / 2, y: self.y / 2 }
    }

    /// The child in quadrant `q` (0, 1, 2, 3 in row-major order).
    pub open spec fn spec_child(self, q: int) -> NodeId {
        NodeId {
            lod: (self.lod - 1) as u32,
            x: (2 * self.x + q % 2) as u32,
            y: (2 * self.y + q / 2) as u32,
        }
    }

    /// Whether the node has children whose coordinates are representable.
    pub open spec fn can_split(self) -> bool {
        self.lod > 0 && 2 * self.x + 1 <= u32::MAX && 2 * self.y + 1 <= u32::MAX
    }

    /// The ancestor `k` levels above this node.
    pub open spec fn ancestor(self, k: nat) -> NodeId
        decreases k,
    {
        if k == 0 {
            self
        } else {
            self.ancestor((k - 1) as nat).spec_parent()
        }
    }

    /// Whether this node lies in the subtree rooted at `root` (a node lies in
    /// its own subtree).
    pub open spec fn within(self, root: NodeId) -> bool {
        self.lod <= root.lod && self.ancestor((root.lod - self.lod) as nat) == root
    }

    /// The node at position `(x, y)` of level `lod`.
    pub fn new(lod: u32, x: u32, y: u32) -> (id: NodeId)
        ensures
            id == (NodeId { lod, x, y }),
    {
        NodeId { lod, x, y }
    }

    /// The parent of this node, or `None` at the highest representable level.
    pub fn parent(&self) -> (p: Option<NodeId>)
        ensures
            p == if self.lod < u32::MAX {
                Some(self.spec_parent())
            } else {
                None
            },
    {
        if self.lod == u32::MAX {
            None
        } else {
            Some(NodeId { lod: self.lod + 1, x: self.x / 2, y: self.y / 2 })
        }
    }

    /// The four children of this node in row-major order, or `None` where the
    /// node is at level 0 or its children's coordinates do not fit.
    pub fn children(&self) -> (c: Option<[NodeId; 4]>)
        ensures
            c.is_some() == self.can_split(),
            c matches Some(a) ==> forall|q: int| 0 <= q < 4 ==> a[q] == #[trigger] self.spec_child(q),
    {
        if self.lod == 0 || self.x > u32::MAX / 2 || self.y > u32::MAX / 2 {
            return None;
        }
        let lod: u32 = self.lod - 1;
        let x: u32 = 2 * self.x;
        let y: u32 = 2 * self.y;
        let a = [
            NodeId { lod, x, y },
            NodeId { lod, x: x + 1, y },
            NodeId { lod, x, y: y + 1 },
            NodeId { lod, x: x + 1, y: y + 1 },
        ];
        assert forall|q: int| 0 <= q < 4 implies a[q] == #[trigger] self.spec_child(q) by {
            if q == 0 {
            } else if q == 1 {
            } else if q == 2 {
            } else {
            }
        }
        Some(a)
    }

    /// Whether this node lies in the subtree rooted at `root`.
    pub fn is_within(&self, root: &NodeId) -> (b: bool)
        ensures
            b == self.within(*root),
    {
        if self.lod > root.lod {
            return false;
        }
        let mut cur: NodeId = *self;
        let ghost mut k: nat = 0;
        while cur.lod < root.lod
            invariant
                self.lod <= cur.lod <= root.lod,
                k == cur.lod - self.lod,
                cur == self.ancestor(k),
            decreases root.lod - cur.lod,
        {
            cur = NodeId { lod: cur.lod + 1, x: cur.x / 2, y: cur.y / 2 };
            proof {
                k = k + 1;
            }
        }
        cur.x == root.x && cur.y == root.y
    }
}

/// A child's parent is the node it was split from.
pub proof fn lemma_child_parent(n: NodeId, q: int)
    requires
        n.can_split(),
        0 <= q < 4,
    ensures
        n.spec_child(q).spec_parent() == n,
        n.spec_child(q).within(n),
{
    let c = n.spec_child(q);
    assert(c.ancestor(0) == c);
    assert(c.ancestor(1) == c.ancestor(0).spec_parent());
}

/// The four children of a node are pairwise different.
pub proof fn lemma_children_distinct(n: NodeId, p: int, q: int)
    requires
        n.can_split(),
        0 <= p < 4,
        0 <= q < 4,
        p != q,
    ensures
        n.spec_child(p) != n.spec_child(q),
{
}

/// The level of the ancestor `k` levels up is `k` higher, as long as it is
/// representable.
pub proof fn lemma_ancestor_lod(e: NodeId, k: nat)
    requires
        e.lod + k <= u32::MAX,
    ensures
        e.ancestor(k).lod == e.lod + k,
    decreases k,
{
    if k > 0 {
        lemma_ancestor_lod(e, (k - 1) as nat);
    }
}

/// What lies in a child's subtree lies in the subtree of the node itself.
pub proof fn lemma_within_child(e: NodeId, n: NodeId, q: int)
    requires
        n.can_split(),
        0 <= q < 4,
        e.within(n.spec_child(q)),
    ensures
        e.within(n),
        e.lod < n.lod,
{
    let c = n.spec_child(q);
    let k = (c.lod - e.lod) as nat;
    lemma_child_parent(n, q);
    assert(e.ancestor(k + 1) == e.ancestor(k).spec_parent());
}

/// The subtrees of two different children of one node share no node.
pub proof fn lemma_subtrees_disjoint(e: NodeId, n: NodeId, p: int, q: int)
    requires
        n.can_split(),
        0 <= p < 4,
        0 <= q < 4,
        e.within(n.spec_child(p)),
        e.within(n.spec_child(q)),
    ensures
        p == q,
{
    if p != q {
        lemma_children_distinct(n, p, q);
    }
}

/// A node that lies in the subtree of a coarser node lies in the subtree of
/// one of that node's children.
pub proof fn lemma_within_some_child(e: NodeId, n: NodeId) -> (q: int)
    requires
        n.can_split(),
        e.within(n),
        e.lod < n.lod,
    ensures
        0 <= q < 4,
        e.within(n.spec_child(q)),
{
    let k = (n.lod - e.lod - 1) as nat;
    let a = e.ancestor(k);
    lemma_ancestor_lod(e, k);
    assert(e.ancestor(k + 1) == a.spec_parent());
    let q = (a.x % 2) + 2 * (a.y % 2);
    assert(a == n.spec_child(q));
    q
}

/// The ancestor of an ancestor is an ancestor.
pub proof fn lemma_ancestor_adds(e: NodeId, j: nat, k: nat)
    ensures
        e.ancestor(j).ancestor(k) == e.ancestor(j + k),
    decreases k,
{
    if k > 0 {
        lemma_ancestor_adds(e, j, (k - 1) as nat);
    }
}

/// Subtrees nest: what lies in the subtree of a node lies in the subtree of
/// every node in whose subtree that node lies.
pub proof fn lemma_within_transitive(c: NodeId, a: NodeId, n: NodeId)
    requires
        c.within(a),
        a.within(n),
    ensures
        c.within(n),
{
    lemma_ancestor_adds(c, (a.lod - c.lod) as nat, (n.lod - a.lod) as nat);
}

} // verus!
