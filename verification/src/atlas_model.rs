//! The mathematical model of the node atlas: its slots, its queue of deferred
//! requests, and the transitions that the atlas operations perform on them.

use vstd::prelude::*;
use crate::node::NodeId;

verus! {

/// The lifecycle of one atlas slot.
#[derive(Clone, Copy, Debug, PartialEq, Eq, Structural)]
pub enum SlotState {
    /// The slot is free.
    Unloaded,
    /// The slot is reserved for a node whose load is in flight.
    Loading,
    /// The slot holds the complete data of a node that is wanted.
    Loaded,
    /// The slot holds the complete data of a node that was released; it is
    /// reclaimed when another node needs the space.
    Evictable,
}

/// One entry of the slot table.
#[derive(Clone, Copy, Debug, PartialEq, Eq, Structural)]
pub struct Slot {
    pub state: SlotState,
    /// The node that occupies the slot; meaningless while `Unloaded`.
    pub node: NodeId,
    /// The frame in which the node was last requested.
    pub last_used: u64,
    /// Set when the node is released while its load is still in flight.
    pub released: bool,
}

/// What a request did.
#[derive(Clone, Copy, Debug, PartialEq, Eq, Structural)]
pub enum RequestStatus {
    /// The node's data is resident in the given slot.
    Ready(usize),
    /// A load of the node is already in flight for the given slot.
    Loading(usize),
    /// The given slot was reserved; the caller has to load the node's data
    /// and report the outcome with `complete_load`.
    Started(usize),
    /// Every slot is held by a wanted node; the request was queued.
    Deferred,
}

/// Why a load did not make its node ready.
#[derive(Clone, Copy, Debug, PartialEq, Eq, Structural)]
pub enum LoadError {
    /// No artifact exists for the node.
    ArtifactMissing,
    /// The artifact does not have the size that the attachment prescribes.
    ArtifactCorrupt,
    /// No load of the node is in flight.
    NotLoading,
}

/// An atlas operation, for statements that range over all of them.
pub enum AtlasOp {
    Request(NodeId),
    Release(NodeId),
    CompleteLoad(NodeId, Option<Seq<u8>>),
    NextPending,
    AdvanceFrame,
}

/// The abstract state of a node atlas.
pub struct AtlasView {
    pub slots: Seq<Slot>,
    /// The data held by each slot; empty unless the slot is `Loaded` or
    /// `Evictable`.
    pub data: Seq<Seq<u8>>,
    /// Deferred requests, oldest first.
    pub pending: Seq<NodeId>,
    pub frame: u64,
    /// The byte length of every node artifact of this attachment.
    pub artifact_size: usize,
}

/// `s` without the element `n`, for a sequence that holds it at most once.
pub open spec fn without(s: Seq<NodeId>, n: NodeId) -> Seq<NodeId> {
    if s.contains(n) {
        s.remove(s.index_of(n))
    } else {
        s
    }
}

impl AtlasView {
    /// The number of slots.
    pub open spec fn capacity(self) -> nat {
        self.slots.len()
    }

    /// Slot `i` exists and is not free.
    pub open spec fn occupied(self, i: int) -> bool {
        0 <= i < self.slots.len() && self.slots[i].state != SlotState::Unloaded
    }

    /// Slot `i` is occupied by node `n`.
    pub open spec fn holds(self, i: int, n: NodeId) -> bool {
        self.occupied(i) && self.slots[i].node == n
    }

    /// Some slot is occupied by `n`.
    pub open spec fn resident(self, n: NodeId) -> bool {
        exists|i: int| self.holds(i, n)
    }

    /// The slot occupied by `n`, where `n` is resident.
    pub open spec fn index_of(self, n: NodeId) -> int {
        choose|i: int| self.holds(i, n)
    }

    /// The state of the slot that `n` occupies; `Unloaded` where it occupies
    /// none.
    pub open spec fn state_of(self, n: NodeId) -> SlotState {
        if self.resident(n) {
            self.slots[self.index_of(n)].state
        } else {
            SlotState::Unloaded
        }
    }

    /// The data of `n` is resident and `n` is wanted.
    pub open spec fn is_ready(self, n: NodeId) -> bool {
        self.state_of(n) == SlotState::Loaded
    }

    /// The slot of `n` while `n` is ready.
    pub open spec fn slot_of(self, n: NodeId) -> Option<usize> {
        if self.is_ready(n) {
            Some(self.index_of(n) as usize)
        } else {
            None
        }
    }

    /// A node is wanted while it was requested and not released since: its
    /// slot is `Loaded`, or `Loading` without a release recorded.
    pub open spec fn wanted(self, n: NodeId) -> bool {
        self.resident(n) && {
            let s = self.slots[self.index_of(n)];
            s.state == SlotState::Loaded || (s.state == SlotState::Loading && !s.released)
        }
    }

    /// Slot `i` holds the data of a node.
    pub open spec fn holds_data(self, i: int) -> bool {
        self.slots[i].state == SlotState::Loaded || self.slots[i].state == SlotState::Evictable
    }

    /// The invariant of the atlas.
    pub open spec fn wf(self) -> bool {
        &&& self.data.len() == self.slots.len()
        &&& forall|i: int, j: int|
            #![trigger self.slots[i], self.slots[j]]
            self.occupied(i) && self.occupied(j) && self.slots[i].node == self.slots[j].node ==> i
                == j
        &&& forall|i: int|
            #![trigger self.slots[i]]
            0 <= i < self.slots.len() ==> {
                &&& self.slots[i].last_used <= self.frame
                &&& self.slots[i].released ==> self.slots[i].state == SlotState::Loading
                &&& self.data[i].len() == if self.holds_data(i) {
                    self.artifact_size as nat
                } else {
                    0
                }
            }
        &&& self.pending.no_duplicates()
        &&& forall|k: int, i: int|
            #![trigger self.pending[k], self.slots[i]]
            0 <= k < self.pending.len() && self.occupied(i) ==> self.slots[i].node
                != self.pending[k]
    }

    /// Slot `i` is the free slot with the lowest index.
    pub open spec fn is_first_free(self, i: int) -> bool {
        &&& 0 <= i < self.slots.len()
        &&& self.slots[i].state == SlotState::Unloaded
        &&& forall|j: int| 0 <= j < i ==> (#[trigger] self.slots[j]).state != SlotState::Unloaded
    }

    /// Slot `i` is evictable and no evictable slot was used less recently;
    /// among those used in the same frame the lowest index wins.
    pub open spec fn is_victim(self, i: int) -> bool {
        &&& 0 <= i < self.slots.len()
        &&& self.slots[i].state == SlotState::Evictable
        &&& forall|j: int|
            0 <= j < self.slots.len() && (#[trigger] self.slots[j]).state == SlotState::Evictable
                ==> self.slots[i].last_used < self.slots[j].last_used || (self.slots[i].last_used
                == self.slots[j].last_used && i <= j)
    }

    /// The slot that the next load will use: the first free slot, else the
    /// least recently used evictable slot, else none.
    pub open spec fn target(self) -> Option<int> {
        if exists|i: int| self.is_first_free(i) {
            Some(choose|i: int| self.is_first_free(i))
        } else if exists|i: int| self.is_victim(i) {
            Some(choose|i: int| self.is_victim(i))
        } else {
            None
        }
    }

    /// The state after `request(n)`.
    pub open spec fn request(self, n: NodeId) -> AtlasView {
        if self.resident(n) {
            let i = self.index_of(n);
            let s = self.slots[i];
            let state = if s.state == SlotState::Evictable {
                SlotState::Loaded
            } else {
                s.state
            };
            AtlasView {
                slots: self.slots.update(
                    i,
                    Slot { state, node: n, last_used: self.frame, released: false },
                ),
                ..self
            }
        } else {
            match self.target() {
                Some(i) => AtlasView {
                    slots: self.slots.update(
                        i,
                        Slot {
                            state: SlotState::Loading,
                            node: n,
                            last_used: self.frame,
                            released: false,
                        },
                    ),
                    data: self.data.update(i, Seq::empty()),
                    pending: without(self.pending, n),
                    ..self
                },
                None => AtlasView {
                    pending: if self.pending.contains(n) {
                        self.pending
                    } else {
                        self.pending.push(n)
                    },
                    ..self
                },
            }
        }
    }

    /// What `request(n)` reports.
    pub open spec fn request_status(self, n: NodeId) -> RequestStatus {
        if self.resident(n) {
            let i = self.index_of(n);
            if self.slots[i].state == SlotState::Loading {
                RequestStatus::Loading(i as usize)
            } else {
                RequestStatus::Ready(i as usize)
            }
        } else {
            match self.target() {
                Some(i) => RequestStatus::Started(i as usize),
                None => RequestStatus::Deferred,
            }
        }
    }

    /// The state after `release(n)`.
    pub open spec fn release(self, n: NodeId) -> AtlasView {
        if self.resident(n) {
            let i = self.index_of(n);
            let s = self.slots[i];
            if s.state == SlotState::Loaded {
                AtlasView {
                    slots: self.slots.update(i, Slot { state: SlotState::Evictable, ..s }),
                    ..self
                }
            } else if s.state == SlotState::Loading {
                AtlasView { slots: self.slots.update(i, Slot { released: true, ..s }), ..self }
            } else {
                self
            }
        } else {
            AtlasView { pending: without(self.pending, n), ..self }
        }
    }

    /// A load of `n` is in flight.
    pub open spec fn loading(self, n: NodeId) -> bool {
        self.state_of(n) == SlotState::Loading
    }

    /// What `complete_load(n, artifact)` reports.
    pub open spec fn load_result(self, n: NodeId, artifact: Option<Seq<u8>>) -> Result<
        usize,
        LoadError,
    > {
        if !self.loading(n) {
            Err(LoadError::NotLoading)
        } else {
            match artifact {
                None => Err(LoadError::ArtifactMissing),
                Some(bytes) => if bytes.len() == self.artifact_size {
                    Ok(self.index_of(n) as usize)
                } else {
                    Err(LoadError::ArtifactCorrupt)
                },
            }
        }
    }

    /// The state after `complete_load(n, artifact)`.
    pub open spec fn complete_load(self, n: NodeId, artifact: Option<Seq<u8>>) -> AtlasView {
        if !self.loading(n) {
            self
        } else {
            let i = self.index_of(n);
            let s = self.slots[i];
            if self.load_result(n, artifact).is_ok() {
                AtlasView {
                    slots: self.slots.update(
                        i,
                        Slot {
                            state: if s.released {
                                SlotState::Evictable
                            } else {
                                SlotState::Loaded
                            },
                            released: false,
                            ..s
                        },
                    ),
                    data: self.data.update(i, artifact->Some_0),
                    ..self
                }
            } else {
                AtlasView {
                    slots: self.slots.update(
                        i,
                        Slot { state: SlotState::Unloaded, released: false, ..s },
                    ),
                    ..self
                }
            }
        }
    }

    /// Whether `next_pending` starts a load: a request is queued and a slot
    /// can be had.
    pub open spec fn can_start_pending(self) -> bool {
        self.pending.len() > 0 && self.target().is_some()
    }

    /// The state after `next_pending()`.
    pub open spec fn next_pending(self) -> AtlasView {
        if self.can_start_pending() {
            self.request(self.pending[0])
        } else {
            self
        }
    }

    /// What `next_pending()` reports: the node whose load the caller has to
    /// perform, and its slot.
    pub open spec fn next_pending_result(self) -> Option<(NodeId, usize)> {
        if self.can_start_pending() {
            Some((self.pending[0], self.target()->Some_0 as usize))
        } else {
            None
        }
    }

    /// The state after `advance_frame()`.
    pub open spec fn advance_frame(self) -> AtlasView {
        AtlasView {
            frame: if self.frame < u64::MAX {
                (self.frame + 1) as u64
            } else {
                self.frame
            },
            ..self
        }
    }

    /// The state after an arbitrary operation.
    pub open spec fn step(self, op: AtlasOp) -> AtlasView {
        match op {
            AtlasOp::Request(n) => self.request(n),
            AtlasOp::Release(n) => self.release(n),
            AtlasOp::CompleteLoad(n, artifact) => self.complete_load(n, artifact),
            AtlasOp::NextPending => self.next_pending(),
            AtlasOp::AdvanceFrame => self.advance_frame(),
        }
    }
}

/// In a well-formed atlas the slot that holds a node is the one that
/// `index_of` names.
pub proof fn lemma_index_of(a: AtlasView, i: int, n: NodeId)
    requires
        a.wf(),
        a.holds(i, n),
    ensures
        a.resident(n),
        a.index_of(n) == i,
{
    let j = a.index_of(n);
    assert(a.holds(j, n));
    assert(a.slots[i].node == a.slots[j].node);
}

/// Where no slot holds `n`, `n` is not resident.
pub proof fn lemma_not_resident(a: AtlasView, n: NodeId)
    requires
        forall|i: int| 0 <= i < a.slots.len() ==> !a.holds(i, n),
    ensures
        !a.resident(n),
{
}

/// The target slot is unique: a first free slot if there is one, else the
/// victim.
pub proof fn lemma_target(a: AtlasView, i: int)
    requires
        a.is_first_free(i) || (a.is_victim(i) && forall|j: int|
            0 <= j < a.slots.len() ==> (#[trigger] a.slots[j]).state != SlotState::Unloaded),
    ensures
        a.target() == Some(i),
{
    if a.is_first_free(i) {
        let c = choose|c: int| a.is_first_free(c);
        assert(a.is_first_free(c));
        assert(a.slots[c].state == SlotState::Unloaded);
        assert(a.slots[i].state == SlotState::Unloaded);
        assert(c == i);
    } else {
        assert forall|c: int| !a.is_first_free(c) by {
            if a.is_first_free(c) {
                assert(a.slots[c].state != SlotState::Unloaded);
            }
        }
        let c = choose|c: int| a.is_victim(c);
        assert(a.is_victim(c));
        assert(a.slots[c].state == SlotState::Evictable);
        assert(a.slots[i].state == SlotState::Evictable);
        assert(c == i);
    }
}

/// Where no slot is free or evictable there is no target.
pub proof fn lemma_no_target(a: AtlasView)
    requires
        forall|j: int|
            0 <= j < a.slots.len() ==> (#[trigger] a.slots[j]).state != SlotState::Unloaded
                && a.slots[j].state != SlotState::Evictable,
    ensures
        a.target().is_none(),
{
    assert forall|c: int| !a.is_first_free(c) by {
        if a.is_first_free(c) {
            assert(a.slots[c].state != SlotState::Unloaded);
        }
    }
    assert forall|c: int| !a.is_victim(c) by {
        if a.is_victim(c) {
            assert(a.slots[c].state != SlotState::Evictable);
        }
    }
}

/// The target slot, where there is one, is free or evictable.
pub proof fn lemma_target_kind(a: AtlasView)
    ensures
        a.target() matches Some(i) ==> 0 <= i < a.slots.len() && (a.slots[i].state
            == SlotState::Unloaded || a.slots[i].state == SlotState::Evictable),
{
    if exists|i: int| a.is_first_free(i) {
        let c = choose|c: int| a.is_first_free(c);
        assert(a.is_first_free(c));
    } else if exists|i: int| a.is_victim(i) {
        let c = choose|c: int| a.is_victim(c);
        assert(a.is_victim(c));
    }
}

/// Striking a node from a duplicate-free sequence leaves the other elements,
/// in their order, and nothing else.
pub proof fn lemma_without(s: Seq<NodeId>, n: NodeId)
    requires
        s.no_duplicates(),
    ensures
        without(s, n).no_duplicates(),
        !without(s, n).contains(n),
        forall|m: NodeId| m != n ==> (without(s, n).contains(m) <==> s.contains(m)),
        forall|k: int|
            0 <= k < without(s, n).len() ==> s.contains(#[trigger] without(s, n)[k]),
        without(s, n).len() == if s.contains(n) {
            s.len() - 1
        } else {
            s.len() as int
        },
{
    if s.contains(n) {
        let i = s.index_of(n);
        let r = s.remove(i);
        s.remove_ensures(i);
        assert forall|a: int, b: int| 0 <= a < r.len() && 0 <= b < r.len() && a != b implies r[a]
            != r[b] by {
            let a0 = if a < i {
                a
            } else {
                a + 1
            };
            let b0 = if b < i {
                b
            } else {
                b + 1
            };
            assert(r[a] == s[a0] && r[b] == s[b0]);
        }
        assert forall|k: int| 0 <= k < r.len() implies s.contains(#[trigger] r[k]) && r[k]
            != n by {
            let k0 = if k < i {
                k
            } else {
                k + 1
            };
            assert(r[k] == s[k0]);
        }
        assert forall|m: NodeId| m != n && s.contains(m) implies r.contains(m) by {
            let j = s.index_of(m);
            let j0 = if j < i {
                j
            } else {
                j - 1
            };
            assert(r[j0] == s[j]);
        }
    }
}

/// A request keeps the atlas well-formed.
pub proof fn lemma_request_wf(a: AtlasView, n: NodeId)
    requires
        a.wf(),
    ensures
        a.request(n).wf(),
{
    let b = a.request(n);
    if a.resident(n) {
        let i = a.index_of(n);
        assert(a.holds(i, n));
        assert forall|k: int, j: int|
            #![trigger b.pending[k], b.slots[j]]
            0 <= k < b.pending.len() && b.occupied(j) implies b.slots[j].node != b.pending[k] by {
            assert(a.occupied(j));
            assert(a.slots[j].node != a.pending[k]);
        }
        assert(b.wf());
    } else {
        lemma_target_kind(a);
        lemma_without(a.pending, n);
        match a.target() {
            Some(i) => {
                assert forall|p: int, q: int|
                    #![trigger b.slots[p], b.slots[q]]
                    b.occupied(p) && b.occupied(q) && b.slots[p].node == b.slots[q].node implies p
                    == q by {
                    if p != q {
                        if p == i {
                            assert(a.holds(q, n));
                        } else if q == i {
                            assert(a.holds(p, n));
                        } else {
                            assert(a.slots[p].node == a.slots[q].node);
                        }
                    }
                }
                assert forall|k: int, j: int|
                    #![trigger b.pending[k], b.slots[j]]
                    0 <= k < b.pending.len() && b.occupied(j) implies b.slots[j].node
                    != b.pending[k] by {
                    assert(a.pending.contains(b.pending[k]));
                    assert(b.pending.contains(b.pending[k]));
                    if j != i {
                        let k0 = a.pending.index_of(b.pending[k]);
                        assert(a.occupied(j));
                        assert(a.slots[j].node != a.pending[k0]);
                    }
                }
                assert(b.wf());
            },
            None => {
                assert forall|k: int, j: int|
                    #![trigger b.pending[k], b.slots[j]]
                    0 <= k < b.pending.len() && b.occupied(j) implies b.slots[j].node
                    != b.pending[k] by {
                    if k < a.pending.len() {
                        assert(a.slots[j].node != a.pending[k]);
                    } else {
                        assert(b.pending[k] == n);
                        if a.slots[j].node == n {
                            assert(a.holds(j, n));
                        }
                    }
                }
                assert(b.wf());
            },
        }
    }
}

/// A release keeps the atlas well-formed.
pub proof fn lemma_release_wf(a: AtlasView, n: NodeId)
    requires
        a.wf(),
    ensures
        a.release(n).wf(),
{
    let b = a.release(n);
    if a.resident(n) {
        let i = a.index_of(n);
        assert(a.holds(i, n));
        assert forall|k: int, j: int|
            #![trigger b.pending[k], b.slots[j]]
            0 <= k < b.pending.len() && b.occupied(j) implies b.slots[j].node != b.pending[k] by {
            assert(a.occupied(j));
            assert(a.slots[j].node != a.pending[k]);
        }
        assert(b.wf());
    } else {
        lemma_without(a.pending, n);
        assert forall|k: int, j: int|
            #![trigger b.pending[k], b.slots[j]]
            0 <= k < b.pending.len() && b.occupied(j) implies b.slots[j].node != b.pending[k] by {
            assert(a.pending.contains(b.pending[k]));
            let k0 = a.pending.index_of(b.pending[k]);
            assert(a.slots[j].node != a.pending[k0]);
        }
        assert(b.wf());
    }
}

/// Completing a load keeps the atlas well-formed.
pub proof fn lemma_complete_load_wf(a: AtlasView, n: NodeId, artifact: Option<Seq<u8>>)
    requires
        a.wf(),
    ensures
        a.complete_load(n, artifact).wf(),
{
    let b = a.complete_load(n, artifact);
    if a.loading(n) {
        let i = a.index_of(n);
        assert(a.holds(i, n));
        assert forall|p: int, q: int|
            #![trigger b.slots[p], b.slots[q]]
            b.occupied(p) && b.occupied(q) && b.slots[p].node == b.slots[q].node implies p
            == q by {
            assert(a.occupied(p) && a.occupied(q));
            assert(a.slots[p].node == a.slots[q].node);
        }
        assert forall|k: int, j: int|
            #![trigger b.pending[k], b.slots[j]]
            0 <= k < b.pending.len() && b.occupied(j) implies b.slots[j].node != b.pending[k] by {
            assert(a.occupied(j));
            assert(a.slots[j].node != a.pending[k]);
        }
        assert(b.wf());
    }
}

/// Starting a deferred load keeps the atlas well-formed.
pub proof fn lemma_next_pending_wf(a: AtlasView)
    requires
        a.wf(),
    ensures
        a.next_pending().wf(),
{
    if a.can_start_pending() {
        lemma_request_wf(a, a.pending[0]);
    }
}

/// Every operation keeps the atlas well-formed; in particular no operation
/// ever lets two slots hold the same node.
pub proof fn lemma_step_wf(a: AtlasView, op: AtlasOp)
    requires
        a.wf(),
    ensures
        a.step(op).wf(),
{
    match op {
        AtlasOp::Request(n) => lemma_request_wf(a, n),
        AtlasOp::Release(n) => lemma_release_wf(a, n),
        AtlasOp::CompleteLoad(n, artifact) => lemma_complete_load_wf(a, n, artifact),
        AtlasOp::NextPending => lemma_next_pending_wf(a),
        AtlasOp::AdvanceFrame => {
            assert(a.advance_frame().wf());
        },
    }
}

/// No node occupies two slots: two slots of a well-formed atlas that hold
/// the same node are one slot.
pub proof fn lemma_single_occupancy(a: AtlasView, n: NodeId, i: int, j: int)
    requires
        a.wf(),
        a.holds(i, n),
        a.holds(j, n),
    ensures
        i == j,
{
    assert(a.slots[i].node == a.slots[j].node);
}

/// Requests coalesce. A request repeated at once changes nothing and never
/// starts a load; and the first request of a node that occupies no slot
/// starts exactly one whenever a slot is free or evictable.
pub proof fn lemma_request_coalesces(a: AtlasView, n: NodeId)
    requires
        a.wf(),
    ensures
        a.request(n).request(n) == a.request(n),
        !(a.request(n).request_status(n) is Started),
        !a.resident(n) && a.target().is_some() ==> a.request_status(n) is Started && a.request(
            n,
        ).loading(n),
        !a.resident(n) && a.target().is_none() ==> a.request_status(n) is Deferred && a.request(
            n,
        ).request_status(n) is Deferred,
{
    let b = a.request(n);
    lemma_request_wf(a, n);
    if a.resident(n) {
        let i = a.index_of(n);
        assert(a.holds(i, n));
        assert(b.holds(i, n));
        lemma_index_of(b, i, n);
        assert(b.request(n).slots =~= b.slots);
    } else {
        lemma_target_kind(a);
        match a.target() {
            Some(i) => {
                assert(b.holds(i, n));
                lemma_index_of(b, i, n);
                assert(b.request(n).slots =~= b.slots);
            },
            None => {
                assert forall|j: int| !b.holds(j, n) by {
                    if b.holds(j, n) {
                        assert(a.holds(j, n));
                    }
                }
                assert(b.slots == a.slots);
                assert forall|c: int| !b.is_first_free(c) && !b.is_victim(c) by {
                    if b.is_first_free(c) {
                        assert(a.is_first_free(c));
                    }
                    if b.is_victim(c) {
                        assert(a.is_victim(c));
                    }
                }
                if a.pending.contains(n) {
                } else {
                    assert(b.pending[a.pending.len() as int] == n);
                }
                assert(b.pending.contains(n));
            },
        }
    }
}

/// A load that delivers an artifact of the prescribed size makes its node
/// ready with exactly that data, unless the node was released meanwhile.
pub proof fn lemma_load_makes_ready(a: AtlasView, n: NodeId, bytes: Seq<u8>)
    requires
        a.wf(),
        a.loading(n),
        !a.slots[a.index_of(n)].released,
        bytes.len() == a.artifact_size,
    ensures
        a.load_result(n, Some(bytes)) == Ok::<usize, LoadError>(a.index_of(n) as usize),
        a.complete_load(n, Some(bytes)).is_ready(n),
        a.complete_load(n, Some(bytes)).index_of(n) == a.index_of(n),
        a.complete_load(n, Some(bytes)).data[a.index_of(n)] == bytes,
{
    let b = a.complete_load(n, Some(bytes));
    let i = a.index_of(n);
    assert(a.holds(i, n));
    lemma_complete_load_wf(a, n, Some(bytes));
    assert(b.holds(i, n));
    lemma_index_of(b, i, n);
}

/// A load that fails leaves its node without a slot.
pub proof fn lemma_failed_load_frees(a: AtlasView, n: NodeId, artifact: Option<Seq<u8>>)
    requires
        a.wf(),
        a.loading(n),
        a.load_result(n, artifact).is_err(),
    ensures
        !a.complete_load(n, artifact).resident(n),
        a.complete_load(n, artifact).state_of(n) == SlotState::Unloaded,
{
    let b = a.complete_load(n, artifact);
    let i = a.index_of(n);
    assert(a.holds(i, n));
    assert forall|j: int| !b.holds(j, n) by {
        if b.holds(j, n) {
            assert(j != i);
            assert(a.holds(j, n));
            assert(a.slots[i].node == a.slots[j].node);
        }
    }
}

/// What an operation does to the slot of a node that is loaded or being
/// loaded: nothing, unless the operation names that very node. In
/// particular such a slot is never chosen for eviction.
pub proof fn lemma_slot_kept(a: AtlasView, op: AtlasOp, n: NodeId)
    requires
        a.wf(),
        a.state_of(n) == SlotState::Loaded || a.state_of(n) == SlotState::Loading,
        op != AtlasOp::Release(n),
        !(op matches AtlasOp::CompleteLoad(m, _) && m == n),
        op != AtlasOp::Request(n),
    ensures
        a.step(op).resident(n),
        a.step(op).index_of(n) == a.index_of(n),
        a.step(op).slots[a.index_of(n)] == a.slots[a.index_of(n)],
        a.step(op).data[a.index_of(n)] == a.data[a.index_of(n)],
{
    let b = a.step(op);
    let i = a.index_of(n);
    assert(a.holds(i, n));
    lemma_step_wf(a, op);
    lemma_target_kind(a);
    match op {
        AtlasOp::Request(m) => {
            if a.resident(m) {
                assert(a.holds(a.index_of(m), m));
            }
        },
        AtlasOp::Release(m) => {
            if a.resident(m) {
                assert(a.holds(a.index_of(m), m));
            }
        },
        AtlasOp::CompleteLoad(m, artifact) => {
            if a.resident(m) {
                assert(a.holds(a.index_of(m), m));
            }
        },
        AtlasOp::NextPending => {
            if a.can_start_pending() {
                let m = a.pending[0];
                assert(a.slots[i].node != a.pending[0]);
                if a.resident(m) {
                    assert(a.holds(a.index_of(m), m));
                }
            }
        },
        AtlasOp::AdvanceFrame => {},
    }
    assert(b.slots[i] == a.slots[i]);
    assert(b.holds(i, n));
    lemma_index_of(b, i, n);
}

/// Once a node is ready it stays ready, in its slot and with its data,
/// through every operation but its own release. (Its release makes it
/// evictable; only then can a later request evict it.)
pub proof fn lemma_ready_persists(a: AtlasView, op: AtlasOp, n: NodeId)
    requires
        a.wf(),
        a.is_ready(n),
        op != AtlasOp::Release(n),
    ensures
        a.step(op).is_ready(n),
        a.step(op).slot_of(n) == a.slot_of(n),
        a.step(op).data[a.index_of(n)] == a.data[a.index_of(n)],
{
    let b = a.step(op);
    let i = a.index_of(n);
    assert(a.holds(i, n));
    lemma_step_wf(a, op);
    if op == AtlasOp::Request(n) {
        assert(b.holds(i, n));
        lemma_index_of(b, i, n);
    } else if op matches AtlasOp::CompleteLoad(m, _) && m == n {
        assert(b == a);
    } else {
        lemma_slot_kept(a, op, n);
    }
}

/// Eviction takes evictable nodes only. A node that loses its slot in an
/// operation was evictable and gave way to a new load, or was being loaded
/// and its own load failed.
pub proof fn lemma_eviction_only_evictable(a: AtlasView, op: AtlasOp, n: NodeId)
    requires
        a.wf(),
        a.resident(n),
        !a.step(op).resident(n),
    ensures
        a.state_of(n) == SlotState::Evictable || a.state_of(n) == SlotState::Loading,
        a.state_of(n) == SlotState::Evictable ==> a.target() == Some(a.index_of(n)) && (op
            is Request || op is NextPending),
        a.state_of(n) == SlotState::Loading ==> (op matches AtlasOp::CompleteLoad(m, artifact)
            && m == n && a.load_result(n, artifact).is_err()),
{
    let b = a.step(op);
    let i = a.index_of(n);
    assert(a.holds(i, n));
    lemma_target_kind(a);
    if a.state_of(n) == SlotState::Loaded || a.state_of(n) == SlotState::Loading {
        if op == AtlasOp::Release(n) || op == AtlasOp::Request(n) {
            assert(b.holds(i, n));
        } else if op matches AtlasOp::CompleteLoad(m, _) && m == n {
            if a.state_of(n) == SlotState::Loaded {
                assert(b == a);
            } else {
                let artifact = op->CompleteLoad_1;
                if a.load_result(n, artifact).is_ok() {
                    assert(b.holds(i, n));
                }
            }
        } else {
            lemma_slot_kept(a, op, n);
        }
    } else {
        assert(a.state_of(n) == SlotState::Evictable);
        match op {
            AtlasOp::Request(m) => {
                if a.resident(m) {
                    let j = a.index_of(m);
                    assert(a.holds(j, m));
                    assert(b.holds(i, n));
                } else if a.target() != Some(i) {
                    assert(b.holds(i, n));
                }
            },
            AtlasOp::Release(m) => {
                if a.resident(m) {
                    assert(a.holds(a.index_of(m), m));
                }
                assert(b.holds(i, n));
            },
            AtlasOp::CompleteLoad(m, artifact) => {
                if a.resident(m) {
                    assert(a.holds(a.index_of(m), m));
                }
                assert(b.holds(i, n));
            },
            AtlasOp::NextPending => {
                if a.can_start_pending() {
                    let m = a.pending[0];
                    if a.resident(m) {
                        let j = a.index_of(m);
                        assert(a.holds(j, m));
                        assert(a.slots[j].node != a.pending[0]);
                    }
                    if a.target() != Some(i) {
                        assert(b.holds(i, n));
                    }
                } else {
                    assert(b.holds(i, n));
                }
            },
            AtlasOp::AdvanceFrame => {
                assert(b.holds(i, n));
            },
        }
    }
}

/// A wanted node is never evicted: whatever is requested, and whichever
/// deferred load is started, a node that was requested and not released
/// since keeps its slot, its state and its data, and stays wanted.
pub proof fn lemma_wanted_never_evicted(a: AtlasView, op: AtlasOp, n: NodeId)
    requires
        a.wf(),
        a.wanted(n),
        op is Request || op is NextPending,
    ensures
        a.step(op).wanted(n),
        a.step(op).index_of(n) == a.index_of(n),
        a.step(op).slots[a.index_of(n)].state == a.slots[a.index_of(n)].state,
        a.step(op).data[a.index_of(n)] == a.data[a.index_of(n)],
{
    let b = a.step(op);
    let i = a.index_of(n);
    assert(a.holds(i, n));
    lemma_step_wf(a, op);
    if op == AtlasOp::Request(n) {
        assert(b.holds(i, n));
        lemma_index_of(b, i, n);
    } else {
        lemma_slot_kept(a, op, n);
    }
}

/// Releasing a node leaves every other node in its slot, in its state and
/// with its data.
pub proof fn lemma_release_other(a: AtlasView, m: NodeId, n: NodeId)
    requires
        a.wf(),
        a.resident(n),
        m != n,
    ensures
        a.release(m).resident(n),
        a.release(m).index_of(n) == a.index_of(n),
        a.release(m).slots[a.index_of(n)] == a.slots[a.index_of(n)],
        a.release(m).data[a.index_of(n)] == a.data[a.index_of(n)],
{
    let b = a.release(m);
    let i = a.index_of(n);
    assert(a.holds(i, n));
    lemma_release_wf(a, m);
    if a.resident(m) {
        assert(a.holds(a.index_of(m), m));
    }
    assert(b.holds(i, n));
    lemma_index_of(b, i, n);
}

/// Requesting a node that occupies a slot takes no slot from any node: every
/// resident node keeps its slot and its data. The requested node is wanted
/// afterwards, and ready if its slot held data; every other node keeps its
/// state.
pub proof fn lemma_request_resident(a: AtlasView, m: NodeId, n: NodeId)
    requires
        a.wf(),
        a.resident(m),
        a.resident(n),
    ensures
        a.request(m).resident(n),
        a.request(m).index_of(n) == a.index_of(n),
        a.request(m).data[a.index_of(n)] == a.data[a.index_of(n)],
        m != n ==> a.request(m).slots[a.index_of(n)] == a.slots[a.index_of(n)],
        m == n ==> a.request(m).wanted(n),
        a.holds_data(a.index_of(n)) ==> a.request(m).holds_data(a.index_of(n)),
        m == n && a.holds_data(a.index_of(n)) ==> a.request(m).is_ready(n),
{
    let b = a.request(m);
    let i = a.index_of(n);
    let j = a.index_of(m);
    assert(a.holds(i, n));
    assert(a.holds(j, m));
    lemma_request_wf(a, m);
    assert(b.holds(i, n));
    lemma_index_of(b, i, n);
}

/// Starting a deferred request takes it from the queue.
pub proof fn lemma_next_pending_shortens(a: AtlasView)
    requires
        a.wf(),
        a.can_start_pending(),
    ensures
        a.next_pending().pending.len() == a.pending.len() - 1,
{
    let m = a.pending[0];
    assert(a.pending.contains(m));
    assert forall|i: int| !a.holds(i, m) by {
        if a.holds(i, m) {
            assert(a.slots[i].node != a.pending[0]);
        }
    }
}

/// A request that finds every slot held by a node that is loaded or being
/// loaded is deferred: it is queued, and no slot changes.
pub proof fn lemma_full_atlas_defers(a: AtlasView, n: NodeId)
    requires
        a.wf(),
        !a.resident(n),
        forall|i: int|
            0 <= i < a.slots.len() ==> (#[trigger] a.slots[i]).state == SlotState::Loaded
                || a.slots[i].state == SlotState::Loading,
    ensures
        a.request_status(n) is Deferred,
        a.request(n).slots == a.slots,
        a.request(n).pending.contains(n),
        a.request(n).pending.len() == if a.pending.contains(n) {
            a.pending.len()
        } else {
            a.pending.len() + 1
        },
{
    lemma_no_target(a);
    let b = a.request(n);
    if !a.pending.contains(n) {
        assert(b.pending[a.pending.len() as int] == n);
    }
}

} // verus!
