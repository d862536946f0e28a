//! The node atlas: a fixed number of slots that cache node data, filled by
//! loads that the caller performs and reclaimed, least recently used first,
//! from nodes that were released.
//!
//! The atlas itself does no input or output. `request` and `next_pending`
//! reserve a slot and tell the caller which node to load; the caller reads
//! the node's artifact and hands it to `complete_load`, which checks it and
//! makes the node ready in one step.

use vstd::prelude::*;
use crate::atlas_model::{
    lemma_complete_load_wf, lemma_index_of, lemma_no_target, lemma_not_resident, lemma_release_wf,
    lemma_request_wf, lemma_target, without, AtlasView, LoadError, RequestStatus, Slot, SlotState,
};
use crate::node::NodeId;

verus! {

/// The node atlas of one attachment: the slot table, the data of the
/// slots, the queue of deferred requests and the frame counter.
pub struct NodeAtlas {
    slots: Vec<Slot>,
    data: Vec<Vec<u8>>,
    pending: Vec<NodeId>,
    frame: u64,
    artifact_size: usize,
}

impl View for NodeAtlas {
    type V = AtlasView;

    closed spec fn view(&self) -> AtlasView {
        AtlasView {
            slots: self.slots@,
            data: Seq::new(self.data@.len(), |i: int| self.data@[i]@),
            pending: self.pending@,
            frame: self.frame,
            artifact_size: self.artifact_size,
        }
    }
}

/// The state of an atlas with `capacity` free slots and nothing queued.
pub open spec fn empty_atlas(capacity: usize, artifact_size: usize) -> AtlasView {
    AtlasView {
        slots: Seq::new(
            capacity as nat,
            |i: int|
                Slot {
                    state: SlotState::Unloaded,
                    node: NodeId { lod: 0, x: 0, y: 0 },
                    last_used: 0,
                    released: false,
                },
        ),
        data: Seq::new(capacity as nat, |i: int| Seq::empty()),
        pending: Seq::empty(),
        frame: 0,
        artifact_size,
    }
}

/// The view of an artifact handed to `complete_load`.
pub open spec fn artifact_view(artifact: Option<Vec<u8>>) -> Option<Seq<u8>> {
    match artifact {
        Some(bytes) => Some(bytes@),
        None => None,
    }
}

/// The position of `n` in `list`.
fn position(list: &Vec<NodeId>, n: NodeId) -> (r: Option<usize>)
    ensures
        r matches Some(k) ==> k < list.len() && list[k as int] == n,
        r.is_none() ==> !list@.contains(n),
{
    let mut k: usize = 0;
    while k < list.len()
        invariant
            k <= list.len(),
            forall|j: int| 0 <= j < k ==> list[j] != n,
        decreases list.len() - k,
    {
        if list[k] == n {
            return Some(k);
        }
        k += 1;
    }
    None
}

/// Removes `n` from a list that holds it at most once.
fn strike(list: &mut Vec<NodeId>, n: NodeId)
    requires
        old(list)@.no_duplicates(),
    ensures
        final(list)@ == without(old(list)@, n),
{
    match position(list, n) {
        Some(k) => {
            assert(list@.contains(n));
            assert(list@.index_of(n) == k);
            list.remove(k);
        },
        None => {},
    }
}

impl NodeAtlas {
    /// The invariant of the atlas: no node occupies two slots, no queued node
    /// is resident, and a slot holds a whole artifact or nothing.
    pub open spec fn wf(&self) -> bool {
        self@.wf()
    }

    /// An atlas of `capacity` free slots for artifacts of `artifact_size`
    /// bytes.
    pub fn new(capacity: usize, artifact_size: usize) -> (atlas: NodeAtlas)
        ensures
            atlas.wf(),
            atlas@ == empty_atlas(capacity, artifact_size),
    {
        let mut slots: Vec<Slot> = Vec::new();
        let mut data: Vec<Vec<u8>> = Vec::new();
        let free = Slot {
            state: SlotState::Unloaded,
            node: NodeId { lod: 0, x: 0, y: 0 },
            last_used: 0,
            released: false,
        };
        let mut i: usize = 0;
        while i < capacity
            invariant
                i <= capacity,
                slots.len() == i,
                data.len() == i,
                forall|j: int| 0 <= j < i ==> slots[j] == free,
                forall|j: int| 0 <= j < i ==> (#[trigger] data[j])@.len() == 0,
            decreases capacity - i,
        {
            slots.push(free);
            data.push(Vec::new());
            i += 1;
        }
        let atlas = NodeAtlas { slots, data, pending: Vec::new(), frame: 0, artifact_size };
        proof {
            let e = empty_atlas(capacity, artifact_size);
            assert(atlas@.slots =~= e.slots);
            assert forall|j: int| 0 <= j < capacity implies atlas@.data[j] == e.data[j] by {
                assert(data[j]@ =~= Seq::<u8>::empty());
            }
            assert(atlas@.data =~= e.data);
            assert(atlas@.pending =~= e.pending);
        }
        atlas
    }

    /// The number of slots.
    pub fn capacity(&self) -> (c: usize)
        ensures
            c == self@.capacity(),
    {
        self.slots.len()
    }

    /// The current frame.
    pub fn frame(&self) -> (f: u64)
        ensures
            f == self@.frame,
    {
        self.frame
    }

    /// The byte length of every artifact of the attachment.
    pub fn artifact_size(&self) -> (s: usize)
        ensures
            s == self@.artifact_size,
    {
        self.artifact_size
    }

    /// The number of deferred requests that wait for a slot.
    pub fn pending_count(&self) -> (c: usize)
        ensures
            c == self@.pending.len(),
    {
        self.pending.len()
    }

    /// The slot that `n` occupies.
    fn find(&self, n: NodeId) -> (r: Option<usize>)
        requires
            self.wf(),
        ensures
            r.is_some() == self@.resident(n),
            r matches Some(i) ==> self@.holds(i as int, n) && self@.index_of(n) == i,
    {
        let mut i: usize = 0;
        while i < self.slots.len()
            invariant
                i <= self.slots.len(),
                self.wf(),
                forall|j: int| 0 <= j < i ==> !self@.holds(j, n),
            decreases self.slots.len() - i,
        {
            if self.slots[i].state != SlotState::Unloaded && self.slots[i].node == n {
                proof {
                    assert(self@.holds(i as int, n));
                    lemma_index_of(self@, i as int, n);
                }
                return Some(i);
            }
            i += 1;
        }
        proof {
            lemma_not_resident(self@, n);
        }
        None
    }

    /// The slot that the next load will use.
    fn find_target(&self) -> (r: Option<usize>)
        ensures
            r.is_some() == self@.target().is_some(),
            r matches Some(i) ==> i < self@.slots.len() && self@.target() == Some(i as int),
    {
        let mut victim: Option<usize> = None;
        let mut i: usize = 0;
        while i < self.slots.len()
            invariant
                i <= self.slots.len(),
                forall|j: int|
                    0 <= j < i ==> (#[trigger] self@.slots[j]).state != SlotState::Unloaded,
                match victim {
                    Some(v) => {
                        &&& v < i
                        &&& self@.slots[v as int].state == SlotState::Evictable
                        &&& forall|j: int|
                            0 <= j < i && (#[trigger] self@.slots[j]).state
                                == SlotState::Evictable ==> self@.slots[v as int].last_used
                                < self@.slots[j].last_used || (self@.slots[v as int].last_used
                                == self@.slots[j].last_used && v <= j)
                    },
                    None => forall|j: int|
                        0 <= j < i ==> (#[trigger] self@.slots[j]).state != SlotState::Evictable,
                },
            decreases self.slots.len() - i,
        {
            let s = self.slots[i];
            if s.state == SlotState::Unloaded {
                proof {
                    assert(self@.is_first_free(i as int));
                    lemma_target(self@, i as int);
                }
                return Some(i);
            }
            if s.state == SlotState::Evictable {
                let better = match victim {
                    Some(v) => s.last_used < self.slots[v].last_used,
                    None => true,
                };
                if better {
                    victim = Some(i);
                }
            }
            i += 1;
        }
        proof {
            match victim {
                Some(v) => {
                    assert(self@.is_victim(v as int));
                    lemma_target(self@, v as int);
                },
                None => {
                    lemma_no_target(self@);
                },
            }
        }
        victim
    }

    /// Whether `n` occupies a slot, in whatever state.
    pub fn is_resident(&self, n: NodeId) -> (b: bool)
        requires
            self.wf(),
        ensures
            b == self@.resident(n),
    {
        self.find(n).is_some()
    }

    /// The lifecycle state of `n`: that of its slot, `Unloaded` where it has
    /// none.
    pub fn state_of(&self, n: NodeId) -> (s: SlotState)
        requires
            self.wf(),
        ensures
            s == self@.state_of(n),
    {
        match self.find(n) {
            Some(i) => self.slots[i].state,
            None => SlotState::Unloaded,
        }
    }

    /// Whether the data of `n` is resident and wanted.
    pub fn is_ready(&self, n: NodeId) -> (b: bool)
        requires
            self.wf(),
        ensures
            b == self@.is_ready(n),
    {
        match self.find(n) {
            Some(i) => self.slots[i].state == SlotState::Loaded,
            None => false,
        }
    }

    /// The slot of `n` while `n` is ready.
    pub fn slot_of(&self, n: NodeId) -> (r: Option<usize>)
        requires
            self.wf(),
        ensures
            r == self@.slot_of(n),
    {
        match self.find(n) {
            Some(i) => if self.slots[i].state == SlotState::Loaded {
                Some(i)
            } else {
                None
            },
            None => None,
        }
    }

    /// The data of `n` while `n` is ready: always a whole artifact.
    pub fn node_data(&self, n: NodeId) -> (r: Option<&Vec<u8>>)
        requires
            self.wf(),
        ensures
            r.is_some() == self@.is_ready(n),
            r matches Some(bytes) ==> bytes@ == self@.data[self@.index_of(n)] && bytes@.len()
                == self@.artifact_size,
    {
        match self.find(n) {
            Some(i) => if self.slots[i].state == SlotState::Loaded {
                assert(self@.slots[i as int].state == SlotState::Loaded);
                Some(&self.data[i])
            } else {
                None
            },
            None => None,
        }
    }

    /// Starts a new frame. The counter stops at its largest value.
    pub fn advance_frame(&mut self)
        requires
            old(self).wf(),
        ensures
            final(self).wf(),
            final(self)@ == old(self)@.advance_frame(),
    {
        if self.frame < u64::MAX {
            self.frame = self.frame + 1;
        }
    }

    /// Asks for the data of `n`.
    ///
    /// A node that is resident or being loaded is only marked as used in the
    /// current frame (a released one becomes wanted again). Otherwise a slot
    /// is reserved for it: the first free one, else the evictable slot that
    /// was used least recently, whose node is thereby evicted. Where neither
    /// exists the request is queued, once.
    pub fn request(&mut self, n: NodeId) -> (status: RequestStatus)
        requires
            old(self).wf(),
        ensures
            final(self).wf(),
            final(self)@ == old(self)@.request(n),
            status == old(self)@.request_status(n),
    {
        proof {
            lemma_request_wf(self@, n);
        }
        match self.find(n) {
            Some(i) => {
                let s = self.slots[i];
                let state = if s.state == SlotState::Evictable {
                    SlotState::Loaded
                } else {
                    s.state
                };
                self.slots.set(
                    i,
                    Slot { state, node: n, last_used: self.frame, released: false },
                );
                assert(self@.data =~= old(self)@.request(n).data);
                if s.state == SlotState::Loading {
                    RequestStatus::Loading(i)
                } else {
                    RequestStatus::Ready(i)
                }
            },
            None => {
                match self.find_target() {
                    Some(i) => {
                        self.slots.set(
                            i,
                            Slot {
                                state: SlotState::Loading,
                                node: n,
                                last_used: self.frame,
                                released: false,
                            },
                        );
                        self.data.set(i, Vec::new());
                        strike(&mut self.pending, n);
                        assert(self@.data =~= old(self)@.request(n).data);
                        RequestStatus::Started(i)
                    },
                    None => {
                        if position(&self.pending, n).is_none() {
                            self.pending.push(n);
                        }
                        assert(self@.data =~= old(self)@.request(n).data);
                        RequestStatus::Deferred
                    },
                }
            },
        }
    }

    /// Declares that `n` is no longer wanted.
    ///
    /// Its data stays resident until the slot is needed. A load in flight
    /// is left to complete and its result becomes evictable at once; a queued
    /// request is withdrawn.
    pub fn release(&mut self, n: NodeId)
        requires
            old(self).wf(),
        ensures
            final(self).wf(),
            final(self)@ == old(self)@.release(n),
    {
        proof {
            lemma_release_wf(self@, n);
        }
        match self.find(n) {
            Some(i) => {
                let s = self.slots[i];
                if s.state == SlotState::Loaded {
                    self.slots.set(i, Slot { state: SlotState::Evictable, ..s });
                } else if s.state == SlotState::Loading {
                    self.slots.set(i, Slot { released: true, ..s });
                }
                assert(self@.data =~= old(self)@.release(n).data);
            },
            None => {
                strike(&mut self.pending, n);
                assert(self@.data =~= old(self)@.release(n).data);
            },
        }
    }

    /// Reports the outcome of the load of `n`: the artifact that was read, or
    /// `None` where there is none.
    ///
    /// An artifact of the prescribed size makes the node ready (evictable,
    /// where it was released meanwhile). A missing or wrongly sized artifact
    /// frees the slot and is reported. Without a load of `n` in flight
    /// nothing changes.
    pub fn complete_load(&mut self, n: NodeId, artifact: Option<Vec<u8>>) -> (r: Result<
        usize,
        LoadError,
    >)
        requires
            old(self).wf(),
        ensures
            final(self).wf(),
            final(self)@ == old(self)@.complete_load(n, artifact_view(artifact)),
            r == old(self)@.load_result(n, artifact_view(artifact)),
    {
        proof {
            lemma_complete_load_wf(self@, n, artifact_view(artifact));
        }
        let i = match self.find(n) {
            Some(i) => i,
            None => {
                return Err(LoadError::NotLoading);
            },
        };
        let s = self.slots[i];
        if s.state != SlotState::Loading {
            return Err(LoadError::NotLoading);
        }
        let failed = Slot { state: SlotState::Unloaded, released: false, ..s };
        match artifact {
            None => {
                self.slots.set(i, failed);
                assert(self@.data =~= old(self)@.data);
                Err(LoadError::ArtifactMissing)
            },
            Some(bytes) => {
                if bytes.len() != self.artifact_size {
                    self.slots.set(i, failed);
                    assert(self@.data =~= old(self)@.data);
                    Err(LoadError::ArtifactCorrupt)
                } else {
                    let state = if s.released {
                        SlotState::Evictable
                    } else {
                        SlotState::Loaded
                    };
                    self.slots.set(i, Slot { state, released: false, ..s });
                    self.data.set(i, bytes);
                    assert(self@.data =~= old(self)@.data.update(i as int, bytes@));
                    Ok(i)
                }
            },
        }
    }

    /// Starts the load of the oldest deferred request if a slot can be had
    /// for it, and tells the caller which node to load into which slot.
    pub fn next_pending(&mut self) -> (r: Option<(NodeId, usize)>)
        requires
            old(self).wf(),
        ensures
            final(self).wf(),
            final(self)@ == old(self)@.next_pending(),
            r == old(self)@.next_pending_result(),
    {
        if self.pending.len() == 0 {
            return None;
        }
        let n = self.pending[0];
        match self.find_target() {
            None => None,
            Some(i) => {
                proof {
                    lemma_request_wf(self@, n);
                    if self@.resident(n) {
                        let j = self@.index_of(n);
                        assert(self@.holds(j, n));
                        assert(self@.slots[j].node != self@.pending[0]);
                    }
                }
                self.slots.set(
                    i,
                    Slot {
                        state: SlotState::Loading,
                        node: n,
                        last_used: self.frame,
                        released: false,
                    },
                );
                self.data.set(i, Vec::new());
                strike(&mut self.pending, n);
                assert(self@.data =~= old(self)@.request(n).data);
                Some((n, i))
            },
        }
    }
}

} // verus!
