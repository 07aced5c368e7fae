//! The ids of the seven kinds of entities.

use vstd::prelude::*;

use crate::arena::{EntityKey, SlotKey};

verus! {

/// The id of a vertex.
#[derive(Clone, Copy, Debug, PartialEq, Eq, Hash, PartialOrd, Ord, Structural)]
pub struct VertexId {
    slot: SlotKey,
}

impl EntityKey for VertexId {
    closed spec fn slot(self) -> SlotKey {
        self.slot
    }

    closed spec fn of(slot: SlotKey) -> Self {
        VertexId { slot }
    }

    proof fn lemma_renaming(self, slot: SlotKey) {
    }

    fn slot_key(&self) -> (slot: SlotKey) {
        self.slot
    }

    fn of_slot(slot: SlotKey) -> (key: Self) {
        VertexId { slot }
    }
}

impl VertexId {
    /// The id that no entity has.
    pub open spec fn null() -> VertexId {
        VertexId::of(SlotKey::null_key())
    }
}

impl Default for VertexId {
    fn default() -> (id: VertexId)
        ensures
            id == VertexId::null(),
    {
        VertexId { slot: SlotKey::null() }
    }
}

/// The id of an edge.
#[derive(Clone, Copy, Debug, PartialEq, Eq, Hash, PartialOrd, Ord, Structural)]
pub struct EdgeId {
    slot: SlotKey,
}

impl EntityKey for EdgeId {
    closed spec fn slot(self) -> SlotKey {
        self.slot
    }

    closed spec fn of(slot: SlotKey) -> Self {
        EdgeId { slot }
    }

    proof fn lemma_renaming(self, slot: SlotKey) {
    }

    fn slot_key(&self) -> (slot: SlotKey) {
        self.slot
    }

    fn of_slot(slot: SlotKey) -> (key: Self) {
        EdgeId { slot }
    }
}

impl EdgeId {
    /// The id that no entity has.
    pub open spec fn null() -> EdgeId {
        EdgeId::of(SlotKey::null_key())
    }
}

impl Default for EdgeId {
    fn default() -> (id: EdgeId)
        ensures
            id == EdgeId::null(),
    {
        EdgeId { slot: SlotKey::null() }
    }
}

/// The id of a co-edge.
#[derive(Clone, Copy, Debug, PartialEq, Eq, Hash, PartialOrd, Ord, Structural)]
pub struct CoEdgeId {
    slot: SlotKey,
}

impl EntityKey for CoEdgeId {
    closed spec fn slot(self) -> SlotKey {
        self.slot
    }

    closed spec fn of(slot: SlotKey) -> Self {
        CoEdgeId { slot }
    }

    proof fn lemma_renaming(self, slot: SlotKey) {
    }

    fn slot_key(&self) -> (slot: SlotKey) {
        self.slot
    }

    fn of_slot(slot: SlotKey) -> (key: Self) {
        CoEdgeId { slot }
    }
}

impl CoEdgeId {
    /// The id that no entity has.
    pub open spec fn null() -> CoEdgeId {
        CoEdgeId::of(SlotKey::null_key())
    }
}

impl Default for CoEdgeId {
    fn default() -> (id: CoEdgeId)
        ensures
            id == CoEdgeId::null(),
    {
        CoEdgeId { slot: SlotKey::null() }
    }
}

/// The id of a loop.
#[derive(Clone, Copy, Debug, PartialEq, Eq, Hash, PartialOrd, Ord, Structural)]
pub struct LoopId {
    slot: SlotKey,
}

impl EntityKey for LoopId {
    closed spec fn slot(self) -> SlotKey {
        self.slot
    }

    closed spec fn of(slot: SlotKey) -> Self {
        LoopId { slot }
    }

    proof fn lemma_renaming(self, slot: SlotKey) {
    }

    fn slot_key(&self) -> (slot: SlotKey) {
        self.slot
    }

    fn of_slot(slot: SlotKey) -> (key: Self) {
        LoopId { slot }
    }
}

impl LoopId {
    /// The id that no entity has.
    pub open spec fn null() -> LoopId {
        LoopId::of(SlotKey::null_key())
    }
}

impl Default for LoopId {
    fn default() -> (id: LoopId)
        ensures
            id == LoopId::null(),
    {
        LoopId { slot: SlotKey::null() }
    }
}

/// The id of a face.
#[derive(Clone, Copy, Debug, PartialEq, Eq, Hash, PartialOrd, Ord, Structural)]
pub struct FaceId {
    slot: SlotKey,
}

impl EntityKey for FaceId {
    closed spec fn slot(self) -> SlotKey {
        self.slot
    }

    closed spec fn of(slot: SlotKey) -> Self {
        FaceId { slot }
    }

    proof fn lemma_renaming(self, slot: SlotKey) {
    }

    fn slot_key(&self) -> (slot: SlotKey) {
        self.slot
    }

    fn of_slot(slot: SlotKey) -> (key: Self) {
        FaceId { slot }
    }
}

impl FaceId {
    /// The id that no entity has.
    pub open spec fn null() -> FaceId {
        FaceId::of(SlotKey::null_key())
    }
}

impl Default for FaceId {
    fn default() -> (id: FaceId)
        ensures
            id == FaceId::null(),
    {
        FaceId { slot: SlotKey::null() }
    }
}

/// The id of a shell.
#[derive(Clone, Copy, Debug, PartialEq, Eq, Hash, PartialOrd, Ord, Structural)]
pub struct ShellId {
    slot: SlotKey,
}

impl EntityKey for ShellId {
    closed spec fn slot(self) -> SlotKey {
        self.slot
    }

    closed spec fn of(slot: SlotKey) -> Self {
        ShellId { slot }
    }

    proof fn lemma_renaming(self, slot: SlotKey) {
    }

    fn slot_key(&self) -> (slot: SlotKey) {
        self.slot
    }

    fn of_slot(slot: SlotKey) -> (key: Self) {
        ShellId { slot }
    }
}

impl ShellId {
    /// The id that no entity has.
    pub open spec fn null() -> ShellId {
        ShellId::of(SlotKey::null_key())
    }
}

impl Default for ShellId {
    fn default() -> (id: ShellId)
        ensures
            id == ShellId::null(),
    {
        ShellId { slot: SlotKey::null() }
    }
}

/// The id of a solid.
#[derive(Clone, Copy, Debug, PartialEq, Eq, Hash, PartialOrd, Ord, Structural)]
pub struct SolidId {
    slot: SlotKey,
}

impl EntityKey for SolidId {
    closed spec fn slot(self) -> SlotKey {
        self.slot
    }

    closed spec fn of(slot: SlotKey) -> Self {
        SolidId { slot }
    }

    proof fn lemma_renaming(self, slot: SlotKey) {
    }

    fn slot_key(&self) -> (slot: SlotKey) {
        self.slot
    }

    fn of_slot(slot: SlotKey) -> (key: Self) {
        SolidId { slot }
    }
}

impl SolidId {
    /// The id that no entity has.
    pub open spec fn null() -> SolidId {
        SolidId::of(SlotKey::null_key())
    }
}

impl Default for SolidId {
    fn default() -> (id: SolidId)
        ensures
            id == SolidId::null(),
    {
        SolidId { slot: SlotKey::null() }
    }
}

} // verus!
