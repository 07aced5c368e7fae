//! What holds of the library as a whole.

use vstd::prelude::*;

use crate::arena::key_order;
use crate::brep::{BRep, Model, fused, last_place, linked, ring_from, shells_in_turn};
use crate::entities::{CoEdge, Solid};
use crate::ids::{CoEdgeId, SolidId};

verus! {

/// Once distinct co-edges have been linked in order, walking from the first of
/// them gives them all back, in that order.
pub proof fn law_linked_ring_walks(
    before: Map<CoEdgeId, CoEdge>,
    after: Map<CoEdgeId, CoEdge>,
    ordered: Seq<CoEdgeId>,
)
    requires
        before.dom().finite(),
        ordered.len() > 0,
        ordered.no_duplicates(),
        forall|i: int| 0 <= i < ordered.len() ==> before.dom().contains(#[trigger] ordered[i]),
        after.dom() == before.dom(),
        forall|id: CoEdgeId| #[trigger]
            before.dom().contains(id) ==> after[id] == linked(
                before,
                ordered,
                ordered.len() as int,
                id,
            ),
    ensures
        ring_from(after, ordered[0], ordered[0], after.dom().len()) == Some(ordered),
{
    ordered.unique_seq_to_set();
    assert(ordered.to_set().subset_of(before.dom()));
    vstd::set_lib::lemma_len_subset(ordered.to_set(), before.dom());
    lemma_ring_suffix(before, after, ordered, 0, after.dom().len());
    assert(ordered.skip(0) =~= ordered);
}

proof fn lemma_last_place(ordered: Seq<CoEdgeId>, upto: int, i: int)
    requires
        ordered.no_duplicates(),
        0 <= i < upto <= ordered.len(),
    ensures
        last_place(ordered, upto, ordered[i]) == i,
    decreases upto,
{
    if upto - 1 > i {
        lemma_last_place(ordered, upto - 1, i);
    }
}

proof fn lemma_ring_suffix(
    before: Map<CoEdgeId, CoEdge>,
    after: Map<CoEdgeId, CoEdge>,
    ordered: Seq<CoEdgeId>,
    i: int,
    fuel: nat,
)
    requires
        0 <= i < ordered.len(),
        ordered.len() <= fuel + i + 1,
        ordered.no_duplicates(),
        forall|i: int| 0 <= i < ordered.len() ==> before.dom().contains(#[trigger] ordered[i]),
        after.dom() == before.dom(),
        forall|id: CoEdgeId| #[trigger]
            before.dom().contains(id) ==> after[id] == linked(
                before,
                ordered,
                ordered.len() as int,
                id,
            ),
    ensures
        ring_from(after, ordered[0], ordered[i], fuel) == Some(ordered.skip(i)),
    decreases ordered.len() - i,
{
    lemma_last_place(ordered, ordered.len() as int, i);
    assert(before.dom().contains(ordered[i]));
    if i + 1 == ordered.len() {
        assert(ordered.skip(i) =~= seq![ordered[i]]);
    } else {
        lemma_ring_suffix(before, after, ordered, i + 1, (fuel - 1) as nat);
        assert(ordered[i + 1] != ordered[0]);
        assert(ordered.skip(i) =~= seq![ordered[i]] + ordered.skip(i + 1));
    }
}

/// Fusing keeps every shell of every solid, in the solid that remains, and
/// each of those shells names that solid.
pub proof fn law_fusing_keeps_shells(
    before: BRep,
    after: Model,
    id: SolidId,
    solid: SolidId,
    i: int,
)
    requires
        before.wf(),
        fused(before@, after, id),
        before@.solids.dom().contains(solid),
        0 <= i < before@.solids[solid].shells@.len(),
    ensures
        after.solids[id].shells@.contains(before@.solids[solid].shells@[i]),
        after.shells.dom() == before@.shells.dom(),
        before@.shells.dom().contains(before@.solids[solid].shells@[i])
            ==> after.shells[before@.solids[solid].shells@[i]].solid == id,
{
    let order = key_order(before@.solids.dom());
    before.solids.lemma_key_order();
    assert(order.to_set().contains(solid));
    let p = choose|p: int| 0 <= p < order.len() && order[p] == solid;
    lemma_shells_in_turn_contains(before@.solids, order, p, i);
}

proof fn lemma_shells_in_turn_contains(
    solids: Map<SolidId, Solid>,
    ids: Seq<SolidId>,
    p: int,
    i: int,
)
    requires
        0 <= p < ids.len(),
        0 <= i < solids[ids[p]].shells@.len(),
    ensures
        shells_in_turn(solids, ids).contains(solids[ids[p]].shells@[i]),
    decreases ids.len(),
{
    let head = shells_in_turn(solids, ids.drop_last());
    let all = shells_in_turn(solids, ids);
    if p == ids.len() - 1 {
        assert(all[head.len() + i] == solids[ids[p]].shells@[i]);
    } else {
        lemma_shells_in_turn_contains(solids, ids.drop_last(), p, i);
        let j = choose|j: int| 0 <= j < head.len() && head[j] == solids[ids[p]].shells@[i];
        assert(all[j] == solids[ids[p]].shells@[i]);
    }
}

} // verus!
