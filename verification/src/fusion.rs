//! Making one solid of many.

use vstd::prelude::*;

use crate::brep::{fused, BRep};
use crate::ids::SolidId;

verus! {

/// Make every solid of a model part of one, and return how many solids there
/// are then.
pub fn union_solids(brep: &mut BRep) -> (count: usize)
    requires
        old(brep).wf(),
    ensures
        final(brep).wf(),
        old(brep)@.solids.dom().len() == 0 ==> final(brep)@ == old(brep)@ && count == 0,
        old(brep)@.solids.dom().len() > 0 ==> count == 1 && exists|id: SolidId| #[trigger]
            fused(old(brep)@, final(brep)@, id),
{
    brep.fuse_solids();
    brep.solids.len()
}

} // verus!
