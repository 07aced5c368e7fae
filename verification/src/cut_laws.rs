//! What holds of a part that was cut with a plane.

use vstd::prelude::*;

use crate::assembly::{face_made, hole_uses, step_uses, AsmState, UseView};
use crate::brep::Model;
use crate::entities::FaceExtent;
use crate::halfspace::{cells_made, part_cut, Cell};
use crate::ids::{EdgeId, FaceId, ShellId, SolidId};
use crate::scaffold::fresh;
use crate::solid::assembled;
use crate::watertight::{
    all_uses, key_of, law_nothing_is_made_at_first, law_used_twice_is_closed,
    law_uses_become_coedges, tallied, times_used, users,
};

verus! {

/// All uses of several cells, cell after cell.
pub open spec fn uses_of_cells(cells: Seq<Cell>) -> Seq<UseView>
    decreases cells.len(),
{
    if cells.len() == 0 {
        Seq::empty()
    } else {
        let loops = cells.last().loops;
        uses_of_cells(cells.drop_last()) + step_uses(loops.outer@, loops.outer@.len() as int)
            + all_uses(hole_uses(loops.holes@, loops.holes@.len() as int))
    }
}

/// Making cells into faces adds, for each of their uses, one co-edge on the one
/// edge of the curve that the use runs along.
pub proof fn law_cells_become_coedges(
    before: Model,
    t: AsmState,
    cells: Seq<Cell>,
    ids: Seq<FaceId>,
)
    requires
        before.coedges.dom().finite(),
        cells_made(fresh(before), t, cells, ids),
    ensures
        tallied(before, t, uses_of_cells(cells)),
    decreases cells.len(),
{
    if cells.len() == 0 {
        law_nothing_is_made_at_first(before);
    } else {
        let cell = cells.last();
        let outer = step_uses(cell.loops.outer@, cell.loops.outer@.len() as int);
        let inner = hole_uses(cell.loops.holes@, cell.loops.holes@.len() as int);
        let m = choose|m: AsmState|
            cells_made(fresh(before), m, cells.drop_last(), ids.drop_last())
                && #[trigger] face_made(
                m,
                t,
                cell.geom,
                cell.normal,
                FaceExtent::Trimmed,
                outer,
                inner,
                ids.last(),
            );
        law_cells_become_coedges(before, m, cells.drop_last(), ids.drop_last());
        law_uses_become_coedges(
            before,
            m,
            t,
            uses_of_cells(cells.drop_last()),
            cell.geom,
            cell.normal,
            FaceExtent::Trimmed,
            outer,
            inner,
            ids.last(),
        );
    }
}

/// A part that was cut has, on the one edge of each curve, as many co-edges as
/// the cells that are left and the caps have uses of that curve; so where each
/// curve is used by two, a trimmed face and the cap it meets among them, every
/// edge has exactly two co-edges, and the part is closed.
pub proof fn law_cut_part_is_watertight(
    after: Model,
    cells: Seq<Cell>,
    shell: ShellId,
    edge: EdgeId,
)
    requires
        part_cut(after, cells, shell),
        forall|i: int|
            0 <= i < uses_of_cells(cells).len() ==> times_used(
                uses_of_cells(cells),
                key_of(#[trigger] uses_of_cells(cells)[i]),
            ) == 2,
        after.edges.dom().contains(edge),
    ensures
        users(Model::empty(), after, edge).len() == 2,
{
    let (t, ids, solid) = choose|t: AsmState, ids: Seq<FaceId>, solid: SolidId| #[trigger]
        cells_made(fresh(Model::empty()), t, cells, ids) && #[trigger] assembled(
            t.model,
            after,
            ids,
            Some("cut"@),
            shell,
            solid,
        );
    law_cells_become_coedges(Model::empty(), t, cells, ids);
    law_used_twice_is_closed(Model::empty(), t, uses_of_cells(cells), edge);
    assert(users(Model::empty(), after, edge) =~= users(Model::empty(), t.model, edge));
}

} // verus!
