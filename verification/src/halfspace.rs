//! Trimming a fused shell by a plane, and closing it where the plane went
//! through.
//!
//! Each face is cut up by the section curves on it, and the cells in front of
//! the plane are kept; faces that the plane does not touch are copied.  The
//! part is closed by caps, made from the same curves.

use vstd::prelude::*;

use crate::arena::SLOT_LIMIT;
use crate::assembly::{
    face_made, hole_uses, step_count, step_uses, steps_fit, AsmState, Assembler, CellStep,
};
use crate::boundary::live_loop;
use crate::brep::{BRep, Model};
use crate::entities::{Face, FaceExtent, FaceGeom, FaceNormal};
use crate::geometry::{Plane3, Point3};
use crate::ids::{FaceId, ShellId, SolidId};
use crate::intersect::{intersect_faces_with, pair_curves, probe_fits, PairProbe};
use crate::outline::{section_views, Section, SectionView};
use crate::scaffold::fresh;
use crate::scalar::{larger, max, Real};
use crate::solid::{assemble_solid, assembled};
use crate::ssi::{curve_views, surface_pair, CurveView, SsiOptions};

verus! {

/// 1e-9.
pub const SIDE_FLOOR: u64 = 0x3E11_2E0B_E826_D695;

/// The tag of the rectangle that bounds the plane of the caps.
pub const RECT_TAG: u32 = 1;

/// Which side of a plane something is on.
#[derive(Clone, Copy, Debug, PartialEq, Eq, Structural)]
pub enum Side {
    /// On the side that is kept.
    Kept,
    /// On the side that is cut off.
    Cut,
    /// On both.
    Straddles,
}

/// The side of a box whose signed distances range from `low` to `high`.
pub open spec fn side_of(low: Real, high: Real, tol: Real) -> Side {
    if tol.negated().at_most(low) {
        Side::Kept
    } else if high.at_most(tol) {
        Side::Cut
    } else {
        Side::Straddles
    }
}

/// The side of a box whose signed distances range from `low` to `high`.
pub fn straddle(low: Real, high: Real, tol: Real) -> (side: Side)
    ensures
        side == side_of(low, high, tol),
{
    if low.ge(tol.neg()) {
        Side::Kept
    } else if high.le(tol) {
        Side::Cut
    } else {
        Side::Straddles
    }
}

/// How far from the plane still counts as on it, given the knit tolerance.
pub open spec fn side_tolerance(knit: Real) -> Real {
    larger(knit, Real { bits: SIDE_FLOOR })
}

/// How far from the plane still counts as on it, given the knit tolerance.
pub fn knit_tolerance(knit: Real) -> (tol: Real)
    ensures
        tol == side_tolerance(knit),
{
    max(knit, Real { bits: SIDE_FLOOR })
}

/// The loops of a cell.
#[derive(Debug)]
pub struct CellLoops {
    /// The outer one.
    pub outer: Vec<CellStep>,
    /// The holes.
    pub holes: Vec<Vec<CellStep>>,
}

/// A cell of a face that the section curves cut up.
#[derive(Debug)]
pub struct CutCell {
    /// Signed distance from the plane of a point inside it.
    pub distance: Real,
    /// Whether that point is on the face, and not in one of its holes.
    pub on_face: bool,
    /// Its loops.
    pub loops: CellLoops,
}

/// A face to be trimmed.
#[derive(Debug)]
pub struct CutSheet {
    /// The face.
    pub face: FaceId,
    /// The least signed distance of its box from the plane.
    pub low: Real,
    /// The greatest.
    pub high: Real,
    /// Whether its surface can be cut up.
    pub has_domain: bool,
    /// Its own loops, split at the joints.
    pub copy: CellLoops,
    /// Its cells.
    pub cells: Vec<CutCell>,
}

/// A cell of the plane inside the section.
#[derive(Debug)]
pub struct CapCell {
    /// Whether there is material just behind it.
    pub filled: bool,
    /// The tags of the chains along its outer loop.
    pub tags: Vec<u32>,
    /// Its loops.
    pub loops: CellLoops,
}

/// A cell to be made into a face.
#[derive(Debug)]
pub struct Cell {
    /// Its surface.
    pub geom: FaceGeom,
    /// The side that looks out.
    pub normal: FaceNormal,
    /// Its loops.
    pub loops: CellLoops,
}

/// What is done with a face.
#[derive(Clone, Copy, Debug, PartialEq, Eq, Structural)]
pub enum Action {
    /// It is left out.
    Drop,
    /// It is copied.
    Copy,
    /// It is cut up.
    Arrange,
}

/// Whether a face has a section curve.
pub open spec fn sectioned(sections: Seq<Section>, face: FaceId) -> bool {
    exists|i: int| 0 <= i < sections.len() && (#[trigger] sections[i]).owner == face
}

/// What is done with a face: one without a section curve but with loops of its
/// own is copied or left out, by its side; any other is cut up, if it can be.
pub open spec fn action_for(model: Model, sheet: CutSheet, sections: Seq<Section>) -> Action {
    let side = side_of(sheet.low, sheet.high, Real { bits: SIDE_FLOOR });
    let untouched = !sectioned(sections, sheet.face) && live_loop(
        model,
        model.faces[sheet.face].outer_loop,
    );
    if untouched && side == Side::Cut {
        Action::Drop
    } else if untouched && side == Side::Kept {
        Action::Copy
    } else if sheet.has_domain {
        Action::Arrange
    } else {
        Action::Drop
    }
}

/// Whether a cell is kept: in front of the plane, and on the face.
pub open spec fn cell_stays(cell: CutCell) -> bool {
    !cell.distance.below(Real { bits: 0 }) && cell.on_face
}

/// The cells that stay, among the first `k` of a face.
pub open spec fn cells_left(face: Face, cells: Seq<CutCell>, k: int) -> Seq<Cell>
    decreases k,
{
    if k <= 0 {
        Seq::empty()
    } else if cell_stays(cells[k - 1]) {
        cells_left(face, cells, k - 1).push(
            Cell { geom: face.geom, normal: face.normal, loops: cells[k - 1].loops },
        )
    } else {
        cells_left(face, cells, k - 1)
    }
}

/// What is left of a face.
pub open spec fn face_left(model: Model, sheet: CutSheet, sections: Seq<Section>) -> Seq<Cell> {
    let face = model.faces[sheet.face];
    match action_for(model, sheet, sections) {
        Action::Drop => Seq::empty(),
        Action::Copy => seq![Cell { geom: face.geom, normal: face.normal, loops: sheet.copy }],
        Action::Arrange => cells_left(face, sheet.cells@, sheet.cells@.len() as int),
    }
}

/// What is left of the first `k` faces.
pub open spec fn faces_left(
    model: Model,
    sheets: Seq<CutSheet>,
    sections: Seq<Section>,
    k: int,
) -> Seq<Cell>
    decreases k,
{
    if k <= 0 {
        Seq::empty()
    } else {
        faces_left(model, sheets, sections, k - 1) + face_left(model, sheets[k - 1], sections)
    }
}

/// Whether a cell of the plane becomes a cap: it has material behind it, and is
/// not bounded by the rectangle.
pub open spec fn is_cap(cell: CapCell) -> bool {
    cell.filled && forall|i: int| 0 <= i < cell.tags@.len() ==> #[trigger] cell.tags@[i] != RECT_TAG
}

/// The caps among the first `k` cells of the plane.
pub open spec fn caps_of(plane: Plane3, cells: Seq<CapCell>, k: int) -> Seq<Cell>
    decreases k,
{
    if k <= 0 {
        Seq::empty()
    } else if is_cap(cells[k - 1]) {
        caps_of(plane, cells, k - 1).push(
            Cell {
                geom: FaceGeom::Plane(plane),
                normal: FaceNormal::Same,
                loops: cells[k - 1].loops,
            },
        )
    } else {
        caps_of(plane, cells, k - 1)
    }
}

/// The caps of a section; none without a loop.
pub open spec fn section_caps(
    plane: Plane3,
    loops: Seq<Vec<Point3>>,
    cells: Seq<CapCell>,
) -> Seq<Cell> {
    if loops.len() == 0 {
        Seq::empty()
    } else {
        caps_of(plane, cells, cells.len() as int)
    }
}

/// How many of the first `k` faces are wholly on the side that is cut off.
pub open spec fn cut_off(sheets: Seq<CutSheet>, tol: Real, k: int) -> nat
    decreases k,
{
    if k <= 0 {
        0
    } else {
        cut_off(sheets, tol, k - 1) + if side_of(sheets[k - 1].low, sheets[k - 1].high, tol)
            == Side::Cut {
            1nat
        } else {
            0
        }
    }
}

/// Cells were made into faces, one after the other.
pub open spec fn cells_made(s: AsmState, t: AsmState, cells: Seq<Cell>, ids: Seq<FaceId>) -> bool
    decreases cells.len(),
{
    if cells.len() == 0 {
        t == s && ids.len() == 0
    } else {
        let cell = cells.last();
        &&& ids.len() == cells.len()
        &&& exists|m: AsmState|
            cells_made(s, m, cells.drop_last(), ids.drop_last()) && #[trigger] face_made(
                m,
                t,
                cell.geom,
                cell.normal,
                FaceExtent::Trimmed,
                step_uses(cell.loops.outer@, cell.loops.outer@.len() as int),
                hole_uses(cell.loops.holes@, cell.loops.holes@.len() as int),
                ids.last(),
            )
    }
}

/// How many uses of edges cells need at most.
pub open spec fn cell_uses(cells: Seq<Cell>) -> nat
    decreases cells.len(),
{
    if cells.len() == 0 {
        0
    } else {
        cell_uses(cells.drop_last()) + cells.last().loops.outer@.len() + step_count(
            cells.last().loops.holes@,
        )
    }
}

/// How many loops cells need.
pub open spec fn cell_loops(cells: Seq<Cell>) -> nat
    decreases cells.len(),
{
    if cells.len() == 0 {
        0
    } else {
        cell_loops(cells.drop_last()) + 1 + cells.last().loops.holes@.len()
    }
}

/// Whether the circles of some loops can be keyed.
pub open spec fn loops_fit(loops: CellLoops) -> bool {
    steps_fit(loops.outer@) && forall|i: int|
        0 <= i < loops.holes@.len() ==> steps_fit((#[trigger] loops.holes@[i])@)
}

/// Whether cells can be made into the faces of an empty model.
pub open spec fn cells_fit(cells: Seq<Cell>) -> bool {
    &&& forall|i: int| 0 <= i < cells.len() ==> loops_fit((#[trigger] cells[i]).loops)
    &&& 2 * cell_uses(cells) <= SLOT_LIMIT
    &&& cell_loops(cells) <= SLOT_LIMIT
    &&& cells.len() <= SLOT_LIMIT
}

/// The outcome of a cut.
pub struct CutOutcome {
    /// The trimmed model.
    pub brep: BRep,
    /// Its one shell.
    pub shell: ShellId,
    /// How many caps close it.
    pub caps: usize,
    /// How many faces were wholly on the side that is cut off.
    pub dropped: usize,
}

/// The faces of a part were trimmed and closed: what is left of them and the
/// caps were made into faces of one shell of one solid.
pub open spec fn part_cut(after: Model, cells: Seq<Cell>, shell: ShellId) -> bool {
    exists|t: AsmState, ids: Seq<FaceId>, solid: SolidId| #[trigger]
        cells_made(fresh(Model::empty()), t, cells, ids) && #[trigger] assembled(
            t.model,
            after,
            ids,
            Some("cut"@),
            shell,
            solid,
        )
}

/// A face against the plane and a finite face on it.
#[derive(Debug)]
pub struct SectionProbe {
    /// The face.
    pub face: FaceId,
    /// The least signed distance of its box from the plane.
    pub low: Real,
    /// The greatest.
    pub high: Real,
    /// What was measured between it and the face on the plane.
    pub pair: PairProbe,
}

/// The section curves of the first `k` faces: those in which a face that is on
/// both sides of the plane meets it.
pub open spec fn sections_of(
    model: Model,
    cutter: FaceGeom,
    probes: Seq<SectionProbe>,
    tol: Real,
    k: int,
) -> Seq<SectionView>
    decreases k,
{
    if k <= 0 {
        Seq::empty()
    } else {
        let before = sections_of(model, cutter, probes, tol, k - 1);
        let p = probes[k - 1];
        if side_of(p.low, p.high, tol) == Side::Straddles {
            let how = surface_pair(
                model.faces[p.face].geom,
                cutter,
                SsiOptions { plane_torus: true },
            );
            before + owned_by(p.face, pair_curves(how, p.pair))
        } else {
            before
        }
    }
}

/// Curves as sections of a face.
pub open spec fn owned_by(face: FaceId, curves: Seq<CurveView>) -> Seq<SectionView> {
    Seq::new(curves.len(), |i: int| SectionView { owner: face, curve: curves[i] })
}

/// The section curves of a part: `cutter` holds a finite face on the plane, and
/// `probes` measure every face of the part against it.
pub fn section_curves(
    src: &BRep,
    cutter: &BRep,
    cut_face: FaceId,
    probes: &[SectionProbe],
    knit: Real,
) -> (sections: Vec<Section>)
    requires
        src.wf(),
        cutter.wf(),
        cutter@.faces.dom().contains(cut_face),
        forall|i: int|
            0 <= i < probes@.len() ==> src@.faces.dom().contains((#[trigger] probes@[i]).face)
                && probe_fits(
                surface_pair(
                    src@.faces[probes@[i].face].geom,
                    cutter@.faces[cut_face].geom,
                    SsiOptions { plane_torus: true },
                ),
                probes@[i].pair,
            ),
    ensures
        section_views(sections@) == sections_of(
            src@,
            cutter@.faces[cut_face].geom,
            probes@,
            side_tolerance(knit),
            probes@.len() as int,
        ),
{
    let tol = knit_tolerance(knit);
    let mut sections: Vec<Section> = Vec::new();
    let mut k: usize = 0;
    assert(section_views(sections@) =~= Seq::empty());
    while k < probes.len()
        invariant
            src.wf(),
            cutter.wf(),
            cutter@.faces.dom().contains(cut_face),
            forall|i: int|
                0 <= i < probes@.len() ==> src@.faces.dom().contains((#[trigger] probes@[i]).face)
                    && probe_fits(
                    surface_pair(
                        src@.faces[probes@[i].face].geom,
                        cutter@.faces[cut_face].geom,
                        SsiOptions { plane_torus: true },
                    ),
                    probes@[i].pair,
                ),
            tol == side_tolerance(knit),
            k <= probes@.len(),
            section_views(sections@) == sections_of(
                src@,
                cutter@.faces[cut_face].geom,
                probes@,
                tol,
                k as int,
            ),
        decreases probes@.len() - k,
    {
        let p: &SectionProbe = &probes[k];
        assert(src@.faces.dom().contains(probes@[k as int].face));
        if straddle(p.low, p.high, tol) == Side::Straddles {
            let ghost before = section_views(sections@);
            let owner = p.face;
            let curves = intersect_faces_with(
                src,
                owner,
                cutter,
                cut_face,
                SsiOptions { plane_torus: true },
                &p.pair,
            );
            let ghost all = curves@;
            assert(before =~= before + owned_by(owner, curve_views(all).take(0)));
            for curve in it: curves
                invariant
                    it.seq() == all,
                    section_views(sections@) == before + owned_by(
                        owner,
                        curve_views(all).take(it.index() as int),
                    ),
            {
                let ghost held = sections@;
                let ghost j = it.index() as int;
                let section = Section { owner, curve };
                sections.push(section);
                assert(section_views(sections@) =~= section_views(held).push(section@));
                assert(section_views(sections@) =~= before + owned_by(
                    owner,
                    curve_views(all).take(j + 1),
                ));
            }
            assert(curve_views(all).take(all.len() as int) =~= curve_views(all));
        }
        k += 1;
    }
    sections
}

/// Whether a face has a section curve.
fn has_section(sections: &[Section], face: FaceId) -> (r: bool)
    ensures
        r == sectioned(sections@, face),
{
    let mut i: usize = 0;
    while i < sections.len()
        invariant
            i <= sections@.len(),
            forall|j: int| 0 <= j < i ==> (#[trigger] sections@[j]).owner != face,
        decreases sections@.len() - i,
    {
        if sections[i].owner == face {
            return true;
        }
        i += 1;
    }
    false
}

/// What is done with a face.
pub fn decide_face(src: &BRep, sheet: &CutSheet, sections: &[Section]) -> (action: Action)
    requires
        src.wf(),
        src@.faces.dom().contains(sheet.face),
    ensures
        action == action_for(src@, *sheet, sections@),
{
    if !has_section(sections, sheet.face) && src.has_real_loops(sheet.face) {
        match straddle(sheet.low, sheet.high, Real { bits: SIDE_FLOOR }) {
            Side::Cut => {
                return Action::Drop;
            },
            Side::Kept => {
                return Action::Copy;
            },
            Side::Straddles => {},
        }
    }
    if sheet.has_domain {
        Action::Arrange
    } else {
        Action::Drop
    }
}

/// What is left of the faces of a part in front of the plane.
pub fn emit_cut_faces(src: &BRep, sheets: Vec<CutSheet>, sections: &[Section]) -> (cells: Vec<Cell>)
    requires
        src.wf(),
        forall|i: int|
            0 <= i < sheets@.len() ==> src@.faces.dom().contains((#[trigger] sheets@[i]).face),
    ensures
        cells@ == faces_left(src@, sheets@, sections@, sheets@.len() as int),
{
    let ghost all = sheets@;
    let mut out: Vec<Cell> = Vec::new();
    for sheet in it: sheets
        invariant
            it.seq() == all,
            src.wf(),
            forall|i: int|
                0 <= i < all.len() ==> src@.faces.dom().contains((#[trigger] all[i]).face),
            out@ == faces_left(src@, all, sections@, it.index() as int),
    {
        let ghost k = it.index() as int;
        let ghost given = sheet;
        let ghost before = out@;
        assert(src@.faces.dom().contains(all[k].face));
        let action = decide_face(src, &sheet, sections);
        let ghost face = src@.faces[given.face];
        match src.faces.get(sheet.face) {
            None => {},
            Some(f) => {
                let geom = f.geom;
                let normal = f.normal;
                match action {
                    Action::Drop => {
                        assert(out@ =~= before + face_left(src@, given, sections@));
                    },
                    Action::Copy => {
                        out.push(Cell { geom, normal, loops: sheet.copy });
                        assert(out@ =~= before + face_left(src@, given, sections@));
                    },
                    Action::Arrange => {
                        let ghost parts = sheet.cells@;
                        assert(out@ =~= before + cells_left(face, parts, 0));
                        for cell in inner: sheet.cells
                            invariant
                                inner.seq() == parts,
                                geom == face.geom,
                                normal == face.normal,
                                out@ == before + cells_left(face, parts, inner.index() as int),
                        {
                            let ghost j = inner.index() as int;
                            if !cell.distance.lt(Real { bits: 0 }) && cell.on_face {
                                out.push(Cell { geom, normal, loops: cell.loops });
                            }
                            assert(out@ =~= before + cells_left(face, parts, j + 1));
                        }
                    },
                }
            },
        }
    }
    out
}

/// Whether a cell of the plane is bounded by the rectangle.
fn uses_rectangle(tags: &[u32]) -> (r: bool)
    ensures
        r == exists|i: int| 0 <= i < tags@.len() && #[trigger] tags@[i] == RECT_TAG,
{
    let mut i: usize = 0;
    while i < tags.len()
        invariant
            i <= tags@.len(),
            forall|j: int| 0 <= j < i ==> #[trigger] tags@[j] != RECT_TAG,
        decreases tags@.len() - i,
    {
        if tags[i] == RECT_TAG {
            return true;
        }
        i += 1;
    }
    false
}

/// The caps of a section.
pub fn emit_section_caps(plane: Plane3, loops: &[Vec<Point3>], cells: Vec<CapCell>) -> (caps: Vec<
    Cell,
>)
    ensures
        caps@ == section_caps(plane, loops@, cells@),
{
    let ghost all = cells@;
    let mut caps: Vec<Cell> = Vec::new();
    if loops.len() == 0 {
        return caps;
    }
    for cell in it: cells
        invariant
            it.seq() == all,
            caps@ == caps_of(plane, all, it.index() as int),
    {
        let ghost k = it.index() as int;
        assert(all[k] == cell);
        if cell.filled && !uses_rectangle(&cell.tags) {
            assert(is_cap(all[k]));
            caps.push(
                Cell {
                    geom: FaceGeom::Plane(plane),
                    normal: FaceNormal::Same,
                    loops: cell.loops,
                },
            );
        }
    }
    caps
}

proof fn lemma_cells_step(
    s: AsmState,
    m: AsmState,
    t: AsmState,
    cells: Seq<Cell>,
    ids: Seq<FaceId>,
    cell: Cell,
    id: FaceId,
)
    requires
        cells_made(s, m, cells, ids),
        face_made(
            m,
            t,
            cell.geom,
            cell.normal,
            FaceExtent::Trimmed,
            step_uses(cell.loops.outer@, cell.loops.outer@.len() as int),
            hole_uses(cell.loops.holes@, cell.loops.holes@.len() as int),
            id,
        ),
    ensures
        cells_made(s, t, cells.push(cell), ids.push(id)),
{
    let more = cells.push(cell);
    let more_ids = ids.push(id);
    assert(more.drop_last() =~= cells);
    assert(more_ids.drop_last() =~= ids);
    assert(more.last() == cell);
    assert(more_ids.last() == id);
    assert(ids.len() == cells.len());
    assert(face_made(
        m,
        t,
        more.last().geom,
        more.last().normal,
        FaceExtent::Trimmed,
        step_uses(more.last().loops.outer@, more.last().loops.outer@.len() as int),
        hole_uses(more.last().loops.holes@, more.last().loops.holes@.len() as int),
        more_ids.last(),
    ));
}

/// Needs go up with the cells.
proof fn lemma_cell_needs(cells: Seq<Cell>, k: int)
    requires
        0 <= k <= cells.len(),
    ensures
        cell_uses(cells.take(k)) <= cell_uses(cells),
        cell_loops(cells.take(k)) <= cell_loops(cells),
    decreases cells.len() - k,
{
    if k < cells.len() {
        lemma_cell_needs(cells, k + 1);
        assert(cells.take(k + 1).drop_last() =~= cells.take(k));
    } else {
        assert(cells.take(k) =~= cells);
    }
}

proof fn lemma_cells_keep_solids(s: AsmState, t: AsmState, cells: Seq<Cell>, ids: Seq<FaceId>)
    requires
        cells_made(s, t, cells, ids),
    ensures
        t.model.shells == s.model.shells,
        t.model.solids == s.model.solids,
    decreases cells.len(),
{
    if cells.len() > 0 {
        let cell = cells.last();
        let m = choose|m: AsmState|
            cells_made(s, m, cells.drop_last(), ids.drop_last()) && #[trigger] face_made(
                m,
                t,
                cell.geom,
                cell.normal,
                FaceExtent::Trimmed,
                step_uses(cell.loops.outer@, cell.loops.outer@.len() as int),
                hole_uses(cell.loops.holes@, cell.loops.holes@.len() as int),
                ids.last(),
            );
        lemma_cells_keep_solids(s, m, cells.drop_last(), ids.drop_last());
        crate::assembly_laws::lemma_face_keeps_solids(
            m,
            t,
            cell.geom,
            cell.normal,
            FaceExtent::Trimmed,
            step_uses(cell.loops.outer@, cell.loops.outer@.len() as int),
            hole_uses(cell.loops.holes@, cell.loops.holes@.len() as int),
            ids.last(),
        );
    }
}

/// Make cells into the faces of a new model.
fn emit_cells(cells: Vec<Cell>) -> (made: (BRep, Vec<FaceId>))
    requires
        cells_fit(cells@),
    ensures
        made.0.wf(),
        exists|t: AsmState| #[trigger]
            cells_made(fresh(Model::empty()), t, cells@, made.1@) && t.model == made.0@,
        made.0@.shells == Model::empty().shells,
        made.0@.solids == Model::empty().solids,
{
    let ghost all = cells@;
    let mut brep = BRep::new();
    let mut assembler = Assembler::new();
    let mut ids: Vec<FaceId> = Vec::new();
    let ghost before = fresh(Model::empty());
    assert(assembler.state(&brep) == before);
    assert(all.take(0) =~= Seq::<Cell>::empty());
    assert(cells_made(before, before, all.take(0), ids@));
    for cell in it: cells
        invariant
            it.seq() == all,
            cells_fit(all),
            brep.wf(),
            cells_made(before, assembler.state(&brep), all.take(it.index() as int), ids@),
            brep@.vertices.dom().len() <= 2 * cell_uses(all.take(it.index() as int)),
            brep@.edges.dom().len() <= cell_uses(all.take(it.index() as int)),
            brep@.coedges.dom().len() <= cell_uses(all.take(it.index() as int)),
            brep@.loops.dom().len() == cell_loops(all.take(it.index() as int)),
            brep@.faces.dom().len() == it.index(),
    {
        let ghost k = it.index() as int;
        let ghost now = assembler.state(&brep);
        assert(all[k] == cell);
        assert(loops_fit(all[k].loops));
        proof {
            assert(all.take(k + 1).drop_last() =~= all.take(k));
            lemma_cell_needs(all, k + 1);
        }
        let ghost held = ids@;
        let id = assembler.emit_cell(
            &mut brep,
            cell.geom,
            cell.normal,
            cell.loops.outer,
            cell.loops.holes,
        );
        ids.push(id);
        proof {
            lemma_cells_step(
                before,
                now,
                assembler.state(&brep),
                all.take(k),
                held,
                all[k],
                id,
            );
            assert(all.take(k).push(all[k]) =~= all.take(k + 1));
        }
    }
    let ghost t = assembler.state(&brep);
    proof {
        assert(all.take(all.len() as int) =~= all);
        assembler.lemma_state_model(&brep);
        lemma_cells_keep_solids(before, t, all, ids@);
    }
    let made = (brep, ids);
    assert(cells_made(fresh(Model::empty()), t, cells@, made.1@) && t.model == made.0@);
    made
}

/// Cut a part with a plane and close it with caps.  `sheets` holds every face
/// of the part, `sections` the curves in which the plane meets them, `loops`
/// the outline of the section and `cells` the cells of the plane inside it.
pub fn half_space_cut(
    src: &BRep,
    sheets: Vec<CutSheet>,
    sections: &[Section],
    cap_plane: Plane3,
    loops: &[Vec<Point3>],
    cells: Vec<CapCell>,
    knit: Real,
) -> (outcome: Option<CutOutcome>)
    requires
        src.wf(),
        forall|i: int|
            0 <= i < sheets@.len() ==> src@.faces.dom().contains((#[trigger] sheets@[i]).face),
        cells_fit(
            faces_left(src@, sheets@, sections@, sheets@.len() as int) + section_caps(
                cap_plane,
                loops@,
                cells@,
            ),
        ),
    ensures
        outcome is None <==> sheets@.len() == 0,
        match outcome {
            None => true,
            Some(o) => {
                &&& o.brep.wf()
                &&& part_cut(
                    o.brep@,
                    faces_left(src@, sheets@, sections@, sheets@.len() as int) + section_caps(
                        cap_plane,
                        loops@,
                        cells@,
                    ),
                    o.shell,
                )
                &&& o.caps == section_caps(cap_plane, loops@, cells@).len()
                &&& o.dropped == cut_off(sheets@, side_tolerance(knit), sheets@.len() as int)
            },
        },
{
    let n: usize = sheets.len();
    if n == 0 {
        return None;
    }
    let tol = knit_tolerance(knit);
    let mut dropped: usize = 0;
    let mut k: usize = 0;
    while k < n
        invariant
            n == sheets@.len(),
            tol == side_tolerance(knit),
            k <= n,
            dropped <= k,
            dropped == cut_off(sheets@, tol, k as int),
        decreases n - k,
    {
        if straddle(sheets[k].low, sheets[k].high, tol) == Side::Cut {
            dropped += 1;
        }
        k += 1;
    }
    let mut all = emit_cut_faces(src, sheets, sections);
    let mut caps = emit_section_caps(cap_plane, loops, cells);
    let count: usize = caps.len();
    let ghost lateral = all@;
    let ghost closing = caps@;
    all.append(&mut caps);
    assert(all@ =~= lateral + closing);
    let ghost whole = all@;
    let (mut brep, ids) = emit_cells(all);
    let ghost t = choose|t: AsmState| #[trigger]
        cells_made(fresh(Model::empty()), t, whole, ids@) && t.model == brep@;
    let ghost listed = ids@;
    let (shell, solid) = assemble_solid(&mut brep, ids, Some("cut".to_owned()));
    proof {
        assert(assembled(t.model, brep@, listed, Some("cut"@), shell, solid));
        assert(part_cut(brep@, whole, shell));
    }
    Some(CutOutcome { brep, shell, caps: count, dropped })
}

/// A part whose faces all have loops of their own and are on the side that is
/// kept is left as it is: every face is copied, in order, none is dropped, and
/// without a section there is no cap.
pub proof fn law_missed_part_is_unchanged(
    model: Model,
    sheets: Seq<CutSheet>,
    sections: Seq<Section>,
    plane: Plane3,
    cells: Seq<CapCell>,
    knit: Real,
    k: int,
)
    requires
        0 <= k <= sheets.len(),
        forall|i: int|
            0 <= i < sheets.len() ==> live_loop(
                model,
                model.faces[(#[trigger] sheets[i]).face].outer_loop,
            ) && !sectioned(sections, sheets[i].face) && side_of(
                sheets[i].low,
                sheets[i].high,
                Real { bits: SIDE_FLOOR },
            ) == Side::Kept,
    ensures
        faces_left(model, sheets, sections, k) == Seq::new(
            k as nat,
            |i: int|
                Cell {
                    geom: model.faces[sheets[i].face].geom,
                    normal: model.faces[sheets[i].face].normal,
                    loops: sheets[i].copy,
                },
        ),
        cut_off(sheets, side_tolerance(knit), k) == 0,
        section_caps(plane, Seq::empty(), cells).len() == 0,
    decreases k,
{
    if k > 0 {
        law_missed_part_is_unchanged(model, sheets, sections, plane, cells, knit, k - 1);
        assert(live_loop(model, model.faces[sheets[k - 1].face].outer_loop));
    }
    assert(faces_left(model, sheets, sections, k) =~= Seq::new(
        k as nat,
        |i: int|
            Cell {
                geom: model.faces[sheets[i].face].geom,
                normal: model.faces[sheets[i].face].normal,
                loops: sheets[i].copy,
            },
    ));
}

/// A part whose faces all have loops of their own and are on the side that is
/// cut off leaves nothing.
pub proof fn law_nothing_is_left_behind_the_plane(
    model: Model,
    sheets: Seq<CutSheet>,
    sections: Seq<Section>,
    k: int,
)
    requires
        0 <= k <= sheets.len(),
        forall|i: int|
            0 <= i < sheets.len() ==> live_loop(
                model,
                model.faces[(#[trigger] sheets[i]).face].outer_loop,
            ) && !sectioned(sections, sheets[i].face) && side_of(
                sheets[i].low,
                sheets[i].high,
                Real { bits: SIDE_FLOOR },
            ) == Side::Cut,
    ensures
        faces_left(model, sheets, sections, k).len() == 0,
    decreases k,
{
    if k > 0 {
        law_nothing_is_left_behind_the_plane(model, sheets, sections, k - 1);
        assert(live_loop(model, model.faces[sheets[k - 1].face].outer_loop));
    }
}

} // verus!
