//! Exact boundary-representation modelling: entity arenas, sweeping,
//! half-space cutting, scaffold assembly and STEP output.

#![allow(unused_imports)]

use vstd::prelude::*;

pub mod arena;
pub mod assembly;
pub mod assembly_laws;
pub mod boundary;
pub mod bounds;
pub mod brep;
pub mod build_laws;
pub mod cache;
pub mod clip_laws;
pub mod closed_scaffold;
pub mod cut;
pub mod cut_laws;
pub mod entities;
pub mod file_laws;
pub mod fusion;
pub mod geometry;
pub mod growth;
pub mod halfspace;
pub mod ids;
pub mod intersect;
pub mod laws;
pub mod marks;
pub mod meet_laws;
pub mod neat;
pub mod one_piece;
pub mod outline;
pub mod outline_laws;
pub mod pair_laws;
pub mod path;
pub mod path_laws;
pub mod polyline;
pub mod reading;
pub mod reading_assembly;
pub mod reading_bounds;
pub mod reading_faces;
pub mod reading_files;
pub mod reading_parts;
pub mod reading_solids;
pub mod scaffold;
pub mod scaffold_laws;
pub mod scaffold_shell;
pub mod scalar;
pub mod script;
pub mod section;
pub mod senses;
pub mod solid;
pub mod ssi;
pub mod step;
pub mod step_laws;
pub mod sweep;
pub mod sweep_laws;
pub mod tracing;
pub mod trim_laws;
pub mod tube_laws;
pub mod watertight;
pub mod writer;

verus! {

} // verus!
