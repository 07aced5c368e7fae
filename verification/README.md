# cadcore

Exact boundary-representation modelling, verified with Verus: typed entity
arenas, sweeping a circle along a path, cutting solids with a plane, fusing
filaments that cross into one closed shell, and STEP output.

The library never computes with floating-point numbers. Real numbers are binary64
patterns that it stores, compares and hands on; curves and surfaces are measured
in floating point outside, and every decision, every change of topology and every
line of text is made inside, on what was measured.

| Where | What |
|---|---|
| `src/scalar.rs`, `src/geometry.rs`, `src/entities.rs`, `src/ids.rs` | numbers, shapes, entities, ids |
| `src/arena.rs`, `src/brep.rs`, `src/laws.rs` | arenas on top of `slotmap`, and the model |
| `src/solid.rs`, `src/sweep.rs`, `src/path.rs` | building solids, sweeping, paths |
| `src/cut.rs`, `src/fusion.rs` | cutting solids of analytic faces, making one solid of many |
| `src/script.rs`, `src/cache.rs`, `src/step.rs`, `src/bounds.rs`, `src/writer.rs` | STEP output: parts by AP203, assemblies by AP214 |
| `src/step_laws.rs`, `src/marks.rs`, `src/neat.rs`, `src/growth.rs`, `src/file_laws.rs`, `src/tracing.rs` | what holds of a STEP file |
| `src/assembly.rs`, `src/assembly_laws.rs`, `src/watertight.rs`, `src/senses.rs` | faces that share their edges |
| `src/scaffold.rs`, `src/scaffold_laws.rs`, `src/scaffold_shell.rs`, `src/closed_scaffold.rs`, `src/one_piece.rs` | fusing filaments |
| `src/polyline.rs`, `src/boundary.rs`, `src/ssi.rs`, `src/intersect.rs` | where two faces meet |
| `src/section.rs`, `src/outline.rs`, `src/halfspace.rs`, `src/cut_laws.rs` | cutting a fused shell |
| `app/` | measuring in floating point, and writing text out |

Functions whose names start with `law_` state what holds of the library as a
whole. Among them:

- In a fused scaffold every edge has exactly two users
  (`closed_scaffold::law_scaffold_is_watertight`), and the edges of its windows
  are run along both ways (`closed_scaffold::law_windows_are_run_both_ways`).
- A fused scaffold is one new shell with a face for every leg and every bend and
  two caps for every filament (`scaffold_shell::law_scaffold_is_one_shell`).
- Where windows join all filaments, every face of a fused scaffold can be reached
  from every other over shared edges (`one_piece::law_scaffold_hangs_together`).
- A STEP file of parts has one product and one link to its shape for every solid
  (`file_laws::law_one_product_per_solid`).
- In a STEP file the ids count up from one, and every reference is to one of them
  (`file_laws::law_ids_count_up`).
- In the STEP file of solids whose faces use every curve twice, every edge curve
  has one use along it and one against it
  (`tracing::law_closed_solids_are_run_both_ways`).
