# kricon

kricon is an icon editor: shapes are drawn as vertices joined by edges, faces are
filled, holed and coloured, and the work is saved as a workspace file or exported
as SVG.

The crate has two parts.

- `src/` is the editing core, verified with Verus. It holds the mesh and its edits
  (adding, copying, removing, dissolving, merging, subdividing, decimating and insetting
  vertices, and the layer bookkeeping after each edit), the undo history, the workspace
  file format, the face tracing of the planar graph, the selection rules, the scanning
  of SVG text, path data and settings files, and the decoding of dropped images (through
  the `image` crate). Positions are carried as the bit patterns of
  their coordinates, so the core never computes with floating point; where it compares
  them, it compares the numbers they encode, in integer arithmetic on the patterns.
- `app/` is the program around it, built on egui: drawing, input, the geometry that
  needs floating point (angles, areas, curves, triangulation, export outlines), the
  threads and the files on disk.

`tests/` runs the core on concrete meshes and texts.
