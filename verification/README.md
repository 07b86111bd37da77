# mars_core

Grids for the medial-axis computation: reading a grid mesh and its Voronoi dual from `.obj`
text, matching dual faces to grid edges, planning the order in which the persistence state is
carried across the grid's edges, regular grids, and cubic test lattices with their Voronoi
tessellation.

`src/` is the verified library (Verus):

- `text`, `obj`: character-level helpers and the `.obj` reader, specified by a grammar over
  the characters of the file.
- `edges`, `mesh`, `report`, `laws`: adjacency lists built from edges and dual faces, the grid
  report and its text, splitting a grid in two, and the properties that tie them together.
- `traverse`, `walk`, `counting`: the depth-first, breadth-first and slim traversal plans of a
  mesh grid, the breadth-first visit of a regular grid's edges, and the count of those edges.
- `index`, `regular`: grid cell indices and regular grids.
- `lattice`, `block_obj`: cubic lattice blocks in exact integer coordinates, the facets of
  their Voronoi cells, and their `.obj` text.
- `grid_obj`, `checks`, `read_back`: writing grids and medial-axis faces as `.obj`, sampling a
  grid's edges for dual faces, and the proof that a written grid reads back as itself.

Collections.  Lookups that a hash map or set would serve (the dual face of an edge, the edges
seen so far, the first face of an edge, the index of a lattice point) are kept in per-vertex
lists of `(other end, index)` or searched for in vectors, and histograms and queues are
vectors.  Their keys are pairs of vertex ids or integer points, and vstd's specifications of
`HashMap` and `HashSet` are usable with integer keys only; the contracts here also state which
face is found, in what order edges and visits come and how bins are sorted, which a map walked
in hash order would not give.

`app/` is the command-line tool around it: file I/O, the floating-point geometry (coordinates,
distances, nearest grid points, facet angles) and the command line.
