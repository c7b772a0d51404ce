# deepnest

Geometry and file-format logic for nesting parts on sheets, with its
behaviour stated as Verus contracts and proved.

## Layout

- `src/` — the verified library.
  - `geometry`, `internal_clipper`, `polygon`: integer points and
    rectangles, exact orientation and product predicates, point in polygon.
  - `clipper_v1`: the scan-line clipper's data: edges and local minima built
    from paths (`add_path`), the active edge list, scan beams, maxima, output
    records and result trees (`poly`).
  - `node_clipper`: boolean operations and Minkowski sums on integer paths,
    run by the Clipper2 engine.
  - `path_data`: SVG path data: tokens, segments and their text.
  - `svg_flip`, `svg_load`: mirroring and normalizing SVG documents with
    `usvg`.
  - `part_table`: recognizing the columns of a table of parts and the kind
    of table file.
  - `lightburn`: shape kinds and path command lists of LightBurn projects.
  - `lightburn_writer`: the XML events of a LightBurn project written from
    its shapes, and their text through `quick_xml`.
  - `lightburn_reader`: a LightBurn project read from its text through
    `roxmltree`: settings, cut settings and shapes, numbers kept as text.
  - `laws`: properties that relate several operations.
- `tests/` — tests of the library on concrete values.
- `app/` — what stays outside verification: floating-point geometry (curve
  sampling, path normalization, polygon intersection tests, convex hulls,
  offsetting state), reading files and spreadsheets, and the numbers of LightBurn projects.
