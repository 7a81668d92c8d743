# aurora_shared

The verified core of the Aurora model tooling, written in Verus.

- `src/layout`: building the model graph, classifying its links into backbone and loops,
  Graphviz input and the reading of its plain output.
- `src/validation.rs`: model validation and matrix compliance.
- `src/prep`: the text logic of the SVG asset preparation (labels, style deduplication, id
  references, the card list).
- `src/render`: the rendering logic on integers and text: node measurement and placement, the
  orthogonal edge router (visibility graph, least-cost search with reservations, route order),
  the focused-card view, the template definitions, and the assembly of the SVG document
  (card index, layer groups, size limit, pruning of unused definitions, blank-line clean-up).
- `app/`: the `svg_prep` program: argument handling, file and XML tree handling, and the
  floating-point drawing of proof sheets.

Every function in `src/` carries a contract that Verus proves; the few calls into outside code
(Unicode normalization, lowercase mapping, collecting characters into a `String`) stand behind
trusted items whose contracts are documented where they are declared.
