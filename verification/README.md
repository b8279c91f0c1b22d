# k2g — verified planning core

k2g turns a KiCad board into G-code for a small CNC router. This crate holds the
decisions k2g makes along the way, each with a machine-checked contract (Verus):

- `rack` — the cross-step rack schedule: which tool sits in which spare slot at each
  machining step, and which slots the operator must change before a step.
- `routing` — choosing cutters: the board-outline router, one router per slot width
  (never wider than the slot), and the exact-size tool for a locating-pin hole.
- `holes` — grouping the board's holes into (kind, size) requirements with counts.
- `steps`, `step_doc` — a machining step as the planners read it, its schema defaults,
  and the locating-pin and face-change rules across steps.
- `rack_spec` — the rack as the tool assigner sees it (capacity, fixed and spare slots).
- `step_setup` — what a step's plan settles before tool assignment: its bindings, hole
  requirements, routers, locating-pin tool, warnings and the rack with reserved tools.
- `plan` — the tooling plan shown on the Job screen: per-step outcomes, the rack
  schedule over the steps that load tools, and the lines explaining failures.
- `stitching` — chaining edge-cut primitives into closed contours, ordering them by
  nesting and reporting open contours and floating islands.
- `update` — the update channel's policy: when a check is due, which release and asset
  to take, which file names are safe, and minisign verification that fails closed.
- `cnc_schema` — reading CNC profile documents (parsed with serde_yaml) as YAML trees: the fields a profile
  schema requires, what a built-in machine template supplies or leaves pending, and
  what an imported machine profile is read as.
- `binding` — the profile screens' binding selector: the ticked profiles and the default,
  how they are listed, and what ticking or unticking one does.
- `profile_files` — the file names profile documents are imported from and exported to.
- `ui_text`, `text` — text the screens derive from data, and small text helpers.

`app/` is ordinary Rust around the library: network, disk, process and thread work of
the update channel, the floating-point flattening of curves and the nesting test,
contour offsetting with clipper2, the floating-point scaling factors of machine
documents, and the stitching messages' gap and bounding-box figures, formatted from
floating point.

Lengths are integers: micrometres for tools and holes, nanometres for board geometry.
Figures that messages show (gaps, bounding boxes, drill depths, user-unit sizes) reach
the library as text, formatted by the caller.
