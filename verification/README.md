# blitz_dom form controls

The form-control core of a web document engine, written in Verus and proved
against its contracts.

`src/` is the verified library:

- `dom.rs` — the document tree (`BaseDocument`, nodes, elements, attributes,
  select/option data), its well-formedness invariant, building a tree, and
  the spec functions that read it (pre-order traversal, text content).
- `tree.rs` — the forest shape that well-formedness includes (children name
  their parent, parent links end at a root) and why a walk down the tree meets
  each node at most once.
- `select.rs` — `<select>` controls: deriving a select's options, mode,
  selection and rows from the document (`sync_select_control`), opening
  and closing dropdowns, moving the active option, choosing options (with the
  input/change events that follow), type-ahead search and form values.
- `select_laws.rs`, `sync_laws.rs` — properties across operations, e.g. a
  dropdown selects at most one option, the `value` attribute wins, choosing the
  same options twice changes nothing, activating a list-box option twice
  restores every flag, and syncing twice equals syncing once.
- `access.rs` — the accessibility tree (roles, states, nesting) and its
  conversion to an `accesskit` tree update.
- `form.rs` — form ownership and the name/value pairs a select submits.
- `menu.rs`, `text.rs` — native popup-menu ids and labels (and which menu
  event names an entry; collapsing doubled `&` undoes the label escape);
  string helpers (equality, prefixes, decimal numbers, `usize` parsing).
- `config.rs` — shell configuration.

`app/` holds what stays outside verification: the `winit` window shell and
clipboard, handing the accessibility tree to an `accesskit` adapter, and the
floating-point popup geometry and painting.
