# limn

The logic of Limn, an event driven, component based GUI library, written in
Verus with its behaviour stated in `requires` / `ensures` contracts and proved.

`src/` is the verified library:

- `eventbus`, `event`: the event bus, and the local and global event queues.
- `input`: window input routed to the Ui, keyboard focus (on a `stable_bst`
  tree map), mouse hover and clicks, debug key bindings.
- `ui`: the widget tree and its walks, event targets and bubbling, the mouse
  controller, input dispatch, the `cassowary` solver bookkeeping and the
  `petgraph` widget graph.
- `layout`: constraints on widget variables, the linear layout, and applying
  solved values to widget bounds.
- `style`: property selectors (on a `linked_hash_map` map) and themes.
- `resources`: identifiers, resource maps, fonts read with `rusttype`, image
  sources and pixel processing.
- `app`, `color`, `text`, `property`: frame pacing, color channels, line
  splitting and widget properties.

The laws of the library are public proof functions named `law_*`, each stating
for all inputs how operations relate (what a registration makes a later lookup
find, what a walk visits, how frames are paced).

`app/` is ordinary Rust around the library: named colors and floating point
channels, geometry, type-erased handlers, the event queues behind a lock with
window wakeup and the dispatch of queued events into the Ui, the main loop over
a window, reading solved layout values, and finding assets on disk.
