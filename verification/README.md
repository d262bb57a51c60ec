# saddle_ai_behavior_tree

A behavior-tree runtime whose logic is verified with Verus: immutable,
shareable tree definitions built through a validating builder, a typed
schema-driven blackboard, and a tick engine whose decisions (composites,
decorators, reactive aborts, services, scheduling, wakeups) carry proved
contracts.

## Layout

- `src/` — the verified library.
  - `blackboard.rs`: keys, values (floats as IEEE bit patterns), conditions,
    the blackboard and its laws (read after write, refused writes, recorded
    changes, resizing by name).
  - `builder.rs`, `definition.rs`, `nodes.rs`: node kinds, the builder with
    subtree inlining, and `build`'s validation (arity, unknown children,
    cycles, unreachable nodes) with the graph model behind it.
  - `execution.rs`: the tick engine. It calls the application's handlers
    through the `TreeHost` trait and records each call (start or tick
    callback with its result, abort callback, service callback) in the
    instance's ghost call log, `host_calls`. The contracts state which calls
    a tick makes (a running action is ticked on, not restarted; an abort
    calls the abort callback of exactly the running actions of the branch;
    each due service that runs is called) and what holds whatever the
    handlers do.
  - `runtime.rs`, `systems.rs`: per-entity state and the pipeline's
    decisions (control requests, wakeups, instance upkeep, cleanup).
  - `handlers.rs`, `resources.rs`, `components.rs`, `assets.rs`, `debug.rs`,
    `messages.rs`, `metrics.rs`: handler tables, the definition library,
    agents, trace, filters and messages.
- `tests/` — executable tests, including a small stand-in for the update
  pipeline that drives whole trees.
- `app/` — the Bevy integration: plugin, ECS components/resources/messages,
  closure handlers, RON assets and gizmo drawing.

Times are whole microseconds (`i64`) in the library; the application converts
the seconds it works in.
