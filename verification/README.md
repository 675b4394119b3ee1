# ure

The data structures and rules of a small entity engine, verified with Verus.

- `sys`: entity ids (`Uids`), deferred deletion across frames (`DeleteQueue`),
  a probe table of control bytes and keys in which a lookup finds what an
  insert stored (`map::Table`), a tree whose nodes are also linked into a
  thread, each new node just before its parent (`tree::Tree`), per-entity
  transforms (`tf::Space`), box layout in whole
  pixels (`gui::Layout`) and what changed between 2D frames
  (`gpu::render2d::Draw2D`).
- `game`: the entity hierarchy with its walks (`tree::Tree`), the asset table
  kept in step with a git tree (`assets::Assets`) and layout enums (`gui`).
- `ure_data`: component containers (`Vec`, `One`, `Option`, `()`, bit
  vectors) with swap-remove deletion, and component/function ids.
- `call`, `input`, `gpu`, `resource`: queued callbacks, input routing and the
  digital actions it sets, render
  layers and instance-buffer growth.

`app/` holds what runs outside the verified library: the program entry, the
calls to git that feed `Assets`, and the floating-point box layout that walks
the verified tree.
