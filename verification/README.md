# director_core

The core of a frame-based video rendering engine, written in Verus: the
scene graph and the decisions taken on it every frame, with contracts that
Verus proves.

## Layout

- `src/` — the verified library.
  - `scene.rs`: the scene graph (an arena with a free list), with exact
    contracts for adding, linking, unlinking and wrapping nodes, and for
    destroying them (the freeing order exact when the child links agree);
    `scene_laws.rs` states what these keep (well-formedness) and how they
    combine; `scene_lemmas.rs` holds the proofs' building blocks.
  - `scene_check.rs`: deciding whether the child (and mask) links contain a
    cycle, in the whole arena or reachable from given roots.
  - `director.rs`, `director_laws.rs`: the per-frame visit of the active
    scenes and what it reaches.
  - `systems/`: the render order of a node's children, the layout tree kept
    in step with the scene (through `taffy`: nodes, styles and children),
    the order in which computed rectangles are read back, and the
    transition shaders.
  - `scripting/`: how script values are read (easings, colours, layout
    keywords, grid placements) and the design-system lookups.
  - `audio.rs`, `tokens.rs`, `loader.rs`, `video_wrapper/`, and the shared
    enums and error type.
- `tests/` — tests of the library on concrete values.
- `app/` — ordinary Rust around the library: floating-point curves, colours,
  animation and audio mixing, file-system loading, layout computation and
  the serde and `thiserror` forms of the library's types.
