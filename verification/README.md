# engine

The core of a small real-time rendering engine, written in Verus: the
functions carry `requires`/`ensures` contracts and Verus proves them.

The library decides; the program around it draws. Every operation that
changes what the GPU must hold returns a plan (`PushPlan`, `BufferWrite`,
`MaterialWrite`, `SceneWrites`) saying which info to write at which byte
offset, and whether a buffer must grow first. The program carries the plans
out.

## Layout

- `src/` — the verified library
  - `buffers.rs` — growable GPU arrays of fixed-size infos, and arrays keyed
    by id
  - `scene.rs`, `scene/` — meshes, lights and models, the scene graph, and
    the uploads each scene operation asks for
  - `world.rs` — scenes by id, the scene shown, and the operations the
    program's commands carry out: importing a scene, creating a light,
    moving, deleting and duplicating models, reading and writing worlds
  - `texture.rs`, `material.rs` — texture and material managers; a
    material's shader id is the index of its info in the material buffer
  - `import.rs` — what a glTF file's textures, materials, nodes and scenes
    become
  - `saved.rs` — the records of a world file (`world.json`) and how models,
    scenes and materials are written to them and read back
  - `images.rs`, `uri.rs`, `text.rs` — where image bytes are found and in
    which format
  - `input.rs`, `camera.rs`, `events.rs`, `animation.rs`, `layout.rs` —
    input state, camera upload bookkeeping, game reactions, the outline
    colour pulse, and byte layouts of the picking and outline passes
  - `slots.rs` — the slot maps and hash maps the managers and the world use,
    with the contracts the library relies on
- `tests/` — tests of the library on concrete values
- `app/` — the program: reads glTF and image files, reads and writes world
  files with serde, computes the floating-point infos and camera, and applies
  the upload plans to buffers held in host memory

World files hold paths of texture images relative to the file, so a world
file must stay in the directory that holds its `textures` directory.
