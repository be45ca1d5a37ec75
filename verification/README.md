# waraner_client

The data side of the Waraner game engine client, with machine-checked
contracts (Verus):

- `ecs`, `components`, `entity_types`, `scene` — archetype-based entity
  storage with generational handles, the engine's component types (numbers
  held as single-precision bit patterns), entity templates, and building a
  world from a scene description.
- `wpak`, `wpak_build` — `.wpak` asset archives: path normalization and
  hashing, compression, reading and building archive images.
- `asset_id`, `asset_system` — asset identities, the reference-counted asset
  table, `.meta` GUID text, and resolving assets across open archives.
- `wmap`, `wmap_file`, `wmap_world` — `.wmap` world maps: component records,
  the file image, saving a world and loading it back.
- `wmesh` — `.wmesh` mesh files and cutting them into models.
- `config`, `console`, `engine_state`, `audio`, `text` — settings and their
  sources, the in-game console, hot-reload bookkeeping, audio handles.
- `input` — what a key press or release does to the movement flags, the
  console, the pointer and the camera mode.
- `world_laws`, `world_frames`, `world_steps`, `wpak_laws`, `wmap_laws`,
  `wmesh_laws`, `orders` — proved properties: reading back what was written
  (archives, maps, worlds, meshes), component storage laws, that every world
  operation keeps the storage tidy, and the orders used.

`app/` holds the file, thread and environment plumbing around the library
(opening and writing files, TOML configuration, the background asset
loader). `tests/` exercises the library on concrete values.
