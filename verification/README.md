# kdr

The verified core of a GoldSrc demo viewer and its resource server. The
library holds the decisions and computations of the viewer and the server
that work on plain values (map and model file formats are parsed outside
it), proved with Verus against contracts over mathematical models; rendering, windowing
and networking stay outside it.

## Layout

- `src/text.rs` — character-level string helpers (`split`, `trim`,
  `replace`, ...) with exact specifications.
- `src/naming.rs` — map file names, base urls, path file names, sanitized
  resource identifiers, the page's query string, request urls.
- `src/search.rs` — the game mods and candidate paths tried for a
  resource, case insensitive matching, the choice of the file found.
- `src/resources.rs` — the files a map needs: studio models, skybox faces,
  wads listed in `.res` files or found by scanning, the resource map and
  its gathering from what was found on disk.
- `src/entities.rs` — how each map entity is drawn, integer key parsing,
  the entity dictionary with consecutive world indices.
- `src/world.rs` — world pipeline settings, render flags, triangle index
  generation, vertex batches and their opaque or transparent routing,
  skeletal bone slots, face vertices.
- `src/texture.rs` — mip chain length, palette expansion, placeholder
  texture, mipmap blit plan.
- `src/texture_arrays.rs` — grouping textures into arrays by size and the
  lookup from entity texture to array layer.
- `src/lightmap.rs` — the lightmap atlas, built with `guillotiere`.
- `src/archive.rs` — zip archives of map resources, with `zip`.
- `src/server.rs` — request checks and response decisions of the server.
- `src/post_process.rs` — the screen effect chain and its passes.
- `src/keys.rs`, `src/session.rs` — input state, players and replays.
- `app/main.rs` — a command line front end that does the disk work.
- `tests/` — tests of the library on concrete values.
