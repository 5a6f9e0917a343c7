# RustyCraft

A small voxel world in the manner of Minecraft: terrain generated from fractal
noise, chunks streamed in and out around the player, blocks placed and removed,
chunks saved to and loaded from disk, meshes with ambient occlusion.

## Layout

- `src/` is the world's logic, verified with Verus:
  - `utils.rs`: integer block positions, chunk coordinates and positions inside a chunk.
  - `blocks/`: block kinds, their texture tiles, faces, and blocks.
  - `chunk.rs`: the 16 x 16 columns of a chunk; editing, lookups, terrain columns, trees.
  - `world.rs`: the loaded chunks, placing and removing blocks (water flows into
    emptied cells beside water), the nearby cube, and streaming around the player.
  - `effects.rs`: ambient occlusion at a vertex.
  - `mesh.rs`: the visible faces of a chunk and their triangles.
  - `persistence.rs`: the text format of saved chunks and their file names.
- `app/` is the program around it: the window and event loop (winit), rendering
  (wgpu), the camera and collisions (floating point), noise, files and threads.
- `tests/` exercises the library on concrete worlds.

Controls: WASD to move, scroll wheel or J/K to change the block to place, G to
toggle flying, Space to jump, left click to remove and right click to place.
