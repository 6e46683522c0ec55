# Oxium

A single-player voxel sandbox whose rules are verified with Verus.

The library under `src/` decides: how light spreads, which chunks are loaded,
lit and drawn, what commands and key bindings mean, which sounds are heard, and
what the tools around the game do. Every function states in its contract what it
returns or changes, and the `law_` proof functions state what holds across
functions. The program under `app/` performs what was decided: it opens the
window, reads and writes files, runs jobs on threads and plays sounds. Numbers
that the program has as floating point reach the library as integers, mostly in
millionths; each module says which.

| Module | What it holds |
| --- | --- |
| `voxel` | Blocks, coordinates, chunks and the world |
| `lighting` | Light of a chunk, and the engine that keeps light right after edits |
| `ecs` | The player, editing, streaming, meshing and the order of relighting |
| `jobs` | Results of background work, and how threads are shared |
| `command` | Command trees: parsing, completion, help |
| `input_engine` | Key bindings and the actions they stand for |
| `audio` | Which clips are played when |
| `ambient` | How loud the surroundings, steps and music are |
| `app` | Frames, pacing, window events, options, what the player hears |
| `probe` | Scripted input, pictures in sequence, coordinates on a command line |
| `viz` | The world-generation visualizer: regions, caches, maps, cuts, presets |
| `doc_render` | The picture tool's command line |
| `text`, `fixed`, `order`, `small_set` | Numbers in texts, fixed point, sorting, small sets |

`tests/` runs the compiled library on concrete values.
