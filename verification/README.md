# path_generation

A robot explores a procedurally generated 240x240 maze with a simulated laser
range finder, a shortest-path planner and frontier-based exploration.

The library in `src/` is verified with Verus:

- `maze`: grid types, the recursive-backtracker generator (the maze it builds
  is fixed by its seed through the draws of a seeded ChaCha8 generator, and is
  a perfect maze: its logical cells and open connectors form a spanning
  tree rooted at the centre, every passage is reachable, and any two logical
  cells are joined by exactly one route that visits no cell twice), and the
  robot footprint test.
- `robot`: the robot's known map, which records each observed cell once and
  never overwrites it (recording a scan twice changes nothing), and the robot
  states.
- `sensor`: what a laser ray meets in a grid cell.
- `planner`: the shortest route over logical cells on the known map, the
  nearest reachable frontier and the nearest unknown logical cell.
- `simulation`: the planning decision of one simulation tick.
- `args`: the `--seed` command-line option.

`app/` is the interactive program around it: the floating-point ray casting and
motion, the simulation loop and the egui/eframe window.
