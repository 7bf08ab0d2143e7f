# learn_wgpu

A step-by-step breadth-first search through a grid maze, animated with
wgpu. The search, the maze grid and the decisions of the frame loop are a
library verified with Verus; the window, the GPU and the colours live in a
small program around it.

- `src/maze.rs`: the `Room` cells and the `Maze` trait that a maze
  implements, with the room at each coordinate named by a spec function.
- `src/search.rs`: `BFS`, which expands one cell per `step_goal` call until
  the goal is next to it and then walks back one cell per `step_home` call;
  its contracts say exactly how each step changes the parent map and the
  queue, and proof functions state that every reached cell has a way back
  home along its chain of parents, that no cell waits twice, that with one
  maze every reached cell is an empty room next to its parent, and that
  cells are expanded in order of the length of their chain of parents.
- `src/layers.rs`: for a search run with one maze, the breadth-first
  layers: the chain of parents of every reached cell is a shortest walk
  from home, cells are expanded in order of that distance, the goal is
  found along a shortest way, and an empty queue means no way to a goal.
- `src/runs.rs`: the same laws over whole runs of `step_goal` from a new
  search: what every state keeps, the breadth-first order of the returned
  cells, the bound on how many calls return a cell, the goal found along a
  shortest way, and the walk back that `step_home` then takes.
- `src/grid.rs`: `MazeTest`, a maze stored row by row, where everything
  outside the grid is a wall; `place_walls`, and the random default maze
  built with it.
- `src/frame.rs`: one frame of the animation, the tiles painted at the
  start, what to do on each input from the window, and what to do when
  presenting a frame fails.
- `src/text.rs`: the coloured message lines of the build tooling.
- `app/`: the window, the event loop, wgpu and the floating-point colours.
