# course_evolver

Agents steered by small recurrent networks walk randomly generated obstacle
courses; the best are kept, mutated and bred over generations.

`src/` is the verified library (Verus):

- `course` — the grid, shortest walks by breadth-first search, course
  generation from random blocks and the rules a generated course must meet,
  drawing a course as text.
- `simulation` — one agent on one course under a policy, step by step.
- `policy` — the actions and the `Policy` trait.
- `fitness` — the integer counts a fitness score is built from.
- `job` — running one policy on one course and measuring it.
- `history` — grouping a generation's results by individual.
- `evolution` — the makeup of the next generation: elites, children, immigrants.
- `viewer` — what the viewer has selected, how each frame's key presses
  move the selection, and how playback moves.
- `rng` — the calls into `rand`.

`app/` holds what stays outside verification: the neural network and
genomes, the `f64` fitness weights, ranking by fitness, the course retry
loop, the Tokio worker pool, and the macroquad viewer with its key reading,
frame clock and `f32` playback speed.
