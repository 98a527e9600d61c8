# track_analyzer

Vision, planning and control for a ball-collecting robot, with the logic verified by
Verus. An overhead camera sees the arena; the program finds the balls, the car's two
markers, the walls and the central cross, plans a grid route around the obstacles and
steers the car to each ball in turn, then to a delivery position.

## Layout

- `src/` — the verified library.
  - `geometry`, `color`, `frame`: positions, colours and hex parsing, RGB images.
  - `vision`, `grouping`, `features`, `border`: colour scan, connected groups,
    size filter and centroids, border and cross extremes.
  - `route`, `search`, `path`: node maps, the grid search with its specification
    and laws (soft wall and cross costs read from penalty tables), waypoints.
  - `search_shape`: what every search leaves behind (grid, parent links and their
    costs, searched neighbours, sizes).
  - `control`: the control loop's decisions (command log, keys, jitter clamp, ground
    mapping refresh, target choice, approach and motion).
  - `track`: ball detection on a still image by cell averages and probe walks.
  - `plot`: drawing for the offline tools.
- `tests/` — tests of the library.
- `app/` — the programs: the live camera loop (OpenCV, TCP links, the f64 ground
  homography, the f32 heading geometry and the f32 penalty tables that both planners
  share) and the offline tools `track`, `path` and
  `yolo`.
