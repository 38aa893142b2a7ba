# shipsim

A tick-based simulation of an autonomous warehouse: robots pick up orders at
shelf tiles, deliver them to a dispatch zone, and queue at charging stations
when their batteries run low.

## Layout

- `src/` is the library, written in Verus. Each module states what its
  functions do in `requires` / `ensures` contracts, and Verus proves them:
  - `world` — the grid, the world state and the order lists;
  - `components` — robots, charging stations and orders;
  - `systems` — A* pathfinding, movement, scheduling (battery triage and
    order assignment), charging and order generation;
  - `simulation` — the state transitions triggered by arrivals;
  - `setup` — building the initial world from a configuration;
  - `metrics` — the per-tick indicators;
  - `consistency`, `orders_law` — the invariants every system keeps: station
    queues and slots agree with robot states, and every order has exactly one
    place and at most one owner.
- `app/` is the program around the library: reading `config.toml`, the
  real-valued battery model, Poisson order arrivals, the tick loop and the
  CSV output.
- `tests/` exercises the library on concrete worlds.

The program prints a status line every `print_every` ticks and writes
`output/metrics.csv` and `output/summary.txt`.
