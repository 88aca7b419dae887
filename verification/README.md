# voronoi_geology

A plate tectonics world simulation on a cylinder: east and west wrap, north and
south are walls. Plates are moving Voronoi sites; where they meet they collide,
subduct, spread or slide, and the terrain remembers. Rain falls, rivers cut,
sediment settles.

The library under `src/` is verified with Verus. It is generic over the numbers
it computes with (`scalar::Scalar`); every contract is stated over the
specification functions of that trait. `fixed::Fixed` is a fixed-point number
type that implements it.

## Layout

| Module | What it holds |
| --- | --- |
| `scalar`, `fixed`, `math`, `select` | numbers, vectors, ramps, quantiles |
| `world`, `distance`, `heap` | the grid, the distance transform, the queue |
| `noise`, `plate`, `voronoi` | noise placement, plates, ownership of cells |
| `boundary`, `tectonics`, `eruptions` | where plates meet, and what that does |
| `flood`, `hydrology`, `drainage`, `erosion` | water, rivers and sediment |
| `simulation`, `query` | the loop, and questions about its result |
| `canvas`, `draw`, `ramp`, `layer`, `render` | pictures |
| `text`, `args` | the command line |

Noise values and random draws enter the library as plain values. The program
under `app/` makes them, with floating-point numbers, and reads and writes
everything else that lies outside.

## Laws

Public proof functions state what holds of the library as a whole: the same
start gives the same world, runs add up, water and sediment are conserved, every
cell drains without a cycle and carries its rain and its inflow, the distance
field is exact, effects fade with distance and stop at their radius, reversed
plates swap spreading and collision, drawing and sampling wrap around the seam.
Each stands at the end of the module it is about, in `drainage` for the water.

A law that depends on arithmetic names what it needs as a hypothesis, of the
very values that it speaks of where that can be said (that negation passes
through the products of a record, that two eruptions come to the same in either
order on a cell), and of the number type where it cannot (that values are
linearly ordered, that sums grow, that shares multiply to shares). Proof
functions whose names start with `fixed_` show that `Fixed` meets these
hypotheses, or state the law for `Fixed` outright. Some of them ask for a bound,
so that nothing saturates. `Fixed` rounds down, and where that shows the law says
by how much.
