# Evolutionary knapsack solver, verified

A 0/1 knapsack solver built from an evolutionary loop (greedy seeding, elitism,
uniform crossover, mutation, repair, local search) and a simulated annealing
pass. The library in `src/` holds the operators with their contracts, proved
with Verus; `app/` runs them.

- `problem`: the instance and the sums of weight and value over a selection.
- `candidate`: a solution with its cached totals; putting items in and out.
- `order`: exact comparison of fractions and a verified merge sort of indices.
- `greedy`: item rankings (by density, value, weight) and greedy filling.
- `repair`: taking items out of an over-capacity bag.
- `search`: exchanges of one item for another and the randomized local search.
- `climb`: the two hill climbs, one round at a time as a specified step.
- `population`: seeding, sorting, selection, crossover, mutation, one generation.
- `anneal`: the integer steps of simulated annealing.
- `rng`: the calls into `rand`, with what is claimed of each.

`app/` keeps what is floating point: the selection rate, the construction of
the mutation distribution, and the temperature schedule and acceptance test
of simulated annealing, and runs the generation loop.

## Densities

Value per unit of weight is compared as an exact fraction, by
cross-multiplication in 128-bit integers, never as a floating-point quotient.
Where weights or values are large enough that two different densities round
to the same `f64`, the ranking here orders them by their true values; a
floating-point ranking would treat them as equal and keep their index order.
This affects the ranking by density, the first greedy seed and the repair
that removes the least dense items first. An item of weight 0 and positive
value has infinite density; an item of weight 0 and value 0 has none, and
ranking more than one item by density requires that there is no such item.
