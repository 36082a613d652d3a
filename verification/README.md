# morse

Morse complexes of a scalar function on an undirected graph, verified with Verus.

The points are taken from the most extreme value to the least (highest first
for a descending complex, lowest first for an ascending one). A point with no
neighbour taken before it is an extremum and starts a cell; any other point
joins the cells of those neighbours, which merge into the cell of the most
extreme of their extrema. Each merged extremum records its persistence, the
span of values from itself to the point that merged it, and the extremum it
was merged into; these steps, ordered by persistence, form the filtration.

Layout:

- `src/ordering.rs`: stable ordering of indices by integer keys.
- `src/pointed_union_find.rs`: a union-find with labelled classes on top of
  `petgraph::unionfind::UnionFind`, whose union keeps the label of its first
  argument's class.
- `src/model.rs`: the mathematical model of the construction, one point at a
  time, and its invariants.
- `src/morse.rs`: the graph, the complexes and their contracts.
- `src/laws.rs`: what holds of every complex (global extremum, ancestors and
  the ascents to them, merges into more persistent extrema, cells as
  connected components, the role of the grades, ascending versus descending).
- `app/`: petgraph graphs of floating-point values in and out: values become
  integer levels that order them, persistence spans become value differences.
