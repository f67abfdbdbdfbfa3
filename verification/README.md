# hanoi_core

The verified core of a customizable contraction hierarchy (CCH) routing
stack for the Hanoi road network, written in Verus.

`src/` is the library; every function in it is verified:

- `graph`, `node_order`, `contraction`, `cch`: CSR graphs, node orders,
  the elimination game that builds the chordal supergraph, and the CCH
  topology (elimination tree, reversed graph, arc maps, arc unpacking,
  pruning of always-infinite arcs).
- `directed_cch`, `cch_cache`: directed CCHs and their on-disk form, with
  the loader's validation and the store/load round trip.
- `customized`: customization results and arc unpacking.
- `context`: assembling the routing contexts from loaded arrays.
- `tree_walk`: elimination tree walks on a customized CCH, the meeting
  nodes of a bidirectional walk, the fact that a finished walk's
  distances are determined by the graph and the source, and, on a chordal
  customization, that the first meeting candidate is the shortest up-down
  distance.
- `line_graph`, `multi_route`: line-graph (turn-expanded) mapping and path
  materialization; the multi-route server (meeting nodes, path
  reconstruction, admissibility tests, point-to-point distances).
- `route_eval`, `traffic`: imported-route replay and the traffic overlay.
- `api`, `engine`, `geometry`, `graph_data`, `bench`: request validation,
  engine-loop decisions, turn directions, graph checks, benchmark settings
  and totals, random benchmark query sets.

`app/` is the HTTP server and gateway around the library (I/O, JSON,
floating-point geography, logging), writes benchmark query sets and
reports on saved benchmark runs (timing statistics are floating point). `tests/` exercises the library on concrete
values.

## What this crate does not do

The query engine itself (customization with a metric and the elimination
tree searches over customized weights) is not part of this crate, and the
server built from `app/` is limited accordingly:

- There is no `/query` route and no customization. An upload to
  `/customize` is decoded (four bytes per arc, little-endian) and checked,
  and the accepted weights then serve only route evaluation and the traffic
  overlay. `customization_active` therefore stays `false` and
  `engine_alive` stays `true`.
- There is no command-line query tool and no turn annotation of answers.
- The directed CCH cache is read, checked and used, but never written:
  `to_parts` and `save_parts` have no caller in `app/`. Without a usable
  cache a line-graph context cannot be assembled, because building a
  directed CCH needs the always-infinity weights that customization finds;
  `CCH::to_directed_cch` and `CCH::remove_always_infinity` take those
  weights as arguments.
- `MultiRouteServer`, `engine_step`, `CCH::to_directed_cch`,
  `CCH::remove_always_infinity` and `materialize_lg_path` are verified and
  tested here but not called from `app/`.
- `CCH::fix_order_and_build` builds along the order it is given; it does
  not first improve the order by separators.
