# frank_wolfe

Traffic assignment with carbon and cordon pricing, solved with a
Frank–Wolfe method, and a verified library for its combinatorial core.

* `src/` is the library, verified with Verus: sorted-sequence iterators
  (dedup, sorted filter, merge, with string items compared by their
  characters), permit bundles and paths with their set
  algebra, interning indices, the road network graph and its invariants,
  travel demand, reachability, the syntax of floating-point numerals, and
  the readers of the TNTP net and trips formats and of the cordon edge map
  (a CSV table parsed by the `csv` crate).
* `app/` is the command-line program around it: reading files, the latency
  functions, the A* shortest-path searches, edge- and path-based flows, the
  Frank–Wolfe method and the pricing experiments, all of which compute with
  floating-point numbers.
* `tests/` exercises the library on concrete inputs.
