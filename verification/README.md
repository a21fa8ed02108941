# nodes-gui

A node-graph editor. The library (`src/`) holds the editor's model and its
rules, each function with a proved contract:

- `storage` — `Storage<T>`, a densely packed collection addressed by `ID`
  handles, with handle reuse (most recently freed first) and swap-removal.
- `editor_graph` — nodes, ports and their prototypes; `NodeWorld` with its
  linking invariant, node creation, connection drawing rules and the data an
  output port's evaluator needs.
- `node_tools` — typed access to a node's named state values, and the lookup
  of an input's feeding port.

Coordinates and float state values are kept as `f32` bit patterns; all float
arithmetic (positions, evaluation) and the egui/eframe user interface live in
`app/`, which instantiates the graph with egui types and `f32` evaluators.
