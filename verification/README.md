# Layra

A Mermaid-compatible diagram engine: diagram source in, SVG out.

```text
parse → measure text → layout → route edges → render SVG
```

## Layout

- `src/` — the verified library (Verus):
  - `text` — the string toolkit the parsers and renderers are specified with,
    and the per-character advance table;
  - `ir` — the diagram IR (graph, sequence, charts, timeline / journey / git);
  - `parser` — one parser per dialect (flowchart, sequence, class, state, ER,
    mindmap, gantt, pie, timeline, journey, gitGraph) and the document
    dispatcher, each with an exact specification of its result and warnings;
  - `layout` — the structural phases of the layered layout: cycle breaking,
    longest-path layering, virtual nodes, barycentre crossing minimisation;
  - `render` — themes, escaping, marker definitions, the dash and end-marker
    attributes of edge paths, date axis helpers and the
    timeline, journey and git-graph renderers, whose geometry is exact;
  - `icons` — icon categories, id namespacing and prefix aliases;
  - `router` — the integer side of edge routing: the spatial grid over cell
    blocks (registering items per cell, collecting the candidates of a block,
    each once) and the ranks of edges that join the same two nodes.
- `app/` — the command-line program and everything with floating-point
  geometry: summing text advances, coordinate assignment, edge routing and the
  mapping of rectangles to grid cells, the graph,
  sequence, pie and gantt renderers, the icon registry and the JSON output.
- `tests/` — tests of the library.
