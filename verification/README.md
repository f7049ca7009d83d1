# od_ontology

Odoo's business-logic ontology as a verified library: the SPO triple corpus
harvested from Odoo source, and what is derived from it.

- `src/` is the library, proved with Verus:
  - `triple`, `text`, `strset`, `rel`, `smap`: the corpus row, string and
    sorted-collection helpers every other module builds on;
  - `recompute_dag` (over `digraph`): the method-level recompute graph, its
    depth-first cycle detection and least-first topological order;
  - `inheritance`, `mro`: the `inherits_from` map and the C3 method
    resolution order next to the naive parent-first search;
  - `alignment`: the OWL pivot seed, the DOLCE classifier and the lookup;
  - `view_mask`: the `ir.ui.view` field harvest and the projection bit masks;
  - `ogar_actions`: the behavioral-arm lowering (recompute and guard actions);
  - `surreal_ast`, `emit`, `ogar_bridge`: the typed SurrealQL DDL, the
    corpus-to-schema projection and the lowering onto the OGAR class shape;
  - `relations`: the typed relation overrides;
  - `codegen`, `serve`: the decisions of the command line and of the HTTP
    host; `posting`: the posting-host boundary.
- `app/` is the program around it: reading and decoding corpora (serde), the
  OGAR substrate calls, the `od-codegen` command line and the `od-server`
  HTTP host.
- `tests/` runs the library.
