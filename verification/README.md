# inferdf

A library for RDF datasets with inference, verified with Verus: interpreted
datasets (graphs of signed facts with their causes, and the matching of
triple patterns against them), interpretations that map terms to resources
and merge or split them, the groups and classes that stand for anonymous
nodes, a deduction system that deduces new statements from a triple and a
rule set, the step that inserts a statement into a dataset being saturated,
and the language in which those rules are written (its parser, the
building of rules from it, and rendering).

Layout:

- `src/` is the verified library. Each public function states its behaviour
  in `requires`/`ensures` over mathematical models (`Seq`, `Map`, `Set` and
  the views of the library's types); laws that relate several functions are
  public proof functions. Calls into outside crates (`hashbrown`, `slab`,
  `im`, `indexmap`, `iref`) go through small trusted items whose contracts
  say what the crates' sources show.
  - `dataset/`: graphs and datasets of facts, pattern matching.
  - `interpretation/`: local interpretations and the interfaces to
    dependencies.
  - `class/`: groups, their normalisation and classification.
  - `inference/`: rules, formulas, the deduction system, the saturation
    step (`builder`), the strongly connected components of index graphs
    (`scc`), and the classification of anonymous nodes (`components`):
    their dependency graph, its components layered by dependency depth,
    and the classes that each layer's groups receive.
  - `rdfs/`: the rule language: syntax tree, parser, scopes and IRI
    resolution, rule building, rendering context, command-line bindings.
  - `module/`: local modules and the interfaces between sub-modules.
- `tests/` holds the tests, run against the compiled library.
- `app/` holds what Verus does not take: impls of outside traits, text
  output, and the loop that inserts a fact with everything it entails, one
  verified step at a time.
