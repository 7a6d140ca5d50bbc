# satisfactory_calc

A production planner for Satisfactory. Recipes form a graph whose nodes are
resources and whose edges lead from each ingredient of a recipe to each of
its products; resources taken from the world hang off a `world_root` node.

The library (`src/`) is verified with Verus:

- `recipe`, `graph`: recipes, resource nodes, edges, and building the graph
  recipe by recipe (`Graph::add_recipe`).
- `edge_bags`: the edges counted with repeats; every edge is listed once
  at its source and once at its target.
- `topo`: depth-first traversal times (`Graph::topological_sort`) and
  ordering lists of resources by them (`Graph::sort_topologically`).
- `related`: the recipes and resources that take part in producing a set of
  targets (`Graph::find_all_related`).
- `coverage`: everything producible from a set of available resources
  (`Graph::expand_coverage`).
- `construct`: sub-graphs of chosen recipes (`Graph::select`) and graphs
  built from a recipe list (`Graph::from_recipes`).
- `planner`: the integer side of planning (matrix columns, the order in
  which chosen recipes are listed, editing the list of targets).
- `image`: links to the item pictures of the game's wiki (MD5 through the
  `md-5` crate).
- `text`: name order, membership and prefix matching.
- `laws`: properties that span these functions.

The application (`app/`) reads the recipe file (JSON through serde), keeps
the rates and power figures, solves the linear program with `minilp`, and
holds the command line and the web front end (yew, wasm32 only).
