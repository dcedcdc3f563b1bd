# Darkstar

An OWL 2 RL ontology editor. The library (`src/`) holds everything the editor
decides, verified with Verus; the application (`app/`) is the window around it.

## Library

- `history`: the undo and redo stacks of changes, with the laws that relate
  undoing and redoing.
- `term`, `graph`: RDF terms as tagged strings and the triple graphs, kept in
  `sophia`'s `FastGraph`.
- `memory`, `rules`, `rules::engine`: the reasoner's memory, the OWL 2 RL rules,
  and the forward-chaining engine, which applies every rule to the whole main
  graph each round, in parallel with `rayon`, until a round derives nothing
  new.
- `manager`: editing with history, loading documents, deleting and relabelling
  entities, and reasoning on demand.
- `plugins`: entity statistics and the health report.
- `outline`: the class, property and individual lists, in text order, and
  their search.
- `ui`: labels, fresh names, and the nodes and edges of the graph view, in
  focus mode and as an overview.
- `layout`: what the graph's layouts decide before any geometry: the edges
  drawn side by side, the rings of the radial layout, the depths of the
  hierarchical one, and the columns of the grid.
- `settings`: the language, the families of rules, and the recent files.

## Application

`app/` holds `main`, the `egui` window and its tabs, the drawing of the graph
and the positions of its nodes, file dialogs and file access, the settings
file, and plugins loaded from shared libraries.

## Tests

`tests/` runs the library on concrete ontologies: the history, editing and
loading, every family of rules, the graph view and its layouts, the lists and
the settings.
