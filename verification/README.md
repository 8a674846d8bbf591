# maple_core

Recent projects and definition search for an editor's fuzzy finder, as a
Verus library.

- `src/frecent.rs`: one visited path with its visit count and frecency
  score; the score of an entry seen from a working directory.
- `src/projects.rs`: the bounded list of recent projects: visits (upsert),
  sorting by working directory, and dropping vanished directories. Laws:
  visits keep paths distinct, the list stays sorted and bounded, a visited
  path is listed while there is room.
- `src/definition.rs`: definition rules by language and kind, the regular
  expression built from them, and the split of ripgrep matches into
  definitions and references.
- `src/rg.rs`: a ripgrep match and the searched word.
- `src/provider.rs`: the projects provider's state, display lines, paths and
  decisions.
- `src/text.rs`: what the std and itertools string functions used here
  compute, and the trusted items that call them.
- `app/`: persistence as JSON, the file system checks, the rules file and
  the parallel iterators.
