# resolve_pattern

Patterns over module requests. A request that is only partly known, such as
`"./pages/" + name + ".js"`, is a `Pattern`: constants, dynamic parts,
concatenations and alternatives. The library builds patterns, normalizes them,
matches texts against them, lists the constants with which a text can go on, and
decides how a search of a file system for all matches proceeds.

- `src/` is the library, verified with Verus. `pattern` holds the type and its
  model, `compose` the building, `normalize` the normal form, `barrier` what a
  dynamic part must not run over, `matching` and `constants` the matching,
  `lookup`, `search` and `order` the search, `display` the textual form.
  `language`, `matching_laws`, `normalize_laws`, `prefix_laws` and `search_laws`
  hold what is proved of several functions together.
- `app/` stores patterns in the task system and reads the file system.
- `tests/` runs the library.
