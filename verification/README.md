# brlang

An interpreter for a small language of instructions written as data: literals, names,
calls `(f a b)`, lists `[a b]`, braced instructions `{op a b}`, bindings `name: value`,
accessors `a.b` and comments `# instruction`. Values are integers, strings, functions and
collections that hold integer-indexed entries in a persistent sparse vector beside entries
under other keys.

The library under `src/` is verified with Verus:

- `radix`, `sparsevec`: the sparse vector, a 32-way trie from `usize` indices to shared
  values, viewed as a `Map<nat, T>`; insertion, merging, appending, concatenation,
  filtering and conversions, with laws about them.
- `parse`: the grammar as spec functions and a parser on characters that agrees with it.
- `data`, `create`: values as plain data, how they are written and laid out, and the
  builders of instruction forms.
- `inst`: decoding instruction forms into instructions, exactly when they are well formed.
- `macros`: the built-in rewrites of forms (`op-op`, `op-dot`, `op-call-coll`,
  `bind-op-list`).
- `arith`, `text`: the arithmetic built-ins with Rust's overflow and division rules, fresh
  names, splitting, and byte offsets in UTF-8 text.

`app/` is the program around it: values with closures and `im` maps, the environment of
built-ins, macro expansion, evaluation and I/O. `tests/` exercises the library.
