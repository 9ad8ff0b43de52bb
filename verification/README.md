# ccl

The core language of a dataflow compiler, verified with Verus: names, dependent
and refined types, typed terms, capture-avoiding substitution, printing, and the
phase that rewrites `with begin():` blocks into guarded recurrences over commit
histories.

- `src/` holds the library. A function states in its contract what it returns,
  over the mathematical trees that terms and types view as; `==` and `<` on the
  library's types return what the file that implements them says they mean. The
  files whose names end in `_laws`, with `built`, `subst_scope`, `subst_types`,
  `subst_sets` and `set_hash`, state what holds across functions. Two things are
  taken on trust: what `Rc` does with a handle, which `sharing` says, and that a
  slice made of one value writes through to it, which `witness` says.
- `tests/` runs the library on concrete programs.
- `app/` prints, serialises and hashes the library's values through traits of
  other crates, and reads the switch by which types print the witnesses they bind.
