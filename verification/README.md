# Verified MAST forests

A library for Merkelized abstract syntax trees, written in Verus. What its functions do stands in
their contracts, which the verifier proves. One function has none: how a resolver of types makes its
own error of a failure (`resolve_local_failed`) is up to whoever writes the resolver.

- The wire format: `operation`, `batch`, `block`, `node`, `forest`, `dense`, `wire`, `layout`,
  `read`, `view` and `untrusted`. `roundtrip` holds the laws that tie writing to reading.
- Sparse forests, with a format of their own: `sparse`.
- The builder: execution nodes are shared by their keys, while every source occurrence stays apart.
  See `pending`, `graph`, `source_graph`, `boundary`, `builder`, `merge`, `finalizer` and `finish`.
- Static linking: `static_metadata`, `static_import` and `linked_names`.
- Types and debug information: `types`, `type_expr`, `type_decl`, `type_eq`, `debug_types`,
  `debug_sections`, `debug_info`, `debug_var`, `registry`, `table_import` and `trimmer`.
- The assembler: `procedure` and `procedures`, `body`, `assembler`, `exports`, `product`,
  `visibility` and `package_modules`.

Hashing (`hasher`) and one work list (`type_expr`) call outside crates; what is claimed of them
stands in the contracts there. `app/` holds the file system, the log, and serializable copies of
values.
