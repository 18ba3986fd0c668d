# refined_rustc

Type-system analyses of a Rust compiler that supports refined enums
(`enum E<T> { A -> E<i32>, .. }` and exact constructor types `E<i32>::A`),
written in Verus and verified against their contracts.

The compiler's interned type context is modelled by `ty::TyCtxt`: types,
argument lists, patterns and definitions are referred to by index, and a
well-formed context only lets a type refer to types interned before it.

Modules:

- `refinement`: refinement keys, exact constructor types, and how values
  convert between a refined type and its base (identity, forgetting the exact
  constructor, forgetting it behind a shared reference), and where two types
  meet.
- `outlives`: the components that must outlive a region for a type to outlive
  it, with or without the callable interface of function items and closures;
  the bounds that an alias's definition declares.
- `outlives_modes`: what the outlives collector finds, as a set (everything
  the reachable types contribute, whatever the visiting order), and that
  keeping the callable interface only adds components.
- `representability`: which parameters an ADT holds by value, and whether an
  ADT holds itself by value (a cycle of representability queries).
- `variance`: the variance constraints of a crate's items, over an arena of
  variance terms.
- `origin_contract`: a dataflow analysis over MIR that infers which input
  regions may flow into the origin lifetimes of a function's output.
- `constraint_conversion`: converting the region constraints of type checking
  and of closures into the borrow checker's outlives constraints, and the
  regions that must outlive `'static`.

`tests/` holds executable tests on concrete contexts. The crate uses
`smallvec` for its small inline vectors.
