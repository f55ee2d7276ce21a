# mir

Checked MIR for a compiler: the body model, its validation analyses, lexical
cleanup materialization, body construction state and the caches of call and
body instances, written in Verus and verified.

## Layout

- `ids`, `semantic`, `locals`, `model`: identities, semantic handles, locals
  and the body model (blocks, statements, terminators, tables).
- `dataflow`, `places`, `worklist`, `sorted`: dense identity sets, place
  availability, worklist measures and ordered, duplicate-free error lists.
- `initialization`, `initialization_flow`: definite initialization; the
  analysis computes the greatest solution of its equations and reports
  exactly its errors.
- `loans`, `loans_flow`: loan validation; the analysis computes the least
  solution and reports exactly its errors.
- `drop_obligations`, `drop_obligations_flow`: owned-value cleanup
  obligations; the errors reported are exactly those of the entry states
  the analysis settles on, a solution of its equations.
- `validate`: the three analyses together.
- `scopes`, `cleanup`: lexical scope chains and the materialization of
  cleanup chains on every edge and exit that leaves scopes.
- `control_flow`, `drop_plans`, `contracts`, `error_values`: successors,
  destruction plans, return contracts and static error payloads.
- `calls`, `names`, `index`: call-instance keys and registries, name order,
  body-instance keys and the body cache.
- `resolution`: what name resolution and type checking say of each
  checked type that destruction planning reads (copy semantics and the
  declaration it resolves to, with field and payload types by identity).
- `lower`: construction errors, the block builder and the lowering context;
  `lower::syntax` is the statement structure of a source body,
  `lower::coverage` splits a body into its statements and tail and checks
  the block shapes that lowering takes, `lower::statements` lowers loops,
  `while` loops, conditionals, `break` and `continue` into blocks,
  `lower::explicit_drops` lowers `drop` statements,
  `lower::projections` records the projection paths of field places, and
  `lower::parameters` builds the return and parameter locals. Aggregate
  temporaries and destruction plans are built from the resolution model.

Expressions other than local names are carried by identity: lowering the
values they compute (calls, literals, aggregates, matches, closures,
projections) reads typed-expression and ABI queries of the compiler that
are outside this library, so statements that need them are reported as
unsupported here.

Every public function states its result in `ensures`; the laws that relate
several functions are public proof functions next to them.

`tests/` exercises the library on concrete bodies.
