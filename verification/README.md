# hakana_analyzer

Verified pieces of the statement and scope analysis of a static analyzer for
Hack code, written in Verus.

- `scope::response_context` — HTTP response facts of an execution path (MIME
  type and header mutability), their merge, and the operations on them.
- `scope`, `scope_context` — control actions, variable-path roots
  (`var_has_root`), the removal of clauses invalidated by changed
  variables, and the locals a branch redefines or updates.
- `scope::var_map` — values by variable name: a type by an identifier that
  equal types share, or an assignment count.
- `stmt::control_analyzer` — the ways control can leave a list of statements,
  over a statement model that carries the facts type inference supplies.
- `stmt::loop_analyzer` — the depth of assignment chains inside a loop.
- `reconciler::reconciler` — splitting variable paths such as `$a->b['c']`
  into parts.
- `reconciler::negated_assertion_reconciler` — narrowing a type by a negated
  equality with a literal (`$x !== 'a'`, `$x !== E::A`).
- `clause` — the clause model read by the scope bookkeeping.

Each public function states its result exactly in terms of spec functions;
the laws the analysis relies on are public proof functions next to them.
