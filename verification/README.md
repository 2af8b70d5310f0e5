# typechecker

Type inference for a small functional language: algorithm J with let polymorphism by levels,
records with row variables, algebraic effects, mutable references and multi-parameter traits.

`src/` is the library. Everything in it is verified with Verus, and it trusts nothing but vstd.

- `types`, `rows`, `cache`: types, and the tables that inference reads and fills.
- `bindings`, `resolve`, `subst`, `occurs`, `effects`, `unify`, `solve`: unification.
- `typevars`, `contains`, `instantiate`: generalizing types and instantiating them.
- `effect_sets`, `results`, `patterns`, `definitions`, `impls`, `rules`: what the rules are made of.
- `tree`, `expressions`, `functions`, `access`, `declarations`, `values`, `branching`, `programs`,
  `impl_steps`: the inference rule of each node.
- `agreement`, `progress`, `plain`, `acyclic` and the modules whose names end in `_laws` or
  `_agreement`: what holds of all that.
  - Types without rows, tags, named generics and varargs unify exactly if there is a solution. The
    bindings found are the most general ones, make the types equal once they are resolved, and lead
    to no infinite type; nothing is left to do afterwards (`plain_laws`, `acyclic`,
    `solving_laws`).
  - Types of all kinds agree after they were unified (`agreement`), unless a step was irregular: a
    row of fields whose variable was bound meanwhile, or which kept a variable of its own, or a tag
    that stood for another where types were compared in reverse order. Which effects two rows of
    effects hold is a law of its own (`effect_agreement`). It asks that no effect stands twice in
    the second row, and that unifying the arguments of effects leaves the ends of the rows open.
  - Unification binds nothing in place (`unify_laws`) and does not depend on the bound on its depth
    (`depth_laws`). The occurs check is exact (`occurs_laws`), and so is what is collected from a
    type and generalized (`typevar_laws`).
  - Replacing variables is consistent, complete, and can be undone where it renames (`subst_laws`,
    `replacing_laws`). Each new variable stands for one old one (`renewal_laws`).
  - Rows of fields stay in the order of their names, and no name occurs twice (`row_laws`,
    `sorted_laws`).
  - Inference loses nothing that was found out before (`inference_laws`, `definition_laws`,
    `impl_laws`) and leaves no node without a type (`typing_laws`).

Functions whose recursion follows bindings take a bound on their depth and give `None` beyond it;
each has a companion without the bound, for caches in which all bindings end.

Nodes that need other passes of a compiler are inferred in steps. `app/` ties all nodes into one
syntax tree and calls those passes between the steps. `tests/` runs the library on examples.
