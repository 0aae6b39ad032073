# calyx

A verified static-timing pass for a hardware intermediate representation,
with the visitor framework that drives passes over control programs.

- `src/ir.rs`: components, cells, groups, guarded assignments and control
  programs; well-formedness (every reference names an existing cell or group).
- `src/action.rs`, `src/visitor.rs`: the visitor interface and the traversal of
  control programs and components. Every traversal keeps components well
  formed, and changes asked for by a visitor are applied in place.
- `src/trace.rs`: the calls a traversal makes on a visitor. Each logged call
  records the node, the component and the other components the hook was
  handed, what it left and its answer. For a visitor that logs its hook
  calls, the traversal's result (the program, the component and the answer)
  is a function of that log.
- `src/static_pass.rs`: what the static-timing pass does to a whole program,
  given the calls its hooks make: a tree of `seq` and `par` blocks over
  statically timed groups is lowered bottom up into a single group.
- `src/post_order.rs`: an order of components in which each component comes
  after the components it instantiates, or the proof that none exists.
- `src/static_timing.rs`: lowering of `seq` and `par` blocks made only of
  statically timed groups into a single group driven by a counter.
- `src/schedule.rs`: what the lowered groups do, cycle by cycle.
- `src/math_utilities.rs`: bit widths.
- `app/lib.rs`: logging on standard error.
