# explicit_reinitialization

Finds assignments `x = value;` that reinitialise a variable so thoroughly that a fresh
`let x = value;` says the same thing more clearly: the assignment dominates every usage of
the variable that control may come to afterwards.

```rust
let mut x = 1;
println!("{x}");
x = 2;              // let x = 2;
println!("{x}");
```

## Layout

- `src/`: the decision, verified with Verus.
  - `span`: source ranges and how two of them lie to each other.
  - `hir`: the syntax of a statement, and the function that it belongs to.
  - `mir`: a function body as a graph of basic blocks.
  - `graph`: paths, reachability and dominators.
  - `search`: the write and the computation that an assignment was lowered to.
  - `usage`: the usages of a local, and whether a location dominates all that come later.
  - `execution`: what dominance and reachability mean for the runs of a body.
  - `lint`: from a statement to its report.
  - `samples`: small functions that reinitialise a variable.
- `tests/`: the lint and its parts on concrete bodies.
- `app/`: the Dylint library around it, which takes its facts from the compiler. It needs
  the nightly toolchain that its `clippy_utils` is made for, with the `rustc-dev` component.

## Known problems

The lint looks at the lowered body, in which blocks of the source leave no trace, so the
fresh variable may end with a block that the assignment was nested in. The peak memory usage
may grow: the old value of the variable lives on to the end of its scope.
