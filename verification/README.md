# hats

Infers the type of a closed lambda term, where recursive types are allowed as
long as every cycle passes under a hat. The logic is proved with Verus.

The program reads one closed term written with `=>` for abstraction and
juxtaposition for application, such as `x => y => z => x z (y z)`, whose type
prints as `(A => B => C) => (A => B) => A => C`. For ω, `x => x x`, it prints
a definition and the type:

```
A := [A] => B
A => B
```

## Layout

- `src/types/terms/parse.rs`: the grammar of terms as a function on bytes,
  and a parser proved to follow it.
- `src/types/terms/count.rs`: name resolution to the innermost binding; the
  error names the first free name from the left.
- `src/types/terms/graph.rs`: the term laid out in arenas, the occurrences of
  each abstraction in one zone.
- `src/types/shape.rs`: unification over a table of types with clone links.
- `src/types/split.rs`: the representatives numbered as basic and function
  types.
- `src/guard.rs`: the sides of function types that close a cycle.
- `src/solve.rs`: the linear problem whose least solution places the hats.
- `src/print.rs`: the definitions and the printed type.
- `app/main.rs`: reading the file, solving the linear problem with `minilp`
  (in floating point), and printing.
