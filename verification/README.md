# expr_compiler

A compiler front end for arithmetic expressions, and a model of their
parallel execution, verified with Verus.

The library (`src/`) holds:

- `tokenizer`, `syntax`, `checker`, `simplifier`: tokens, the syntax
  analyzers and their error reports (`report`, `layout`, `text`, `context`);
- `lexer`, `parser`, `ast`: lexemes and the recursive-descent parser that
  builds expression trees;
- `transform`, `balancer`, `folding`: rewriting subtractions and division
  chains, rebuilding `+` and `*` chains at least height, and folding back;
- `laws`, `associative`, `equivalent`: one step of the distributive law and
  one step of factoring, at every place of a tree, and the breadth-first
  search of all the forms they reach;
- `printer`: the tree drawn, and its canonical and minimal-bracket strings;
- `simulator`, `pcs`: the schedule of a tree's operations on a pipelined
  system with a configured number of units and latencies;
- `value`: what a tree evaluates to in a model (sums, differences,
  products and negation on integers, the rest left to the model), and the
  laws that transforming, balancing, folding, expanding and factoring keep
  that value;
- `settings`: output and logging settings.

Each public function states its result in its contract over mathematical
models of the data; the `law_*` proof functions state properties that span
calls, such as that a computation starts only after all it needs has ended.

`app/` is the command-line program: it reads the code file, computes
constants with `f64` arithmetic, runs the stages of the library on the tree
(its numbers written as text, or as keys where values are compared), and
writes the reports.
