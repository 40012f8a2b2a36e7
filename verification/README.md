# playscript

A tiny, deterministic, fully metered scripting language with a tree-walking
interpreter, written in Verus: the lexer, the parser, the insertion-ordered
map and the metered evaluator are verified against their contracts.

## Layout

```
src/       the verified library
  lexer    source text to tokens, proved equal to a scanner specification
  grammar  the grammar as a specification: what tree a token sequence denotes
  parser   recursive descent, proved to compute exactly what the grammar says
  ast      the syntax tree
  map      insertion-ordered hash map (dense entries + open-addressing index)
  value    runtime values, the language's `==`, printing
  env      the stack of lexical scopes
  interp   the metered evaluator and its trace recorder
  host     what an embedder supplies: IEEE-754 arithmetic, formatting, output
  laws     properties that relate several operations
tests/     end-to-end tests of the language and tests of the pieces
app/       the command-line program (REPL, `--trace`) and the JSON bridge
```

Numbers are IEEE-754 doubles carried as their bit patterns: what the bits
decide (NaN, zero, equality, order, negation, the whole number that indexes
an array) is computed and proved in the library; rounding arithmetic,
decimal conversion and formatting come from the host. The `Host` trait
names each of these results with a spec function (`sum`, `product`,
`denoted`, `decimal`, ...) and its output with `output`; the library
assumes only that each method returns what its spec function names and
that `print` appends one line. The command-line program implements it with
Rust's `f64`.

## What is proved

- Every run terminates: evaluation is metered, and each recursive step and
  loop iteration consumes fuel, which is the termination measure.
- The evaluator is specified relationally (`Interpreter::eval_rel`,
  `exec_rel`, `call_rel`, `builtin_rel`, `program_rel`): for every kind of
  expression and statement the result and the state after it are tied to
  the results of its parts. Number literals, arithmetic, `len`,
  `getOperations`, `str` and the text that `print` emits are the host's
  results on the operands, as the `Host` spec functions name them. This
  fixes, for each construct, its value, the error and the state of every
  failure, the fuel each step charges, which bindings a block, a call,
  `var`, `=` and an index write leave, and the event each step records in
  the trace. The one cost left open is that of an index write: one op, or
  one per slot when the container is shared with another binding and must
  be copied.
- A successful run stays within its budget; running out of fuel names the
  budget and leaves it spent; an endless empty loop always ends so; the
  call depth never exceeds its limit.
- The trace is a timeline: at most 10 000 events, stamped in op-clock order,
  and a run starts it afresh. Recording copies the values it keeps, so the
  trace never shares an array or a map with the program.
- The lexer and the parser compute exactly what their specifications say,
  so a run's lexical and syntax errors are exactly the specified ones (a
  number token is shown as the host prints its value); a run that fails to
  lex or parse leaves the interpreter as it was.
- The map: lookups find the value last written under an equal key; updates
  keep an entry's position; removal keeps the order of the others.
- Printing: every value prints as the concatenation of its parts' printed
  forms, numbers in the host's decimal form.

The relations are closed; `lemma_exhausted`, `lemma_meter`,
`lemma_fresh_run` and `law_recording_consumes_no_fuel` state what they say of
the public views (`ops`, `budget`, `call_depth`, `scope_count`, `events`,
`host_state`).

What is not proved: that a traced run and a plain run agree, and that a run
is a function of its inputs. Both come down to the cost of an index write,
which the interpreter decides by whether the
container's `Rc` storage is held anywhere else (another binding, a capture,
an element of another container, an operand still being evaluated).
Verus's model of `Rc` is its contents alone: it has no reference count, so
no clause over the state can tell shared storage from unshared, and two
arrays with the same items cannot be proved the same value. The tests check
both promises on programs that write shared and unshared containers.
