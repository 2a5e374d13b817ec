# STUDENT — a verified algebra word-problem solver

STUDENT reads a high-school algebra word problem in English and solves it:

```
stdin / args → lexer → filter → translator → flattener → solver → formatter → stdout
```

The library (`src/`) holds every stage, each with a contract checked by
Verus; `app/main.rs` is the command-line program around it (arguments or an
interactive prompt, printing the answer or the error).

Numbers are exact fractions (`number.rs`), so `1 / 3 * 3` is exactly `1`;
results are printed as decimals with at most sixteen places. The range is
that of fractions whose numerator and denominator fit in 64 bits: a
literal beyond it, or a computation that leaves it, is reported as "A
number in the problem is too large to compute exactly." instead of being
rounded.

## Layout

| module        | what it does |
|---------------|--------------|
| `text`        | characters and strings: classification, comparison, trimming |
| `number`      | exact fractions in lowest terms, their arithmetic and printing |
| `types`       | tokens, expression trees, equations, and their mathematical views |
| `error`       | the errors of the pipeline and their messages |
| `lexer`       | sentence → tokens (words, numbers, number-words, punctuation) |
| `filter`      | drops noise words, sets signal words (`is`, `are`, `total`) aside |
| `translator`  | tokens → equations over expression trees |
| `flattener`   | nested expressions → flat equations with fresh variables `_t0`, `_t1`, … |
| `assignment`  | the solved values, kept sorted by name |
| `solver`      | scope checks, then constraint propagation, one unknown at a time |
| `semantics`   | the value of an expression under given variable values |
| `formatter`   | equations and answers as readable text |
| `pipeline`    | the whole chain on one sentence |

## What is proved

Besides each function's contract, the library proves laws such as:

- flattening yields flat equations, keeps their meaning in both
  directions, leaves flat equations as they are and so is idempotent
  (`law_flatten_output_is_flat`, `law_flatten_sound`,
  `law_flatten_complete`, `law_flatten_keeps_flat`, `law_flatten_idempotent`);
- translation either gives at least one equation or a parse error
  (`law_translate_outcomes`);
- the value found for a variable solves the equation it came from
  (`law_isolate_solves`, `law_invert_op_undoes`), and when the equations
  have a solution, every value a successful solve finds is that solution's
  (`law_solve_finds_solution`);
- `isolate` handles each of its documented shapes (`law_isolate_shapes`);
- a successful solve gives values to exactly the variables of the
  equations, with one trace line per variable
  (`law_solve_binds_exactly`, `law_solve_binds_every_variable`,
  `law_solve_trace`);
- fractions have one form: two in lowest terms with the same value are
  equal (`law_lowest_terms_unique`);
- tokenizing ignores case and makes well-shaped tokens; filtering ignores
  case, works piece by piece and leaves no noise word; temporaries never
  reach the displayed answer; whole numbers print without a decimal point.
