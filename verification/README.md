# rdc

An arbitrary precision desk calculator in the style of `dc`, written in Verus.
The library under `src/` is verified: each public function states in its contract what it
returns and what it changes, and Verus proves it.

## Layout

- `src/parse.rs` reads program text into instructions (`src/instructions.rs`); its contract
  is a specification of the grammar over bytes.
- `src/dcstack.rs` is the stack of numbers and strings, with its model as a sequence.
- `src/vm.rs` is the machine. Its semantics are spec functions (`step`, `eval_list`, `run`),
  and `VM::execute` is proved to follow them.
- `src/decimal.rs` holds numbers between the calls into `bigdecimal`, which does the
  arithmetic; the contracts of those calls are trusted, not proved.
- `src/dcnumber/` is a decimal number type kept as a sequence of decimal digits, with its
  own verified addition, subtraction, multiplication by a small integer and comparison.
- `src/laws.rs` and `src/dcnumber/laws.rs` state properties that relate several functions,
  each as a proof function.
- `app/main.rs` is the command line: it reads files, runs the machine and writes its output.
  Square roots are computed there, in floating point, and handed to the machine.
