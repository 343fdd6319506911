# cordy

The front end and library of Cordy, a small dynamically typed scripting language, written
in Verus: every function in `src/` is proved against its contract.

- `src/compiler/scanner.rs`: source text to tokens; `scan` is proved to follow a lexical
  grammar stated as spec functions.
- `src/compiler/parser.rs` and `src/compiler/parser/`: tokens to a postfix token stream with
  error recovery (`grammar.rs` states the parser as a state machine; each parsing method is
  proved to compute it), the laws of the parser (`laws.rs`, `roundtrip.rs`, `precedence.rs`, `newlines.rs`,
  `halting.rs`), expression trees
  (`expr.rs`) and code generation to opcodes (`codegen.rs`).
- `src/compiler/error_reporter.rs`: the messages of scan and parse errors.
- `src/vm/`: opcodes and their disassembly, values and how they are printed, runtime errors
  and their stack traces.
- `src/stdlib/`: string functions (formatting, regular expressions through `fancy-regex`,
  joining through `itertools`) and list functions.

  `max`, `min` and `sorted` are not here: they order values by the value type's ordering,
  which belongs to the virtual machine's value module and is not part of this code. `map`,
  `filter`, `reduce`, and `replace` with a function as replacer, call function values
  through the virtual machine, which is not part of this code either. What these make of
  the results of those calls is here, verified: `filter_kept` and `reduce_folded`
  (`lib_list.rs`) and `replace_each` (`strings.rs`) take the results as arguments.
- `src/cli.rs`: command line arguments.
- `app/main.rs`: the `cordy` command (file reading, the line editor through `rustyline`).

`tests/` holds the tests; they call the library as any user would.
