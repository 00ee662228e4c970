# lintkit

Verified building blocks of a JavaScript tool chain, written in Verus.

- `src/no_useless_forwarding_function.rs`: the `no-useless-forwarding-function`
  lint rule. It reports functions whose only returned expression calls a named
  function with every parameter passed on unchanged and in order. The rule reads
  a model of the syntax tree (`src/ast.rs`) and of the semantic tables
  (`src/semantic.rs`); its decision is proved equal to a specification of what
  it reports, and the warning it appends is the diagnostics crate's warning
  with the rule's message and help, labelled at the forwarding call. Run on
  every node of a program, the rule reports as many functions whatever the names
  are spelt (but for `eval`), and whether an arrow function returns its call
  bare, in parentheses or from a block that only returns it.
- `src/dedent.rs`: removes the common indentation of the non-blank lines of a
  text, with the byte/character semantics of the standard library's string
  slicing. Proved laws: dedenting twice gives what dedenting once gives on text
  without carriage returns whose indentation is ASCII, and a uniform extra
  indentation of every line is removed again on such text.
- `src/cli_outcome.rs`: the exit codes of the formatter's command line.
- `app/lib.rs`: builds the model from `oxc_semantic`'s tables and runs the rule,
  and gives the command-line outcomes their process exit status.
