# zinc

A verified core of the Zinc compiler and virtual machine, written in Verus.

- `src/lexical.rs`: locations, tokens, and the token stream that splits a
  source text into integer literals and symbols.
- `src/operand.rs`, `src/add_sub.rs`: the parser of chains of operands joined
  by `*`, `/` and `%`, which yields reverse Polish notation
  (`src/expression.rs`); its contract is the grammar of such chains.
- `src/tree.rs`, `src/builder.rs`: expression trees and the builder that
  grows them from operands and operators, grouping operators from the left.
- `src/semantic.rs`, `src/generator.rs`, `src/bytecode.rs`: the run-time types
  that code generation derives from semantic types, their sizes, and their
  bytecode data types.
- `src/vm_state.rs`, `src/vm.rs`, `src/instructions.rs`: the machine's
  evaluation and data stacks, frames, loops, calls and conditionals. The
  operations on values that conditionals need (conjunction, negation,
  selection) are supplied by whoever runs the machine, together with three
  relations that say what their results are. The machine keeps a ghost log
  of the calls it makes to them, and its contracts say which calls it makes,
  with which values, what it does with what they return, and that it fails
  after such a call only when the call failed.
  `src/vm_laws.rs` proves laws that relate the machine's operations.
- `src/directory.rs`: where a project's `data` directory stands.

`app/` holds what touches the file system: creating and removing the `data`
directory.
