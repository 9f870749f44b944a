# lrgen

A parser generator. It reads a grammar description, builds the canonical
collection of LR(1) states of the grammar, bakes them into action and return
tables, and writes out a table-driven parser (in Rust or C++) that runs the
grammar's user code on each reduction.

The library in `src/` is verified with Verus:

- `parser` – the syntax tree of a grammar description, and `parse`, which
  turns the lexemes of a description into that tree or a syntax error;
- `machine` – the parse machine behind `parse`, as a step function with its
  specification, and the checks on the lexemes it is given;
- `lr`, `closure`, `collection` – items, item sets and the LR(1) automaton
  (`LR::new`): closures with lookahead, successors, and the exploration of all
  states reachable from the start rule. The construction does not implement
  the "any token" wildcard `*`: a grammar may hold one, but where the
  construction meets it (an item of a reached state whose dot stands before
  it, or one among the tokens that can begin what follows a rule in such an
  item) it fails with `"Not implemented!"`. A reference to an undefined rule
  fails in the same places, and only there;
- `automaton` – the parse tables (`Automaton::new`), with ambiguity detection;
- `reverseparse`, `text` – the text of the generated Rust and C++ parsers;
- `nda`, `nda_collapse` – two experimental automata with a stack, built
  directly from the rules, and the merging of their states.

`app/` holds the command-line program: it lexes `simple.g` with the `logos`
lexer generator, runs the pipeline and writes the generated parser.
