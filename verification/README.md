# shape_grammar

A verified tokenizer and parser for shape-grammar files, with the
geometry-free decisions of the modeler and of the viewer's event handling.

A grammar file is a list of rules `input -> operation(args) { outputs }`;
the operations are `scale`, `transpose`, `draw`, `split` and `components`.

- `src/tokenizer.rs`: characters to tokens (longest match), with the
  specification `take_token` / `spec_tokenize`.
- `src/token_laws.rs`: tokenizing keeps every character but white space, and
  the tokens written out with spaces read back to the same tokens.
- `src/grammar.rs`: rules and operations; numbers keep the text in which
  they were written.
- `src/parser.rs`: tokens to rules, with a spec function for each construct.
- `src/modeler.rs`: finding a rule by its input, naming the boxes a rule
  creates, and choosing which boxes are drawn.
- `src/events.rs`: the viewer's reaction to window events.
- `app/`: the program: reading the file, the floating-point geometry
  (cgmath) and the window (glium).
