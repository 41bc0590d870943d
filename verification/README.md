# ppsmc

Property-driven symbolic model checking of SMV models, verified with Verus.

`src/` is the verified library:

- `lexer`, `parser`, `grammar`, `token`, `ast`, `display`, `smv`: the SMV
  front end, each function specified against a grammar written as spec
  functions;
- `flatten`, `defines`, `expand`, `propositional`, `ltl`: rewriting of defines
  and `case` expressions, and the LTL formula handed to the translator;
- `never`: the never claims that LTL translators print;
- `valuation`, `bdd`: the meaning of a BDD as a set of valuations, and the BDD
  interface that a package implements;
- `trans`, `fsm`, `smvbdd`: transition relations with early quantification,
  state machines and their fixpoint searches, and the BDDs of a model;
- `automata`, `product`, `traditional`: Büchi automata, the property-driven
  check on the explicit product, and the classical check on the encoded one;
- `agreement`, `splitting`: proofs that the two checks agree, and that
  splitting the automaton on a variable keeps the verdict;
- `async_worker`, `command`: the worker rendezvous and the options.

`app/` is the program: the command line, the Sylvan BDD package behind the
library's interface, the call of Spot's `ltl2tgba`, and timing.
