//! Property-driven symbolic model checking of SMV models: the SMV front end
//! (lexer, parser, define flattening), the LTL preprocessing, and the
//! symbolic transition-system algorithms over an abstract BDD interface.
pub mod ast;
pub mod display;
pub mod token;
pub mod lexer;
pub mod grammar;
pub mod parser;
pub mod smv;
pub mod flatten;
pub mod defines;
pub mod expand;
pub mod propositional;
pub mod ltl;
pub mod valuation;
pub mod bdd;
pub mod trans;
pub mod fsm;
pub mod smvbdd;
pub mod automata;
pub mod never;
pub mod product;
pub mod command;
pub mod traditional;
pub mod async_worker;
pub mod agreement;
pub mod splitting;
