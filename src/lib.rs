//! A small regular-expression engine: patterns are lexed, parsed into a syntax
//! tree, compiled into a nondeterministic finite automaton, and the automaton is
//! used to test, generate and concatenate languages.
pub mod automaton;
pub mod tokenizer;
pub mod parser;
pub mod grammar;
pub mod language;
pub mod thompson;
pub mod compose;
pub mod search;
pub mod nfa;
pub mod random;
pub mod generate;
pub mod laws;
