pub mod symbol;
pub mod automaton;
pub mod lexer;
pub mod scan;

pub use symbol::Symbol;
pub use automaton::{
    Automaton, AutomatonBuilder, Automata, AutomataBuilder, keyword_automaton, keyword_automata,
    START,
};
pub use lexer::{Lexer, Token, TokenKind};
