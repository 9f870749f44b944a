pub mod parser;
pub mod lr;
pub mod closure;
pub mod collection;
pub mod automaton;
pub mod text;
pub mod reverseparse;
pub mod machine;
pub mod nda;
pub mod nda_collapse;
pub mod lexer;
pub mod regex;
