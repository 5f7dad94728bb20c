//! A small language for describing 2-D cellular automata, together with a
//! simulation engine that runs the described automaton on a toroidal grid.
//!
//! The pipeline is: source text -> lexer -> parser -> semantic analysis,
//! yielding a resolved rule set, which the automaton engine consumes.

pub mod automaton;
pub mod camera;
pub mod compiler;
pub mod display;
pub mod executor;
pub mod inputs;
pub mod text;
