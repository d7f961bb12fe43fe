//! Finite automata and a longest-match tokenizer.
//!
//! An automaton keeps its states in flat tables: a state is known to its
//! caller by a label and to the automaton by a handle, the place of the label
//! in the order of registration. [`Dfa`] follows one edge for each symbol;
//! [`Nfa`] follows every edge, with or without input, and
//! [`Nfa::into_dfa`] turns it into a [`Dfa`] that accepts the same words.
//! [`Tokenizer`] cuts a text into tokens under rules that pair a pattern
//! with what to make of a match.
//!
//! Every executable function carries a contract over a mathematical view of
//! what it works on, and every contract is proved. What is taken on trust of
//! the `regex` crate stands in the module [`pattern`].

pub mod determinize;
pub mod dfa;
pub mod equality;
pub mod error;
pub mod nfa;
pub mod pattern;
pub mod registry;
pub mod state_set;
pub mod text;
pub mod tokenizer;

pub use dfa::{Dfa, DfaView};
pub use equality::eq_decides;
pub use error::{DuplicateState, NoStartState, TransitionError, UnknownState};
pub use nfa::{Nfa, NfaView, Transition};
pub use pattern::Pattern;
pub use registry::StateRegistry;
pub use state_set::StateSet;
pub use tokenizer::{
    LexicalError, PatternError, Token, TokenParseRule, TokenRule, Tokenizer,
};
