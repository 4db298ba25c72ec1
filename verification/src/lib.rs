//! A second-order Markov chain over words: a weighted transition table that
//! is trained on word sequences, pruned, queried and walked at random.
//!
//! The table maps every context, the two most recent tokens, to the tokens
//! that were seen to follow it, each with the number of times it was seen.
//! [`model`] says what a table is and what each operation does to it;
//! [`laws`] proves what follows from that. [`Markov`] is the table itself,
//! [`Entry`] the successors of one context with the distribution that
//! samples them, and [`Chain`] a random walk through a table.

pub mod chain;
pub mod dist;
pub mod entry;
pub mod laws;
pub mod model;
pub mod prune;
pub mod query;
pub mod store;
pub mod table;
pub mod word;

pub use chain::Chain;
pub use entry::{Entry, TableError};
pub use table::Markov;
pub use word::{Token, Word, WordArray, START_WORDS, WORD_COUNT};
