//! Core of a small concurrent reverse-Polish-notation calculator, together
//! with a few companion utilities that share its style: a line tokenizer,
//! a command model that mutates a value stack, the shared evaluation state
//! that three actors (input, worker, display) operate on, a shopping-list
//! container, a delimiter-driven token iterator, a singly linked list,
//! some integer sequence generators, and small option/result adapters.
//!
//! Everything here is executable code with verified contracts; the actor
//! loops themselves (threads, locking, standard input and output, process
//! exit) live outside this library and call into it with plain values.

pub mod conversions;
pub mod llist;
pub mod operations;
pub mod sequences;
pub mod shopping;
pub mod state;
pub mod token_iter;
pub mod tokenize;
